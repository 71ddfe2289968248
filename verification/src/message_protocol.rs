//! The binary wire protocol: the seven message kinds, their encoding into
//! self-describing byte envelopes, and decoding back.
//!
//! Envelope layout: `[1-byte type] [sender identifier] [4-byte big-endian
//! payload length] [payload]`. A contact record inside a `FindNodeResp`
//! payload is `identifier || 4-byte address || 2-byte big-endian port`.

use vstd::prelude::*;

verus! {

/// A node identifier or a lookup key: a byte sequence of width `KEY_WIDTH`.
pub type Key = Vec<u8>;

/// A stored value: an opaque byte sequence of variable length.
pub type Value = Vec<u8>;

/// Contact information for a peer: its identifier, 4-byte address and port.
#[derive(Clone, Debug, PartialEq, Eq)]
pub struct NodeContact {
    pub id: Vec<u8>,
    pub ip: Vec<u8>,
    pub port: u16,
}

/// The mathematical image of a `NodeContact`.
pub struct ContactV {
    pub id: Seq<u8>,
    pub ip: Seq<u8>,
    pub port: u16,
}

impl View for NodeContact {
    type V = ContactV;

    open spec fn view(&self) -> ContactV {
        ContactV { id: self.id@, ip: self.ip@, port: self.port }
    }
}

/// A peer-to-peer protocol message, always sent together with the sender's
/// identifier.
#[derive(Debug, PartialEq, Eq)]
pub enum Message {
    Ping,
    Store(Key, Value),
    FindNode(Key),
    FindVal(Key),
    PingResp,
    FindNodeResp(Key, Vec<NodeContact>),
    FindValResp(Key, Value),
}

/// The mathematical image of a `Message`.
pub enum MessageV {
    Ping,
    Store(Seq<u8>, Seq<u8>),
    FindNode(Seq<u8>),
    FindVal(Seq<u8>),
    PingResp,
    FindNodeResp(Seq<u8>, Seq<ContactV>),
    FindValResp(Seq<u8>, Seq<u8>),
}

impl View for Message {
    type V = MessageV;

    open spec fn view(&self) -> MessageV {
        match self {
            Message::Ping => MessageV::Ping,
            Message::Store(k, v) => MessageV::Store(k@, v@),
            Message::FindNode(k) => MessageV::FindNode(k@),
            Message::FindVal(k) => MessageV::FindVal(k@),
            Message::PingResp => MessageV::PingResp,
            Message::FindNodeResp(k, cs) => MessageV::FindNodeResp(
                k@,
                cs@.map_values(|c: NodeContact| c@),
            ),
            Message::FindValResp(k, v) => MessageV::FindValResp(k@, v@),
        }
    }
}

/// A well-formed identifier has exactly the configured width.
pub open spec fn id_wf(s: Seq<u8>) -> bool {
    s.len() == crate::KEY_WIDTH
}

/// A well-formed contact: full-width identifier and a 4-byte address.
pub open spec fn contact_wf(c: ContactV) -> bool {
    id_wf(c.id) && c.ip.len() == 4
}

/// A message that can be put on the wire: well-formed keys and contacts,
/// and a payload whose length fits the 4-byte length field.
pub open spec fn msg_wf(m: MessageV) -> bool {
    match m {
        MessageV::Ping => true,
        MessageV::PingResp => true,
        MessageV::Store(k, v) => id_wf(k) && k.len() + v.len() <= u32::MAX,
        MessageV::FindNode(k) => id_wf(k),
        MessageV::FindVal(k) => id_wf(k),
        MessageV::FindNodeResp(k, cs) => id_wf(k) && (forall|i: int|
            0 <= i < cs.len() ==> contact_wf(cs[i])) && k.len() + 26 * cs.len() <= u32::MAX,
        MessageV::FindValResp(k, v) => id_wf(k) && k.len() + v.len() <= u32::MAX,
    }
}

/// The wire tag of each message kind.
pub open spec fn tag_of(m: MessageV) -> u8 {
    match m {
        MessageV::Ping => 0,
        MessageV::PingResp => 1,
        MessageV::Store(k, v) => 2,
        MessageV::FindNode(k) => 3,
        MessageV::FindVal(k) => 4,
        MessageV::FindNodeResp(k, cs) => 5,
        MessageV::FindValResp(k, v) => 6,
    }
}

/// A length as four big-endian bytes.
pub open spec fn be32(n: int) -> Seq<u8> {
    seq![
        (n / 0x1000000 % 0x100) as u8,
        (n / 0x10000 % 0x100) as u8,
        (n / 0x100 % 0x100) as u8,
        (n % 0x100) as u8,
    ]
}

/// The integer a four-byte big-endian sequence denotes.
pub open spec fn be32_val(s: Seq<u8>) -> int {
    s[0] * 0x1000000 + s[1] * 0x10000 + s[2] * 0x100 + s[3]
}

/// The wire form of one contact record.
pub open spec fn record_bytes(c: ContactV) -> Seq<u8> {
    c.id + c.ip + seq![(c.port / 0x100) as u8, (c.port % 0x100) as u8]
}

/// The wire form of a list of contact records, in order.
pub open spec fn records_bytes(cs: Seq<ContactV>) -> Seq<u8>
    decreases cs.len(),
{
    if cs.len() == 0 {
        Seq::empty()
    } else {
        record_bytes(cs[0]) + records_bytes(cs.drop_first())
    }
}

/// The payload of each message kind.
pub open spec fn payload_bytes(m: MessageV) -> Seq<u8> {
    match m {
        MessageV::Ping => Seq::empty(),
        MessageV::PingResp => Seq::empty(),
        MessageV::Store(k, v) => k + v,
        MessageV::FindNode(k) => k,
        MessageV::FindVal(k) => k,
        MessageV::FindNodeResp(k, cs) => k + records_bytes(cs),
        MessageV::FindValResp(k, v) => k + v,
    }
}

/// The full encoded envelope of a message from a given sender.
pub open spec fn encode_bytes(m: MessageV, sender: Seq<u8>) -> Seq<u8> {
    seq![tag_of(m)] + sender + be32(payload_bytes(m).len() as int) + payload_bytes(m)
}

/// Appends all bytes of `data` to `out`.
fn push_bytes(out: &mut Vec<u8>, data: &Vec<u8>)
    ensures
        final(out)@ == old(out)@ + data@,
{
    let mut i: usize = 0;
    while i < data.len()
        invariant
            i <= data@.len(),
            out@.len() == old(out)@.len() + i,
            out@ == old(out)@ + data@.take(i as int),
        decreases data@.len() - i,
    {
        out.push(data[i]);
        proof {
            assert(out@ =~= old(out)@ + data@.take(i + 1));
        }
        i = i + 1;
    }
    proof {
        assert(out@ =~= old(out)@ + data@);
    }
}

/// Appends a `u32` to `out` as four big-endian bytes.
fn push_be32(out: &mut Vec<u8>, n: u32)
    ensures
        final(out)@ == old(out)@ + be32(n as int),
{
    proof {
        assert(n / 0x1000000 < 0x100 && n / 0x1000000 % 0x100 == n / 0x1000000)
            by (bit_vector);
    }
    out.push((n / 0x1000000) as u8);
    out.push(((n / 0x10000) % 0x100) as u8);
    out.push(((n / 0x100) % 0x100) as u8);
    out.push((n % 0x100) as u8);
    proof {
        assert(out@ =~= old(out)@ + be32(n as int));
    }
}

/// The common envelope head: tag, sender identifier, payload length.
fn push_head(out: &mut Vec<u8>, tag: u8, sender: &Key, payload_len: u32)
    requires
        old(out)@.len() == 0,
        sender@.len() == crate::KEY_WIDTH,
    ensures
        final(out)@ == seq![tag] + sender@ + be32(payload_len as int),
{
    out.push(tag);
    push_bytes(out, sender);
    push_be32(out, payload_len);
    proof {
        assert(out@ =~= seq![tag] + sender@ + be32(payload_len as int));
    }
}

/// Encodes a `Ping` from the given sender.
pub fn ping_msg(sender: &Key) -> (r: Vec<u8>)
    requires
        sender@.len() == crate::KEY_WIDTH,
    ensures
        r@ == encode_bytes(MessageV::Ping, sender@),
{
    let mut out: Vec<u8> = Vec::new();
    push_head(&mut out, 0, sender, 0);
    proof {
        assert(out@ =~= encode_bytes(MessageV::Ping, sender@));
    }
    out
}

/// Encodes a `PingResp` from the given sender.
pub fn ping_ack(sender: &Key) -> (r: Vec<u8>)
    requires
        sender@.len() == crate::KEY_WIDTH,
    ensures
        r@ == encode_bytes(MessageV::PingResp, sender@),
{
    let mut out: Vec<u8> = Vec::new();
    push_head(&mut out, 1, sender, 0);
    proof {
        assert(out@ =~= encode_bytes(MessageV::PingResp, sender@));
    }
    out
}

/// Encodes a `Store` of `val` under `key` from the given sender.
pub fn store_msg(sender: &Key, key: &Key, val: &Value) -> (r: Vec<u8>)
    requires
        sender@.len() == crate::KEY_WIDTH,
        key@.len() == crate::KEY_WIDTH,
        key@.len() + val@.len() <= u32::MAX,
    ensures
        r@ == encode_bytes(MessageV::Store(key@, val@), sender@),
{
    let mut out: Vec<u8> = Vec::new();
    push_head(&mut out, 2, sender, (key.len() + val.len()) as u32);
    push_bytes(&mut out, key);
    push_bytes(&mut out, val);
    proof {
        assert(out@ =~= encode_bytes(MessageV::Store(key@, val@), sender@));
    }
    out
}

/// Encodes a `FindNode` for `key` from the given sender.
pub fn find_node_msg(sender: &Key, key: &Key) -> (r: Vec<u8>)
    requires
        sender@.len() == crate::KEY_WIDTH,
        key@.len() == crate::KEY_WIDTH,
    ensures
        r@ == encode_bytes(MessageV::FindNode(key@), sender@),
{
    let mut out: Vec<u8> = Vec::new();
    push_head(&mut out, 3, sender, key.len() as u32);
    push_bytes(&mut out, key);
    proof {
        assert(out@ =~= encode_bytes(MessageV::FindNode(key@), sender@));
    }
    out
}

/// Encodes a `FindVal` for `key` from the given sender.
pub fn find_val_msg(sender: &Key, key: &Key) -> (r: Vec<u8>)
    requires
        sender@.len() == crate::KEY_WIDTH,
        key@.len() == crate::KEY_WIDTH,
    ensures
        r@ == encode_bytes(MessageV::FindVal(key@), sender@),
{
    let mut out: Vec<u8> = Vec::new();
    push_head(&mut out, 4, sender, key.len() as u32);
    push_bytes(&mut out, key);
    proof {
        assert(out@ =~= encode_bytes(MessageV::FindVal(key@), sender@));
    }
    out
}

/// Encodes a `FindNodeResp` carrying the given contacts, from the sender.
pub fn find_node_resp(sender: &Key, closest: &Vec<NodeContact>, key: &Key) -> (r: Vec<u8>)
    requires
        sender@.len() == crate::KEY_WIDTH,
        key@.len() == crate::KEY_WIDTH,
        forall|i: int| 0 <= i < closest@.len() ==> contact_wf(#[trigger] closest@[i]@),
        key@.len() + 26 * closest@.len() <= u32::MAX,
    ensures
        r@ == encode_bytes(
            MessageV::FindNodeResp(key@, closest@.map_values(|c: NodeContact| c@)),
            sender@,
        ),
{
    let ghost cs = closest@.map_values(|c: NodeContact| c@);
    proof {
        lemma_records_bytes_len(cs);
    }
    let payload_len = key.len() + 26 * closest.len();
    let mut out: Vec<u8> = Vec::new();
    push_head(&mut out, 5, sender, payload_len as u32);
    push_bytes(&mut out, key);
    let mut i: usize = 0;
    while i < closest.len()
        invariant
            i <= closest@.len(),
            cs == closest@.map_values(|c: NodeContact| c@),
            forall|j: int| 0 <= j < closest@.len() ==> contact_wf(#[trigger] closest@[j]@),
            out@ == seq![5u8] + sender@ + be32(payload_len as int) + key@ + records_bytes(
                cs.take(i as int),
            ),
        decreases closest@.len() - i,
    {
        let c = &closest[i];
        push_bytes(&mut out, &c.id);
        push_bytes(&mut out, &c.ip);
        let pb = crate::utils::u16_to_u8_2(&c.port);
        push_bytes(&mut out, &pb);
        proof {
            assert(cs.take(i + 1) =~= cs.take(i as int).push(cs[i as int]));
            lemma_records_bytes_push(cs.take(i as int), cs[i as int]);
            assert(pb@ =~= seq![(c.port / 0x100) as u8, (c.port % 0x100) as u8]);
            assert(out@ =~= seq![5u8] + sender@ + be32(payload_len as int) + key@
                + records_bytes(cs.take(i + 1)));
        }
        i = i + 1;
    }
    proof {
        assert(cs.take(cs.len() as int) =~= cs);
        assert(out@ =~= encode_bytes(MessageV::FindNodeResp(key@, cs), sender@));
    }
    out
}

/// Encodes a `FindValResp` carrying `val` under `key`, from the sender.
pub fn find_val_resp(sender: &Key, key: &Key, val: &Value) -> (r: Vec<u8>)
    requires
        sender@.len() == crate::KEY_WIDTH,
        key@.len() == crate::KEY_WIDTH,
        key@.len() + val@.len() <= u32::MAX,
    ensures
        r@ == encode_bytes(MessageV::FindValResp(key@, val@), sender@),
{
    let mut out: Vec<u8> = Vec::new();
    push_head(&mut out, 6, sender, (key.len() + val.len()) as u32);
    push_bytes(&mut out, key);
    push_bytes(&mut out, val);
    proof {
        assert(out@ =~= encode_bytes(MessageV::FindValResp(key@, val@), sender@));
    }
    out
}

/// The four big-endian bytes of a length denote the length itself.
proof fn lemma_be32_roundtrip(n: u32)
    ensures
        be32_val(be32(n as int)) == n,
{
    assert(((n / 0x1000000) % 0x100) * 0x1000000 + ((n / 0x10000) % 0x100) * 0x10000 + ((n
        / 0x100) % 0x100) * 0x100 + (n % 0x100) == n) by (bit_vector);
}

/// Parsing the encoded records of well-formed contacts gives the contacts
/// back.
proof fn lemma_parse_records_roundtrip(cs: Seq<ContactV>)
    requires
        forall|i: int| 0 <= i < cs.len() ==> contact_wf(#[trigger] cs[i]),
    ensures
        parse_records(records_bytes(cs)) == cs,
    decreases cs.len(),
{
    if cs.len() == 0 {
        assert(parse_records(records_bytes(cs)) =~= cs);
    } else {
        let c = cs[0];
        let r = records_bytes(cs);
        lemma_records_bytes_len(cs);
        assert(record_bytes(c).len() == 26);
        assert(r.subrange(0, 20) =~= c.id);
        assert(r.subrange(20, 24) =~= c.ip);
        assert(r[24] == (c.port / 0x100) as u8);
        assert(r[25] == (c.port % 0x100) as u8);
        vstd::arithmetic::div_mod::lemma_fundamental_div_mod(c.port as int, 0x100);
        assert((r[24] * 0x100 + r[25]) as u16 == c.port);
        assert(r.skip(26) =~= records_bytes(cs.drop_first()));
        lemma_parse_records_roundtrip(cs.drop_first());
        assert(parse_records(r) =~= cs);
    }
}

/// Decoding an encoded message gives back the message and its sender: the
/// encoder and the decoder form an exact round trip for well-formed input.
pub proof fn lemma_decode_encode(m: MessageV, sender: Seq<u8>)
    requires
        msg_wf(m),
        id_wf(sender),
    ensures
        decode_bytes(encode_bytes(m, sender)) == Some((m, sender)),
{
    let p = payload_bytes(m);
    if let MessageV::FindNodeResp(k, cs) = m {
        lemma_records_bytes_len(cs);
    }
    assert(p.len() <= u32::MAX);
    let b = encode_bytes(m, sender);
    assert(b.len() == 25 + p.len());
    assert(b[0] == tag_of(m));
    assert(b.subrange(1, 21) =~= sender);
    assert(b.subrange(21, 25) =~= be32(p.len() as int));
    lemma_be32_roundtrip(p.len() as u32);
    assert(be32_val(b.subrange(21, 25)) == p.len());
    assert(b.skip(25) =~= p);
    match m {
        MessageV::Ping => {},
        MessageV::PingResp => {},
        MessageV::Store(k, v) => {
            assert(p.take(20) =~= k);
            assert(p.skip(20) =~= v);
        },
        MessageV::FindNode(k) => {
            assert(p == k);
        },
        MessageV::FindVal(k) => {
            assert(p == k);
        },
        MessageV::FindNodeResp(k, cs) => {
            assert(p.take(20) =~= k);
            assert(p.skip(20) =~= records_bytes(cs));
            vstd::arithmetic::div_mod::lemma_mod_multiples_basic(cs.len() as int, 26);
            assert((p.len() - 20) % 26 == 0);
            lemma_parse_records_roundtrip(cs);
        },
        MessageV::FindValResp(k, v) => {
            assert(p.take(20) =~= k);
            assert(p.skip(20) =~= v);
        },
    }
}

/// A list of `n` well-formed contact records occupies `26 * n` bytes.
pub proof fn lemma_records_bytes_len(cs: Seq<ContactV>)
    requires
        forall|i: int| 0 <= i < cs.len() ==> contact_wf(#[trigger] cs[i]),
    ensures
        records_bytes(cs).len() == 26 * cs.len(),
    decreases cs.len(),
{
    if cs.len() > 0 {
        lemma_records_bytes_len(cs.drop_first());
    }
}

/// The contact records a `FindNodeResp` payload denotes, 26 bytes each.
pub open spec fn parse_records(p: Seq<u8>) -> Seq<ContactV>
    decreases p.len(),
{
    if p.len() < 26 {
        Seq::empty()
    } else {
        seq![
            ContactV {
                id: p.subrange(0, 20),
                ip: p.subrange(20, 24),
                port: (p[24] * 0x100 + p[25]) as u16,
            },
        ] + parse_records(p.skip(26))
    }
}

/// The message and sender a byte buffer denotes, or nothing if the buffer
/// is truncated, carries an unknown type tag, or misdeclares its length.
pub open spec fn decode_bytes(b: Seq<u8>) -> Option<(MessageV, Seq<u8>)> {
    if b.len() < 25 {
        None
    } else {
        let tag = b[0];
        let sender = b.subrange(1, 21);
        let declared = be32_val(b.subrange(21, 25));
        let payload = b.skip(25);
        if payload.len() != declared {
            None
        } else if tag == 0 {
            if payload.len() == 0 {
                Some((MessageV::Ping, sender))
            } else {
                None
            }
        } else if tag == 1 {
            if payload.len() == 0 {
                Some((MessageV::PingResp, sender))
            } else {
                None
            }
        } else if tag == 2 {
            if payload.len() >= 20 {
                Some((MessageV::Store(payload.take(20), payload.skip(20)), sender))
            } else {
                None
            }
        } else if tag == 3 {
            if payload.len() == 20 {
                Some((MessageV::FindNode(payload), sender))
            } else {
                None
            }
        } else if tag == 4 {
            if payload.len() == 20 {
                Some((MessageV::FindVal(payload), sender))
            } else {
                None
            }
        } else if tag == 5 {
            if payload.len() >= 20 && (payload.len() - 20) % 26 == 0 {
                Some((MessageV::FindNodeResp(payload.take(20), parse_records(payload.skip(20))), sender))
            } else {
                None
            }
        } else if tag == 6 {
            if payload.len() >= 20 {
                Some((MessageV::FindValResp(payload.take(20), payload.skip(20)), sender))
            } else {
                None
            }
        } else {
            None
        }
    }
}

/// Copies the head of a byte slice into a full-width key, padding with
/// zeroes when the slice is shorter than the width.
pub fn key_cpy(key_addr: &[u8]) -> (r: Key)
    ensures
        r@.len() == crate::KEY_WIDTH,
        forall|i: int|
            0 <= i < crate::KEY_WIDTH ==> r@[i] == (if i < key_addr@.len() {
                key_addr@[i]
            } else {
                0u8
            }),
{
    let mut r: Vec<u8> = Vec::new();
    let mut i: usize = 0;
    while i < crate::KEY_WIDTH
        invariant
            i <= crate::KEY_WIDTH,
            r@.len() == i,
            forall|j: int|
                0 <= j < i ==> r@[j] == (if j < key_addr@.len() {
                    key_addr@[j]
                } else {
                    0u8
                }),
        decreases crate::KEY_WIDTH - i,
    {
        if i < key_addr.len() {
            r.push(key_addr[i]);
        } else {
            r.push(0);
        }
        i = i + 1;
    }
    r
}

/// Copies the head of a byte slice into a 4-byte address, padding with
/// zeroes when the slice is shorter.
pub fn ip_cpy(key_addr: &[u8]) -> (r: Vec<u8>)
    ensures
        r@.len() == 4,
        forall|i: int|
            0 <= i < 4 ==> r@[i] == (if i < key_addr@.len() {
                key_addr@[i]
            } else {
                0u8
            }),
{
    let mut r: Vec<u8> = Vec::new();
    let mut i: usize = 0;
    while i < 4
        invariant
            i <= 4,
            r@.len() == i,
            forall|j: int|
                0 <= j < i ==> r@[j] == (if j < key_addr@.len() {
                    key_addr@[j]
                } else {
                    0u8
                }),
        decreases 4 - i,
    {
        if i < key_addr.len() {
            r.push(key_addr[i]);
        } else {
            r.push(0);
        }
        i = i + 1;
    }
    r
}

/// Encodes any message from the given sender.
pub fn encode_message(msg: &Message, sender: &Key) -> (r: Vec<u8>)
    requires
        msg_wf(msg@),
        id_wf(sender@),
    ensures
        r@ == encode_bytes(msg@, sender@),
{
    match msg {
        Message::Ping => ping_msg(sender),
        Message::PingResp => ping_ack(sender),
        Message::Store(k, v) => store_msg(sender, k, v),
        Message::FindNode(k) => find_node_msg(sender, k),
        Message::FindVal(k) => find_val_msg(sender, k),
        Message::FindNodeResp(k, cs) => {
            proof {
                assert forall|i: int| 0 <= i < cs@.len() implies contact_wf(#[trigger] cs@[i]@) by {
                    assert(cs@.map_values(|c: NodeContact| c@)[i] == cs@[i]@);
                }
            }
            find_node_resp(sender, cs, k)
        },
        Message::FindValResp(k, v) => find_val_resp(sender, k, v),
    }
}

/// Decodes one datagram. Returns the message and the sender identifier, or
/// nothing on a truncated buffer, an unknown tag, or a length mismatch.
/// Whatever comes back is well-formed.
pub fn try_decode(bytes: &[u8], keysize: &usize) -> (r: Option<(Message, Key)>)
    requires
        *keysize == crate::KEY_WIDTH,
    ensures
        match r {
            Some(p) => decode_bytes(bytes@) == Some((p.0@, p.1@)) && msg_wf(p.0@) && id_wf(p.1@),
            None => decode_bytes(bytes@) is None,
        },
{
    let ks = *keysize;
    if bytes.len() < ks + 5 {
        return None;
    }
    let tag = bytes[0];
    if tag > 6 {
        return None;
    }
    let sender = key_cpy(&bytes[1..ks + 1]);
    proof {
        assert(sender@ =~= bytes@.subrange(1, 21));
    }
    let lenfield = &bytes[ks + 1..ks + 5];
    let declared = crate::utils::u8_4_to_u32(lenfield);
    let payload_len = bytes.len() - (ks + 5);
    proof {
        assert(lenfield@ =~= bytes@.subrange(21, 25));
        assert(be32_val(bytes@.subrange(21, 25)) == declared);
    }
    if payload_len != declared as usize {
        return None;
    }
    let some_msg: Message;
    if tag == 0 {
        if payload_len != 0 {
            return None;
        }
        some_msg = Message::Ping;
    } else if tag == 1 {
        if payload_len != 0 {
            return None;
        }
        some_msg = Message::PingResp;
    } else if tag == 2 {
        if payload_len < ks {
            return None;
        }
        let key = key_cpy(&bytes[ks + 5..ks + 5 + ks]);
        let val = copy_tail(bytes, ks + 5 + ks);
        proof {
            assert(key@ =~= bytes@.skip(25).take(20));
            assert(val@ =~= bytes@.skip(25).skip(20));
        }
        some_msg = Message::Store(key, val);
    } else if tag == 3 {
        if payload_len != ks {
            return None;
        }
        let key = key_cpy(&bytes[ks + 5..ks + 5 + ks]);
        proof {
            assert(key@ =~= bytes@.skip(25));
        }
        some_msg = Message::FindNode(key);
    } else if tag == 4 {
        if payload_len != ks {
            return None;
        }
        let key = key_cpy(&bytes[ks + 5..ks + 5 + ks]);
        proof {
            assert(key@ =~= bytes@.skip(25));
        }
        some_msg = Message::FindVal(key);
    } else if tag == 5 {
        if payload_len < ks {
            return None;
        }
        let key = key_cpy(&bytes[ks + 5..ks + 5 + ks]);
        proof {
            assert(key@ =~= bytes@.skip(25).take(20));
        }
        let nfield_len = payload_len - ks;
        if nfield_len % 26 != 0 {
            return None;
        }
        let num_returned = nfield_len / 26;
        let ghost nfield = bytes@.skip(45);
        proof {
            assert(nfield =~= bytes@.skip(25).skip(20));
            assert(nfield.len() == 26 * num_returned);
        }
        let mut contacts: Vec<NodeContact> = Vec::new();
        let mut n: usize = 0;
        proof {
            assert(nfield.skip(0) =~= nfield);
            assert(contacts@.map_values(|c: NodeContact| c@) + parse_records(nfield)
                =~= parse_records(nfield));
        }
        while n < num_returned
            invariant
                n <= num_returned,
                bytes@.len() == 45 + 26 * num_returned,
                bytes@.len() <= usize::MAX,
                nfield == bytes@.skip(45),
                nfield.len() == 26 * num_returned,
                contacts@.len() == n,
                forall|j: int| 0 <= j < contacts@.len() ==> contact_wf((#[trigger] contacts@[j])@),
                contacts@.map_values(|c: NodeContact| c@) + parse_records(nfield.skip(26 * n))
                    == parse_records(nfield),
            decreases num_returned - n,
        {
            let off = 45 + n * 26;
            let node_id = key_cpy(&bytes[off..off + 20]);
            let ip_addr = ip_cpy(&bytes[off + 20..off + 24]);
            let port = crate::utils::u8_2_to_u16(&bytes[off + 24..off + 26]);
            let contact = NodeContact { id: node_id, ip: ip_addr, port };
            proof {
                let q = nfield.skip(26 * n);
                assert(q.len() >= 26);
                assert(q.subrange(0, 20) =~= bytes@.subrange(off as int, off + 20));
                assert(q.subrange(20, 24) =~= bytes@.subrange(off + 20, off + 24));
                assert(q[24] == bytes@[off + 24] && q[25] == bytes@[off + 25]);
                assert(contact@.id =~= q.subrange(0, 20));
                assert(contact@.ip =~= q.subrange(20, 24));
                assert(q.skip(26) =~= nfield.skip(26 * (n + 1)));
                assert(parse_records(q) == seq![contact@] + parse_records(nfield.skip(26 * (n + 1))));
                assert(contacts@.push(contact).map_values(|c: NodeContact| c@) =~= contacts@.map_values(
                    |c: NodeContact| c@,
                ).push(contact@));
                assert(contacts@.map_values(|c: NodeContact| c@).push(contact@) + parse_records(
                    nfield.skip(26 * (n + 1)),
                ) =~= contacts@.map_values(|c: NodeContact| c@) + parse_records(nfield.skip(26 * n)));
            }
            contacts.push(contact);
            n = n + 1;
        }
        proof {
            assert(nfield.skip(26 * num_returned) =~= Seq::<u8>::empty());
            assert(parse_records(nfield.skip(26 * num_returned)) =~= Seq::<ContactV>::empty());
            assert(contacts@.map_values(|c: NodeContact| c@) =~= parse_records(nfield));
        }
        some_msg = Message::FindNodeResp(key, contacts);
    } else {
        if payload_len < ks {
            return None;
        }
        let key = key_cpy(&bytes[ks + 5..ks + 5 + ks]);
        let val = copy_tail(bytes, ks + 5 + ks);
        proof {
            assert(key@ =~= bytes@.skip(25).take(20));
            assert(val@ =~= bytes@.skip(25).skip(20));
        }
        some_msg = Message::FindValResp(key, val);
    }
    Some((some_msg, sender))
}

/// Copies everything from `start` to the end of the slice.
fn copy_tail(bytes: &[u8], start: usize) -> (r: Vec<u8>)
    requires
        start <= bytes@.len(),
    ensures
        r@ == bytes@.skip(start as int),
{
    let mut r: Vec<u8> = Vec::new();
    let mut i: usize = start;
    while i < bytes.len()
        invariant
            start <= i <= bytes@.len(),
            r@.len() == i - start,
            forall|j: int| 0 <= j < r@.len() ==> r@[j] == bytes@[start + j],
        decreases bytes@.len() - i,
    {
        r.push(bytes[i]);
        i = i + 1;
    }
    proof {
        assert(r@ =~= bytes@.skip(start as int));
    }
    r
}

/// Appending one contact appends its record to the encoded list.
proof fn lemma_records_bytes_push(s: Seq<ContactV>, c: ContactV)
    ensures
        records_bytes(s.push(c)) == records_bytes(s) + record_bytes(c),
    decreases s.len(),
{
    if s.len() == 0 {
        assert(s.push(c)[0] == c);
        assert(s.push(c).drop_first() =~= Seq::<ContactV>::empty());
        assert(records_bytes(Seq::<ContactV>::empty()) == Seq::<u8>::empty());
        assert(records_bytes(s.push(c)) =~= records_bytes(s) + record_bytes(c));
    } else {
        lemma_records_bytes_push(s.drop_first(), c);
        assert(s.push(c).drop_first() =~= s.drop_first().push(c));
        assert(s.push(c)[0] == s[0]);
        assert(records_bytes(s) + record_bytes(c) =~= record_bytes(s[0]) + (records_bytes(
            s.drop_first(),
        ) + record_bytes(c)));
    }
}

} // verus!

