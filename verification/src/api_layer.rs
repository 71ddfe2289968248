//! The client-facing side of the node: the requests a client can make and
//! the parsing and hashing that turn raw request bytes into them.

use vstd::prelude::*;

verus! {

/// A request from a client of the key/value store: look a key up, or bind
/// it to a value. Keys are already hashed to identifier width.
#[derive(Debug)]
pub enum ClientMessage {
    Get(Vec<u8>),
    Put(Vec<u8>, Vec<u8>),
}

/// A well-formed client request: a full-width key, and a value whose
/// stored form fits a wire payload.
pub open spec fn client_msg_wf(m: ClientMessage) -> bool {
    match m {
        ClientMessage::Get(k) => k@.len() == crate::KEY_WIDTH,
        ClientMessage::Put(k, v) => k@.len() == crate::KEY_WIDTH && v@.len() <= u32::MAX
            - crate::KEY_WIDTH,
    }
}

/// The mathematical image of a `ClientMessage`.
pub enum ClientMessageV {
    Get(Seq<u8>),
    Put(Seq<u8>, Seq<u8>),
}

impl View for ClientMessage {
    type V = ClientMessageV;

    open spec fn view(&self) -> ClientMessageV {
        match self {
            ClientMessage::Get(k) => ClientMessageV::Get(k@),
            ClientMessage::Put(k, v) => ClientMessageV::Put(k@, v@),
        }
    }
}

/// The digest the key of a client request is reduced to before it is used
/// as a store key.
pub uninterp spec fn sha1_of(data: Seq<u8>) -> Seq<u8>;

/// Relies on crypto's Sha1 (Digest::input and Digest::result): a 20-byte
/// digest that depends on the input bytes alone.
#[verifier::external_body]
fn sha1_digest(data: &[u8]) -> (r: Vec<u8>)
    ensures
        r@ == sha1_of(data@),
        r@.len() == crate::KEY_WIDTH,
{
    let mut h = crypto::sha1::Sha1::new();
    crypto::digest::Digest::input(&mut h, data);
    let mut out: Vec<u8> = vec![0u8; 20];
    crypto::digest::Digest::result(&mut h, out.as_mut_slice());
    out
}

/// The request a client datagram denotes: a lookup is a type byte 0 and a
/// length-prefixed key, a store is a type byte 1 and a length-prefixed key
/// and value; the key is reduced to its digest. Truncated requests, other
/// type bytes, and values too large to ever be served denote nothing.
pub open spec fn decode_client(b: Seq<u8>) -> Option<ClientMessageV> {
    if b.len() < 5 {
        None
    } else {
        let klen = crate::message_protocol::be32_val(b.subrange(1, 5));
        if b[0] == 0 {
            if 5 + klen <= b.len() {
                Some(ClientMessageV::Get(sha1_of(b.subrange(5, 5 + klen))))
            } else {
                None
            }
        } else if b[0] == 1 {
            if 9 + klen <= b.len() {
                let vlen = crate::message_protocol::be32_val(b.subrange(5 + klen, 9 + klen));
                if 9 + klen + vlen <= b.len() && vlen + crate::KEY_WIDTH <= u32::MAX {
                    Some(ClientMessageV::Put(
                        sha1_of(b.subrange(5, 5 + klen)),
                        b.subrange(9 + klen, 9 + klen + vlen),
                    ))
                } else {
                    None
                }
            } else {
                None
            }
        } else {
            None
        }
    }
}

/// Parses one client datagram into a request, hashing the embedded key to
/// identifier width. Whatever comes back is well-formed.
pub fn parse_client_request(buf: &[u8]) -> (r: Option<ClientMessage>)
    ensures
        match r {
            Some(m) => decode_client(buf@) == Some(m@) && client_msg_wf(m),
            None => decode_client(buf@) is None,
        },
{
    if buf.len() < 5 {
        return None;
    }
    let tag = buf[0];
    if tag > 1 {
        return None;
    }
    let lenfield = &buf[1..5];
    let klen32 = crate::utils::u8_4_to_u32(lenfield);
    proof {
        assert(lenfield@ =~= buf@.subrange(1, 5));
    }
    let klen = klen32 as usize;
    if buf.len() - 5 < klen {
        return None;
    }
    let keyslice = &buf[5..5 + klen];
    proof {
        assert(keyslice@ =~= buf@.subrange(5, 5 + klen as int));
    }
    if tag == 0 {
        let hash = sha1_digest(keyslice);
        Some(ClientMessage::Get(hash))
    } else {
        if buf.len() - 5 < klen + 4 {
            proof {
                assert(9 + klen32 > buf@.len());
            }
            return None;
        }
        let vlenfield = &buf[5 + klen..9 + klen];
        let vlen32 = crate::utils::u8_4_to_u32(vlenfield);
        proof {
            assert(vlenfield@ =~= buf@.subrange(5 + klen as int, 9 + klen as int));
        }
        let vlen = vlen32 as usize;
        if buf.len() - 9 - klen < vlen {
            return None;
        }
        if vlen32 > u32::MAX - 20 {
            return None;
        }
        let hash = sha1_digest(keyslice);
        let val = crate::utils::copy_range(buf, 9 + klen, 9 + klen + vlen);
        Some(ClientMessage::Put(hash, val))
    }
}

} // verus!
