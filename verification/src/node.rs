//! The local node state: the k-bucket routing table with its
//! least-recently-seen eviction policy, the key/value store, and the
//! handling of decoded peer messages.

use vstd::prelude::*;

use crate::identity::{
    all_zero, bucket_index_of, cmp_dist, dist_as_bytes, dist_lt, is_first_nonzero,
    lemma_dist_ge_trans, lemma_dist_lt_trans, lemma_first_nonzero_unique, xor_bytes,
    DistanceOrder,
};
use crate::api_layer::{client_msg_wf, ClientMessage};
use crate::message_protocol::{
    contact_wf, encode_bytes, encode_message, msg_wf, ping_msg, ContactV, Key, Message, MessageV,
    NodeContact,
};

verus! {

/// The views of the contacts of a bucket, in bucket order.
pub open spec fn cv(b: Seq<NodeContact>) -> Seq<ContactV> {
    b.map_values(|c: NodeContact| c@)
}

/// Whether some contact in `b` carries the identifier `id`.
pub open spec fn bucket_has_id(b: Seq<ContactV>, id: Seq<u8>) -> bool {
    exists|i: int| 0 <= i < b.len() && b[i].id == id
}

/// The position of a contact carrying `id`, when one exists.
pub open spec fn index_with_id(b: Seq<ContactV>, id: Seq<u8>) -> int {
    choose|i: int| 0 <= i < b.len() && b[i].id == id
}

/// `b` without its contact carrying `id`, if any.
pub open spec fn remove_id(b: Seq<ContactV>, id: Seq<u8>) -> Seq<ContactV> {
    if bucket_has_id(b, id) {
        b.remove(index_with_id(b, id))
    } else {
        b
    }
}

/// A well-formed bucket: at most `k` contacts, each well-formed, no
/// identifier twice.
pub open spec fn bucket_wf(b: Seq<ContactV>, k: int) -> bool {
    &&& b.len() <= k
    &&& forall|i: int| 0 <= i < b.len() ==> contact_wf(#[trigger] b[i])
    &&& forall|i: int, j: int| 0 <= i < j < b.len() ==> #[trigger] b[i].id != #[trigger] b[j].id
}

/// A full bucket received contact information for a peer it does not hold:
/// the least-recently-seen occupant is paired with the newcomer, pending a
/// liveness check, and nothing is applied to the table yet.
#[derive(Clone, Debug, PartialEq, Eq)]
pub struct EvictionCandidate {
    pub old: NodeContact,
    pub new: NodeContact,
}

impl NodeContact {
    /// An explicit copy of a contact.
    pub fn duplicate(&self) -> (r: NodeContact)
        ensures
            r@ == self@,
    {
        NodeContact {
            id: crate::utils::clone_bytes(&self.id),
            ip: crate::utils::clone_bytes(&self.ip),
            port: self.port,
        }
    }
}

/// The state a node owns: its identifier, the routing table, the capacity
/// of each bucket, and the key/value store.
pub struct KademliaNode {
    pub addr_id: Vec<u8>,
    pub buckets: Vec<Vec<NodeContact>>,
    pub k_val: usize,
    pub data: Vec<(Vec<u8>, Vec<u8>)>,
}

impl KademliaNode {
    /// Well-formedness: full-width identifier, one bucket per index, each
    /// bucket well-formed, stored keys full-width and unique.
    pub open spec fn wf(self) -> bool {
        &&& self.addr_id@.len() == crate::KEY_WIDTH
        &&& self.buckets@.len() == crate::NUM_BUCKETS
        &&& 1 <= self.k_val <= 0xFFFF
        &&& forall|b: int|
            0 <= b < self.buckets@.len() ==> bucket_wf(
                cv(#[trigger] self.buckets@[b]@),
                self.k_val as int,
            )
        &&& forall|i: int|
            0 <= i < self.data@.len() ==> (#[trigger] self.data@[i]).0@.len() == crate::KEY_WIDTH
        &&& forall|i: int, j: int|
            0 <= i < j < self.data@.len() ==> #[trigger] self.data@[i].0@ != #[trigger] self.data@[j].0@
        &&& forall|i: int|
            0 <= i < self.data@.len() ==> (#[trigger] self.data@[i]).1@.len() <= u32::MAX
                - crate::KEY_WIDTH
    }

    /// The stored value under `key`, if any.
    pub open spec fn store_has(self, key: Seq<u8>) -> bool {
        exists|i: int| 0 <= i < self.data@.len() && self.data@[i].0@ == key
    }

    /// The value stored under `key`, meaningful when `store_has` holds.
    pub open spec fn store_get(self, key: Seq<u8>) -> Seq<u8> {
        let i = choose|i: int| 0 <= i < self.data@.len() && self.data@[i].0@ == key;
        self.data@[i].1@
    }

    /// A fresh node with the given identifier and bucket capacity: every
    /// bucket empty, nothing stored.
    pub fn new(id: Vec<u8>, k_val: usize) -> (r: KademliaNode)
        requires
            id@.len() == crate::KEY_WIDTH,
            1 <= k_val <= 0xFFFF,
        ensures
            r.wf(),
            r.addr_id@ == id@,
            r.k_val == k_val,
            forall|b: int| 0 <= b < crate::NUM_BUCKETS ==> (#[trigger] r.buckets@[b])@.len() == 0,
            r.data@.len() == 0,
    {
        let mut buckets: Vec<Vec<NodeContact>> = Vec::new();
        let mut i: usize = 0;
        while i < crate::NUM_BUCKETS
            invariant
                i <= crate::NUM_BUCKETS,
                buckets@.len() == i,
                forall|b: int| 0 <= b < i ==> (#[trigger] buckets@[b])@.len() == 0,
            decreases crate::NUM_BUCKETS - i,
        {
            let empty: Vec<NodeContact> = Vec::new();
            buckets.push(empty);
            i = i + 1;
        }
        KademliaNode { addr_id: id, buckets, k_val, data: Vec::new() }
    }

    /// The node's own identifier.
    pub fn my_id(&self) -> (r: &Vec<u8>)
        ensures
            r@ == self.addr_id@,
    {
        &self.addr_id
    }

    /// The distance from this node to another identifier.
    pub fn distance_to(&self, to: &Vec<u8>) -> (r: Vec<u8>)
        requires
            self.addr_id@.len() == to@.len(),
        ensures
            r@ == xor_bytes(self.addr_id@, to@),
    {
        dist_as_bytes(&self.addr_id, to)
    }

    /// The index of the bucket a distance belongs in: the position of its
    /// most significant set bit, or 0 for an all-zero distance.
    pub fn k_bucket_index(distance: &Vec<u8>) -> (r: usize)
        requires
            distance@.len() == crate::KEY_WIDTH,
        ensures
            r == bucket_index_of(distance@),
            r < crate::NUM_BUCKETS,
    {
        let n = distance.len();
        let mut i: usize = 0;
        while i < n
            invariant
                n == distance@.len(),
                n == crate::KEY_WIDTH,
                i <= n,
                forall|j: int| 0 <= j < i ==> distance@[j] == 0,
            decreases n - i,
        {
            let val = distance[i];
            if val != 0 {
                let lz = val.leading_zeros() as usize;
                proof {
                    vstd::std_specs::bits::axiom_u8_leading_zeros(val);
                    assert(is_first_nonzero(distance@, i as int));
                    let w = choose|w: int| is_first_nonzero(distance@, w);
                    lemma_first_nonzero_unique(distance@, i as int, w);
                    assert(!all_zero(distance@));
                }
                return 8 * (n - i - 1) + (7 - lz);
            }
            i = i + 1;
        }
        proof {
            assert(all_zero(distance@));
        }
        0
    }

    /// Updates bucket `k_index` with freshly seen contact information,
    /// enforcing least-recently-seen order. Any stale entry for the same
    /// identifier is removed first; then, if the bucket has room, the
    /// contact is appended as most recently seen; a full bucket is left
    /// untouched and the least-recently-seen occupant is returned as an
    /// eviction candidate. A non-full bucket never yields a candidate; a
    /// full bucket and an unknown identifier always yield one.
    pub fn update_k_bucket(&mut self, k_index: usize, contact: NodeContact) -> (r: Option<
        EvictionCandidate,
    >)
        requires
            old(self).wf(),
            k_index < crate::NUM_BUCKETS,
            contact_wf(contact@),
        ensures
            final(self).wf(),
            final(self).addr_id == old(self).addr_id,
            final(self).k_val == old(self).k_val,
            final(self).data == old(self).data,
            final(self).buckets@.len() == crate::NUM_BUCKETS,
            forall|b: int|
                0 <= b < crate::NUM_BUCKETS && b != k_index ==> final(self).buckets@[b] == old(
                    self,
                ).buckets@[b],
            ({
                let b0 = cv(old(self).buckets@[k_index as int]@);
                let b1 = cv(final(self).buckets@[k_index as int]@);
                let k = old(self).k_val;
                &&& (bucket_has_id(b0, contact@.id) ==> r is None && b1 == remove_id(
                    b0,
                    contact@.id,
                ).push(contact@))
                &&& (!bucket_has_id(b0, contact@.id) && b0.len() < k ==> r is None && b1
                    == b0.push(contact@))
                &&& (!bucket_has_id(b0, contact@.id) && b0.len() >= k ==> b1 == b0 && match r {
                    Some(ec) => ec.old@ == b0[0] && ec.new@ == contact@,
                    None => false,
                })
            }),
    {
        let ghost b0 = cv(old(self).buckets@[k_index as int]@);
        let blen = self.buckets[k_index].len();
        let mut pos: usize = blen;
        let mut i: usize = 0;
        while i < blen
            invariant
                i <= blen,
                pos <= blen,
                blen == b0.len(),
                b0 == cv(self.buckets@[k_index as int]@),
                k_index < self.buckets@.len(),
                pos == blen ==> forall|j: int| 0 <= j < i ==> b0[j].id != contact@.id,
                pos < blen ==> pos < i && b0[pos as int].id == contact@.id,
            decreases blen - i,
        {
            if pos == blen && crate::utils::keys_equal(&self.buckets[k_index][i].id, &contact.id) {
                pos = i;
            }
            i = i + 1;
        }
        if pos < blen {
            // The identifier is already present: drop its stale entry and
            // re-append the contact as most recently seen.
            proof {
                assert(bucket_has_id(b0, contact@.id));
                lemma_unique_index(b0, contact@.id, pos as int);
            }
            let mut newb = self.copy_bucket_skipping(k_index, pos);
            proof {
                assert(cv(newb@.push(contact)) =~= cv(newb@).push(contact@));
            }
            newb.push(contact);
            self.buckets.set(k_index, newb);
            proof {
                assert(cv(final(self).buckets@[k_index as int]@) == remove_id(b0, contact@.id).push(
                    contact@,
                ));
            }
            None
        } else if blen < self.k_val {
            proof {
                lemma_no_index_no_id(b0, contact@.id);
            }
            let mut newb = self.copy_bucket_skipping(k_index, blen);
            proof {
                assert(cv(newb@.push(contact)) =~= cv(newb@).push(contact@));
            }
            newb.push(contact);
            self.buckets.set(k_index, newb);
            proof {
                assert(remove_id(b0, contact@.id) == b0);
                assert(cv(final(self).buckets@[k_index as int]@) == b0.push(contact@));
            }
            None
        } else {
            proof {
                lemma_no_index_no_id(b0, contact@.id);
                assert(b0.len() >= 1);
            }
            let old_contact = self.buckets[k_index][0].duplicate();
            Some(EvictionCandidate { old: old_contact, new: contact })
        }
    }

    /// A copy of bucket `k_index` with position `skip` left out (or nothing
    /// left out when `skip` is the bucket length).
    fn copy_bucket_skipping(&self, k_index: usize, skip: usize) -> (r: Vec<NodeContact>)
        requires
            k_index < self.buckets@.len(),
            skip <= self.buckets@[k_index as int]@.len(),
        ensures
            ({
                let b0 = cv(self.buckets@[k_index as int]@);
                if skip < b0.len() {
                    cv(r@) == b0.remove(skip as int)
                } else {
                    cv(r@) == b0
                }
            }),
    {
        let ghost b0 = cv(self.buckets@[k_index as int]@);
        let blen = self.buckets[k_index].len();
        let mut newb: Vec<NodeContact> = Vec::new();
        let mut i: usize = 0;
        while i < blen
            invariant
                i <= blen,
                blen == b0.len(),
                b0 == cv(self.buckets@[k_index as int]@),
                k_index < self.buckets@.len(),
                skip <= blen,
                i <= skip ==> cv(newb@) == b0.take(i as int),
                i > skip ==> cv(newb@) == b0.take(skip as int) + b0.subrange(skip + 1, i as int),
            decreases blen - i,
        {
            if i != skip {
                let c = self.buckets[k_index][i].duplicate();
                proof {
                    assert(cv(newb@.push(c)) =~= cv(newb@).push(c@));
                    if i < skip {
                        assert(cv(newb@).push(c@) =~= b0.take(i + 1));
                    } else {
                        assert(cv(newb@).push(c@) =~= b0.take(skip as int) + b0.subrange(
                            skip + 1,
                            i + 1,
                        ));
                    }
                }
                newb.push(c);
            } else {
                proof {
                    assert(b0.take(skip as int) + b0.subrange(skip + 1, i + 1) =~= b0.take(
                        skip as int,
                    ));
                }
            }
            i = i + 1;
        }
        proof {
            if skip < blen {
                assert(cv(newb@) =~= b0.remove(skip as int));
            } else {
                assert(cv(newb@) =~= b0);
            }
        }
        newb
    }
}

/// The number of contacts the whole routing table holds.
pub open spec fn table_size(bs: Seq<Vec<NodeContact>>) -> int
    decreases bs.len(),
{
    if bs.len() == 0 {
        0
    } else {
        table_size(bs.drop_last()) + bs.last()@.len()
    }
}

/// Whether some bucket of the table holds this contact.
pub open spec fn contact_in_table(bs: Seq<Vec<NodeContact>>, c: ContactV) -> bool {
    exists|b: int, i: int|
        0 <= b < bs.len() && 0 <= i < bs[b]@.len() && bs[b]@[i]@ == c
}

/// The contact appears among the kept entries.
pub open spec fn represented(r: Seq<(Vec<u8>, NodeContact)>, c: ContactV) -> bool {
    exists|j: int| 0 <= j < r.len() && (#[trigger] r[j]).1@ == c
}

/// The selection `r` accounts for the table contact `c`: either `c` is
/// kept, or the selection is full and `c` lies no closer to the target
/// than its farthest kept entry.
pub open spec fn covers(
    r: Seq<(Vec<u8>, NodeContact)>,
    k: int,
    c: ContactV,
    target: Seq<u8>,
) -> bool {
    represented(r, c) || (r.len() == k && r.len() >= 1 && !dist_lt(
        xor_bytes(c.id, target),
        r[r.len() - 1].0@,
    ))
}

/// Inserting a new entry at the scanned position, dropping the
/// then-farthest entry when the list overflows, keeps every
/// accounted-for contact accounted for.
proof fn lemma_covers_step(
    pre: Seq<(Vec<u8>, NodeContact)>,
    post: Seq<(Vec<u8>, NodeContact)>,
    e: (Vec<u8>, NodeContact),
    p: int,
    k: int,
    c: ContactV,
    target: Seq<u8>,
)
    requires
        1 <= k,
        0 <= p <= pre.len(),
        pre.len() <= k,
        c.id.len() == crate::KEY_WIDTH,
        target.len() == crate::KEY_WIDTH,
        e.0@.len() == crate::KEY_WIDTH,
        forall|i: int| 0 <= i < pre.len() ==> (#[trigger] pre[i]).0@.len() == crate::KEY_WIDTH,
        forall|i: int| 0 <= i < pre.len() ==> (#[trigger] pre[i]).0@ == xor_bytes(
            pre[i].1@.id,
            target,
        ),
        forall|i: int, j: int|
            0 <= i < j < pre.len() ==> !dist_lt(#[trigger] pre[j].0@, #[trigger] pre[i].0@),
        p < pre.len() ==> dist_lt(e.0@, pre[p].0@),
        covers(pre, k, c, target),
        post == (if pre.len() < k {
            pre.insert(p, e)
        } else {
            pre.insert(p, e).drop_last()
        }),
        pre.len() == k ==> p < k,
    ensures
        covers(post, k, c, target),
{
    pre.insert_ensures(p, e);
    let mid = pre.insert(p, e);
    if pre.len() < k {
        if represented(pre, c) {
            let w = choose|j: int| 0 <= j < pre.len() && (#[trigger] pre[j]).1@ == c;
            if w < p {
                assert(mid[w].1@ == c);
            } else {
                assert(mid[w + 1].1@ == c);
            }
            assert(represented(post, c));
        }
    } else {
        assert(mid[k] == pre[k - 1]);
        assert(post.len() == k);
        let nl = post[k - 1];
        assert(nl == mid[k - 1]);
        assert(!dist_lt(pre[k - 1].0@, nl.0@)) by {
            if p == k - 1 {
                assert(nl == e);
                if dist_lt(pre[k - 1].0@, e.0@) {
                    lemma_dist_lt_trans(pre[k - 1].0@, e.0@, pre[p].0@);
                }
            } else {
                assert(nl == pre[k - 2]);
            }
        }
        assert(nl.0@.len() == crate::KEY_WIDTH) by {
            if p == k - 1 {
                assert(nl == e);
            } else {
                assert(nl == pre[k - 2]);
            }
        }
        if represented(pre, c) {
            let w = choose|j: int| 0 <= j < pre.len() && (#[trigger] pre[j]).1@ == c;
            if w < k - 1 {
                if w < p {
                    assert(post[w].1@ == c);
                } else {
                    assert(post[w + 1].1@ == c);
                }
                assert(represented(post, c));
            } else {
                // The dropped entry itself: no closer than the new
                // farthest, so the bound accounts for it.
                assert(xor_bytes(c.id, target) == pre[k - 1].0@);
                assert(covers(post, k, c, target));
            }
        } else {
            lemma_dist_ge_trans(xor_bytes(c.id, target), pre[k - 1].0@, nl.0@);
            assert(covers(post, k, c, target));
        }
    }
}

impl KademliaNode {
    /// Finds, locally, the `k` closest known contacts to a target
    /// identifier, paired with their distances: never more than `k`
    /// entries, as many as the table holds below that, in non-decreasing
    /// distance order, each one a table contact with its true distance,
    /// and no table contact closer than a kept one is left out.
    pub fn find_k_closest(&self, target_node_id: &Vec<u8>) -> (r: Vec<(Vec<u8>, NodeContact)>)
        requires
            self.wf(),
            target_node_id@.len() == crate::KEY_WIDTH,
        ensures
            r@.len() == vstd::math::min(self.k_val as int, table_size(self.buckets@)),
            forall|i: int, j: int|
                0 <= i < j < r@.len() ==> !dist_lt(#[trigger] r@[j].0@, #[trigger] r@[i].0@),
            forall|i: int|
                0 <= i < r@.len() ==> contact_in_table(self.buckets@, (#[trigger] r@[i]).1@)
                    && r@[i].0@ == xor_bytes(r@[i].1@.id, target_node_id@),
            forall|b: int, i: int|
                0 <= b < self.buckets@.len() && 0 <= i < self.buckets@[b]@.len() ==> covers(
                    r@,
                    self.k_val as int,
                    (#[trigger] self.buckets@[b]@[i])@,
                    target_node_id@,
                ),
    {
        let mut acc: Vec<(Vec<u8>, NodeContact)> = Vec::new();
        let mut b: usize = 0;
        proof {
            assert(self.buckets@.take(0) =~= Seq::<Vec<NodeContact>>::empty());
        }
        while b < crate::NUM_BUCKETS
            invariant
                self.wf(),
                target_node_id@.len() == crate::KEY_WIDTH,
                b <= crate::NUM_BUCKETS,
                acc@.len() == vstd::math::min(
                    self.k_val as int,
                    table_size(self.buckets@.take(b as int)),
                ),
                forall|i: int, j: int|
                    0 <= i < j < acc@.len() ==> !dist_lt(
                        #[trigger] acc@[j].0@,
                        #[trigger] acc@[i].0@,
                    ),
                forall|i: int|
                    0 <= i < acc@.len() ==> contact_in_table(self.buckets@, (#[trigger] acc@[i]).1@)
                        && acc@[i].0@ == xor_bytes(acc@[i].1@.id, target_node_id@),
                forall|i: int| 0 <= i < acc@.len() ==> (#[trigger] acc@[i]).0@.len()
                    == crate::KEY_WIDTH,
                forall|bb: int, ii: int|
                    0 <= bb < b && 0 <= ii < self.buckets@[bb]@.len() ==> covers(
                        acc@,
                        self.k_val as int,
                        (#[trigger] self.buckets@[bb]@[ii])@,
                        target_node_id@,
                    ),
            decreases crate::NUM_BUCKETS - b,
        {
            let blen = self.buckets[b].len();
            let mut i: usize = 0;
            proof {
                assert(table_size(self.buckets@.take(b as int)) + 0 == table_size(
                    self.buckets@.take(b as int),
                ));
            }
            while i < blen
                invariant
                    self.wf(),
                    target_node_id@.len() == crate::KEY_WIDTH,
                    b < crate::NUM_BUCKETS,
                    i <= blen,
                    blen == self.buckets@[b as int]@.len(),
                    acc@.len() == vstd::math::min(
                        self.k_val as int,
                        table_size(self.buckets@.take(b as int)) + i,
                    ),
                    forall|ii: int, jj: int|
                        0 <= ii < jj < acc@.len() ==> !dist_lt(
                            #[trigger] acc@[jj].0@,
                            #[trigger] acc@[ii].0@,
                        ),
                    forall|ii: int|
                        0 <= ii < acc@.len() ==> contact_in_table(
                            self.buckets@,
                            (#[trigger] acc@[ii]).1@,
                        ) && acc@[ii].0@ == xor_bytes(acc@[ii].1@.id, target_node_id@),
                    forall|ii: int| 0 <= ii < acc@.len() ==> (#[trigger] acc@[ii]).0@.len()
                        == crate::KEY_WIDTH,
                    forall|bb: int, ii: int|
                        0 <= bb < crate::NUM_BUCKETS && 0 <= ii < self.buckets@[bb]@.len() && (bb
                            < b || (bb == b && ii < i)) ==> covers(
                            acc@,
                            self.k_val as int,
                            (#[trigger] self.buckets@[bb]@[ii])@,
                            target_node_id@,
                        ),
                decreases blen - i,
            {
                let c = &self.buckets[b][i];
                proof {
                    assert(bucket_wf(cv(self.buckets@[b as int]@), self.k_val as int));
                    assert(cv(self.buckets@[b as int]@)[i as int] == self.buckets@[b as int]@[i
                        as int]@);
                    assert(contact_wf(c@));
                    assert(contact_in_table(self.buckets@, c@));
                }
                let dist = dist_as_bytes(&c.id, target_node_id);
                let p = find_insert_pos(&acc, &dist);
                if p == acc.len() && acc.len() >= self.k_val {
                    // Farther than everything kept, and the list is full.
                    proof {
                        assert(acc@.len() == self.k_val);
                        assert(!dist_lt(dist@, acc@[acc@.len() - 1].0@));
                        assert(covers(acc@, self.k_val as int, c@, target_node_id@));
                    }
                } else {
                    let ghost pre = acc@;
                    let entry = (dist, c.duplicate());
                    acc.insert(p, entry);
                    proof {
                        pre.insert_ensures(p as int, entry);
                        lemma_sorted_insert(pre, entry, p as int);
                        assert forall|ii: int| 0 <= ii < acc@.len() implies contact_in_table(
                            self.buckets@,
                            (#[trigger] acc@[ii]).1@,
                        ) && acc@[ii].0@ == xor_bytes(acc@[ii].1@.id, target_node_id@)
                            && acc@[ii].0@.len() == crate::KEY_WIDTH by {
                            if ii < p {
                                assert(acc@[ii] == pre[ii]);
                            } else if ii == p {
                                assert(acc@[ii] == entry);
                            } else {
                                assert(acc@[ii] == pre[ii - 1]);
                            }
                        }
                    }
                    if acc.len() > self.k_val {
                        let ghost full = acc@;
                        acc.pop();
                        proof {
                            assert(acc@ =~= full.drop_last());
                        }
                    }
                    proof {
                        let k = self.k_val as int;
                        if pre.len() < k {
                            assert(acc@ == pre.insert(p as int, entry));
                        } else {
                            assert(acc@ == pre.insert(p as int, entry).drop_last());
                        }
                        assert(acc@[p as int] == entry);
                        assert(represented(acc@, c@));
                        assert forall|bb: int, ii: int|
                            0 <= bb < crate::NUM_BUCKETS && 0 <= ii < self.buckets@[bb]@.len() && (
                            bb < b || (bb == b && ii < i + 1)) implies covers(
                            acc@,
                            k,
                            (#[trigger] self.buckets@[bb]@[ii])@,
                            target_node_id@,
                        ) by {
                            if bb == b && ii == i {
                                assert(covers(acc@, k, c@, target_node_id@));
                            } else {
                                assert(bucket_wf(cv(self.buckets@[bb]@), k));
                                assert(cv(self.buckets@[bb]@)[ii] == self.buckets@[bb]@[ii]@);
                                assert(contact_wf(self.buckets@[bb]@[ii]@));
                                lemma_covers_step(
                                    pre,
                                    acc@,
                                    entry,
                                    p as int,
                                    k,
                                    self.buckets@[bb]@[ii]@,
                                    target_node_id@,
                                );
                            }
                        }
                    }
                }
                i = i + 1;
            }
            proof {
                assert(self.buckets@.take(b + 1).drop_last() =~= self.buckets@.take(b as int));
                assert(self.buckets@.take(b + 1).last() == self.buckets@[b as int]);
            }
            b = b + 1;
        }
        proof {
            assert(self.buckets@.take(crate::NUM_BUCKETS as int) =~= self.buckets@);
        }
        acc
    }
}

/// Inserting an element at the position `find_insert_pos` picked keeps a
/// distance-sorted contact list sorted.
proof fn lemma_sorted_insert(s: Seq<(Vec<u8>, NodeContact)>, e: (Vec<u8>, NodeContact), p: int)
    requires
        0 <= p <= s.len(),
        forall|i: int| 0 <= i < s.len() ==> (#[trigger] s[i]).0@.len() == crate::KEY_WIDTH,
        e.0@.len() == crate::KEY_WIDTH,
        forall|i: int, j: int|
            0 <= i < j < s.len() ==> !dist_lt(#[trigger] s[j].0@, #[trigger] s[i].0@),
        forall|j: int| 0 <= j < p ==> !dist_lt(e.0@, (#[trigger] s[j]).0@),
        p < s.len() ==> dist_lt(e.0@, s[p].0@),
    ensures
        forall|i: int, j: int|
            0 <= i < j < s.insert(p, e).len() ==> !dist_lt(
                #[trigger] s.insert(p, e)[j].0@,
                #[trigger] s.insert(p, e)[i].0@,
            ),
{
    s.insert_ensures(p, e);
    let t = s.insert(p, e);
    assert forall|i: int, j: int| 0 <= i < j < t.len() implies !dist_lt(t[j].0@, t[i].0@) by {
        if j < p {
            assert(t[i] == s[i] && t[j] == s[j]);
        } else if j == p {
            assert(t[i] == s[i]);
        } else if i < p {
            assert(t[i] == s[i] && t[j] == s[j - 1]);
            assert(!dist_lt(s[j - 1].0@, s[i].0@));
        } else if i == p {
            assert(t[j] == s[j - 1]);
            if dist_lt(s[j - 1].0@, e.0@) {
                lemma_dist_lt_trans(s[j - 1].0@, e.0@, s[p].0@);
                if j - 1 > p {
                    assert(!dist_lt(s[j - 1].0@, s[p].0@));
                }
                assert(false);
            }
        } else {
            assert(t[i] == s[i - 1] && t[j] == s[j - 1]);
            assert(!dist_lt(s[j - 1].0@, s[i - 1].0@));
        }
    }
}

/// The first position whose kept distance is farther than `dist`, or the
/// length when no kept distance is.
fn find_insert_pos(acc: &Vec<(Vec<u8>, NodeContact)>, dist: &Vec<u8>) -> (p: usize)
    requires
        dist@.len() == crate::KEY_WIDTH,
        forall|i: int| 0 <= i < acc@.len() ==> (#[trigger] acc@[i]).0@.len() == crate::KEY_WIDTH,
    ensures
        p <= acc@.len(),
        forall|j: int| 0 <= j < p ==> !dist_lt(dist@, (#[trigger] acc@[j]).0@),
        p < acc@.len() ==> dist_lt(dist@, acc@[p as int].0@),
{
    let mut p: usize = 0;
    while p < acc.len()
        invariant
            p <= acc@.len(),
            dist@.len() == crate::KEY_WIDTH,
            forall|i: int| 0 <= i < acc@.len() ==> (#[trigger] acc@[i]).0@.len()
                == crate::KEY_WIDTH,
            forall|j: int| 0 <= j < p ==> !dist_lt(dist@, (#[trigger] acc@[j]).0@),
        decreases acc@.len() - p,
    {
        let ord = cmp_dist(&acc[p].0, dist);
        if ord == DistanceOrder::AFarther {
            return p;
        }
        p = p + 1;
    }
    p
}

/// The selection `cs` accounts for the table contact `c`: either `c` is
/// selected, or the selection is full and `c` lies no closer to the
/// target than its farthest member.
pub open spec fn list_covers(cs: Seq<ContactV>, k: int, c: ContactV, target: Seq<u8>) -> bool {
    (exists|j: int| 0 <= j < cs.len() && cs[j] == c) || (cs.len() == k && cs.len() >= 1
        && !dist_lt(xor_bytes(c.id, target), xor_bytes(cs[cs.len() - 1].id, target)))
}

/// A list of contacts is the local answer to "who is closest to
/// `target`": as long as the table allows up to `k`, non-decreasing in
/// distance to the target, every entry a well-formed table contact, and
/// no table contact closer than a selected one is left out.
pub open spec fn closest_list(
    bs: Seq<Vec<NodeContact>>,
    k: int,
    target: Seq<u8>,
    cs: Seq<ContactV>,
) -> bool {
    &&& cs.len() == vstd::math::min(k, table_size(bs))
    &&& forall|i: int, j: int|
        0 <= i < j < cs.len() ==> !dist_lt(
            xor_bytes((#[trigger] cs[j]).id, target),
            xor_bytes((#[trigger] cs[i]).id, target),
        )
    &&& forall|i: int| 0 <= i < cs.len() ==> contact_in_table(bs, #[trigger] cs[i])
    &&& forall|i: int| 0 <= i < cs.len() ==> contact_wf(#[trigger] cs[i])
    &&& forall|b: int, i: int|
        0 <= b < bs.len() && 0 <= i < bs[b]@.len() ==> list_covers(
            cs,
            k,
            (#[trigger] bs[b]@[i])@,
            target,
        )
}

/// Every contact found in a well-formed table is well-formed.
proof fn lemma_table_contact_wf(bs: Seq<Vec<NodeContact>>, k: int, c: ContactV)
    requires
        contact_in_table(bs, c),
        forall|b: int| 0 <= b < bs.len() ==> bucket_wf(cv(#[trigger] bs[b]@), k),
    ensures
        contact_wf(c),
{
    let (b, i) = choose|b: int, i: int|
        0 <= b < bs.len() && 0 <= i < bs[b]@.len() && bs[b]@[i]@ == c;
    assert(bucket_wf(cv(bs[b]@), k));
    assert(cv(bs[b]@)[i] == bs[b]@[i]@);
}

/// A position of the store holding `key` is the position `store_get`
/// reads.
proof fn lemma_store_at(n: KademliaNode, k: Seq<u8>, i: int)
    requires
        0 <= i < n.data@.len(),
        n.data@[i].0@ == k,
        forall|a: int, b: int|
            0 <= a < b < n.data@.len() ==> #[trigger] n.data@[a].0@ != #[trigger] n.data@[b].0@,
    ensures
        n.store_has(k),
        n.store_get(k) == n.data@[i].1@,
{
    assert(n.store_has(k));
    let w = choose|w: int| 0 <= w < n.data@.len() && n.data@[w].0@ == k;
    if w < i {
        assert(n.data@[w].0@ != n.data@[i].0@);
        assert(false);
    } else if w > i {
        assert(n.data@[i].0@ != n.data@[w].0@);
        assert(false);
    }
}

/// A store none of whose positions hold `key` does not hold `key`.
proof fn lemma_store_absent(n: KademliaNode, k: Seq<u8>)
    requires
        forall|j: int| 0 <= j < n.data@.len() ==> (#[trigger] n.data@[j]).0@ != k,
    ensures
        !n.store_has(k),
{
    if n.store_has(k) {
        let w = choose|w: int| 0 <= w < n.data@.len() && n.data@[w].0@ == k;
        assert(n.data@[w].0@ != k);
    }
}

/// A stored value fits a wire payload.
proof fn lemma_store_get_bound(n: KademliaNode, k: Seq<u8>)
    requires
        n.wf(),
        n.store_has(k),
    ensures
        n.store_get(k).len() <= u32::MAX - crate::KEY_WIDTH,
{
    let w = choose|w: int| 0 <= w < n.data@.len() && n.data@[w].0@ == k;
    lemma_store_at(n, k, w);
}

/// The store after binding `k` to `v`: `k` now reads `v`, every other key
/// is untouched.
pub open spec fn store_updated(
    pre: KademliaNode,
    post: KademliaNode,
    k: Seq<u8>,
    v: Seq<u8>,
) -> bool {
    &&& post.store_has(k)
    &&& post.store_get(k) == v
    &&& forall|k2: Seq<u8>| k2 != k ==> (#[trigger] post.store_has(k2) <==> pre.store_has(k2))
    &&& forall|k2: Seq<u8>|
        k2 != k && pre.store_has(k2) ==> #[trigger] post.store_get(k2) == pre.store_get(k2)
}

/// The network address of a peer: a 4-byte address and a port.
#[derive(Clone, Debug, PartialEq, Eq)]
pub struct PeerAddr {
    pub ip: Vec<u8>,
    pub port: u16,
}

/// A datagram to be sent out, with its destination.
#[derive(Debug)]
pub struct OutPacket {
    pub ip: Vec<u8>,
    pub port: u16,
    pub bytes: Vec<u8>,
}

/// Work for the lookup actor. `Awake` drives the periodic timeout sweep;
/// the others carry an eviction verification, a batch of lookup results
/// tagged with their source, or a sign of life from a pinged peer.
#[derive(Debug)]
pub enum AsyncAction {
    Awake,
    SetEvictTimeout(EvictionCandidate),
    LookupResults(Key, Vec<NodeContact>, Option<Key>),
    PingSeen(Key),
}

/// What the state actor consumes: client requests and decoded peer
/// messages tagged with sender identifier and address.
pub enum MessageType {
    FromClient(ClientMessage),
    FromNode(Message, Key, PeerAddr),
}

/// What handling one decoded message produces: at most one reply to the
/// source, and at most one event for the lookup actor.
pub struct ReceiveEffect {
    pub reply: Option<Message>,
    pub action: Option<AsyncAction>,
}

/// Everything one inbound datagram makes the state actor do: datagrams to
/// send, and events for the lookup actor, in order.
pub struct NodeEffects {
    pub packets: Vec<OutPacket>,
    pub actions: Vec<AsyncAction>,
}

/// Whether a message kind is answered with a reply datagram.
pub open spec fn expects_reply(m: MessageV) -> bool {
    match m {
        MessageV::Ping => true,
        MessageV::FindNode(k) => true,
        MessageV::FindVal(k) => true,
        _ => false,
    }
}

/// Whether a message kind feeds the lookup actor.
pub open spec fn expects_action(m: MessageV) -> bool {
    match m {
        MessageV::FindNodeResp(k, cs) => true,
        MessageV::PingResp => true,
        _ => false,
    }
}

/// The reply owed to each message kind: a pong for a ping, the k closest
/// known contacts for a node lookup, the stored value for a value lookup
/// when the key is known and the closest contacts otherwise, and no reply
/// to stores and responses.
pub open spec fn reply_matches(
    post: KademliaNode,
    pre: KademliaNode,
    msg: MessageV,
    reply: Option<Message>,
) -> bool {
    match msg {
        MessageV::Ping => reply matches Some(m) && m@ == MessageV::PingResp,
        MessageV::FindNode(key) => reply matches Some(m) && (match m@ {
            MessageV::FindNodeResp(k2, cs) => k2 == key && closest_list(
                post.buckets@,
                post.k_val as int,
                key,
                cs,
            ),
            _ => false,
        }),
        MessageV::FindVal(key) => if pre.store_has(key) {
            reply matches Some(m) && m@ == MessageV::FindValResp(key, pre.store_get(key))
        } else {
            reply matches Some(m) && (match m@ {
                MessageV::FindNodeResp(k2, cs) => k2 == key && closest_list(
                    post.buckets@,
                    post.k_val as int,
                    key,
                    cs,
                ),
                _ => false,
            })
        },
        _ => reply is None,
    }
}

/// The lookup-actor event owed to each message kind: results are
/// forwarded tagged with the responder, a pong is reported as a sign of
/// life, and nothing else produces an event.
pub open spec fn action_matches(msg: MessageV, node_id: Seq<u8>, action: Option<AsyncAction>) -> bool {
    match msg {
        MessageV::FindNodeResp(key, cs) => action matches Some(a) && (match a {
            AsyncAction::LookupResults(k2, cs2, src) => k2@ == key && cv(cs2@) == cs && (
            src matches Some(s) && s@ == node_id),
            _ => false,
        }),
        MessageV::PingResp => action matches Some(a) && (match a {
            AsyncAction::PingSeen(id) => id@ == node_id,
            _ => false,
        }),
        _ => action is None,
    }
}

impl KademliaNode {
    /// Finds, locally, the `k` closest known contacts to a target
    /// identifier, as plain contact records.
    pub fn find_k_closest_global(&self, target_node_id: &Key) -> (r: Vec<NodeContact>)
        requires
            self.wf(),
            target_node_id@.len() == crate::KEY_WIDTH,
        ensures
            closest_list(self.buckets@, self.k_val as int, target_node_id@, cv(r@)),
    {
        let pairs = self.find_k_closest(target_node_id);
        let mut out: Vec<NodeContact> = Vec::new();
        let mut i: usize = 0;
        while i < pairs.len()
            invariant
                i <= pairs@.len(),
                out@.len() == i,
                forall|j: int| 0 <= j < i ==> (#[trigger] out@[j])@ == pairs@[j].1@,
            decreases pairs@.len() - i,
        {
            out.push(pairs[i].1.duplicate());
            i = i + 1;
        }
        proof {
            assert forall|j: int| 0 <= j < out@.len() implies cv(out@)[j] == pairs@[j].1@ by {
                assert(cv(out@)[j] == out@[j]@);
            }
            assert forall|j: int| 0 <= j < cv(out@).len() implies contact_in_table(
                self.buckets@,
                #[trigger] cv(out@)[j],
            ) && contact_wf(cv(out@)[j]) by {
                assert(contact_in_table(self.buckets@, pairs@[j].1@));
                lemma_table_contact_wf(self.buckets@, self.k_val as int, cv(out@)[j]);
            }
            assert forall|a: int, b: int| 0 <= a < b < cv(out@).len() implies !dist_lt(
                xor_bytes((#[trigger] cv(out@)[b]).id, target_node_id@),
                xor_bytes((#[trigger] cv(out@)[a]).id, target_node_id@),
            ) by {
                assert(!dist_lt(pairs@[b].0@, pairs@[a].0@));
                assert(pairs@[a].0@ == xor_bytes(pairs@[a].1@.id, target_node_id@));
                assert(pairs@[b].0@ == xor_bytes(pairs@[b].1@.id, target_node_id@));
            }
            assert forall|b2: int, i2: int|
                0 <= b2 < self.buckets@.len() && 0 <= i2 < self.buckets@[b2]@.len() implies
                list_covers(
                cv(out@),
                self.k_val as int,
                (#[trigger] self.buckets@[b2]@[i2])@,
                target_node_id@,
            ) by {
                let c = self.buckets@[b2]@[i2]@;
                assert(covers(pairs@, self.k_val as int, c, target_node_id@));
                if represented(pairs@, c) {
                    let w = choose|j: int| 0 <= j < pairs@.len() && (#[trigger] pairs@[j]).1@ == c;
                    assert(cv(out@)[w] == c);
                } else {
                    let n = pairs@.len() as int;
                    assert(pairs@[n - 1].0@ == xor_bytes(cv(out@)[n - 1].id, target_node_id@));
                }
            }
        }
        out
    }

    /// Looks the key up in the store.
    pub fn data_get(&self, key: &Vec<u8>) -> (r: Option<&Vec<u8>>)
        requires
            self.wf(),
        ensures
            match r {
                Some(v) => self.store_has(key@) && v@ == self.store_get(key@) && v@.len()
                    <= u32::MAX - crate::KEY_WIDTH,
                None => !self.store_has(key@),
            },
    {
        let mut i: usize = 0;
        while i < self.data.len()
            invariant
                self.wf(),
                i <= self.data@.len(),
                forall|j: int| 0 <= j < i ==> (#[trigger] self.data@[j]).0@ != key@,
            decreases self.data@.len() - i,
        {
            if crate::utils::keys_equal(&self.data[i].0, key) {
                proof {
                    lemma_store_at(*self, key@, i as int);
                }
                return Some(&self.data[i].1);
            }
            i = i + 1;
        }
        proof {
            lemma_store_absent(*self, key@);
        }
        None
    }

    /// Binds `key` to `val` in the store; the last writer wins.
    pub fn data_insert(&mut self, key: Vec<u8>, val: Vec<u8>)
        requires
            old(self).wf(),
            key@.len() == crate::KEY_WIDTH,
            val@.len() <= u32::MAX - crate::KEY_WIDTH,
        ensures
            final(self).wf(),
            final(self).addr_id == old(self).addr_id,
            final(self).buckets == old(self).buckets,
            final(self).k_val == old(self).k_val,
            store_updated(*old(self), *final(self), key@, val@),
    {
        let ghost pre = *self;
        let dlen = self.data.len();
        let mut pos: usize = dlen;
        let mut i: usize = 0;
        while i < dlen
            invariant
                i <= dlen,
                pos <= dlen,
                *self == pre,
                dlen == self.data@.len(),
                pos == dlen ==> forall|j: int| 0 <= j < i ==> (#[trigger] self.data@[j]).0@
                    != key@,
                pos < dlen ==> pos < i && self.data@[pos as int].0@ == key@,
            decreases dlen - i,
        {
            if pos == dlen && crate::utils::keys_equal(&self.data[i].0, &key) {
                pos = i;
            }
            i = i + 1;
        }
        if pos < dlen {
            self.data.set(pos, (key, val));
            proof {
                assert forall|a: int, b: int|
                    0 <= a < b < self.data@.len() implies #[trigger] self.data@[a].0@
                    != #[trigger] self.data@[b].0@ by {
                    assert(self.data@[a].0@ == pre.data@[a].0@);
                    assert(self.data@[b].0@ == pre.data@[b].0@);
                    assert(pre.data@[a].0@ != pre.data@[b].0@);
                }
                lemma_store_at(*self, key@, pos as int);
                assert forall|k2: Seq<u8>| k2 != key@ implies (#[trigger] self.store_has(k2)
                    <==> pre.store_has(k2)) by {
                    if self.store_has(k2) {
                        let w = choose|w: int|
                            0 <= w < self.data@.len() && self.data@[w].0@ == k2;
                        assert(pre.data@[w].0@ == k2);
                    }
                    if pre.store_has(k2) {
                        let w = choose|w: int| 0 <= w < pre.data@.len() && pre.data@[w].0@ == k2;
                        assert(self.data@[w].0@ == k2);
                    }
                }
                assert forall|k2: Seq<u8>| k2 != key@ && pre.store_has(k2) implies #[trigger] self
                    .store_get(k2) == pre.store_get(k2) by {
                    let w = choose|w: int| 0 <= w < pre.data@.len() && pre.data@[w].0@ == k2;
                    lemma_store_at(pre, k2, w);
                    lemma_store_at(*self, k2, w);
                }
            }
        } else {
            self.data.push((key, val));
            proof {
                assert forall|a: int, b: int|
                    0 <= a < b < self.data@.len() implies #[trigger] self.data@[a].0@
                    != #[trigger] self.data@[b].0@ by {
                    if b < dlen {
                        assert(pre.data@[a].0@ != pre.data@[b].0@);
                    } else {
                        assert(self.data@[b].0@ == key@);
                        assert(self.data@[a].0@ == pre.data@[a].0@);
                        assert(pre.data@[a].0@ != key@);
                    }
                }
                lemma_store_at(*self, key@, dlen as int);
                assert forall|k2: Seq<u8>| k2 != key@ implies (#[trigger] self.store_has(k2)
                    <==> pre.store_has(k2)) by {
                    if self.store_has(k2) {
                        let w = choose|w: int|
                            0 <= w < self.data@.len() && self.data@[w].0@ == k2;
                        assert(w < dlen);
                        assert(pre.data@[w].0@ == k2);
                    }
                    if pre.store_has(k2) {
                        let w = choose|w: int| 0 <= w < pre.data@.len() && pre.data@[w].0@ == k2;
                        assert(self.data@[w].0@ == k2);
                    }
                }
                assert forall|k2: Seq<u8>| k2 != key@ && pre.store_has(k2) implies #[trigger] self
                    .store_get(k2) == pre.store_get(k2) by {
                    let w = choose|w: int| 0 <= w < pre.data@.len() && pre.data@[w].0@ == k2;
                    lemma_store_at(pre, k2, w);
                    lemma_store_at(*self, k2, w);
                }
            }
        }
    }

    /// Handles one decoded peer message: answers pings and lookups from
    /// the table and the store, stores what a `Store` carries, and turns
    /// responses into events for the lookup actor.
    pub fn receive(&mut self, msg: Message, node_id: &Key) -> (r: ReceiveEffect)
        requires
            old(self).wf(),
            msg_wf(msg@),
            node_id@.len() == crate::KEY_WIDTH,
        ensures
            final(self).wf(),
            final(self).addr_id == old(self).addr_id,
            final(self).k_val == old(self).k_val,
            final(self).buckets == old(self).buckets,
            match msg@ {
                MessageV::Store(k, v) => store_updated(*old(self), *final(self), k, v),
                _ => final(self).data == old(self).data,
            },
            reply_matches(*final(self), *old(self), msg@, r.reply),
            action_matches(msg@, node_id@, r.action),
    {
        match msg {
            Message::Ping => ReceiveEffect { reply: Some(Message::PingResp), action: None },
            Message::FindNode(key) => {
                let contacts = self.find_k_closest_global(&key);
                ReceiveEffect {
                    reply: Some(Message::FindNodeResp(key, contacts)),
                    action: None,
                }
            },
            Message::FindVal(key) => {
                let stored: Option<Vec<u8>> = match self.data_get(&key) {
                    Some(v) => Some(crate::utils::clone_bytes(v)),
                    None => None,
                };
                match stored {
                    Some(v) => ReceiveEffect {
                        reply: Some(Message::FindValResp(key, v)),
                        action: None,
                    },
                    None => {
                        let contacts = self.find_k_closest_global(&key);
                        ReceiveEffect {
                            reply: Some(Message::FindNodeResp(key, contacts)),
                            action: None,
                        }
                    },
                }
            },
            Message::Store(key, val) => {
                self.data_insert(key, val);
                ReceiveEffect { reply: None, action: None }
            },
            Message::FindNodeResp(key, node_vec) => ReceiveEffect {
                reply: None,
                action: Some(
                    AsyncAction::LookupResults(
                        key,
                        node_vec,
                        Some(crate::utils::clone_bytes(node_id)),
                    ),
                ),
            },
            Message::PingResp => ReceiveEffect {
                reply: None,
                action: Some(AsyncAction::PingSeen(crate::utils::clone_bytes(node_id))),
            },
            Message::FindValResp(k, v) => ReceiveEffect { reply: None, action: None },
        }
    }

    /// Handles one client request: a lookup returns the stored value when
    /// the key is known locally, a store binds the key.
    pub fn handle_client(&mut self, msg: ClientMessage) -> (r: Option<(Vec<u8>, Vec<u8>)>)
        requires
            old(self).wf(),
            client_msg_wf(msg),
        ensures
            final(self).wf(),
            final(self).addr_id == old(self).addr_id,
            final(self).buckets == old(self).buckets,
            final(self).k_val == old(self).k_val,
            match msg {
                ClientMessage::Get(key) => final(self).data == old(self).data && (match r {
                    Some(p) => old(self).store_has(key@) && p.0@ == key@ && p.1@ == old(
                        self,
                    ).store_get(key@),
                    None => !old(self).store_has(key@),
                }),
                ClientMessage::Put(key, val) => r is None && store_updated(
                    *old(self),
                    *final(self),
                    key@,
                    val@,
                ),
            },
    {
        match msg {
            ClientMessage::Get(key) => {
                let found: Option<Vec<u8>> = match self.data_get(&key) {
                    Some(v) => Some(crate::utils::clone_bytes(v)),
                    None => None,
                };
                match found {
                    Some(v) => Some((key, v)),
                    None => None,
                }
            },
            ClientMessage::Put(key, val) => {
                self.data_insert(key, val);
                None
            },
        }
    }

    /// The full state-actor step for one inbound datagram: refresh the
    /// sender's bucket, ping the least-recently-seen occupant and schedule
    /// its verification when the bucket is full, then handle the message
    /// itself.
    pub fn handle_from_node(&mut self, message: Message, node_id: Key, src: PeerAddr) -> (r:
        NodeEffects)
        requires
            old(self).wf(),
            msg_wf(message@),
            node_id@.len() == crate::KEY_WIDTH,
            src.ip@.len() == 4,
        ensures
            final(self).wf(),
            final(self).addr_id == old(self).addr_id,
            final(self).k_val == old(self).k_val,
            final(self).buckets@.len() == crate::NUM_BUCKETS,
            match message@ {
                MessageV::Store(k, v) => store_updated(*old(self), *final(self), k, v),
                _ => final(self).data == old(self).data,
            },
            ({
                let k_index = bucket_index_of(xor_bytes(old(self).addr_id@, node_id@));
                let b0 = cv(old(self).buckets@[k_index]@);
                let b1 = cv(final(self).buckets@[k_index]@);
                let c = ContactV { id: node_id@, ip: src.ip@, port: src.port };
                let evict = !bucket_has_id(b0, node_id@) && b0.len() >= old(self).k_val;
                let o: int = if evict {
                    1
                } else {
                    0
                };
                &&& (forall|b: int|
                    0 <= b < crate::NUM_BUCKETS && b != k_index ==> final(self).buckets@[b] == old(
                        self,
                    ).buckets@[b])
                &&& (!evict ==> b1 == (if bucket_has_id(b0, node_id@) {
                    remove_id(b0, node_id@)
                } else {
                    b0
                }).push(c))
                &&& (evict ==> b1 == b0)
                &&& r.packets@.len() == o + (if expects_reply(message@) {
                    1int
                } else {
                    0
                })
                &&& r.actions@.len() == o + (if expects_action(message@) {
                    1int
                } else {
                    0
                })
                &&& (evict ==> (match r.actions@[0] {
                    AsyncAction::SetEvictTimeout(ec) => ec.old@ == b0[0] && ec.new@ == c,
                    _ => false,
                }) && r.packets@[0].ip@ == b0[0].ip && r.packets@[0].port == b0[0].port
                    && r.packets@[0].bytes@ == encode_bytes(MessageV::Ping, old(self).addr_id@))
                &&& (expects_reply(message@) ==> {
                    let pk = r.packets@[o];
                    pk.ip@ == src.ip@ && pk.port == src.port && (exists|m: Message|
                        reply_matches(*final(self), *old(self), message@, Some(m))
                            && pk.bytes@ == encode_bytes(m@, old(self).addr_id@))
                })
                &&& (expects_action(message@) ==> action_matches(
                    message@,
                    node_id@,
                    Some(r.actions@[o]),
                ))
            }),
    {
        let diff = self.distance_to(&node_id);
        let k_index = Self::k_bucket_index(&diff);
        let contact = NodeContact {
            id: crate::utils::clone_bytes(&node_id),
            ip: crate::utils::clone_bytes(&src.ip),
            port: src.port,
        };
        let e_cand = self.update_k_bucket(k_index, contact);
        let mut packets: Vec<OutPacket> = Vec::new();
        let mut actions: Vec<AsyncAction> = Vec::new();
        match e_cand {
            None => {},
            Some(ec) => {
                let ping = ping_msg(&self.addr_id);
                packets.push(
                    OutPacket {
                        ip: crate::utils::clone_bytes(&ec.old.ip),
                        port: ec.old.port,
                        bytes: ping,
                    },
                );
                actions.push(AsyncAction::SetEvictTimeout(ec));
            },
        }
        let ghost mid = *self;
        let eff = self.receive(message, &node_id);
        match &eff.reply {
            Some(m) => {
                proof {
                    assert(mid.data == old(self).data);
                    reply_message_wf(mid, *self, message@, *m);
                    assert(reply_matches(*self, *old(self), message@, Some(*m)));
                }
                let bytes = encode_message(m, &self.addr_id);
                packets.push(
                    OutPacket { ip: crate::utils::clone_bytes(&src.ip), port: src.port, bytes },
                );
            },
            None => {},
        }
        match eff.action {
            Some(a) => actions.push(a),
            None => {},
        }
        NodeEffects { packets, actions }
    }

    /// Applies a confirmed eviction: the unresponsive occupant leaves its
    /// bucket, and the newcomer enters if there is room and it is not
    /// already present.
    pub fn apply_eviction(&mut self, ec: &EvictionCandidate)
        requires
            old(self).wf(),
            contact_wf(ec.old@),
            contact_wf(ec.new@),
        ensures
            final(self).wf(),
            final(self).addr_id == old(self).addr_id,
            final(self).k_val == old(self).k_val,
            final(self).data == old(self).data,
            final(self).buckets@.len() == crate::NUM_BUCKETS,
            ({
                let k_index = bucket_index_of(xor_bytes(old(self).addr_id@, ec.old@.id));
                let b0 = cv(old(self).buckets@[k_index]@);
                let bmid = remove_id(b0, ec.old@.id);
                let b1 = cv(final(self).buckets@[k_index]@);
                &&& (forall|b: int|
                    0 <= b < crate::NUM_BUCKETS && b != k_index ==> final(self).buckets@[b] == old(
                        self,
                    ).buckets@[b])
                &&& b1 == (if !bucket_has_id(bmid, ec.new@.id) && bmid.len() < old(self).k_val {
                    bmid.push(ec.new@)
                } else {
                    bmid
                })
            }),
    {
        let diff = self.distance_to(&ec.old.id);
        let k_index = Self::k_bucket_index(&diff);
        let blen = self.buckets[k_index].len();
        let mut pos: usize = blen;
        let mut i: usize = 0;
        while i < blen
            invariant
                i <= blen,
                pos <= blen,
                blen == cv(self.buckets@[k_index as int]@).len(),
                k_index < self.buckets@.len(),
                pos == blen ==> forall|j: int|
                    0 <= j < i ==> cv(self.buckets@[k_index as int]@)[j].id != ec.old@.id,
                pos < blen ==> pos < i && cv(self.buckets@[k_index as int]@)[pos as int].id
                    == ec.old@.id,
            decreases blen - i,
        {
            if pos == blen && crate::utils::keys_equal(
                &self.buckets[k_index][i].id,
                &ec.old.id,
            ) {
                pos = i;
            }
            i = i + 1;
        }
        let ghost bcur = cv(self.buckets@[k_index as int]@);
        proof {
            if pos < blen {
                lemma_unique_index(bcur, ec.old@.id, pos as int);
            } else {
                lemma_no_index_no_id(bcur, ec.old@.id);
            }
        }
        let mut newb = self.copy_bucket_skipping(k_index, pos);
        let nlen = newb.len();
        let mut has_new: bool = false;
        let mut j: usize = 0;
        while j < nlen
            invariant
                j <= nlen,
                nlen == newb@.len(),
                has_new ==> bucket_has_id(cv(newb@), ec.new@.id),
                !has_new ==> forall|w: int| 0 <= w < j ==> cv(newb@)[w].id != ec.new@.id,
            decreases nlen - j,
        {
            if crate::utils::keys_equal(&newb[j].id, &ec.new.id) {
                proof {
                    assert(cv(newb@)[j as int].id == ec.new@.id);
                    assert(bucket_has_id(cv(newb@), ec.new@.id));
                }
                has_new = true;
            } else {
                proof {
                    assert(cv(newb@)[j as int].id != ec.new@.id);
                }
            }
            j = j + 1;
        }
        proof {
            if !has_new {
                lemma_no_index_no_id(cv(newb@), ec.new@.id);
            }
        }
        if !has_new && nlen < self.k_val {
            let dup = ec.new.duplicate();
            proof {
                assert(cv(newb@.push(dup)) =~= cv(newb@).push(dup@));
            }
            newb.push(dup);
        }
        self.buckets.set(k_index, newb);
    }
}

/// A reply the state actor is about to encode is well-formed on the wire.
proof fn reply_message_wf(pre: KademliaNode, post: KademliaNode, msg: MessageV, m: Message)
    requires
        pre.wf(),
        post.wf(),
        msg_wf(msg),
        reply_matches(post, pre, msg, Some(m)),
    ensures
        msg_wf(m@),
{
    match msg {
        MessageV::Ping => {},
        MessageV::FindNode(key) => {},
        MessageV::FindVal(key) => {
            if pre.store_has(key) {
                lemma_store_get_bound(pre, key);
            }
        },
        _ => {},
    }
}

/// A bucket none of whose positions hold `id` does not hold `id`.
proof fn lemma_no_index_no_id(b: Seq<ContactV>, id: Seq<u8>)
    requires
        forall|j: int| 0 <= j < b.len() ==> b[j].id != id,
    ensures
        !bucket_has_id(b, id),
{
    if bucket_has_id(b, id) {
        let w = choose|i: int| 0 <= i < b.len() && b[i].id == id;
        assert(b[w].id != id);
    }
}

/// In a duplicate-free bucket, a position holding `id` is the position
/// `index_with_id` picks.
proof fn lemma_unique_index(b: Seq<ContactV>, id: Seq<u8>, pos: int)
    requires
        0 <= pos < b.len(),
        b[pos].id == id,
        forall|i: int, j: int| 0 <= i < j < b.len() ==> #[trigger] b[i].id != #[trigger] b[j].id,
    ensures
        bucket_has_id(b, id),
        index_with_id(b, id) == pos,
{
    assert(bucket_has_id(b, id));
    let w = index_with_id(b, id);
    if w < pos {
        assert(b[w].id != b[pos].id);
        assert(false);
    } else if w > pos {
        assert(b[pos].id != b[w].id);
        assert(false);
    }
}

} // verus!
