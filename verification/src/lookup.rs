//! The iterative lookup coordinator: per-key candidate lists colored by
//! visit state, a global bound on outstanding requests, termination
//! detection, and the eviction-verification timers.

use vstd::prelude::*;

use crate::identity::{
    cmp_dist_wrt, dist_lt, lemma_dist_lt_total, lemma_dist_lt_trans, lemma_distance_injective,
    lemma_xor_comm, xor_bytes, DistanceOrder,
};
use crate::message_protocol::{contact_wf, ContactV, NodeContact};
use crate::node::{cv, AsyncAction, EvictionCandidate, OutPacket};

verus! {

/// Seconds an eviction candidate may wait for the old contact to answer.
pub const DEFAULT_TTL: i64 = 3;

/// Most outstanding lookup requests allowed at once, across all keys.
pub const ALPHA_FACTOR: usize = 4;

/// Seconds an outstanding lookup request stays valid.
pub const REQUEST_TTL: i64 = 1;

/// The visit state of a lookup candidate: unvisited, awaiting a response
/// until the carried expiry, responded, or timed out.
#[derive(Clone, Copy, Debug, PartialEq, Eq, Structural)]
pub enum Color {
    White,
    Grey(i64),
    Black,
    Yellow,
}

/// The views of a candidate list, in order.
pub open spec fn lv(s: Seq<(NodeContact, Color)>) -> Seq<(ContactV, Color)> {
    s.map_values(|e: (NodeContact, Color)| (e.0@, e.1))
}

/// The views of the outstanding-request list.
pub open spec fn fov(s: Seq<(NodeContact, i64)>) -> Seq<(ContactV, i64)> {
    s.map_values(|e: (NodeContact, i64)| (e.0@, e.1))
}

/// The views of the eviction-timer list.
pub open spec fn tbv(s: Seq<(EvictionCandidate, i64)>) -> Seq<((ContactV, ContactV), i64)> {
    s.map_values(|e: (EvictionCandidate, i64)| ((e.0.old@, e.0.new@), e.1))
}

/// Whether a candidate list holds an entry for `id`.
pub open spec fn has_entry(es: Seq<(ContactV, Color)>, id: Seq<u8>) -> bool {
    exists|i: int| 0 <= i < es.len() && es[i].0.id == id
}

/// The entry for `id`, meaningful when `has_entry` holds and identifiers
/// are unique.
pub open spec fn entry_of(es: Seq<(ContactV, Color)>, id: Seq<u8>) -> (ContactV, Color) {
    es[choose|i: int| 0 <= i < es.len() && es[i].0.id == id]
}

/// A candidate list ordered by distance to the lookup target, closest
/// first.
pub open spec fn sorted_by_dist(target: Seq<u8>, es: Seq<(ContactV, Color)>) -> bool {
    forall|i: int, j: int|
        0 <= i < j < es.len() ==> !dist_lt(
            xor_bytes((#[trigger] es[j]).0.id, target),
            xor_bytes((#[trigger] es[i]).0.id, target),
        )
}

/// A well-formed candidate list: well-formed contacts, no identifier
/// twice.
pub open spec fn entries_wf(es: Seq<(ContactV, Color)>) -> bool {
    &&& forall|i: int| 0 <= i < es.len() ==> contact_wf((#[trigger] es[i]).0)
    &&& forall|i: int, j: int|
        0 <= i < j < es.len() ==> #[trigger] es[i].0.id != #[trigger] es[j].0.id
}

/// A finished lookup: its leading `k` candidates (or all of them, when
/// fewer are known) have all responded.
pub open spec fn is_finished_spec(es: Seq<(ContactV, Color)>, k: int) -> bool {
    forall|i: int| 0 <= i < vstd::math::min(k, es.len() as int) ==> (#[trigger] es[i]).1 == Color::Black
}

/// What one lookup-actor event produces: request datagrams to send,
/// evictions confirmed by timeout for the routing table to apply, and at
/// most one lookup reported finished.
pub struct AlphaEffects {
    pub packets: Vec<OutPacket>,
    pub expired: Vec<EvictionCandidate>,
    pub finished: Option<Vec<u8>>,
}

/// The lookup actor's state: the per-key candidate lists, the globally
/// bounded outstanding requests, and the eviction-verification timers.
pub struct LookupCoordinator {
    pub id: Vec<u8>,
    pub k_val: usize,
    pub alpha: usize,
    pub lookups: Vec<(Vec<u8>, Vec<(NodeContact, Color)>)>,
    pub find_out: Vec<(NodeContact, i64)>,
    pub timeoutbuf: Vec<(EvictionCandidate, i64)>,
}

impl LookupCoordinator {
    /// Well-formedness: a full-width identifier, sane bounds, unique
    /// full-width lookup keys, and per key a well-formed candidate list
    /// sorted by distance to that key; never more outstanding requests
    /// than the concurrency bound.
    pub open spec fn wf(self) -> bool {
        &&& self.id@.len() == crate::KEY_WIDTH
        &&& 1 <= self.k_val <= 0xFFFF
        &&& 1 <= self.alpha
        &&& self.find_out@.len() <= self.alpha
        &&& forall|i: int|
            0 <= i < self.lookups@.len() ==> (#[trigger] self.lookups@[i]).0@.len()
                == crate::KEY_WIDTH
        &&& forall|i: int, j: int|
            0 <= i < j < self.lookups@.len() ==> #[trigger] self.lookups@[i].0@
                != #[trigger] self.lookups@[j].0@
        &&& forall|i: int|
            0 <= i < self.lookups@.len() ==> entries_wf(lv((#[trigger] self.lookups@[i]).1@))
        &&& forall|i: int|
            0 <= i < self.lookups@.len() ==> sorted_by_dist(
                (#[trigger] self.lookups@[i]).0@,
                lv(self.lookups@[i].1@),
            )
    }

    /// Whether a lookup is active for `key`.
    pub open spec fn has_lookup(self, key: Seq<u8>) -> bool {
        exists|i: int| 0 <= i < self.lookups@.len() && self.lookups@[i].0@ == key
    }

    /// The candidate list of the lookup for `key`.
    pub open spec fn entries_for(self, key: Seq<u8>) -> Seq<(ContactV, Color)> {
        lv(self.lookups@[choose|i: int| 0 <= i < self.lookups@.len() && self.lookups@[i].0@ == key].1@)
    }

    /// A fresh coordinator for the node with the given identifier.
    pub fn new(id: Vec<u8>, k_val: usize) -> (r: LookupCoordinator)
        requires
            id@.len() == crate::KEY_WIDTH,
            1 <= k_val <= 0xFFFF,
        ensures
            r.wf(),
            r.id@ == id@,
            r.k_val == k_val,
            r.alpha == ALPHA_FACTOR,
            r.lookups@.len() == 0,
            r.find_out@.len() == 0,
            r.timeoutbuf@.len() == 0,
    {
        LookupCoordinator {
            id,
            k_val,
            alpha: ALPHA_FACTOR,
            lookups: Vec::new(),
            find_out: Vec::new(),
            timeoutbuf: Vec::new(),
        }
    }

    /// True exactly when the leading `k` candidates of the lookup for
    /// `key` (or all of them, when fewer are known) have all responded;
    /// false for a key with no active lookup.
    pub fn is_finished(&self, key: &Vec<u8>) -> (r: bool)
        requires
            self.wf(),
        ensures
            self.has_lookup(key@) ==> r == is_finished_spec(self.entries_for(key@), self.k_val as int),
            !self.has_lookup(key@) ==> r == false,
    {
        let li = match self.find_lookup(key) {
            Some(li) => li,
            None => {
                return false;
            },
        };
        let entries = &self.lookups[li].1;
        let total = entries.len();
        let mut m: usize = 0;
        while m < total
            invariant
                m <= total,
                total == entries@.len(),
                forall|i: int| 0 <= i < m ==> (#[trigger] entries@[i]).1 == Color::Black,
            ensures
                m <= total,
                total == entries@.len(),
                forall|i: int| 0 <= i < m ==> (#[trigger] entries@[i]).1 == Color::Black,
                m < total ==> entries@[m as int].1 != Color::Black,
            decreases total - m,
        {
            if !matches!(entries[m].1, Color::Black) {
                break;
            }
            m = m + 1;
        }
        let r = m >= self.k_val || m >= total;
        proof {
            let es = lv(entries@);
            assert(es == self.entries_for(key@));
            let n = vstd::math::min(self.k_val as int, es.len() as int);
            if r {
                assert forall|i: int| 0 <= i < n implies (#[trigger] es[i]).1 == Color::Black by {
                    assert(es[i].1 == entries@[i].1);
                }
            } else {
                assert(m < n);
                assert(es[m as int].1 == entries@[m as int].1);
                assert(es[m as int].1 != Color::Black);
            }
        }
        r
    }

    /// The position of the lookup for `key`, if one is active.
    fn find_lookup(&self, key: &Vec<u8>) -> (r: Option<usize>)
        requires
            self.wf(),
        ensures
            match r {
                Some(li) => li < self.lookups@.len() && self.lookups@[li as int].0@ == key@
                    && self.has_lookup(key@) && self.entries_for(key@) == lv(
                    self.lookups@[li as int].1@,
                ),
                None => !self.has_lookup(key@),
            },
    {
        let mut i: usize = 0;
        while i < self.lookups.len()
            invariant
                self.wf(),
                i <= self.lookups@.len(),
                forall|j: int| 0 <= j < i ==> (#[trigger] self.lookups@[j]).0@ != key@,
            decreases self.lookups@.len() - i,
        {
            if crate::utils::keys_equal(&self.lookups[i].0, key) {
                proof {
                    assert(self.has_lookup(key@));
                    let w = choose|w: int|
                        0 <= w < self.lookups@.len() && self.lookups@[w].0@ == key@;
                    if w < i {
                        assert(self.lookups@[w].0@ != self.lookups@[i as int].0@);
                        assert(false);
                    } else if w > i {
                        assert(self.lookups@[i as int].0@ != self.lookups@[w].0@);
                        assert(false);
                    }
                }
                return Some(i);
            }
            i = i + 1;
        }
        proof {
            if self.has_lookup(key@) {
                let w = choose|w: int| 0 <= w < self.lookups@.len() && self.lookups@[w].0@ == key@;
                assert(self.lookups@[w].0@ != key@);
            }
        }
        None
    }

    /// The first position whose entry lies farther from `basis` than
    /// `cid`, or the length when none does.
    fn find_entry_pos(into: &Vec<(NodeContact, Color)>, cid: &Vec<u8>, basis: &Vec<u8>) -> (p:
        usize)
        requires
            cid@.len() == crate::KEY_WIDTH,
            basis@.len() == crate::KEY_WIDTH,
            forall|i: int| 0 <= i < into@.len() ==> contact_wf((#[trigger] lv(into@)[i]).0),
        ensures
            p <= into@.len(),
            forall|j: int|
                0 <= j < p ==> !dist_lt(
                    xor_bytes(cid@, basis@),
                    xor_bytes((#[trigger] lv(into@)[j]).0.id, basis@),
                ),
            p < into@.len() ==> dist_lt(
                xor_bytes(cid@, basis@),
                xor_bytes(lv(into@)[p as int].0.id, basis@),
            ),
    {
        let mut p: usize = 0;
        while p < into.len()
            invariant
                p <= into@.len(),
                cid@.len() == crate::KEY_WIDTH,
                basis@.len() == crate::KEY_WIDTH,
                forall|i: int| 0 <= i < into@.len() ==> contact_wf((#[trigger] lv(into@)[i]).0),
                forall|j: int|
                    0 <= j < p ==> !dist_lt(
                        xor_bytes(cid@, basis@),
                        xor_bytes((#[trigger] lv(into@)[j]).0.id, basis@),
                    ),
            decreases into@.len() - p,
        {
            proof {
                assert(lv(into@)[p as int].0 == into@[p as int].0@);
            }
            let ord = cmp_dist_wrt(&into[p].0.id, cid, basis);
            proof {
                lemma_xor_comm(basis@, cid@);
                lemma_xor_comm(basis@, into@[p as int].0@.id);
            }
            if ord == DistanceOrder::AFarther {
                return p;
            }
            p = p + 1;
        }
        p
    }

    /// Merges freshly learned contacts into a candidate list ordered by
    /// distance to `basis`: a contact whose identifier is already present
    /// is skipped, the others are inserted White at their sorted position.
    pub fn merge_into(
        into: &mut Vec<(NodeContact, Color)>,
        candidates: &Vec<NodeContact>,
        basis: &Vec<u8>,
    )
        requires
            basis@.len() == crate::KEY_WIDTH,
            entries_wf(lv(old(into)@)),
            sorted_by_dist(basis@, lv(old(into)@)),
            forall|i: int|
                0 <= i < candidates@.len() ==> contact_wf((#[trigger] candidates@[i])@),
        ensures
            entries_wf(lv(final(into)@)),
            sorted_by_dist(basis@, lv(final(into)@)),
            merged(lv(old(into)@), cv(candidates@), lv(final(into)@)),
    {
        let ghost pre0 = lv(old(into)@);
        let ghost cands = cv(candidates@);
        let mut ci: usize = 0;
        proof {
            assert(cands.take(0) =~= Seq::<ContactV>::empty());
            assert(merged(pre0, cands.take(0), lv(into@)));
        }
        while ci < candidates.len()
            invariant
                ci <= candidates@.len(),
                basis@.len() == crate::KEY_WIDTH,
                cands == cv(candidates@),
                forall|i: int|
                    0 <= i < candidates@.len() ==> contact_wf((#[trigger] candidates@[i])@),
                entries_wf(lv(into@)),
                sorted_by_dist(basis@, lv(into@)),
                merged(pre0, cands.take(ci as int), lv(into@)),
            decreases candidates@.len() - ci,
        {
            let c = &candidates[ci];
            let ghost cvv = candidates@[ci as int]@;
            let mut found = false;
            let mut j: usize = 0;
            while j < into.len()
                invariant
                    j <= into@.len(),
                    cvv == candidates@[ci as int]@,
                    ci < candidates@.len(),
                    c == &candidates@[ci as int],
                    found ==> has_entry(lv(into@), cvv.id),
                    !found ==> forall|w: int| 0 <= w < j ==> (#[trigger] lv(into@)[w]).0.id
                        != cvv.id,
                decreases into@.len() - j,
            {
                if crate::utils::keys_equal(&into[j].0.id, &c.id) {
                    proof {
                        assert(lv(into@)[j as int].0.id == cvv.id);
                        assert(has_entry(lv(into@), cvv.id));
                    }
                    found = true;
                } else {
                    proof {
                        assert(lv(into@)[j as int].0.id != cvv.id);
                    }
                }
                j = j + 1;
            }
            proof {
                assert(cands.take(ci + 1) =~= cands.take(ci as int).push(cands[ci as int]));
                assert(cands[ci as int] == cvv);
            }
            if !found {
                proof {
                    lemma_no_entry(lv(into@), cvv.id);
                }
                let p = Self::find_entry_pos(into, &c.id, basis);
                let entry = (c.duplicate(), Color::White);
                let ghost prev = lv(into@);
                let ghost prev_exec = into@;
                let ghost entv = (cvv, Color::White);
                into.insert(p, entry);
                proof {
                    prev_exec.insert_ensures(p as int, entry);
                    prev.insert_ensures(p as int, entv);
                    assert forall|w: int| 0 <= w < lv(into@).len() implies lv(into@)[w]
                        == prev.insert(p as int, entv)[w] by {
                        if w < p {
                            assert(into@[w] == prev_exec[w]);
                        } else if w == p {
                            assert(into@[w] == entry);
                        } else {
                            assert(into@[w] == prev_exec[w - 1]);
                        }
                    }
                    assert(lv(into@) =~= prev.insert(p as int, entv));
                    lemma_entry_insert(prev, entv, p as int);
                    lemma_entries_sorted_insert(prev, entv, p as int, basis@);
                    lemma_merge_step(pre0, cands, ci as int, prev, lv(into@), p as int);
                }
            } else {
                proof {
                    assert forall|i: int|
                        0 <= i < cands.take(ci + 1).len() implies has_entry(
                        lv(into@),
                        (#[trigger] cands.take(ci + 1)[i]).id,
                    ) by {
                        if i < ci {
                            assert(cands.take(ci as int)[i] == cands.take(ci + 1)[i]);
                        }
                    }
                    assert(merged(pre0, cands.take(ci + 1), lv(into@)));
                }
            }
            ci = ci + 1;
        }
        proof {
            assert(cands.take(candidates@.len() as int) =~= cands);
        }
    }

    /// Turns the Grey entry of the responding identifier Black.
    pub fn mark_black(entries: &mut Vec<(NodeContact, Color)>, rid: &Vec<u8>)
        ensures
            final(entries)@.len() == old(entries)@.len(),
            lv(final(entries)@) == blackened(lv(old(entries)@), rid@),
    {
        let ghost pre = lv(old(entries)@);
        let mut i: usize = 0;
        while i < entries.len()
            invariant
                i <= entries@.len(),
                entries@.len() == old(entries)@.len(),
                pre == lv(old(entries)@),
                forall|j: int| 0 <= j < i ==> lv(entries@)[j] == blackened(pre, rid@)[j],
                forall|j: int| i <= j < entries@.len() ==> entries@[j] == old(entries)@[j],
            decreases entries@.len() - i,
        {
            let is_grey = matches!(entries[i].1, Color::Grey(_));
            if is_grey && crate::utils::keys_equal(&entries[i].0.id, rid) {
                let c = entries[i].0.duplicate();
                entries.set(i, (c, Color::Black));
                proof {
                    assert(lv(entries@)[i as int] == blackened(pre, rid@)[i as int]);
                }
            } else {
                proof {
                    assert(lv(entries@)[i as int] == blackened(pre, rid@)[i as int]);
                }
            }
            i = i + 1;
        }
        proof {
            assert(lv(entries@) =~= blackened(pre, rid@));
        }
    }

    /// Clears the outstanding-request record of the responder.
    fn clear_outstanding(&mut self, rid: &Vec<u8>)
        ensures
            final(self).id == old(self).id,
            final(self).k_val == old(self).k_val,
            final(self).alpha == old(self).alpha,
            final(self).lookups == old(self).lookups,
            final(self).timeoutbuf == old(self).timeoutbuf,
            final(self).find_out@.len() <= old(self).find_out@.len(),
            fov(final(self).find_out@) == fov(old(self).find_out@).filter(fo_id_differs(rid@)),
    {
        let mut kept: Vec<(NodeContact, i64)> = Vec::new();
        let mut i: usize = 0;
        proof {
            reveal(Seq::filter);
            assert(fov(kept@) =~= fov(self.find_out@).take(0).filter(fo_id_differs(rid@)));
        }
        while i < self.find_out.len()
            invariant
                i <= self.find_out@.len(),
                kept@.len() <= i,
                fov(kept@) == fov(self.find_out@).take(i as int).filter(fo_id_differs(rid@)),
            decreases self.find_out@.len() - i,
        {
            let keep = !crate::utils::keys_equal(&self.find_out[i].0.id, rid);
            proof {
                assert(fov(self.find_out@).take(i + 1) =~= fov(self.find_out@).take(
                    i as int,
                ).push(fov(self.find_out@)[i as int]));
                lemma_filter_push(
                    fov(self.find_out@).take(i as int),
                    fov(self.find_out@)[i as int],
                    fo_id_differs(rid@),
                );
                assert(fo_id_differs(rid@)(fov(self.find_out@)[i as int]) == keep);
            }
            if keep {
                let e = &self.find_out[i];
                let ghost prek = kept@;
                kept.push((e.0.duplicate(), e.1));
                proof {
                    assert(fov(kept@) =~= fov(prek).push(fov(self.find_out@)[i as int]));
                }
            }
            i = i + 1;
        }
        proof {
            assert(fov(self.find_out@).take(self.find_out@.len() as int) =~= fov(
                self.find_out@,
            ));
        }
        self.find_out = kept;
    }

    /// Merges lookup results for `key` into its candidate list, creating
    /// the lookup if none is active; a responding peer's entry turns Black
    /// and its outstanding-request record is cleared.
    #[verifier::rlimit(50)]
    pub fn merge_results(
        &mut self,
        key: &Vec<u8>,
        new_contacts: &Vec<NodeContact>,
        responding: Option<&Vec<u8>>,
    )
        requires
            old(self).wf(),
            key@.len() == crate::KEY_WIDTH,
            forall|i: int|
                0 <= i < new_contacts@.len() ==> contact_wf((#[trigger] new_contacts@[i])@),
        ensures
            final(self).wf(),
            final(self).id == old(self).id,
            final(self).k_val == old(self).k_val,
            final(self).alpha == old(self).alpha,
            final(self).timeoutbuf == old(self).timeoutbuf,
            final(self).has_lookup(key@),
            merge_results_post(
                *old(self),
                *final(self),
                key@,
                cv(new_contacts@),
                opt_view(responding),
            ),
            forall|k2: Seq<u8>|
                k2 != key@ ==> (#[trigger] final(self).has_lookup(k2) <==> old(self).has_lookup(
                    k2,
                )),
            forall|k2: Seq<u8>|
                k2 != key@ && old(self).has_lookup(k2) ==> #[trigger] final(self).entries_for(k2)
                    == old(self).entries_for(k2),
            fov(final(self).find_out@) == (match responding {
                Some(rid) => fov(old(self).find_out@).filter(fo_id_differs(rid@)),
                None => fov(old(self).find_out@),
            }),
    {
        let li_opt = self.find_lookup(key);
        match li_opt {
            Some(li) => {
                let ghost pre_lookups = self.lookups@;
                let mut st = self.lookups.remove(li);
                Self::merge_into(&mut st.1, new_contacts, key);
                let ghost mid_es = lv(st.1@);
                match responding {
                    Some(rid) => {
                        Self::mark_black(&mut st.1, rid);
                        proof {
                            lemma_blackened_shape(mid_es, rid@);
                        }
                        self.clear_outstanding(rid);
                    },
                    None => {},
                }
                let ghost st_final = st;
                self.lookups.insert(li, st);
                proof {
                    let after_rm = pre_lookups.remove(li as int);
                    after_rm.insert_ensures(li as int, st_final);
                    assert(self.lookups@ =~= pre_lookups.update(li as int, st_final));
                    self.merge_results_frame(*old(self), key@, li as int, st_final, mid_es);
                    assert(old(self).has_lookup(key@));
                    assert(pre_entries(*old(self), key@) == old(self).entries_for(key@));
                    assert(merged(pre_entries(*old(self), key@), cv(new_contacts@), mid_es));
                    assert(self.entries_for(key@) == lv(st_final.1@));
                    match responding {
                        Some(rid) => {
                            assert(lv(st_final.1@) == blackened(mid_es, rid@));
                        },
                        None => {
                            assert(lv(st_final.1@) == mid_es);
                        },
                    }
                    lemma_merge_results_post(
                        *old(self),
                        *self,
                        key@,
                        cv(new_contacts@),
                        opt_view(responding),
                        mid_es,
                    );
                }
            },
            None => {
                let mut entries: Vec<(NodeContact, Color)> = Vec::new();
                proof {
                    assert(lv(entries@) =~= Seq::<(ContactV, Color)>::empty());
                }
                Self::merge_into(&mut entries, new_contacts, key);
                let ghost mid_es = lv(entries@);
                match responding {
                    Some(rid) => {
                        Self::mark_black(&mut entries, rid);
                        proof {
                            lemma_blackened_shape(mid_es, rid@);
                        }
                        self.clear_outstanding(rid);
                    },
                    None => {},
                }
                let kc = crate::utils::clone_bytes(key);
                let ghost pre_lookups = self.lookups@;
                let ghost st_final = (kc, entries);
                self.lookups.push((kc, entries));
                proof {
                    assert(self.lookups@ =~= pre_lookups.push(st_final));
                    self.merge_results_frame_new(*old(self), key@, st_final, mid_es);
                    assert(!old(self).has_lookup(key@));
                    assert(pre_entries(*old(self), key@) == Seq::<(ContactV, Color)>::empty());
                    assert(merged(pre_entries(*old(self), key@), cv(new_contacts@), mid_es));
                    assert(self.entries_for(key@) == lv(st_final.1@));
                    match responding {
                        Some(rid) => {
                            assert(lv(st_final.1@) == blackened(mid_es, rid@));
                        },
                        None => {
                            assert(lv(st_final.1@) == mid_es);
                        },
                    }
                    lemma_merge_results_post(
                        *old(self),
                        *self,
                        key@,
                        cv(new_contacts@),
                        opt_view(responding),
                        mid_es,
                    );
                }
            },
        }
    }

    /// Frame reasoning after replacing the lookup state at `li`.
    proof fn merge_results_frame(
        self,
        pre: LookupCoordinator,
        key: Seq<u8>,
        li: int,
        st: (Vec<u8>, Vec<(NodeContact, Color)>),
        mid_es: Seq<(ContactV, Color)>,
    )
        requires
            pre.wf(),
            0 <= li < pre.lookups@.len(),
            pre.lookups@[li].0@ == key,
            st.0@ == key,
            self.lookups@ == pre.lookups@.update(li, st),
            entries_wf(lv(st.1@)),
            sorted_by_dist(key, lv(st.1@)),
        ensures
            forall|i: int|
                0 <= i < self.lookups@.len() ==> (#[trigger] self.lookups@[i]).0@.len()
                    == crate::KEY_WIDTH,
            forall|i: int, j: int|
                0 <= i < j < self.lookups@.len() ==> #[trigger] self.lookups@[i].0@
                    != #[trigger] self.lookups@[j].0@,
            forall|i: int|
                0 <= i < self.lookups@.len() ==> entries_wf(lv((#[trigger] self.lookups@[i]).1@)),
            forall|i: int|
                0 <= i < self.lookups@.len() ==> sorted_by_dist(
                    (#[trigger] self.lookups@[i]).0@,
                    lv(self.lookups@[i].1@),
                ),
            self.has_lookup(key),
            self.entries_for(key) == lv(st.1@),
            forall|k2: Seq<u8>|
                k2 != key ==> (#[trigger] self.has_lookup(k2) <==> pre.has_lookup(k2)),
            forall|k2: Seq<u8>|
                k2 != key && pre.has_lookup(k2) ==> #[trigger] self.entries_for(k2)
                    == pre.entries_for(k2),
    {
        assert forall|i: int, j: int|
            0 <= i < j < self.lookups@.len() implies #[trigger] self.lookups@[i].0@
            != #[trigger] self.lookups@[j].0@ by {
            assert(pre.lookups@[i].0@ != pre.lookups@[j].0@);
        }
        lemma_lookup_at(self, key, li);
        assert forall|k2: Seq<u8>|
            k2 != key implies (#[trigger] self.has_lookup(k2) <==> pre.has_lookup(k2)) by {
            if self.has_lookup(k2) {
                let w = choose|w: int|
                    0 <= w < self.lookups@.len() && self.lookups@[w].0@ == k2;
                assert(w != li);
                assert(pre.lookups@[w].0@ == k2);
                assert(pre.has_lookup(k2));
            }
            if pre.has_lookup(k2) {
                let w = choose|w: int| 0 <= w < pre.lookups@.len() && pre.lookups@[w].0@ == k2;
                assert(w != li);
                assert(self.lookups@[w].0@ == k2);
                assert(self.has_lookup(k2));
            }
        }
        assert forall|k2: Seq<u8>|
            k2 != key && pre.has_lookup(k2) implies #[trigger] self.entries_for(k2)
            == pre.entries_for(k2) by {
            let w = choose|w: int| 0 <= w < pre.lookups@.len() && pre.lookups@[w].0@ == k2;
            assert(w != li);
            lemma_lookup_at(pre, k2, w);
            lemma_lookup_at(self, k2, w);
        }
    }

    /// Frame reasoning after starting a fresh lookup state for `key`.
    proof fn merge_results_frame_new(
        self,
        pre: LookupCoordinator,
        key: Seq<u8>,
        st: (Vec<u8>, Vec<(NodeContact, Color)>),
        mid_es: Seq<(ContactV, Color)>,
    )
        requires
            pre.wf(),
            !pre.has_lookup(key),
            key.len() == crate::KEY_WIDTH,
            st.0@ == key,
            self.lookups@ == pre.lookups@.push(st),
            entries_wf(lv(st.1@)),
            sorted_by_dist(key, lv(st.1@)),
        ensures
            forall|i: int|
                0 <= i < self.lookups@.len() ==> (#[trigger] self.lookups@[i]).0@.len()
                    == crate::KEY_WIDTH,
            forall|i: int, j: int|
                0 <= i < j < self.lookups@.len() ==> #[trigger] self.lookups@[i].0@
                    != #[trigger] self.lookups@[j].0@,
            forall|i: int|
                0 <= i < self.lookups@.len() ==> entries_wf(lv((#[trigger] self.lookups@[i]).1@)),
            forall|i: int|
                0 <= i < self.lookups@.len() ==> sorted_by_dist(
                    (#[trigger] self.lookups@[i]).0@,
                    lv(self.lookups@[i].1@),
                ),
            self.has_lookup(key),
            self.entries_for(key) == lv(st.1@),
            forall|k2: Seq<u8>|
                k2 != key ==> (#[trigger] self.has_lookup(k2) <==> pre.has_lookup(k2)),
            forall|k2: Seq<u8>|
                k2 != key && pre.has_lookup(k2) ==> #[trigger] self.entries_for(k2)
                    == pre.entries_for(k2),
    {
        let n = pre.lookups@.len() as int;
        assert forall|j: int| 0 <= j < n implies (#[trigger] pre.lookups@[j]).0@ != key by {
            if pre.lookups@[j].0@ == key {
                assert(pre.has_lookup(key));
            }
        }
        assert forall|i: int, j: int|
            0 <= i < j < self.lookups@.len() implies #[trigger] self.lookups@[i].0@
            != #[trigger] self.lookups@[j].0@ by {
            if j < n {
                assert(pre.lookups@[i].0@ != pre.lookups@[j].0@);
            } else {
                assert(self.lookups@[j] == st);
                assert(self.lookups@[i] == pre.lookups@[i]);
            }
        }
        lemma_lookup_at(self, key, n);
        assert forall|k2: Seq<u8>|
            k2 != key implies (#[trigger] self.has_lookup(k2) <==> pre.has_lookup(k2)) by {
            if self.has_lookup(k2) {
                let w = choose|w: int|
                    0 <= w < self.lookups@.len() && self.lookups@[w].0@ == k2;
                assert(w != n);
                assert(pre.lookups@[w].0@ == k2);
                assert(pre.has_lookup(k2));
            }
            if pre.has_lookup(k2) {
                let w = choose|w: int| 0 <= w < pre.lookups@.len() && pre.lookups@[w].0@ == k2;
                assert(self.lookups@[w].0@ == k2);
                assert(self.has_lookup(k2));
            }
        }
        assert forall|k2: Seq<u8>|
            k2 != key && pre.has_lookup(k2) implies #[trigger] self.entries_for(k2)
            == pre.entries_for(k2) by {
            let w = choose|w: int| 0 <= w < pre.lookups@.len() && pre.lookups@[w].0@ == k2;
            lemma_lookup_at(pre, k2, w);
            lemma_lookup_at(self, k2, w);
        }
    }

    /// Colors at most `num_to_color` White entries Grey, in order, with an
    /// expiry one request lifetime from `now`, and returns their contacts.
    pub fn color(field: &mut Vec<(NodeContact, Color)>, num_to_color: usize, now: i64) -> (r:
        Vec<NodeContact>)
        ensures
            ({
                let gp = grey_prefix(
                    lv(old(field)@),
                    num_to_color as int,
                    sat_add(now as int, REQUEST_TTL as int) as i64,
                );
                lv(final(field)@) == gp.0 && cv(r@) == gp.1
            }),
    {
        let expiry = saturating_add(now, REQUEST_TTL);
        let ghost pre = lv(old(field)@);
        let ghost gp = grey_prefix(pre, num_to_color as int, expiry);
        let mut out: Vec<NodeContact> = Vec::new();
        let mut left: usize = num_to_color;
        let mut i: usize = 0;
        let flen = field.len();
        proof {
            assert(pre.skip(0) =~= pre);
            assert(lv(field@).take(0) + grey_prefix(pre.skip(0), left as int, expiry).0 =~= gp.0);
            assert(cv(out@) + grey_prefix(pre.skip(0), left as int, expiry).1 =~= gp.1);
        }
        while i < flen && left > 0
            invariant
                i <= flen,
                left <= num_to_color,
                flen == field@.len(),
                field@.len() == pre.len(),
                pre == lv(old(field)@),
                expiry == sat_add(now as int, REQUEST_TTL as int) as i64,
                gp == grey_prefix(pre, num_to_color as int, expiry),
                forall|j: int| i <= j < pre.len() ==> field@[j] == old(field)@[j],
                gp == (
                    lv(field@).take(i as int) + grey_prefix(pre.skip(i as int), left as int, expiry).0,
                    cv(out@) + grey_prefix(pre.skip(i as int), left as int, expiry).1,
                ),
            decreases flen - i,
        {
            let ghost q = pre.skip(i as int);
            proof {
                assert(q.len() > 0);
                assert(q[0] == pre[i as int]);
                assert(pre[i as int] == lv(old(field)@)[i as int]);
                assert(lv(field@)[i as int] == pre[i as int]);
                assert(q.drop_first() =~= pre.skip(i + 1));
            }
            let is_white = matches!(field[i].1, Color::White);
            if is_white {
                let c = field[i].0.duplicate();
                let ghost prev_field = field@;
                let ghost prev_out = out@;
                field.set(i, (c.duplicate(), Color::Grey(expiry)));
                out.push(c);
                proof {
                    assert(q[0].1 == Color::White);
                    assert(grey_prefix(q, left as int, expiry).0 == seq![
                        (q[0].0, Color::Grey(expiry)),
                    ] + grey_prefix(q.drop_first(), left - 1, expiry).0);
                    assert(grey_prefix(q, left as int, expiry).1 == seq![q[0].0] + grey_prefix(
                        q.drop_first(),
                        left - 1,
                        expiry,
                    ).1);
                    assert(lv(field@).take(i + 1) =~= lv(prev_field).take(i as int).push(
                        (q[0].0, Color::Grey(expiry)),
                    ));
                    assert(lv(field@).take(i + 1) + grey_prefix(
                        pre.skip(i + 1),
                        left - 1,
                        expiry,
                    ).0 =~= lv(prev_field).take(i as int) + grey_prefix(q, left as int, expiry).0);
                    assert(cv(out@) =~= cv(prev_out).push(q[0].0));
                    assert(cv(out@) + grey_prefix(pre.skip(i + 1), left - 1, expiry).1 =~= cv(
                        prev_out,
                    ) + grey_prefix(q, left as int, expiry).1);
                    assert(forall|j: int|
                        i + 1 <= j < pre.len() ==> field@[j] == old(field)@[j]);
                }
                left = left - 1;
            } else {
                proof {
                    assert(q[0].1 != Color::White);
                    assert(grey_prefix(q, left as int, expiry).0 == seq![q[0]] + grey_prefix(
                        q.drop_first(),
                        left as int,
                        expiry,
                    ).0);
                    assert(grey_prefix(q, left as int, expiry).1 == grey_prefix(
                        q.drop_first(),
                        left as int,
                        expiry,
                    ).1);
                    assert(lv(field@).take(i + 1) =~= lv(field@).take(i as int).push(q[0]));
                    assert(lv(field@).take(i + 1) + grey_prefix(
                        pre.skip(i + 1),
                        left as int,
                        expiry,
                    ).0 =~= lv(field@).take(i as int) + grey_prefix(q, left as int, expiry).0);
                }
            }
            i = i + 1;
        }
        proof {
            let q = pre.skip(i as int);
            if left == 0 {
                assert(grey_prefix(q, 0, expiry) == (q, Seq::<ContactV>::empty()));
            } else {
                assert(i == flen);
                assert(q =~= Seq::<(ContactV, Color)>::empty());
                assert(grey_prefix(q, left as int, expiry).0 =~= q);
                assert(grey_prefix(q, left as int, expiry).1 =~= Seq::<ContactV>::empty());
            }
            assert forall|j: int| 0 <= j < pre.len() implies #[trigger] lv(field@).take(
                i as int,
            ).add(pre.skip(i as int))[j] == lv(field@)[j] by {
                if j >= i {
                    assert(field@[j] == old(field)@[j]);
                }
            }
            assert(lv(field@).take(i as int) + pre.skip(i as int) =~= lv(field@));
            assert(cv(out@) + Seq::<ContactV>::empty() =~= cv(out@));
        }
        out
    }

    /// Sends a round of requests for `key`: as long as the global bound
    /// allows, the closest unvisited candidates are marked Grey and a
    /// request datagram is produced for each, its record added to the
    /// outstanding list.
    pub fn dispatch_round(&mut self, key: &Vec<u8>, now: i64) -> (r: Vec<OutPacket>)
        requires
            old(self).wf(),
            key@.len() == crate::KEY_WIDTH,
        ensures
            final(self).wf(),
            final(self).id == old(self).id,
            final(self).k_val == old(self).k_val,
            final(self).alpha == old(self).alpha,
            final(self).timeoutbuf == old(self).timeoutbuf,
            final(self).has_lookup(key@) <==> old(self).has_lookup(key@),
            forall|k2: Seq<u8>|
                k2 != key@ ==> (#[trigger] final(self).has_lookup(k2) <==> old(self).has_lookup(
                    k2,
                )),
            forall|k2: Seq<u8>|
                k2 != key@ && old(self).has_lookup(k2) ==> #[trigger] final(self).entries_for(k2)
                    == old(self).entries_for(k2),
            !old(self).has_lookup(key@) ==> final(self).lookups == old(self).lookups
                && final(self).find_out == old(self).find_out && r@.len() == 0,
            old(self).has_lookup(key@) ==> ({
                let gp = grey_prefix(
                    old(self).entries_for(key@),
                    old(self).alpha - old(self).find_out@.len(),
                    sat_add(now as int, REQUEST_TTL as int) as i64,
                );
                &&& final(self).entries_for(key@) == gp.0
                &&& fov(final(self).find_out@) == fov(old(self).find_out@) + gp.1.map_values(
                    |c: ContactV| (c, sat_add(now as int, REQUEST_TTL as int) as i64),
                )
                &&& r@.len() == gp.1.len()
                &&& forall|j: int|
                    0 <= j < r@.len() ==> (#[trigger] r@[j]).ip@ == gp.1[j].ip && r@[j].port
                        == gp.1[j].port && r@[j].bytes@ == crate::message_protocol::encode_bytes(
                        crate::message_protocol::MessageV::FindNode(key@),
                        old(self).id@,
                    )
            }),
    {
        let li = match self.find_lookup(key) {
            Some(li) => li,
            None => {
                return Vec::new();
            },
        };
        let ghost pre_lookups = self.lookups@;
        let avail = self.alpha - self.find_out.len();
        let mut st = self.lookups.remove(li);
        let ghost pre_es = lv(st.1@);
        let picked = Self::color(&mut st.1, avail, now);
        let expiry = saturating_add(now, REQUEST_TTL);
        let ghost gp = grey_prefix(pre_es, avail as int, expiry);
        proof {
            lemma_grey_prefix_shape(pre_es, avail as int, expiry);
        }
        let ghost st_final = st;
        let id_copy = crate::utils::clone_bytes(&self.id);
        let mut packets: Vec<OutPacket> = Vec::new();
        let mut fo_add: Vec<(NodeContact, i64)> = Vec::new();
        let mut j: usize = 0;
        proof {
            assert(cv(picked@).take(0).map_values(
                |c: ContactV| (c, sat_add(now as int, REQUEST_TTL as int) as i64),
            ) =~= Seq::<(ContactV, i64)>::empty());
            assert(fov(fo_add@) =~= cv(picked@).take(0).map_values(
                |c: ContactV| (c, sat_add(now as int, REQUEST_TTL as int) as i64),
            ));
        }
        while j < picked.len()
            invariant
                j <= picked@.len(),
                id_copy@ == old(self).id@,
                id_copy@.len() == crate::KEY_WIDTH,
                key@.len() == crate::KEY_WIDTH,
                expiry == sat_add(now as int, REQUEST_TTL as int) as i64,
                fov(fo_add@) == cv(picked@).take(j as int).map_values(
                    |c: ContactV| (c, sat_add(now as int, REQUEST_TTL as int) as i64),
                ),
                fo_add@.len() == j,
                packets@.len() == j,
                forall|w: int|
                    0 <= w < j ==> (#[trigger] packets@[w]).ip@ == cv(picked@)[w].ip
                        && packets@[w].port == cv(picked@)[w].port && packets@[w].bytes@
                        == crate::message_protocol::encode_bytes(
                        crate::message_protocol::MessageV::FindNode(key@),
                        old(self).id@,
                    ),
            decreases picked@.len() - j,
        {
            let c = &picked[j];
            let bytes = crate::message_protocol::find_node_msg(&id_copy, key);
            packets.push(
                OutPacket { ip: crate::utils::clone_bytes(&c.ip), port: c.port, bytes },
            );
            let ghost pre_add = fov(fo_add@);
            fo_add.push((c.duplicate(), expiry));
            proof {
                assert(fov(fo_add@) =~= pre_add.push((cv(picked@)[j as int], expiry)));
                assert(cv(picked@).take(j + 1) =~= cv(picked@).take(j as int).push(
                    cv(picked@)[j as int],
                ));
                assert(cv(picked@).take(j + 1).map_values(
                    |c2: ContactV| (c2, sat_add(now as int, REQUEST_TTL as int) as i64),
                ) =~= cv(picked@).take(j as int).map_values(
                    |c2: ContactV| (c2, sat_add(now as int, REQUEST_TTL as int) as i64),
                ).push((cv(picked@)[j as int], expiry)));
            }
            j = j + 1;
        }
        let ghost pre_fo = self.find_out@;
        let ghost addv = fo_add@;
        self.find_out.append(&mut fo_add);
        proof {
            assert(cv(picked@).take(picked@.len() as int) =~= cv(picked@));
            assert(self.find_out@ == pre_fo + addv);
            assert(fov(pre_fo + addv) =~= fov(pre_fo) + fov(addv));
            assert(cv(picked@).len() <= avail);
            assert(self.find_out@.len() <= self.alpha);
        }
        self.lookups.insert(li, st);
        proof {
            let after_rm = pre_lookups.remove(li as int);
            after_rm.insert_ensures(li as int, st_final);
            assert(self.lookups@ =~= pre_lookups.update(li as int, st_final));
            lemma_same_contacts_wf(pre_es, lv(st_final.1@), key@);
            self.merge_results_frame(*old(self), key@, li as int, st_final, lv(st_final.1@));
        }
        packets
    }

    /// Drops the lookup state of a finished key, so that completed lookups
    /// do not accumulate.
    pub fn remove_lookup(&mut self, key: &Vec<u8>)
        requires
            old(self).wf(),
        ensures
            final(self).wf(),
            final(self).id == old(self).id,
            final(self).k_val == old(self).k_val,
            final(self).alpha == old(self).alpha,
            final(self).timeoutbuf == old(self).timeoutbuf,
            final(self).find_out == old(self).find_out,
            !final(self).has_lookup(key@),
            forall|k2: Seq<u8>|
                k2 != key@ ==> (#[trigger] final(self).has_lookup(k2) <==> old(self).has_lookup(
                    k2,
                )),
            forall|k2: Seq<u8>|
                k2 != key@ && old(self).has_lookup(k2) ==> #[trigger] final(self).entries_for(k2)
                    == old(self).entries_for(k2),
    {
        let li = match self.find_lookup(key) {
            Some(li) => li,
            None => {
                return ;
            },
        };
        let ghost pre_lookups = self.lookups@;
        let _ = self.lookups.remove(li);
        proof {
            let posts = self.lookups@;
            assert(posts == pre_lookups.remove(li as int));
            assert forall|w: int| 0 <= w < posts.len() implies (#[trigger] posts[w]) == (if w
                < li {
                pre_lookups[w]
            } else {
                pre_lookups[w + 1]
            }) by {}
            assert forall|a: int, b: int|
                0 <= a < b < posts.len() implies #[trigger] posts[a].0@
                != #[trigger] posts[b].0@ by {
                let a0: int = if a < li {
                    a
                } else {
                    a + 1
                };
                let b0: int = if b < li {
                    b
                } else {
                    b + 1
                };
                assert(pre_lookups[a0].0@ != pre_lookups[b0].0@);
            }
            if self.has_lookup(key@) {
                let w = choose|w: int| 0 <= w < posts.len() && posts[w].0@ == key@;
                let w0: int = if w < li {
                    w
                } else {
                    w + 1
                };
                assert(pre_lookups[w0].0@ == key@);
                assert(pre_lookups[li as int].0@ == key@);
                assert(w0 != li);
                assert(false);
            }
            assert forall|k2: Seq<u8>|
                k2 != key@ implies (#[trigger] self.has_lookup(k2) <==> old(self).has_lookup(
                k2,
            )) by {
                if self.has_lookup(k2) {
                    let w = choose|w: int| 0 <= w < posts.len() && posts[w].0@ == k2;
                    let w0: int = if w < li {
                        w
                    } else {
                        w + 1
                    };
                    assert(pre_lookups[w0].0@ == k2);
                    assert(old(self).has_lookup(k2));
                }
                if old(self).has_lookup(k2) {
                    let w = choose|w: int|
                        0 <= w < pre_lookups.len() && pre_lookups[w].0@ == k2;
                    assert(w != li);
                    if w < li {
                        assert(posts[w].0@ == k2);
                    } else {
                        assert(posts[w - 1].0@ == k2);
                    }
                    assert(self.has_lookup(k2));
                }
            }
            assert forall|k2: Seq<u8>|
                k2 != key@ && old(self).has_lookup(k2) implies #[trigger] self.entries_for(k2)
                == old(self).entries_for(k2) by {
                let w = choose|w: int| 0 <= w < pre_lookups.len() && pre_lookups[w].0@ == k2;
                lemma_lookup_at(*old(self), k2, w);
                assert(w != li);
                if w < li {
                    lemma_lookup_at(*self, k2, w);
                } else {
                    lemma_lookup_at(*self, k2, w - 1);
                }
            }
        }
    }

    /// Turns every Grey entry of every lookup past its expiry Yellow.
    fn yellow_entries(entries: &mut Vec<(NodeContact, Color)>, now: i64)
        ensures
            final(entries)@.len() == old(entries)@.len(),
            lv(final(entries)@) == yellowed(lv(old(entries)@), now),
    {
        let ghost pre = lv(old(entries)@);
        let mut i: usize = 0;
        while i < entries.len()
            invariant
                i <= entries@.len(),
                entries@.len() == old(entries)@.len(),
                pre == lv(old(entries)@),
                forall|j: int| 0 <= j < i ==> lv(entries@)[j] == yellowed(pre, now)[j],
                forall|j: int| i <= j < entries@.len() ==> entries@[j] == old(entries)@[j],
            decreases entries@.len() - i,
        {
            let due = match entries[i].1 {
                Color::Grey(d) => d <= now,
                _ => false,
            };
            if due {
                let c = entries[i].0.duplicate();
                entries.set(i, (c, Color::Yellow));
                proof {
                    assert(lv(entries@)[i as int] == yellowed(pre, now)[i as int]);
                }
            } else {
                proof {
                    assert(lv(entries@)[i as int] == yellowed(pre, now)[i as int]);
                }
            }
            i = i + 1;
        }
        proof {
            assert(lv(entries@) =~= yellowed(pre, now));
        }
    }

    /// The periodic timeout sweep: eviction timers past their expiry are
    /// confirmed and handed back for the routing table to apply; Grey
    /// lookup entries past their expiry turn Yellow; outstanding requests
    /// past their deadline are dropped, freeing the concurrency budget.
    pub fn sweep_timeouts(&mut self, now: i64) -> (r: Vec<EvictionCandidate>)
        requires
            old(self).wf(),
        ensures
            final(self).wf(),
            final(self).id == old(self).id,
            final(self).k_val == old(self).k_val,
            final(self).alpha == old(self).alpha,
            tbv(final(self).timeoutbuf@) == tbv(old(self).timeoutbuf@).filter(tb_not_due(now)),
            ecv(r@) == tbv(old(self).timeoutbuf@).filter(tb_due(now)).map_values(
                |e: ((ContactV, ContactV), i64)| e.0,
            ),
            fov(final(self).find_out@) == fov(old(self).find_out@).filter(fo_not_due(now)),
            final(self).lookups@.len() == old(self).lookups@.len(),
            forall|i: int|
                0 <= i < old(self).lookups@.len() ==> (#[trigger] final(self).lookups@[i]).0
                    == old(self).lookups@[i].0 && lv(final(self).lookups@[i].1@) == yellowed(
                    lv(old(self).lookups@[i].1@),
                    now,
                ),
    {
        // Eviction timers: keep the pending ones, hand the due ones back.
        let mut kept: Vec<(EvictionCandidate, i64)> = Vec::new();
        let mut due: Vec<EvictionCandidate> = Vec::new();
        let mut i: usize = 0;
        proof {
            reveal(Seq::filter);
            assert(tbv(kept@) =~= tbv(self.timeoutbuf@).take(0).filter(tb_not_due(now)));
            assert(ecv(due@) =~= tbv(self.timeoutbuf@).take(0).filter(tb_due(now)).map_values(
                |e: ((ContactV, ContactV), i64)| e.0,
            ));
        }
        while i < self.timeoutbuf.len()
            invariant
                i <= self.timeoutbuf@.len(),
                tbv(kept@) == tbv(self.timeoutbuf@).take(i as int).filter(tb_not_due(now)),
                ecv(due@) == tbv(self.timeoutbuf@).take(i as int).filter(tb_due(now)).map_values(
                    |e: ((ContactV, ContactV), i64)| e.0,
                ),
            decreases self.timeoutbuf@.len() - i,
        {
            let e = &self.timeoutbuf[i];
            proof {
                assert(tbv(self.timeoutbuf@).take(i + 1) =~= tbv(self.timeoutbuf@).take(
                    i as int,
                ).push(tbv(self.timeoutbuf@)[i as int]));
                lemma_filter_push(
                    tbv(self.timeoutbuf@).take(i as int),
                    tbv(self.timeoutbuf@)[i as int],
                    tb_not_due(now),
                );
                lemma_filter_push(
                    tbv(self.timeoutbuf@).take(i as int),
                    tbv(self.timeoutbuf@)[i as int],
                    tb_due(now),
                );
            }
            if e.1 > now {
                let ghost prek = kept@;
                kept.push(
                    (
                        EvictionCandidate { old: e.0.old.duplicate(), new: e.0.new.duplicate() },
                        e.1,
                    ),
                );
                proof {
                    assert(tbv(kept@) =~= tbv(prek).push(tbv(self.timeoutbuf@)[i as int]));
                    assert(tbv(self.timeoutbuf@).take(i + 1).filter(tb_due(now)).map_values(
                        |e2: ((ContactV, ContactV), i64)| e2.0,
                    ) =~= tbv(self.timeoutbuf@).take(i as int).filter(tb_due(now)).map_values(
                        |e2: ((ContactV, ContactV), i64)| e2.0,
                    ));
                }
            } else {
                let ghost pred = due@;
                due.push(EvictionCandidate { old: e.0.old.duplicate(), new: e.0.new.duplicate() });
                proof {
                    assert(ecv(due@) =~= ecv(pred).push(tbv(self.timeoutbuf@)[i as int].0));
                    assert(tbv(self.timeoutbuf@).take(i + 1).filter(tb_due(now)).map_values(
                        |e2: ((ContactV, ContactV), i64)| e2.0,
                    ) =~= tbv(self.timeoutbuf@).take(i as int).filter(tb_due(now)).map_values(
                        |e2: ((ContactV, ContactV), i64)| e2.0,
                    ).push(tbv(self.timeoutbuf@)[i as int].0));
                }
            }
            i = i + 1;
        }
        proof {
            assert(tbv(self.timeoutbuf@).take(self.timeoutbuf@.len() as int) =~= tbv(
                self.timeoutbuf@,
            ));
        }
        self.timeoutbuf = kept;
        // Outstanding requests past their deadline.
        let mut kept_fo: Vec<(NodeContact, i64)> = Vec::new();
        let mut fi: usize = 0;
        proof {
            assert(fov(kept_fo@) =~= fov(self.find_out@).take(0).filter(fo_not_due(now)));
        }
        while fi < self.find_out.len()
            invariant
                fi <= self.find_out@.len(),
                kept_fo@.len() <= fi,
                fov(kept_fo@) == fov(self.find_out@).take(fi as int).filter(fo_not_due(now)),
            decreases self.find_out@.len() - fi,
        {
            let e = &self.find_out[fi];
            proof {
                assert(fov(self.find_out@).take(fi + 1) =~= fov(self.find_out@).take(
                    fi as int,
                ).push(fov(self.find_out@)[fi as int]));
                lemma_filter_push(
                    fov(self.find_out@).take(fi as int),
                    fov(self.find_out@)[fi as int],
                    fo_not_due(now),
                );
            }
            if e.1 > now {
                let ghost prek = kept_fo@;
                kept_fo.push((e.0.duplicate(), e.1));
                proof {
                    assert(fov(kept_fo@) =~= fov(prek).push(fov(self.find_out@)[fi as int]));
                }
            }
            fi = fi + 1;
        }
        proof {
            assert(fov(self.find_out@).take(self.find_out@.len() as int) =~= fov(
                self.find_out@,
            ));
            assert(kept_fo@.len() <= self.alpha);
        }
        self.find_out = kept_fo;
        // Grey lookup entries past their expiry.
        let mut li: usize = 0;
        let ghost pre_lookups = self.lookups@;
        while li < self.lookups.len()
            invariant
                li <= self.lookups@.len(),
                self.lookups@.len() == pre_lookups.len(),
                pre_lookups == old(self).lookups@,
                self.id == old(self).id,
                self.k_val == old(self).k_val,
                self.alpha == old(self).alpha,
                self.find_out@.len() <= self.alpha,
                tbv(self.timeoutbuf@) == tbv(old(self).timeoutbuf@).filter(tb_not_due(now)),
                fov(self.find_out@) == fov(old(self).find_out@).filter(fo_not_due(now)),
                ecv(due@) == tbv(old(self).timeoutbuf@).filter(tb_due(now)).map_values(
                    |e: ((ContactV, ContactV), i64)| e.0,
                ),
                forall|w: int|
                    0 <= w < li ==> (#[trigger] self.lookups@[w]).0 == pre_lookups[w].0 && lv(
                        self.lookups@[w].1@,
                    ) == yellowed(lv(pre_lookups[w].1@), now),
                forall|w: int|
                    li <= w < pre_lookups.len() ==> #[trigger] self.lookups@[w]
                        == pre_lookups[w],
            decreases self.lookups@.len() - li,
        {
            let ghost before = self.lookups@;
            let mut st = self.lookups.remove(li);
            Self::yellow_entries(&mut st.1, now);
            let ghost st_final = st;
            self.lookups.insert(li, st);
            proof {
                let after_rm = before.remove(li as int);
                after_rm.insert_ensures(li as int, st_final);
                assert(self.lookups@ =~= before.update(li as int, st_final));
            }
            li = li + 1;
        }
        proof {
            assert forall|w: int| 0 <= w < self.lookups@.len() implies entries_wf(
                lv((#[trigger] self.lookups@[w]).1@),
            ) && sorted_by_dist(self.lookups@[w].0@, lv(self.lookups@[w].1@)) by {
                lemma_yellowed_shape(lv(pre_lookups[w].1@), now);
                lemma_same_contacts_wf(
                    lv(pre_lookups[w].1@),
                    lv(self.lookups@[w].1@),
                    self.lookups@[w].0@,
                );
            }
        }
        due
    }

    /// The lookup actor's step for one event. A wake runs the timeout
    /// sweep and hands back the confirmed evictions. An eviction
    /// verification starts its clock. A sign of life from a pinged peer
    /// cancels its eviction. Lookup results are merged; a finished lookup
    /// is then dropped and reported, an unfinished one gets a new round of
    /// requests dispatched.
    pub fn handle_action(&mut self, action: AsyncAction, now: i64) -> (r: AlphaEffects)
        requires
            old(self).wf(),
            match action {
                AsyncAction::LookupResults(key, cs, from) => key@.len() == crate::KEY_WIDTH
                    && (forall|i: int| 0 <= i < cs@.len() ==> contact_wf((#[trigger] cs@[i])@)),
                _ => true,
            },
        ensures
            final(self).wf(),
            final(self).id == old(self).id,
            final(self).k_val == old(self).k_val,
            final(self).alpha == old(self).alpha,
            handle_action_post(*old(self), *final(self), action, now, r),
    {
        match action {
            AsyncAction::Awake => {
                let expired = self.sweep_timeouts(now);
                AlphaEffects { packets: Vec::new(), expired, finished: None }
            },
            AsyncAction::SetEvictTimeout(ec) => {
                self.schedule_eviction(ec, now);
                AlphaEffects { packets: Vec::new(), expired: Vec::new(), finished: None }
            },
            AsyncAction::PingSeen(id) => {
                self.cancel_eviction(&id);
                AlphaEffects { packets: Vec::new(), expired: Vec::new(), finished: None }
            },
            AsyncAction::LookupResults(key, cs, from) => {
                let responding: Option<&Vec<u8>> = match &from {
                    Some(f) => Some(f),
                    None => None,
                };
                self.merge_results(&key, &cs, responding);
                let ghost mid = *self;
                proof {
                    assert(opt_view(responding) == opt_vec_view(from));
                    assert(merge_step_state(
                        *old(self),
                        mid,
                        key@,
                        cv(cs@),
                        opt_vec_view(from),
                    ));
                }
                if self.is_finished(&key) {
                    self.remove_lookup(&key);
                    let kc = crate::utils::clone_bytes(&key);
                    proof {
                        assert(is_finished_spec(mid.entries_for(key@), mid.k_val as int));
                    }
                    AlphaEffects {
                        packets: Vec::new(),
                        expired: Vec::new(),
                        finished: Some(kc),
                    }
                } else {
                    let packets = self.dispatch_round(&key, now);
                    proof {
                        assert(dispatched(mid, *self, key@, now, packets@));
                    }
                    AlphaEffects { packets, expired: Vec::new(), finished: None }
                }
            },
        }
    }

    /// The lookup actor's step against the real clock: reads the time
    /// once, handles the event at that instant, and returns the instant
    /// together with the effects, whatever the clock read.
    pub fn handle_action_now(&mut self, action: AsyncAction) -> (r: (AlphaEffects, i64))
        requires
            old(self).wf(),
            match action {
                AsyncAction::LookupResults(key, cs, from) => key@.len() == crate::KEY_WIDTH
                    && (forall|i: int| 0 <= i < cs@.len() ==> contact_wf((#[trigger] cs@[i])@)),
                _ => true,
            },
        ensures
            final(self).wf(),
            final(self).id == old(self).id,
            final(self).k_val == old(self).k_val,
            final(self).alpha == old(self).alpha,
            handle_action_post(*old(self), *final(self), action, r.1, r.0),
    {
        let now = now_seconds();
        let eff = self.handle_action(action, now);
        (eff, now)
    }

    /// Starts the verification clock for an eviction candidate.
    pub fn schedule_eviction(&mut self, ec: EvictionCandidate, now: i64)
        requires
            old(self).wf(),
        ensures
            final(self).wf(),
            final(self).id == old(self).id,
            final(self).k_val == old(self).k_val,
            final(self).alpha == old(self).alpha,
            final(self).lookups == old(self).lookups,
            final(self).find_out == old(self).find_out,
            tbv(final(self).timeoutbuf@) == tbv(old(self).timeoutbuf@).push(
                ((ec.old@, ec.new@), sat_add(now as int, DEFAULT_TTL as int) as i64),
            ),
    {
        let expire_at = saturating_add(now, DEFAULT_TTL);
        let ghost pre = self.timeoutbuf@;
        self.timeoutbuf.push((ec, expire_at));
        proof {
            assert(tbv(self.timeoutbuf@) =~= tbv(pre).push(
                ((self.timeoutbuf@.last().0.old@, self.timeoutbuf@.last().0.new@), expire_at),
            ));
        }
    }

    /// Clears every eviction timer whose old contact carries `id`: the
    /// contact answered, so it stays in its bucket.
    pub fn cancel_eviction(&mut self, id: &Vec<u8>)
        requires
            old(self).wf(),
        ensures
            final(self).wf(),
            final(self).id == old(self).id,
            final(self).k_val == old(self).k_val,
            final(self).alpha == old(self).alpha,
            final(self).lookups == old(self).lookups,
            final(self).find_out == old(self).find_out,
            tbv(final(self).timeoutbuf@) == tbv(old(self).timeoutbuf@).filter(old_id_differs(id@)),
    {
        let mut kept: Vec<(EvictionCandidate, i64)> = Vec::new();
        let mut i: usize = 0;
        proof {
            reveal(Seq::filter);
            assert(tbv(kept@) =~= tbv(self.timeoutbuf@).take(0).filter(old_id_differs(id@)));
        }
        while i < self.timeoutbuf.len()
            invariant
                i <= self.timeoutbuf@.len(),
                tbv(kept@) == tbv(self.timeoutbuf@).take(i as int).filter(old_id_differs(id@)),
            decreases self.timeoutbuf@.len() - i,
        {
            let keep = !crate::utils::keys_equal(&self.timeoutbuf[i].0.old.id, id);
            proof {
                assert(tbv(self.timeoutbuf@).take(i + 1) =~= tbv(self.timeoutbuf@).take(
                    i as int,
                ).push(tbv(self.timeoutbuf@)[i as int]));
                lemma_filter_push(
                    tbv(self.timeoutbuf@).take(i as int),
                    tbv(self.timeoutbuf@)[i as int],
                    old_id_differs(id@),
                );
                assert(old_id_differs(id@)(tbv(self.timeoutbuf@)[i as int]) == keep);
            }
            if keep {
                let e = &self.timeoutbuf[i];
                let copy = (
                    EvictionCandidate { old: e.0.old.duplicate(), new: e.0.new.duplicate() },
                    e.1,
                );
                let ghost prek = kept@;
                kept.push(copy);
                proof {
                    assert(tbv(kept@) =~= tbv(prek).push(tbv(self.timeoutbuf@)[i as int]));
                }
            }
            i = i + 1;
        }
        proof {
            assert(tbv(self.timeoutbuf@).take(self.timeoutbuf@.len() as int) =~= tbv(
                self.timeoutbuf@,
            ));
        }
        self.timeoutbuf = kept;
    }
}

/// What one merge of lookup results does to a candidate list: every old
/// entry survives untouched, every candidate identifier is now present,
/// nothing else appears, and whatever is new came in White from the
/// candidates.
pub open spec fn merged(
    pre: Seq<(ContactV, Color)>,
    cands: Seq<ContactV>,
    post: Seq<(ContactV, Color)>,
) -> bool {
    &&& forall|id: Seq<u8>|
        has_entry(pre, id) ==> #[trigger] has_entry(post, id) && entry_of(post, id) == entry_of(
            pre,
            id,
        )
    &&& forall|i: int| 0 <= i < cands.len() ==> has_entry(post, (#[trigger] cands[i]).id)
    &&& forall|id: Seq<u8>|
        #[trigger] has_entry(post, id) ==> has_entry(pre, id) || exists|i: int|
            0 <= i < cands.len() && (#[trigger] cands[i]).id == id
    &&& forall|id: Seq<u8>|
        #[trigger] has_entry(post, id) && !has_entry(pre, id) ==> entry_of(post, id).1
            == Color::White && exists|i: int|
            0 <= i < cands.len() && #[trigger] cands[i] == entry_of(post, id).0
}

/// A candidate list after a response from `id`: its entry, if Grey, turns
/// Black; everything else is untouched.
pub open spec fn blackened(es: Seq<(ContactV, Color)>, id: Seq<u8>) -> Seq<(ContactV, Color)> {
    es.map_values(
        |e: (ContactV, Color)|
            if e.0.id == id && (e.1 matches Color::Grey(_)) {
                (e.0, Color::Black)
            } else {
                e
            },
    )
}

/// The view of an optional borrowed identifier.
pub open spec fn opt_view(o: Option<&Vec<u8>>) -> Option<Seq<u8>> {
    match o {
        Some(v) => Some(v@),
        None => None,
    }
}

/// What one call of `merge_results` does to the candidate list of `key`:
/// the results are merged in, and when a responder is named its Grey entry
/// turns Black.
pub open spec fn merge_results_post(
    pre: LookupCoordinator,
    post: LookupCoordinator,
    key: Seq<u8>,
    cands: Seq<ContactV>,
    responding: Option<Seq<u8>>,
) -> bool {
    match responding {
        Some(rid) => exists|mid: Seq<(ContactV, Color)>|
            #[trigger] merged(pre_entries(pre, key), cands, mid) && post.entries_for(key)
                == blackened(mid, rid),
        None => merged(pre_entries(pre, key), cands, post.entries_for(key)),
    }
}

/// The candidate list a merge for `key` starts from: the active lookup's
/// list, or an empty one when no lookup is active yet.
pub open spec fn pre_entries(pre: LookupCoordinator, key: Seq<u8>) -> Seq<(ContactV, Color)> {
    if pre.has_lookup(key) {
        pre.entries_for(key)
    } else {
        Seq::<(ContactV, Color)>::empty()
    }
}

/// Packages the witnesses of one `merge_results` call into its
/// postcondition.
proof fn lemma_merge_results_post(
    pre: LookupCoordinator,
    post: LookupCoordinator,
    key: Seq<u8>,
    cands: Seq<ContactV>,
    responding: Option<Seq<u8>>,
    mid: Seq<(ContactV, Color)>,
)
    requires
        merged(pre_entries(pre, key), cands, mid),
        match responding {
            Some(rid) => post.entries_for(key) == blackened(mid, rid),
            None => post.entries_for(key) == mid,
        },
    ensures
        merge_results_post(pre, post, key, cands, responding),
{
    match responding {
        Some(rid) => {
            assert(merged(pre_entries(pre, key), cands, mid) && post.entries_for(key)
                == blackened(mid, rid));
        },
        None => {},
    }
}

/// The predicate an outstanding request survives a response from `id` by:
/// it waits on someone else.
pub open spec fn fo_id_differs(id: Seq<u8>) -> spec_fn((ContactV, i64)) -> bool {
    |e: (ContactV, i64)| e.0.id != id
}

/// Merging the same contacts a second time changes nothing: each
/// identifier already has its one entry, so the candidate list comes out
/// exactly as it went in, colors and addresses included.
pub proof fn lemma_merge_idempotent(
    pre: Seq<(ContactV, Color)>,
    mid: Seq<(ContactV, Color)>,
    post: Seq<(ContactV, Color)>,
    cands: Seq<ContactV>,
    basis: Seq<u8>,
)
    requires
        basis.len() == crate::KEY_WIDTH,
        entries_wf(mid),
        entries_wf(post),
        sorted_by_dist(basis, mid),
        sorted_by_dist(basis, post),
        merged(pre, cands, mid),
        merged(mid, cands, post),
    ensures
        post == mid,
{
    assert forall|id: Seq<u8>| #[trigger] has_entry(post, id) implies has_entry(mid, id) by {
        if !has_entry(mid, id) {
            let i = choose|i: int| 0 <= i < cands.len() && cands[i].id == id;
            assert(has_entry(mid, cands[i].id));
        }
    }
    lemma_sorted_entries_canonical(basis, post, mid);
}

/// Turning a responder's entry Black moves no contact and changes no
/// length.
proof fn lemma_blackened_shape(es: Seq<(ContactV, Color)>, id: Seq<u8>)
    ensures
        blackened(es, id).len() == es.len(),
        forall|j: int| 0 <= j < es.len() ==> (#[trigger] blackened(es, id)[j]).0 == es[j].0,
{
}

/// A position of the lookup list holding `key` is the position the
/// coordinator's spec functions read.
proof fn lemma_lookup_at(c: LookupCoordinator, key: Seq<u8>, i: int)
    requires
        0 <= i < c.lookups@.len(),
        c.lookups@[i].0@ == key,
        forall|a: int, b: int|
            0 <= a < b < c.lookups@.len() ==> #[trigger] c.lookups@[a].0@
                != #[trigger] c.lookups@[b].0@,
    ensures
        c.has_lookup(key),
        c.entries_for(key) == lv(c.lookups@[i].1@),
{
    assert(c.has_lookup(key));
    let w = choose|w: int| 0 <= w < c.lookups@.len() && c.lookups@[w].0@ == key;
    if w < i {
        assert(c.lookups@[w].0@ != c.lookups@[i].0@);
        assert(false);
    } else if w > i {
        assert(c.lookups@[i].0@ != c.lookups@[w].0@);
        assert(false);
    }
}

/// One merge step: inserting the next candidate, known to be fresh, White
/// at any position extends the merge relation by that candidate.
proof fn lemma_merge_step(
    pre0: Seq<(ContactV, Color)>,
    cands: Seq<ContactV>,
    ci: int,
    prev: Seq<(ContactV, Color)>,
    post: Seq<(ContactV, Color)>,
    p: int,
)
    requires
        0 <= ci < cands.len(),
        merged(pre0, cands.take(ci), prev),
        !has_entry(prev, cands[ci].id),
        0 <= p <= prev.len(),
        entries_wf(prev),
        contact_wf(cands[ci]),
        post == prev.insert(p, (cands[ci], Color::White)),
    ensures
        merged(pre0, cands.take(ci + 1), post),
{
    let e = (cands[ci], Color::White);
    lemma_entry_insert(prev, e, p);
    assert forall|id: Seq<u8>| has_entry(pre0, id) implies #[trigger] has_entry(post, id)
        && entry_of(post, id) == entry_of(pre0, id) by {
        assert(has_entry(prev, id));
        assert(id != cands[ci].id);
    }
    assert forall|i: int| 0 <= i < cands.take(ci + 1).len() implies has_entry(
        post,
        (#[trigger] cands.take(ci + 1)[i]).id,
    ) by {
        if i < ci {
            assert(cands.take(ci)[i] == cands.take(ci + 1)[i]);
            assert(has_entry(prev, cands.take(ci)[i].id));
            if cands.take(ci)[i].id == cands[ci].id {
                assert(false);
            }
        } else {
            assert(cands.take(ci + 1)[i] == cands[ci]);
        }
    }
    assert forall|id: Seq<u8>| #[trigger] has_entry(post, id) implies has_entry(pre0, id)
        || exists|i: int| 0 <= i < cands.take(ci + 1).len() && (#[trigger] cands.take(ci + 1)[i]).id
        == id by {
        if id == cands[ci].id {
            assert(cands.take(ci + 1)[ci].id == id);
        } else {
            assert(has_entry(prev, id));
            if !has_entry(pre0, id) {
                let w = choose|i: int|
                    0 <= i < cands.take(ci).len() && (cands.take(ci)[i]).id == id;
                assert(cands.take(ci + 1)[w].id == id);
            }
        }
    }
    assert forall|id: Seq<u8>| #[trigger] has_entry(post, id) && !has_entry(pre0, id) implies
        entry_of(post, id).1 == Color::White && exists|i: int|
        0 <= i < cands.take(ci + 1).len() && #[trigger] cands.take(ci + 1)[i] == entry_of(
        post,
        id,
    ).0 by {
        if id == cands[ci].id {
            assert(entry_of(post, id) == e);
            assert(cands.take(ci + 1)[ci] == cands[ci]);
        } else {
            assert(has_entry(prev, id));
            assert(entry_of(post, id) == entry_of(prev, id));
            let w = choose|i: int|
                0 <= i < cands.take(ci).len() && cands.take(ci)[i] == entry_of(prev, id).0;
            assert(cands.take(ci + 1)[w] == entry_of(prev, id).0);
        }
    }
}

/// Dropping the head of a duplicate-free candidate list keeps every other
/// identifier's entry, and only those.
proof fn lemma_tail_entries(es: Seq<(ContactV, Color)>)
    requires
        es.len() > 0,
        entries_wf(es),
    ensures
        entries_wf(es.drop_first()),
        forall|id: Seq<u8>|
            #[trigger] has_entry(es.drop_first(), id) <==> (has_entry(es, id) && id
                != es[0].0.id),
        forall|id: Seq<u8>|
            has_entry(es.drop_first(), id) ==> #[trigger] entry_of(es.drop_first(), id)
                == entry_of(es, id),
{
    let t = es.drop_first();
    assert forall|id: Seq<u8>|
        #[trigger] has_entry(t, id) <==> (has_entry(es, id) && id != es[0].0.id) by {
        if has_entry(t, id) {
            let w = choose|w: int| 0 <= w < t.len() && t[w].0.id == id;
            assert(es[w + 1].0.id == id);
            assert(es[0].0.id != es[w + 1].0.id);
        }
        if has_entry(es, id) && id != es[0].0.id {
            let w = choose|w: int| 0 <= w < es.len() && es[w].0.id == id;
            assert(w != 0);
            assert(t[w - 1].0.id == id);
        }
    }
    assert forall|id: Seq<u8>|
        has_entry(t, id) implies #[trigger] entry_of(t, id) == entry_of(es, id) by {
        let w = choose|w: int| 0 <= w < t.len() && t[w].0.id == id;
        assert(es[w + 1].0.id == id);
        lemma_entry_at(t, id, w);
        lemma_entry_at(es, id, w + 1);
        assert(t[w] == es[w + 1]);
    }
}

/// A distance-sorted, duplicate-free candidate list is determined by what
/// it holds: same entries in two such lists means the very same list.
proof fn lemma_sorted_entries_canonical(
    basis: Seq<u8>,
    es1: Seq<(ContactV, Color)>,
    es2: Seq<(ContactV, Color)>,
)
    requires
        basis.len() == crate::KEY_WIDTH,
        entries_wf(es1),
        entries_wf(es2),
        sorted_by_dist(basis, es1),
        sorted_by_dist(basis, es2),
        forall|id: Seq<u8>| #[trigger] has_entry(es1, id) <==> has_entry(es2, id),
        forall|id: Seq<u8>|
            has_entry(es1, id) ==> #[trigger] entry_of(es1, id) == entry_of(es2, id),
    ensures
        es1 == es2,
    decreases es1.len(),
{
    if es1.len() == 0 {
        if es2.len() > 0 {
            lemma_entry_at(es2, es2[0].0.id, 0);
            assert(has_entry(es1, es2[0].0.id));
            let w = choose|w: int| 0 <= w < es1.len() && es1[w].0.id == es2[0].0.id;
            assert(false);
        }
        assert(es1 =~= es2);
    } else {
        lemma_entry_at(es1, es1[0].0.id, 0);
        if es2.len() == 0 {
            assert(has_entry(es2, es1[0].0.id));
            let w = choose|w: int| 0 <= w < es2.len() && es2[w].0.id == es1[0].0.id;
            assert(false);
        }
        // The two heads carry the same identifier: each head is at least
        // as close as the other, and distances are injective.
        let id1 = es1[0].0.id;
        let id2 = es2[0].0.id;
        lemma_entry_at(es1, id1, 0);
        lemma_entry_at(es2, id2, 0);
        assert(has_entry(es2, id1));
        let w = choose|w: int| 0 <= w < es2.len() && es2[w].0.id == id1;
        lemma_entry_at(es2, id1, w);
        assert(es2[w] == es1[0]);
        assert(has_entry(es1, id2));
        let v = choose|v: int| 0 <= v < es1.len() && es1[v].0.id == id2;
        lemma_entry_at(es1, id2, v);
        assert(es1[v] == es2[0]);
        if w != 0 && v != 0 {
            assert(contact_wf(es1[0].0) && contact_wf(es2[0].0));
            let d1 = xor_bytes(id1, basis);
            let d2 = xor_bytes(id2, basis);
            assert(!dist_lt(
                xor_bytes(es2[w].0.id, basis),
                xor_bytes(es2[0].0.id, basis),
            ));
            assert(!dist_lt(
                xor_bytes(es1[v].0.id, basis),
                xor_bytes(es1[0].0.id, basis),
            ));
            assert(!dist_lt(d1, d2));
            assert(!dist_lt(d2, d1));
            lemma_dist_lt_total(d1, d2);
            lemma_xor_comm(id1, basis);
            lemma_xor_comm(id2, basis);
            lemma_distance_injective(id1, id2, basis);
            assert(es2[w].0.id == es2[0].0.id);
            assert(false);
        }
        assert(es1[0] == es2[0]);
        let (t1, t2) = (es1.drop_first(), es2.drop_first());
        lemma_tail_entries(es1);
        lemma_tail_entries(es2);
        assert forall|id: Seq<u8>| #[trigger] has_entry(t1, id) <==> has_entry(t2, id) by {}
        assert forall|id: Seq<u8>|
            has_entry(t1, id) implies #[trigger] entry_of(t1, id) == entry_of(t2, id) by {
            assert(entry_of(t1, id) == entry_of(es1, id));
            assert(has_entry(t2, id));
            assert(entry_of(t2, id) == entry_of(es2, id));
        }
        assert(sorted_by_dist(basis, t1)) by {
            assert forall|i: int, j: int| 0 <= i < j < t1.len() implies !dist_lt(
                xor_bytes((#[trigger] t1[j]).0.id, basis),
                xor_bytes((#[trigger] t1[i]).0.id, basis),
            ) by {
                assert(t1[i] == es1[i + 1] && t1[j] == es1[j + 1]);
            }
        }
        assert(sorted_by_dist(basis, t2)) by {
            assert forall|i: int, j: int| 0 <= i < j < t2.len() implies !dist_lt(
                xor_bytes((#[trigger] t2[j]).0.id, basis),
                xor_bytes((#[trigger] t2[i]).0.id, basis),
            ) by {
                assert(t2[i] == es2[i + 1] && t2[j] == es2[j + 1]);
            }
        }
        lemma_sorted_entries_canonical(basis, t1, t2);
        assert(es1.len() == es2.len());
        assert forall|i: int| 0 <= i < es1.len() implies es1[i] == es2[i] by {
            if i > 0 {
                assert(es1[i] == t1[i - 1]);
                assert(es2[i] == t2[i - 1]);
            }
        }
        assert(es1 =~= es2);
    }
}

/// A position of a duplicate-free candidate list holding `id` is the
/// position `entry_of` reads.
proof fn lemma_entry_at(es: Seq<(ContactV, Color)>, id: Seq<u8>, i: int)
    requires
        0 <= i < es.len(),
        es[i].0.id == id,
        forall|a: int, b: int|
            0 <= a < b < es.len() ==> #[trigger] es[a].0.id != #[trigger] es[b].0.id,
    ensures
        has_entry(es, id),
        entry_of(es, id) == es[i],
{
    assert(has_entry(es, id));
    let w = choose|w: int| 0 <= w < es.len() && es[w].0.id == id;
    if w < i {
        assert(es[w].0.id != es[i].0.id);
        assert(false);
    } else if w > i {
        assert(es[i].0.id != es[w].0.id);
        assert(false);
    }
}

/// A candidate list none of whose positions hold `id` has no entry for it.
proof fn lemma_no_entry(es: Seq<(ContactV, Color)>, id: Seq<u8>)
    requires
        forall|j: int| 0 <= j < es.len() ==> (#[trigger] es[j]).0.id != id,
    ensures
        !has_entry(es, id),
{
    if has_entry(es, id) {
        let w = choose|w: int| 0 <= w < es.len() && es[w].0.id == id;
        assert(es[w].0.id != id);
    }
}

/// Inserting an entry with a fresh identifier keeps the list well-formed
/// and leaves every other identifier's entry where `entry_of` finds it.
proof fn lemma_entry_insert(es: Seq<(ContactV, Color)>, e: (ContactV, Color), p: int)
    requires
        0 <= p <= es.len(),
        entries_wf(es),
        !has_entry(es, e.0.id),
        contact_wf(e.0),
    ensures
        entries_wf(es.insert(p, e)),
        forall|id: Seq<u8>|
            id != e.0.id ==> (#[trigger] has_entry(es.insert(p, e), id) <==> has_entry(es, id)),
        forall|id: Seq<u8>|
            id != e.0.id && has_entry(es, id) ==> #[trigger] entry_of(es.insert(p, e), id)
                == entry_of(es, id),
        has_entry(es.insert(p, e), e.0.id),
        entry_of(es.insert(p, e), e.0.id) == e,
{
    es.insert_ensures(p, e);
    let t = es.insert(p, e);
    assert forall|j: int| 0 <= j < es.len() implies (#[trigger] es[j]).0.id != e.0.id by {
        if es[j].0.id == e.0.id {
            assert(has_entry(es, e.0.id));
        }
    }
    assert forall|a: int, b: int|
        0 <= a < b < t.len() implies #[trigger] t[a].0.id != #[trigger] t[b].0.id by {
        if a < p {
            assert(t[a] == es[a]);
        } else if a == p {
            assert(t[a] == e);
        } else {
            assert(t[a] == es[a - 1]);
        }
        if b < p {
            assert(t[b] == es[b]);
        } else if b == p {
            assert(t[b] == e);
        } else {
            assert(t[b] == es[b - 1]);
        }
    }
    assert forall|a: int| 0 <= a < t.len() implies contact_wf((#[trigger] t[a]).0) by {
        if a < p {
            assert(t[a] == es[a]);
        } else if a == p {
        } else {
            assert(t[a] == es[a - 1]);
        }
    }
    assert forall|id: Seq<u8>|
        id != e.0.id implies (#[trigger] has_entry(t, id) <==> has_entry(es, id)) by {
        if has_entry(t, id) {
            let w = choose|w: int| 0 <= w < t.len() && t[w].0.id == id;
            if w < p {
                assert(es[w].0.id == id);
            } else if w == p {
                assert(false);
            } else {
                assert(es[w - 1].0.id == id);
            }
            assert(has_entry(es, id));
        }
        if has_entry(es, id) {
            let w = choose|w: int| 0 <= w < es.len() && es[w].0.id == id;
            if w < p {
                assert(t[w].0.id == id);
            } else {
                assert(t[w + 1].0.id == id);
            }
            assert(has_entry(t, id));
        }
    }
    assert forall|id: Seq<u8>|
        id != e.0.id && has_entry(es, id) implies #[trigger] entry_of(t, id) == entry_of(
        es,
        id,
    ) by {
        let w = choose|w: int| 0 <= w < es.len() && es[w].0.id == id;
        lemma_entry_at(es, id, w);
        if w < p {
            lemma_entry_at(t, id, w);
        } else {
            lemma_entry_at(t, id, w + 1);
        }
    }
    lemma_entry_at(t, e.0.id, p);
}

/// Inserting an entry at the position the insert scan picked keeps a
/// distance-sorted candidate list sorted.
proof fn lemma_entries_sorted_insert(
    es: Seq<(ContactV, Color)>,
    e: (ContactV, Color),
    p: int,
    basis: Seq<u8>,
)
    requires
        0 <= p <= es.len(),
        basis.len() == crate::KEY_WIDTH,
        contact_wf(e.0),
        forall|i: int| 0 <= i < es.len() ==> contact_wf((#[trigger] es[i]).0),
        sorted_by_dist(basis, es),
        forall|j: int|
            0 <= j < p ==> !dist_lt(
                xor_bytes(e.0.id, basis),
                xor_bytes((#[trigger] es[j]).0.id, basis),
            ),
        p < es.len() ==> dist_lt(xor_bytes(e.0.id, basis), xor_bytes(es[p].0.id, basis)),
    ensures
        sorted_by_dist(basis, es.insert(p, e)),
{
    es.insert_ensures(p, e);
    let t = es.insert(p, e);
    assert forall|i: int, j: int| 0 <= i < j < t.len() implies !dist_lt(
        xor_bytes((#[trigger] t[j]).0.id, basis),
        xor_bytes((#[trigger] t[i]).0.id, basis),
    ) by {
        if j < p {
            assert(t[i] == es[i] && t[j] == es[j]);
        } else if j == p {
            assert(t[i] == es[i]);
        } else if i < p {
            assert(t[i] == es[i] && t[j] == es[j - 1]);
            assert(!dist_lt(
                xor_bytes(es[j - 1].0.id, basis),
                xor_bytes(es[i].0.id, basis),
            ));
        } else if i == p {
            assert(t[j] == es[j - 1]);
            if dist_lt(xor_bytes(es[j - 1].0.id, basis), xor_bytes(e.0.id, basis)) {
                lemma_dist_lt_trans(
                    xor_bytes(es[j - 1].0.id, basis),
                    xor_bytes(e.0.id, basis),
                    xor_bytes(es[p].0.id, basis),
                );
                if j - 1 > p {
                    assert(!dist_lt(
                        xor_bytes(es[j - 1].0.id, basis),
                        xor_bytes(es[p].0.id, basis),
                    ));
                }
                assert(false);
            }
        } else {
            assert(t[i] == es[i - 1] && t[j] == es[j - 1]);
            assert(!dist_lt(
                xor_bytes(es[j - 1].0.id, basis),
                xor_bytes(es[i - 1].0.id, basis),
            ));
        }
    }
}

/// What coloring a round does to a candidate list: the first `n` White
/// entries (in distance order) turn Grey with the given expiry and are
/// picked for dispatch; everything else stays.
pub open spec fn grey_prefix(s: Seq<(ContactV, Color)>, n: int, expiry: i64) -> (
    Seq<(ContactV, Color)>,
    Seq<ContactV>,
)
    decreases s.len(),
{
    if s.len() == 0 || n <= 0 {
        (s, Seq::<ContactV>::empty())
    } else if s[0].1 == Color::White {
        let r = grey_prefix(s.drop_first(), n - 1, expiry);
        (seq![(s[0].0, Color::Grey(expiry))] + r.0, seq![s[0].0] + r.1)
    } else {
        let r = grey_prefix(s.drop_first(), n, expiry);
        (seq![s[0]] + r.0, r.1)
    }
}

/// Coloring moves no contact, changes no length, and picks at most `n`.
proof fn lemma_grey_prefix_shape(s: Seq<(ContactV, Color)>, n: int, expiry: i64)
    ensures
        grey_prefix(s, n, expiry).0.len() == s.len(),
        forall|j: int|
            0 <= j < s.len() ==> (#[trigger] grey_prefix(s, n, expiry).0[j]).0 == s[j].0,
        grey_prefix(s, n, expiry).1.len() <= if n >= 0 {
            n
        } else {
            0
        },
    decreases s.len(),
{
    if s.len() == 0 || n <= 0 {
    } else if s[0].1 == Color::White {
        lemma_grey_prefix_shape(s.drop_first(), n - 1, expiry);
    } else {
        lemma_grey_prefix_shape(s.drop_first(), n, expiry);
    }
}

/// A candidate list after a timeout sweep at `now`: every Grey entry past
/// its expiry turns Yellow, everything else stays.
pub open spec fn yellowed(es: Seq<(ContactV, Color)>, now: i64) -> Seq<(ContactV, Color)> {
    es.map_values(
        |e: (ContactV, Color)|
            {
                if e.1 matches Color::Grey(d) && d <= now {
                    (e.0, Color::Yellow)
                } else {
                    e
                }
            },
    )
}

/// A timeout sweep moves no contact and changes no length.
proof fn lemma_yellowed_shape(es: Seq<(ContactV, Color)>, now: i64)
    ensures
        yellowed(es, now).len() == es.len(),
        forall|j: int| 0 <= j < es.len() ==> (#[trigger] yellowed(es, now)[j]).0 == es[j].0,
{
}

/// A candidate list with the same contacts at the same positions is as
/// well-formed and as sorted as the original.
proof fn lemma_same_contacts_wf(
    es: Seq<(ContactV, Color)>,
    es2: Seq<(ContactV, Color)>,
    target: Seq<u8>,
)
    requires
        es2.len() == es.len(),
        forall|j: int| 0 <= j < es.len() ==> (#[trigger] es2[j]).0 == es[j].0,
        entries_wf(es),
        sorted_by_dist(target, es),
    ensures
        entries_wf(es2),
        sorted_by_dist(target, es2),
{
    assert forall|i: int| 0 <= i < es2.len() implies contact_wf((#[trigger] es2[i]).0) by {
        assert(es2[i].0 == es[i].0);
    }
    assert forall|i: int, j: int|
        0 <= i < j < es2.len() implies #[trigger] es2[i].0.id != #[trigger] es2[j].0.id by {
        assert(es2[i].0 == es[i].0 && es2[j].0 == es[j].0);
        assert(es[i].0.id != es[j].0.id);
    }
    assert forall|i: int, j: int| 0 <= i < j < es2.len() implies !dist_lt(
        xor_bytes((#[trigger] es2[j]).0.id, target),
        xor_bytes((#[trigger] es2[i]).0.id, target),
    ) by {
        assert(es2[i].0 == es[i].0 && es2[j].0 == es[j].0);
        assert(!dist_lt(xor_bytes(es[j].0.id, target), xor_bytes(es[i].0.id, target)));
    }
}

/// The predicate an outstanding request survives a sweep at `now` by: its
/// deadline has not passed.
pub open spec fn fo_not_due(now: i64) -> spec_fn((ContactV, i64)) -> bool {
    |e: (ContactV, i64)| e.1 > now
}

/// The predicate an eviction timer survives a sweep at `now` by: its
/// expiry has not passed.
pub open spec fn tb_not_due(now: i64) -> spec_fn(((ContactV, ContactV), i64)) -> bool {
    |e: ((ContactV, ContactV), i64)| e.1 > now
}

/// The predicate an eviction timer is confirmed at `now` by: its expiry
/// has passed.
pub open spec fn tb_due(now: i64) -> spec_fn(((ContactV, ContactV), i64)) -> bool {
    |e: ((ContactV, ContactV), i64)| e.1 <= now
}

/// The views of a returned eviction-candidate list.
pub open spec fn ecv(s: Seq<EvictionCandidate>) -> Seq<(ContactV, ContactV)> {
    s.map_values(|ec: EvictionCandidate| (ec.old@, ec.new@))
}

/// The view of an optional owned identifier.
pub open spec fn opt_vec_view(o: Option<Vec<u8>>) -> Option<Seq<u8>> {
    match o {
        Some(v) => Some(v@),
        None => None,
    }
}

/// The coordinator state right after lookup results for `key` were merged:
/// the candidate list of `key` absorbed the results (responder marked),
/// the responder's outstanding record is gone, nothing else moved.
pub open spec fn merge_step_state(
    pre: LookupCoordinator,
    mid: LookupCoordinator,
    key: Seq<u8>,
    cands: Seq<ContactV>,
    responding: Option<Seq<u8>>,
) -> bool {
    &&& mid.wf()
    &&& mid.id == pre.id
    &&& mid.k_val == pre.k_val
    &&& mid.alpha == pre.alpha
    &&& mid.timeoutbuf == pre.timeoutbuf
    &&& mid.has_lookup(key)
    &&& merge_results_post(pre, mid, key, cands, responding)
    &&& forall|k2: Seq<u8>| k2 != key ==> (#[trigger] mid.has_lookup(k2) <==> pre.has_lookup(k2))
    &&& forall|k2: Seq<u8>|
        k2 != key && pre.has_lookup(k2) ==> #[trigger] mid.entries_for(k2) == pre.entries_for(k2)
    &&& fov(mid.find_out@) == (match responding {
        Some(rid) => fov(pre.find_out@).filter(fo_id_differs(rid)),
        None => fov(pre.find_out@),
    })
}

/// What one dispatch round for `key` at `now` does, from state `mid` to
/// state `post`, producing `packets`.
pub open spec fn dispatched(
    mid: LookupCoordinator,
    post: LookupCoordinator,
    key: Seq<u8>,
    now: i64,
    packets: Seq<OutPacket>,
) -> bool {
    let gp = grey_prefix(
        mid.entries_for(key),
        mid.alpha - mid.find_out@.len(),
        sat_add(now as int, REQUEST_TTL as int) as i64,
    );
    &&& post.entries_for(key) == gp.0
    &&& fov(post.find_out@) == fov(mid.find_out@) + gp.1.map_values(
        |c: ContactV| (c, sat_add(now as int, REQUEST_TTL as int) as i64),
    )
    &&& packets.len() == gp.1.len()
    &&& forall|j: int|
        0 <= j < packets.len() ==> (#[trigger] packets[j]).ip@ == gp.1[j].ip && packets[j].port
            == gp.1[j].port && packets[j].bytes@ == crate::message_protocol::encode_bytes(
            crate::message_protocol::MessageV::FindNode(key),
            mid.id@,
        )
}

/// What one lookup-actor step does, per event kind.
pub open spec fn handle_action_post(
    pre: LookupCoordinator,
    post: LookupCoordinator,
    action: AsyncAction,
    now: i64,
    r: AlphaEffects,
) -> bool {
    match action {
        AsyncAction::Awake => {
            &&& tbv(post.timeoutbuf@) == tbv(pre.timeoutbuf@).filter(
                tb_not_due(now),
            )
            &&& ecv(r.expired@) == tbv(pre.timeoutbuf@).filter(tb_due(now)).map_values(
                |e: ((ContactV, ContactV), i64)| e.0,
            )
            &&& fov(post.find_out@) == fov(pre.find_out@).filter(
                fo_not_due(now),
            )
            &&& post.lookups@.len() == pre.lookups@.len()
            &&& forall|i: int|
                0 <= i < pre.lookups@.len() ==> (#[trigger] post.lookups@[i]).0
                    == pre.lookups@[i].0 && lv(post.lookups@[i].1@)
                    == yellowed(lv(pre.lookups@[i].1@), now)
            &&& r.packets@.len() == 0
            &&& r.finished is None
        },
        AsyncAction::SetEvictTimeout(ec) => {
            &&& tbv(post.timeoutbuf@) == tbv(pre.timeoutbuf@).push(
                ((ec.old@, ec.new@), sat_add(now as int, DEFAULT_TTL as int) as i64),
            )
            &&& post.lookups == pre.lookups
            &&& post.find_out == pre.find_out
            &&& r.packets@.len() == 0
            &&& r.expired@.len() == 0
            &&& r.finished is None
        },
        AsyncAction::PingSeen(id) => {
            &&& tbv(post.timeoutbuf@) == tbv(pre.timeoutbuf@).filter(
                old_id_differs(id@),
            )
            &&& post.lookups == pre.lookups
            &&& post.find_out == pre.find_out
            &&& r.packets@.len() == 0
            &&& r.expired@.len() == 0
            &&& r.finished is None
        },
        AsyncAction::LookupResults(key, cs, from) => {
            &&& r.expired@.len() == 0
            &&& exists|mid: LookupCoordinator|
                #[trigger] merge_step_state(
                    pre,
                    mid,
                    key@,
                    cv(cs@),
                    opt_vec_view(from),
                ) && if is_finished_spec(mid.entries_for(key@), mid.k_val as int) {
                    &&& (r.finished matches Some(k2) && k2@ == key@)
                    &&& r.packets@.len() == 0
                    &&& !post.has_lookup(key@)
                    &&& post.find_out == mid.find_out
                    &&& post.timeoutbuf == mid.timeoutbuf
                } else {
                    &&& r.finished is None
                    &&& post.timeoutbuf == mid.timeoutbuf
                    &&& dispatched(mid, post, key@, now, r.packets@)
                }
        },
    }
}

/// The predicate an eviction timer survives a sign of life from `id` by:
/// its old contact is someone else.
pub open spec fn old_id_differs(id: Seq<u8>) -> spec_fn(((ContactV, ContactV), i64)) -> bool {
    |e: ((ContactV, ContactV), i64)| e.0.0.id != id
}

/// `filter` over a list with one more element keeps the old result and
/// appends the element exactly when it passes.
proof fn lemma_filter_push<A>(s: Seq<A>, x: A, pred: spec_fn(A) -> bool)
    ensures
        s.push(x).filter(pred) == if pred(x) {
            s.filter(pred).push(x)
        } else {
            s.filter(pred)
        },
{
    reveal(Seq::filter);
    assert(s.push(x).drop_last() =~= s);
    assert(s.push(x).last() == x);
}

/// Relies on time's OffsetDateTime::now_utc and unix_timestamp: the
/// current instant, read from the system clock as whole seconds; nothing
/// is assumed of which instant comes back.
#[verifier::external_body]
fn now_seconds() -> i64 {
    time::OffsetDateTime::now_utc().unix_timestamp()
}

/// The saturation point of adding `d` seconds to a clock reading.
pub open spec fn sat_add(a: int, d: int) -> int {
    if a + d > i64::MAX {
        i64::MAX as int
    } else {
        a + d
    }
}

/// Adds `d` seconds to a clock reading, stopping at the largest value.
fn saturating_add(a: i64, d: i64) -> (r: i64)
    requires
        0 <= d,
    ensures
        r == sat_add(a as int, d as int),
{
    if a > i64::MAX - d {
        i64::MAX
    } else {
        a + d
    }
}

} // verus!
