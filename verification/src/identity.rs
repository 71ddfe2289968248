//! The identifier space: fixed-width identifiers, the XOR distance metric,
//! lexicographic ordering of distances, and random identifier generation.

use vstd::prelude::*;

verus! {

/// Byte-wise XOR of two equal-length byte sequences.
pub open spec fn xor_bytes(a: Seq<u8>, b: Seq<u8>) -> Seq<u8> {
    Seq::new(a.len(), |i: int| a[i] ^ b[i])
}

/// Strict lexicographic order on equal-length distances, most significant
/// byte first: `a` is closer than `b`.
pub open spec fn dist_lt(a: Seq<u8>, b: Seq<u8>) -> bool {
    exists|i: int|
        0 <= i < a.len() && i < b.len() && a[i] < b[i] && (forall|j: int|
            0 <= j < i ==> a[j] == b[j])
}

/// Outcome of comparing two distances `a` and `b`.
#[derive(PartialEq, Eq, Structural, Clone, Copy, Debug)]
pub enum DistanceOrder {
    /// `a` is the larger distance.
    AFarther,
    /// `b` is the larger distance.
    BFarther,
    /// The two distances are identical.
    Equal,
}

/// The distance from `a` to itself is all-zero bytes.
pub proof fn lemma_distance_self_is_zero(a: Seq<u8>)
    ensures
        xor_bytes(a, a).len() == a.len(),
        forall|i: int| 0 <= i < a.len() ==> xor_bytes(a, a)[i] == 0,
{
    assert forall|i: int| 0 <= i < a.len() implies xor_bytes(a, a)[i] == 0 by {
        let x = a[i];
        assert(x ^ x == 0) by (bit_vector);
    }
}

/// Whether every byte of a distance is zero.
pub open spec fn all_zero(s: Seq<u8>) -> bool {
    forall|i: int| 0 <= i < s.len() ==> s[i] == 0
}

/// `i` is the position of the most significant non-zero byte of `s`.
pub open spec fn is_first_nonzero(s: Seq<u8>, i: int) -> bool {
    0 <= i < s.len() && s[i] != 0 && (forall|j: int| 0 <= j < i ==> s[j] == 0)
}

/// The routing-table bucket a distance belongs in: the bit position of the
/// most significant set bit, counted from the least significant end; an
/// all-zero distance maps to bucket 0.
pub open spec fn bucket_index_of(d: Seq<u8>) -> int {
    if all_zero(d) {
        0
    } else {
        let i = choose|i: int| is_first_nonzero(d, i);
        8 * (d.len() - 1 - i) + (7 - vstd::std_specs::bits::u8_leading_zeros(d[i]))
    }
}

/// A distance with a non-zero byte has a most significant non-zero byte.
pub proof fn lemma_first_nonzero_exists(s: Seq<u8>)
    requires
        !all_zero(s),
    ensures
        exists|i: int| is_first_nonzero(s, i),
    decreases s.len(),
{
    if s.len() > 0 {
        if s[0] != 0 {
            assert(is_first_nonzero(s, 0));
        } else {
            let t = s.drop_first();
            assert(!all_zero(t)) by {
                let w = choose|i: int| 0 <= i < s.len() && s[i] != 0;
                assert(t[w - 1] != 0);
            }
            lemma_first_nonzero_exists(t);
            let i = choose|i: int| is_first_nonzero(t, i);
            assert(is_first_nonzero(s, i + 1)) by {
                assert(s[i + 1] == t[i]);
                assert forall|j: int| 0 <= j < i + 1 implies s[j] == 0 by {
                    if j > 0 {
                        assert(t[j - 1] == 0);
                    }
                }
            }
        }
    }
}

/// Any two most-significant-non-zero positions coincide.
pub proof fn lemma_first_nonzero_unique(s: Seq<u8>, i: int, j: int)
    requires
        is_first_nonzero(s, i),
        is_first_nonzero(s, j),
    ensures
        i == j,
{
}

/// The bucket index of the distance between two identifiers: 0 for equal
/// identifiers, and within `[0, 8*width - 1]` for distinct ones.
pub proof fn lemma_bucket_index_of_distance(a: Seq<u8>, b: Seq<u8>)
    requires
        a.len() == b.len(),
        a.len() >= 1,
    ensures
        a == b ==> bucket_index_of(xor_bytes(a, b)) == 0,
        a != b ==> 0 <= bucket_index_of(xor_bytes(a, b)) < 8 * a.len(),
{
    let d = xor_bytes(a, b);
    if a == b {
        lemma_distance_self_is_zero(a);
        assert(all_zero(d));
    } else {
        assert(!all_zero(d)) by {
            if all_zero(d) {
                assert forall|i: int| 0 <= i < a.len() implies a[i] == b[i] by {
                    assert(d[i] == 0);
                    let (x, y) = (a[i], b[i]);
                    assert(x ^ y == 0 ==> x == y) by (bit_vector);
                }
                assert(a =~= b);
            }
        }
        lemma_first_nonzero_exists(d);
        let i = choose|i: int| is_first_nonzero(d, i);
        vstd::std_specs::bits::axiom_u8_leading_zeros(d[i]);
        assert(0 <= bucket_index_of(d) < 8 * a.len());
    }
}

/// Byte-wise XOR of two identifiers, the Kademlia distance metric.
pub fn dist_as_bytes(a: &Vec<u8>, b: &Vec<u8>) -> (r: Vec<u8>)
    requires
        a@.len() == b@.len(),
    ensures
        r@ == xor_bytes(a@, b@),
{
    let mut r: Vec<u8> = Vec::new();
    let mut i: usize = 0;
    while i < a.len()
        invariant
            i <= a@.len(),
            a@.len() == b@.len(),
            r@.len() == i,
            forall|j: int| 0 <= j < i ==> r@[j] == (a@[j] ^ b@[j]),
        decreases a@.len() - i,
    {
        r.push(a[i] ^ b[i]);
        i = i + 1;
    }
    proof {
        assert(r@ =~= xor_bytes(a@, b@));
    }
    r
}

/// Compares two equal-length distances byte by byte, most significant first.
pub fn cmp_dist(a: &Vec<u8>, b: &Vec<u8>) -> (r: DistanceOrder)
    requires
        a@.len() == b@.len(),
    ensures
        r == DistanceOrder::BFarther <==> dist_lt(a@, b@),
        r == DistanceOrder::AFarther <==> dist_lt(b@, a@),
        r == DistanceOrder::Equal <==> a@ == b@,
{
    let mut i: usize = 0;
    while i < a.len()
        invariant
            i <= a@.len(),
            a@.len() == b@.len(),
            forall|j: int| 0 <= j < i ==> a@[j] == b@[j],
        decreases a@.len() - i,
    {
        if a[i] < b[i] {
            proof {
                lemma_lex_decided(a@, b@, i as int);
            }
            return DistanceOrder::BFarther;
        }
        if a[i] > b[i] {
            proof {
                lemma_lex_decided(b@, a@, i as int);
            }
            return DistanceOrder::AFarther;
        }
        i = i + 1;
    }
    proof {
        assert(a@ =~= b@);
        lemma_lex_irreflexive(a@);
    }
    DistanceOrder::Equal
}

/// At the first differing byte position `i`, with `a[i] < b[i]`, the
/// lexicographic order is settled: `a < b`, not `b < a`, and `a != b`.
proof fn lemma_lex_decided(a: Seq<u8>, b: Seq<u8>, i: int)
    requires
        a.len() == b.len(),
        0 <= i < a.len(),
        a[i] < b[i],
        forall|j: int| 0 <= j < i ==> a[j] == b[j],
    ensures
        dist_lt(a, b),
        !dist_lt(b, a),
        a != b,
{
    assert(dist_lt(a, b));
    assert forall|k: int|
        0 <= k < b.len() && k < a.len() && b[k] < a[k] implies !(forall|j: int|
        0 <= j < k ==> b[j] == a[j]) by {
        if k < i {
            assert(a[k] == b[k]);
            assert(false);
        } else if k == i {
            assert(false);
        } else {
            assert(b[i] != a[i]);
        }
    }
}

/// A sequence is never lexicographically less than itself.
proof fn lemma_lex_irreflexive(a: Seq<u8>)
    ensures
        !dist_lt(a, a),
{
}

/// Two distinct identifiers never tie: equal distances from a common
/// basis mean equal identifiers.
pub proof fn lemma_distance_injective(a: Seq<u8>, b: Seq<u8>, basis: Seq<u8>)
    requires
        a.len() == basis.len(),
        b.len() == basis.len(),
        xor_bytes(basis, a) == xor_bytes(basis, b),
    ensures
        a == b,
{
    assert forall|i: int| 0 <= i < a.len() implies a[i] == b[i] by {
        assert(xor_bytes(basis, a)[i] == (basis[i] ^ a[i]));
        assert(xor_bytes(basis, b)[i] == (basis[i] ^ b[i]));
        let (x, y, z) = (a[i], b[i], basis[i]);
        assert(z ^ x == z ^ y ==> x == y) by (bit_vector);
    }
    assert(a =~= b);
}

/// Two equal-length distances are ordered one way or the other, or equal.
pub proof fn lemma_dist_lt_total(a: Seq<u8>, b: Seq<u8>)
    requires
        a.len() == b.len(),
    ensures
        dist_lt(a, b) || dist_lt(b, a) || a == b,
    decreases a.len(),
{
    if a.len() == 0 {
        assert(a =~= b);
    } else if a[0] < b[0] {
        assert(dist_lt(a, b));
    } else if a[0] > b[0] {
        assert(dist_lt(b, a));
    } else {
        let (at, bt) = (a.drop_first(), b.drop_first());
        lemma_dist_lt_total(at, bt);
        if dist_lt(at, bt) {
            let i = choose|i: int|
                0 <= i < at.len() && i < bt.len() && at[i] < bt[i] && (forall|j: int|
                    0 <= j < i ==> at[j] == bt[j]);
            assert forall|j: int| 0 <= j < i + 1 implies a[j] == b[j] by {
                if j > 0 {
                    assert(at[j - 1] == bt[j - 1]);
                }
            }
            assert(a[i + 1] < b[i + 1]);
            assert(dist_lt(a, b));
        } else if dist_lt(bt, at) {
            let i = choose|i: int|
                0 <= i < bt.len() && i < at.len() && bt[i] < at[i] && (forall|j: int|
                    0 <= j < i ==> bt[j] == at[j]);
            assert forall|j: int| 0 <= j < i + 1 implies b[j] == a[j] by {
                if j > 0 {
                    assert(bt[j - 1] == at[j - 1]);
                }
            }
            assert(b[i + 1] < a[i + 1]);
            assert(dist_lt(b, a));
        } else {
            assert forall|i: int| 0 <= i < a.len() implies a[i] == b[i] by {
                if i > 0 {
                    assert(at[i - 1] == bt[i - 1]);
                }
            }
            assert(a =~= b);
        }
    }
}

/// "No closer than" carries over a middle distance: what is at least as
/// far as `x`, itself at least as far as `y`, is at least as far as `y`.
pub proof fn lemma_dist_ge_trans(d: Seq<u8>, x: Seq<u8>, y: Seq<u8>)
    requires
        d.len() == x.len(),
        x.len() == y.len(),
        !dist_lt(d, x),
        !dist_lt(x, y),
    ensures
        !dist_lt(d, y),
{
    if dist_lt(d, y) {
        lemma_dist_lt_total(d, x);
        if d == x {
            assert(dist_lt(x, y));
        } else {
            assert(dist_lt(x, d));
            lemma_dist_lt_trans(x, d, y);
        }
        assert(false);
    }
}

/// The XOR distance is symmetric in its arguments.
pub proof fn lemma_xor_comm(a: Seq<u8>, b: Seq<u8>)
    requires
        a.len() == b.len(),
    ensures
        xor_bytes(a, b) == xor_bytes(b, a),
{
    assert forall|i: int| 0 <= i < a.len() implies xor_bytes(a, b)[i] == xor_bytes(b, a)[i] by {
        let (x, y) = (a[i], b[i]);
        assert(x ^ y == y ^ x) by (bit_vector);
    }
    assert(xor_bytes(a, b) =~= xor_bytes(b, a));
}

/// Lexicographic order on distances is transitive.
pub proof fn lemma_dist_lt_trans(a: Seq<u8>, b: Seq<u8>, c: Seq<u8>)
    requires
        a.len() == b.len(),
        b.len() == c.len(),
        dist_lt(a, b),
        dist_lt(b, c),
    ensures
        dist_lt(a, c),
{
    let i = choose|i: int|
        0 <= i < a.len() && i < b.len() && a[i] < b[i] && (forall|j: int|
            0 <= j < i ==> a[j] == b[j]);
    let k = choose|k: int|
        0 <= k < b.len() && k < c.len() && b[k] < c[k] && (forall|j: int|
            0 <= j < k ==> b[j] == c[j]);
    if i < k {
        assert(a[i] < c[i] && (forall|j: int| 0 <= j < i ==> a[j] == c[j]));
    } else if k < i {
        assert(a[k] < c[k] && (forall|j: int| 0 <= j < k ==> a[j] == c[j]));
    } else {
        assert(a[i] < c[i] && (forall|j: int| 0 <= j < i ==> a[j] == c[j]));
    }
}

/// Compares the distances of `a` and `b` from a common basis identifier.
pub fn cmp_dist_wrt(a: &Vec<u8>, b: &Vec<u8>, basis: &Vec<u8>) -> (r: DistanceOrder)
    requires
        a@.len() == basis@.len(),
        b@.len() == basis@.len(),
    ensures
        r == DistanceOrder::BFarther <==> dist_lt(xor_bytes(basis@, a@), xor_bytes(basis@, b@)),
        r == DistanceOrder::AFarther <==> dist_lt(xor_bytes(basis@, b@), xor_bytes(basis@, a@)),
        r == DistanceOrder::Equal <==> xor_bytes(basis@, a@) == xor_bytes(basis@, b@),
{
    let a_dist = dist_as_bytes(basis, a);
    let b_dist = dist_as_bytes(basis, b);
    cmp_dist(&a_dist, &b_dist)
}

/// Fills one byte of a fresh identifier.
///
/// Relies on rand::random: a value drawn from the thread-local generator;
/// nothing is assumed of which value comes back.
#[verifier::external_body]
fn random_byte() -> u8 {
    rand::random::<u8>()
}

/// Generates a fresh identifier of the full width, randomly.
pub fn gen_new_id() -> (r: Vec<u8>)
    ensures
        r@.len() == crate::KEY_WIDTH,
{
    let mut r: Vec<u8> = Vec::new();
    let mut i: usize = 0;
    while i < crate::KEY_WIDTH
        invariant
            i <= crate::KEY_WIDTH,
            r@.len() == i,
        decreases crate::KEY_WIDTH - i,
    {
        r.push(random_byte());
        i = i + 1;
    }
    r
}

} // verus!
