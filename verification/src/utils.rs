//! Conversions between byte pairs/quadruples and the integers they encode,
//! big-endian.

use vstd::prelude::*;

verus! {

/// Reads a big-endian `u16` from the first two bytes.
pub fn u8_2_to_u16(bytes: &[u8]) -> (r: u16)
    requires
        bytes@.len() >= 2,
    ensures
        r == bytes@[0] * 256 + bytes@[1],
{
    (bytes[0] as u16) * 256 + (bytes[1] as u16)
}

/// Reads a big-endian `u32` from the first four bytes.
pub fn u8_4_to_u32(bytes: &[u8]) -> (r: u32)
    requires
        bytes@.len() >= 4,
    ensures
        r == ((bytes@[0] * 0x1000000) + (bytes@[1] * 0x10000) + (bytes@[2] * 0x100)
            + bytes@[3]),
{
    (bytes[0] as u32) * 0x1000000 + (bytes[1] as u32) * 0x10000 + (bytes[2] as u32) * 0x100
        + (bytes[3] as u32)
}

/// Writes a `u16` as two big-endian bytes.
pub fn u16_to_u8_2(n: &u16) -> (r: Vec<u8>)
    ensures
        r@.len() == 2,
        r@[0] == *n / 256,
        r@[1] == *n % 256,
{
    let mut out: Vec<u8> = Vec::new();
    out.push((*n >> 8) as u8);
    out.push((*n & 0xff) as u8);
    proof {
        assert((*n >> 8) as u8 == *n / 256 && (*n & 0xff) as u8 == *n % 256) by (bit_vector);
    }
    out
}

/// An explicit copy of a byte vector.
pub fn clone_bytes(v: &Vec<u8>) -> (r: Vec<u8>)
    ensures
        r@ == v@,
{
    let mut r: Vec<u8> = Vec::new();
    let mut i: usize = 0;
    while i < v.len()
        invariant
            i <= v@.len(),
            r@.len() == i,
            forall|j: int| 0 <= j < i ==> r@[j] == v@[j],
        decreases v@.len() - i,
    {
        r.push(v[i]);
        i = i + 1;
    }
    proof {
        assert(r@ =~= v@);
    }
    r
}

/// Copies the bytes of `[start, end)` out of a slice.
pub fn copy_range(bytes: &[u8], start: usize, end: usize) -> (r: Vec<u8>)
    requires
        start <= end <= bytes@.len(),
    ensures
        r@ == bytes@.subrange(start as int, end as int),
{
    let mut r: Vec<u8> = Vec::new();
    let mut i: usize = start;
    while i < end
        invariant
            start <= i <= end <= bytes@.len(),
            r@.len() == i - start,
            forall|j: int| 0 <= j < r@.len() ==> r@[j] == bytes@[start + j],
        decreases end - i,
    {
        r.push(bytes[i]);
        i = i + 1;
    }
    proof {
        assert(r@ =~= bytes@.subrange(start as int, end as int));
    }
    r
}

/// Whether two byte vectors hold the same bytes.
pub fn keys_equal(a: &Vec<u8>, b: &Vec<u8>) -> (r: bool)
    ensures
        r <==> a@ == b@,
{
    if a.len() != b.len() {
        return false;
    }
    let mut i: usize = 0;
    while i < a.len()
        invariant
            i <= a@.len(),
            a@.len() == b@.len(),
            forall|j: int| 0 <= j < i ==> a@[j] == b@[j],
        decreases a@.len() - i,
    {
        if a[i] != b[i] {
            return false;
        }
        i = i + 1;
    }
    proof {
        assert(a@ =~= b@);
    }
    true
}

} // verus!
