//! Formatting of identifiers for diagnostics: lowercase hexadecimal.

use vstd::prelude::*;

verus! {

/// The lowercase hexadecimal digit of a value below 16.
pub open spec fn hex_digit(v: u8) -> char {
    if v < 10 {
        (v + 48) as char
    } else {
        (v + 87) as char
    }
}

/// The lowercase hexadecimal rendering of a byte sequence, two digits per
/// byte, most significant digit first.
pub open spec fn hex_str_of(b: Seq<u8>) -> Seq<char>
    decreases b.len(),
{
    if b.len() == 0 {
        Seq::empty()
    } else {
        seq![hex_digit(b[0] / 16), hex_digit(b[0] % 16)] + hex_str_of(b.drop_first())
    }
}

/// Appending a byte appends its two digits.
proof fn lemma_hex_str_push(b: Seq<u8>, x: u8)
    ensures
        hex_str_of(b.push(x)) == hex_str_of(b) + seq![hex_digit(x / 16), hex_digit(x % 16)],
    decreases b.len(),
{
    if b.len() == 0 {
        assert(b.push(x)[0] == x);
        assert(b.push(x).drop_first() =~= Seq::<u8>::empty());
        assert(hex_str_of(Seq::<u8>::empty()) == Seq::<char>::empty());
        assert(b =~= Seq::<u8>::empty());
        assert(hex_str_of(b.push(x)) =~= hex_str_of(b) + seq![
            hex_digit(x / 16),
            hex_digit(x % 16),
        ]);
    } else {
        lemma_hex_str_push(b.drop_first(), x);
        assert(b.push(x).drop_first() =~= b.drop_first().push(x));
        assert(b.push(x)[0] == b[0]);
        assert(hex_str_of(b) + seq![hex_digit(x / 16), hex_digit(x % 16)] =~= seq![
            hex_digit(b[0] / 16),
            hex_digit(b[0] % 16),
        ] + (hex_str_of(b.drop_first()) + seq![hex_digit(x / 16), hex_digit(x % 16)]));
    }
}

/// Relies on String::push: appends the given character to the end of the
/// string.
pub assume_specification[ String::push ](s: &mut String, c: char)
    ensures
        final(s)@ == old(s)@.push(c),
;

/// Renders bytes as a lowercase hexadecimal string, two digits per byte.
pub fn as_hex_string(inpt: &[u8]) -> (r: String)
    ensures
        r@ == hex_str_of(inpt@),
{
    let mut r = String::new();
    let mut i: usize = 0;
    while i < inpt.len()
        invariant
            i <= inpt@.len(),
            r@ == hex_str_of(inpt@.take(i as int)),
        decreases inpt@.len() - i,
    {
        let b = inpt[i];
        let hi = b / 16;
        let lo = b % 16;
        let hc = if hi < 10 {
            (hi + 48) as char
        } else {
            (hi + 87) as char
        };
        let lc = if lo < 10 {
            (lo + 48) as char
        } else {
            (lo + 87) as char
        };
        let ghost pre = r@;
        r.push(hc);
        r.push(lc);
        proof {
            assert(inpt@.take(i + 1) =~= inpt@.take(i as int).push(b));
            lemma_hex_str_push(inpt@.take(i as int), b);
            assert(r@ =~= hex_str_of(inpt@.take(i + 1)));
        }
        i = i + 1;
    }
    proof {
        assert(inpt@.take(inpt@.len() as int) =~= inpt@);
    }
    r
}

/// Identifier strings for diagnostic lines: a short prefix and the full
/// rendering of a node's identifier.
pub struct Loggerator {
    pub id: String,
    pub id_full: String,
}

impl Loggerator {
    /// Renders the identifier once, truncated to three bytes for the
    /// short form.
    pub fn new(id: &[u8]) -> (r: Loggerator)
        requires
            id@.len() >= 3,
        ensures
            r.id@ == hex_str_of(id@.take(3)),
            r.id_full@ == hex_str_of(id@),
    {
        let short = as_hex_string(&id[0..3]);
        proof {
            assert(id@.subrange(0, 3) =~= id@.take(3));
        }
        Loggerator { id: short, id_full: as_hex_string(id) }
    }
}

} // verus!
