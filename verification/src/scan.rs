//! Scanning of borrowed text, byte by byte. Each function hands back slices of
//! its argument and copies nothing; its contract speaks of the characters.

use crate::ascii::{
    eq_ignore_ascii_case_bytes, lemma_ascii_char_is_encoded, lemma_boundary_between,
    lemma_encode_empty, lemma_encode_injective, lemma_first_byte, lemma_fold_encoded,
    lemma_last_byte, lemma_locate_ascii_byte, to_ascii_lower_byte,
};
use crate::text;
use crate::text::is_whitespace;
use vstd::prelude::*;
use vstd::string::*;
use vstd::utf8::*;

verus! {

/// The byte that separates the items of a list.
const COMMA: u8 = 0x2C;

/// Whether `b` is the byte of an ASCII whitespace character.
fn is_whitespace_byte(b: u8) -> (r: bool)
    ensures
        r == is_whitespace(b as char),
{
    b == 0x20 || (0x09 <= b && b <= 0x0D)
}

/// The byte of an ASCII capital letter in lower case, any other byte as it is.
fn lower_byte(b: u8) -> (r: u8)
    ensures
        r == to_ascii_lower_byte(b),
{
    if 0x41 <= b && b <= 0x5A {
        b + 32
    } else {
        b
    }
}

/// Whether `a` and `b` are the same text up to the case of ASCII letters.
pub fn eq_ignore_ascii_case(a: &str, b: &str) -> (r: bool)
    ensures
        r == text::eq_ignore_ascii_case(a@, b@),
{
    let x = a.as_bytes();
    let y = b.as_bytes();
    proof {
        lemma_fold_encoded(a@, b@);
    }
    if x.len() != y.len() {
        return false;
    }
    let n: usize = x.len();
    let mut i: usize = 0;
    while i < n
        invariant
            i <= n,
            n == x@.len(),
            n == y@.len(),
            eq_ignore_ascii_case_bytes(x@, y@) <==> text::eq_ignore_ascii_case(a@, b@),
            forall|k: int|
                0 <= k < i ==> to_ascii_lower_byte(#[trigger] x@[k]) == to_ascii_lower_byte(y@[k]),
        decreases n - i,
    {
        if lower_byte(x[i]) != lower_byte(y[i]) {
            return false;
        }
        i += 1;
    }
    assert(eq_ignore_ascii_case_bytes(x@, y@));
    true
}

/// `s` without its leading ASCII whitespace.
pub fn trim_start<'a>(s: &'a str) -> (r: &'a str)
    ensures
        r@ == text::trim_start(s@),
{
    let bytes = s.as_bytes();
    let n: usize = bytes.len();
    let mut i: usize = 0;
    proof {
        assert(s@.subrange(0, s@.len() as int) =~= s@);
        assert(bytes@.subrange(0, n as int) =~= bytes@);
    }
    while i < n && is_whitespace_byte(bytes[i])
        invariant
            bytes@ == encode_utf8(s@),
            n == bytes@.len(),
            i <= n,
            i <= s@.len(),
            encode_utf8(s@.subrange(i as int, s@.len() as int)) == bytes@.subrange(
                i as int,
                n as int,
            ),
            text::trim_start(s@) == text::trim_start(s@.subrange(i as int, s@.len() as int)),
        decreases n - i,
    {
        proof {
            let t = s@.subrange(i as int, s@.len() as int);
            lemma_encode_empty(t);
            lemma_first_byte(t);
            assert(t.drop_first() =~= s@.subrange(i + 1, s@.len() as int));
            assert(bytes@.subrange(i as int, n as int).subrange(1, n - i) =~= bytes@.subrange(
                i + 1,
                n as int,
            ));
        }
        i += 1;
    }
    proof {
        let skipped = s@.subrange(0, i as int);
        let t = s@.subrange(i as int, s@.len() as int);
        lemma_encode_empty(t);
        if t.len() > 0 {
            lemma_first_byte(t);
        }
        assert(text::trim_start(t) == t);
        assert(s@ =~= skipped + t);
        lemma_boundary_between(skipped, t);
    }
    let (_, r) = s.split_at(i);
    proof {
        lemma_encode_injective(r@, s@.subrange(i as int, s@.len() as int));
    }
    r
}

/// `s` without its trailing ASCII whitespace.
pub fn trim_end<'a>(s: &'a str) -> (r: &'a str)
    ensures
        r@ == text::trim_end(s@),
{
    let bytes = s.as_bytes();
    let mut j: usize = bytes.len();
    let ghost mut m: int = s@.len() as int;
    proof {
        assert(s@.subrange(0, m) =~= s@);
        assert(bytes@.subrange(0, j as int) =~= bytes@);
    }
    while j > 0 && is_whitespace_byte(bytes[j - 1])
        invariant
            bytes@ == encode_utf8(s@),
            j <= bytes@.len(),
            0 <= m <= s@.len(),
            encode_utf8(s@.subrange(0, m)) == bytes@.subrange(0, j as int),
            text::trim_end(s@) == text::trim_end(s@.subrange(0, m)),
        decreases j,
    {
        proof {
            let t = s@.subrange(0, m);
            lemma_encode_empty(t);
            lemma_last_byte(t);
            assert(t.drop_last() =~= s@.subrange(0, m - 1));
            assert(bytes@.subrange(0, j as int).drop_last() =~= bytes@.subrange(0, j - 1));
            m = m - 1;
        }
        j -= 1;
    }
    proof {
        let t = s@.subrange(0, m);
        let dropped = s@.subrange(m, s@.len() as int);
        lemma_encode_empty(t);
        if t.len() > 0 {
            lemma_last_byte(t);
        }
        assert(text::trim_end(t) == t);
        assert(s@ =~= t + dropped);
        lemma_boundary_between(t, dropped);
    }
    let (r, _) = s.split_at(j);
    proof {
        lemma_encode_injective(r@, s@.subrange(0, m));
    }
    r
}

/// `s` without its leading and trailing ASCII whitespace.
pub fn trim<'a>(s: &'a str) -> (r: &'a str)
    ensures
        r@ == text::trim(s@),
{
    trim_end(trim_start(s))
}

/// Splits `s` at its last comma into what stands before the comma and what
/// stands after it; `None` where `s` holds no comma.
pub fn rsplit_comma<'a>(s: &'a str) -> (r: Option<(&'a str, &'a str)>)
    ensures
        r is None <==> !s@.contains(','),
        r matches Some((head, tail)) ==> s@ == head@ + seq![','] + tail@ && !tail@.contains(','),
{
    let bytes = s.as_bytes();
    let n: usize = bytes.len();
    let mut j: usize = n;
    while j > 0 && bytes[j - 1] != COMMA
        invariant
            n == bytes@.len(),
            j <= n,
            forall|k: int| j <= k < n ==> #[trigger] bytes@[k] != COMMA,
        decreases j,
    {
        j -= 1;
    }
    if j == 0 {
        proof {
            if s@.contains(',') {
                let p = choose|p: int| 0 <= p < s@.len() && s@[p] == ',';
                lemma_ascii_char_is_encoded(s@, p);
            }
        }
        None
    } else {
        let ghost p = lemma_locate_ascii_byte(s@, j - 1);
        let ghost before = s@.subrange(0, p);
        let ghost after = s@.subrange(p + 1, s@.len() as int);
        proof {
            assert(s@[p] == ',');
            assert(s@ =~= before + seq![','] + after);
            lemma_boundary_between(before + seq![','], after);
            lemma_boundary_between(before, seq![',']);
            assert(encode_utf8(before + seq![',']) =~= bytes@.subrange(0, j as int));
            if after.contains(',') {
                let q = choose|q: int| 0 <= q < after.len() && after[q] == ',';
                lemma_ascii_char_is_encoded(after, q);
                let k = choose|k: int|
                    0 <= k < encode_utf8(after).len() && #[trigger] encode_utf8(after)[k] as char
                        == after[q];
                assert(bytes@[j + k] == encode_utf8(after)[k]);
            }
        }
        let (front, tail) = s.split_at(j);
        proof {
            lemma_encode_injective(front@, before + seq![',']);
            lemma_encode_injective(tail@, after);
        }
        let (head, _) = front.split_at(j - 1);
        proof {
            assert(front.spec_bytes().subrange(0, j - 1) =~= bytes@.subrange(0, j - 1));
            lemma_encode_injective(head@, before);
        }
        Some((head, tail))
    }
}

} // verus!
