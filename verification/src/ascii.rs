//! How ASCII characters sit inside UTF-8 text.
//!
//! A `&str` is scanned byte by byte, while the contracts of this library speak
//! of characters. The lemmas here carry a fact about an ASCII byte of the
//! encoding over to the character that it encodes, and back.

use crate::text::{eq_ignore_ascii_case, to_ascii_lower};
use vstd::prelude::*;
use vstd::utf8::*;

verus! {

/// `c` is one of the 128 ASCII characters.
pub open spec fn is_ascii_char(c: char) -> bool {
    (c as u32) < 0x80
}

/// `b` is the UTF-8 encoding of an ASCII character.
pub open spec fn is_ascii_byte(b: u8) -> bool {
    b < 0x80
}

/// An ASCII character is encoded as the single byte of its own value. Any
/// other character is encoded as two to four bytes, none of which is an ASCII
/// byte.
pub proof fn lemma_encode_scalar(c: char)
    ensures
        1 <= encode_scalar(c as u32).len() <= 4,
        is_ascii_char(c) ==> encode_scalar(c as u32) == seq![c as u8] && (c as u8) as char == c,
        !is_ascii_char(c) ==> forall|k: int|
            0 <= k < encode_scalar(c as u32).len() ==> !is_ascii_byte(
                #[trigger] encode_scalar(c as u32)[k],
            ),
{
    let v = c as u32;
    char_is_scalar(c);
    if has_width_1_encoding(v) {
        assert((v & 0x7F) as u8 == v as u8 && (v as u8) as u32 == v) by (bit_vector)
            requires
                v <= 0x7F,
        ;
        assert(encode_scalar(v) =~= seq![c as u8]);
    } else {
        let b1 = ((v >> 6) & 0x1F) as u8;
        let b2 = ((v >> 12) & 0x0F) as u8;
        let b3 = ((v >> 18) & 0x7) as u8;
        let c1 = (v & 0x3F) as u8;
        let c2 = ((v >> 6) & 0x3F) as u8;
        let c3 = ((v >> 12) & 0x3F) as u8;
        assert(0xC0u8 | b1 >= 0x80) by (bit_vector);
        assert(0xE0u8 | b2 >= 0x80) by (bit_vector);
        assert(0xF0u8 | b3 >= 0x80) by (bit_vector);
        assert(0x80u8 | c1 >= 0x80) by (bit_vector);
        assert(0x80u8 | c2 >= 0x80) by (bit_vector);
        assert(0x80u8 | c3 >= 0x80) by (bit_vector);
    }
}

/// The encoding of a concatenation is the concatenation of the encodings.
pub proof fn lemma_encode_concat(a: Seq<char>, b: Seq<char>)
    ensures
        encode_utf8(a + b) == encode_utf8(a) + encode_utf8(b),
    decreases a.len(),
{
    if a.len() == 0 {
        assert(a + b =~= b);
        assert(encode_utf8(a) + encode_utf8(b) =~= encode_utf8(b));
    } else {
        assert((a + b).drop_first() =~= a.drop_first() + b);
        lemma_encode_concat(a.drop_first(), b);
        assert(encode_utf8(a + b) =~= encode_utf8(a) + encode_utf8(b));
    }
}

/// The encoding of a single character.
pub proof fn lemma_encode_single(c: char)
    ensures
        encode_utf8(seq![c]) == encode_scalar(c as u32),
{
    reveal_with_fuel(encode_utf8, 2);
    assert(seq![c].drop_first() =~= Seq::<char>::empty());
    assert(encode_scalar(c as u32) + Seq::<u8>::empty() =~= encode_scalar(c as u32));
}

/// Two texts with the same encoding are the same text.
pub proof fn lemma_encode_injective(a: Seq<char>, b: Seq<char>)
    requires
        encode_utf8(a) == encode_utf8(b),
    ensures
        a == b,
{
    encode_utf8_decode_utf8(a);
    encode_utf8_decode_utf8(b);
}

/// Only the empty text has an empty encoding.
pub proof fn lemma_encode_empty(chars: Seq<char>)
    ensures
        encode_utf8(chars).len() == 0 <==> chars.len() == 0,
{
    if chars.len() > 0 {
        lemma_encode_scalar(chars[0]);
    }
}

/// The first byte of an encoding is an ASCII byte exactly when the first
/// character is an ASCII character; it then has that character's value, and
/// the bytes after it encode the rest of the text.
pub proof fn lemma_first_byte(chars: Seq<char>)
    requires
        chars.len() > 0,
    ensures
        encode_utf8(chars).len() > 0,
        is_ascii_byte(encode_utf8(chars)[0]) <==> is_ascii_char(chars[0]),
        is_ascii_char(chars[0]) ==> {
            &&& encode_utf8(chars)[0] as char == chars[0]
            &&& encode_utf8(chars).subrange(1, encode_utf8(chars).len() as int) == encode_utf8(
                chars.drop_first(),
            )
        },
{
    let head = encode_scalar(chars[0] as u32);
    lemma_encode_scalar(chars[0]);
    assert(encode_utf8(chars)[0] == head[0]);
    if is_ascii_char(chars[0]) {
        assert(encode_utf8(chars).subrange(1, encode_utf8(chars).len() as int) =~= encode_utf8(
            chars.drop_first(),
        ));
    }
}

/// The last byte of an encoding is an ASCII byte exactly when the last
/// character is an ASCII character; it then has that character's value, and
/// the bytes before it encode the rest of the text.
pub proof fn lemma_last_byte(chars: Seq<char>)
    requires
        chars.len() > 0,
    ensures
        encode_utf8(chars).len() > 0,
        is_ascii_byte(encode_utf8(chars).last()) <==> is_ascii_char(chars.last()),
        is_ascii_char(chars.last()) ==> {
            &&& encode_utf8(chars).last() as char == chars.last()
            &&& encode_utf8(chars).drop_last() == encode_utf8(chars.drop_last())
        },
{
    let tail = encode_scalar(chars.last() as u32);
    lemma_encode_scalar(chars.last());
    assert(chars =~= chars.drop_last() + seq![chars.last()]);
    lemma_encode_concat(chars.drop_last(), seq![chars.last()]);
    lemma_encode_single(chars.last());
    assert(encode_utf8(chars).last() == tail.last());
    if is_ascii_char(chars.last()) {
        assert(encode_utf8(chars).drop_last() =~= encode_utf8(chars.drop_last()));
    }
}

/// An ASCII byte of an encoding is the whole encoding of one character. The
/// result is that character's index: the bytes before the byte encode the
/// characters before it, and the bytes after the byte those after it.
pub proof fn lemma_locate_ascii_byte(chars: Seq<char>, k: int) -> (p: int)
    requires
        0 <= k < encode_utf8(chars).len(),
        is_ascii_byte(encode_utf8(chars)[k]),
    ensures
        0 <= p < chars.len(),
        chars[p] == encode_utf8(chars)[k] as char,
        encode_utf8(chars.subrange(0, p)) == encode_utf8(chars).subrange(0, k),
        encode_utf8(chars.subrange(p + 1, chars.len() as int)) == encode_utf8(chars).subrange(
            k + 1,
            encode_utf8(chars).len() as int,
        ),
    decreases chars.len(),
{
    let bytes = encode_utf8(chars);
    let head = encode_scalar(chars[0] as u32);
    let rest = chars.drop_first();
    lemma_encode_scalar(chars[0]);
    if k < head.len() {
        assert(bytes[k] == head[k]);
        assert(chars.subrange(0, 0) =~= Seq::<char>::empty());
        assert(chars.subrange(1, chars.len() as int) =~= rest);
        assert(bytes.subrange(0, 0) =~= encode_utf8(Seq::<char>::empty()));
        assert(bytes.subrange(1, bytes.len() as int) =~= encode_utf8(rest));
        0
    } else {
        let n = head.len() as int;
        assert(bytes[k] == encode_utf8(rest)[k - n]);
        let q = lemma_locate_ascii_byte(rest, k - n);
        assert(chars.subrange(0, q + 1) =~= seq![chars[0]] + rest.subrange(0, q));
        lemma_encode_concat(seq![chars[0]], rest.subrange(0, q));
        lemma_encode_single(chars[0]);
        assert(bytes.subrange(0, k) =~= head + encode_utf8(rest).subrange(0, k - n));
        assert(chars.subrange(q + 2, chars.len() as int) =~= rest.subrange(
            q + 1,
            rest.len() as int,
        ));
        assert(bytes.subrange(k + 1, bytes.len() as int) =~= encode_utf8(rest).subrange(
            k - n + 1,
            encode_utf8(rest).len() as int,
        ));
        q + 1
    }
}

/// An ASCII character of a text shows as a byte of its own value in the
/// encoding.
pub proof fn lemma_ascii_char_is_encoded(chars: Seq<char>, p: int)
    requires
        0 <= p < chars.len(),
        is_ascii_char(chars[p]),
    ensures
        exists|k: int|
            0 <= k < encode_utf8(chars).len() && #[trigger] encode_utf8(chars)[k] as char
                == chars[p],
{
    let before = chars.subrange(0, p);
    let after = chars.subrange(p + 1, chars.len() as int);
    assert(chars =~= before + seq![chars[p]] + after);
    lemma_encode_concat(before + seq![chars[p]], after);
    lemma_encode_concat(before, seq![chars[p]]);
    lemma_encode_single(chars[p]);
    lemma_encode_scalar(chars[p]);
    let k = encode_utf8(before).len() as int;
    assert(encode_utf8(chars)[k] == seq![chars[p] as u8][0]);
}

/// The point between two parts of a text is a character boundary of its
/// encoding.
pub proof fn lemma_boundary_between(a: Seq<char>, b: Seq<char>)
    ensures
        encode_utf8(a + b) == encode_utf8(a) + encode_utf8(b),
        is_char_boundary(encode_utf8(a + b), encode_utf8(a).len() as int),
    decreases a.len(),
{
    lemma_encode_concat(a, b);
    let bytes = encode_utf8(a + b);
    encode_utf8_valid_utf8(a + b);
    if a.len() > 0 {
        lemma_encode_scalar(a[0]);
        encode_utf8_first_scalar(a + b);
        assert((a + b).drop_first() =~= a.drop_first() + b);
        assert(pop_first_scalar(bytes) =~= encode_utf8(a.drop_first() + b));
        lemma_boundary_between(a.drop_first(), b);
    }
}

/// The lower-case form of the byte of an ASCII capital letter; any other byte
/// is left as it is.
pub open spec fn to_ascii_lower_byte(b: u8) -> u8 {
    if 0x41 <= b && b <= 0x5A {
        (b + 32) as u8
    } else {
        b
    }
}

/// `x` and `y` have the same length and agree byte by byte once the bytes of
/// ASCII capitals are folded to lower case.
pub open spec fn eq_ignore_ascii_case_bytes(x: Seq<u8>, y: Seq<u8>) -> bool {
    &&& x.len() == y.len()
    &&& forall|k: int|
        0 <= k < x.len() ==> to_ascii_lower_byte(#[trigger] x[k]) == to_ascii_lower_byte(y[k])
}

/// Folding the byte of an ASCII character is folding the character.
pub proof fn lemma_fold_byte(b: u8)
    ensures
        is_ascii_byte(b) ==> to_ascii_lower_byte(b) as char == to_ascii_lower(b as char),
        is_ascii_byte(to_ascii_lower_byte(b)) <==> is_ascii_byte(b),
        !is_ascii_byte(b) ==> to_ascii_lower_byte(b) == b,
{
}

/// Two texts agree up to ASCII case exactly when their encodings agree up to
/// ASCII case, byte by byte.
pub proof fn lemma_fold_encoded(a: Seq<char>, b: Seq<char>)
    ensures
        eq_ignore_ascii_case_bytes(encode_utf8(a), encode_utf8(b)) <==> eq_ignore_ascii_case(a, b),
    decreases a.len(),
{
    let ea = encode_utf8(a);
    let eb = encode_utf8(b);
    lemma_encode_empty(a);
    lemma_encode_empty(b);
    if a.len() > 0 && b.len() > 0 {
        let ra = a.drop_first();
        let rb = b.drop_first();
        let ha = encode_scalar(a[0] as u32);
        let hb = encode_scalar(b[0] as u32);
        let era = encode_utf8(ra);
        let erb = encode_utf8(rb);
        lemma_encode_scalar(a[0]);
        lemma_encode_scalar(b[0]);
        lemma_fold_encoded(ra, rb);
        let head_ok = to_ascii_lower(a[0]) == to_ascii_lower(b[0]);

        assert(eq_ignore_ascii_case(a, b) <==> head_ok && eq_ignore_ascii_case(ra, rb)) by {
            if eq_ignore_ascii_case(a, b) {
                assert forall|i: int| 0 <= i < ra.len() implies to_ascii_lower(#[trigger] ra[i])
                    == to_ascii_lower(rb[i]) by {
                    assert(ra[i] == a[i + 1]);
                }
            }
            if head_ok && eq_ignore_ascii_case(ra, rb) {
                assert forall|i: int| 0 <= i < a.len() implies to_ascii_lower(#[trigger] a[i])
                    == to_ascii_lower(b[i]) by {
                    if i > 0 {
                        assert(a[i] == ra[i - 1]);
                    }
                }
            }
        }

        assert(ea[0] == ha[0] && eb[0] == hb[0]);
        lemma_fold_byte(ea[0]);
        lemma_fold_byte(eb[0]);
        if eq_ignore_ascii_case_bytes(ea, eb) && !is_ascii_char(a[0]) {
            // The first character of each text has the same encoding.
            encode_utf8_first_scalar(a);
            encode_utf8_first_scalar(b);
            assert forall|k: int| 0 <= k < ha.len() implies ea[k] == eb[k] by {
                assert(ea[k] == ha[k]);
                lemma_fold_byte(ea[k]);
                lemma_fold_byte(eb[k]);
            }
            assert(a[0] as u32 == b[0] as u32);
        }
        if head_ok {
            assert(ha.len() == hb.len());
            assert forall|k: int| 0 <= k < ha.len() implies to_ascii_lower_byte(#[trigger] ha[k])
                == to_ascii_lower_byte(hb[k]) by {
                lemma_fold_byte(ha[k]);
                lemma_fold_byte(hb[k]);
            }
        }
        assert(eq_ignore_ascii_case_bytes(ea, eb) <==> head_ok && eq_ignore_ascii_case_bytes(
            era,
            erb,
        )) by {
            let n = ha.len() as int;
            if eq_ignore_ascii_case_bytes(ea, eb) {
                assert(head_ok);
                assert forall|k: int| 0 <= k < era.len() implies to_ascii_lower_byte(
                    #[trigger] era[k],
                ) == to_ascii_lower_byte(erb[k]) by {
                    assert(era[k] == ea[k + n]);
                    assert(erb[k] == eb[k + n]);
                }
            }
            if head_ok && eq_ignore_ascii_case_bytes(era, erb) {
                assert forall|k: int| 0 <= k < ea.len() implies to_ascii_lower_byte(
                    #[trigger] ea[k],
                ) == to_ascii_lower_byte(eb[k]) by {
                    if k < n {
                        assert(ea[k] == ha[k] && eb[k] == hb[k]);
                    } else {
                        assert(ea[k] == era[k - n] && eb[k] == erb[k - n]);
                    }
                }
            }
        }
    }
}

} // verus!
