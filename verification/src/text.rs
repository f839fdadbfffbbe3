//! The mathematical model of header text: sequences of characters, the
//! whitespace that surrounds a token, and comparison that ignores ASCII case.

use vstd::prelude::*;

verus! {

/// The six ASCII characters that are white space: space, horizontal tab, line
/// feed, vertical tab, form feed and carriage return. White space outside
/// ASCII, such as U+00A0 NO-BREAK SPACE, is not among them.
pub open spec fn is_whitespace(c: char) -> bool {
    c == ' ' || c == '\t' || c == '\n' || c == '\u{b}' || c == '\u{c}' || c == '\r'
}

/// Every character of `s` is ASCII whitespace.
pub open spec fn all_whitespace(s: Seq<char>) -> bool {
    forall|i: int| 0 <= i < s.len() ==> is_whitespace(#[trigger] s[i])
}

/// `s` neither begins nor ends with ASCII whitespace.
pub open spec fn is_trimmed(s: Seq<char>) -> bool {
    s.len() > 0 ==> !is_whitespace(s.first()) && !is_whitespace(s.last())
}

/// `s` without its leading ASCII whitespace.
pub open spec fn trim_start(s: Seq<char>) -> Seq<char>
    decreases s.len(),
{
    if s.len() > 0 && is_whitespace(s.first()) {
        trim_start(s.drop_first())
    } else {
        s
    }
}

/// `s` without its trailing ASCII whitespace.
pub open spec fn trim_end(s: Seq<char>) -> Seq<char>
    decreases s.len(),
{
    if s.len() > 0 && is_whitespace(s.last()) {
        trim_end(s.drop_last())
    } else {
        s
    }
}

/// `s` without its leading and trailing ASCII whitespace. Whitespace inside
/// the token stays.
pub open spec fn trim(s: Seq<char>) -> Seq<char> {
    trim_end(trim_start(s))
}

/// The lower-case form of an ASCII capital letter; any other character,
/// non-ASCII letters included, is left as it is.
pub open spec fn to_ascii_lower(c: char) -> char {
    if 'A' <= c && c <= 'Z' {
        ((c as u32) + 32) as char
    } else {
        c
    }
}

/// `a` and `b` have the same length and agree character by character once
/// ASCII capitals are folded to lower case.
pub open spec fn eq_ignore_ascii_case(a: Seq<char>, b: Seq<char>) -> bool {
    &&& a.len() == b.len()
    &&& forall|i: int| 0 <= i < a.len() ==> to_ascii_lower(#[trigger] a[i]) == to_ascii_lower(b[i])
}

/// `c` is one of the 52 ASCII letters.
pub open spec fn is_ascii_letter(c: char) -> bool {
    ('a' <= c && c <= 'z') || ('A' <= c && c <= 'Z')
}

/// The leading whitespace of `s` does not change when more whitespace is put
/// in front of it.
pub proof fn lemma_trim_start_skips(pad: Seq<char>, s: Seq<char>)
    requires
        all_whitespace(pad),
    ensures
        trim_start(pad + s) == trim_start(s),
    decreases pad.len(),
{
    if pad.len() == 0 {
        assert(pad + s =~= s);
    } else {
        assert((pad + s).first() == pad[0]);
        assert((pad + s).drop_first() =~= pad.drop_first() + s);
        lemma_trim_start_skips(pad.drop_first(), s);
    }
}

/// The trailing whitespace of `s` does not change when more whitespace is put
/// behind it.
pub proof fn lemma_trim_end_skips(s: Seq<char>, pad: Seq<char>)
    requires
        all_whitespace(pad),
    ensures
        trim_end(s + pad) == trim_end(s),
    decreases pad.len(),
{
    if pad.len() == 0 {
        assert(s + pad =~= s);
    } else {
        assert((s + pad).last() == pad.last());
        assert((s + pad).drop_last() =~= s + pad.drop_last());
        lemma_trim_end_skips(s, pad.drop_last());
    }
}

/// What `trim_start` removes is whitespace, and what it leaves does not begin
/// with whitespace.
pub proof fn lemma_trim_start_splits(s: Seq<char>)
    ensures
        trim_start(s).len() <= s.len(),
        trim_start(s) == s.subrange(s.len() - trim_start(s).len(), s.len() as int),
        all_whitespace(s.subrange(0, s.len() - trim_start(s).len())),
        trim_start(s).len() > 0 ==> !is_whitespace(trim_start(s).first()),
    decreases s.len(),
{
    if s.len() > 0 && is_whitespace(s.first()) {
        let t = s.drop_first();
        lemma_trim_start_splits(t);
        let k = s.len() - trim_start(s).len();
        assert(trim_start(s) =~= s.subrange(k, s.len() as int));
        assert forall|i: int| 0 <= i < k implies is_whitespace(#[trigger] s.subrange(0, k)[i]) by {
            if i > 0 {
                assert(s.subrange(0, k)[i] == t.subrange(0, k - 1)[i - 1]);
            }
        }
    } else {
        assert(s =~= s.subrange(0, s.len() as int));
    }
}

/// What `trim_end` removes is whitespace, and what it leaves does not end
/// with whitespace.
pub proof fn lemma_trim_end_splits(s: Seq<char>)
    ensures
        trim_end(s).len() <= s.len(),
        trim_end(s) == s.subrange(0, trim_end(s).len() as int),
        all_whitespace(s.subrange(trim_end(s).len() as int, s.len() as int)),
        trim_end(s).len() > 0 ==> !is_whitespace(trim_end(s).last()),
    decreases s.len(),
{
    if s.len() > 0 && is_whitespace(s.last()) {
        let t = s.drop_last();
        lemma_trim_end_splits(t);
        let k = trim_end(s).len() as int;
        assert(trim_end(s) =~= s.subrange(0, k));
        assert forall|i: int| 0 <= i < s.len() - k implies is_whitespace(
            #[trigger] s.subrange(k, s.len() as int)[i],
        ) by {
            if i < s.len() - k - 1 {
                assert(s.subrange(k, s.len() as int)[i] == t.subrange(k, t.len() as int)[i]);
            }
        }
    } else {
        assert(s =~= s.subrange(0, s.len() as int));
    }
}

/// A text is its trimmed form with whitespace, and nothing else, before and
/// after it; the trimmed form is free of surrounding whitespace.
pub proof fn lemma_trim_splits(s: Seq<char>) -> (pads: (Seq<char>, Seq<char>))
    ensures
        s == pads.0 + trim(s) + pads.1,
        all_whitespace(pads.0),
        all_whitespace(pads.1),
        is_trimmed(trim(s)),
{
    let t = trim_start(s);
    lemma_trim_start_splits(s);
    lemma_trim_end_splits(t);
    let before = s.subrange(0, s.len() - t.len());
    let after = t.subrange(trim(s).len() as int, t.len() as int);
    assert(t =~= trim(s) + after);
    assert(s =~= before + trim(s) + after);
    if trim(s).len() > 0 {
        assert(trim(s).first() == t.first());
    }
    (before, after)
}

/// A text that is free of surrounding whitespace, with whitespace put before
/// and after it, trims back to itself.
pub proof fn lemma_trim_of_padded(before: Seq<char>, core: Seq<char>, after: Seq<char>)
    requires
        all_whitespace(before),
        all_whitespace(after),
        is_trimmed(core),
    ensures
        trim(before + core + after) == core,
{
    assert(before + core + after =~= before + (core + after));
    lemma_trim_start_skips(before, core + after);
    if core.len() > 0 {
        assert((core + after).first() == core.first());
        assert(trim_start(core + after) == core + after);
        lemma_trim_end_skips(core, after);
    } else {
        assert(core + after =~= after + core);
        lemma_trim_start_skips(after, core);
    }
}

/// Trimming a text that is free of surrounding whitespace leaves it as it is.
pub proof fn lemma_trim_of_trimmed(s: Seq<char>)
    requires
        is_trimmed(s),
    ensures
        trim(s) == s,
{
    lemma_trim_of_padded(Seq::empty(), s, Seq::empty());
    assert(Seq::<char>::empty() + s + Seq::<char>::empty() =~= s);
}

/// Trimming is idempotent: trimming a second time changes nothing.
pub proof fn lemma_trim_idempotent(s: Seq<char>)
    ensures
        trim(trim(s)) == trim(s),
{
    let _ = lemma_trim_splits(s);
    lemma_trim_of_trimmed(trim(s));
}

} // verus!
