//! One transfer coding: the four standard codings, and the classification of
//! a single token of a `Transfer-Encoding` field value.

use core::str::FromStr;

use crate::scan;
use crate::text::{
    all_whitespace, eq_ignore_ascii_case, is_ascii_letter, is_trimmed, lemma_trim_idempotent,
    lemma_trim_of_padded, lemma_trim_splits, to_ascii_lower, trim,
};
use vstd::prelude::*;

verus! {

/// Standard transfer coding, as registered for HTTP.
#[derive(Copy, Clone, Eq, PartialEq, Debug, Hash, Structural)]
pub enum StdTransferEncoding {
    /// Split into a series of chunks.
    Chunked,
    /// UNIX "compress" data format.
    Compress,
    /// Deflate compressed data format.
    Deflate,
    /// Gzip compressed data format.
    Gzip,
}

/// HTTP transfer coding.
#[derive(Copy, Clone, Eq, PartialEq, Debug, Hash)]
pub enum TransferEncoding<'a> {
    /// Standard coding.
    Std(StdTransferEncoding),
    /// Unknown or nonstandard coding with the contained name.
    ///
    /// A name that this library hands out has no surrounding whitespace. It is
    /// to be compared to other names without regard to case.
    Other(&'a str),
}

/// What a `TransferEncoding` stands for: a standard coding, or the characters
/// of another coding's name.
pub enum TransferEncodingView {
    Std(StdTransferEncoding),
    Other(Seq<char>),
}

impl TransferEncodingView {
    /// The form in which this library hands a coding out: a name under `Other`
    /// has no surrounding whitespace and is not the name of a standard coding
    /// in any case.
    pub open spec fn is_canonical(self) -> bool {
        match self {
            TransferEncodingView::Std(_) => true,
            TransferEncodingView::Other(name) => is_trimmed(name) && standard_encoding(name)
                is None,
        }
    }
}

impl<'a> View for TransferEncoding<'a> {
    type V = TransferEncodingView;

    open spec fn view(&self) -> TransferEncodingView {
        match *self {
            TransferEncoding::Std(e) => TransferEncodingView::Std(e),
            TransferEncoding::Other(name) => TransferEncodingView::Other(name@),
        }
    }
}

impl StdTransferEncoding {
    /// The registered name of the coding, in lower case.
    pub open spec fn name(self) -> Seq<char> {
        match self {
            StdTransferEncoding::Chunked => seq!['c', 'h', 'u', 'n', 'k', 'e', 'd'],
            StdTransferEncoding::Compress => seq!['c', 'o', 'm', 'p', 'r', 'e', 's', 's'],
            StdTransferEncoding::Deflate => seq!['d', 'e', 'f', 'l', 'a', 't', 'e'],
            StdTransferEncoding::Gzip => seq!['g', 'z', 'i', 'p'],
        }
    }

    /// `s` is the name of the coding, in any mix of upper and lower case.
    pub open spec fn named_by(self, s: Seq<char>) -> bool {
        eq_ignore_ascii_case(s, self.name())
    }
}

impl FromStr for StdTransferEncoding {
    type Err = ();

    /// The standard coding that `s` names, in any mix of upper and lower case.
    /// `s` is taken as it is: surrounding whitespace is part of it.
    fn from_str(s: &str) -> (r: Result<StdTransferEncoding, ()>)
        ensures
            r == match standard_encoding(s@) {
                Some(e) => Ok::<StdTransferEncoding, ()>(e),
                None => Err(()),
            },
    {
        proof {
            reveal_strlit("chunked");
            reveal_strlit("compress");
            reveal_strlit("deflate");
            reveal_strlit("gzip");
            assert("chunked"@ =~= StdTransferEncoding::Chunked.name());
            assert("compress"@ =~= StdTransferEncoding::Compress.name());
            assert("deflate"@ =~= StdTransferEncoding::Deflate.name());
            assert("gzip"@ =~= StdTransferEncoding::Gzip.name());
        }
        // Names are case-insensitive.
        if scan::eq_ignore_ascii_case(s, "chunked") {
            Ok(StdTransferEncoding::Chunked)
        } else if scan::eq_ignore_ascii_case(s, "compress") {
            Ok(StdTransferEncoding::Compress)
        } else if scan::eq_ignore_ascii_case(s, "deflate") {
            Ok(StdTransferEncoding::Deflate)
        } else if scan::eq_ignore_ascii_case(s, "gzip") {
            Ok(StdTransferEncoding::Gzip)
        } else {
            Err(())
        }
    }
}

/// The standard coding that `s` names, if it names one.
pub open spec fn standard_encoding(s: Seq<char>) -> Option<StdTransferEncoding> {
    if StdTransferEncoding::Chunked.named_by(s) {
        Some(StdTransferEncoding::Chunked)
    } else if StdTransferEncoding::Compress.named_by(s) {
        Some(StdTransferEncoding::Compress)
    } else if StdTransferEncoding::Deflate.named_by(s) {
        Some(StdTransferEncoding::Deflate)
    } else if StdTransferEncoding::Gzip.named_by(s) {
        Some(StdTransferEncoding::Gzip)
    } else {
        None
    }
}

/// The coding that a token of the field value stands for: the token is
/// trimmed, and is then a standard coding's name or the name of another.
pub open spec fn classify(token: Seq<char>) -> TransferEncodingView {
    match standard_encoding(trim(token)) {
        Some(e) => TransferEncodingView::Std(e),
        None => TransferEncodingView::Other(trim(token)),
    }
}

impl<'a> TransferEncoding<'a> {
    /// Parses the coding that the token `s` stands for. A name that is not a
    /// standard one is handed back as the trimmed part of `s` itself.
    pub fn new(s: &'a str) -> (r: TransferEncoding<'a>)
        ensures
            r@ == classify(s@),
            r@.is_canonical(),
    {
        let name = scan::trim(s);
        proof {
            let _ = lemma_trim_splits(s@);
        }
        match StdTransferEncoding::from_str(name) {
            Ok(e) => TransferEncoding::Std(e),
            Err(_) => TransferEncoding::Other(name),
        }
    }
}

/// A standard name is four to eight lower-case ASCII letters.
pub proof fn lemma_name_is_lower_case(e: StdTransferEncoding)
    ensures
        4 <= e.name().len() <= 8,
        forall|k: int| 0 <= k < e.name().len() ==> 'a' <= #[trigger] e.name()[k] <= 'z',
{
}

/// A text that names a standard coding is made of ASCII letters, as many as
/// the name has.
pub proof fn lemma_named_by_letters(e: StdTransferEncoding, s: Seq<char>)
    requires
        e.named_by(s),
    ensures
        s.len() == e.name().len(),
        forall|i: int| 0 <= i < s.len() ==> is_ascii_letter(#[trigger] s[i]),
{
    lemma_name_is_lower_case(e);
    assert forall|i: int| 0 <= i < s.len() implies is_ascii_letter(#[trigger] s[i]) by {
        assert('a' <= e.name()[i] <= 'z');
    }
}

/// The four standard names are distinct in every case: a text names at most
/// one standard coding, so the order in which the names are tried does not
/// matter.
pub proof fn lemma_standard_encoding_unique(s: Seq<char>, e: StdTransferEncoding)
    ensures
        e.named_by(s) <==> standard_encoding(s) == Some(e),
{
    if e.named_by(s) {
        let f = standard_encoding(s)->0;
        assert(f.named_by(s));
        if f != e {
            assert(e.name().len() == s.len() && f.name().len() == s.len());
            assert(s.len() == 7);
            assert(to_ascii_lower(s[0]) == to_ascii_lower(e.name()[0]));
            assert(to_ascii_lower(s[0]) == to_ascii_lower(f.name()[0]));
            assert(e.name()[0] != f.name()[0]);
        }
    }
}

/// A standard name in any case, with nothing but whitespace before and after
/// it, is classified as that standard coding.
pub proof fn lemma_padded_name_is_standard(
    before: Seq<char>,
    name: Seq<char>,
    after: Seq<char>,
    e: StdTransferEncoding,
)
    requires
        all_whitespace(before),
        all_whitespace(after),
        e.named_by(name),
    ensures
        classify(before + name + after) == TransferEncodingView::Std(e),
{
    lemma_named_by_letters(e, name);
    lemma_name_is_lower_case(e);
    assert(is_ascii_letter(name.first()) && is_ascii_letter(name.last()));
    lemma_trim_of_padded(before, name, after);
    lemma_standard_encoding_unique(name, e);
}

/// A token whose trimmed form holds anything but ASCII letters, such as
/// whitespace between two words, a digit or a hyphen, is no standard coding:
/// it is classified as `Other`, with the token less its surrounding
/// whitespace, and nothing else, as the name.
pub proof fn lemma_non_letter_is_other(token: Seq<char>, i: int)
    requires
        0 <= i < trim(token).len(),
        !is_ascii_letter(trim(token)[i]),
    ensures
        classify(token) == TransferEncodingView::Other(trim(token)),
{
    if standard_encoding(trim(token)) is Some {
        let e = standard_encoding(trim(token))->0;
        lemma_standard_encoding_unique(trim(token), e);
        lemma_named_by_letters(e, trim(token));
    }
}

/// Classification yields the canonical form, and surrounding whitespace is
/// all that it takes from a name that is not standard.
pub proof fn lemma_classify_canonical(token: Seq<char>) -> (pads: (Seq<char>, Seq<char>))
    ensures
        classify(token).is_canonical(),
        classify(token) matches TransferEncodingView::Other(name) ==> token == pads.0 + name
            + pads.1,
        all_whitespace(pads.0),
        all_whitespace(pads.1),
{
    lemma_trim_splits(token)
}

/// Classifying a name that classification handed out yields the same name:
/// trimming and classifying are idempotent.
pub proof fn lemma_classify_idempotent(token: Seq<char>)
    ensures
        classify(trim(token)) == classify(token),
        classify(token) matches TransferEncodingView::Other(name) ==> classify(name)
            == classify(token),
{
    lemma_trim_idempotent(token);
}

} // verus!
