//! The value of a `Transfer-Encoding` field: a list of codings, separated by
//! commas, in the order in which they were applied. It is read from its end,
//! which is the order in which the codings are to be undone.

use crate::encoding::{classify, TransferEncoding, TransferEncodingView};
use crate::scan;
use vstd::prelude::*;

verus! {

/// The items of a comma-separated list, in the order in which they are
/// listed. Every comma separates two items, so a text with `k` commas has
/// `k + 1` items, some of which may be empty; the empty text has one empty
/// item.
pub open spec fn split_commas(s: Seq<char>) -> Seq<Seq<char>>
    decreases s.len(),
{
    if s.len() == 0 {
        seq![Seq::empty()]
    } else {
        let items = split_commas(s.drop_last());
        if s.last() == ',' {
            items.push(Seq::empty())
        } else {
            items.drop_last().push(items.last().push(s.last()))
        }
    }
}

/// The items, with a comma between each two of them.
pub open spec fn join_commas(items: Seq<Seq<char>>) -> Seq<char>
    decreases items.len(),
{
    if items.len() == 0 {
        Seq::empty()
    } else if items.len() == 1 {
        items[0]
    } else {
        join_commas(items.drop_last()) + seq![','] + items.last()
    }
}

/// No item holds a comma.
pub open spec fn comma_free(items: Seq<Seq<char>>) -> bool {
    forall|i: int| 0 <= i < items.len() ==> !(#[trigger] items[i]).contains(',')
}

/// The number of commas in `s`.
pub open spec fn comma_count(s: Seq<char>) -> nat {
    s.filter(|c: char| c == ',').len()
}

/// The codings of a field value in the order in which they are to be undone:
/// the last item listed comes first, the first one last.
pub open spec fn decode_order(s: Seq<char>) -> Seq<TransferEncodingView> {
    let items = split_commas(s);
    Seq::new(items.len(), |i: int| classify(items[items.len() - 1 - i]))
}

/// The codings of a field value, one at a time, in the order in which they
/// are to be undone. Nothing is computed before it is asked for, and nothing
/// is copied: each name handed out is a slice of the field value.
#[derive(Debug)]
pub struct TransferEncodings<'a> {
    /// The part of the field value that is still to be read; `None` once the
    /// first item listed has been handed out.
    rest: Option<&'a str>,
}

impl<'a> View for TransferEncodings<'a> {
    type V = Seq<TransferEncodingView>;

    /// The codings that are still to come, the next one first.
    closed spec fn view(&self) -> Seq<TransferEncodingView> {
        match self.rest {
            Some(s) => decode_order(s@),
            None => Seq::empty(),
        }
    }
}

/// Reads the codings of the field value `s`, the last one listed first.
pub fn transfer_encodings<'a>(s: &'a str) -> (r: TransferEncodings<'a>)
    ensures
        r@ == decode_order(s@),
        r@.len() == comma_count(s@) + 1,
{
    proof {
        lemma_segment_count(s@);
    }
    TransferEncodings { rest: Some(s) }
}

impl<'a> TransferEncodings<'a> {
    /// Hands out the next coding, or `None` once all have been handed out,
    /// and from then on.
    pub fn next(&mut self) -> (r: Option<TransferEncoding<'a>>)
        ensures
            r is None <==> old(self)@.len() == 0,
            r is None ==> final(self)@ == old(self)@,
            r matches Some(e) ==> {
                &&& e@ == old(self)@.first()
                &&& e@.is_canonical()
                &&& final(self)@ == old(self)@.drop_first()
            },
    {
        match self.rest {
            None => None,
            Some(s) => {
                match scan::rsplit_comma(s) {
                    None => {
                        proof {
                            lemma_decode_order_single(s@);
                        }
                        self.rest = None;
                        Some(TransferEncoding::new(s))
                    },
                    Some((head, tail)) => {
                        proof {
                            lemma_decode_order_last(head@, tail@);
                        }
                        self.rest = Some(head);
                        Some(TransferEncoding::new(tail))
                    },
                }
            },
        }
    }

    /// Hands out all the codings that are still to come, the next one first.
    pub fn collect(self) -> (r: Vec<TransferEncoding<'a>>)
        ensures
            r@.len() == self@.len(),
            forall|i: int| 0 <= i < r@.len() ==> (#[trigger] r@[i])@ == self@[i],
            forall|i: int| 0 <= i < r@.len() ==> (#[trigger] r@[i])@.is_canonical(),
    {
        let ghost all = self@;
        let mut rest = self;
        let mut codings: Vec<TransferEncoding<'a>> = Vec::new();
        loop
            invariant
                all == self@,
                rest@ == all.subrange(codings@.len() as int, all.len() as int),
                codings@.len() <= all.len(),
                forall|i: int| 0 <= i < codings@.len() ==> (#[trigger] codings@[i])@ == all[i],
                forall|i: int| 0 <= i < codings@.len() ==> (#[trigger] codings@[i])@.is_canonical(),
            decreases rest@.len(),
        {
            match rest.next() {
                Some(e) => codings.push(e),
                None => return codings,
            }
        }
    }
}

/// A text without a comma is a list of one item, itself.
pub proof fn lemma_split_single(s: Seq<char>)
    requires
        !s.contains(','),
    ensures
        split_commas(s) == seq![s],
    decreases s.len(),
{
    if s.len() == 0 {
        assert(s =~= Seq::empty());
    } else {
        let init = s.drop_last();
        assert(s.last() == s[s.len() - 1]);
        assert forall|i: int| 0 <= i < init.len() implies init[i] != ',' by {
            assert(init[i] == s[i]);
        }
        lemma_split_single(init);
        assert(init.push(s.last()) =~= s);
        assert(seq![init].drop_last().push(s) =~= seq![s]);
    }
}

/// An item without a comma, put behind a list and a comma, is the last item
/// of the longer list.
pub proof fn lemma_split_push(head: Seq<char>, tail: Seq<char>)
    requires
        !tail.contains(','),
    ensures
        split_commas(head + seq![','] + tail) == split_commas(head).push(tail),
    decreases tail.len(),
{
    let s = head + seq![','] + tail;
    if tail.len() == 0 {
        assert(s.drop_last() =~= head);
        assert(tail =~= Seq::empty());
    } else {
        let init = tail.drop_last();
        assert(tail.last() == tail[tail.len() - 1]);
        assert forall|i: int| 0 <= i < init.len() implies init[i] != ',' by {
            assert(init[i] == tail[i]);
        }
        lemma_split_push(head, init);
        assert(s.drop_last() =~= head + seq![','] + init);
        assert(s.last() == tail.last());
        assert(init.push(tail.last()) =~= tail);
        assert(split_commas(head).push(init).drop_last() =~= split_commas(head));
    }
}

/// A list always has a first item, no item holds a comma, and the items with
/// commas between them are the text that was split.
pub proof fn lemma_split_join(s: Seq<char>)
    ensures
        split_commas(s).len() >= 1,
        comma_free(split_commas(s)),
        join_commas(split_commas(s)) == s,
    decreases s.len(),
{
    let items = split_commas(s);
    if s.len() == 0 {
        assert(join_commas(items) =~= s);
        assert(!items[0].contains(','));
    } else {
        let init = split_commas(s.drop_last());
        lemma_split_join(s.drop_last());
        if s.last() == ',' {
            assert(items.drop_last() =~= init);
            assert(join_commas(items) =~= s);
            assert forall|i: int| 0 <= i < items.len() implies !(#[trigger] items[i]).contains(
                ',',
            ) by {
                if i < init.len() {
                    assert(items[i] == init[i]);
                }
            }
        } else {
            let last = init.last().push(s.last());
            assert(!init.last().contains(','));
            assert forall|k: int| 0 <= k < last.len() implies last[k] != ',' by {
                if k < init.last().len() {
                    assert(last[k] == init.last()[k]);
                }
            }
            assert forall|i: int| 0 <= i < items.len() implies !(#[trigger] items[i]).contains(
                ',',
            ) by {
                if i < init.len() - 1 {
                    assert(items[i] == init[i]);
                }
            }
            if init.len() == 1 {
                assert(join_commas(items) =~= s);
            } else {
                assert(items.drop_last() =~= init.drop_last());
                assert(join_commas(items) =~= join_commas(init).push(s.last()));
                assert(join_commas(items) =~= s);
            }
        }
    }
}

/// Splitting undoes joining: items without commas, joined by commas, are
/// split into the same items.
pub proof fn lemma_join_split(items: Seq<Seq<char>>)
    requires
        items.len() >= 1,
        comma_free(items),
    ensures
        split_commas(join_commas(items)) == items,
    decreases items.len(),
{
    if items.len() == 1 {
        lemma_split_single(items[0]);
        assert(seq![items[0]] =~= items);
    } else {
        let init = items.drop_last();
        assert forall|i: int| 0 <= i < init.len() implies !(#[trigger] init[i]).contains(',') by {
            assert(init[i] == items[i]);
        }
        lemma_join_split(init);
        lemma_split_push(join_commas(init), items.last());
        assert(init.push(items.last()) =~= items);
    }
}

/// A field value with `k` commas has `k + 1` items, and as many codings.
pub proof fn lemma_segment_count(s: Seq<char>)
    ensures
        split_commas(s).len() == comma_count(s) + 1,
        decode_order(s).len() == comma_count(s) + 1,
    decreases s.len(),
{
    reveal(Seq::filter);
    if s.len() > 0 {
        lemma_segment_count(s.drop_last());
    }
}

/// A field value without a comma yields one coding, that of the whole value.
pub proof fn lemma_decode_order_single(s: Seq<char>)
    requires
        !s.contains(','),
    ensures
        decode_order(s) == seq![classify(s)],
{
    lemma_split_single(s);
    assert(decode_order(s) =~= seq![classify(s)]);
}

/// The coding listed last is yielded first, and the codings listed before it
/// follow as they would without it.
pub proof fn lemma_decode_order_last(head: Seq<char>, tail: Seq<char>)
    requires
        !tail.contains(','),
    ensures
        decode_order(head + seq![','] + tail) == seq![classify(tail)] + decode_order(head),
{
    lemma_split_push(head, tail);
    assert(decode_order(head + seq![','] + tail) =~= seq![classify(tail)] + decode_order(head));
}

/// The codings of a list of items come in the strict reverse of the order in
/// which the items are listed, one coding for each item.
pub proof fn lemma_listed_order(items: Seq<Seq<char>>)
    requires
        items.len() >= 1,
        comma_free(items),
    ensures
        decode_order(join_commas(items)).len() == items.len(),
        forall|i: int|
            0 <= i < items.len() ==> #[trigger] decode_order(join_commas(items))[i] == classify(
                items[items.len() - 1 - i],
            ),
{
    lemma_join_split(items);
}

} // verus!
