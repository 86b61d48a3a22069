//! Merging neighbouring ranges while the budget allows it.
//!
//! The ranges are walked from left to right with one range, the last that was
//! emitted, kept open. A range joins the open one when the tokens of the two
//! together stay strictly below the budget; otherwise it becomes the open
//! range itself. A pair that would reach the budget exactly is not merged.

use vstd::prelude::*;
use vstd::string::StringSliceAdditionalSpecFns;

use crate::span::{all_fit, contiguous, lemma_drop_last, tiles, Span};
use crate::text::slice;
use crate::token::{span_tokens, TokenCounter};

verus! {

/// No range of `spans` is inverted, and none begins before the one in front of
/// it has ended.
pub open spec fn ascending(spans: Seq<Span>) -> bool {
    &&& forall|i: int| 0 <= i < spans.len() ==> (#[trigger] spans[i]).start <= spans[i].end
    &&& forall|i: int, j: int|
        0 <= i && j == i + 1 && j < spans.len() ==> (#[trigger] spans[i]).end <= (
        #[trigger] spans[j]).start
}

/// A row of ranges in ascending order stays so without its last range, and
/// its last range begins no earlier than the one before it ends.
pub proof fn lemma_ascending_drop_last(spans: Seq<Span>)
    requires
        ascending(spans),
        spans.len() > 0,
    ensures
        ascending(spans.drop_last()),
        spans.last().start <= spans.last().end,
        spans.len() > 1 ==> spans.drop_last().last().end <= spans.last().start,
{
    let head = spans.drop_last();
    assert forall|i: int| 0 <= i < head.len() implies (#[trigger] head[i]).start <= head[i].end by {
        assert(head[i] == spans[i]);
    }
    assert forall|i: int, j: int| 0 <= i && j == i + 1 && j < head.len() implies (
    #[trigger] head[i]).end <= (#[trigger] head[j]).start by {
        assert(spans[i].end <= spans[j].start);
    }
    if spans.len() > 1 {
        assert(head.last() == spans[spans.len() - 2]);
        assert(spans[spans.len() - 2].end <= spans[spans.len() - 1].start);
    }
}

/// Whether `next` joins the open range `open` under the budget `max_tokens`.
pub open spec fn joins<C: TokenCounter>(
    counter: &C,
    max_tokens: usize,
    bytes: Seq<u8>,
    open: Span,
    next: Span,
) -> bool {
    span_tokens(counter, bytes, open) + span_tokens(counter, bytes, next) < max_tokens
}

/// The result of merging `spans` from left to right.
pub open spec fn merged<C: TokenCounter>(
    counter: &C,
    max_tokens: usize,
    bytes: Seq<u8>,
    spans: Seq<Span>,
) -> Seq<Span>
    decreases spans.len(),
{
    if spans.len() == 0 {
        Seq::empty()
    } else {
        let before = merged(counter, max_tokens, bytes, spans.drop_last());
        let next = spans.last();
        if before.len() > 0 && joins(counter, max_tokens, bytes, before.last(), next) {
            before.drop_last().push(Span { start: before.last().start, end: next.end })
        } else {
            before.push(next)
        }
    }
}

/// Merging keeps the outer ends, the order and the fit of the ranges.
pub proof fn lemma_merged_shape<C: TokenCounter>(
    counter: &C,
    max_tokens: usize,
    bytes: Seq<u8>,
    spans: Seq<Span>,
)
    requires
        ascending(spans),
    ensures
        ascending(merged(counter, max_tokens, bytes, spans)),
        merged(counter, max_tokens, bytes, spans).len() <= spans.len(),
        spans.len() > 0 ==> {
            let out = merged(counter, max_tokens, bytes, spans);
            &&& out.len() > 0
            &&& out[0].start == spans[0].start
            &&& out.last().end == spans.last().end
        },
        all_fit(spans, bytes) ==> all_fit(merged(counter, max_tokens, bytes, spans), bytes),
        contiguous(spans) ==> contiguous(merged(counter, max_tokens, bytes, spans)),
    decreases spans.len(),
{
    if spans.len() > 0 {
        let head = spans.drop_last();
        let next = spans.last();
        let before = merged(counter, max_tokens, bytes, head);
        let out = merged(counter, max_tokens, bytes, spans);
        lemma_ascending_drop_last(spans);
        lemma_drop_last(spans, bytes);
        lemma_merged_shape(counter, max_tokens, bytes, head);
        if head.len() > 0 {
            assert(head[0] == spans[0]);
        }
        let joined = before.len() > 0 && joins(counter, max_tokens, bytes, before.last(), next);
        assert forall|i: int| 0 <= i < out.len() implies (#[trigger] out[i]).start
            <= out[i].end by {
            if i < out.len() - 1 {
                assert(out[i] == before[i]);
            }
        }
        assert forall|i: int, j: int| 0 <= i && j == i + 1 && j < out.len() implies (
        #[trigger] out[i]).end <= (#[trigger] out[j]).start by {
            assert(out[i] == before[i]);
            if j < before.len() {
                assert(before[i].end <= before[j].start);
            }
        }
        if all_fit(spans, bytes) {
            assert(next.fits(bytes));
            if joined {
                assert(before.last().fits(bytes));
            }
            assert forall|i: int| 0 <= i < out.len() implies (#[trigger] out[i]).fits(bytes) by {
                if i < out.len() - 1 {
                    assert(out[i] == before[i]);
                }
            }
        }
        if contiguous(spans) {
            if spans.len() > 1 {
                assert(head.last() == spans[spans.len() - 2]);
                assert(spans[spans.len() - 2].end == spans[spans.len() - 1].start);
            }
            assert forall|i: int, j: int| 0 <= i && j == i + 1 && j < out.len() implies (
            #[trigger] out[i]).end == (#[trigger] out[j]).start by {
                assert(out[i] == before[i]);
                if j < before.len() {
                    assert(before[i].end == before[j].start);
                }
            }
        }
    }
}

/// A cover is in ascending order.
pub proof fn lemma_tiles_ascending(spans: Seq<Span>)
    requires
        crate::span::contiguous(spans),
        forall|i: int| 0 <= i < spans.len() ==> (#[trigger] spans[i]).start <= spans[i].end,
    ensures
        ascending(spans),
{
    assert forall|i: int, j: int| 0 <= i && j == i + 1 && j < spans.len() implies (
    #[trigger] spans[i]).end <= (#[trigger] spans[j]).start by {
        assert(spans[i].end == spans[j].start);
    }
}

/// Merging a cover of `[lo, hi)` gives a cover of `[lo, hi)`.
pub proof fn lemma_merged_tiles<C: TokenCounter>(
    counter: &C,
    max_tokens: usize,
    bytes: Seq<u8>,
    spans: Seq<Span>,
    lo: usize,
    hi: usize,
)
    requires
        tiles(spans, lo, hi),
    ensures
        tiles(merged(counter, max_tokens, bytes, spans), lo, hi),
{
    lemma_tiles_ascending(spans);
    lemma_merged_shape(counter, max_tokens, bytes, spans);
}

/// Merges `spans` from left to right under the budget `max_tokens`.
pub fn merge_spans<C: TokenCounter>(
    counter: &C,
    max_tokens: usize,
    text: &str,
    spans: &Vec<Span>,
) -> (out: Vec<Span>)
    requires
        ascending(spans@),
        all_fit(spans@, text.spec_bytes()),
    ensures
        out@ == merged(counter, max_tokens, text.spec_bytes(), spans@),
        ascending(out@),
        all_fit(out@, text.spec_bytes()),
        contiguous(spans@) ==> contiguous(out@),
        spans.len() > 0 ==> out.len() > 0 && out@[0].start == spans@[0].start && out@.last().end
            == spans@.last().end,
        spans.len() == 0 ==> out.len() == 0,
{
    let ghost bytes = text.spec_bytes();
    let mut out: Vec<Span> = Vec::new();
    let mut i: usize = 0;
    while i < spans.len()
        invariant
            i <= spans.len(),
            bytes == text.spec_bytes(),
            ascending(spans@),
            all_fit(spans@, bytes),
            out@ == merged(counter, max_tokens, bytes, spans@.take(i as int)),
            all_fit(out@, bytes),
            i > 0 ==> out.len() > 0 && out@.last().end == spans@[i - 1].end,
            i == 0 ==> out.len() == 0,
        decreases spans.len() - i,
    {
        let next: Span = spans[i];
        proof {
            assert(spans@.take(i + 1).drop_last() =~= spans@.take(i as int));
            assert(spans@.take(i + 1).last() == next);
            assert(next.fits(bytes));
            if i > 0 {
                assert(spans@[i - 1].end <= spans@[i as int].start);
            }
        }
        let mut joined: bool = false;
        if out.len() > 0 {
            let open: Span = out[out.len() - 1];
            assert(open.fits(bytes));
            let held: usize = counter.count(slice(text, open.start, open.end));
            let more: usize = counter.count(slice(text, next.start, next.end));
            if held < max_tokens && more < max_tokens - held {
                out.pop();
                out.push(Span { start: open.start, end: next.end });
                joined = true;
            }
        }
        if !joined {
            out.push(next);
        }
        proof {
            assert forall|k: int| 0 <= k < out@.len() implies (#[trigger] out@[k]).fits(bytes) by {
                if k < out@.len() - 1 {
                    assert(out@[k] == merged(counter, max_tokens, bytes, spans@.take(i as int))[k]);
                }
            }
        }
        i = i + 1;
    }
    proof {
        assert(spans@.take(spans.len() as int) =~= spans@);
        lemma_merged_shape(counter, max_tokens, bytes, spans@);
    }
    out
}

/// Merging is as eager as the rule allows: where two ranges stand side by side
/// in the result, the right one began with a range that the left one, as it
/// stands in the result, could not take in without reaching the budget.
pub proof fn lemma_merge_maximal<C: TokenCounter>(
    counter: &C,
    max_tokens: usize,
    bytes: Seq<u8>,
    spans: Seq<Span>,
)
    requires
        ascending(spans),
    ensures
        forall|i: int, j: int|
            0 <= i && j == i + 1 && j < merged(counter, max_tokens, bytes, spans).len()
                ==> began_beyond(
                counter,
                max_tokens,
                bytes,
                spans,
                #[trigger] merged(counter, max_tokens, bytes, spans)[i],
                #[trigger] merged(counter, max_tokens, bytes, spans)[j],
            ),
    decreases spans.len(),
{
    if spans.len() > 0 {
        let head = spans.drop_last();
        let next = spans.last();
        let before = merged(counter, max_tokens, bytes, head);
        let out = merged(counter, max_tokens, bytes, spans);
        lemma_ascending_drop_last(spans);
        lemma_merge_maximal(counter, max_tokens, bytes, head);
        lemma_merged_shape(counter, max_tokens, bytes, head);
        assert forall|i: int, j: int| 0 <= i && j == i + 1 && j < out.len() implies began_beyond(
            counter,
            max_tokens,
            bytes,
            spans,
            #[trigger] out[i],
            #[trigger] out[j],
        ) by {
            if before.len() > 0 && joins(counter, max_tokens, bytes, before.last(), next) {
                assert(out[i] == before[i]);
                let k = choose|k: int|
                    begins_with(counter, max_tokens, bytes, head, before[i], before[j], k);
                assert(begins_with(counter, max_tokens, bytes, head, before[i], before[j], k));
                assert(head[k] == spans[k]);
                assert(before[j].start <= before[j].end);
                assert(begins_with(counter, max_tokens, bytes, spans, out[i], out[j], k));
            } else if j < before.len() {
                assert(out[i] == before[i]);
                assert(out[j] == before[j]);
                let k = choose|k: int|
                    begins_with(counter, max_tokens, bytes, head, before[i], before[j], k);
                assert(begins_with(counter, max_tokens, bytes, head, before[i], before[j], k));
                assert(head[k] == spans[k]);
                assert(begins_with(counter, max_tokens, bytes, spans, out[i], out[j], k));
            } else {
                assert(out[i] == before.last());
                assert(out[j] == next);
                let last = spans.len() - 1;
                assert(begins_with(counter, max_tokens, bytes, spans, out[i], out[j], last));
            }
        }
    }
}

/// `spans[k]` is the range with which `right` began, and `left` could not take
/// it in without reaching the budget.
pub open spec fn begins_with<C: TokenCounter>(
    counter: &C,
    max_tokens: usize,
    bytes: Seq<u8>,
    spans: Seq<Span>,
    left: Span,
    right: Span,
    k: int,
) -> bool {
    &&& 0 <= k < spans.len()
    &&& spans[k].start == right.start
    &&& spans[k].start <= spans[k].end <= right.end
    &&& span_tokens(counter, bytes, left) + span_tokens(counter, bytes, spans[k]) >= max_tokens
}

/// `right` began with a range of `spans` that `left` could not take in without
/// reaching the budget.
pub open spec fn began_beyond<C: TokenCounter>(
    counter: &C,
    max_tokens: usize,
    bytes: Seq<u8>,
    spans: Seq<Span>,
    left: Span,
    right: Span,
) -> bool {
    exists|k: int| begins_with(counter, max_tokens, bytes, spans, left, right, k)
}

} // verus!
