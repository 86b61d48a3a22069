//! The fallback splitter: cutting a range that has no inner structure into
//! consecutive windows.
//!
//! A window holds at most `max_tokens` bytes and ends between two characters.
//! Where not even one character fits into that many bytes, the window is that
//! one character.

use vstd::prelude::*;
use vstd::string::StringSliceAdditionalSpecFns;
use vstd::utf8::is_char_boundary;

use crate::span::{all_fit, lemma_all_fit_concat, lemma_tiles_concat, tiles, Span};

verus! {

/// Whether the window of `[start, end)` that begins at `start` ends at `cut`.
///
/// The cut is the last character boundary that is at most `max_tokens` bytes
/// after `start`. If there is none, it is the first character boundary after
/// `start`.
pub open spec fn is_cut(
    bytes: Seq<u8>,
    start: usize,
    end: usize,
    max_tokens: usize,
    cut: usize,
) -> bool {
    &&& start < cut <= end
    &&& is_char_boundary(bytes, cut as int)
    &&& if cut <= start + max_tokens {
        forall|b: int| cut < b <= end && b <= start + max_tokens ==> !is_char_boundary(bytes, b)
    } else {
        forall|b: int| start < b < cut ==> !is_char_boundary(bytes, b)
    }
}

/// The end of the window of `[start, end)` that begins at `start`.
pub open spec fn cut_point(bytes: Seq<u8>, start: usize, end: usize, max_tokens: usize) -> usize {
    choose|cut: usize| is_cut(bytes, start, end, max_tokens, cut)
}

/// A window has one end only.
pub proof fn lemma_cut_unique(
    bytes: Seq<u8>,
    start: usize,
    end: usize,
    max_tokens: usize,
    a: usize,
    b: usize,
)
    requires
        is_cut(bytes, start, end, max_tokens, a),
        is_cut(bytes, start, end, max_tokens, b),
    ensures
        a == b,
{
}

/// The windows that `[start, end)` falls into, in order.
pub open spec fn windows(bytes: Seq<u8>, start: usize, end: usize, max_tokens: usize) -> Seq<Span>
    decreases end - start,
{
    if start >= end {
        Seq::empty()
    } else {
        let cut = cut_point(bytes, start, end, max_tokens);
        if start < cut <= end {
            seq![Span { start, end: cut }] + windows(bytes, cut, end, max_tokens)
        } else {
            seq![Span { start, end }]
        }
    }
}

/// What the fallback splitter makes of `span`: its windows, or the range
/// itself where it is empty.
pub open spec fn split_spans(bytes: Seq<u8>, span: Span, max_tokens: usize) -> Seq<Span> {
    if span.start >= span.end {
        seq![span]
    } else {
        windows(bytes, span.start, span.end, max_tokens)
    }
}

/// Finds the end of the window of `[start, end)` that begins at `start`.
pub fn next_cut(text: &str, start: usize, end: usize, max_tokens: usize) -> (cut: usize)
    requires
        (Span { start, end }).fits(text.spec_bytes()),
        start < end,
    ensures
        is_cut(text.spec_bytes(), start, end, max_tokens, cut),
        cut == cut_point(text.spec_bytes(), start, end, max_tokens),
{
    let ghost bytes = text.spec_bytes();
    let limit: usize = if max_tokens < end - start {
        start + max_tokens
    } else {
        end
    };
    let mut cut: usize = limit;
    while cut > start && !text.is_char_boundary(cut)
        invariant
            start <= cut <= limit,
            bytes == text.spec_bytes(),
            forall|b: int| cut < b <= limit ==> !is_char_boundary(bytes, b),
        decreases cut,
    {
        cut = cut - 1;
    }
    if cut <= start {
        cut = limit + 1;
        while !text.is_char_boundary(cut)
            invariant
                limit < cut <= end,
                bytes == text.spec_bytes(),
                is_char_boundary(bytes, end as int),
                forall|b: int| start < b < cut ==> !is_char_boundary(bytes, b),
            decreases end - cut,
        {
            cut = cut + 1;
        }
    }
    proof {
        assert(is_cut(bytes, start, end, max_tokens, cut));
        let chosen = cut_point(bytes, start, end, max_tokens);
        lemma_cut_unique(bytes, start, end, max_tokens, cut, chosen);
    }
    cut
}

/// The windows of a fitting range cover it without gaps, and each fits.
pub proof fn lemma_windows_tile(bytes: Seq<u8>, start: usize, end: usize, max_tokens: usize)
    requires
        (Span { start, end }).fits(bytes),
    ensures
        tiles(windows(bytes, start, end, max_tokens), start, end),
        all_fit(windows(bytes, start, end, max_tokens), bytes),
        start < end ==> windows(bytes, start, end, max_tokens).len() > 0,
    decreases end - start,
{
    if start < end {
        let cut = cut_point(bytes, start, end, max_tokens);
        lemma_cut_exists(bytes, start, end, max_tokens);
        let head = seq![Span { start, end: cut }];
        let rest = windows(bytes, cut, end, max_tokens);
        lemma_windows_tile(bytes, cut, end, max_tokens);
        assert(tiles(head, start, cut));
        assert(all_fit(head, bytes));
        lemma_tiles_concat(head, rest, start, cut, end);
        lemma_all_fit_concat(head, rest, bytes);
    }
}

/// Every non-empty fitting range has a first window.
pub proof fn lemma_cut_exists(bytes: Seq<u8>, start: usize, end: usize, max_tokens: usize)
    requires
        (Span { start, end }).fits(bytes),
        start < end,
    ensures
        is_cut(bytes, start, end, max_tokens, cut_point(bytes, start, end, max_tokens)),
{
    let limit: int = if start + max_tokens < end {
        start + max_tokens
    } else {
        end as int
    };
    let low = lemma_last_boundary(bytes, start as int, limit);
    if low > start {
        assert(is_cut(bytes, start, end, max_tokens, low as usize));
    } else {
        let high = lemma_first_boundary(bytes, limit, end as int);
        assert(is_cut(bytes, start, end, max_tokens, high as usize));
    }
}

/// The last character boundary in `(start, limit]`, or `start` if there is none.
proof fn lemma_last_boundary(bytes: Seq<u8>, start: int, limit: int) -> (at: int)
    requires
        start <= limit,
    ensures
        start <= at <= limit,
        at > start ==> is_char_boundary(bytes, at),
        forall|b: int| at < b <= limit ==> !is_char_boundary(bytes, b),
    decreases limit - start,
{
    if limit == start {
        start
    } else if is_char_boundary(bytes, limit) {
        limit
    } else {
        lemma_last_boundary(bytes, start, limit - 1)
    }
}

/// The first character boundary after `from`, given that `end` is one.
proof fn lemma_first_boundary(bytes: Seq<u8>, from: int, end: int) -> (at: int)
    requires
        from < end,
        is_char_boundary(bytes, end),
    ensures
        from < at <= end,
        is_char_boundary(bytes, at),
        forall|b: int| from < b < at ==> !is_char_boundary(bytes, b),
    decreases end - from,
{
    if is_char_boundary(bytes, from + 1) {
        from + 1
    } else {
        lemma_first_boundary(bytes, from + 1, end)
    }
}

/// Each window ends at the cut for its start, none is empty, and two
/// neighbouring windows together are longer than the budget.
pub proof fn lemma_windows_full(bytes: Seq<u8>, start: usize, end: usize, max_tokens: usize)
    requires
        (Span { start, end }).fits(bytes),
    ensures
        forall|i: int|
            0 <= i < windows(bytes, start, end, max_tokens).len() ==> (#[trigger] windows(
                bytes,
                start,
                end,
                max_tokens,
            )[i]).start < windows(bytes, start, end, max_tokens)[i].end,
        forall|i: int, j: int|
            0 <= i && j == i + 1 && j < windows(bytes, start, end, max_tokens).len() ==> (
            #[trigger] windows(bytes, start, end, max_tokens)[j]).end - (#[trigger] windows(
                bytes,
                start,
                end,
                max_tokens,
            )[i]).start > max_tokens,
        forall|i: int|
            0 <= i < windows(bytes, start, end, max_tokens).len() ==> is_cut(
                bytes,
                (#[trigger] windows(bytes, start, end, max_tokens)[i]).start,
                end,
                max_tokens,
                windows(bytes, start, end, max_tokens)[i].end,
            ),
        start < end ==> windows(bytes, start, end, max_tokens).len() > 0 && windows(
            bytes,
            start,
            end,
            max_tokens,
        )[0].start == start,
    decreases end - start,
{
    if start < end {
        let all = windows(bytes, start, end, max_tokens);
        let cut = cut_point(bytes, start, end, max_tokens);
        lemma_cut_exists(bytes, start, end, max_tokens);
        let rest = windows(bytes, cut, end, max_tokens);
        lemma_windows_full(bytes, cut, end, max_tokens);
        assert(all == seq![Span { start, end: cut }] + rest);
        assert forall|i: int| 0 <= i < all.len() implies (#[trigger] all[i]).start
            < all[i].end by {
            if i > 0 {
                assert(all[i] == rest[i - 1]);
            }
        }
        assert forall|i: int| 0 <= i < all.len() implies is_cut(
            bytes,
            (#[trigger] all[i]).start,
            end,
            max_tokens,
            all[i].end,
        ) by {
            if i > 0 {
                assert(all[i] == rest[i - 1]);
            }
        }
        assert forall|i: int, j: int| 0 <= i && j == i + 1 && j < all.len() implies (
        #[trigger] all[j]).end - (#[trigger] all[i]).start > max_tokens by {
            if i > 0 {
                assert(all[i] == rest[i - 1]);
                assert(all[j] == rest[j - 1]);
            } else {
                assert(all[j] == rest[0]);
                let next = cut_point(bytes, cut, end, max_tokens);
                lemma_cut_exists(bytes, cut, end, max_tokens);
                assert(rest[0].end == next);
            }
        }
    }
}

/// Cuts `span` into its windows.
pub fn split_span(text: &str, span: Span, max_tokens: usize) -> (parts: Vec<Span>)
    requires
        span.fits(text.spec_bytes()),
    ensures
        parts@ == split_spans(text.spec_bytes(), span, max_tokens),
        tiles(parts@, span.start, span.end),
        all_fit(parts@, text.spec_bytes()),
        parts.len() > 0,
{
    let ghost bytes = text.spec_bytes();
    let mut parts: Vec<Span> = Vec::new();
    if span.start >= span.end {
        parts.push(span);
        return parts;
    }
    let end: usize = span.end;
    let mut cursor: usize = span.start;
    proof {
        lemma_windows_tile(bytes, span.start, end, max_tokens);
    }
    while cursor < end
        invariant
            span.start <= cursor <= end,
            end == span.end,
            bytes == text.spec_bytes(),
            span.fits(bytes),
            is_char_boundary(bytes, cursor as int),
            parts@ + windows(bytes, cursor, end, max_tokens) == windows(
                bytes,
                span.start,
                end,
                max_tokens,
            ),
        decreases end - cursor,
    {
        let cut: usize = next_cut(text, cursor, end, max_tokens);
        proof {
            let rest = windows(bytes, cut, end, max_tokens);
            assert(windows(bytes, cursor, end, max_tokens) == seq![Span { start: cursor, end: cut }]
                + rest);
            assert(parts@.push(Span { start: cursor, end: cut }) + rest =~= parts@ + (seq![
                Span { start: cursor, end: cut },
            ] + rest));
        }
        parts.push(Span { start: cursor, end: cut });
        cursor = cut;
    }
    assert(parts@ + windows(bytes, cursor, end, max_tokens) =~= parts@);
    parts
}

} // verus!
