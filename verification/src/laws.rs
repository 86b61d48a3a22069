//! What holds of every chunking: budgets, maximal merging, full coverage,
//! distinct segments, and one result for one input.

use vstd::prelude::*;
use vstd::utf8::encode_utf8;

use crate::chunker::{route_of, Chunker, Route, UniversalFileChunker};
use crate::code::whole;
use crate::decimal::{decimal, is_digit, lemma_decimal_digits, lemma_decimal_injective};
use crate::merge::{
    ascending, began_beyond, begins_with, joins, lemma_merge_maximal, lemma_merged_shape,
    lemma_tiles_ascending, merged,
};
use crate::node::Node;
use crate::segment::{ascii_chars, chunks_are, path_of, segment_id, FileChunk};
use crate::span::{all_fit, contiguous, tiles, Span};
use crate::split::{is_cut, lemma_windows_full, lemma_windows_tile, split_spans, windows};
use crate::structural::{
    child_end, child_pieces, gap_pieces, inner_pieces, leaf_pieces, lemma_child_pieces_tile,
    lemma_inner_pieces_tile, lemma_node_pieces_tile, node_pieces,
};
use crate::text::{lemma_boundary_within_four, lemma_span_valid};
use crate::token::{
    at_most_bytes, grows_with_text, span_tokens, subadditive, ByteLength, TokenCounter,
};

verus! {

/// `span` is one of the ranges that the fallback splitter made of a stretch
/// that was over the budget.
pub open spec fn from_fallback<C: TokenCounter>(
    counter: &C,
    max_tokens: usize,
    bytes: Seq<u8>,
    span: Span,
) -> bool {
    exists|leaf: Span|
        leaf.fits(bytes) && span_tokens(counter, bytes, leaf) > max_tokens && (
        #[trigger] split_spans(bytes, leaf, max_tokens)).contains(span)
}

/// Every range of `spans` is within the budget, unless the fallback splitter
/// made it.
pub open spec fn budget_kept<C: TokenCounter>(
    counter: &C,
    max_tokens: usize,
    bytes: Seq<u8>,
    spans: Seq<Span>,
) -> bool {
    forall|i: int|
        0 <= i < spans.len() ==> span_tokens(counter, bytes, #[trigger] spans[i]) <= max_tokens
            || from_fallback(counter, max_tokens, bytes, spans[i])
}

/// Two adjoining ranges of a text hold the bytes of the range that spans both.
pub proof fn lemma_span_join(bytes: Seq<u8>, a: usize, b: usize, c: usize)
    requires
        a <= b <= c <= bytes.len(),
    ensures
        (Span { start: a, end: c }).of(bytes) == (Span { start: a, end: b }).of(bytes) + (Span {
            start: b,
            end: c,
        }).of(bytes),
{
    assert(bytes.subrange(a as int, c as int) =~= bytes.subrange(a as int, b as int)
        + bytes.subrange(b as int, c as int));
}

/// With a subadditive counter, each range that merging gives out is strictly
/// below the budget or is one of the ranges that went in.
pub proof fn lemma_merge_budget<C: TokenCounter>(
    counter: &C,
    max_tokens: usize,
    bytes: Seq<u8>,
    spans: Seq<Span>,
)
    requires
        subadditive(counter),
        contiguous(spans),
        all_fit(spans, bytes),
    ensures
        forall|i: int|
            0 <= i < merged(counter, max_tokens, bytes, spans).len() ==> span_tokens(
                counter,
                bytes,
                #[trigger] merged(counter, max_tokens, bytes, spans)[i],
            ) < max_tokens || spans.contains(merged(counter, max_tokens, bytes, spans)[i]),
    decreases spans.len(),
{
    if spans.len() > 0 {
        let head = spans.drop_last();
        let next = spans.last();
        let before = merged(counter, max_tokens, bytes, head);
        let out = merged(counter, max_tokens, bytes, spans);
        crate::span::lemma_drop_last(spans, bytes);
        lemma_tiles_ascending(head);
        lemma_merge_budget(counter, max_tokens, bytes, head);
        lemma_merged_shape(counter, max_tokens, bytes, head);
        assert(next.fits(bytes));
        assert forall|i: int| 0 <= i < out.len() implies span_tokens(
            counter,
            bytes,
            #[trigger] out[i],
        ) < max_tokens || spans.contains(out[i]) by {
            if before.len() > 0 && joins(counter, max_tokens, bytes, before.last(), next) {
                if i < out.len() - 1 {
                    assert(out[i] == before[i]);
                    if head.contains(before[i]) {
                        let k = choose|k: int| 0 <= k < head.len() && head[k] == before[i];
                        assert(spans[k] == out[i]);
                    }
                } else {
                    let open = before.last();
                    assert(open.fits(bytes));
                    assert(head.last() == spans[spans.len() - 2]);
                    assert(spans[spans.len() - 2].end == spans[spans.len() - 1].start);
                    lemma_span_join(bytes, open.start, open.end, next.end);
                    lemma_span_valid(bytes, open);
                    lemma_span_valid(bytes, next);
                    assert(out[i] == Span { start: open.start, end: next.end });
                    assert(next == Span { start: open.end, end: next.end });
                    assert(open == Span { start: open.start, end: open.end });
                }
            } else {
                if i < out.len() - 1 {
                    assert(out[i] == before[i]);
                    if head.contains(before[i]) {
                        let k = choose|k: int| 0 <= k < head.len() && head[k] == before[i];
                        assert(spans[k] == out[i]);
                    }
                } else {
                    assert(spans[spans.len() - 1] == out[i]);
                }
            }
        }
    }
}

/// Joining two sequences that keep the budget gives one that keeps it.
pub proof fn lemma_budget_kept_concat<C: TokenCounter>(
    counter: &C,
    max_tokens: usize,
    bytes: Seq<u8>,
    a: Seq<Span>,
    b: Seq<Span>,
)
    requires
        budget_kept(counter, max_tokens, bytes, a),
        budget_kept(counter, max_tokens, bytes, b),
    ensures
        budget_kept(counter, max_tokens, bytes, a + b),
{
    let c = a + b;
    assert forall|i: int| 0 <= i < c.len() implies span_tokens(counter, bytes, #[trigger] c[i])
        <= max_tokens || from_fallback(counter, max_tokens, bytes, c[i]) by {
        if i < a.len() {
            assert(c[i] == a[i]);
        } else {
            assert(c[i] == b[i - a.len()]);
        }
    }
}

/// The ranges of a stretch without inner structure keep the budget.
pub proof fn lemma_leaf_budget<C: TokenCounter>(
    counter: &C,
    max_tokens: usize,
    bytes: Seq<u8>,
    span: Span,
)
    requires
        span.fits(bytes),
    ensures
        budget_kept(counter, max_tokens, bytes, leaf_pieces(counter, max_tokens, bytes, span)),
{
    let out = leaf_pieces(counter, max_tokens, bytes, span);
    if span_tokens(counter, bytes, span) > max_tokens {
        assert forall|i: int| 0 <= i < out.len() implies span_tokens(
            counter,
            bytes,
            #[trigger] out[i],
        ) <= max_tokens || from_fallback(counter, max_tokens, bytes, out[i]) by {
            assert(split_spans(bytes, span, max_tokens).contains(out[i]));
        }
    }
}

/// The ranges of the first `k` children of a node keep the budget.
pub proof fn lemma_child_budget<C: TokenCounter>(
    counter: &C,
    max_tokens: usize,
    bytes: Seq<u8>,
    node: Node,
    k: nat,
)
    requires
        node.fits(bytes),
        subadditive(counter),
        k <= node.children@.len(),
    ensures
        budget_kept(counter, max_tokens, bytes, child_pieces(counter, max_tokens, bytes, node, k)),
    decreases node, 0nat, k,
{
    if k > 0 {
        let child = node.children@[k - 1];
        let from = child_end(node, (k - 1) as nat);
        assert(child.fits(bytes));
        if k > 1 {
            assert(node.children@[k - 2].end_byte <= node.children@[k - 1].start_byte);
        }
        lemma_child_pieces_tile(counter, max_tokens, bytes, node, (k - 1) as nat);
        lemma_child_budget(counter, max_tokens, bytes, node, (k - 1) as nat);
        if from < child.start_byte {
            let gap = Span { start: from, end: child.start_byte };
            lemma_leaf_budget(counter, max_tokens, bytes, gap);
        }
        law_budget(counter, max_tokens, bytes, child);
        let before = child_pieces(counter, max_tokens, bytes, node, (k - 1) as nat);
        let gap = gap_pieces(counter, max_tokens, bytes, from, child.start_byte);
        let inner = node_pieces(counter, max_tokens, bytes, child);
        lemma_budget_kept_concat(counter, max_tokens, bytes, before, gap);
        lemma_budget_kept_concat(counter, max_tokens, bytes, before + gap, inner);
    }
}

/// With a counter that never finds more tokens in two joined texts than in
/// the two apart, every range that a node is split into holds at most
/// `max_tokens` tokens, unless the fallback splitter made it of a stretch
/// without inner structure that was over the budget.
pub proof fn law_budget<C: TokenCounter>(counter: &C, max_tokens: usize, bytes: Seq<u8>, node: Node)
    requires
        node.fits(bytes),
        subadditive(counter),
    ensures
        budget_kept(counter, max_tokens, bytes, node_pieces(counter, max_tokens, bytes, node)),
    decreases node, 1nat, 0nat,
{
    if span_tokens(counter, bytes, node.span()) <= max_tokens || node.children@.len() == 0 {
        lemma_leaf_budget(counter, max_tokens, bytes, node.span());
    } else {
        let n = node.children@.len();
        let from = child_end(node, n);
        lemma_child_pieces_tile(counter, max_tokens, bytes, node, n);
        lemma_child_budget(counter, max_tokens, bytes, node, n);
        if from < node.end_byte {
            lemma_leaf_budget(counter, max_tokens, bytes, Span { start: from, end: node.end_byte });
        }
        let before = child_pieces(counter, max_tokens, bytes, node, n);
        let gap = gap_pieces(counter, max_tokens, bytes, from, node.end_byte);
        lemma_budget_kept_concat(counter, max_tokens, bytes, before, gap);
        let inner = inner_pieces(counter, max_tokens, bytes, node);
        lemma_inner_pieces_tile(counter, max_tokens, bytes, node);
        lemma_merge_budget(counter, max_tokens, bytes, inner);
        let out = merged(counter, max_tokens, bytes, inner);
        assert forall|i: int| 0 <= i < out.len() implies span_tokens(
            counter,
            bytes,
            #[trigger] out[i],
        ) <= max_tokens || from_fallback(counter, max_tokens, bytes, out[i]) by {
            if inner.contains(out[i]) {
                let k = choose|k: int| 0 <= k < inner.len() && inner[k] == out[i];
                assert(span_tokens(counter, bytes, inner[k]) <= max_tokens || from_fallback(
                    counter,
                    max_tokens,
                    bytes,
                    inner[k],
                ));
            }
        }
    }
}

/// With a budget of four tokens or more and a counter that, besides, never
/// finds more tokens in a text than the text has bytes, no exception is left:
/// every range that a node is split into holds at most `max_tokens` tokens.
pub proof fn law_hard_budget<C: TokenCounter>(
    counter: &C,
    max_tokens: usize,
    bytes: Seq<u8>,
    node: Node,
)
    requires
        node.fits(bytes),
        subadditive(counter),
        at_most_bytes(counter),
        max_tokens >= 4,
    ensures
        forall|i: int|
            0 <= i < node_pieces(counter, max_tokens, bytes, node).len() ==> span_tokens(
                counter,
                bytes,
                #[trigger] node_pieces(counter, max_tokens, bytes, node)[i],
            ) <= max_tokens,
{
    let out = node_pieces(counter, max_tokens, bytes, node);
    law_budget(counter, max_tokens, bytes, node);
    assert forall|i: int| 0 <= i < out.len() implies span_tokens(counter, bytes, #[trigger] out[i])
        <= max_tokens by {
        if from_fallback(counter, max_tokens, bytes, out[i]) {
            let leaf = choose|leaf: Span|
                leaf.fits(bytes) && span_tokens(counter, bytes, leaf) > max_tokens && (
                #[trigger] split_spans(bytes, leaf, max_tokens)).contains(out[i]);
            lemma_span_valid(bytes, leaf);
            lemma_window_within(bytes, leaf, max_tokens, out[i]);
            lemma_span_valid(bytes, out[i]);
        }
    }
}

/// With a budget of four bytes or more, a window of a stretch that is longer
/// than the budget is no longer than the budget.
proof fn lemma_window_within(bytes: Seq<u8>, leaf: Span, max_tokens: usize, window: Span)
    requires
        leaf.fits(bytes),
        leaf.of(bytes).len() > max_tokens,
        max_tokens >= 4,
        split_spans(bytes, leaf, max_tokens).contains(window),
    ensures
        window.fits(bytes),
        window.of(bytes).len() <= max_tokens,
{
    let all = windows(bytes, leaf.start, leaf.end, max_tokens);
    lemma_windows_tile(bytes, leaf.start, leaf.end, max_tokens);
    lemma_windows_full(bytes, leaf.start, leaf.end, max_tokens);
    let k = choose|k: int| 0 <= k < all.len() && all[k] == window;
    assert(all[k].fits(bytes));
    assert(is_cut(bytes, window.start, leaf.end, max_tokens, window.end));
    lemma_boundary_within_four(bytes, window.start as int);
}

/// With a counter for which a text holds at least as many tokens as any text
/// it begins with, merging is maximal: no two neighbours in its result could
/// be merged, for together they reach or exceed the budget.
pub proof fn law_merge_conservative<C: TokenCounter>(
    counter: &C,
    max_tokens: usize,
    bytes: Seq<u8>,
    spans: Seq<Span>,
)
    requires
        ascending(spans),
        all_fit(spans, bytes),
        grows_with_text(counter),
    ensures
        forall|i: int, j: int|
            0 <= i && j == i + 1 && j < merged(counter, max_tokens, bytes, spans).len() ==> !joins(
                counter,
                max_tokens,
                bytes,
                #[trigger] merged(counter, max_tokens, bytes, spans)[i],
                #[trigger] merged(counter, max_tokens, bytes, spans)[j],
            ),
{
    let out = merged(counter, max_tokens, bytes, spans);
    lemma_merge_maximal(counter, max_tokens, bytes, spans);
    lemma_merged_shape(counter, max_tokens, bytes, spans);
    assert forall|i: int, j: int| 0 <= i && j == i + 1 && j < out.len() implies !joins(
        counter,
        max_tokens,
        bytes,
        #[trigger] out[i],
        #[trigger] out[j],
    ) by {
        assert(began_beyond(counter, max_tokens, bytes, spans, out[i], out[j]));
        let k = choose|k: int| begins_with(counter, max_tokens, bytes, spans, out[i], out[j], k);
        assert(out[j].fits(bytes));
        assert(spans[k].fits(bytes));
        lemma_span_join(bytes, spans[k].start, spans[k].end, out[j].end);
        lemma_span_valid(bytes, spans[k]);
        lemma_span_valid(bytes, Span { start: spans[k].end, end: out[j].end });
        assert(spans[k] == Span { start: spans[k].start, end: spans[k].end });
        assert(out[j] == Span { start: spans[k].start, end: out[j].end });
    }
}

/// In a cover, a range ends before any later range begins.
pub proof fn lemma_tiles_monotone(spans: Seq<Span>, i: int, j: int)
    requires
        contiguous(spans),
        forall|k: int| 0 <= k < spans.len() ==> (#[trigger] spans[k]).start <= spans[k].end,
        0 <= i < j < spans.len(),
    ensures
        spans[i].end <= spans[j].start,
    decreases j - i,
{
    if i + 1 < j {
        lemma_tiles_monotone(spans, i, j - 1);
        assert(spans[j - 1].end == spans[j].start);
        assert(spans[j - 1].start <= spans[j - 1].end);
    } else {
        assert(spans[i].end == spans[j].start);
    }
}

/// Where every byte is a token, no two neighbouring ranges that a node is
/// split into could be merged: together they reach or exceed the budget.
pub proof fn law_emitted_conservative(max_tokens: usize, bytes: Seq<u8>, node: Node)
    requires
        node.fits(bytes),
    ensures
        forall|i: int, j: int|
            0 <= i && j == i + 1 && j < node_pieces(&ByteLength, max_tokens, bytes, node).len()
                ==> !joins(
                &ByteLength,
                max_tokens,
                bytes,
                #[trigger] node_pieces(&ByteLength, max_tokens, bytes, node)[i],
                #[trigger] node_pieces(&ByteLength, max_tokens, bytes, node)[j],
            ),
{
    let counter = ByteLength;
    let out = node_pieces(&counter, max_tokens, bytes, node);
    lemma_node_pieces_tile(&counter, max_tokens, bytes, node);
    if span_tokens(&counter, bytes, node.span()) <= max_tokens || node.children@.len() == 0 {
        if span_tokens(&counter, bytes, node.span()) > max_tokens && node.start_byte
            < node.end_byte {
            lemma_windows_full(bytes, node.start_byte, node.end_byte, max_tokens);
            assert forall|i: int, j: int| 0 <= i && j == i + 1 && j < out.len() implies !joins(
                &counter,
                max_tokens,
                bytes,
                #[trigger] out[i],
                #[trigger] out[j],
            ) by {
                assert(out[i].fits(bytes));
                assert(out[j].fits(bytes));
                assert(out[i].end == out[j].start);
            }
        }
    } else {
        let inner = inner_pieces(&counter, max_tokens, bytes, node);
        lemma_inner_pieces_tile(&counter, max_tokens, bytes, node);
        lemma_tiles_ascending(inner);
        crate::token::lemma_byte_length_additive(&counter);
        law_merge_conservative(&counter, max_tokens, bytes, inner);
    }
}

/// With a positive budget and a counter that finds no token in the empty
/// text, the ranges that a node is split into are all different.
pub proof fn law_pieces_distinct<C: TokenCounter>(
    counter: &C,
    max_tokens: usize,
    bytes: Seq<u8>,
    node: Node,
)
    requires
        node.fits(bytes),
        max_tokens > 0,
        counter.tokens(Seq::empty()) == 0,
    ensures
        forall|i: int, j: int|
            0 <= i < j < node_pieces(counter, max_tokens, bytes, node).len() ==> (
            #[trigger] node_pieces(counter, max_tokens, bytes, node)[i]) != (#[trigger] node_pieces(
                counter,
                max_tokens,
                bytes,
                node,
            )[j]),
{
    let out = node_pieces(counter, max_tokens, bytes, node);
    lemma_node_pieces_tile(counter, max_tokens, bytes, node);
    assert forall|i: int, j: int| 0 <= i < j < out.len() implies (#[trigger] out[i]) != (
    #[trigger] out[j]) by {
        if out[i] == out[j] {
            lemma_tiles_monotone(out, i, j);
            let p = out[i].start;
            assert(out[i].start <= out[i].end);
            assert(out[i].end == p);
            let next = out[i + 1];
            assert(out[i].end == out[i + 1].start);
            assert(next.start <= next.end);
            if i + 1 < j {
                lemma_tiles_monotone(out, i + 1, j);
            }
            assert(next == Span { start: p, end: p });
            lemma_no_empty_neighbours(counter, max_tokens, bytes, node, i);
        }
    }
}

/// Two neighbours among the ranges of a node are not both empty.
proof fn lemma_no_empty_neighbours<C: TokenCounter>(
    counter: &C,
    max_tokens: usize,
    bytes: Seq<u8>,
    node: Node,
    i: int,
)
    requires
        node.fits(bytes),
        max_tokens > 0,
        counter.tokens(Seq::empty()) == 0,
        0 <= i,
        i + 1 < node_pieces(counter, max_tokens, bytes, node).len(),
    ensures
        !(node_pieces(counter, max_tokens, bytes, node)[i].start == node_pieces(
            counter,
            max_tokens,
            bytes,
            node,
        )[i].end && node_pieces(counter, max_tokens, bytes, node)[i + 1].start == node_pieces(
            counter,
            max_tokens,
            bytes,
            node,
        )[i + 1].end),
{
    let out = node_pieces(counter, max_tokens, bytes, node);
    lemma_node_pieces_tile(counter, max_tokens, bytes, node);
    if span_tokens(counter, bytes, node.span()) <= max_tokens || node.children@.len() == 0 {
        if span_tokens(counter, bytes, node.span()) > max_tokens && node.start_byte
            < node.end_byte {
            lemma_windows_full(bytes, node.start_byte, node.end_byte, max_tokens);
            assert(out[i].start < out[i].end);
        }
    } else {
        let inner = inner_pieces(counter, max_tokens, bytes, node);
        lemma_inner_pieces_tile(counter, max_tokens, bytes, node);
        lemma_tiles_ascending(inner);
        lemma_merge_maximal(counter, max_tokens, bytes, inner);
        let left = out[i];
        let right = out[i + 1];
        if left.start == left.end && right.start == right.end {
            assert(began_beyond(counter, max_tokens, bytes, inner, left, right));
            let k = choose|k: int| begins_with(counter, max_tokens, bytes, inner, left, right, k);
            assert(inner[k].start == inner[k].end);
            assert(left.of(bytes) =~= Seq::<u8>::empty());
            assert(inner[k].of(bytes) =~= Seq::<u8>::empty());
        }
    }
}

/// Different ranges of one file have different identifiers.
pub proof fn law_ids_distinct(path: Seq<char>, a: Span, b: Span)
    requires
        a != b,
    ensures
        segment_id(path, a.start as nat, a.end as nat) != segment_id(
            path,
            b.start as nat,
            b.end as nat,
        ),
{
    let id_a = segment_id(path, a.start as nat, a.end as nat);
    let id_b = segment_id(path, b.start as nat, b.end as nat);
    if id_a == id_b {
        let front = ascii_chars(path) + seq!['_'];
        let tail_a = decimal(a.start as nat) + seq!['_'] + decimal(a.end as nat);
        let tail_b = decimal(b.start as nat) + seq!['_'] + decimal(b.end as nat);
        assert(id_a =~= front + tail_a);
        assert(id_b =~= front + tail_b);
        assert(tail_a =~= id_a.subrange(front.len() as int, id_a.len() as int));
        assert(tail_b =~= id_b.subrange(front.len() as int, id_b.len() as int));
        assert(tail_a == tail_b);
        lemma_decimal_digits(a.start as nat);
        lemma_decimal_digits(b.start as nat);
        let n = decimal(a.start as nat).len() as int;
        let m = decimal(b.start as nat).len() as int;
        assert(tail_a[n] == '_');
        assert(tail_b[m] == '_');
        if n < m {
            assert(tail_b[n] == decimal(b.start as nat)[n]);
            assert(is_digit(decimal(b.start as nat)[n]));
        } else if m < n {
            assert(tail_a[m] == decimal(a.start as nat)[m]);
            assert(is_digit(decimal(a.start as nat)[m]));
        }
        assert(n == m);
        assert(decimal(a.start as nat) =~= tail_a.subrange(0, n));
        assert(decimal(b.start as nat) =~= tail_b.subrange(0, n));
        lemma_decimal_injective(a.start as nat, b.start as nat);
        assert(decimal(a.end as nat) =~= tail_a.subrange(n + 1, tail_a.len() as int));
        assert(decimal(b.end as nat) =~= tail_b.subrange(n + 1, tail_b.len() as int));
        lemma_decimal_injective(a.end as nat, b.end as nat);
    }
}

/// Chunking is a function of its input: any two results of chunking one
/// content with one metadata by one chunker have the same ranges, in the same
/// order, each with that content and that metadata.
pub proof fn law_chunking_deterministic<K: Chunker>(
    chunker: &K,
    content: Seq<char>,
    metadata: Map<Seq<char>, Seq<char>>,
    first: Seq<FileChunk>,
    second: Seq<FileChunk>,
)
    requires
        chunks_are(first, content, metadata, chunker.ranges(content, metadata)),
        chunks_are(second, content, metadata, chunker.ranges(content, metadata)),
    ensures
        first.len() == second.len(),
        forall|i: int|
            0 <= i < first.len() ==> {
                &&& (#[trigger] first[i]).span() == second[i].span()
                &&& first[i].file_content@ == second[i].file_content@
                &&& first[i].file_metadata@ == second[i].file_metadata@
            },
{
}

/// A file that the router sends to the flat chunker becomes one range, from
/// the first byte of its content to the last.
pub proof fn law_flat_coverage<C: TokenCounter>(
    router: &UniversalFileChunker<C>,
    content: Seq<char>,
    metadata: Map<Seq<char>, Seq<char>>,
)
    requires
        route_of(path_of(metadata)) == Route::Text,
        encode_utf8(content).len() <= usize::MAX,
    ensures
        router.ranges(content, metadata).len() == 1,
        router.ranges(content, metadata)[0].start == 0,
        router.ranges(content, metadata)[0].end == encode_utf8(content).len(),
{
}

/// A source file becomes ranges that cover its content without gaps, and no
/// two of them are the same.
pub proof fn law_code_coverage<C: TokenCounter>(
    router: &UniversalFileChunker<C>,
    content: Seq<char>,
    metadata: Map<Seq<char>, Seq<char>>,
)
    requires
        route_of(path_of(metadata)) == Route::Code,
        encode_utf8(content).len() <= usize::MAX,
    ensures
        tiles(router.ranges(content, metadata), 0, encode_utf8(content).len() as usize),
        all_fit(router.ranges(content, metadata), encode_utf8(content)),
        router.ranges(content, metadata).len() > 0,
        forall|i: int, j: int|
            0 <= i < j < router.ranges(content, metadata).len() ==> (#[trigger] router.ranges(
                content,
                metadata,
            )[i]) != (#[trigger] router.ranges(content, metadata)[j]),
{
    let bytes = encode_utf8(content);
    let span = whole(bytes.len());
    let out = router.ranges(content, metadata);
    crate::text::lemma_whole_text_fits(content);
    crate::structural::lemma_leaf_pieces_tile(
        &router.code_chunker.counter,
        router.code_chunker.max_tokens,
        bytes,
        span,
    );
    if out.len() > 1 {
        lemma_windows_full(bytes, span.start, span.end, router.code_chunker.max_tokens);
    }
    assert forall|i: int, j: int| 0 <= i < j < out.len() implies (#[trigger] out[i]) != (
    #[trigger] out[j]) by {
        lemma_tiles_monotone(out, i, j);
    }
}

} // verus!
