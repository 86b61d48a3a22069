//! Splitting a text along its syntax tree.
//!
//! A node whose text is within the budget becomes one range. A larger node
//! without children goes to the fallback splitter. A larger node with children
//! is taken apart: each child is split in turn, the results are put in order
//! and neighbours are merged while the budget allows it.
//!
//! Bytes of a node that none of its children covers are not dropped. Each such
//! stretch, in front of the first child, between two children or behind the
//! last one, is handled as a childless node of its own, so the ranges that
//! come out of a node always cover it without gaps.

use vstd::prelude::*;
use vstd::string::StringSliceAdditionalSpecFns;

use crate::merge::{
    lemma_merged_shape, lemma_merged_tiles, lemma_tiles_ascending, merge_spans, merged,
};
use crate::node::Node;
use crate::span::{all_fit, lemma_all_fit_concat, lemma_tiles_concat, tiles, Span};
use crate::split::{lemma_windows_tile, split_span, split_spans};
use crate::text::slice;
use crate::token::{span_tokens, TokenCounter};

verus! {

/// The ranges that a stretch without inner structure becomes: itself if it is
/// within the budget, else its windows.
pub open spec fn leaf_pieces<C: TokenCounter>(
    counter: &C,
    max_tokens: usize,
    bytes: Seq<u8>,
    span: Span,
) -> Seq<Span> {
    if span_tokens(counter, bytes, span) <= max_tokens {
        seq![span]
    } else {
        split_spans(bytes, span, max_tokens)
    }
}

/// The ranges that the bytes between two children become; none if the
/// children touch.
pub open spec fn gap_pieces<C: TokenCounter>(
    counter: &C,
    max_tokens: usize,
    bytes: Seq<u8>,
    from: usize,
    to: usize,
) -> Seq<Span> {
    if from < to {
        leaf_pieces(counter, max_tokens, bytes, Span { start: from, end: to })
    } else {
        Seq::empty()
    }
}

/// The ranges that `node` is split into.
pub open spec fn node_pieces<C: TokenCounter>(
    counter: &C,
    max_tokens: usize,
    bytes: Seq<u8>,
    node: Node,
) -> Seq<Span>
    decreases node, 1nat, 0nat,
{
    if span_tokens(counter, bytes, node.span()) <= max_tokens || node.children@.len() == 0 {
        leaf_pieces(counter, max_tokens, bytes, node.span())
    } else {
        merged(counter, max_tokens, bytes, inner_pieces(counter, max_tokens, bytes, node))
    }
}

/// The ranges of all children of `node` and of the stretches around them, in
/// order, before anything is merged.
pub open spec fn inner_pieces<C: TokenCounter>(
    counter: &C,
    max_tokens: usize,
    bytes: Seq<u8>,
    node: Node,
) -> Seq<Span>
    decreases node, 0nat, node.children@.len() + 1,
{
    child_pieces(counter, max_tokens, bytes, node, node.children@.len()) + gap_pieces(
        counter,
        max_tokens,
        bytes,
        child_end(node, node.children@.len()),
        node.end_byte,
    )
}

/// Where the first `k` children of `node` end: the end of child `k - 1`, or the
/// start of `node` for `k == 0`.
pub open spec fn child_end(node: Node, k: nat) -> usize {
    if 0 < k <= node.children@.len() {
        node.children@[k - 1].end_byte
    } else {
        node.start_byte
    }
}

/// The ranges of the first `k` children of `node` and of the stretches in
/// front of each of them.
pub open spec fn child_pieces<C: TokenCounter>(
    counter: &C,
    max_tokens: usize,
    bytes: Seq<u8>,
    node: Node,
    k: nat,
) -> Seq<Span>
    decreases node, 0nat, k,
{
    if k == 0 || k > node.children@.len() {
        Seq::empty()
    } else {
        let child = node.children@[k - 1];
        child_pieces(counter, max_tokens, bytes, node, (k - 1) as nat) + gap_pieces(
            counter,
            max_tokens,
            bytes,
            child_end(node, (k - 1) as nat),
            child.start_byte,
        ) + node_pieces(counter, max_tokens, bytes, child)
    }
}

/// The ranges of a stretch without inner structure cover it without gaps.
pub proof fn lemma_leaf_pieces_tile<C: TokenCounter>(
    counter: &C,
    max_tokens: usize,
    bytes: Seq<u8>,
    span: Span,
)
    requires
        span.fits(bytes),
    ensures
        tiles(leaf_pieces(counter, max_tokens, bytes, span), span.start, span.end),
        all_fit(leaf_pieces(counter, max_tokens, bytes, span), bytes),
        leaf_pieces(counter, max_tokens, bytes, span).len() > 0,
{
    if span_tokens(counter, bytes, span) > max_tokens && span.start < span.end {
        lemma_windows_tile(bytes, span.start, span.end, max_tokens);
    }
}

/// The ranges of the bytes between two children cover them without gaps.
pub proof fn lemma_gap_pieces_tile<C: TokenCounter>(
    counter: &C,
    max_tokens: usize,
    bytes: Seq<u8>,
    from: usize,
    to: usize,
)
    requires
        from <= to,
        (Span { start: from, end: to }).fits(bytes),
    ensures
        tiles(gap_pieces(counter, max_tokens, bytes, from, to), from, to),
        all_fit(gap_pieces(counter, max_tokens, bytes, from, to), bytes),
{
    if from < to {
        lemma_leaf_pieces_tile(counter, max_tokens, bytes, Span { start: from, end: to });
    }
}

/// The ranges of the first `k` children of a node, with the stretches in front
/// of them, cover the node from its start to the end of child `k - 1`.
pub proof fn lemma_child_pieces_tile<C: TokenCounter>(
    counter: &C,
    max_tokens: usize,
    bytes: Seq<u8>,
    node: Node,
    k: nat,
)
    requires
        node.fits(bytes),
        k <= node.children@.len(),
    ensures
        tiles(
            child_pieces(counter, max_tokens, bytes, node, k),
            node.start_byte,
            child_end(node, k),
        ),
        all_fit(child_pieces(counter, max_tokens, bytes, node, k), bytes),
        k > 0 ==> child_pieces(counter, max_tokens, bytes, node, k).len() > 0,
        node.start_byte <= child_end(node, k) <= node.end_byte,
        (Span { start: child_end(node, k), end: child_end(node, k) }).fits(bytes),
    decreases node, 0nat, k,
{
    if k > 0 {
        let child = node.children@[k - 1];
        let from = child_end(node, (k - 1) as nat);
        assert(child.fits(bytes));
        if k > 1 {
            assert(node.children@[k - 2].end_byte <= node.children@[k - 1].start_byte);
        }
        lemma_child_pieces_tile(counter, max_tokens, bytes, node, (k - 1) as nat);
        lemma_gap_pieces_tile(counter, max_tokens, bytes, from, child.start_byte);
        lemma_node_pieces_tile(counter, max_tokens, bytes, child);
        let before = child_pieces(counter, max_tokens, bytes, node, (k - 1) as nat);
        let gap = gap_pieces(counter, max_tokens, bytes, from, child.start_byte);
        let inner = node_pieces(counter, max_tokens, bytes, child);
        lemma_tiles_concat(before, gap, node.start_byte, from, child.start_byte);
        lemma_all_fit_concat(before, gap, bytes);
        lemma_tiles_concat(before + gap, inner, node.start_byte, child.start_byte, child.end_byte);
        lemma_all_fit_concat(before + gap, inner, bytes);
    }
}

/// The ranges of the children of a node and of the stretches around them
/// cover the node without gaps.
pub proof fn lemma_inner_pieces_tile<C: TokenCounter>(
    counter: &C,
    max_tokens: usize,
    bytes: Seq<u8>,
    node: Node,
)
    requires
        node.fits(bytes),
        node.children@.len() > 0,
    ensures
        tiles(inner_pieces(counter, max_tokens, bytes, node), node.start_byte, node.end_byte),
        all_fit(inner_pieces(counter, max_tokens, bytes, node), bytes),
        inner_pieces(counter, max_tokens, bytes, node).len() > 0,
    decreases node, 0nat, node.children@.len() + 1,
{
    let n = node.children@.len();
    let from = child_end(node, n);
    lemma_child_pieces_tile(counter, max_tokens, bytes, node, n);
    lemma_gap_pieces_tile(counter, max_tokens, bytes, from, node.end_byte);
    let before = child_pieces(counter, max_tokens, bytes, node, n);
    let gap = gap_pieces(counter, max_tokens, bytes, from, node.end_byte);
    lemma_tiles_concat(before, gap, node.start_byte, from, node.end_byte);
    lemma_all_fit_concat(before, gap, bytes);
}

/// The ranges that a node is split into cover it: they leave no gap, do not
/// overlap, begin where the node begins and end where it ends.
pub proof fn lemma_node_pieces_tile<C: TokenCounter>(
    counter: &C,
    max_tokens: usize,
    bytes: Seq<u8>,
    node: Node,
)
    requires
        node.fits(bytes),
    ensures
        tiles(node_pieces(counter, max_tokens, bytes, node), node.start_byte, node.end_byte),
        all_fit(node_pieces(counter, max_tokens, bytes, node), bytes),
        node_pieces(counter, max_tokens, bytes, node).len() > 0,
    decreases node, 1nat, 0nat,
{
    if span_tokens(counter, bytes, node.span()) <= max_tokens || node.children@.len() == 0 {
        lemma_leaf_pieces_tile(counter, max_tokens, bytes, node.span());
    } else {
        lemma_inner_pieces_tile(counter, max_tokens, bytes, node);
        let inner = inner_pieces(counter, max_tokens, bytes, node);
        lemma_merged_tiles(counter, max_tokens, bytes, inner, node.start_byte, node.end_byte);
        lemma_tiles_ascending(inner);
        lemma_merged_shape(counter, max_tokens, bytes, inner);
    }
}

/// Splits a stretch without inner structure.
pub fn leaf_spans<C: TokenCounter>(counter: &C, max_tokens: usize, text: &str, span: Span) -> (out:
    Vec<Span>)
    requires
        span.fits(text.spec_bytes()),
    ensures
        out@ == leaf_pieces(counter, max_tokens, text.spec_bytes(), span),
        tiles(out@, span.start, span.end),
        all_fit(out@, text.spec_bytes()),
        out.len() > 0,
{
    let held: usize = counter.count(slice(text, span.start, span.end));
    if held <= max_tokens {
        let mut out: Vec<Span> = Vec::new();
        out.push(span);
        out
    } else {
        split_span(text, span, max_tokens)
    }
}

/// Appends the ranges of the stretch `[from, to)` to `pieces`, if it is not
/// empty.
fn push_gap<C: TokenCounter>(
    pieces: &mut Vec<Span>,
    counter: &C,
    max_tokens: usize,
    text: &str,
    lo: Ghost<usize>,
    from: usize,
    to: usize,
)
    requires
        from <= to,
        (Span { start: from, end: to }).fits(text.spec_bytes()),
        tiles(old(pieces)@, lo@, from),
        all_fit(old(pieces)@, text.spec_bytes()),
    ensures
        final(pieces)@ == old(pieces)@ + gap_pieces(
            counter,
            max_tokens,
            text.spec_bytes(),
            from,
            to,
        ),
        tiles(final(pieces)@, lo@, to),
        all_fit(final(pieces)@, text.spec_bytes()),
{
    if from < to {
        let mut gap = leaf_spans(counter, max_tokens, text, Span { start: from, end: to });
        proof {
            lemma_tiles_concat(pieces@, gap@, lo@, from, to);
            lemma_all_fit_concat(pieces@, gap@, text.spec_bytes());
        }
        pieces.append(&mut gap);
    } else {
        assert(pieces@ + Seq::<Span>::empty() =~= pieces@);
    }
}

/// Splits `node` into ranges that cover it.
pub fn chunk_spans<C: TokenCounter>(
    counter: &C,
    max_tokens: usize,
    node: &Node,
    text: &str,
) -> (out: Vec<Span>)
    requires
        node.fits(text.spec_bytes()),
    ensures
        out@ == node_pieces(counter, max_tokens, text.spec_bytes(), *node),
        tiles(out@, node.start_byte, node.end_byte),
        all_fit(out@, text.spec_bytes()),
        out.len() > 0,
    decreases node,
{
    let ghost bytes = text.spec_bytes();
    let span = Span { start: node.start_byte, end: node.end_byte };
    let held: usize = counter.count(slice(text, span.start, span.end));
    if held <= max_tokens {
        let mut out: Vec<Span> = Vec::new();
        out.push(span);
        return out;
    }
    if node.children.len() == 0 {
        return split_span(text, span, max_tokens);
    }
    let mut pieces: Vec<Span> = Vec::new();
    let mut cursor: usize = node.start_byte;
    let mut i: usize = 0;
    while i < node.children.len()
        invariant
            i <= node.children.len(),
            bytes == text.spec_bytes(),
            node.fits(bytes),
            cursor == child_end(*node, i as nat),
            node.start_byte <= cursor <= node.end_byte,
            (Span { start: cursor, end: cursor }).fits(bytes),
            pieces@ == child_pieces(counter, max_tokens, bytes, *node, i as nat),
            tiles(pieces@, node.start_byte, cursor),
            all_fit(pieces@, bytes),
            i > 0 ==> pieces.len() > 0,
        decreases node.children.len() - i,
    {
        let child = &node.children[i];
        proof {
            assert(node.children@[i as int].fits(bytes));
            if i > 0 {
                assert(node.children@[i - 1].end_byte <= node.children@[i as int].start_byte);
            }
        }
        let lo = Ghost(node.start_byte);
        push_gap(&mut pieces, counter, max_tokens, text, lo, cursor, child.start_byte);
        let mut inner = chunk_spans(counter, max_tokens, child, text);
        proof {
            lemma_tiles_concat(pieces@, inner@, node.start_byte, child.start_byte, child.end_byte);
            lemma_all_fit_concat(pieces@, inner@, bytes);
        }
        pieces.append(&mut inner);
        cursor = child.end_byte;
        i = i + 1;
    }
    push_gap(&mut pieces, counter, max_tokens, text, Ghost(node.start_byte), cursor, node.end_byte);
    proof {
        lemma_merged_tiles(counter, max_tokens, bytes, pieces@, node.start_byte, node.end_byte);
        lemma_tiles_ascending(pieces@);
    }
    merge_spans(counter, max_tokens, text, &pieces)
}

} // verus!
