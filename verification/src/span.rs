//! Byte ranges of a file's content and sequences of them.

use vstd::prelude::*;
use vstd::utf8::{is_char_boundary, valid_utf8};

verus! {

/// A half-open range `[start, end)` of byte offsets into a file's content.
#[derive(Clone, Copy, Debug, PartialEq, Eq, Structural)]
pub struct Span {
    pub start: usize,
    pub end: usize,
}

impl Span {
    /// `bytes` is a text in UTF-8, the range lies inside it, and both ends of
    /// the range fall between two characters of the text.
    pub open spec fn fits(self, bytes: Seq<u8>) -> bool {
        &&& valid_utf8(bytes)
        &&& self.start <= self.end <= bytes.len()
        &&& is_char_boundary(bytes, self.start as int)
        &&& is_char_boundary(bytes, self.end as int)
    }

    /// The bytes of `bytes` that the range selects.
    pub open spec fn of(self, bytes: Seq<u8>) -> Seq<u8> {
        bytes.subrange(self.start as int, self.end as int)
    }

    pub fn new(start: usize, end: usize) -> (span: Span)
        ensures
            span.start == start,
            span.end == end,
    {
        Span { start, end }
    }
}

/// Every range of `spans` fits `bytes`.
pub open spec fn all_fit(spans: Seq<Span>, bytes: Seq<u8>) -> bool {
    forall|i: int| 0 <= i < spans.len() ==> (#[trigger] spans[i]).fits(bytes)
}

/// Each range of `spans` begins where the one before it ends.
pub open spec fn contiguous(spans: Seq<Span>) -> bool {
    forall|i: int, j: int|
        0 <= i && j == i + 1 && j < spans.len() ==> (#[trigger] spans[i]).end == (
        #[trigger] spans[j]).start
}

/// `spans` is a gap-free, non-overlapping cover of `[lo, hi)` by ranges in
/// ascending order. The empty sequence covers only an empty range.
pub open spec fn tiles(spans: Seq<Span>, lo: usize, hi: usize) -> bool {
    &&& forall|i: int| 0 <= i < spans.len() ==> (#[trigger] spans[i]).start <= spans[i].end
    &&& contiguous(spans)
    &&& if spans.len() == 0 {
        lo == hi
    } else {
        spans[0].start == lo && spans.last().end == hi
    }
}

/// Joining a cover of `[lo, mid)` and a cover of `[mid, hi)` covers `[lo, hi)`.
pub proof fn lemma_tiles_concat(a: Seq<Span>, b: Seq<Span>, lo: usize, mid: usize, hi: usize)
    requires
        tiles(a, lo, mid),
        tiles(b, mid, hi),
    ensures
        tiles(a + b, lo, hi),
{
    let c = a + b;
    assert forall|i: int, j: int| 0 <= i && j == i + 1 && j < c.len() implies (#[trigger] c[i]).end
        == (#[trigger] c[j]).start by {
        if j < a.len() {
            assert(a[i].end == a[j].start);
        } else if i >= a.len() {
            assert(b[i - a.len()].end == b[j - a.len()].start);
        } else {
            assert(c[i] == a.last());
            assert(c[j] == b[0]);
        }
    }
    assert forall|i: int| 0 <= i < c.len() implies (#[trigger] c[i]).start <= c[i].end by {
        if i < a.len() {
            assert(c[i] == a[i]);
        } else {
            assert(c[i] == b[i - a.len()]);
        }
    }
    if b.len() > 0 {
        assert(c.last() == b.last());
    }
}

/// What holds of a row of ranges holds of the row without its last range.
pub proof fn lemma_drop_last(spans: Seq<Span>, bytes: Seq<u8>)
    requires
        spans.len() > 0,
    ensures
        all_fit(spans, bytes) ==> all_fit(spans.drop_last(), bytes),
        contiguous(spans) ==> contiguous(spans.drop_last()),
{
    let head = spans.drop_last();
    if all_fit(spans, bytes) {
        assert forall|i: int| 0 <= i < head.len() implies (#[trigger] head[i]).fits(bytes) by {
            assert(head[i] == spans[i]);
        }
    }
    if contiguous(spans) {
        assert forall|i: int, j: int| 0 <= i && j == i + 1 && j < head.len() implies (
        #[trigger] head[i]).end == (#[trigger] head[j]).start by {
            assert(spans[i].end == spans[j].start);
        }
    }
}

/// Joining two sequences of fitting ranges keeps every range fitting.
pub proof fn lemma_all_fit_concat(a: Seq<Span>, b: Seq<Span>, bytes: Seq<u8>)
    requires
        all_fit(a, bytes),
        all_fit(b, bytes),
    ensures
        all_fit(a + b, bytes),
{
    let c = a + b;
    assert forall|i: int| 0 <= i < c.len() implies (#[trigger] c[i]).fits(bytes) by {
        if i < a.len() {
            assert(c[i] == a[i]);
        } else {
            assert(c[i] == b[i - a.len()]);
        }
    }
}

} // verus!
