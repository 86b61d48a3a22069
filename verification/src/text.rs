//! Strings as UTF-8 bytes: slicing by byte offsets, comparing, listing characters.

use vstd::prelude::*;
use vstd::string::StringSliceAdditionalSpecFns;
use vstd::utf8::{
    decode_utf8, encode_utf8, encode_utf8_decode_utf8, encode_utf8_valid_utf8,
    is_char_boundary, is_char_boundary_iff_not_is_continuation_byte,
    is_char_boundary_start_end_of_seq, length_of_first_scalar, pop_first_scalar, valid_utf8,
    valid_utf8_split,
};

use crate::span::Span;

verus! {

/// A character boundary of a text is also one of each prefix that reaches it.
pub proof fn lemma_boundary_in_prefix(bytes: Seq<u8>, start: int, end: int)
    requires
        valid_utf8(bytes),
        0 <= start <= end <= bytes.len(),
        is_char_boundary(bytes, start),
        is_char_boundary(bytes, end),
    ensures
        valid_utf8(bytes.subrange(0, end)),
        is_char_boundary(bytes.subrange(0, end), start),
{
    let prefix = bytes.subrange(0, end);
    valid_utf8_split(bytes, end);
    if start < end {
        is_char_boundary_iff_not_is_continuation_byte(bytes, start);
        is_char_boundary_iff_not_is_continuation_byte(prefix, start);
    } else {
        is_char_boundary_start_end_of_seq(prefix);
    }
}

/// A range that fits a text selects a text.
pub proof fn lemma_span_valid(bytes: Seq<u8>, span: Span)
    requires
        span.fits(bytes),
    ensures
        valid_utf8(span.of(bytes)),
{
    let prefix = bytes.subrange(0, span.end as int);
    lemma_boundary_in_prefix(bytes, span.start as int, span.end as int);
    valid_utf8_split(prefix, span.start as int);
    assert(prefix.subrange(span.start as int, prefix.len() as int) =~= span.of(bytes));
}

/// From a character boundary that is not the end of the text, the next
/// boundary is at most four bytes away.
pub proof fn lemma_boundary_within_four(bytes: Seq<u8>, at: int) -> (next: int)
    requires
        valid_utf8(bytes),
        0 <= at < bytes.len(),
        is_char_boundary(bytes, at),
    ensures
        at < next <= at + 4,
        next <= bytes.len(),
        is_char_boundary(bytes, next),
    decreases bytes.len(),
{
    reveal_with_fuel(is_char_boundary, 2);
    let width = length_of_first_scalar(bytes);
    if at == 0 {
        width
    } else {
        let inner = lemma_boundary_within_four(pop_first_scalar(bytes), at - width);
        inner + width
    }
}

/// The start and the end of a text are character boundaries.
pub proof fn lemma_whole_text_fits(chars: Seq<char>)
    ensures
        valid_utf8(encode_utf8(chars)),
        is_char_boundary(encode_utf8(chars), 0),
        is_char_boundary(encode_utf8(chars), encode_utf8(chars).len() as int),
{
    encode_utf8_valid_utf8(chars);
    is_char_boundary_start_end_of_seq(encode_utf8(chars));
}

/// The length of a text in bytes.
pub fn byte_len(text: &str) -> (n: usize)
    ensures
        n == text.spec_bytes().len(),
{
    text.as_bytes().len()
}

/// The part of `text` between the byte offsets `start` and `end`.
pub fn slice<'a>(text: &'a str, start: usize, end: usize) -> (part: &'a str)
    requires
        (Span { start, end }).fits(text.spec_bytes()),
    ensures
        part.spec_bytes() == text.spec_bytes().subrange(start as int, end as int),
        part@ == decode_utf8(text.spec_bytes().subrange(start as int, end as int)),
{
    proof {
        lemma_boundary_in_prefix(text.spec_bytes(), start as int, end as int);
    }
    let (head, _) = text.split_at(end);
    let (_, part) = head.split_at(start);
    proof {
        assert(part.spec_bytes() =~= text.spec_bytes().subrange(start as int, end as int));
        encode_utf8_decode_utf8(part@);
    }
    part
}

/// Whether two strings hold the same characters.
pub fn str_eq(a: &str, b: &str) -> (same: bool)
    ensures
        same == (a@ == b@),
{
    let x = a.as_bytes();
    let y = b.as_bytes();
    proof {
        encode_utf8_decode_utf8(a@);
        encode_utf8_decode_utf8(b@);
    }
    if x.len() != y.len() {
        return false;
    }
    let mut i: usize = 0;
    while i < x.len()
        invariant
            i <= x.len(),
            x.len() == y.len(),
            x@ == a.spec_bytes(),
            y@ == b.spec_bytes(),
            forall|k: int| 0 <= k < i ==> x@[k] == y@[k],
        decreases x.len() - i,
    {
        if x[i] != y[i] {
            return false;
        }
        i = i + 1;
    }
    assert(x@ =~= y@);
    true
}

/// The characters of `text`, in order.
pub fn chars_of(text: &str) -> (chars: Vec<char>)
    ensures
        chars@ == text@,
{
    broadcast use vstd::string::group_string_axioms;

    let mut chars: Vec<char> = Vec::new();
    for c in it: text.chars()
        invariant
            it.seq() == text@,
            chars@ == text@.take(it.index() as int),
    {
        assert(text@.take(it.index() + 1) =~= text@.take(it.index()).push(c));
        chars.push(c);
    }
    assert(text@.take(text@.len() as int) =~= text@);
    chars
}

} // verus!
