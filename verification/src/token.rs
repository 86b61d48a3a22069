//! Counting tokens, the unit in which a segment's size is budgeted.

use vstd::prelude::*;
use vstd::string::{StrSliceExecFns, StringSliceAdditionalSpecFns};
use vstd::utf8::{decode_utf8, encode_utf8_decode_utf8, pop_first_scalar, valid_utf8};

use crate::span::Span;

verus! {

/// A way of measuring text in tokens.
///
/// `tokens` says how many tokens a text holds, as a function of its UTF-8
/// bytes alone; `count` computes that number. The chunkers follow whatever
/// counter they are given. What they can promise about budgets depends on how
/// the counter behaves when texts are joined: see [`subadditive`] and
/// [`grows_with_text`].
pub trait TokenCounter {
    /// The number of tokens in the text whose UTF-8 encoding is `text`.
    spec fn tokens(&self, text: Seq<u8>) -> nat;

    fn count(&self, text: &str) -> (n: usize)
        ensures
            n == self.tokens(text.spec_bytes()),
    ;
}

/// The counter that takes every byte for one token.
#[derive(Clone, Copy, Debug)]
pub struct ByteLength;

impl TokenCounter for ByteLength {
    open spec fn tokens(&self, text: Seq<u8>) -> nat {
        text.len()
    }

    fn count(&self, text: &str) -> (n: usize) {
        text.as_bytes().len()
    }
}

/// The counter that takes every character for one token.
#[derive(Clone, Copy, Debug)]
pub struct CharCount;

impl TokenCounter for CharCount {
    open spec fn tokens(&self, text: Seq<u8>) -> nat {
        decode_utf8(text).len()
    }

    fn count(&self, text: &str) -> (n: usize) {
        proof {
            encode_utf8_decode_utf8(text@);
        }
        text.unicode_len()
    }
}

/// The tokens that `counter` finds in the bytes of `bytes` that `span` selects.
pub open spec fn span_tokens<C: TokenCounter>(counter: &C, bytes: Seq<u8>, span: Span) -> nat {
    counter.tokens(span.of(bytes))
}

/// Joining two texts never yields more tokens than the two hold apart.
pub open spec fn subadditive<C: TokenCounter>(counter: &C) -> bool {
    forall|a: Seq<u8>, b: Seq<u8>|
        valid_utf8(a) && valid_utf8(b) ==> #[trigger] counter.tokens(a + b) <= counter.tokens(a)
            + counter.tokens(b)
}

/// A text holds at least as many tokens as any text it begins with.
pub open spec fn grows_with_text<C: TokenCounter>(counter: &C) -> bool {
    forall|a: Seq<u8>, b: Seq<u8>|
        valid_utf8(a) && valid_utf8(b) ==> counter.tokens(a) <= #[trigger] counter.tokens(a + b)
}

/// A text never holds more tokens than bytes.
pub open spec fn at_most_bytes<C: TokenCounter>(counter: &C) -> bool {
    forall|text: Seq<u8>| valid_utf8(text) ==> #[trigger] counter.tokens(text) <= text.len()
}

/// Counting bytes is additive: it is subadditive, grows with the text, finds
/// no more tokens than bytes and none in the empty text.
pub proof fn lemma_byte_length_additive(counter: &ByteLength)
    ensures
        subadditive(counter),
        grows_with_text(counter),
        at_most_bytes(counter),
        counter.tokens(Seq::empty()) == 0,
{
}

/// Counting characters is additive: it is subadditive, grows with the text,
/// finds no more tokens than bytes and none in the empty text.
pub proof fn lemma_char_count_additive(counter: &CharCount)
    ensures
        subadditive(counter),
        grows_with_text(counter),
        at_most_bytes(counter),
        counter.tokens(Seq::empty()) == 0,
{
    assert forall|a: Seq<u8>, b: Seq<u8>|
        valid_utf8(a) && valid_utf8(b) implies #[trigger] counter.tokens(a + b) == counter.tokens(
        a,
    ) + counter.tokens(b) by {
        lemma_decode_concat(a, b);
    }
    assert forall|text: Seq<u8>| valid_utf8(text) implies #[trigger] counter.tokens(text)
        <= text.len() by {
        lemma_decode_len(text);
    }
}

/// The characters of two texts joined are the characters of the first and,
/// after them, those of the second.
pub proof fn lemma_decode_concat(a: Seq<u8>, b: Seq<u8>)
    requires
        valid_utf8(a),
        valid_utf8(b),
    ensures
        valid_utf8(a + b),
        decode_utf8(a + b) == decode_utf8(a) + decode_utf8(b),
    decreases a.len(),
{
    if a.len() == 0 {
        assert(a + b =~= b);
        assert(decode_utf8(a) + decode_utf8(b) =~= decode_utf8(b));
    } else {
        let rest = pop_first_scalar(a);
        assert(pop_first_scalar(a + b) =~= rest + b);
        lemma_decode_concat(rest, b);
        assert(decode_utf8(a + b) =~= decode_utf8(a) + decode_utf8(b));
    }
}

/// A text has no more characters than bytes.
pub proof fn lemma_decode_len(text: Seq<u8>)
    requires
        valid_utf8(text),
    ensures
        decode_utf8(text).len() <= text.len(),
    decreases text.len(),
{
    if text.len() > 0 {
        lemma_decode_len(pop_first_scalar(text));
    }
}

} // verus!
