//! The structural chunker: splitting source files along their syntax.

use vstd::prelude::*;
use vstd::string::StringSliceAdditionalSpecFns;
use vstd::utf8::encode_utf8;

use crate::chunker::Chunker;
use crate::merge::{ascending, merge_spans, merged};
use crate::metadata::Metadata;
use crate::node::Node;
use crate::path::{is_code_chars, is_code_path, lowercase, lowered};
use crate::segment::{chunks_are, chunks_from, file_path, path_of, Chunk, FileChunk};
use crate::span::Span;
use crate::split::{split_span, split_spans};
use crate::structural::{chunk_spans, leaf_pieces, node_pieces};
use crate::text::{byte_len, chars_of, lemma_whole_text_fits};
use crate::token::{ByteLength, TokenCounter};

verus! {

/// Splits source files along their syntax tree into segments of at most
/// `max_tokens` tokens, as `counter` counts them.
pub struct CodeFileChunker<C: TokenCounter> {
    pub max_tokens: usize,
    pub counter: C,
}

/// The range of a whole text of `len` bytes.
pub open spec fn whole(len: nat) -> Span {
    Span { start: 0, end: len as usize }
}

/// Whether `tree` can be split as the syntax tree of the text `bytes`: it is
/// sound for the text and its root covers all of it.
pub open spec fn tree_covers(tree: Node, bytes: Seq<u8>) -> bool {
    tree.fits(bytes) && tree.start_byte == 0 && tree.end_byte == bytes.len()
}

/// The byte ranges of `chunks`, in order.
pub open spec fn spans_of(chunks: Seq<FileChunk>) -> Seq<Span> {
    chunks.map_values(|chunk: FileChunk| chunk.span())
}

/// Whether `chunks` are well-formed segments of one file, in ascending order.
pub open spec fn of_one_file(chunks: Seq<FileChunk>) -> bool {
    &&& forall|i: int| 0 <= i < chunks.len() ==> (#[trigger] chunks[i]).well_formed()
    &&& forall|i: int|
        0 <= i < chunks.len() ==> (#[trigger] chunks[i]).file_content@ == chunks[0].file_content@
            && chunks[i].file_metadata@ == chunks[0].file_metadata@
    &&& ascending(spans_of(chunks))
}

impl CodeFileChunker<ByteLength> {
    /// A chunker that takes every byte for one token.
    pub fn new(max_tokens: usize) -> (chunker: Self)
        ensures
            chunker.max_tokens == max_tokens,
    {
        CodeFileChunker { max_tokens, counter: ByteLength }
    }

    /// Whether `filename` is the path of a source file, by its extension as it
    /// is written.
    pub fn is_code_file(filename: &str) -> (code: bool)
        ensures
            code == is_code_path(filename@),
    {
        is_code_chars(&chars_of(filename))
    }
}

impl<C: TokenCounter> CodeFileChunker<C> {
    /// A chunker that counts tokens with `counter`.
    pub fn with_counter(max_tokens: usize, counter: C) -> (chunker: Self)
        ensures
            chunker.max_tokens == max_tokens,
            chunker.counter == counter,
    {
        CodeFileChunker { max_tokens, counter }
    }

    /// The syntax tree of `content`. No grammar is built in: the tree is a
    /// single node that covers the whole content.
    pub fn parse_tree(&self, filename: &str, content: &str) -> (tree: Option<Node>)
        ensures
            tree matches Some(root) && root.span() == whole(content.spec_bytes().len())
                && root.children@.len() == 0 && tree_covers(root, content.spec_bytes()),
    {
        proof {
            lemma_whole_text_fits(content@);
        }
        Some(Node::new(0, byte_len(content)))
    }

    /// Splits `node` into segments that cover it.
    pub fn chunk_node(&self, node: &Node, file_content: &str, file_metadata: &Metadata) -> (chunks:
        Vec<FileChunk>)
        requires
            node.fits(file_content.spec_bytes()),
        ensures
            chunks_are(
                chunks@,
                file_content@,
                file_metadata@,
                node_pieces(&self.counter, self.max_tokens, file_content.spec_bytes(), *node),
            ),
    {
        let spans = chunk_spans(&self.counter, self.max_tokens, node, file_content);
        chunks_from(&spans, file_content, file_metadata)
    }

    /// Cuts the range of `chunk` into windows, without regard to its syntax.
    pub fn split_long_chunk(&self, chunk: &FileChunk) -> (chunks: Vec<FileChunk>)
        requires
            chunk.well_formed(),
        ensures
            chunks_are(
                chunks@,
                chunk.file_content@,
                chunk.file_metadata@,
                split_spans(chunk.bytes(), chunk.span(), self.max_tokens),
            ),
    {
        let content = chunk.file_content.as_str();
        let spans = split_span(
            content,
            Span { start: chunk.start_byte, end: chunk.end_byte },
            self.max_tokens,
        );
        chunks_from(&spans, content, &chunk.file_metadata)
    }

    /// Merges neighbouring segments of one file while the budget allows it.
    pub fn merge_chunks(&self, chunks: Vec<FileChunk>) -> (merged_chunks: Vec<FileChunk>)
        requires
            of_one_file(chunks@),
        ensures
            chunks@.len() == 0 ==> merged_chunks@.len() == 0,
            chunks@.len() > 0 ==> chunks_are(
                merged_chunks@,
                chunks@[0].file_content@,
                chunks@[0].file_metadata@,
                merged(&self.counter, self.max_tokens, chunks@[0].bytes(), spans_of(chunks@)),
            ),
    {
        if chunks.len() == 0 {
            return Vec::new();
        }
        let content = chunks[0].file_content.as_str();
        let ghost bytes = content.spec_bytes();
        let mut spans: Vec<Span> = Vec::new();
        let mut i: usize = 0;
        while i < chunks.len()
            invariant
                i <= chunks.len(),
                spans@ == spans_of(chunks@).take(i as int),
            decreases chunks.len() - i,
        {
            spans.push(Span { start: chunks[i].start_byte, end: chunks[i].end_byte });
            assert(spans@ =~= spans_of(chunks@).take(i + 1));
            i = i + 1;
        }
        proof {
            assert(spans@ =~= spans_of(chunks@));
            assert forall|k: int| 0 <= k < spans@.len() implies (#[trigger] spans@[k]).fits(
                bytes,
            ) by {
                assert(chunks@[k].well_formed());
                assert(chunks@[k].file_content@ == chunks@[0].file_content@);
            }
        }
        let out = merge_spans(&self.counter, self.max_tokens, content, &spans);
        chunks_from(&out, content, &chunks[0].file_metadata)
    }

    /// Splits `content` along `tree`, the result of parsing it. Without a
    /// tree, or with one that does not cover the content soundly, there are no
    /// segments.
    pub fn chunk_tree(
        &self,
        tree: Option<Node>,
        content: &str,
        metadata: &Metadata,
    ) -> (chunks: Vec<FileChunk>)
        ensures
            match tree {
                Some(root) if tree_covers(root, content.spec_bytes()) => chunks_are(
                    chunks@,
                    content@,
                    metadata@,
                    node_pieces(&self.counter, self.max_tokens, content.spec_bytes(), root),
                ),
                _ => chunks@.len() == 0,
            },
    {
        match tree {
            Some(root) => {
                if root.start_byte == 0 && root.end_byte == byte_len(content) && root.fits_text(
                    content,
                ) {
                    self.chunk_node(&root, content, metadata)
                } else {
                    Vec::new()
                }
            },
            None => Vec::new(),
        }
    }
}

impl<C: TokenCounter> Chunker for CodeFileChunker<C> {
    /// None for a file that is no source file; else the ranges of the whole
    /// content, handled as a single node.
    open spec fn ranges(&self, content: Seq<char>, metadata: Map<Seq<char>, Seq<char>>) -> Seq<
        Span,
    > {
        if is_code_path(lowered(path_of(metadata))) {
            leaf_pieces(
                &self.counter,
                self.max_tokens,
                encode_utf8(content),
                whole(encode_utf8(content).len()),
            )
        } else {
            Seq::empty()
        }
    }

    fn chunk(&self, content: &str, metadata: Metadata) -> (chunks: Vec<FileChunk>) {
        let path = file_path(&metadata);
        let lowered_path = lowercase(&chars_of(path));
        if !is_code_chars(&lowered_path) {
            return Vec::new();
        }
        let tree = self.parse_tree(path, content);
        self.chunk_tree(tree, content, &metadata)
    }
}

} // verus!
