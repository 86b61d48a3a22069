//! Chunkers: the flat one, the one for notebooks, and the router that picks a
//! chunker by the file's path.

use vstd::prelude::*;
use vstd::utf8::encode_utf8;

use crate::code::{whole, CodeFileChunker};
use crate::metadata::Metadata;
use crate::path::{
    is_code_chars, is_code_path, is_notebook_chars, is_notebook_path, lowercase, lowered,
};
use crate::segment::{chunks_are, file_path, path_of, FileChunk};
use crate::span::Span;
use crate::text::{byte_len, chars_of};
use crate::token::{ByteLength, TokenCounter};

verus! {

/// Something that splits a file into segments.
pub trait Chunker {
    /// The byte ranges of the segments that the chunker makes of a file with
    /// the given content and metadata, in order.
    spec fn ranges(&self, content: Seq<char>, metadata: Map<Seq<char>, Seq<char>>) -> Seq<Span>;

    /// Splits the file into segments. Each segment holds the file's content
    /// and metadata; their ranges are `ranges` of the two.
    fn chunk(&self, content: &str, metadata: Metadata) -> (chunks: Vec<FileChunk>)
        ensures
            chunks_are(chunks@, content@, metadata@, self.ranges(content@, metadata@)),
    ;
}

/// The flat chunker: the whole file as one segment.
#[derive(Clone, Copy, Debug)]
pub struct TextFileChunker {
    pub max_tokens: usize,
}

impl Chunker for TextFileChunker {
    /// The one range from the start of the content to its end.
    open spec fn ranges(&self, content: Seq<char>, metadata: Map<Seq<char>, Seq<char>>) -> Seq<
        Span,
    > {
        seq![whole(encode_utf8(content).len())]
    }

    fn chunk(&self, content: &str, metadata: Metadata) -> (chunks: Vec<FileChunk>) {
        let mut chunks: Vec<FileChunk> = Vec::new();
        let chunk = FileChunk {
            file_content: content.to_owned(),
            file_metadata: metadata,
            start_byte: 0,
            end_byte: byte_len(content),
        };
        chunks.push(chunk);
        chunks
    }
}

/// The chunker for notebooks. Notebooks are not taken apart: there are no
/// segments, which says that the file is not supported, not that it is empty.
pub struct IpynbFileChunker<C: TokenCounter> {
    /// The chunker for the code of a notebook's cells.
    pub code_chunker: CodeFileChunker<C>,
}

impl<C: TokenCounter> Chunker for IpynbFileChunker<C> {
    open spec fn ranges(&self, content: Seq<char>, metadata: Map<Seq<char>, Seq<char>>) -> Seq<
        Span,
    > {
        Seq::empty()
    }

    fn chunk(&self, content: &str, metadata: Metadata) -> (chunks: Vec<FileChunk>) {
        Vec::new()
    }
}

/// The router: picks the chunker for a file by the file's path.
pub struct UniversalFileChunker<C: TokenCounter> {
    pub max_tokens: usize,
    pub code_chunker: CodeFileChunker<C>,
    pub text_chunker: TextFileChunker,
}

/// Where the router sends a file.
#[derive(Clone, Copy, Debug, PartialEq, Eq, Structural)]
pub enum Route {
    /// A notebook: not supported, no segments.
    Notebook,
    /// A source file: to the structural chunker.
    Code,
    /// Any other file: to the flat chunker.
    Text,
}

/// Where the router sends the file at `path`. The path is compared in lower
/// case: a path that ends in `.ipynb` is a notebook, one with the extension of
/// a source file is code, anything else is text.
pub open spec fn route_of(path: Seq<char>) -> Route {
    if is_notebook_path(lowered(path)) {
        Route::Notebook
    } else if is_code_path(lowered(path)) {
        Route::Code
    } else {
        Route::Text
    }
}

/// Decides where the file at `path` goes.
pub fn route(path: &str) -> (to: Route)
    ensures
        to == route_of(path@),
{
    let lowered_path = lowercase(&chars_of(path));
    if is_notebook_chars(&lowered_path) {
        Route::Notebook
    } else if is_code_chars(&lowered_path) {
        Route::Code
    } else {
        Route::Text
    }
}

impl UniversalFileChunker<ByteLength> {
    /// A router whose structural chunker takes every byte for one token.
    pub fn new(max_tokens: usize) -> (chunker: Self)
        ensures
            chunker.max_tokens == max_tokens,
            chunker.code_chunker.max_tokens == max_tokens,
            chunker.text_chunker.max_tokens == max_tokens,
    {
        UniversalFileChunker {
            max_tokens,
            code_chunker: CodeFileChunker::new(max_tokens),
            text_chunker: TextFileChunker { max_tokens },
        }
    }
}

impl<C: TokenCounter> UniversalFileChunker<C> {
    /// A router whose structural chunker counts tokens with `counter`.
    pub fn with_counter(max_tokens: usize, counter: C) -> (chunker: Self)
        ensures
            chunker.max_tokens == max_tokens,
            chunker.code_chunker.max_tokens == max_tokens,
            chunker.code_chunker.counter == counter,
            chunker.text_chunker.max_tokens == max_tokens,
    {
        UniversalFileChunker {
            max_tokens,
            code_chunker: CodeFileChunker::with_counter(max_tokens, counter),
            text_chunker: TextFileChunker { max_tokens },
        }
    }
}

impl<C: TokenCounter> Chunker for UniversalFileChunker<C> {
    /// None for a notebook; the structural chunker's ranges for a source
    /// file; the flat chunker's range for any other file.
    open spec fn ranges(&self, content: Seq<char>, metadata: Map<Seq<char>, Seq<char>>) -> Seq<
        Span,
    > {
        match route_of(path_of(metadata)) {
            Route::Notebook => Seq::empty(),
            Route::Code => self.code_chunker.ranges(content, metadata),
            Route::Text => self.text_chunker.ranges(content, metadata),
        }
    }

    fn chunk(&self, content: &str, metadata: Metadata) -> (chunks: Vec<FileChunk>) {
        match route(file_path(&metadata)) {
            Route::Notebook => Vec::new(),
            Route::Code => self.code_chunker.chunk(content, metadata),
            Route::Text => self.text_chunker.chunk(content, metadata),
        }
    }
}

} // verus!
