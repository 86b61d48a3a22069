//! Segments: the ranges of a file that a chunker hands out, each with the
//! file's content and metadata.

use vstd::prelude::*;
use vstd::string::{StrSliceExecFns, StringExecFns};
use vstd::utf8::{decode_utf8, encode_utf8, encode_utf8_valid_utf8};

use crate::decimal::{decimal, decimal_string, push_decimal};
use crate::metadata::Metadata;
use crate::span::Span;
use crate::text::{byte_len, chars_of, slice};
use crate::token::{span_tokens, TokenCounter};

verus! {

/// The path of the file that `metadata` describes: its value for `file_path`,
/// or the empty string if it has none.
pub open spec fn path_of(metadata: Map<Seq<char>, Seq<char>>) -> Seq<char> {
    if metadata.contains_key("file_path"@) {
        metadata["file_path"@]
    } else {
        Seq::empty()
    }
}

/// Whether `c` is an ASCII character.
pub open spec fn is_ascii_char(c: char) -> bool {
    (c as u32) < 128
}

/// The ASCII characters of `text`, in order.
pub open spec fn ascii_chars(text: Seq<char>) -> Seq<char> {
    text.filter(|c: char| is_ascii_char(c))
}

/// The identifier of the range `[start, end)` of the file at `path`: the ASCII
/// characters of the path, then the two offsets in decimal, joined by `_`.
pub open spec fn segment_id(path: Seq<char>, start: nat, end: nat) -> Seq<char> {
    ascii_chars(path) + seq!['_'] + decimal(start) + seq!['_'] + decimal(end)
}

/// The metadata of the range `span` of a file with the metadata `metadata`:
/// the file's metadata and, over it, the range's identifier, offsets and
/// length. Where the file's metadata has one of these four keys itself, the
/// value computed for the range takes its place.
pub open spec fn segment_metadata(metadata: Map<Seq<char>, Seq<char>>, span: Span) -> Map<
    Seq<char>,
    Seq<char>,
> {
    metadata.insert(
        "id"@,
        segment_id(path_of(metadata), span.start as nat, span.end as nat),
    ).insert("start_byte"@, decimal(span.start as nat)).insert(
        "end_byte"@,
        decimal(span.end as nat),
    ).insert("length"@, decimal((span.end - span.start) as nat))
}

/// The text of the range `span` of a file with the metadata `metadata` and the
/// content `bytes`: the file's path, an empty line, and the characters that the
/// range selects.
pub open spec fn segment_content(
    metadata: Map<Seq<char>, Seq<char>>,
    bytes: Seq<u8>,
    span: Span,
) -> Seq<char> {
    path_of(metadata) + seq!['\n', '\n'] + decode_utf8(span.of(bytes))
}

/// The path of the file that `metadata` describes.
pub fn file_path(metadata: &Metadata) -> (path: &str)
    ensures
        path@ == path_of(metadata@),
{
    match metadata.get("file_path") {
        Some(path) => path.as_str(),
        None => {
            proof {
                reveal_strlit("");
            }
            assert(""@ =~= Seq::<char>::empty());
            ""
        },
    }
}

/// The ASCII characters of `text`.
pub fn ascii_only(text: &str) -> (out: String)
    ensures
        out@ == ascii_chars(text@),
{
    if text.is_ascii() {
        proof {
            lemma_ascii_chars_of_ascii(text@);
        }
        return text.to_owned();
    }
    let chars = chars_of(text);
    let mut out = String::new();
    let mut i: usize = 0;
    proof {
        reveal(Seq::filter);
        assert(text@.take(0) =~= Seq::<char>::empty());
    }
    while i < chars.len()
        invariant
            i <= chars.len(),
            chars@ == text@,
            out@ == ascii_chars(text@.take(i as int)),
        decreases chars.len() - i,
    {
        let c: char = chars[i];
        proof {
            reveal(Seq::filter);
            assert(text@.take(i + 1).drop_last() =~= text@.take(i as int));
        }
        if (c as u32) < 128 {
            let one = text.substring_char(i, i + 1);
            assert(one@ =~= seq![c]);
            out.append(one);
        }
        i = i + 1;
    }
    assert(text@.take(chars.len() as int) =~= text@);
    out
}

/// A text of ASCII characters only is its own ASCII part.
pub proof fn lemma_ascii_chars_of_ascii(text: Seq<char>)
    requires
        vstd::utf8::is_ascii_chars(text),
    ensures
        ascii_chars(text) == text,
    decreases text.len(),
{
    reveal(Seq::filter);
    if text.len() > 0 {
        lemma_ascii_chars_of_ascii(text.drop_last());
        assert(text.drop_last().push(text.last()) =~= text);
    }
}

/// A range of a file, with the file's content and metadata.
#[derive(Debug)]
pub struct FileChunk {
    pub file_content: String,
    pub file_metadata: Metadata,
    pub start_byte: usize,
    pub end_byte: usize,
}

/// What a chunker hands out: something with a text and with metadata.
pub trait Chunk {
    /// What must hold of a value for its text and metadata to be defined.
    spec fn well_formed(&self) -> bool;

    /// The text of the value.
    spec fn content_spec(&self) -> Seq<char>;

    /// The metadata of the value.
    spec fn metadata_spec(&self) -> Map<Seq<char>, Seq<char>>;

    fn content(&self) -> (text: String)
        requires
            self.well_formed(),
        ensures
            text@ == self.content_spec(),
    ;

    fn metadata(&self) -> (map: Metadata)
        requires
            self.well_formed(),
        ensures
            map@ == self.metadata_spec(),
    ;
}

impl FileChunk {
    /// The byte range of the segment.
    pub open spec fn span(&self) -> Span {
        Span { start: self.start_byte, end: self.end_byte }
    }

    /// The content of the segment's file as UTF-8 bytes.
    pub open spec fn bytes(&self) -> Seq<u8> {
        encode_utf8(self.file_content@)
    }

    /// Tests whether the segment's range fits its file's content.
    pub fn is_well_formed(&self) -> (sound: bool)
        ensures
            sound == self.well_formed(),
    {
        let text = self.file_content.as_str();
        proof {
            encode_utf8_valid_utf8(text@);
        }
        self.start_byte <= self.end_byte && self.end_byte <= byte_len(text)
            && text.is_char_boundary(self.start_byte) && text.is_char_boundary(self.end_byte)
    }

    /// The number of tokens that `counter` finds in the segment's range.
    pub fn num_tokens<C: TokenCounter>(&self, counter: &C) -> (n: usize)
        requires
            self.well_formed(),
        ensures
            n == span_tokens(counter, self.bytes(), self.span()),
    {
        counter.count(slice(self.file_content.as_str(), self.start_byte, self.end_byte))
    }
}

impl Clone for FileChunk {
    /// A copy of the segment: the same range, content and metadata.
    fn clone(&self) -> (copy: FileChunk)
        ensures
            copy.file_content@ == self.file_content@,
            copy.file_metadata@ == self.file_metadata@,
            copy.span() == self.span(),
    {
        FileChunk {
            file_content: self.file_content.clone(),
            file_metadata: self.file_metadata.clone(),
            start_byte: self.start_byte,
            end_byte: self.end_byte,
        }
    }
}

impl Chunk for FileChunk {
    /// The range lies inside the file's content, between characters.
    open spec fn well_formed(&self) -> bool {
        self.span().fits(self.bytes())
    }

    open spec fn content_spec(&self) -> Seq<char> {
        segment_content(self.file_metadata@, self.bytes(), self.span())
    }

    open spec fn metadata_spec(&self) -> Map<Seq<char>, Seq<char>> {
        segment_metadata(self.file_metadata@, self.span())
    }

    /// The file's path, an empty line, and the text of the range.
    fn content(&self) -> (text: String) {
        let part = slice(self.file_content.as_str(), self.start_byte, self.end_byte);
        proof {
            reveal_strlit("\n\n");
        }
        assert("\n\n"@ =~= seq!['\n', '\n']);
        String::from_str(file_path(&self.file_metadata)).concat("\n\n").concat(part)
    }

    /// The file's metadata with the range's `id`, `start_byte`, `end_byte` and
    /// `length`.
    fn metadata(&self) -> (map: Metadata) {
        let mut map = self.file_metadata.clone();
        let mut id = ascii_only(file_path(&self.file_metadata));
        proof {
            reveal_strlit("_");
        }
        assert("_"@ =~= seq!['_']);
        id.append("_");
        push_decimal(&mut id, self.start_byte);
        id.append("_");
        push_decimal(&mut id, self.end_byte);
        map.insert(String::from_str("id"), id);
        map.insert(String::from_str("start_byte"), decimal_string(self.start_byte));
        map.insert(String::from_str("end_byte"), decimal_string(self.end_byte));
        map.insert(String::from_str("length"), decimal_string(self.end_byte - self.start_byte));
        map
    }
}

/// Whether `chunks` are the ranges `spans` of the file with the content
/// `content` and the metadata `metadata`, in order.
pub open spec fn chunks_are(
    chunks: Seq<FileChunk>,
    content: Seq<char>,
    metadata: Map<Seq<char>, Seq<char>>,
    spans: Seq<Span>,
) -> bool {
    &&& chunks.len() == spans.len()
    &&& forall|i: int|
        0 <= i < chunks.len() ==> {
            &&& (#[trigger] chunks[i]).file_content@ == content
            &&& chunks[i].file_metadata@ == metadata
            &&& chunks[i].span() == spans[i]
        }
}

/// Makes a segment of each of `spans`.
pub fn chunks_from(spans: &Vec<Span>, content: &str, metadata: &Metadata) -> (chunks: Vec<
    FileChunk,
>)
    ensures
        chunks_are(chunks@, content@, metadata@, spans@),
{
    let mut chunks: Vec<FileChunk> = Vec::new();
    let mut i: usize = 0;
    while i < spans.len()
        invariant
            i <= spans.len(),
            chunks_are(chunks@, content@, metadata@, spans@.take(i as int)),
        decreases spans.len() - i,
    {
        chunks.push(
            FileChunk {
                file_content: content.to_owned(),
                file_metadata: metadata.clone(),
                start_byte: spans[i].start,
                end_byte: spans[i].end,
            },
        );
        i = i + 1;
    }
    assert(spans@.take(spans.len() as int) =~= spans@);
    chunks
}

} // verus!
