//! Structure-aware splitting of file contents into bounded segments.
//!
//! A file's content is a string whose positions are byte offsets into its
//! UTF-8 encoding. A chunker turns the content and the file's metadata into a
//! sequence of segments, each a byte range of the content. Plain files become a
//! single segment; source files are split along a syntax tree so that each
//! segment stays within a token budget; notebooks are not supported and give no
//! segments.
//!
//! [`UniversalFileChunker`] picks the chunker by the file's path.
//! [`CodeFileChunker`] splits along a [`Node`] tree: a node within the budget
//! is one segment, a larger node without children is cut into windows, any
//! other node is taken apart child by child and neighbours are merged while
//! their tokens together stay strictly below the budget. Tokens are counted
//! by a [`TokenCounter`]. The module `laws` states what every result
//! satisfies.

pub mod chunker;
pub mod code;
pub mod decimal;
pub mod laws;
pub mod merge;
pub mod metadata;
pub mod node;
pub mod path;
pub mod repo;
pub mod segment;
pub mod span;
pub mod split;
pub mod structural;
pub mod text;
pub mod token;

pub use chunker::{Chunker, IpynbFileChunker, Route, TextFileChunker, UniversalFileChunker};
pub use code::CodeFileChunker;
pub use metadata::Metadata;
pub use node::Node;
pub use segment::{Chunk, FileChunk};
pub use span::Span;
pub use token::{ByteLength, CharCount, TokenCounter};
