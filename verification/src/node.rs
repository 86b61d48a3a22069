//! Syntax trees over byte offsets.

use vstd::prelude::*;
use vstd::string::StringSliceAdditionalSpecFns;
use vstd::utf8::encode_utf8_valid_utf8;

use crate::span::Span;

verus! {

/// A node of a syntax tree: a byte range of the file's content and, in order,
/// the nodes that lie inside it.
#[derive(Debug)]
pub struct Node {
    pub start_byte: usize,
    pub end_byte: usize,
    pub children: Vec<Node>,
}

impl Node {
    /// The byte range of the node.
    pub open spec fn span(&self) -> Span {
        Span { start: self.start_byte, end: self.end_byte }
    }

    /// The tree is sound for the text `bytes`: the range of every node fits
    /// the text, the children of a node lie inside it, and each child begins
    /// no earlier than the child before it ends.
    pub open spec fn fits(&self, bytes: Seq<u8>) -> bool
        decreases self,
    {
        &&& self.span().fits(bytes)
        &&& forall|i: int|
            0 <= i < self.children@.len() ==> {
                &&& (#[trigger] self.children@[i]).fits(bytes)
                &&& self.start_byte <= self.children@[i].start_byte
                &&& self.children@[i].end_byte <= self.end_byte
            }
        &&& forall|i: int, j: int|
            0 <= i && j == i + 1 && j < self.children@.len() ==> (
            #[trigger] self.children@[i]).end_byte <= (#[trigger] self.children@[j]).start_byte
    }

    /// A node without children.
    pub fn new(start_byte: usize, end_byte: usize) -> (node: Node)
        ensures
            node.start_byte == start_byte,
            node.end_byte == end_byte,
            node.children@.len() == 0,
    {
        Node { start_byte, end_byte, children: Vec::new() }
    }

    /// Tests whether the tree is sound for `text`.
    pub fn fits_text(&self, text: &str) -> (sound: bool)
        ensures
            sound == self.fits(text.spec_bytes()),
        decreases self,
    {
        let ghost bytes = text.spec_bytes();
        proof {
            encode_utf8_valid_utf8(text@);
        }
        if !(self.start_byte <= self.end_byte && self.end_byte <= crate::text::byte_len(text)
            && text.is_char_boundary(self.start_byte) && text.is_char_boundary(self.end_byte)) {
            return false;
        }
        let mut i: usize = 0;
        while i < self.children.len()
            invariant
                i <= self.children.len(),
                bytes == text.spec_bytes(),
                self.span().fits(bytes),
                forall|k: int|
                    0 <= k < i ==> {
                        &&& (#[trigger] self.children@[k]).fits(bytes)
                        &&& self.start_byte <= self.children@[k].start_byte
                        &&& self.children@[k].end_byte <= self.end_byte
                    },
                forall|k: int, l: int|
                    0 <= k && l == k + 1 && l < i ==> (#[trigger] self.children@[k]).end_byte <= (
                    #[trigger] self.children@[l]).start_byte,
            decreases self.children.len() - i,
        {
            let child = &self.children[i];
            if !child.fits_text(text) {
                return false;
            }
            if child.start_byte < self.start_byte || child.end_byte > self.end_byte {
                return false;
            }
            if i > 0 && self.children[i - 1].end_byte > child.start_byte {
                assert(!(self.children@[i - 1].end_byte <= self.children@[i as int].start_byte));
                return false;
            }
            i = i + 1;
        }
        true
    }
}

} // verus!
