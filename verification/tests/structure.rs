use file_chunker::merge::merge_spans;
use file_chunker::split::{next_cut, split_span};
use file_chunker::structural::{chunk_spans, leaf_spans};
use file_chunker::{
    ByteLength, CharCount, Chunk, Chunker, CodeFileChunker, FileChunk, Metadata, Node, Span,
    TokenCounter,
};

fn metadata_for(path: &str) -> Metadata {
    let mut metadata = Metadata::new();
    metadata.insert("file_path".to_string(), path.to_string());
    metadata
}

fn span(start: usize, end: usize) -> Span {
    Span { start, end }
}

fn pairs(spans: &Vec<Span>) -> Vec<(usize, usize)> {
    spans.iter().map(|s| (s.start, s.end)).collect()
}

fn ranges(chunks: &Vec<FileChunk>) -> Vec<(usize, usize)> {
    chunks.iter().map(|c| (c.start_byte, c.end_byte)).collect()
}

fn leaf(start: usize, end: usize) -> Node {
    Node::new(start, end)
}

fn node(start: usize, end: usize, children: Vec<Node>) -> Node {
    Node { start_byte: start, end_byte: end, children }
}

fn assert_covers(got: &Vec<(usize, usize)>, start: usize, end: usize) {
    assert!(!got.is_empty());
    assert_eq!(got[0].0, start);
    assert_eq!(got[got.len() - 1].1, end);
    for one in got.iter() {
        assert!(one.0 <= one.1);
    }
    for pair in got.windows(2) {
        assert_eq!(pair[0].1, pair[1].0);
    }
}

#[test]
fn new_node_has_no_children() {
    let n = Node::new(3, 9);
    assert_eq!(n.start_byte, 3);
    assert_eq!(n.end_byte, 9);
    assert!(n.children.is_empty());
}

#[test]
fn tree_soundness_is_tested() {
    let text = "héllo wörld";
    assert_eq!(text.len(), 13);
    assert!(node(0, 13, vec![leaf(0, 6), leaf(7, 13)]).fits_text(text));
    assert!(node(0, 13, vec![leaf(0, 6), leaf(6, 6), leaf(6, 13)]).fits_text(text));
    // offset 2 lies inside the two bytes of the second character
    assert!(!node(0, 13, vec![leaf(0, 2)]).fits_text(text));
    assert!(!leaf(2, 13).fits_text(text));
    // a child that leaves its parent
    assert!(!node(3, 7, vec![leaf(0, 6)]).fits_text(text));
    assert!(!node(0, 7, vec![leaf(3, 13)]).fits_text(text));
    // children that overlap or stand in the wrong order
    assert!(!node(0, 13, vec![leaf(0, 7), leaf(6, 13)]).fits_text(text));
    assert!(!node(0, 13, vec![leaf(7, 13), leaf(0, 6)]).fits_text(text));
    // a range behind the end of the text, and an inverted one
    assert!(!leaf(0, 14).fits_text(text));
    assert!(!leaf(7, 6).fits_text(text));
    // a fault deep in the tree
    assert!(!node(0, 13, vec![node(0, 6, vec![leaf(1, 2)])]).fits_text(text));
}

#[test]
fn byte_length_counts_bytes() {
    assert_eq!(ByteLength.count(""), 0);
    assert_eq!(ByteLength.count("abc"), 3);
    assert_eq!(ByteLength.count("é"), 2);
}

#[test]
fn windows_end_between_characters() {
    let text = "aébécédé";
    assert_eq!(text.len(), 12);
    // a, é é, ... : the boundaries are 0 1 3 4 6 7 9 10 12
    assert_eq!(next_cut(text, 0, 12, 5), 4);
    assert_eq!(next_cut(text, 4, 12, 5), 9);
    assert_eq!(next_cut(text, 9, 12, 5), 12);
    assert_eq!(next_cut(text, 0, 12, 2), 1);
    assert_eq!(next_cut(text, 1, 12, 2), 3);
    assert_eq!(pairs(&split_span(text, span(0, 12), 5)), vec![(0, 4), (4, 9), (9, 12)]);
}

#[test]
fn window_of_one_character_where_the_budget_is_smaller() {
    let text = "日本語";
    assert_eq!(text.len(), 9);
    assert_eq!(next_cut(text, 0, 9, 2), 3);
    assert_eq!(next_cut(text, 0, 9, 0), 3);
    assert_eq!(pairs(&split_span(text, span(0, 9), 2)), vec![(0, 3), (3, 6), (6, 9)]);
    assert_eq!(pairs(&split_span(text, span(0, 9), 0)), vec![(0, 3), (3, 6), (6, 9)]);
    assert_eq!(pairs(&split_span(text, span(3, 9), 7)), vec![(3, 9)]);
}

#[test]
fn splitting_an_empty_range_gives_it_back() {
    assert_eq!(pairs(&split_span("abc", span(2, 2), 1)), vec![(2, 2)]);
    assert_eq!(pairs(&split_span("", span(0, 0), 0)), vec![(0, 0)]);
}

#[test]
fn splitting_exact_multiples() {
    let text = "abcdefgh";
    assert_eq!(pairs(&split_span(text, span(0, 8), 4)), vec![(0, 4), (4, 8)]);
    assert_eq!(pairs(&split_span(text, span(0, 8), 8)), vec![(0, 8)]);
    assert_eq!(pairs(&split_span(text, span(0, 8), 9)), vec![(0, 8)]);
    assert_eq!(pairs(&split_span(text, span(1, 8), 3)), vec![(1, 4), (4, 7), (7, 8)]);
}

#[test]
fn merge_is_strict_about_the_budget() {
    let text = "aaaaabbbbb";
    let spans = vec![span(0, 5), span(5, 10)];
    // 5 + 5 = 10 is not below 10: no merge
    assert_eq!(pairs(&merge_spans(&ByteLength, 10, text, &spans)), vec![(0, 5), (5, 10)]);
    // 5 + 5 = 10 is below 11: one range
    assert_eq!(pairs(&merge_spans(&ByteLength, 11, text, &spans)), vec![(0, 10)]);
}

#[test]
fn merge_walks_from_left_to_right() {
    let text = "0123456789012345678901234";
    let spans = vec![span(0, 3), span(3, 6), span(6, 12), span(12, 13), span(13, 25)];
    // 3+3=6 <10 -> [0,6); 6+6=12 -> new; 6+1=7 <10 -> [6,13); 7+12 -> new
    assert_eq!(
        pairs(&merge_spans(&ByteLength, 10, text, &spans)),
        vec![(0, 6), (6, 13), (13, 25)]
    );
    assert_eq!(pairs(&merge_spans(&ByteLength, 10, text, &vec![])), vec![]);
    assert_eq!(pairs(&merge_spans(&ByteLength, 0, text, &spans)), pairs(&spans));
    assert_eq!(pairs(&merge_spans(&ByteLength, 1000, text, &spans)), vec![(0, 25)]);
}

#[test]
fn merge_takes_the_bytes_between_ranges_along() {
    let text = "aaa   bbb";
    let spans = vec![span(0, 3), span(6, 9)];
    assert_eq!(pairs(&merge_spans(&ByteLength, 7, text, &spans)), vec![(0, 9)]);
    assert_eq!(pairs(&merge_spans(&ByteLength, 6, text, &spans)), vec![(0, 3), (6, 9)]);
}

#[test]
fn merged_neighbours_cannot_be_merged_again() {
    let text = "0123456789012345678901234";
    let spans = vec![span(0, 3), span(3, 6), span(6, 12), span(12, 13), span(13, 25)];
    for max in 0..30 {
        let out = merge_spans(&ByteLength, max, text, &spans);
        for pair in out.windows(2) {
            let left = pair[0].end - pair[0].start;
            let right = pair[1].end - pair[1].start;
            assert!(left + right >= max);
        }
        let again = merge_spans(&ByteLength, max, text, &out);
        assert_eq!(pairs(&again), pairs(&out));
    }
}

#[test]
fn leaf_within_budget_stays_whole() {
    assert_eq!(pairs(&leaf_spans(&ByteLength, 5, "abcde", span(0, 5))), vec![(0, 5)]);
    assert_eq!(pairs(&leaf_spans(&ByteLength, 4, "abcde", span(0, 5))), vec![(0, 4), (4, 5)]);
    assert_eq!(pairs(&leaf_spans(&ByteLength, 0, "abcde", span(3, 3))), vec![(3, 3)]);
}

#[test]
fn node_within_budget_is_not_taken_apart() {
    let text = "fn a() {}\nfn b() {}\n";
    let tree = node(0, 20, vec![leaf(0, 10), leaf(10, 20)]);
    assert_eq!(pairs(&chunk_spans(&ByteLength, 20, &tree, text)), vec![(0, 20)]);
    assert_eq!(pairs(&chunk_spans(&ByteLength, 19, &tree, text)), vec![(0, 10), (10, 20)]);
}

#[test]
fn bytes_between_children_become_ranges_of_their_own() {
    let text = "  aaaa  bbbb  ";
    assert_eq!(text.len(), 14);
    let tree = node(0, 14, vec![leaf(2, 6), leaf(8, 12)]);
    // pieces: [0,2) [2,6) [6,8) [8,12) [12,14); nothing merges under a budget of 4
    let got = pairs(&chunk_spans(&ByteLength, 4, &tree, text));
    assert_eq!(got, vec![(0, 2), (2, 6), (6, 8), (8, 12), (12, 14)]);
    assert_covers(&got, 0, 14);
    // under a budget of 7: 2+4=6 <7 -> [0,6); 6+2 no; 2+4=6 -> [6,12); 6+2 no
    let got = pairs(&chunk_spans(&ByteLength, 7, &tree, text));
    assert_eq!(got, vec![(0, 6), (6, 12), (12, 14)]);
    assert_covers(&got, 0, 14);
}

#[test]
fn a_long_stretch_between_children_is_split() {
    let text = "aa0123456789bb";
    let tree = node(0, 14, vec![leaf(0, 2), leaf(12, 14)]);
    // the stretch [2,12) holds 10 bytes: windows [2,6) [6,10) [10,12); 2+2 is not below 4
    let got = pairs(&chunk_spans(&ByteLength, 4, &tree, text));
    assert_eq!(got, vec![(0, 2), (2, 6), (6, 10), (10, 12), (12, 14)]);
    assert_covers(&got, 0, 14);
    // with a budget of 5 the windows are [2,7) [7,12); 5+2 is not below 5
    let got = pairs(&chunk_spans(&ByteLength, 5, &tree, text));
    assert_eq!(got, vec![(0, 2), (2, 7), (7, 12), (12, 14)]);
    assert_covers(&got, 0, 14);
    // with a budget of 8 the windows are [2,10) [10,12); 2+2 = 4 is below 8
    let got = pairs(&chunk_spans(&ByteLength, 8, &tree, text));
    assert_eq!(got, vec![(0, 2), (2, 10), (10, 14)]);
    assert_covers(&got, 0, 14);
}

#[test]
fn nested_nodes_are_split_and_merged_level_by_level() {
    let text = "aaaabbbbccccddddeeee";
    let tree = node(
        0,
        20,
        vec![node(0, 12, vec![leaf(0, 4), leaf(4, 8), leaf(8, 12)]), leaf(12, 16), leaf(16, 20)],
    );
    // inner node: 12 > 9: pieces 4,4,4: 4+4=8 <9 -> [0,8); 8+4 no -> [8,12)
    // outer: [0,8) [8,12) [12,16) [16,20): 8+4 no; 4+4=8 <9 -> [8,16); 8+4 no
    let got = pairs(&chunk_spans(&ByteLength, 9, &tree, text));
    assert_eq!(got, vec![(0, 8), (8, 16), (16, 20)]);
    assert_covers(&got, 0, 20);
}

#[test]
fn every_range_is_within_the_budget_where_bytes_are_tokens() {
    let text = "aaaabbbbccccddddeeee";
    let tree = node(
        0,
        20,
        vec![node(0, 12, vec![leaf(0, 4), leaf(4, 8), leaf(8, 12)]), leaf(12, 16), leaf(16, 20)],
    );
    for max in 1..25 {
        let got = chunk_spans(&ByteLength, max, &tree, text);
        assert_covers(&pairs(&got), 0, 20);
        for one in got.iter() {
            assert!(one.end - one.start <= max);
        }
        for pair in got.windows(2) {
            assert!((pair[0].end - pair[0].start) + (pair[1].end - pair[1].start) >= max);
        }
        for i in 0..got.len() {
            for j in (i + 1)..got.len() {
                assert_ne!(got[i], got[j]);
            }
        }
    }
}

#[test]
fn a_counter_of_characters_is_followed() {
    let text = "ééé ààà ööö";
    assert_eq!(text.len(), 20);
    assert_eq!(CharCount.count(text), 11);
    assert_eq!(CharCount.count(""), 0);
    let tree = node(0, 20, vec![leaf(0, 7), leaf(7, 14), leaf(14, 20)]);
    // 11 characters > 8; the children hold 4, 4 and 3: 4+4 is not below 8, 4+3 is
    let got = pairs(&chunk_spans(&CharCount, 8, &tree, text));
    assert_eq!(got, vec![(0, 7), (7, 20)]);
    // below 9: the first two merge to 8 characters; 8+3 is not below 9
    let got = pairs(&chunk_spans(&CharCount, 9, &tree, text));
    assert_eq!(got, vec![(0, 14), (14, 20)]);
    // by bytes the children hold 7, 7 and 6: nothing merges below 9
    let got = pairs(&chunk_spans(&ByteLength, 9, &tree, text));
    assert_eq!(got, vec![(0, 7), (7, 14), (14, 20)]);
    let chunker = CodeFileChunker::with_counter(9, CharCount);
    let chunks = chunker.chunk_node(&tree, text, &metadata_for("a.rs"));
    assert_eq!(ranges(&chunks), vec![(0, 14), (14, 20)]);
    assert_eq!(chunks[0].num_tokens(&CharCount), 8);
    assert_eq!(chunks[1].num_tokens(&CharCount), 3);
    assert_eq!(chunks[1].num_tokens(&ByteLength), 6);
}

#[test]
fn windows_are_measured_in_bytes_whatever_the_counter() {
    let text = "日本語日本語";
    assert_eq!(text.len(), 18);
    // 6 characters > 4, no children: windows of at most 4 bytes, one character each
    let got = pairs(&leaf_spans(&CharCount, 4, text, span(0, 18)));
    assert_eq!(got, vec![(0, 3), (3, 6), (6, 9), (9, 12), (12, 15), (15, 18)]);
    let got = pairs(&leaf_spans(&CharCount, 6, text, span(0, 18)));
    assert_eq!(got, vec![(0, 18)]);
}

#[test]
fn empty_children_merge_into_one_empty_range() {
    let tree = node(0, 4, vec![leaf(0, 4), leaf(4, 4), leaf(4, 4)]);
    let got = pairs(&chunk_spans(&ByteLength, 3, &tree, "abcd"));
    assert_eq!(got, vec![(0, 3), (3, 4)]);
    let got = pairs(&chunk_spans(&ByteLength, 1, &tree, "abcd"));
    assert_eq!(got, vec![(0, 1), (1, 2), (2, 3), (3, 4), (4, 4)]);
}

#[test]
fn chunk_tree_without_a_sound_tree_gives_nothing() {
    let chunker = CodeFileChunker::new(4);
    let metadata = metadata_for("a.rs");
    assert!(chunker.chunk_tree(None, "abcdef", &metadata).is_empty());
    // the root does not cover the content
    assert!(chunker.chunk_tree(Some(leaf(0, 5)), "abcdef", &metadata).is_empty());
    assert!(chunker.chunk_tree(Some(leaf(1, 6)), "abcdef", &metadata).is_empty());
    // children out of order
    let tree = node(0, 6, vec![leaf(3, 6), leaf(0, 3)]);
    assert!(chunker.chunk_tree(Some(tree), "abcdef", &metadata).is_empty());
    let tree = node(0, 6, vec![leaf(0, 3), leaf(3, 6)]);
    assert_eq!(
        ranges(&chunker.chunk_tree(Some(tree), "abcdef", &metadata)),
        vec![(0, 3), (3, 6)]
    );
}

#[test]
fn parse_tree_is_one_node_over_the_content() {
    let chunker = CodeFileChunker::new(4);
    let tree = chunker.parse_tree("a.rs", "héllo").unwrap();
    assert_eq!((tree.start_byte, tree.end_byte), (0, 6));
    assert!(tree.children.is_empty());
    let tree = chunker.parse_tree("a.rs", "").unwrap();
    assert_eq!((tree.start_byte, tree.end_byte), (0, 0));
}

#[test]
fn code_chunker_splits_a_long_file_by_windows() {
    let chunker = CodeFileChunker::new(4);
    let chunks = chunker.chunk("0123456789", metadata_for("src/a.rs"));
    assert_eq!(ranges(&chunks), vec![(0, 4), (4, 8), (8, 10)]);
    for chunk in chunks.iter() {
        assert_eq!(chunk.file_content, "0123456789");
        assert_eq!(chunk.file_metadata.get("file_path").unwrap(), "src/a.rs");
        assert!(chunk.is_well_formed());
    }
    assert_eq!(chunks[2].content(), "src/a.rs\n\n89");
}

#[test]
fn code_chunker_gives_nothing_for_other_files() {
    let chunker = CodeFileChunker::new(4);
    assert!(chunker.chunk("0123456789", metadata_for("notes.txt")).is_empty());
    assert!(chunker.chunk("0123456789", Metadata::new()).is_empty());
    assert_eq!(ranges(&chunker.chunk("01", metadata_for("A.RS"))), vec![(0, 2)]);
}

#[test]
fn split_long_chunk_cuts_the_range_of_the_chunk() {
    let chunker = CodeFileChunker::new(3);
    let chunk = FileChunk {
        file_content: "0123456789".to_string(),
        file_metadata: metadata_for("a.rs"),
        start_byte: 2,
        end_byte: 10,
    };
    let parts = chunker.split_long_chunk(&chunk);
    assert_eq!(ranges(&parts), vec![(2, 5), (5, 8), (8, 10)]);
    assert_eq!(parts[1].file_content, "0123456789");
    assert_eq!(parts[1].file_metadata.get("file_path").unwrap(), "a.rs");
}

#[test]
fn merge_chunks_merges_segments_of_one_file() {
    let chunker = CodeFileChunker::new(11);
    let make = |start: usize, end: usize| FileChunk {
        file_content: "aaaaabbbbbccccc".to_string(),
        file_metadata: metadata_for("a.rs"),
        start_byte: start,
        end_byte: end,
    };
    let merged = chunker.merge_chunks(vec![make(0, 5), make(5, 10), make(10, 15)]);
    assert_eq!(ranges(&merged), vec![(0, 10), (10, 15)]);
    assert_eq!(merged[0].file_content, "aaaaabbbbbccccc");
    assert!(chunker.merge_chunks(vec![]).is_empty());
    let chunker = CodeFileChunker::new(10);
    let merged = chunker.merge_chunks(vec![make(0, 5), make(5, 10), make(10, 15)]);
    assert_eq!(ranges(&merged), vec![(0, 5), (5, 10), (10, 15)]);
}

#[test]
fn chunking_twice_gives_the_same_segments() {
    let text = "aaaabbbbccccddddeeee";
    let tree = || {
        node(0, 20, vec![node(0, 12, vec![leaf(0, 4), leaf(4, 8), leaf(8, 12)]), leaf(12, 20)])
    };
    let chunker = CodeFileChunker::new(9);
    let first = chunker.chunk_tree(Some(tree()), text, &metadata_for("a.rs"));
    let second = chunker.chunk_tree(Some(tree()), text, &metadata_for("a.rs"));
    assert_eq!(ranges(&first), ranges(&second));
    for (a, b) in first.iter().zip(second.iter()) {
        assert_eq!(a.content(), b.content());
        assert_eq!(a.metadata().entries(), b.metadata().entries());
    }
}
