use file_chunker::decimal::decimal_string;
use file_chunker::segment::{ascii_only, chunks_from, file_path};
use file_chunker::text::{byte_len, chars_of, slice, str_eq};
use file_chunker::{ByteLength, Chunk, FileChunk, Metadata, Span};

fn chunk_of(content: &str, path: Option<&str>, start: usize, end: usize) -> FileChunk {
    let mut metadata = Metadata::new();
    if let Some(path) = path {
        metadata.insert("file_path".to_string(), path.to_string());
    }
    FileChunk {
        file_content: content.to_string(),
        file_metadata: metadata,
        start_byte: start,
        end_byte: end,
    }
}

#[test]
fn content_is_path_blank_line_and_text() {
    let chunk = chunk_of("hello world", Some("src/a.rs"), 6, 11);
    assert_eq!(chunk.content(), "src/a.rs\n\nworld");
    let chunk = chunk_of("hello world", Some("src/a.rs"), 0, 0);
    assert_eq!(chunk.content(), "src/a.rs\n\n");
    let chunk = chunk_of("héllo wörld", Some("dir/ü.txt"), 7, 13);
    assert_eq!(chunk.content(), "dir/ü.txt\n\nwörld");
}

#[test]
fn content_without_a_path_starts_with_the_blank_line() {
    let chunk = chunk_of("hello world", None, 0, 5);
    assert_eq!(chunk.content(), "\n\nhello");
}

#[test]
fn metadata_has_id_offsets_and_length() {
    let chunk = chunk_of("0123456789012345", Some("src/a.rs"), 3, 15);
    let metadata = chunk.metadata();
    assert_eq!(metadata.get("id").unwrap(), "src/a.rs_3_15");
    assert_eq!(metadata.get("start_byte").unwrap(), "3");
    assert_eq!(metadata.get("end_byte").unwrap(), "15");
    assert_eq!(metadata.get("length").unwrap(), "12");
    assert_eq!(metadata.get("file_path").unwrap(), "src/a.rs");
    assert_eq!(metadata.len(), 5);
}

#[test]
fn metadata_id_keeps_ascii_characters_only() {
    let chunk = chunk_of("abc", Some("dir/näme–x.txt"), 0, 3);
    assert_eq!(chunk.metadata().get("id").unwrap(), "dir/nmex.txt_0_3");
    let chunk = chunk_of("abc", Some("日本語"), 1, 2);
    assert_eq!(chunk.metadata().get("id").unwrap(), "_1_2");
}

#[test]
fn metadata_without_a_path_has_an_id_of_offsets() {
    let chunk = chunk_of("abc", None, 0, 3);
    let metadata = chunk.metadata();
    assert_eq!(metadata.get("id").unwrap(), "_0_3");
    assert!(metadata.get("file_path").is_none());
    assert_eq!(metadata.len(), 4);
}

#[test]
fn metadata_passes_other_keys_through() {
    let mut chunk = chunk_of("abc", Some("a.rs"), 0, 3);
    chunk.file_metadata.insert("repo".to_string(), "owner/name".to_string());
    let metadata = chunk.metadata();
    assert_eq!(metadata.get("repo").unwrap(), "owner/name");
    assert_eq!(metadata.len(), 6);
    // the segment's own metadata is left as it was
    assert_eq!(chunk.file_metadata.len(), 2);
    assert!(chunk.file_metadata.get("id").is_none());
}

#[test]
fn computed_keys_take_the_place_of_the_files_keys() {
    let mut chunk = chunk_of("abcdef", Some("a.rs"), 2, 5);
    chunk.file_metadata.insert("id".to_string(), "mine".to_string());
    chunk.file_metadata.insert("length".to_string(), "99".to_string());
    chunk.file_metadata.insert("start_byte".to_string(), "x".to_string());
    chunk.file_metadata.insert("end_byte".to_string(), "y".to_string());
    let metadata = chunk.metadata();
    assert_eq!(metadata.get("id").unwrap(), "a.rs_2_5");
    assert_eq!(metadata.get("length").unwrap(), "3");
    assert_eq!(metadata.get("start_byte").unwrap(), "2");
    assert_eq!(metadata.get("end_byte").unwrap(), "5");
    assert_eq!(metadata.len(), 5);
}

#[test]
fn different_ranges_have_different_ids() {
    let ranges = [(0, 0), (0, 1), (1, 1), (1, 11), (11, 1), (1, 111), (11, 11), (111, 1), (0, 10)];
    let mut ids: Vec<String> = Vec::new();
    for (start, end) in ranges {
        let chunk = chunk_of("x", Some("a_1.rs"), start, end);
        if start <= end && end <= 1 {
            assert!(chunk.is_well_formed());
        }
        if start <= end {
            ids.push(chunk.metadata().get("id").unwrap().clone());
        }
    }
    for i in 0..ids.len() {
        for j in (i + 1)..ids.len() {
            assert_ne!(ids[i], ids[j]);
        }
    }
}

#[test]
fn num_tokens_counts_the_range() {
    let chunk = chunk_of("héllo wörld", Some("a.rs"), 0, 6);
    assert_eq!(chunk.num_tokens(&ByteLength), 6);
    assert_eq!(chunk.num_tokens(&file_chunker::CharCount), 5);
    let chunk = chunk_of("héllo wörld", Some("a.rs"), 6, 6);
    assert_eq!(chunk.num_tokens(&ByteLength), 0);
}

#[test]
fn well_formedness_is_tested() {
    assert!(chunk_of("héllo", None, 0, 6).is_well_formed());
    assert!(chunk_of("héllo", None, 1, 3).is_well_formed());
    assert!(chunk_of("héllo", None, 6, 6).is_well_formed());
    assert!(chunk_of("", None, 0, 0).is_well_formed());
    assert!(!chunk_of("héllo", None, 0, 7).is_well_formed());
    assert!(!chunk_of("héllo", None, 3, 1).is_well_formed());
    assert!(!chunk_of("héllo", None, 0, 2).is_well_formed());
    assert!(!chunk_of("héllo", None, 2, 6).is_well_formed());
}

#[test]
fn chunks_from_makes_one_segment_for_each_range() {
    let mut metadata = Metadata::new();
    metadata.insert("file_path".to_string(), "a.rs".to_string());
    let spans = vec![Span::new(0, 2), Span::new(2, 5)];
    let chunks = chunks_from(&spans, "abcde", &metadata);
    assert_eq!(chunks.len(), 2);
    assert_eq!((chunks[0].start_byte, chunks[0].end_byte), (0, 2));
    assert_eq!((chunks[1].start_byte, chunks[1].end_byte), (2, 5));
    assert_eq!(chunks[1].file_content, "abcde");
    assert_eq!(chunks[1].file_metadata.get("file_path").unwrap(), "a.rs");
    assert!(chunks_from(&vec![], "abcde", &metadata).is_empty());
}

#[test]
fn file_path_is_the_value_or_empty() {
    let mut metadata = Metadata::new();
    assert_eq!(file_path(&metadata), "");
    metadata.insert("file_path".to_string(), "x/y.rs".to_string());
    assert_eq!(file_path(&metadata), "x/y.rs");
}

#[test]
fn ascii_only_drops_everything_else() {
    assert_eq!(ascii_only("plain/path.rs"), "plain/path.rs");
    assert_eq!(ascii_only("naïve/пут/ab.rs"), "nave//ab.rs");
    assert_eq!(ascii_only("日本"), "");
    assert_eq!(ascii_only(""), "");
    assert_eq!(ascii_only("\u{7f}\u{80}"), "\u{7f}");
}

#[test]
fn decimal_strings() {
    assert_eq!(decimal_string(0), "0");
    assert_eq!(decimal_string(7), "7");
    assert_eq!(decimal_string(10), "10");
    assert_eq!(decimal_string(1234567890), "1234567890");
    assert_eq!(decimal_string(100), "100");
    assert_eq!(decimal_string(usize::MAX), usize::MAX.to_string());
}

#[test]
fn slices_by_byte_offsets() {
    let text = "héllo wörld";
    assert_eq!(byte_len(text), 13);
    assert_eq!(byte_len(""), 0);
    assert_eq!(slice(text, 0, 13), text);
    assert_eq!(slice(text, 0, 6), "héllo");
    assert_eq!(slice(text, 7, 13), "wörld");
    assert_eq!(slice(text, 1, 3), "é");
    assert_eq!(slice(text, 5, 5), "");
    assert_eq!(slice(text, 13, 13), "");
}

#[test]
fn compares_strings() {
    assert!(str_eq("", ""));
    assert!(str_eq("file_path", "file_path"));
    assert!(!str_eq("file_path", "file_pat"));
    assert!(!str_eq("file_path", "file_patH"));
    assert!(!str_eq("é", "e"));
    assert!(str_eq("日本語", "日本語"));
}

#[test]
fn lists_characters() {
    assert_eq!(chars_of("aé日"), vec!['a', 'é', '日']);
    assert!(chars_of("").is_empty());
}
