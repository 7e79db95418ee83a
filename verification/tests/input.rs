//! Documents, files and lines.

use gigatoken::input::counting::{count_documents, pretokenize_par_bytes};
use gigatoken::input::documents::{par_document_chunks, DocumentIter, Resource};
use gigatoken::input::file_source::{
    chunk_ranges, detect_compression, detect_default_format, detect_format,
    jsonl_chunk_boundaries, Compression, ContentFormat, DocFormat,
};
use gigatoken::input::frequencies::{count_rows, row_parts};
use gigatoken::input::json_counting::{count_json_lines, pretokenize_jsonl_par};
use gigatoken::input::jsonl::{line_step, JsonLinesSlice, LineStep};
use gigatoken::input::separator::SeparatorReader;
use gigatoken::utils::{chunks_at_utf8_boundaries, parallel_concat};

#[test]
fn test_document_iter_basic() {
    let data = b"hello<|endoftext|>world<|endoftext|>foo";
    let sep = b"<|endoftext|>";
    let docs: Vec<&[u8]> = data.as_slice().documents(sep).collect();
    assert_eq!(docs, vec![b"hello".as_slice(), b"world", b"foo"]);
}

#[test]
fn test_document_iter_no_separator() {
    let data = b"hello world";
    let docs: Vec<&[u8]> = data.as_slice().documents(b"<|endoftext|>").collect();
    assert_eq!(docs, vec![b"hello world".as_slice()]);
}

#[test]
fn test_document_iter_empty_separator() {
    let data = b"hello world";
    let docs: Vec<&[u8]> = data.as_slice().documents(b"").collect();
    assert_eq!(docs, vec![b"hello world".as_slice()]);
}

#[test]
fn test_document_iter_consecutive_separators() {
    let data = b"a<SEP><SEP>b";
    let docs: Vec<&[u8]> = data.as_slice().documents(b"<SEP>").collect();
    assert_eq!(docs, vec![b"a".as_slice(), b"b"]);
}

#[test]
fn test_document_iter_separator_at_edges() {
    let data = b"<SEP>hello<SEP>";
    let docs: Vec<&[u8]> = data.as_slice().documents(b"<SEP>").collect();
    assert_eq!(docs, vec![b"hello".as_slice()]);
}

#[test]
fn separators_that_overlap_split_no_document() {
    for (text, sep) in [
        (&b"xaaay"[..], &b"aa"[..]),
        (b"aaaaa", b"aa"),
        (b"abababab-abab-ab", b"abab"),
        (b"--x---y----z", b"--"),
    ] {
        let whole: Vec<&[u8]> = DocumentIter::new(text, sep).collect();
        for n in 1..9 {
            let mut docs = Vec::new();
            for chunk in par_document_chunks(text, sep, n) {
                docs.extend(chunk.collect());
            }
            assert_eq!(docs, whole);
            let format = DocFormat::Text { separator: Some(sep.to_vec()) };
            let mut docs = Vec::new();
            for (start, end) in chunk_ranges(text, &format, n) {
                docs.extend(DocumentIter::new(&text[start..end], sep).collect());
            }
            assert_eq!(docs, whole);
        }
    }
}

#[test]
fn test_par_document_chunks_basic() {
    let sep = b"<|endoftext|>";
    let parts: Vec<&str> = (0..100)
        .map(|i| if i % 10 == 9 { "doc" } else { "word " })
        .collect();
    let data = parts.join(std::str::from_utf8(sep).unwrap());
    let bytes = data.as_bytes();

    let chunks = par_document_chunks(bytes, sep, 4);
    // All documents should be found across all chunks
    let all_docs: Vec<&[u8]> = chunks.into_iter().flat_map(|c| c.collect()).collect();
    let single_docs: Vec<&[u8]> = bytes.documents(sep).collect();
    assert_eq!(all_docs, single_docs);
}

#[test]
fn test_par_chunks_single_thread() {
    let data = b"a<SEP>b<SEP>c";
    let chunks = par_document_chunks(data.as_slice(), b"<SEP>", 1);
    assert_eq!(chunks.len(), 1);
    let docs: Vec<&[u8]> = chunks.into_iter().flat_map(|c| c.collect()).collect();
    assert_eq!(docs, vec![b"a".as_slice(), b"b", b"c"]);
}

#[test]
fn owned_buffers_are_resources() {
    let owned: Vec<u8> = b"a\nb".to_vec();
    assert_eq!(owned.as_bytes(), b"a\nb");
    assert_eq!(Resource::documents(&owned, b"\n").collect(), vec![b"a".as_slice(), b"b"]);
}

#[test]
fn test_detect_compression() {
    assert!(matches!(detect_compression("data.jsonl.zst"), (_, Compression::Zstd)));
    assert!(matches!(detect_compression("data.jsonl.zstd"), (_, Compression::Zstd)));
    assert!(matches!(detect_compression("data.txt.gz"), (_, Compression::Gzip)));
    assert!(matches!(detect_compression("data.jsonl"), (_, Compression::Uncompressed)));
    assert!(matches!(detect_compression("data.txt"), (_, Compression::Uncompressed)));
}

#[test]
fn test_detect_compression_strips_ext() {
    assert_eq!(detect_compression("data.jsonl.zst").0, "data.jsonl");
    assert_eq!(detect_compression("data.jsonl.zstd").0, "data.jsonl");
    assert_eq!(detect_compression("data.txt.gz").0, "data.txt");
    assert_eq!(detect_compression("data.jsonl.gz").0, "data.jsonl");
    assert_eq!(detect_compression("data.txt").0, "data.txt");
}

#[test]
fn test_detect_format_combinations() {
    // jsonl + compression
    assert!(matches!(detect_format("data.jsonl.zst"), (ContentFormat::Jsonl, Compression::Zstd)));
    assert!(matches!(detect_format("data.jsonl.zstd"), (ContentFormat::Jsonl, Compression::Zstd)));
    assert!(matches!(detect_format("data.jsonl.gz"), (ContentFormat::Jsonl, Compression::Gzip)));
    assert!(matches!(
        detect_format("data.jsonl"),
        (ContentFormat::Jsonl, Compression::Uncompressed)
    ));

    // txt + compression
    assert!(matches!(
        detect_format("data.txt.zst"),
        (ContentFormat::PlainText, Compression::Zstd)
    ));
    assert!(matches!(detect_format("data.txt.gz"), (ContentFormat::PlainText, Compression::Gzip)));
    assert!(matches!(
        detect_format("data.txt"),
        (ContentFormat::PlainText, Compression::Uncompressed)
    ));

    // bare compression extension → plain text (unknown inner format)
    assert!(matches!(detect_format("data.zst"), (ContentFormat::PlainText, Compression::Zstd)));
    assert!(matches!(detect_format("data.gz"), (ContentFormat::PlainText, Compression::Gzip)));

    // unknown → plain text, no compression
    assert!(matches!(
        detect_format("data.csv"),
        (ContentFormat::PlainText, Compression::Uncompressed)
    ));
}

#[test]
fn default_formats_follow_the_name() {
    assert!(matches!(detect_default_format("a.jsonl.gz"), DocFormat::Jsonl { field } if field == "text"));
    assert!(matches!(detect_default_format("a.parquet"), DocFormat::Parquet { column } if column == "text"));
    assert!(matches!(detect_default_format("a.md"), DocFormat::Text { separator: None }));
}

#[test]
fn files_are_cut_between_documents() {
    let jsonl = DocFormat::Jsonl { field: "text".to_string() };
    assert_eq!(chunk_ranges(b"aa\nbb\ncc", &jsonl, 1), vec![(0, 3), (3, 6), (6, 8)]);
    assert_eq!(chunk_ranges(b"aa\nbb\ncc", &jsonl, 100), vec![(0, 8)]);
    let text = DocFormat::Text { separator: Some(b"--".to_vec()) };
    assert_eq!(chunk_ranges(b"aa--bb--cc", &text, 1), vec![(0, 2), (4, 6), (8, 10)]);
    let whole = DocFormat::Text { separator: None };
    assert_eq!(chunk_ranges(b"aa\nbb", &whole, 1), vec![(0, 5)]);
    assert_eq!(chunk_ranges(b"", &jsonl, 1), vec![(0, 0)]);
    assert_eq!(jsonl_chunk_boundaries(b"aa\nbb\ncc\ndd\n", 2), vec![0, 9, 12]);
}

#[test]
fn json_lines_give_their_field() {
    let lines = b"{\"text\": \"one\"}\n\n{\"text\": \"tw\\u00f6\", \"x\": 1}\r\n{\"text\": 3}\n{\"text\": \"four\"}";
    let mut it = JsonLinesSlice::new(lines, "text");
    assert_eq!(it.next().as_deref(), Some(&b"one"[..]));
    assert_eq!(it.next().as_deref(), Some("twö".as_bytes()));
    // A line without a text ends the documents; reading can go on behind it.
    assert_eq!(it.next(), None);
    assert_eq!(it.next().as_deref(), Some(&b"four"[..]));
    assert_eq!(it.next(), None);
    assert_eq!(it.next(), None);
    assert!(matches!(line_step(b"\r\n", "text"), LineStep::Skip));
    assert!(matches!(line_step(b"{}", "text"), LineStep::Stop));
    assert!(matches!(line_step(b"{\"a\":\"b\"}", "a"), LineStep::Document(d) if d == b"b"));
}

#[test]
fn separators_split_across_reads() {
    let mut reader = SeparatorReader::new(b"<SEP>");
    let mut docs: Vec<Vec<u8>> = Vec::new();
    for part in [&b"a<S"[..], b"EP><SEP>b", b"c<SEP", b">d"] {
        reader.push(part);
        while let Some(doc) = reader.next_doc() {
            docs.push(doc);
        }
    }
    if let Some(doc) = reader.finish() {
        docs.push(doc);
    }
    assert_eq!(docs, vec![b"a".to_vec(), b"bc".to_vec(), b"d".to_vec()]);
}

#[test]
fn pretokens_are_counted_in_chunks() {
    let data = b"one two<SEP>two two<SEP>one";
    for n in 1..5 {
        let counts = pretokenize_par_bytes(data, b"<SEP>", n);
        assert_eq!(counts.get(b"one"), Some(2));
        assert_eq!(counts.get(b" two"), Some(2));
        assert_eq!(counts.get(b"two"), Some(1));
        assert_eq!(counts.len(), 3);
    }
    let counts = count_documents(DocumentIter::new(b"a a", b""));
    assert_eq!(counts.get(b" a"), Some(1));
}

#[test]
fn buffers_concatenate_and_cut_at_characters() {
    assert_eq!(parallel_concat(&[vec![1, 2], vec![], vec![3]]), vec![1, 2, 3]);
    let text = "aé日🙂b";
    let ends = chunks_at_utf8_boundaries(text.as_bytes(), 4);
    for &end in &ends {
        assert!(text.is_char_boundary(end));
    }
    assert_eq!(ends.last(), Some(&text.len()));
}

#[test]
fn json_lines_are_counted_in_chunks() {
    let lines = b"{\"text\":\"a b\"}\n{\"text\":\"b\"}\n\n{\"text\":\" b a\"}";
    for n in 1..6 {
        let counts = pretokenize_jsonl_par(lines, "text", n).unwrap();
        assert_eq!(counts.get(b"a"), Some(1));
        assert_eq!(counts.get(b" b"), Some(2));
        assert_eq!(counts.get(b"b"), Some(1));
        assert_eq!(counts.get(b" a"), Some(1));
    }
    let (_, total) = count_json_lines(lines, "text").unwrap();
    assert_eq!(total, 8);
    assert_eq!(pretokenize_jsonl_par(b"", "text", 3).unwrap().len(), 0);
}

#[test]
fn rows_count_by_their_frequency() {
    let rows = vec![
        (Some(b"a b a".to_vec()), Some(3)),
        (None, Some(7)),
        (Some(b"a".to_vec()), None),
        (Some(b"c".to_vec()), Some(0)),
    ];
    let counts = count_rows(&rows);
    assert_eq!(counts.get(b"a"), Some(4));
    assert_eq!(counts.get(b" a"), Some(3));
    assert_eq!(counts.get(b" b"), Some(3));
    assert_eq!(counts.get(b"c"), Some(0));
    assert_eq!(counts.len(), 4);
    assert_eq!(row_parts(5, 4), vec![(0, 2), (2, 4), (4, 5), (5, 5)]);
    assert_eq!(row_parts(0, 2), vec![(0, 0), (0, 0)]);
}
