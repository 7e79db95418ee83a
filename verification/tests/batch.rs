//! Batches.

use gigatoken::batch::chunks::{build_doc_chunks, chunk_target_bytes, EncodeChunk};
use gigatoken::batch::encode::{
    count_tokens, count_tokens_batch, encode_chunks_gathered_with_cap, encode_into,
};
use gigatoken::batch::gather::Committer;
use gigatoken::batch::matcher::SubstringMatcher;
use gigatoken::batch::padding::{
    pad_truncate_matrix, split_flat, wrap_rows, PadError, PadTruncate, WrapTruncate,
};
use gigatoken::batch::ragged::{
    encode_chunks_gathered, encode_docs_ragged, encode_docs_ragged_serial, encode_files_docs,
    encode_files_docs_serial,
};
use gigatoken::batch::rows::{assemble_ragged, row_counts, ChunkTokens};
use gigatoken::bpe::merge::MergeTable;
use gigatoken::bpe::tiktoken::Tokenizer;
use gigatoken::input::file_source::DocFormat;
use gigatoken::token::TokenId;

fn byte_tokenizer() -> Tokenizer {
    let vocab = (0..=u8::MAX).map(|b| vec![b]).collect();
    Tokenizer::new(MergeTable::new(), vocab, None)
}

fn text(state: &mut u64, len: usize) -> Vec<u8> {
    (0..len)
        .map(|_| {
            *state = state
                .wrapping_mul(6364136223846793005)
                .wrapping_add(1442695040888963407);
            let r = (*state >> 33) as usize;
            b"abcdefghijklmnopqrstuvwxyz0123456789    "[r % 40]
        })
        .collect()
}

#[test]
fn parallel_ragged_matches_serial() {
    let proto = byte_tokenizer();

    // Deterministic pseudo-text with plenty of alnum-space-alpha cut
    // points for safe_split_ranges.
    let mut state = 0x9E3779B97F4A7C15u64;
    // Mid-size docs that group into Docs chunks, one oversized doc
    // that splits into Fragment chunks (spanning the head/tail
    // boundary, so both fragment sizes appear), then small docs so
    // continuation rows land mid-output.
    let mut owned: Vec<Vec<u8>> = Vec::new();
    for _ in 0..30 {
        owned.push(text(&mut state, 300 << 10));
    }
    owned.push(text(&mut state, 12 << 20));
    for _ in 0..30 {
        owned.push(text(&mut state, 100 << 10));
    }
    let docs: Vec<&[u8]> = owned.iter().map(|d| d.as_slice()).collect();

    let mut ids_ref: Vec<u32> = Vec::new();
    let mut lens_ref: Vec<i64> = Vec::new();
    let mut serial = proto.fork();
    for doc in &docs {
        encode_into(&mut serial, doc, &mut ids_ref, &mut lens_ref);
    }

    for lpt in [true, false] {
        let (flat, lens) = encode_docs_ragged(&proto, &docs, 4, lpt);
        assert_eq!(lens, lens_ref, "lens mismatch (lpt={lpt})");
        assert_eq!(flat, ids_ref, "ids mismatch (lpt={lpt})");
    }

    // The sequential entry point must match too.
    let (flat, lens) = encode_docs_ragged_serial(&proto, &docs);
    assert_eq!(lens, lens_ref, "lens mismatch (serial)");
    assert_eq!(flat, ids_ref, "ids mismatch (serial)");
}

#[test]
fn gather_fallbacks_match() {
    let proto = byte_tokenizer();

    let mut state = 0xD1B54A32D192ED03u64;
    let owned: Vec<Vec<u8>> = (0..20).map(|_| text(&mut state, 1 << 20)).collect();
    let docs: Vec<&[u8]> = owned.iter().map(|d| d.as_slice()).collect();
    let total: usize = docs.iter().map(|d| d.len()).sum();
    let added = proto.added_token_contents();
    let chunks = build_doc_chunks(&docs, total, chunk_target_bytes(total, 4), &added, true);
    assert!(chunks.len() > 1, "test must exercise the parallel path");

    let mut worker = proto.fork();
    let (flat_ref, lens_ref) = encode_chunks_gathered(&mut worker, &chunks, total);
    // Byte-level vocab: one token per byte, so any cap below `total`
    // overflows; total / 3 overflows mid-flight with a committed
    // prefix behind it.
    for cap in [0, 1, total / 3] {
        let mut worker = proto.fork();
        let (flat, lens) = encode_chunks_gathered_with_cap(&mut worker, &chunks, cap);
        assert_eq!(lens, lens_ref, "lens mismatch (cap={cap})");
        assert_eq!(flat, flat_ref, "ids mismatch (cap={cap})");
    }
}

#[test]
fn oversized_documents_become_fragments() {
    let doc = b"abc def ".repeat(40);
    let docs: Vec<&[u8]> = vec![b"short", &doc, b"last"];
    let total = docs.iter().map(|d| d.len()).sum();
    let chunks = build_doc_chunks(&docs, total, 20, &[], false);
    assert!(matches!(&chunks[0], EncodeChunk::Docs(d) if d.len() == 1));
    assert!(matches!(&chunks[1], EncodeChunk::Fragment { first: true, .. }));
    assert!(matches!(&chunks[2], EncodeChunk::Fragment { first: false, .. }));
    let mut joined: Vec<u8> = Vec::new();
    for chunk in &chunks {
        if let EncodeChunk::Fragment { bytes, .. } = chunk {
            joined.extend_from_slice(bytes);
        }
    }
    assert_eq!(joined, doc);
    assert_eq!(chunk_target_bytes(0, 1), 1 << 20);
    assert_eq!(chunk_target_bytes(1 << 30, 4), 1 << 24);
}

fn chunk(ids: &[u32], lens: &[i64], continues: bool) -> ChunkTokens {
    ChunkTokens { ids: ids.to_vec(), lens: lens.to_vec(), continues }
}

#[test]
fn continuations_join_the_row_before() {
    let chunks = vec![
        chunk(&[1, 2, 3], &[1, 2], false),
        chunk(&[4, 5], &[2], true),
        chunk(&[6], &[0, 1], false),
    ];
    assert_eq!(row_counts(&chunks), [1, 4, 0, 1]);
    assert_eq!(assemble_ragged(chunks), (vec![1, 2, 3, 4, 5, 6], vec![1, 4, 0, 1]));
}

#[test]
fn chunks_are_committed_in_order() {
    assert!(Committer::try_new(0).is_none());
    let mut c = Committer::try_new(3).unwrap();
    let outs = vec![Some(chunk(&[1, 2], &[2], false)), None, Some(chunk(&[4], &[1], false))];
    c.advance(&outs);
    let done = vec![
        chunk(&[1, 2], &[2], false),
        chunk(&[3], &[1], false),
    ];
    assert_eq!(c.finish(&done, 3), Some(vec![1, 2, 3]));
    let mut c = Committer::try_new(1).unwrap();
    c.advance(&outs);
    assert_eq!(c.finish(&done, 3), None);
}

#[test]
fn files_encode_as_their_documents() {
    let proto = byte_tokenizer();
    let files: Vec<&[u8]> = vec![b"ab<S>cd<S>", b"", b"<S>e"];
    let text = DocFormat::Text { separator: Some(b"<S>".to_vec()) };
    let serial = encode_files_docs_serial(&proto, &files, &text);
    assert_eq!(serial, (b"abcde".iter().map(|&b| b as u32).collect(), vec![2, 2, 1]));
    assert_eq!(encode_files_docs(&proto, &files, &text, 2, true), serial);
    let whole = DocFormat::Text { separator: None };
    let (_, lens) = encode_files_docs(&proto, &files, &whole, 2, true);
    assert_eq!(lens, [10, 0, 4]);
    assert_eq!(encode_files_docs_serial(&proto, &files, &whole).1, lens);
    let lines: Vec<&[u8]> = vec![b"{\"text\":\"xy\"}\n{\"text\":\"z\"}\n"];
    let jsonl = DocFormat::Jsonl { field: "text".to_string() };
    let serial = encode_files_docs_serial(&proto, &lines, &jsonl);
    assert_eq!(serial, (vec![120, 121, 122], vec![2, 1]));
    assert_eq!(encode_files_docs(&proto, &lines, &jsonl, 2, false), serial);
}

#[test]
fn tokens_are_counted() {
    let mut t = byte_tokenizer();
    assert_eq!(count_tokens(&mut t, "héllo"), 6);
    assert_eq!(count_tokens_batch(&mut t, &["a".to_string(), "".to_string()]), [1, 0]);
}

fn options() -> PadTruncate {
    PadTruncate {
        pad_id: 9,
        max_length: None,
        pad_to_max_length: false,
        truncate: false,
        pad_left: false,
        truncate_left: false,
        prefix: vec![],
        suffix: vec![],
    }
}

#[test]
fn rows_are_padded_and_truncated() {
    let flat = [1, 2, 3, 4, 5, 6];
    let counts = [3, 1, 2];
    assert_eq!(
        pad_truncate_matrix(&flat, &counts, &options()),
        Ok((vec![1, 2, 3, 4, 9, 9, 5, 6, 9], vec![3, 1, 2], 3))
    );
    let left = PadTruncate {
        pad_left: true,
        truncate: true,
        truncate_left: true,
        max_length: Some(4),
        prefix: vec![7],
        suffix: vec![8],
        ..options()
    };
    assert_eq!(
        pad_truncate_matrix(&flat, &counts, &left),
        Ok((vec![7, 2, 3, 8, 9, 7, 4, 8, 7, 5, 6, 8], vec![4, 3, 4], 4))
    );
    let wide = PadTruncate { pad_to_max_length: true, max_length: Some(4), ..options() };
    assert_eq!(pad_truncate_matrix(&flat, &counts, &wide).map(|r| r.2), Ok(4));
    assert_eq!(pad_truncate_matrix(&[], &[], &options()), Ok((vec![], vec![], 0)));
}

#[test]
fn padding_that_cannot_be_is_refused() {
    let flat = [1, 2, 3];
    let no_max = PadTruncate { truncate: true, ..options() };
    assert_eq!(pad_truncate_matrix(&flat, &[3], &no_max), Err(PadError::TruncateNeedsMaxLength));
    let no_room = PadTruncate {
        truncate: true,
        max_length: Some(1),
        prefix: vec![7],
        suffix: vec![8],
        ..options()
    };
    assert_eq!(
        pad_truncate_matrix(&flat, &[3], &no_room),
        Err(PadError::NoRoom { max: 1, extra: 2 })
    );
    let pad = PadTruncate { pad_to_max_length: true, ..options() };
    assert_eq!(pad_truncate_matrix(&flat, &[3], &pad), Err(PadError::PadNeedsMaxLength));
    let short = PadTruncate { pad_to_max_length: true, max_length: Some(2), ..options() };
    assert_eq!(
        pad_truncate_matrix(&flat, &[3], &short),
        Err(PadError::TooLong { longest: 3, max: 2 })
    );
}

#[test]
fn rows_are_wrapped() {
    let opts = WrapTruncate {
        prefix: vec![7],
        suffix: vec![],
        max_tokens: Some(2),
        truncate_left: true,
    };
    assert_eq!(wrap_rows(&[1, 2, 3, 4], &[3, 0, 1], &opts), vec![vec![7, 2, 3], vec![7], vec![7, 4]]);
    assert_eq!(split_flat(b"abcd", &[1, 0, 3]), vec![&b"a"[..], b"", b"bcd"]);
}

#[test]
fn substrings_are_found_whatever_overlaps() {
    let patterns = vec!["append", "appendage", "app", "xyz"];
    let matcher = SubstringMatcher::new(patterns.iter().map(|p| p.to_string()).collect()).unwrap();
    assert_eq!(matcher.len(), 4);
    assert_eq!(matcher.present("the appendage"), vec![0, 1, 2]);
    assert_eq!(matcher.present("nothing"), Vec::<usize>::new());
    assert_eq!(matcher.scan(b"xyz app"), vec![false, false, true, true]);
    assert_eq!(matcher.scan_docs(&[b"none", b"here"]), Ok(()));
    assert_eq!(matcher.scan_docs(&[b"xyz", b"an app"]), Err(vec![2, 3]));
}

#[test]
fn added_tokens_survive_the_split() {
    let mut proto = byte_tokenizer();
    proto.set_added_tokens(vec![(b"two words".to_vec(), TokenId(300))]);
    let doc = b"some two words and ".repeat(300000);
    let docs: Vec<&[u8]> = vec![&doc];
    let serial = encode_docs_ragged_serial(&proto, &docs);
    assert_eq!(encode_docs_ragged(&proto, &docs, 1, false), serial);
    assert_eq!(serial.0.iter().filter(|&&t| t == 300).count(), 300000);
}

#[test]
fn normalized_documents_split_as_they_encode_whole() {
    let mut proto = byte_tokenizer();
    proto.set_normalize_nfc(true);
    let mut state = 0x2545F4914F6CDD1Du64;
    let mut long = text(&mut state, 3 << 20);
    // Marks that compose, on both sides of every cut.
    for at in (0..long.len()).step_by(97) {
        if long[at] == b' ' {
            long[at] = b'~';
        }
    }
    let long = String::from_utf8(long).unwrap().replace('~', " e\u{301}x o\u{308}");
    let docs: Vec<&[u8]> = vec!["A\u{30a} b".as_bytes(), long.as_bytes(), b"plain words"];
    let serial = encode_docs_ragged_serial(&proto, &docs);
    assert_eq!(serial.1[0], 4);
    for lpt in [true, false] {
        assert_eq!(encode_docs_ragged(&proto, &docs, 4, lpt), serial);
    }
}

#[test]
fn rows_hold_what_their_fragments_do() {
    // Not valid UTF-8, so that a cut may change tokens; the row still counts them.
    let proto = byte_tokenizer();
    let mut state = 0x9E3779B97F4A7C15u64;
    let mut long = text(&mut state, 4 << 20);
    long.push(0xFF);
    let docs: Vec<&[u8]> = vec![b"one", &long, b""];
    let (ids, lens) = encode_docs_ragged(&proto, &docs, 4, true);
    assert_eq!(lens, [3, long.len() as i64, 0]);
    assert_eq!(ids.len(), long.len() + 3);
}
