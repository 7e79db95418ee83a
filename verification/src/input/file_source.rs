//! File formats, and how a file's bytes are cut for parallel encoding.

use vstd::prelude::*;
use vstd::string::StringSliceAdditionalSpecFns;
use vstd::utf8::{
    encode_utf8, encode_utf8_valid_utf8, is_char_boundary,
    is_char_boundary_iff_not_is_continuation_byte,
};

use crate::input::documents::{
    dedup, deduped, docs, int_views, lemma_scan_at, lemma_share, scan_at, scan_from,
};
use crate::input::jsonl::jsonl_docs;
use crate::search::{find_byte_from, first_at, first_byte, lemma_first_byte};
use crate::seqs::{occurs_at, starts_with_at};

verus! {

/// How a file is compressed.
#[derive(Debug, Clone, Copy, PartialEq, Eq, Structural)]
pub enum Compression {
    Uncompressed,
    Gzip,
    Zstd,
}

/// What a file holds.
#[derive(Debug, Clone, Copy, PartialEq, Eq, Structural)]
pub enum ContentFormat {
    PlainText,
    Jsonl,
    Parquet,
}

/// Whether a byte string ends with another.
pub open spec fn ends_with(s: Seq<u8>, end: Seq<u8>) -> bool {
    occurs_at(s, end, s.len() - end.len())
}

pub open spec fn dot_zst() -> Seq<u8> {
    seq![0x2Eu8, 0x7Au8, 0x73u8, 0x74u8]
}

pub open spec fn dot_zstd() -> Seq<u8> {
    seq![0x2Eu8, 0x7Au8, 0x73u8, 0x74u8, 0x64u8]
}

pub open spec fn dot_gz() -> Seq<u8> {
    seq![0x2Eu8, 0x67u8, 0x7Au8]
}

pub open spec fn dot_jsonl() -> Seq<u8> {
    seq![0x2Eu8, 0x6Au8, 0x73u8, 0x6Fu8, 0x6Eu8, 0x6Cu8]
}

pub open spec fn dot_parquet() -> Seq<u8> {
    seq![0x2Eu8, 0x70u8, 0x61u8, 0x72u8, 0x71u8, 0x75u8, 0x65u8, 0x74u8]
}

/// A file name without its compression extension, and what that says.
pub open spec fn compression_of(name: Seq<u8>) -> (Seq<u8>, Compression) {
    if ends_with(name, dot_zst()) {
        (name.take(name.len() - 4), Compression::Zstd)
    } else if ends_with(name, dot_zstd()) {
        (name.take(name.len() - 5), Compression::Zstd)
    } else if ends_with(name, dot_gz()) {
        (name.take(name.len() - 3), Compression::Gzip)
    } else {
        (name, Compression::Uncompressed)
    }
}

/// What the rest of a file name says of the file.
pub open spec fn content_of(stem: Seq<u8>) -> ContentFormat {
    if ends_with(stem, dot_jsonl()) {
        ContentFormat::Jsonl
    } else if ends_with(stem, dot_parquet()) {
        ContentFormat::Parquet
    } else {
        ContentFormat::PlainText
    }
}

fn has_suffix(s: &[u8], end: &[u8]) -> (r: bool)
    ensures
        r == ends_with(s@, end@),
{
    s.len() >= end.len() && starts_with_at(s, end, s.len() - end.len())
}

/// A name without a suffix that starts with a dot.
fn without<'a>(name: &'a str, suffix: &[u8]) -> (r: Option<&'a str>)
    requires
        suffix@.len() > 0,
        suffix@[0] == 0x2E,
    ensures
        match r {
            Some(stem) => ends_with(encode_utf8(name@), suffix@) && encode_utf8(stem@)
                == encode_utf8(name@).take(encode_utf8(name@).len() - suffix@.len()),
            None => !ends_with(encode_utf8(name@), suffix@),
        },
{
    let bytes: &[u8] = name.as_bytes();
    if !has_suffix(bytes, suffix) {
        return None;
    }
    let mid: usize = bytes.len() - suffix.len();
    proof {
        encode_utf8_valid_utf8(name@);
        assert(bytes@.subrange(mid as int, mid + suffix@.len())[0] == bytes@[mid as int]);
        assert(is_char_boundary(bytes@, mid as int)) by {
            if mid > 0 {
                is_char_boundary_iff_not_is_continuation_byte(bytes@, mid as int);
            }
        }
    }
    let parts: (&str, &str) = name.split_at(mid);
    Some(parts.0)
}

/// Strip compression extension and detect compression type: the stem without
/// compression extension, and the compression.
pub fn detect_compression(name: &str) -> (r: (&str, Compression))
    ensures
        (encode_utf8(r.0@), r.1) == compression_of(encode_utf8(name@)),
{
    let zst: [u8; 4] = [0x2E, 0x7A, 0x73, 0x74];
    let zstd: [u8; 5] = [0x2E, 0x7A, 0x73, 0x74, 0x64];
    let gz: [u8; 3] = [0x2E, 0x67, 0x7A];
    assert(zst@ =~= dot_zst());
    assert(zstd@ =~= dot_zstd());
    assert(gz@ =~= dot_gz());
    if let Some(stem) = without(name, &zst) {
        (stem, Compression::Zstd)
    } else if let Some(stem) = without(name, &zstd) {
        (stem, Compression::Zstd)
    } else if let Some(stem) = without(name, &gz) {
        (stem, Compression::Gzip)
    } else {
        (name, Compression::Uncompressed)
    }
}

/// Detect content format from the (uncompressed) filename stem.
pub fn detect_content_format(stem: &str) -> (r: ContentFormat)
    ensures
        r == content_of(encode_utf8(stem@)),
{
    let jsonl: [u8; 6] = [0x2E, 0x6A, 0x73, 0x6F, 0x6E, 0x6C];
    let parquet: [u8; 8] = [0x2E, 0x70, 0x61, 0x72, 0x71, 0x75, 0x65, 0x74];
    assert(jsonl@ =~= dot_jsonl());
    assert(parquet@ =~= dot_parquet());
    if has_suffix(stem.as_bytes(), &jsonl) {
        ContentFormat::Jsonl
    } else if has_suffix(stem.as_bytes(), &parquet) {
        ContentFormat::Parquet
    } else {
        ContentFormat::PlainText
    }
}

/// What the name of a file says of its content and its compression.
pub fn detect_format(name: &str) -> (r: (ContentFormat, Compression))
    ensures
        r.0 == content_of(compression_of(encode_utf8(name@)).0),
        r.1 == compression_of(encode_utf8(name@)).1,
{
    let (stem, compression): (&str, Compression) = detect_compression(name);
    (detect_content_format(stem), compression)
}

/// How to split a file's bytes into documents. Compression is orthogonal and
/// always detected from the file extension.
pub enum DocFormat {
    /// Plain text. With a separator, documents are the pieces between
    /// occurrences; without one, the whole file is a single document.
    Text { separator: Option<Vec<u8>> },
    /// JSON Lines: one document per line, text taken from `field`.
    Jsonl { field: String },
    /// Parquet: one document per row, text taken from `column` (a string or
    /// binary column; null rows become empty documents). Parquet files are
    /// materialized into owned documents up front, and never cut into byte
    /// regions.
    Parquet { column: String },
}

impl DocFormat {
    /// The separator of text documents; empty where the whole input is one.
    pub open spec fn sep(self) -> Seq<u8> {
        match self {
            DocFormat::Text { separator: Some(sep) } => sep@,
            _ => Seq::empty(),
        }
    }

    /// Separator to split text documents on. Empty means "whole input is one
    /// document".
    pub fn separator(&self) -> (r: &[u8])
        ensures
            r@ == self.sep(),
    {
        match self {
            DocFormat::Text { separator: Some(sep) } => sep.as_slice(),
            _ => {
                let none: &[u8] = &[];
                assert(none@ =~= Seq::<u8>::empty());
                none
            },
        }
    }
}

/// Default format for a file name: JSONL (field "text") if the uncompressed name
/// ends in .jsonl, parquet (column "text") if it ends in .parquet, otherwise
/// plain text with the whole file as one document.
pub fn detect_default_format(name: &str) -> (r: DocFormat)
    ensures
        match content_of(compression_of(encode_utf8(name@)).0) {
            ContentFormat::Jsonl => r matches DocFormat::Jsonl { field } && field@ == "text"@,
            ContentFormat::Parquet => r matches DocFormat::Parquet { column } && column@ == "text"@,
            ContentFormat::PlainText => r matches DocFormat::Text { separator: None },
        },
{
    match detect_format(name).0 {
        ContentFormat::Jsonl => DocFormat::Jsonl { field: "text".to_owned() },
        ContentFormat::Parquet => DocFormat::Parquet { column: "text".to_owned() },
        ContentFormat::PlainText => DocFormat::Text { separator: None },
    }
}

/// The documents of a byte region: JSONL lines, separator-delimited text, or the
/// whole region as one document.
pub open spec fn region_docs(s: Seq<u8>, format: DocFormat) -> Seq<Seq<u8>> {
    match format {
        DocFormat::Jsonl { field } => jsonl_docs(s, field@, 0),
        _ => if format.sep().len() > 0 {
            docs(s, format.sep())
        } else {
            seq![s]
        },
    }
}

/// The ranges of `s` from `start` on: each goes to the first separator at least
/// `target` bytes after its start, of those that a scan from there takes, with it
/// where `keep`; the next starts behind the separator.
pub open spec fn ranges_from(s: Seq<u8>, sep: Seq<u8>, keep: bool, target: int, start: int) -> Seq<
    (int, int),
>
    decreases s.len() - start,
{
    if start < 0 || start >= s.len() {
        Seq::empty()
    } else if start + target >= s.len() || target < 0 {
        seq![(start, s.len() as int)]
    } else {
        match scan_at(s, sep, start, start + target) {
            None => seq![(start, s.len() as int)],
            Some(at) => {
                let next = at + sep.len();
                if start < next <= s.len() {
                    seq![
                        (
                            start,
                            if keep {
                                next
                            } else {
                                at
                            },
                        ),
                    ] + ranges_from(s, sep, keep, target, next)
                } else {
                    Seq::empty()
                }
            },
        }
    }
}

/// The ranges that a file's bytes are cut into. An empty file has one empty
/// range.
pub open spec fn file_ranges(s: Seq<u8>, format: DocFormat, target: int) -> Seq<(int, int)> {
    match format {
        DocFormat::Jsonl { field } => if s.len() == 0 {
            seq![(0int, 0int)]
        } else {
            ranges_from(s, seq![0x0Au8], true, target, 0)
        },
        _ => if format.sep().len() == 0 {
            seq![(0int, s.len() as int)]
        } else if s.len() == 0 {
            seq![(0int, 0int)]
        } else {
            ranges_from(s, format.sep(), false, target, 0)
        },
    }
}

/// The ranges of a file lie in it.
pub proof fn lemma_file_ranges(s: Seq<u8>, format: DocFormat, target: int)
    ensures
        forall|k: int|
            0 <= k < file_ranges(s, format, target).len() ==> 0 <= (#[trigger] file_ranges(
                s,
                format,
                target,
            )[k]).0 <= file_ranges(s, format, target)[k].1 <= s.len(),
{
    lemma_ranges_inside(s, seq![0x0Au8], true, target, 0);
    if format.sep().len() > 0 {
        lemma_ranges_inside(s, format.sep(), false, target, 0);
    }
}

proof fn lemma_ranges_inside(s: Seq<u8>, sep: Seq<u8>, keep: bool, target: int, start: int)
    requires
        0 <= start,
        sep.len() > 0,
    ensures
        forall|k: int|
            0 <= k < ranges_from(s, sep, keep, target, start).len() ==> 0 <= (
            #[trigger] ranges_from(s, sep, keep, target, start)[k]).0 <= ranges_from(
                s,
                sep,
                keep,
                target,
                start,
            )[k].1 <= s.len(),
    decreases s.len() - start,
{
    if start < s.len() && !(start + target >= s.len() || target < 0) {
        lemma_scan_at(s, sep, start, start + target);
        if let Some(at) = scan_at(s, sep, start, start + target) {
            let next = at + sep.len();
            if start < next <= s.len() {
                let rest = ranges_from(s, sep, keep, target, next);
                let all = ranges_from(s, sep, keep, target, start);
                lemma_ranges_inside(s, sep, keep, target, next);
                assert forall|k: int| 0 <= k < all.len() implies 0 <= (#[trigger] all[k]).0
                    <= all[k].1 <= s.len() by {
                    if k > 0 {
                        assert(all[k] == rest[k - 1]);
                    }
                }
            }
        }
    }
}

/// Ranges as integers.
pub open spec fn pair_views(v: Seq<(usize, usize)>) -> Seq<(int, int)> {
    v.map_values(|r: (usize, usize)| (r.0 as int, r.1 as int))
}

/// A byte is found where a one-byte string is.
proof fn lemma_byte_at(s: Seq<u8>, byte: u8, from: int)
    requires
        0 <= from <= s.len(),
    ensures
        first_at(s, seq![byte], from) == first_byte(s, byte, from),
    decreases s.len() - from,
{
    let one = seq![byte];
    if from < s.len() {
        assert(s.subrange(from, from + 1)[0] == s[from]);
        assert(occurs_at(s, one, from) == (s[from] == byte)) by {
            if s[from] == byte {
                assert(s.subrange(from, from + 1) =~= one);
            }
        }
        lemma_byte_at(s, byte, from + 1);
    }
}

/// A scan for a byte takes each of its places.
proof fn lemma_scan_byte(s: Seq<u8>, byte: u8, pos: int, from: int)
    requires
        0 <= pos <= from <= s.len(),
    ensures
        scan_at(s, seq![byte], pos, from) == first_byte(s, byte, from),
    decreases s.len() - pos,
{
    let one = seq![byte];
    lemma_byte_at(s, byte, pos);
    lemma_byte_at(s, byte, from);
    lemma_first_byte(s, byte, pos);
    lemma_first_byte(s, byte, from);
    if let Some(at) = first_byte(s, byte, pos) {
        if at < from {
            lemma_scan_byte(s, byte, at + 1, from);
        }
    }
}

/// Cut `bytes` into ranges of roughly `target` bytes, each ending on a document
/// boundary so that no document spans two chunks. A single range is returned
/// when the input is smaller than `target` or has no boundaries (plain text
/// without a separator is one document, which cannot be split without changing
/// tokenization).
pub fn chunk_ranges(bytes: &[u8], format: &DocFormat, target: usize) -> (out: Vec<(usize, usize)>)
    requires
        !(format is Parquet),
        bytes@.len() + target <= usize::MAX,
    ensures
        pair_views(out@) == file_ranges(bytes@, *format, target as int),
{
    let ghost s = bytes@;
    let len: usize = bytes.len();
    let sep: &[u8] = format.separator();
    let jsonl: bool = match format {
        DocFormat::Jsonl { .. } => true,
        _ => false,
    };
    let mut out: Vec<(usize, usize)> = Vec::new();
    if len == 0 || (!jsonl && sep.len() == 0) {
        out.push((0, len));
        assert(pair_views(out@) =~= seq![(0int, len as int)]);
        return out;
    }
    let ghost mark = if jsonl {
        seq![0x0Au8]
    } else {
        sep@
    };
    let mark_len: usize = if jsonl {
        1
    } else {
        sep.len()
    };
    let mut start: usize = 0;
    let ghost want = ranges_from(s, mark, jsonl, target as int, 0);
    assert(pair_views(out@) =~= Seq::<(int, int)>::empty());
    assert(pair_views(out@) + want =~= want);
    while start < len
        invariant
            s == bytes@,
            len == s.len(),
            len + target <= usize::MAX,
            mark == if jsonl {
                seq![0x0Au8]
            } else {
                sep@
            },
            mark_len == mark.len(),
            mark_len > 0,
            start <= len,
            pair_views(out@) + ranges_from(s, mark, jsonl, target as int, start as int) == want,
        decreases len - start,
    {
        let ghost before = out@;
        let probe: usize = start + target;
        proof {
            if probe < len && jsonl {
                lemma_scan_byte(s, 0x0A, start as int, probe as int);
            }
        }
        let found: Option<usize> = if probe >= len {
            None
        } else if jsonl {
            find_byte_from(bytes, 0x0A, probe)
        } else {
            scan_from(bytes, sep, start, probe)
        };
        match found {
            Some(at) => {
                let next: usize = at + mark_len;
                let end: usize = if jsonl {
                    next
                } else {
                    at
                };
                out.push((start, end));
                proof {
                    let rest = ranges_from(s, mark, jsonl, target as int, next as int);
                    assert(pair_views(out@) =~= pair_views(before).push((start as int, end as int)));
                    assert(pair_views(before) + (seq![(start as int, end as int)] + rest)
                        =~= pair_views(out@) + rest);
                }
                start = next;
            },
            None => {
                out.push((start, len));
                proof {
                    assert(pair_views(out@) =~= pair_views(before).push((start as int, len as int)));
                    assert(ranges_from(s, mark, jsonl, target as int, len as int) =~= Seq::<
                        (int, int),
                    >::empty());
                    assert(pair_views(out@) + Seq::<(int, int)>::empty() =~= pair_views(before)
                        + seq![(start as int, len as int)]);
                }
                start = len;
            },
        }
    }
    assert(pair_views(out@) + Seq::<(int, int)>::empty() =~= pair_views(out@));
    out
}

/// The ends of the first line feeds at or after each of the `n` places that
/// divide the bytes evenly, from the `i`th on, as long as there are any.
pub open spec fn newline_bounds(s: Seq<u8>, n: int, i: int) -> Seq<int>
    decreases n - i,
{
    if i >= n || n <= 0 {
        Seq::empty()
    } else {
        match first_byte(s, 0x0A, i * (s.len() as int / n)) {
            Some(at) => seq![at + 1] + newline_bounds(s, n, i + 1),
            None => Seq::empty(),
        }
    }
}

/// Newline-aligned chunk boundaries for parallel JSONL processing.
pub fn jsonl_chunk_boundaries(bytes: &[u8], n_chunks: usize) -> (r: Vec<usize>)
    requires
        n_chunks > 0,
    ensures
        int_views(r@) == deduped(
            seq![0int] + newline_bounds(bytes@, n_chunks as int, 1) + seq![bytes@.len() as int],
        ),
        forall|k: int| 0 <= k < r@.len() ==> #[trigger] r@[k] <= bytes@.len(),
{
    let ghost s = bytes@;
    let n: usize = n_chunks;
    let len: usize = bytes.len();
    let chunk_size: usize = len / n;
    let mut boundaries: Vec<usize> = Vec::new();
    boundaries.push(0);
    let mut i: usize = 1;
    let mut more: bool = true;
    let ghost all = newline_bounds(s, n as int, 1);
    assert(int_views(boundaries@) =~= seq![0int]);
    assert(seq![0int] + all =~= int_views(boundaries@) + all);
    while more && i < n
        invariant
            s == bytes@,
            len == s.len(),
            1 <= i <= n,
            chunk_size == len / n,
            boundaries@.len() >= 1,
            all == newline_bounds(s, n as int, 1),
            more ==> seq![0int] + all == int_views(boundaries@) + newline_bounds(
                s,
                n as int,
                i as int,
            ),
            !more ==> seq![0int] + all == int_views(boundaries@),
            forall|k: int| 0 <= k < boundaries@.len() ==> #[trigger] boundaries@[k] <= len,
        decreases n - i + if more {
            1int
        } else {
            0
        },
    {
        proof {
            lemma_share(len as int, n as int, i as int);
            lemma_first_byte(s, 0x0A, i * chunk_size);
        }
        let target: usize = i * chunk_size;
        let ghost before = boundaries@;
        match find_byte_from(bytes, 0x0A, target) {
            Some(at) => {
                boundaries.push(at + 1);
                proof {
                    let rest = newline_bounds(s, n as int, i as int + 1);
                    assert(int_views(boundaries@) =~= int_views(before).push(at + 1));
                    assert(int_views(before) + (seq![at + 1int] + rest) =~= int_views(boundaries@)
                        + rest);
                }
                i = i + 1;
            },
            None => {
                more = false;
                assert(int_views(before) + Seq::<int>::empty() =~= int_views(before));
            },
        }
    }
    assert(int_views(boundaries@) + Seq::<int>::empty() =~= int_views(boundaries@));
    let ghost before = boundaries@;
    boundaries.push(len);
    assert(int_views(boundaries@) =~= int_views(before) + seq![len as int]);
    let ghost full = boundaries@;
    dedup(&mut boundaries);
    proof {
        assert forall|j: int| 0 <= j < boundaries@.len() implies #[trigger] boundaries@[j]
            <= len by {
            let x = boundaries@[j];
            assert(boundaries@.contains(x));
            let k = choose|k: int| 0 <= k < full.len() && full[k] == x;
            if k < before.len() {
                assert(before[k] == x);
            }
        }
    }
    boundaries
}

} // verus!
