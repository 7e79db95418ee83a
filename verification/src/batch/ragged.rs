//! Batches of documents and of files, encoded into one flat id buffer plus
//! per-document row lengths.

use vstd::prelude::*;

use crate::batch::chunks::{
    at_least_min, build_doc_chunks, chunk_target_bytes, chunk_views, doc_chunks, lemma_total_grows,
    ChunkView, EncodeChunk,
};
use crate::batch::encode::{
    chunks_lens, encode_chunks_gathered_with_cap, encode_into, encode_region, texts_of,
};
use crate::batch::laws::{
    lemma_chunks_keep_docs, lemma_regions_keep_docs, lemma_regions_whole, lemma_whole_chunks,
    region_chunks, regions_of, splits_cleanly,
};
use crate::batch::rows::{int_lens, rows_of, well_started};
use crate::bpe::fragments::contents;
use crate::bpe::tiktoken::{total_len, Encoding, Tokenizer};
use crate::input::file_source::{
    chunk_ranges, file_ranges, lemma_file_ranges, pair_views, region_docs, DocFormat,
};
use crate::input::laws::cuts_cleanly;
use crate::pretokenize::options::PretokenizerType;
use crate::pretokenize::pretoken::slice_views;

verus! {

/// The bytes of a list together.
pub fn total_bytes(list: &[&[u8]]) -> (n: usize)
    requires
        total_len(slice_views(list@)) <= usize::MAX,
    ensures
        n == total_len(slice_views(list@)),
{
    let ghost views = slice_views(list@);
    let mut n: usize = 0;
    assert(views.take(0) =~= Seq::<Seq<u8>>::empty());
    for i in 0..list.len()
        invariant
            views == slice_views(list@),
            total_len(views) <= usize::MAX,
            n == total_len(views.take(i as int)),
    {
        proof {
            let t = views.take(i as int + 1);
            assert(t.drop_last() =~= views.take(i as int));
            assert(t.last() == views[i as int]);
            lemma_total_grows(views, i as int + 1);
        }
        n = n + list[i].len();
    }
    assert(views.take(views.len() as int) =~= views);
    n
}

/// Whether a result is that of encoding texts one after the other: their ids,
/// and, where the number of ids fits, the row lengths.
pub open spec fn is_ragged(e: Encoding, texts: Seq<Seq<u8>>, r: (Vec<u32>, Vec<i64>)) -> bool {
    &&& r.0@ == e.ids_of_texts(texts)
    &&& r.1@.len() == texts.len()
    &&& r.0@.len() <= i64::MAX ==> int_lens(r.1@) == e.counts(texts)
}

/// The target of the chunks of so many bytes for so many threads.
pub open spec fn target_of(total: int, threads: int) -> int {
    at_least_min(total / (16 * threads))
}

/// Encode documents in chunks (splitting oversized documents at pretoken-safe
/// boundaries), and assemble the ragged result: one flat id buffer plus
/// per-document row lengths. `threads` and `lpt` shape the chunks only: where the
/// documents split cleanly the result is that of encoding them one after the
/// other.
pub fn encode_docs_ragged(proto: &Tokenizer, docs: &[&[u8]], threads: usize, lpt: bool) -> (r: (
    Vec<u32>,
    Vec<i64>,
))
    requires
        proto.wf(),
        proto.encoding().scheme == PretokenizerType::GPT2,
        0 < threads <= usize::MAX / 16,
        total_len(slice_views(docs@)) <= usize::MAX,
    ensures
        ({
            let e = proto.encoding();
            let views = slice_views(docs@);
            let target = target_of(total_len(views) as int, threads as int);
            let chunks = doc_chunks(views, target, contents(e.added), lpt);
            &&& r.0@ == e.ids_of_texts(texts_of(chunks))
            &&& r.1@.len() == docs@.len()
            &&& r.0@.len() <= i64::MAX ==> int_lens(r.1@) == rows_of(chunks_lens(e, chunks))
            &&& splits_cleanly(e, views) ==> is_ragged(e, views, r)
        }),
{
    let ghost e = proto.encoding();
    let ghost views = slice_views(docs@);
    let total: usize = total_bytes(docs);
    let target: usize = chunk_target_bytes(total, threads);
    let added: Vec<&[u8]> = proto.added_token_contents();
    assert(slice_views(added@) =~= contents(e.added));
    assert(total as int / (16 * threads) <= usize::MAX / 2) by (nonlinear_arith)
        requires
            0 < threads,
            total <= usize::MAX,
    ;
    let chunks: Vec<EncodeChunk> = build_doc_chunks(docs, total, target, added.as_slice(), lpt);
    proof {
        proto.lemma_wf();
        lemma_chunks_keep_docs(e, views, target as int, lpt);
    }
    let mut worker: Tokenizer = proto.fork();
    encode_chunks_gathered(&mut worker, chunks.as_slice(), total)
}

/// Encode all chunks and gather them. A token consumes at least one input byte,
/// so the number of bytes bounds the gather.
pub fn encode_chunks_gathered(
    tokenizer: &mut Tokenizer,
    chunks: &[EncodeChunk],
    total_bytes: usize,
) -> (r: (Vec<u32>, Vec<i64>))
    requires
        old(tokenizer).wf(),
        old(tokenizer).encoding().scheme == PretokenizerType::GPT2,
        well_started(
            chunks_lens(old(tokenizer).encoding(), chunk_views(chunks@)),
        ),
    ensures
        final(tokenizer).wf(),
        final(tokenizer).encoding() == old(tokenizer).encoding(),
        r.0@ == old(tokenizer).encoding().ids_of_texts(texts_of(chunk_views(chunks@))),
        ({
            let lens = chunks_lens(old(tokenizer).encoding(), chunk_views(chunks@));
            let rows = rows_of(lens);
            &&& r.1@.len() == rows.len()
            &&& r.0@.len() <= i64::MAX ==> int_lens(r.1@) == rows
        }),
{
    encode_chunks_gathered_with_cap(tokenizer, chunks, total_bytes)
}

/// Encode every document in order.
pub fn encode_docs_ragged_serial(proto: &Tokenizer, docs: &[&[u8]]) -> (r: (Vec<u32>, Vec<i64>))
    requires
        proto.wf(),
        proto.encoding().scheme == PretokenizerType::GPT2,
    ensures
        is_ragged(proto.encoding(), slice_views(docs@), r),
{
    let ghost e = proto.encoding();
    let ghost views = slice_views(docs@);
    let mut worker: Tokenizer = proto.fork();
    let mut ids: Vec<u32> = Vec::new();
    let mut lens: Vec<i64> = Vec::with_capacity(docs.len());
    proof {
        e.lemma_ids_none();
        assert(views.take(0) =~= Seq::<Seq<u8>>::empty());
    }
    for i in 0..docs.len()
        invariant
            views == slice_views(docs@),
            worker.wf(),
            worker.encoding() == e,
            e.scheme == PretokenizerType::GPT2,
            ids@ == e.ids_of_texts(views.take(i as int)),
            lens@ == e.lens_of_texts(views.take(i as int)),
    {
        encode_into(&mut worker, docs[i], &mut ids, &mut lens);
        proof {
            e.lemma_ids_push(views.take(i as int), views[i as int]);
            assert(views.take(i as int + 1) =~= views.take(i as int).push(views[i as int]));
        }
    }
    proof {
        assert(views.take(views.len() as int) =~= views);
        if ids@.len() <= i64::MAX {
            e.lemma_counts_fit(views);
        }
    }
    (ids, lens)
}

/// The documents of files, one file after the other.
pub open spec fn files_docs(files: Seq<Seq<u8>>, format: DocFormat) -> Seq<Seq<u8>>
    decreases files.len(),
{
    if files.len() == 0 {
        Seq::empty()
    } else {
        files_docs(files.drop_last(), format) + region_docs(files.last(), format)
    }
}

/// Whether the files of a batch can be cut without changing any token: where each
/// file is one document it splits cleanly, else its documents do not straddle a
/// cut.
pub open spec fn files_cut_cleanly(e: Encoding, files: Seq<Seq<u8>>, format: DocFormat) -> bool {
    if format matches DocFormat::Text { separator: None } {
        splits_cleanly(e, files)
    } else {
        forall|i: int| 0 <= i < files.len() ==> cuts_cleanly(#[trigger] files[i], format)
    }
}

/// Files that are one document each are their own documents.
proof fn lemma_whole_files(files: Seq<Seq<u8>>, format: DocFormat)
    requires
        format matches DocFormat::Text { separator: None },
    ensures
        files_docs(files, format) == files,
    decreases files.len(),
{
    if files.len() > 0 {
        lemma_whole_files(files.drop_last(), format);
        assert(files.drop_last() + seq![files.last()] =~= files);
    } else {
        assert(files_docs(files, format) =~= files);
    }
}

/// Encode the documents of files. With no separator each text file is one
/// document (small files are grouped, huge ones split at pretoken-safe
/// boundaries); otherwise each file is cut into byte regions at document
/// boundaries and documents are extracted while encoding.
pub fn encode_files_docs(
    proto: &Tokenizer,
    files: &[&[u8]],
    format: &DocFormat,
    threads: usize,
    lpt: bool,
) -> (r: (Vec<u32>, Vec<i64>))
    requires
        proto.wf(),
        proto.encoding().scheme == PretokenizerType::GPT2,
        !(format is Parquet),
        0 < threads <= usize::MAX / 16,
        2 * total_len(slice_views(files@)) + 0x10_0000 <= usize::MAX,
    ensures
        ({
            let e = proto.encoding();
            let views = slice_views(files@);
            let target = target_of(total_len(views) as int, threads as int);
            &&& if format matches DocFormat::Text { separator: None } {
                let chunks = doc_chunks(views, target, contents(e.added), lpt);
                &&& r.0@ == e.ids_of_texts(texts_of(chunks))
                &&& r.1@.len() == files@.len()
                &&& r.0@.len() <= i64::MAX ==> int_lens(r.1@) == rows_of(chunks_lens(e, chunks))
            } else {
                is_ragged(e, texts_of(region_chunks(views, *format, target)), r)
            }
            &&& files_cut_cleanly(e, views, *format) ==> is_ragged(
                e,
                files_docs(views, *format),
                r,
            )
        }),
{
    let ghost e = proto.encoding();
    let ghost views = slice_views(files@);
    if let DocFormat::Text { separator: None } = format {
        proof {
            lemma_whole_files(views, *format);
        }
        return encode_docs_ragged(proto, files, threads, lpt);
    }
    let total: usize = total_bytes(files);
    let target: usize = chunk_target_bytes(total, threads);
    assert(total as int / (16 * threads) <= total) by (nonlinear_arith)
        requires
            0 < threads,
            0 <= total,
    ;
    let mut chunks: Vec<EncodeChunk> = Vec::new();
    proof {
        assert(views.take(0) =~= Seq::<Seq<u8>>::empty());
        assert(chunk_views(chunks@) =~= Seq::<ChunkView>::empty());
    }
    for i in 0..files.len()
        invariant
            views == slice_views(files@),
            !(format is Parquet),
            2 * total_len(views) + 0x10_0000 <= usize::MAX,
            target == target_of(total_len(views) as int, threads as int),
            target <= total_len(views) || target == 0x10_0000,
            chunk_views(chunks@) == region_chunks(views.take(i as int), *format, target as int),
    {
        let bytes: &[u8] = files[i];
        let ghost s = views[i as int];
        let ghost before = chunk_views(chunks@);
        proof {
            let t = views.take(i as int + 1);
            assert(t.drop_last() =~= views.take(i as int));
            assert(t.last() == s);
            lemma_total_grows(views, i as int + 1);
            lemma_file_ranges(s, *format, target as int);
        }
        let ranges: Vec<(usize, usize)> = chunk_ranges(bytes, format, target);
        let ghost all = file_ranges(s, *format, target as int);
        let ghost regions = regions_of(s, *format, all);
        assert(before + regions.take(0) =~= before);
        for j in 0..ranges.len()
            invariant
                bytes@ == s,
                all == pair_views(ranges@),
                regions == regions_of(s, *format, all),
                forall|k: int|
                    0 <= k < all.len() ==> 0 <= (#[trigger] all[k]).0 <= all[k].1 <= s.len(),
                chunk_views(chunks@) == before + regions.take(j as int),
        {
            let (a, b): (usize, usize) = ranges[j];
            assert(all[j as int] == (a as int, b as int));
            let ghost prior = chunks@;
            chunks.push(EncodeChunk::Region { bytes: &bytes[a..b], format });
            proof {
                assert(chunk_views(chunks@) =~= chunk_views(prior).push(regions[j as int]));
                assert(regions.take(j as int + 1) =~= regions.take(j as int).push(
                    regions[j as int],
                ));
                assert(chunk_views(chunks@) =~= before + regions.take(j as int + 1));
            }
        }
        assert(regions.take(regions.len() as int) =~= regions);
    }
    proof {
        assert(views.take(views.len() as int) =~= views);
        let all = region_chunks(views, *format, target as int);
        lemma_regions_whole(views, *format, target as int);
        lemma_whole_chunks(e, all);
        if files_cut_cleanly(e, views, *format) {
            lemma_regions_keep_docs(views, *format, target as int);
        }
    }
    let mut worker: Tokenizer = proto.fork();
    encode_chunks_gathered(&mut worker, chunks.as_slice(), total)
}

/// Extract and encode every document in file order.
pub fn encode_files_docs_serial(proto: &Tokenizer, files: &[&[u8]], format: &DocFormat) -> (r: (
    Vec<u32>,
    Vec<i64>,
))
    requires
        proto.wf(),
        proto.encoding().scheme == PretokenizerType::GPT2,
        !(format is Parquet),
    ensures
        is_ragged(proto.encoding(), files_docs(slice_views(files@), *format), r),
{
    let ghost e = proto.encoding();
    let ghost views = slice_views(files@);
    let mut worker: Tokenizer = proto.fork();
    let mut ids: Vec<u32> = Vec::new();
    let mut lens: Vec<i64> = Vec::new();
    proof {
        e.lemma_ids_none();
        assert(views.take(0) =~= Seq::<Seq<u8>>::empty());
    }
    for i in 0..files.len()
        invariant
            views == slice_views(files@),
            worker.wf(),
            worker.encoding() == e,
            e.scheme == PretokenizerType::GPT2,
            ids@ == e.ids_of_texts(files_docs(views.take(i as int), *format)),
            lens@ == e.lens_of_texts(files_docs(views.take(i as int), *format)),
    {
        let ghost done = files_docs(views.take(i as int), *format);
        encode_region(&mut worker, files[i], format, &mut ids, &mut lens);
        proof {
            let t = views.take(i as int + 1);
            assert(t.drop_last() =~= views.take(i as int));
            assert(t.last() == views[i as int]);
            let more = region_docs(views[i as int], *format);
            e.lemma_ids_concat(done, more);
            assert(e.lens_of_texts(done + more) =~= e.lens_of_texts(done) + e.lens_of_texts(more));
        }
    }
    proof {
        assert(views.take(views.len() as int) =~= views);
        if ids@.len() <= i64::MAX {
            e.lemma_counts_fit(files_docs(views, *format));
        }
    }
    (ids, lens)
}

} // verus!
