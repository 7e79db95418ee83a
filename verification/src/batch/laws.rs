//! Encoding in chunks is encoding document by document.

use vstd::prelude::*;
use vstd::utf8::valid_utf8;

use crate::batch::chunks::{
    at_least_one, chunks_from, doc_chunks, fragment_parts, fragments, group_chunk, parts_from,
    sizes, ChunkView, Sizes,
};
use crate::batch::encode::{chunk_lens, chunks_lens, texts_of};
use crate::batch::rows::{more_rows, rows_of, sum, well_started, Lens};
use crate::bpe::fragments::{contents, lemma_parts_valid, lemma_split_keeps_tokens};
use crate::bpe::tiktoken::{total_len, Encoding};
use crate::batch::ragged::files_docs;
use crate::input::file_source::{file_ranges, DocFormat};
use crate::input::laws::{cuts_cleanly, docs_of_ranges, lemma_ranges_keep_docs};
use crate::pretokenize::options::PretokenizerType;
use crate::pretokenize::split::{lemma_split_ends, parts, ranges_of, split_ends};

verus! {

/// The texts of two lists of chunks, one after the other.
pub proof fn lemma_texts_of_concat(a: Seq<ChunkView>, b: Seq<ChunkView>)
    ensures
        texts_of(a + b) == texts_of(a) + texts_of(b),
    decreases b.len(),
{
    if b.len() == 0 {
        assert(a + b =~= a);
        assert(texts_of(a) + texts_of(b) =~= texts_of(a));
    } else {
        assert((a + b).drop_last() =~= a + b.drop_last());
        lemma_texts_of_concat(a, b.drop_last());
        assert(texts_of(a + b) =~= texts_of(a) + texts_of(b));
    }
}

/// The texts of fragments are the parts that they are of.
proof fn lemma_texts_of_fragments(ps: Seq<Seq<u8>>)
    ensures
        texts_of(fragments(ps, true)) == ps,
    decreases ps.len(),
{
    let f = fragments(ps, true);
    if ps.len() > 0 {
        lemma_texts_of_fragments(ps.drop_last());
        assert(f.drop_last() =~= fragments(ps.drop_last(), true));
        assert(f.last().texts() =~= seq![ps.last()]);
        assert(ps.drop_last() + seq![ps.last()] =~= ps);
    } else {
        assert(texts_of(f) =~= ps);
    }
}

/// Rows stay well started with one more chunk that goes on with a row or starts
/// one.
proof fn lemma_well_started_push(pre: Seq<Lens>, c: Lens)
    requires
        well_started(pre),
        c.1 && c.0.len() > 0 ==> rows_of(pre).len() > 0,
    ensures
        well_started(pre.push(c)),
        rows_of(pre.push(c)) == more_rows(rows_of(pre), c),
{
    let all = pre.push(c);
    assert(all.drop_last() =~= pre);
    assert forall|k: int|
        0 <= k < all.len() && (#[trigger] all[k]).1 && all[k].0.len() > 0 implies rows_of(
        all.take(k),
    ).len() > 0 by {
        if k < pre.len() {
            assert(pre[k] == all[k]);
            assert(all.take(k) =~= pre.take(k));
        } else {
            assert(all.take(k) =~= pre);
        }
    }
}

/// The fragments of one document make one row.
proof fn lemma_fragment_rows(e: Encoding, pre: Seq<Lens>, ps: Seq<Seq<u8>>)
    requires
        ps.len() > 0,
        well_started(pre),
    ensures
        well_started(pre + chunks_lens(e, fragments(ps, true))),
        rows_of(pre + chunks_lens(e, fragments(ps, true))) == rows_of(pre).push(
            sum(e.counts(ps)),
        ),
    decreases ps.len(),
{
    let block = chunks_lens(e, fragments(ps, true));
    let init = ps.drop_last();
    let c = block.last();
    let a = chunks_lens(e, fragments(init, true));
    assert(block.drop_last() =~= a);
    assert(pre + block =~= (pre + a).push(c));
    assert(fragments(ps, true).last().texts() =~= seq![ps.last()]);
    let n = e.tokens(ps.last()).len() as int;
    assert(c.0 =~= seq![n]);
    assert(e.counts(ps).drop_last() =~= e.counts(init));
    if init.len() == 0 {
        assert(a =~= Seq::<Lens>::empty());
        assert(pre + a =~= pre);
        assert(sum(e.counts(init)) == 0);
        lemma_well_started_push(pre, c);
        assert(rows_of(pre) + c.0 =~= rows_of(pre).push(n));
    } else {
        lemma_fragment_rows(e, pre, init);
        lemma_well_started_push(pre + a, c);
        let rows = rows_of(pre + a);
        assert(c.0.skip(1) =~= Seq::<int>::empty());
        assert(more_rows(rows, c) =~= rows_of(pre).push(sum(e.counts(init)) + n));
    }
}

/// A document that holds anything has a part.
proof fn lemma_has_parts(doc: Seq<u8>, head_len: int, big: int, tail: int, added: Seq<Seq<u8>>)
    requires
        doc.len() > 0,
    ensures
        fragment_parts(doc, head_len, big, tail, added).len() > 0,
{
    let ends = split_ends(doc, added, at_least_one(big), 0);
    lemma_split_ends(doc, added, at_least_one(big), 0);
    let (a, b) = ranges_of(0, ends)[0];
    if ends.len() > 1 {
        assert(ends[0] < ends[ends.len() - 1]);
    }
    assert(0 < ends[0] <= doc.len());
    let part = doc.subrange(a, b);
    assert(part.len() > 0);
    lemma_split_ends(part, added, at_least_one(tail), 0);
}

/// The parts of an oversized document from range `i` on hold the tokens of the
/// ranges from there on.
proof fn lemma_parts_from_keep(e: Encoding, doc: Seq<u8>, i: int, head_len: int, big: int, tail: int)
    requires
        valid_utf8(doc),
        doc.len() > 0,
        e.added_texts(),
        e.scheme == PretokenizerType::GPT2,
        e.nfc_apart(),
        0 <= i <= split_ends(doc, contents(e.added), at_least_one(big), 0).len(),
    ensures
        ({
            let added = contents(e.added);
            let ranges = ranges_of(0, split_ends(doc, added, at_least_one(big), 0));
            e.pieces_of_texts(parts_from(doc, ranges, i, head_len, tail, added))
                == e.pieces_of_texts(parts(doc, ranges).skip(i))
        }),
    decreases split_ends(doc, contents(e.added), at_least_one(big), 0).len() - i,
{
    let added = contents(e.added);
    let ends = split_ends(doc, added, at_least_one(big), 0);
    let ranges = ranges_of(0, ends);
    let all = parts(doc, ranges);
    if i < ends.len() {
        lemma_parts_from_keep(e, doc, i + 1, head_len, big, tail);
        let (a, b) = ranges[i];
        let part = doc.subrange(a, b);
        lemma_parts_valid(doc, added, at_least_one(big), i);
        assert(part == all[i]);
        let rest = parts_from(doc, ranges, i + 1, head_len, tail, added);
        assert(all.skip(i) =~= seq![part] + all.skip(i + 1));
        e.lemma_texts_concat(seq![part], all.skip(i + 1));
        e.lemma_texts_one(part);
        if a < head_len || b - a <= tail {
            e.lemma_texts_concat(seq![part], rest);
        } else {
            let sub = parts(part, ranges_of(0, split_ends(part, added, at_least_one(tail), 0)));
            e.lemma_texts_concat(sub, rest);
            lemma_split_keeps_tokens(e, part, at_least_one(tail));
        }
    } else {
        assert(all.skip(i) =~= Seq::<Seq<u8>>::empty());
    }
}

/// Encoding the fragments of an oversized document one after the other gives the
/// tokens of the document.
pub proof fn lemma_fragments_keep_tokens(
    e: Encoding,
    doc: Seq<u8>,
    head_len: int,
    big: int,
    tail: int,
)
    requires
        valid_utf8(doc),
        doc.len() > 0,
        e.added_texts(),
        e.scheme == PretokenizerType::GPT2,
        e.nfc_apart(),
    ensures
        e.pieces_of_texts(fragment_parts(doc, head_len, big, tail, contents(e.added)))
            == e.pieces(doc),
{
    let added = contents(e.added);
    let ranges = ranges_of(0, split_ends(doc, added, at_least_one(big), 0));
    lemma_parts_from_keep(e, doc, 0, head_len, big, tail);
    assert(parts(doc, ranges).skip(0) =~= parts(doc, ranges));
    lemma_split_keeps_tokens(e, doc, at_least_one(big));
}

/// Whether documents can be split without changing their tokens: they are valid
/// UTF-8, and the added tokens are too.
pub open spec fn splits_cleanly(e: Encoding, docs: Seq<Seq<u8>>) -> bool {
    &&& forall|i: int| 0 <= i < docs.len() ==> valid_utf8(#[trigger] docs[i])
    &&& e.added_texts()
}

/// Whether chunks, after rows that are there already, hold texts: a row for each,
/// and, where `clean`, the rows' lengths and the ids.
spec fn hold(
    e: Encoding,
    pre: Seq<Lens>,
    chunks: Seq<ChunkView>,
    texts: Seq<Seq<u8>>,
    clean: bool,
) -> bool {
    let lens = pre + chunks_lens(e, chunks);
    &&& well_started(lens)
    &&& rows_of(lens).len() == rows_of(pre).len() + texts.len()
    &&& clean ==> {
        &&& rows_of(lens) == rows_of(pre) + e.counts(texts)
        &&& e.ids_of_texts(texts_of(chunks)) == e.ids_of_texts(texts)
    }
}

/// Chunks and more chunks hold what the two hold.
proof fn lemma_hold_concat(
    e: Encoding,
    pre: Seq<Lens>,
    a: Seq<ChunkView>,
    ta: Seq<Seq<u8>>,
    b: Seq<ChunkView>,
    tb: Seq<Seq<u8>>,
    clean: bool,
)
    requires
        hold(e, pre, a, ta, clean),
        hold(e, pre + chunks_lens(e, a), b, tb, clean),
    ensures
        hold(e, pre, a + b, ta + tb, clean),
{
    let mid = pre + chunks_lens(e, a);
    assert(pre + chunks_lens(e, a + b) =~= mid + chunks_lens(e, b));
    lemma_texts_of_concat(a, b);
    e.lemma_ids_concat(texts_of(a), texts_of(b));
    e.lemma_ids_concat(ta, tb);
    assert(e.counts(ta + tb) =~= e.counts(ta) + e.counts(tb));
    assert(rows_of(pre) + (e.counts(ta) + e.counts(tb)) =~= rows_of(pre) + e.counts(ta) + e.counts(
        tb,
    ));
}

/// The fragments of a document hold it.
proof fn lemma_hold_fragments(
    e: Encoding,
    pre: Seq<Lens>,
    doc: Seq<u8>,
    head_len: int,
    big: int,
    tail: int,
    clean: bool,
)
    requires
        well_started(pre),
        doc.len() > 0,
        clean ==> valid_utf8(doc) && e.added_texts(),
        e.scheme == PretokenizerType::GPT2,
        e.nfc_apart(),
    ensures
        hold(
            e,
            pre,
            fragments(fragment_parts(doc, head_len, big, tail, contents(e.added)), true),
            seq![doc],
            clean,
        ),
{
    let ps = fragment_parts(doc, head_len, big, tail, contents(e.added));
    lemma_has_parts(doc, head_len, big, tail, contents(e.added));
    lemma_fragment_rows(e, pre, ps);
    lemma_texts_of_fragments(ps);
    if clean {
        lemma_fragments_keep_tokens(e, doc, head_len, big, tail);
        e.lemma_texts_one(doc);
        assert(e.ids_of_texts(ps) == e.ids_of_texts(seq![doc]));
        e.lemma_counts_sum(ps);
        let c = e.counts(seq![doc]);
        assert(c =~= seq![e.tokens(doc).len() as int]);
        assert(e.ids_of_texts(seq![doc]).len() == e.tokens(doc).len());
        assert(rows_of(pre).push(sum(e.counts(ps))) =~= rows_of(pre) + c);
    }
}

/// What the chunks of documents hold, after rows that are there already.
proof fn lemma_chunks_from(
    e: Encoding,
    pre: Seq<Lens>,
    docs: Seq<Seq<u8>>,
    i: int,
    group: Seq<Seq<u8>>,
    emitted: int,
    acc: int,
    z: Sizes,
    target: int,
)
    requires
        0 <= i <= docs.len(),
        0 <= target,
        well_started(pre),
        e.scheme == PretokenizerType::GPT2,
        e.nfc_apart(),
    ensures
        hold(
            e,
            pre,
            chunks_from(docs, i, group, emitted, acc, z, target, contents(e.added)),
            group + docs.skip(i),
            splits_cleanly(e, docs),
        ),
    decreases docs.len() - i,
{
    let added = contents(e.added);
    let clean = splits_cleanly(e, docs);
    let all = group + docs.skip(i);
    lemma_group(e, pre, group);
    if i >= docs.len() {
        assert(all =~= group);
    } else {
        let doc = docs[i];
        let tail = docs.skip(i + 1);
        assert(docs.skip(i) =~= seq![doc] + tail);
        assert(clean ==> valid_utf8(docs[i]));
        let none = Seq::<Seq<u8>>::empty();
        assert(none + tail =~= tail);
        if doc.len() > 2 * target {
            let out = emitted + acc;
            let head = z.head_len(out);
            let frags = fragments(
                fragment_parts(doc, head, z.frag_big, z.tail_target, added),
                true,
            );
            let rest = chunks_from(docs, i + 1, none, out + doc.len(), 0, z, target, added);
            let g = group_chunk(group);
            let p1 = pre + chunks_lens(e, g);
            lemma_hold_fragments(e, p1, doc, head, z.frag_big, z.tail_target, clean);
            lemma_hold_concat(e, pre, g, group, frags, seq![doc], clean);
            let p2 = pre + chunks_lens(e, g + frags);
            lemma_chunks_from(e, p2, docs, i + 1, none, out + doc.len(), 0, z, target);
            lemma_hold_concat(e, pre, g + frags, group + seq![doc], rest, tail, clean);
            assert(all =~= group + seq![doc] + tail);
        } else {
            let g = group.push(doc);
            let a = acc + doc.len();
            assert(g + tail =~= all);
            if a >= z.group_target(emitted) {
                let first = seq![ChunkView::Docs(g)];
                let rest = chunks_from(docs, i + 1, none, emitted + a, 0, z, target, added);
                let p1 = pre + chunks_lens(e, first);
                assert(group_chunk(g) =~= first);
                lemma_group(e, pre, g);
                lemma_chunks_from(e, p1, docs, i + 1, none, emitted + a, 0, z, target);
                lemma_hold_concat(e, pre, first, g, rest, tail, clean);
            } else {
                lemma_chunks_from(e, pre, docs, i + 1, g, emitted, a, z, target);
            }
        }
    }
}

/// The chunks of ranges of a file.
pub open spec fn regions_of(s: Seq<u8>, format: DocFormat, ranges: Seq<(int, int)>) -> Seq<
    ChunkView,
> {
    ranges.map_values(
        |r: (int, int)| ChunkView::Region { bytes: s.subrange(r.0, r.1), format },
    )
}

/// The chunks of files that are cut at document boundaries.
pub open spec fn region_chunks(files: Seq<Seq<u8>>, format: DocFormat, target: int) -> Seq<
    ChunkView,
>
    decreases files.len(),
{
    if files.len() == 0 {
        Seq::empty()
    } else {
        region_chunks(files.drop_last(), format, target) + regions_of(
            files.last(),
            format,
            file_ranges(files.last(), format, target),
        )
    }
}

/// The texts of ranges of a file are their documents.
proof fn lemma_texts_of_regions(s: Seq<u8>, format: DocFormat, ranges: Seq<(int, int)>)
    ensures
        texts_of(regions_of(s, format, ranges)) == docs_of_ranges(s, format, ranges),
    decreases ranges.len(),
{
    let all = regions_of(s, format, ranges);
    if ranges.len() > 0 {
        let one = seq![all[0]];
        let rest = regions_of(s, format, ranges.drop_first());
        lemma_texts_of_regions(s, format, ranges.drop_first());
        assert(all =~= one + rest);
        lemma_texts_of_concat(one, rest);
        assert(one.drop_last() =~= Seq::<ChunkView>::empty());
        assert(texts_of(one.drop_last()) =~= Seq::<Seq<u8>>::empty());
        assert(texts_of(one) =~= all[0].texts());
    } else {
        assert(texts_of(all) =~= docs_of_ranges(s, format, ranges));
    }
}

/// Cutting files into regions changes none of their documents.
pub proof fn lemma_regions_keep_docs(files: Seq<Seq<u8>>, format: DocFormat, target: int)
    requires
        !(format is Parquet),
        0 <= target,
        forall|i: int| 0 <= i < files.len() ==> cuts_cleanly(#[trigger] files[i], format),
    ensures
        texts_of(region_chunks(files, format, target)) == files_docs(files, format),
    decreases files.len(),
{
    if files.len() > 0 {
        let init = files.drop_last();
        assert forall|i: int| 0 <= i < init.len() implies cuts_cleanly(
            #[trigger] init[i],
            format,
        ) by {
            assert(init[i] == files[i]);
        }
        lemma_regions_keep_docs(init, format, target);
        let s = files.last();
        assert(cuts_cleanly(files[files.len() - 1], format));
        let ranges = file_ranges(s, format, target);
        lemma_texts_of_regions(s, format, ranges);
        lemma_ranges_keep_docs(s, format, target);
        lemma_texts_of_concat(region_chunks(init, format, target), regions_of(s, format, ranges));
    }
}

/// No region goes on with the one before.
pub proof fn lemma_regions_whole(files: Seq<Seq<u8>>, format: DocFormat, target: int)
    ensures
        forall|k: int|
            0 <= k < region_chunks(files, format, target).len() ==> !(#[trigger] region_chunks(
                files,
                format,
                target,
            )[k]).continues(),
    decreases files.len(),
{
    if files.len() > 0 {
        let init = region_chunks(files.drop_last(), format, target);
        let all = region_chunks(files, format, target);
        lemma_regions_whole(files.drop_last(), format, target);
        assert forall|k: int| 0 <= k < all.len() implies !(#[trigger] all[k]).continues() by {
            if k < init.len() {
                assert(all[k] == init[k]);
            }
        }
    }
}

/// Chunks of whole documents have a row for each.
pub proof fn lemma_whole_chunks(e: Encoding, chunks: Seq<ChunkView>)
    requires
        forall|k: int| 0 <= k < chunks.len() ==> !(#[trigger] chunks[k]).continues(),
    ensures
        well_started(chunks_lens(e, chunks)),
        rows_of(chunks_lens(e, chunks)) == e.counts(texts_of(chunks)),
    decreases chunks.len(),
{
    let lens = chunks_lens(e, chunks);
    if chunks.len() > 0 {
        let init = chunks.drop_last();
        assert forall|k: int| 0 <= k < init.len() implies !(#[trigger] init[k]).continues() by {
            assert(init[k] == chunks[k]);
        }
        lemma_whole_chunks(e, init);
        let c = lens.last();
        assert(!chunks[chunks.len() - 1].continues());
        assert(lens =~= chunks_lens(e, init).push(c));
        lemma_well_started_push(chunks_lens(e, init), c);
        assert(e.counts(texts_of(chunks)) =~= e.counts(texts_of(init)) + c.0);
    } else {
        assert(e.counts(texts_of(chunks)) =~= Seq::<int>::empty());
    }
}

/// The rows of a group of documents.
proof fn lemma_group(e: Encoding, pre: Seq<Lens>, group: Seq<Seq<u8>>)
    requires
        well_started(pre),
    ensures
        well_started(pre + chunks_lens(e, group_chunk(group))),
        rows_of(pre + chunks_lens(e, group_chunk(group))) == rows_of(pre) + e.counts(group),
        texts_of(group_chunk(group)) == group,
{
    let g = group_chunk(group);
    let lens = chunks_lens(e, g);
    if group.len() > 0 {
        let c = chunk_lens(e, ChunkView::Docs(group));
        assert(pre + lens =~= pre.push(c));
        lemma_well_started_push(pre, c);
        assert(g.drop_last() =~= Seq::<ChunkView>::empty());
        assert(texts_of(g.drop_last()) =~= Seq::<Seq<u8>>::empty());
        assert(texts_of(g) =~= group);
    } else {
        assert(pre + lens =~= pre);
        assert(e.counts(group) =~= Seq::<int>::empty());
        assert(rows_of(pre) + e.counts(group) =~= rows_of(pre));
        assert(texts_of(g) =~= group);
    }
}

/// Encoding documents in chunks is encoding them one after the other: the same
/// tokens in the same order, and a row for each document. The rows are right for
/// every input; the tokens are where the documents split cleanly.
pub proof fn lemma_chunks_keep_docs(e: Encoding, docs: Seq<Seq<u8>>, target: int, lpt: bool)
    requires
        0 <= target,
        e.scheme == PretokenizerType::GPT2,
        e.nfc_apart(),
    ensures
        ({
            let chunks = doc_chunks(docs, target, contents(e.added), lpt);
            let lens = chunks_lens(e, chunks);
            &&& well_started(lens)
            &&& rows_of(lens).len() == docs.len()
            &&& splits_cleanly(e, docs) ==> {
                &&& rows_of(lens) == e.counts(docs)
                &&& e.ids_of_texts(texts_of(chunks)) == e.ids_of_texts(docs)
            }
        }),
{
    let chunks = doc_chunks(docs, target, contents(e.added), lpt);
    let pre = Seq::<Lens>::empty();
    let none = Seq::<Seq<u8>>::empty();
    let z = sizes(total_len(docs) as int, target, lpt);
    assert(rows_of(pre) =~= Seq::<int>::empty());
    lemma_chunks_from(e, pre, docs, 0, none, 0, 0, z, target);
    assert(pre + chunks_lens(e, chunks) =~= chunks_lens(e, chunks));
    assert(none + docs.skip(0) =~= docs);
    assert(rows_of(pre) + e.counts(docs) =~= e.counts(docs));
}

} // verus!
