//! Batches for SentencePiece models. Merges can span a whole document, so
//! oversized documents are never split.

use vstd::prelude::*;
use vstd::string::StringSliceAdditionalSpecFns;
use vstd::utf8::{encode_utf8, valid_utf8};

use crate::batch::chunks::{chunk_target_bytes, lemma_total_grows};
use crate::batch::laws::{lemma_regions_keep_docs, lemma_texts_of_concat, region_chunks, regions_of};
use crate::batch::encode::texts_of;
use crate::batch::ragged::{files_docs, target_of, total_bytes};
use crate::batch::rows::{
    assemble_ragged, flat_ids, int_lens, lemma_sum_bounds, lens_fit, lens_of, rows_of, sum,
    sum_lens, well_started, ChunkTokens,
};
use crate::bpe::tiktoken::{append_ids, raw_ids, total_len};
use crate::input::documents::DocumentIter;
use crate::input::file_source::{
    chunk_ranges, file_ranges, lemma_file_ranges, pair_views, region_docs, DocFormat,
};
use crate::input::jsonl::JsonLinesSlice;
use crate::input::laws::cuts_cleanly;
use crate::pretokenize::pretoken::slice_views;
use crate::sentencepiece::bpe::SentencePieceBPE;
use crate::sentencepiece::encoder::Encoder;
use crate::sentencepiece::model::SpModel;
use crate::text::text_of;
use crate::token::TokenId;

verus! {

impl SpModel {
    /// The ids of texts, one after the other.
    pub open spec fn ids_of_texts(self, texts: Seq<Seq<u8>>) -> Seq<u32>
        decreases texts.len(),
    {
        if texts.len() == 0 {
            Seq::empty()
        } else {
            self.ids_of_texts(texts.drop_last()) + raw_ids(self.tokens(texts.last()))
        }
    }

    /// How many ids each text has.
    pub open spec fn counts(self, texts: Seq<Seq<u8>>) -> Seq<int> {
        texts.map_values(|t: Seq<u8>| self.tokens(t).len() as int)
    }

    /// How many ids each text has, as row lengths.
    pub open spec fn lens_of_texts(self, texts: Seq<Seq<u8>>) -> Seq<i64> {
        texts.map_values(|t: Seq<u8>| self.tokens(t).len() as i64)
    }

    /// The ids of one more text.
    pub proof fn lemma_ids_push(self, a: Seq<Seq<u8>>, text: Seq<u8>)
        ensures
            self.ids_of_texts(a.push(text)) == self.ids_of_texts(a) + raw_ids(self.tokens(text)),
            self.lens_of_texts(a.push(text)) == self.lens_of_texts(a).push(
                self.tokens(text).len() as i64,
            ),
    {
        assert(a.push(text).drop_last() =~= a);
        assert(self.lens_of_texts(a.push(text)) =~= self.lens_of_texts(a).push(
            self.tokens(text).len() as i64,
        ));
    }

    /// The ids of two lists of texts, one after the other.
    pub proof fn lemma_ids_concat(self, a: Seq<Seq<u8>>, b: Seq<Seq<u8>>)
        ensures
            self.ids_of_texts(a + b) == self.ids_of_texts(a) + self.ids_of_texts(b),
        decreases b.len(),
    {
        if b.len() == 0 {
            assert(a + b =~= a);
            assert(self.ids_of_texts(a) + self.ids_of_texts(b) =~= self.ids_of_texts(a));
        } else {
            assert((a + b).drop_last() =~= a + b.drop_last());
            self.lemma_ids_concat(a, b.drop_last());
            assert(self.ids_of_texts(a + b) =~= self.ids_of_texts(a) + self.ids_of_texts(b));
        }
    }

    /// The counts of texts make up the number of their ids.
    pub proof fn lemma_counts_sum(self, texts: Seq<Seq<u8>>)
        ensures
            sum(self.counts(texts)) == self.ids_of_texts(texts).len(),
        decreases texts.len(),
    {
        if texts.len() > 0 {
            self.lemma_counts_sum(texts.drop_last());
            assert(self.counts(texts).drop_last() =~= self.counts(texts.drop_last()));
        }
    }

    /// Where the counts of texts fit, they are the row lengths.
    pub proof fn lemma_counts_fit(self, texts: Seq<Seq<u8>>)
        requires
            self.ids_of_texts(texts).len() <= i64::MAX,
        ensures
            int_lens(self.lens_of_texts(texts)) == self.counts(texts),
    {
        self.lemma_counts_sum(texts);
        let counts = self.counts(texts);
        assert forall|k: int| 0 <= k < texts.len() implies #[trigger] int_lens(
            self.lens_of_texts(texts),
        )[k] == counts[k] by {
            lemma_sum_bounds(counts, k);
        }
        assert(int_lens(self.lens_of_texts(texts)) =~= counts);
    }

    /// Whether a result is that of encoding texts one after the other: their ids,
    /// and, where the number of ids fits, the row lengths.
    pub open spec fn is_ragged(self, texts: Seq<Seq<u8>>, r: (Vec<u32>, Vec<i64>)) -> bool {
        &&& r.0@ == self.ids_of_texts(texts)
        &&& r.1@.len() == texts.len()
        &&& r.0@.len() <= i64::MAX ==> int_lens(r.1@) == self.counts(texts)
    }
}

/// The bytes of texts.
pub open spec fn text_bytes(texts: Seq<&str>) -> Seq<Seq<u8>> {
    texts.map_values(|t: &str| encode_utf8(t@))
}

/// Append one text's token ids to `ids` and its row length to `lens`, with
/// `encoder`'s caches.
pub fn sp_encode_into(
    encoder: &mut Encoder<'_>,
    text: &str,
    ids: &mut Vec<u32>,
    lens: &mut Vec<i64>,
)
    requires
        old(encoder).wf(),
    ensures
        final(encoder).wf(),
        final(encoder).model() == old(encoder).model(),
        final(ids)@ == old(ids)@ + raw_ids(old(encoder).model().tokens(encode_utf8(text@))),
        final(lens)@ == old(lens)@.push(
            old(encoder).model().tokens(encode_utf8(text@)).len() as i64,
        ),
{
    let tokens: Vec<TokenId> = encoder.encode_raw(text);
    append_ids(ids, tokens.as_slice());
    lens.push(tokens.len() as i64);
}

/// Encode texts in order.
fn encode_texts(encoder: &mut Encoder<'_>, texts: &[&str]) -> (r: (Vec<u32>, Vec<i64>))
    requires
        old(encoder).wf(),
    ensures
        final(encoder).wf(),
        final(encoder).model() == old(encoder).model(),
        r.0@ == old(encoder).model().ids_of_texts(text_bytes(texts@)),
        r.1@ == old(encoder).model().lens_of_texts(text_bytes(texts@)),
{
    let ghost m = encoder.model();
    let ghost views = text_bytes(texts@);
    let mut ids: Vec<u32> = Vec::new();
    let mut lens: Vec<i64> = Vec::with_capacity(texts.len());
    proof {
        assert(views.take(0) =~= Seq::<Seq<u8>>::empty());
        assert(m.lens_of_texts(views.take(0)) =~= Seq::<i64>::empty());
    }
    for i in 0..texts.len()
        invariant
            views == text_bytes(texts@),
            encoder.wf(),
            encoder.model() == m,
            ids@ == m.ids_of_texts(views.take(i as int)),
            lens@ == m.lens_of_texts(views.take(i as int)),
    {
        sp_encode_into(encoder, texts[i], &mut ids, &mut lens);
        proof {
            m.lemma_ids_push(views.take(i as int), views[i as int]);
            assert(views.take(i as int + 1) =~= views.take(i as int).push(views[i as int]));
        }
    }
    assert(views.take(views.len() as int) =~= views);
    (ids, lens)
}

/// The groups of texts from text `i` on, where `group` of `acc` bytes is open: a
/// group is closed as soon as it holds `target` bytes.
pub open spec fn groups_from(
    texts: Seq<Seq<u8>>,
    i: int,
    group: Seq<Seq<u8>>,
    acc: int,
    target: int,
) -> Seq<Seq<Seq<u8>>>
    decreases texts.len() - i,
{
    if i < 0 || i >= texts.len() {
        if group.len() > 0 {
            seq![group]
        } else {
            Seq::empty()
        }
    } else {
        let g = group.push(texts[i]);
        let a = acc + texts[i].len();
        if a >= target {
            seq![g] + groups_from(texts, i + 1, Seq::empty(), 0, target)
        } else {
            groups_from(texts, i + 1, g, a, target)
        }
    }
}

/// Groups of texts as bytes.
pub open spec fn group_views(groups: Seq<Vec<&str>>) -> Seq<Seq<Seq<u8>>> {
    groups.map_values(|g: Vec<&str>| text_bytes(g@))
}

/// Group whole texts into chunks of about `target` bytes.
pub fn sp_doc_chunks<'a>(texts: &[&'a str], target: usize) -> (r: Vec<Vec<&'a str>>)
    requires
        total_len(text_bytes(texts@)) <= usize::MAX,
    ensures
        group_views(r@) == groups_from(text_bytes(texts@), 0, Seq::empty(), 0, target as int),
{
    let ghost views = text_bytes(texts@);
    let ghost want = groups_from(views, 0, Seq::empty(), 0, target as int);
    let mut chunks: Vec<Vec<&'a str>> = Vec::new();
    let mut group: Vec<&'a str> = Vec::new();
    let mut acc: usize = 0;
    proof {
        assert(group_views(chunks@) + want =~= want);
        assert(text_bytes(group@) =~= Seq::<Seq<u8>>::empty());
        assert(views.take(0) =~= Seq::<Seq<u8>>::empty());
    }
    for i in 0..texts.len()
        invariant
            views == text_bytes(texts@),
            total_len(views) <= usize::MAX,
            acc <= total_len(views.take(i as int)),
            group_views(chunks@) + groups_from(
                views,
                i as int,
                text_bytes(group@),
                acc as int,
                target as int,
            ) == want,
    {
        let text: &'a str = texts[i];
        let ghost g0 = text_bytes(group@);
        proof {
            let t = views.take(i as int + 1);
            assert(t.drop_last() =~= views.take(i as int));
            assert(t.last() == views[i as int]);
            lemma_total_grows(views, i as int + 1);
        }
        group.push(text);
        acc = acc + text.as_bytes().len();
        let ghost g = text_bytes(group@);
        assert(g =~= g0.push(views[i as int]));
        if acc >= target {
            let full: Vec<&'a str> = group;
            let ghost prior = chunks@;
            chunks.push(full);
            group = Vec::new();
            acc = 0;
            proof {
                let rest = groups_from(views, i as int + 1, Seq::empty(), 0, target as int);
                assert(text_bytes(group@) =~= Seq::<Seq<u8>>::empty());
                assert(group_views(chunks@) =~= group_views(prior).push(g));
                assert(group_views(prior) + (seq![g] + rest) =~= group_views(chunks@) + rest);
            }
        }
    }
    let ghost prior = group_views(chunks@);
    let ghost g = text_bytes(group@);
    if group.len() > 0 {
        chunks.push(group);
        assert(group_views(chunks@) =~= prior + seq![g]);
    } else {
        assert(prior + Seq::<Seq<Seq<u8>>>::empty() =~= prior);
    }
    chunks
}

/// Encode a group of texts with an encoder of its own.
pub fn sp_encode_chunk(tokenizer: &SentencePieceBPE, texts: &[&str]) -> (out: ChunkTokens)
    requires
        tokenizer.wf(),
    ensures
        out.ids@ == tokenizer@.ids_of_texts(text_bytes(texts@)),
        out.lens@ == tokenizer@.lens_of_texts(text_bytes(texts@)),
        !out.continues,
{
    let mut encoder: Encoder<'_> = tokenizer.encoder();
    let (ids, lens): (Vec<u32>, Vec<i64>) = encode_texts(&mut encoder, texts);
    ChunkTokens { ids, lens, continues: false }
}

/// Groups of texts, one after the other.
pub open spec fn grouped(groups: Seq<Seq<Seq<u8>>>) -> Seq<Seq<u8>>
    decreases groups.len(),
{
    if groups.len() == 0 {
        Seq::empty()
    } else {
        grouped(groups.drop_last()) + groups.last()
    }
}

proof fn lemma_grouped_concat(a: Seq<Seq<Seq<u8>>>, b: Seq<Seq<Seq<u8>>>)
    ensures
        grouped(a + b) == grouped(a) + grouped(b),
    decreases b.len(),
{
    if b.len() == 0 {
        assert(a + b =~= a);
        assert(grouped(a) + grouped(b) =~= grouped(a));
    } else {
        assert((a + b).drop_last() =~= a + b.drop_last());
        lemma_grouped_concat(a, b.drop_last());
        assert(grouped(a + b) =~= grouped(a) + grouped(b));
    }
}

proof fn lemma_groups_from(
    texts: Seq<Seq<u8>>,
    i: int,
    group: Seq<Seq<u8>>,
    acc: int,
    target: int,
)
    requires
        0 <= i <= texts.len(),
    ensures
        grouped(groups_from(texts, i, group, acc, target)) == group + texts.skip(i),
    decreases texts.len() - i,
{
    let all = groups_from(texts, i, group, acc, target);
    let none = Seq::<Seq<u8>>::empty();
    if i >= texts.len() {
        assert(group + texts.skip(i) =~= group);
        if group.len() > 0 {
            assert(all.drop_last() =~= Seq::<Seq<Seq<u8>>>::empty());
            assert(grouped(all.drop_last()) =~= none);
            assert(grouped(all) =~= group);
        } else {
            assert(grouped(all) =~= group);
        }
    } else {
        let g = group.push(texts[i]);
        let a = acc + texts[i].len();
        assert(group + texts.skip(i) =~= g + texts.skip(i + 1));
        if a >= target {
            let rest = groups_from(texts, i + 1, none, 0, target);
            lemma_groups_from(texts, i + 1, none, 0, target);
            lemma_grouped_concat(seq![g], rest);
            assert(seq![g].drop_last() =~= Seq::<Seq<Seq<u8>>>::empty());
            assert(grouped(seq![g].drop_last()) =~= none);
            assert(grouped(seq![g]) =~= g);
            assert(none + texts.skip(i + 1) =~= texts.skip(i + 1));
        } else {
            lemma_groups_from(texts, i + 1, g, a, target);
        }
    }
}

/// Grouping texts keeps each of them, in order.
pub proof fn lemma_groups_keep_texts(texts: Seq<Seq<u8>>, target: int)
    ensures
        grouped(groups_from(texts, 0, Seq::empty(), 0, target)) == texts,
{
    let none = Seq::<Seq<u8>>::empty();
    lemma_groups_from(texts, 0, none, 0, target);
    assert(none + texts.skip(0) =~= texts);
}

/// Chunks that are the encodings of groups of whole texts.
spec fn encode_groups(m: SpModel, groups: Seq<Seq<Seq<u8>>>, outs: Seq<ChunkTokens>) -> bool {
    &&& outs.len() == groups.len()
    &&& forall|k: int|
        0 <= k < outs.len() ==> {
            &&& (#[trigger] outs[k]).ids@ == m.ids_of_texts(groups[k])
            &&& outs[k].lens@ == m.lens_of_texts(groups[k])
            &&& !outs[k].continues
        }
}

/// What the encodings of groups hold together.
proof fn lemma_encode_groups(m: SpModel, groups: Seq<Seq<Seq<u8>>>, outs: Seq<ChunkTokens>)
    requires
        encode_groups(m, groups, outs),
    ensures
        flat_ids(outs) == m.ids_of_texts(grouped(groups)),
        well_started(lens_of(outs)),
        rows_of(lens_of(outs)) == int_lens(m.lens_of_texts(grouped(groups))),
    decreases outs.len(),
{
    let lens = lens_of(outs);
    if outs.len() > 0 {
        let a = outs.drop_last();
        let g = groups.drop_last();
        let n = outs.len() - 1;
        assert forall|k: int| 0 <= k < a.len() implies (#[trigger] a[k]).ids@ == m.ids_of_texts(
            g[k],
        ) && a[k].lens@ == m.lens_of_texts(g[k]) && !a[k].continues by {
            assert(outs[k] == a[k]);
        }
        lemma_encode_groups(m, g, a);
        assert(outs[n].ids@ == m.ids_of_texts(groups[n]));
        m.lemma_ids_concat(grouped(g), groups.last());
        assert(lens.drop_last() =~= lens_of(a));
        assert(m.lens_of_texts(grouped(groups)) =~= m.lens_of_texts(grouped(g)) + m.lens_of_texts(
            groups.last(),
        ));
        assert(rows_of(lens) =~= int_lens(m.lens_of_texts(grouped(groups))));
    } else {
        assert(rows_of(lens) =~= int_lens(m.lens_of_texts(grouped(groups))));
    }
}

/// The ragged result of the encodings of groups.
fn assemble_groups(outs: Vec<ChunkTokens>, Ghost(m): Ghost<SpModel>, Ghost(groups): Ghost<
    Seq<Seq<Seq<u8>>>,
>) -> (r: (Vec<u32>, Vec<i64>))
    requires
        encode_groups(m, groups, outs@),
    ensures
        m.is_ragged(grouped(groups), r),
{
    proof {
        let texts = grouped(groups);
        lemma_encode_groups(m, groups, outs@);
        if m.ids_of_texts(texts).len() <= i64::MAX {
            m.lemma_counts_fit(texts);
            m.lemma_counts_sum(texts);
            lemma_groups_fit(m, groups, outs@);
        }
    }
    assemble_ragged(outs)
}

/// Where the ids of groups fit, their row lengths do.
proof fn lemma_groups_fit(m: SpModel, groups: Seq<Seq<Seq<u8>>>, outs: Seq<ChunkTokens>)
    requires
        encode_groups(m, groups, outs),
        m.ids_of_texts(grouped(groups)).len() <= i64::MAX,
    ensures
        lens_fit(lens_of(outs)),
        sum_lens(lens_of(outs)) == m.ids_of_texts(grouped(groups)).len(),
    decreases outs.len(),
{
    let lens = lens_of(outs);
    if outs.len() > 0 {
        let a = outs.drop_last();
        let g = groups.drop_last();
        let n = outs.len() - 1;
        assert forall|k: int| 0 <= k < a.len() implies (#[trigger] a[k]).ids@ == m.ids_of_texts(
            g[k],
        ) && a[k].lens@ == m.lens_of_texts(g[k]) && !a[k].continues by {
            assert(outs[k] == a[k]);
        }
        m.lemma_ids_concat(grouped(g), groups.last());
        lemma_groups_fit(m, g, a);
        assert(lens.drop_last() =~= lens_of(a));
        assert(outs[n].lens@ == m.lens_of_texts(groups[n]));
        m.lemma_counts_fit(groups[n]);
        m.lemma_counts_sum(groups[n]);
        assert forall|k: int, i: int|
            0 <= k < lens.len() && 0 <= i < lens[k].0.len() implies 0 <= #[trigger] lens[k].0[i] by {
            if k < n {
                assert(lens[k] == lens_of(a)[k]);
            } else {
                assert(lens[k].0 =~= m.counts(groups[n]));
            }
        }
    }
}

/// Group whole texts into chunks and encode each with its own encoder. The
/// result is that of encoding the texts one after the other.
pub fn sp_encode_docs_ragged(tokenizer: &SentencePieceBPE, texts: &[&str], threads: usize) -> (r: (
    Vec<u32>,
    Vec<i64>,
))
    requires
        tokenizer.wf(),
        0 < threads <= usize::MAX / 16,
        total_len(text_bytes(texts@)) <= usize::MAX,
    ensures
        tokenizer@.is_ragged(text_bytes(texts@), r),
{
    let ghost m = tokenizer@;
    let ghost views = text_bytes(texts@);
    let mut total: usize = 0;
    assert(views.take(0) =~= Seq::<Seq<u8>>::empty());
    for i in 0..texts.len()
        invariant
            views == text_bytes(texts@),
            total_len(views) <= usize::MAX,
            total == total_len(views.take(i as int)),
    {
        proof {
            let t = views.take(i as int + 1);
            assert(t.drop_last() =~= views.take(i as int));
            assert(t.last() == views[i as int]);
            lemma_total_grows(views, i as int + 1);
        }
        total = total + texts[i].as_bytes().len();
    }
    let target: usize = chunk_target_bytes(total, threads);
    let chunks: Vec<Vec<&str>> = sp_doc_chunks(texts, target);
    let ghost groups = group_views(chunks@);
    let mut outs: Vec<ChunkTokens> = Vec::with_capacity(chunks.len());
    for i in 0..chunks.len()
        invariant
            tokenizer.wf(),
            m == tokenizer@,
            groups == group_views(chunks@),
            i <= groups.len(),
            encode_groups(m, groups.take(i as int), outs@),
    {
        let out: ChunkTokens = sp_encode_chunk(tokenizer, chunks[i].as_slice());
        outs.push(out);
        proof {
            let g = groups.take(i as int + 1);
            assert(g[i as int] == text_bytes(chunks@[i as int]@));
            assert forall|k: int| 0 <= k < outs@.len() implies (#[trigger] outs@[k]).ids@
                == m.ids_of_texts(g[k]) && outs@[k].lens@ == m.lens_of_texts(g[k])
                && !outs@[k].continues by {
                if k < i {
                    assert(g[k] == groups.take(i as int)[k]);
                }
            }
        }
    }
    proof {
        assert(groups.take(groups.len() as int) =~= groups);
        lemma_groups_keep_texts(views, target as int);
    }
    assemble_groups(outs, Ghost(m), Ghost(groups))
}

/// Encode every text in order, with one encoder.
pub fn sp_encode_docs_ragged_serial(tokenizer: &SentencePieceBPE, texts: &[&str]) -> (r: (
    Vec<u32>,
    Vec<i64>,
))
    requires
        tokenizer.wf(),
    ensures
        tokenizer@.is_ragged(text_bytes(texts@), r),
{
    let mut encoder: Encoder<'_> = tokenizer.encoder();
    let r: (Vec<u32>, Vec<i64>) = encode_texts(&mut encoder, texts);
    proof {
        if r.0@.len() <= i64::MAX {
            tokenizer@.lemma_counts_fit(text_bytes(texts@));
        }
    }
    r
}

/// Whether all texts are valid UTF-8.
pub open spec fn all_valid(texts: Seq<Seq<u8>>) -> bool {
    forall|i: int| 0 <= i < texts.len() ==> valid_utf8(#[trigger] texts[i])
}

/// Append the ids and the row length of a document, where it is valid UTF-8.
fn sp_encode_doc(
    encoder: &mut Encoder<'_>,
    doc: &[u8],
    ids: &mut Vec<u32>,
    lens: &mut Vec<i64>,
) -> (ok: bool)
    requires
        old(encoder).wf(),
    ensures
        final(encoder).wf(),
        final(encoder).model() == old(encoder).model(),
        ok == valid_utf8(doc@),
        ok ==> final(ids)@ == old(ids)@ + raw_ids(old(encoder).model().tokens(doc@)),
        ok ==> final(lens)@ == old(lens)@.push(old(encoder).model().tokens(doc@).len() as i64),
{
    match text_of(doc) {
        Some(text) => {
            sp_encode_into(encoder, text, ids, lens);
            true
        },
        None => false,
    }
}

/// Append the ids and row lengths of the documents of a byte region: JSONL lines,
/// separator-delimited text, or the whole region as one document. False where a
/// document is not valid UTF-8.
pub fn sp_encode_region(
    encoder: &mut Encoder<'_>,
    bytes: &[u8],
    format: &DocFormat,
    ids: &mut Vec<u32>,
    lens: &mut Vec<i64>,
) -> (ok: bool)
    requires
        old(encoder).wf(),
    ensures
        final(encoder).wf(),
        final(encoder).model() == old(encoder).model(),
        ok == all_valid(region_docs(bytes@, *format)),
        ok ==> final(ids)@ == old(ids)@ + old(encoder).model().ids_of_texts(
            region_docs(bytes@, *format),
        ),
        ok ==> final(lens)@ == old(lens)@ + old(encoder).model().lens_of_texts(
            region_docs(bytes@, *format),
        ),
{
    let ghost m = encoder.model();
    let ghost all = region_docs(bytes@, *format);
    let ghost ids0 = ids@;
    let ghost lens0 = lens@;
    let ghost mut done: Seq<Seq<u8>> = Seq::empty();
    proof {
        assert(ids0 + m.ids_of_texts(done) =~= ids0);
        assert(lens0 + m.lens_of_texts(done) =~= lens0);
        assert(done + all =~= all);
    }
    if let DocFormat::Jsonl { field } = format {
        let mut it = JsonLinesSlice::new(bytes, field.as_str());
        let mut more: bool = true;
        while more
            invariant
                it.wf(),
                encoder.wf(),
                encoder.model() == m,
                m == old(encoder).model(),
                all == region_docs(bytes@, *format),
                more ==> done + it.rest() == all,
                !more ==> done == all,
                all_valid(done),
                ids@ == ids0 + m.ids_of_texts(done),
                lens@ == lens0 + m.lens_of_texts(done),
            decreases if more {
                it.rest().len() + 1
            } else {
                0
            },
        {
            let ghost rest = it.rest();
            match it.next() {
                Some(doc) => {
                    assert(all[done.len() as int] == doc@);
                    if !sp_encode_doc(encoder, doc.as_slice(), ids, lens) {
                        return false;
                    }
                    proof {
                        m.lemma_ids_push(done, doc@);
                        assert(done + rest =~= done.push(doc@) + it.rest());
                        done = done.push(doc@);
                        assert(ids@ =~= ids0 + m.ids_of_texts(done));
                        assert(lens@ =~= lens0 + m.lens_of_texts(done));
                    }
                },
                None => {
                    more = false;
                    assert(done + rest =~= done);
                },
            }
        }
        return true;
    }
    let sep: &[u8] = format.separator();
    if sep.len() > 0 {
        let mut it = DocumentIter::new(bytes, sep);
        let mut more: bool = true;
        while more
            invariant
                it.wf(),
                encoder.wf(),
                encoder.model() == m,
                m == old(encoder).model(),
                all == region_docs(bytes@, *format),
                done + it.rest() == all,
                !more ==> done == all,
                all_valid(done),
                ids@ == ids0 + m.ids_of_texts(done),
                lens@ == lens0 + m.lens_of_texts(done),
            decreases it.rest().len() + if more {
                1int
            } else {
                0
            },
        {
            let ghost rest = it.rest();
            match it.next() {
                Some(doc) => {
                    assert(all[done.len() as int] == doc@);
                    if !sp_encode_doc(encoder, doc, ids, lens) {
                        return false;
                    }
                    proof {
                        m.lemma_ids_push(done, doc@);
                        assert(done + rest =~= done.push(doc@) + it.rest());
                        done = done.push(doc@);
                        assert(ids@ =~= ids0 + m.ids_of_texts(done));
                        assert(lens@ =~= lens0 + m.lens_of_texts(done));
                    }
                },
                None => {
                    more = false;
                    assert(done + rest =~= done);
                },
            }
        }
        true
    } else {
        assert(all =~= done.push(bytes@));
        assert(all[0] == bytes@);
        let ok: bool = sp_encode_doc(encoder, bytes, ids, lens);
        proof {
            m.lemma_ids_push(done, bytes@);
            if ok {
                assert(ids@ =~= ids0 + m.ids_of_texts(all));
                assert(lens@ =~= lens0 + m.lens_of_texts(all));
            }
        }
        ok
    }
}

/// Extract and encode every document of files in order, with one encoder. None
/// where a document is not valid UTF-8.
pub fn sp_encode_files_docs_serial(
    tokenizer: &SentencePieceBPE,
    files: &[&[u8]],
    format: &DocFormat,
) -> (r: Option<(Vec<u32>, Vec<i64>)>)
    requires
        tokenizer.wf(),
        !(format is Parquet),
    ensures
        r is Some <==> all_valid(files_docs(slice_views(files@), *format)),
        r matches Some(out) ==> tokenizer@.is_ragged(
            files_docs(slice_views(files@), *format),
            out,
        ),
{
    let ghost m = tokenizer@;
    let ghost views = slice_views(files@);
    let mut encoder: Encoder<'_> = tokenizer.encoder();
    let mut ids: Vec<u32> = Vec::new();
    let mut lens: Vec<i64> = Vec::new();
    proof {
        assert(views.take(0) =~= Seq::<Seq<u8>>::empty());
        assert(m.lens_of_texts(files_docs(views.take(0), *format)) =~= Seq::<i64>::empty());
    }
    for i in 0..files.len()
        invariant
            views == slice_views(files@),
            encoder.wf(),
            encoder.model() == m,
            all_valid(files_docs(views.take(i as int), *format)),
            ids@ == m.ids_of_texts(files_docs(views.take(i as int), *format)),
            lens@ == m.lens_of_texts(files_docs(views.take(i as int), *format)),
    {
        let ghost done = files_docs(views.take(i as int), *format);
        let ghost more = region_docs(views[i as int], *format);
        proof {
            let t = views.take(i as int + 1);
            assert(t.drop_last() =~= views.take(i as int));
            assert(t.last() == views[i as int]);
            m.lemma_ids_concat(done, more);
            assert(m.lens_of_texts(done + more) =~= m.lens_of_texts(done) + m.lens_of_texts(more));
        }
        if !sp_encode_region(&mut encoder, files[i], format, &mut ids, &mut lens) {
            proof {
                let bad = choose|k: int| 0 <= k < more.len() && !valid_utf8(#[trigger] more[k]);
                assert((done + more)[done.len() + bad] == more[bad]);
                lemma_files_docs_part(views, *format, i as int + 1, done.len() + bad);
            }
            return None;
        }
        assert forall|k: int| 0 <= k < (done + more).len() implies valid_utf8(
            #[trigger] (done + more)[k],
        ) by {
            if k >= done.len() {
                assert(valid_utf8(more[k - done.len()]));
            } else {
                assert(valid_utf8(done[k]));
            }
        }
    }
    proof {
        assert(views.take(views.len() as int) =~= views);
        if ids@.len() <= i64::MAX {
            m.lemma_counts_fit(files_docs(views, *format));
        }
    }
    Some((ids, lens))
}

/// The documents of the first files are among those of all.
proof fn lemma_files_docs_part(files: Seq<Seq<u8>>, format: DocFormat, n: int, k: int)
    requires
        0 <= n <= files.len(),
        0 <= k < files_docs(files.take(n), format).len(),
    ensures
        k < files_docs(files, format).len(),
        files_docs(files, format)[k] == files_docs(files.take(n), format)[k],
    decreases files.len() - n,
{
    if n < files.len() {
        let t = files.take(n + 1);
        assert(t.drop_last() =~= files.take(n));
        lemma_files_docs_part(files, format, n + 1, k);
    } else {
        assert(files.take(n) =~= files);
    }
}

/// Cut files into byte regions at document boundaries and encode each region's
/// documents with an encoder of its own. None where a document is not valid
/// UTF-8. Where the files cut cleanly the result is that of encoding their
/// documents one after the other.
#[verifier::spinoff_prover]
#[verifier::rlimit(40)]
pub fn sp_encode_files_docs(
    tokenizer: &SentencePieceBPE,
    files: &[&[u8]],
    format: &DocFormat,
    threads: usize,
) -> (r: Option<(Vec<u32>, Vec<i64>)>)
    requires
        tokenizer.wf(),
        !(format is Parquet),
        0 < threads <= usize::MAX / 16,
        2 * total_len(slice_views(files@)) + 0x10_0000 <= usize::MAX,
    ensures
        ({
            let views = slice_views(files@);
            let target = target_of(total_len(views) as int, threads as int);
            let texts = texts_of(region_chunks(views, *format, target));
            let clean = forall|i: int|
                0 <= i < views.len() ==> cuts_cleanly(#[trigger] views[i], *format);
            &&& r is Some <==> all_valid(texts)
            &&& r matches Some(out) ==> tokenizer@.is_ragged(texts, out)
            &&& clean ==> texts == files_docs(views, *format)
        }),
{
    let ghost m = tokenizer@;
    let ghost views = slice_views(files@);
    let total: usize = total_bytes(files);
    let target: usize = chunk_target_bytes(total, threads);
    assert(total as int / (16 * threads) <= total) by (nonlinear_arith)
        requires
            0 < threads,
            0 <= total,
    ;
    let ghost mut groups: Seq<Seq<Seq<u8>>> = Seq::empty();
    let mut outs: Vec<ChunkTokens> = Vec::new();
    proof {
        assert(views.take(0) =~= Seq::<Seq<u8>>::empty());
        assert(texts_of(region_chunks(views.take(0), *format, target as int)) =~= Seq::<
            Seq<u8>,
        >::empty());
        if forall|i: int| 0 <= i < views.len() ==> cuts_cleanly(#[trigger] views[i], *format) {
            lemma_regions_keep_docs(views, *format, target as int);
        }
    }
    for i in 0..files.len()
        invariant
            views == slice_views(files@),
            tokenizer.wf(),
            m == tokenizer@,
            !(format is Parquet),
            2 * total_len(views) + 0x10_0000 <= usize::MAX,
            target == target_of(total_len(views) as int, threads as int),
            target <= total_len(views) || target == 0x10_0000,
            encode_groups(m, groups, outs@),
            grouped(groups) == texts_of(
                region_chunks(views.take(i as int), *format, target as int),
            ),
            all_valid(grouped(groups)),
    {
        let bytes: &[u8] = files[i];
        let ghost s = views[i as int];
        let ghost before = region_chunks(views.take(i as int), *format, target as int);
        let ghost all = file_ranges(s, *format, target as int);
        let ghost regions = regions_of(s, *format, all);
        proof {
            let t = views.take(i as int + 1);
            assert(t.drop_last() =~= views.take(i as int));
            assert(t.last() == s);
            lemma_total_grows(views, i as int + 1);
            lemma_file_ranges(s, *format, target as int);
            assert(before + regions.take(0) =~= before);
        }
        let ranges: Vec<(usize, usize)> = chunk_ranges(bytes, format, target);
        for j in 0..ranges.len()
            invariant
                tokenizer.wf(),
                m == tokenizer@,
                !(format is Parquet),
                views == slice_views(files@),
                i < views.len(),
                bytes@ == s,
                s == views[i as int],
                target == target_of(total_len(views) as int, threads as int),
                before == region_chunks(views.take(i as int), *format, target as int),
                all == file_ranges(s, *format, target as int),
                all == pair_views(ranges@),
                regions == regions_of(s, *format, all),
                forall|k: int|
                    0 <= k < all.len() ==> 0 <= (#[trigger] all[k]).0 <= all[k].1 <= s.len(),
                encode_groups(m, groups, outs@),
                grouped(groups) == texts_of(before + regions.take(j as int)),
                all_valid(grouped(groups)),
        {
            let (a, b): (usize, usize) = ranges[j];
            assert(all[j as int] == (a as int, b as int));
            let part: &[u8] = &bytes[a..b];
            let ghost more = region_docs(part@, *format);
            let ghost done = grouped(groups);
            proof {
                let next = before + regions.take(j as int + 1);
                assert(next.drop_last() =~= before + regions.take(j as int));
                assert(next.last() == regions[j as int]);
                assert(regions[j as int].texts() == more);
                assert(texts_of(next) == done + more);
            }
            let mut encoder: Encoder<'_> = tokenizer.encoder();
            let mut ids: Vec<u32> = Vec::new();
            let mut lens: Vec<i64> = Vec::new();
            if !sp_encode_region(&mut encoder, part, format, &mut ids, &mut lens) {
                proof {
                    let bad = choose|k: int|
                        0 <= k < more.len() && !valid_utf8(#[trigger] more[k]);
                    let at = done.len() + bad;
                    assert((done + more)[at] == more[bad]);
                    let next = before + regions.take(j as int + 1);
                    let rest = regions.skip(j as int + 1);
                    assert(next + rest =~= before + regions);
                    lemma_texts_of_concat(next, rest);
                    let t = views.take(i as int + 1);
                    assert(t.drop_last() =~= views.take(i as int));
                    assert(t.last() == s);
                    assert(region_chunks(t, *format, target as int) == before + regions);
                    assert(texts_of(before + regions)[at] == more[bad]);
                    lemma_region_part(views, *format, target as int, i as int + 1, at);
                    if forall|k: int|
                        0 <= k < views.len() ==> cuts_cleanly(#[trigger] views[k], *format) {
                        lemma_regions_keep_docs(views, *format, target as int);
                    }
                }
                return None;
            }
            outs.push(ChunkTokens { ids, lens, continues: false });
            proof {
                assert(ids@ =~= m.ids_of_texts(more));
                assert(lens@ =~= m.lens_of_texts(more));
                assert forall|k: int| 0 <= k < (done + more).len() implies valid_utf8(
                    #[trigger] (done + more)[k],
                ) by {
                    if k >= done.len() {
                        assert(valid_utf8(more[k - done.len()]));
                    } else {
                        assert(valid_utf8(done[k]));
                    }
                }
                let prior = groups;
                groups = groups.push(more);
                assert(groups.drop_last() =~= prior);
            }
        }
        assert(regions.take(regions.len() as int) =~= regions);
    }
    assert(views.take(views.len() as int) =~= views);
    Some(assemble_groups(outs, Ghost(m), Ghost(groups)))
}

/// The texts of the first files' regions are among those of all.
proof fn lemma_region_part(files: Seq<Seq<u8>>, format: DocFormat, target: int, n: int, k: int)
    requires
        0 <= n <= files.len(),
        0 <= k < texts_of(region_chunks(files.take(n), format, target)).len(),
    ensures
        k < texts_of(region_chunks(files, format, target)).len(),
        texts_of(region_chunks(files, format, target))[k] == texts_of(
            region_chunks(files.take(n), format, target),
        )[k],
    decreases files.len() - n,
{
    if n < files.len() {
        let t = files.take(n + 1);
        assert(t.drop_last() =~= files.take(n));
        lemma_texts_of_concat(
            region_chunks(files.take(n), format, target),
            regions_of(t.last(), format, file_ranges(t.last(), format, target)),
        );
        lemma_region_part(files, format, target, n + 1, k);
    } else {
        assert(files.take(n) =~= files);
    }
}

} // verus!
