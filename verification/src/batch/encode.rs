//! Encoding of documents in chunks.

use vstd::prelude::*;
use vstd::string::StringSliceAdditionalSpecFns;
use vstd::utf8::encode_utf8;

use crate::batch::chunks::{chunk_views, ChunkView, EncodeChunk};
use crate::batch::gather::{
    done_ids, done_upto, gather, lemma_done_ids, lemma_done_stays, Committer,
};
use crate::batch::rows::{
    flat_ids, int_lens, lemma_same_shape, lemma_sum_bounds, lemma_sum_part, lens_of, row_counts,
    rows_of, sum, sum_lens, well_started, ChunkTokens, Lens,
};
use crate::bpe::model::{joined, lemma_joined_concat};
use crate::bpe::tiktoken::{raw_ids, Encoding, Tokenizer};
use crate::input::documents::DocumentIter;
use crate::input::file_source::{region_docs, DocFormat};
use crate::input::jsonl::JsonLinesSlice;
use crate::pretokenize::options::PretokenizerType;
use crate::pretokenize::pretoken::slice_views;
use crate::token::TokenId;

verus! {

impl Encoding {
    /// The ids of texts, one after the other.
    pub open spec fn ids_of_texts(self, texts: Seq<Seq<u8>>) -> Seq<u32> {
        raw_ids(joined(self.pieces_of_texts(texts)))
    }

    /// How many ids each text has.
    pub open spec fn lens_of_texts(self, texts: Seq<Seq<u8>>) -> Seq<i64> {
        texts.map_values(|t: Seq<u8>| self.tokens(t).len() as i64)
    }

    /// How many ids each text has, as numbers without a bound.
    pub open spec fn counts(self, texts: Seq<Seq<u8>>) -> Seq<int> {
        texts.map_values(|t: Seq<u8>| self.tokens(t).len() as int)
    }

    /// The counts of texts make up the number of their ids.
    pub proof fn lemma_counts_sum(self, texts: Seq<Seq<u8>>)
        ensures
            sum(self.counts(texts)) == self.ids_of_texts(texts).len(),
        decreases texts.len(),
    {
        if texts.len() == 0 {
            assert(texts =~= Seq::<Seq<u8>>::empty());
            self.lemma_ids_none();
        } else {
            let a = texts.drop_last();
            self.lemma_counts_sum(a);
            assert(texts =~= a.push(texts.last()));
            self.lemma_ids_push(a, texts.last());
            assert(self.counts(texts).drop_last() =~= self.counts(a));
        }
    }

    /// Where the counts of texts fit, they are the row lengths.
    pub proof fn lemma_counts_fit(self, texts: Seq<Seq<u8>>)
        requires
            self.ids_of_texts(texts).len() <= i64::MAX,
        ensures
            int_lens(self.lens_of_texts(texts)) == self.counts(texts),
    {
        self.lemma_counts_sum(texts);
        let counts = self.counts(texts);
        assert forall|k: int| 0 <= k < texts.len() implies #[trigger] int_lens(
            self.lens_of_texts(texts),
        )[k] == counts[k] by {
            lemma_sum_bounds(counts, k);
        }
        assert(int_lens(self.lens_of_texts(texts)) =~= counts);
    }

    /// The ids of two lists of texts, one after the other.
    pub proof fn lemma_ids_concat(self, a: Seq<Seq<u8>>, b: Seq<Seq<u8>>)
        ensures
            self.ids_of_texts(a + b) == self.ids_of_texts(a) + self.ids_of_texts(b),
    {
        self.lemma_texts_concat(a, b);
        lemma_joined_concat(self.pieces_of_texts(a), self.pieces_of_texts(b));
        assert(self.ids_of_texts(a + b) =~= self.ids_of_texts(a) + self.ids_of_texts(b));
    }

    /// The ids of one more text.
    pub proof fn lemma_ids_push(self, a: Seq<Seq<u8>>, text: Seq<u8>)
        ensures
            self.ids_of_texts(a.push(text)) == self.ids_of_texts(a) + raw_ids(self.tokens(text)),
            self.lens_of_texts(a.push(text)) == self.lens_of_texts(a).push(
                self.tokens(text).len() as i64,
            ),
    {
        assert(a.push(text) =~= a + seq![text]);
        self.lemma_ids_concat(a, seq![text]);
        self.lemma_texts_one(text);
        assert(self.lens_of_texts(a.push(text)) =~= self.lens_of_texts(a).push(
            self.tokens(text).len() as i64,
        ));
    }

    /// No texts have no ids.
    pub proof fn lemma_ids_none(self)
        ensures
            self.ids_of_texts(Seq::empty()) == Seq::<u32>::empty(),
            self.lens_of_texts(Seq::empty()) == Seq::<i64>::empty(),
    {
        assert(self.pieces_of_texts(Seq::empty()) =~= Seq::<Seq<TokenId>>::empty());
        assert(self.ids_of_texts(Seq::empty()) =~= Seq::<u32>::empty());
        assert(self.lens_of_texts(Seq::empty()) =~= Seq::<i64>::empty());
    }
}

/// Append one document's token ids to `ids` and its row length to `lens`.
pub fn encode_into(
    tokenizer: &mut Tokenizer,
    doc: &[u8],
    ids: &mut Vec<u32>,
    lens: &mut Vec<i64>,
)
    requires
        old(tokenizer).wf(),
        old(tokenizer).encoding().scheme == PretokenizerType::GPT2,
    ensures
        final(tokenizer).wf(),
        final(tokenizer).encoding() == old(tokenizer).encoding(),
        final(ids)@ == old(ids)@ + raw_ids(old(tokenizer).encoding().tokens(doc@)),
        final(lens)@ == old(lens)@.push(old(tokenizer).encoding().tokens(doc@).len() as i64),
{
    let before: usize = ids.len();
    tokenizer.encode_with_added_tokens_flat(doc, ids);
    lens.push((ids.len() - before) as i64);
}

/// Append the ids and row lengths of the documents of a byte region: JSONL lines,
/// separator-delimited text, or the whole region as one document.
pub fn encode_region(
    tokenizer: &mut Tokenizer,
    bytes: &[u8],
    format: &DocFormat,
    ids: &mut Vec<u32>,
    lens: &mut Vec<i64>,
)
    requires
        old(tokenizer).wf(),
        old(tokenizer).encoding().scheme == PretokenizerType::GPT2,
    ensures
        final(tokenizer).wf(),
        final(tokenizer).encoding() == old(tokenizer).encoding(),
        final(ids)@ == old(ids)@ + old(tokenizer).encoding().ids_of_texts(
            region_docs(bytes@, *format),
        ),
        final(lens)@ == old(lens)@ + old(tokenizer).encoding().lens_of_texts(
            region_docs(bytes@, *format),
        ),
{
    let ghost e = tokenizer.encoding();
    let ghost all = region_docs(bytes@, *format);
    let ghost ids0 = ids@;
    let ghost lens0 = lens@;
    let ghost mut done: Seq<Seq<u8>> = Seq::empty();
    proof {
        e.lemma_ids_none();
        assert(ids0 + e.ids_of_texts(done) =~= ids0);
        assert(lens0 + e.lens_of_texts(done) =~= lens0);
        assert(done + all =~= all);
    }
    if let DocFormat::Jsonl { field } = format {
        let mut it = JsonLinesSlice::new(bytes, field.as_str());
        let mut more: bool = true;
        while more
            invariant
                it.wf(),
                tokenizer.wf(),
                tokenizer.encoding() == e,
                e.scheme == PretokenizerType::GPT2,
                more ==> done + it.rest() == all,
                !more ==> done == all,
                ids@ == ids0 + e.ids_of_texts(done),
                lens@ == lens0 + e.lens_of_texts(done),
            decreases if more {
                it.rest().len() + 1
            } else {
                0
            },
        {
            let ghost rest = it.rest();
            match it.next() {
                Some(doc) => {
                    encode_into(tokenizer, doc.as_slice(), ids, lens);
                    proof {
                        e.lemma_ids_push(done, doc@);
                        assert(done + rest =~= done.push(doc@) + it.rest());
                        done = done.push(doc@);
                        assert(ids@ =~= ids0 + e.ids_of_texts(done));
                        assert(lens@ =~= lens0 + e.lens_of_texts(done));
                    }
                },
                None => {
                    more = false;
                    assert(done + rest =~= done);
                },
            }
        }
        return;
    }
    let sep: &[u8] = format.separator();
    if sep.len() > 0 {
        let mut it = DocumentIter::new(bytes, sep);
        let mut more: bool = true;
        while more
            invariant
                it.wf(),
                tokenizer.wf(),
                tokenizer.encoding() == e,
                e.scheme == PretokenizerType::GPT2,
                done + it.rest() == all,
                !more ==> done == all,
                ids@ == ids0 + e.ids_of_texts(done),
                lens@ == lens0 + e.lens_of_texts(done),
            decreases it.rest().len() + if more {
                1int
            } else {
                0
            },
        {
            let ghost rest = it.rest();
            match it.next() {
                Some(doc) => {
                    encode_into(tokenizer, doc, ids, lens);
                    proof {
                        e.lemma_ids_push(done, doc@);
                        assert(done + rest =~= done.push(doc@) + it.rest());
                        done = done.push(doc@);
                        assert(ids@ =~= ids0 + e.ids_of_texts(done));
                        assert(lens@ =~= lens0 + e.lens_of_texts(done));
                    }
                },
                None => {
                    more = false;
                    assert(done + rest =~= done);
                },
            }
        }
    } else {
        encode_into(tokenizer, bytes, ids, lens);
        proof {
            e.lemma_ids_push(done, bytes@);
            assert(done.push(bytes@) =~= seq![bytes@]);
            assert(ids@ =~= ids0 + e.ids_of_texts(all));
            assert(lens@ =~= lens0 + e.lens_of_texts(all));
        }
    }
}

/// Whether the output of a chunk is the encoding of its texts.
pub open spec fn encodes(e: Encoding, chunk: ChunkView, out: ChunkTokens) -> bool {
    &&& out.ids@ == e.ids_of_texts(chunk.texts())
    &&& out.lens@ == e.lens_of_texts(chunk.texts())
    &&& out.continues == chunk.continues()
}

/// Encode a list of documents.
fn encode_docs(tokenizer: &mut Tokenizer, docs: &[&[u8]], ids: &mut Vec<u32>, lens: &mut Vec<i64>)
    requires
        old(tokenizer).wf(),
        old(tokenizer).encoding().scheme == PretokenizerType::GPT2,
        old(ids)@ == Seq::<u32>::empty(),
        old(lens)@ == Seq::<i64>::empty(),
    ensures
        final(tokenizer).wf(),
        final(tokenizer).encoding() == old(tokenizer).encoding(),
        final(ids)@ == old(tokenizer).encoding().ids_of_texts(slice_views(docs@)),
        final(lens)@ == old(tokenizer).encoding().lens_of_texts(slice_views(docs@)),
{
    let ghost e = tokenizer.encoding();
    let ghost views = slice_views(docs@);
    proof {
        e.lemma_ids_none();
        assert(views.take(0) =~= Seq::<Seq<u8>>::empty());
    }
    for i in 0..docs.len()
        invariant
            views == slice_views(docs@),
            tokenizer.wf(),
            tokenizer.encoding() == e,
            e.scheme == PretokenizerType::GPT2,
            ids@ == e.ids_of_texts(views.take(i as int)),
            lens@ == e.lens_of_texts(views.take(i as int)),
    {
        encode_into(tokenizer, docs[i], ids, lens);
        proof {
            e.lemma_ids_push(views.take(i as int), views[i as int]);
            assert(views.take(i as int + 1) =~= views.take(i as int).push(views[i as int]));
        }
    }
    assert(views.take(views.len() as int) =~= views);
}

/// Encode one chunk.
pub fn encode_chunk(tokenizer: &mut Tokenizer, chunk: &EncodeChunk) -> (out: ChunkTokens)
    requires
        old(tokenizer).wf(),
        old(tokenizer).encoding().scheme == PretokenizerType::GPT2,
    ensures
        final(tokenizer).wf(),
        final(tokenizer).encoding() == old(tokenizer).encoding(),
        encodes(old(tokenizer).encoding(), chunk@, out),
{
    let ghost e = tokenizer.encoding();
    let mut ids: Vec<u32> = Vec::new();
    let mut lens: Vec<i64> = Vec::new();
    let mut continues: bool = false;
    match chunk {
        EncodeChunk::Docs(docs) => {
            encode_docs(tokenizer, docs.as_slice(), &mut ids, &mut lens);
        },
        EncodeChunk::Region { bytes, format } => {
            encode_region(tokenizer, bytes, format, &mut ids, &mut lens);
            proof {
                let texts = chunk@.texts();
                assert(ids@ =~= e.ids_of_texts(texts));
                assert(lens@ =~= e.lens_of_texts(texts));
            }
        },
        EncodeChunk::Fragment { bytes, first } => {
            encode_into(tokenizer, bytes, &mut ids, &mut lens);
            continues = !*first;
            proof {
                let none = Seq::<Seq<u8>>::empty();
                e.lemma_ids_none();
                e.lemma_ids_push(none, bytes@);
                assert(none.push(bytes@) =~= chunk@.texts());
                assert(ids@ =~= e.ids_of_texts(chunk@.texts()));
                assert(lens@ =~= e.lens_of_texts(chunk@.texts()));
            }
        },
    }
    ChunkTokens { ids, lens, continues }
}

/// The texts of chunks, one chunk after the other.
pub open spec fn texts_of(chunks: Seq<ChunkView>) -> Seq<Seq<u8>>
    decreases chunks.len(),
{
    if chunks.len() == 0 {
        Seq::empty()
    } else {
        texts_of(chunks.drop_last()) + chunks.last().texts()
    }
}

/// The row lengths of a chunk's encoding.
pub open spec fn chunk_lens(e: Encoding, chunk: ChunkView) -> Lens {
    (e.counts(chunk.texts()), chunk.continues())
}

/// The row lengths of the encodings of chunks.
pub open spec fn chunks_lens(e: Encoding, chunks: Seq<ChunkView>) -> Seq<Lens> {
    chunks.map_values(|c: ChunkView| chunk_lens(e, c))
}

/// The outputs of chunks that are all done.
fn all_done(outs: Vec<Option<ChunkTokens>>) -> (done: Vec<ChunkTokens>)
    requires
        forall|i: int| 0 <= i < outs@.len() ==> #[trigger] outs@[i] is Some,
    ensures
        done@.len() == outs@.len(),
        forall|i: int| 0 <= i < outs@.len() ==> #[trigger] outs@[i] == Some(done@[i]),
{
    let ghost all = outs@;
    let n: usize = outs.len();
    let mut rest: Vec<Option<ChunkTokens>> = outs;
    let mut done: Vec<ChunkTokens> = Vec::with_capacity(n);
    for i in 0..n
        invariant
            n == all.len(),
            rest@.len() == n,
            done@.len() == i,
            forall|k: int| 0 <= k < n ==> #[trigger] all[k] is Some,
            forall|k: int| i <= k < n ==> #[trigger] rest@[k] == all[k],
            forall|k: int| 0 <= k < i ==> #[trigger] all[k] == Some(done@[k]),
    {
        assert(rest@[i as int] == all[i as int]);
        if let Some(out) = rest[i].take() {
            done.push(out);
        }
    }
    done
}

/// What the encodings of chunks hold together.
proof fn lemma_outputs(e: Encoding, views: Seq<ChunkView>, outs: Seq<ChunkTokens>, n: int)
    requires
        0 <= n <= outs.len(),
        outs.len() == views.len(),
        forall|k: int| 0 <= k < outs.len() ==> encodes(e, views[k], #[trigger] outs[k]),
    ensures
        flat_ids(outs.take(n)) == e.ids_of_texts(texts_of(views.take(n))),
    decreases n,
{
    let t = outs.take(n);
    let v = views.take(n);
    if n > 0 {
        lemma_outputs(e, views, outs, n - 1);
        assert(t.drop_last() =~= outs.take(n - 1));
        assert(v.drop_last() =~= views.take(n - 1));
        assert(encodes(e, views[n - 1], outs[n - 1]));
        e.lemma_ids_concat(texts_of(v.drop_last()), v.last().texts());
    } else {
        e.lemma_ids_none();
    }
}

/// The sum of the row lengths of chunks is the number of their ids.
pub proof fn lemma_lens_sum(e: Encoding, views: Seq<ChunkView>)
    ensures
        sum_lens(chunks_lens(e, views)) == e.ids_of_texts(texts_of(views)).len(),
    decreases views.len(),
{
    if views.len() == 0 {
        e.lemma_ids_none();
    } else {
        let a = views.drop_last();
        lemma_lens_sum(e, a);
        assert(chunks_lens(e, views).drop_last() =~= chunks_lens(e, a));
        e.lemma_counts_sum(views.last().texts());
        e.lemma_ids_concat(texts_of(a), views.last().texts());
    }
}

/// Encode all chunks in order, gathering what is done on the way under a bound of
/// `cap_tokens`, into one flat id buffer plus per-document row counts. The bound
/// has no part in the result.
pub fn encode_chunks_gathered_with_cap(
    tokenizer: &mut Tokenizer,
    chunks: &[EncodeChunk],
    cap_tokens: usize,
) -> (r: (Vec<u32>, Vec<i64>))
    requires
        old(tokenizer).wf(),
        old(tokenizer).encoding().scheme == PretokenizerType::GPT2,
        well_started(chunks_lens(old(tokenizer).encoding(), chunk_views(chunks@))),
    ensures
        final(tokenizer).wf(),
        final(tokenizer).encoding() == old(tokenizer).encoding(),
        r.0@ == old(tokenizer).encoding().ids_of_texts(texts_of(chunk_views(chunks@))),
        ({
            let lens = chunks_lens(old(tokenizer).encoding(), chunk_views(chunks@));
            &&& r.1@.len() == rows_of(lens).len()
            &&& r.0@.len() <= i64::MAX ==> int_lens(r.1@) == rows_of(lens)
        }),
{
    let ghost e = tokenizer.encoding();
    let ghost views = chunk_views(chunks@);
    let n: usize = chunks.len();
    let mut committer: Option<Committer> = Committer::try_new(cap_tokens);
    let mut outs: Vec<Option<ChunkTokens>> = Vec::with_capacity(n);
    for i in 0..n
        invariant
            outs@.len() == i,
            forall|k: int| 0 <= k < i ==> #[trigger] outs@[k] is None,
    {
        outs.push(None);
    }
    for i in 0..n
        invariant
            n == chunks@.len(),
            views == chunk_views(chunks@),
            tokenizer.wf(),
            tokenizer.encoding() == e,
            e.scheme == PretokenizerType::GPT2,
            outs@.len() == n,
            forall|k: int| i <= k < n ==> #[trigger] outs@[k] is None,
            forall|k: int|
                0 <= k < i ==> (#[trigger] outs@[k] matches Some(out) && encodes(e, views[k], out)),
            committer matches Some(c) ==> c.wf() && done_upto(outs@, c.committed()) && c.ids()
                == done_ids(outs@, c.committed()) && 0 <= c.committed() <= i,
    {
        let ghost before = outs@;
        let out: ChunkTokens = encode_chunk(tokenizer, &chunks[i]);
        assert(views[i as int] == chunks@[i as int]@);
        outs.set(i, Some(out));
        assert(encodes(e, views[i as int], out));
        committer = match committer {
            Some(mut c) => {
                proof {
                    lemma_done_stays(before, outs@, c.committed());
                }
                c.advance(outs.as_slice());
                Some(c)
            },
            None => None,
        };
        proof {
            if committer is Some && committer->0.committed() > i + 1 {
                assert(outs@[i + 1] is None);
            }
        }
    }
    let ghost last = outs@;
    let done: Vec<ChunkTokens> = all_done(outs);
    let ghost all = done@;
    proof {
        if committer is Some {
            lemma_done_ids(last, all, committer->0.committed());
        }
        assert forall|k: int| 0 <= k < all.len() implies encodes(e, views[k], #[trigger] all[k]) by {
            assert(last[k] == Some(all[k]));
        }
        lemma_outputs(e, views, all, all.len() as int);
        assert(all.take(all.len() as int) =~= all);
        assert(views.take(views.len() as int) =~= views);
        let lens = chunks_lens(e, views);
        assert forall|k: int| 0 <= k < lens.len() implies (#[trigger] lens[k]).0.len() == lens_of(
            all,
        )[k].0.len() && lens[k].1 == lens_of(all)[k].1 by {
            assert(encodes(e, views[k], all[k]));
        }
        lemma_same_shape(lens, lens_of(all));
        lemma_lens_sum(e, views);
        if flat_ids(all).len() <= i64::MAX {
            assert forall|k: int| 0 <= k < all.len() implies #[trigger] lens_of(all)[k]
                == lens[k] by {
                assert(encodes(e, views[k], all[k]));
                lemma_sum_part(lens, k);
                e.lemma_counts_sum(views[k].texts());
                e.lemma_counts_fit(views[k].texts());
            }
            assert(lens_of(all) =~= lens);
        }
    }
    let counts: Vec<i64> = row_counts(done.as_slice());
    (gather(committer, done.as_slice()), counts)
}

/// How many tokens a text has, as a 32-bit count.
pub fn count_tokens(tokenizer: &mut Tokenizer, text: &str) -> (n: u32)
    requires
        old(tokenizer).wf(),
        old(tokenizer).encoding().scheme == PretokenizerType::GPT2,
    ensures
        final(tokenizer).wf(),
        final(tokenizer).encoding() == old(tokenizer).encoding(),
        n == old(tokenizer).encoding().tokens(encode_utf8(text@)).len() as u32,
{
    let mut ids: Vec<u32> = Vec::new();
    let mut lens: Vec<i64> = Vec::new();
    encode_into(tokenizer, text.as_bytes(), &mut ids, &mut lens);
    ids.len() as u32
}

/// How many tokens each of some texts has, as 32-bit counts.
pub fn count_tokens_batch(tokenizer: &mut Tokenizer, inputs: &[String]) -> (r: Vec<u32>)
    requires
        old(tokenizer).wf(),
        old(tokenizer).encoding().scheme == PretokenizerType::GPT2,
    ensures
        final(tokenizer).wf(),
        final(tokenizer).encoding() == old(tokenizer).encoding(),
        r@.len() == inputs@.len(),
        forall|i: int|
            0 <= i < r@.len() ==> #[trigger] r@[i] == old(tokenizer).encoding().tokens(
                encode_utf8(inputs@[i]@),
            ).len() as u32,
{
    let ghost e = tokenizer.encoding();
    let mut r: Vec<u32> = Vec::with_capacity(inputs.len());
    for i in 0..inputs.len()
        invariant
            tokenizer.wf(),
            tokenizer.encoding() == e,
            e.scheme == PretokenizerType::GPT2,
            r@.len() == i,
            forall|k: int|
                0 <= k < i ==> #[trigger] r@[k] == e.tokens(encode_utf8(inputs@[k]@)).len() as u32,
    {
        let n: u32 = count_tokens(tokenizer, inputs[i].as_str());
        r.push(n);
    }
    r
}

} // verus!
