//! Counting the pretokens of documents.

use vstd::prelude::*;

use crate::bpe::tiktoken::total_len;
use crate::byte_map::ByteMap;
use crate::input::documents::{chunk_bounds, docs, docs_from, par_document_chunks, DocumentIter};
use crate::input::laws::{docs_between, lemma_deduped_docs, lemma_raw_bounds, raw_bounds};
use crate::pretokenize::counts::{
    adds_list, count_pretokens, counted, lemma_counts_in_parts, lemma_occurrences_bound,
    lemma_occurrences_concat, merge_counts, occurrences, sums,
};
use crate::pretokenize::gpt2::{lemma_pretoken_progress, pretoken_end, pretokens, pretokens_from};
use crate::search::{first_at, lemma_first_at};

verus! {

/// The pretokens of documents, one after the other.
pub open spec fn pretokens_of(docs: Seq<Seq<u8>>) -> Seq<Seq<u8>>
    decreases docs.len(),
{
    if docs.len() == 0 {
        Seq::empty()
    } else {
        pretokens_of(docs.drop_last()) + pretokens(docs.last())
    }
}

/// The pretokens of two lists of documents, one after the other.
pub proof fn lemma_pretokens_of_concat(a: Seq<Seq<u8>>, b: Seq<Seq<u8>>)
    ensures
        pretokens_of(a + b) == pretokens_of(a) + pretokens_of(b),
    decreases b.len(),
{
    if b.len() == 0 {
        assert(a + b =~= a);
        assert(pretokens_of(a) + pretokens_of(b) =~= pretokens_of(a));
    } else {
        assert((a + b).drop_last() =~= a + b.drop_last());
        lemma_pretokens_of_concat(a, b.drop_last());
        assert(pretokens_of(a + b) =~= pretokens_of(a) + pretokens_of(b));
    }
}

proof fn lemma_pretoken_count(s: Seq<u8>, pos: int)
    requires
        0 <= pos <= s.len(),
    ensures
        pretokens_from(s, pos).len() <= s.len() - pos,
    decreases s.len() - pos,
{
    if pos < s.len() {
        lemma_pretoken_progress(s, pos);
        lemma_pretoken_count(s, pretoken_end(s, pos));
    }
}

/// Documents have no more pretokens than bytes.
pub proof fn lemma_pretokens_bound(docs: Seq<Seq<u8>>)
    ensures
        pretokens_of(docs).len() <= total_len(docs),
    decreases docs.len(),
{
    if docs.len() > 0 {
        lemma_pretokens_bound(docs.drop_last());
        lemma_pretoken_count(docs.last(), 0);
    }
}

pub proof fn lemma_total_concat(a: Seq<Seq<u8>>, b: Seq<Seq<u8>>)
    ensures
        total_len(a + b) == total_len(a) + total_len(b),
    decreases b.len(),
{
    if b.len() == 0 {
        assert(a + b =~= a);
    } else {
        assert((a + b).drop_last() =~= a + b.drop_last());
        lemma_total_concat(a, b.drop_last());
    }
}

proof fn lemma_total_one(s: Seq<u8>)
    ensures
        total_len(seq![s]) == s.len(),
{
    assert(seq![s].drop_last() =~= Seq::<Seq<u8>>::empty());
    assert(total_len(seq![s].drop_last()) == 0);
}

/// The documents from a place on are no longer than what is there.
pub proof fn lemma_docs_total(s: Seq<u8>, sep: Seq<u8>, pos: int)
    requires
        0 <= pos <= s.len(),
    ensures
        total_len(docs_from(s, sep, pos)) <= s.len() - pos,
    decreases s.len() - pos,
{
    if pos < s.len() {
        lemma_total_one(s.skip(pos));
        if sep.len() > 0 {
            lemma_first_at(s, sep, pos);
            if let Some(at) = first_at(s, sep, pos) {
                if pos <= at && at + sep.len() <= s.len() {
                    lemma_docs_total(s, sep, at + sep.len());
                    let rest = docs_from(s, sep, at + sep.len());
                    lemma_total_one(s.subrange(pos, at));
                    lemma_total_concat(seq![s.subrange(pos, at)], rest);
                    assert(Seq::<Seq<u8>>::empty() + rest =~= rest);
                }
            }
        }
    }
}

/// The documents between ascending boundaries are no longer than the last of
/// them.
proof fn lemma_between_total(s: Seq<u8>, sep: Seq<u8>, bounds: Seq<int>)
    requires
        bounds.len() > 0,
        forall|i: int| 0 <= i < bounds.len() ==> 0 <= #[trigger] bounds[i] <= s.len(),
        forall|i: int, j: int|
            0 <= i <= j < bounds.len() ==> #[trigger] bounds[i] <= #[trigger] bounds[j],
    ensures
        total_len(docs_between(s, sep, bounds)) <= bounds.last(),
    decreases bounds.len(),
{
    if bounds.len() > 1 {
        let init = bounds.drop_last();
        assert forall|i: int| 0 <= i < init.len() implies 0 <= #[trigger] init[i] <= s.len() by {
            assert(init[i] == bounds[i]);
        }
        assert forall|i: int, j: int| 0 <= i <= j < init.len() implies #[trigger] init[i]
            <= #[trigger] init[j] by {
            assert(bounds[i] <= bounds[j]);
        }
        lemma_between_total(s, sep, init);
        let a = bounds[bounds.len() - 2];
        let b = bounds[bounds.len() - 1];
        assert(a <= b);
        lemma_docs_total(s.take(b), sep, a);
        lemma_total_concat(docs_between(s, sep, init), docs_from(s.take(b), sep, a));
    }
}

/// The chunks of bytes hold no more than the bytes.
pub proof fn lemma_chunks_total(s: Seq<u8>, sep: Seq<u8>, n: int)
    ensures
        total_len(docs_between(s, sep, chunk_bounds(s, sep, n))) <= s.len(),
        total_len(docs(s, sep)) <= s.len(),
{
    lemma_docs_total(s, sep, 0);
    if n <= 1 || s.len() == 0 || sep.len() == 0 {
        lemma_between_total(s, sep, seq![0, s.len() as int]);
    } else {
        let bounds = raw_bounds(s, sep, n);
        lemma_raw_bounds(s, sep, n);
        lemma_between_total(s, sep, bounds);
        lemma_deduped_docs(s, sep, bounds);
    }
}

/// No pretoken of a list has more occurrences than the list has pretokens.
pub proof fn lemma_counts_fit(none: Map<Seq<u8>, usize>, counts: Map<Seq<u8>, usize>, ps: Seq<Seq<u8>>)
    requires
        none == Map::<Seq<u8>, usize>::empty(),
        adds_list(none, counts, ps),
    ensures
        forall|p: Seq<u8>| #[trigger] counted(counts, p) <= ps.len(),
{
    assert forall|p: Seq<u8>| #[trigger] counted(counts, p) <= ps.len() by {
        assert(counted(counts, p) == counted(none, p) + occurrences(ps, p));
        lemma_occurrences_bound(ps, p);
    }
}

/// Counting one list after another is counting both.
pub proof fn lemma_adds_both(
    none: Map<Seq<u8>, usize>,
    a: Map<Seq<u8>, usize>,
    b: Map<Seq<u8>, usize>,
    xs: Seq<Seq<u8>>,
    ys: Seq<Seq<u8>>,
)
    requires
        none == Map::<Seq<u8>, usize>::empty(),
        adds_list(none, a, xs),
        adds_list(a, b, ys),
    ensures
        adds_list(none, b, xs + ys),
{
    assert forall|p: Seq<u8>| #[trigger]
        counted(b, p) == counted(none, p) + occurrences(xs + ys, p) && (b.contains_key(p)
            <==> none.contains_key(p) || occurrences(xs + ys, p) > 0) by {
        lemma_occurrences_concat(xs, ys, p);
        assert(counted(a, p) == counted(none, p) + occurrences(xs, p));
        assert(counted(b, p) == counted(a, p) + occurrences(ys, p));
    }
}

/// Count the pretokens of documents.
pub fn count_documents(documents: DocumentIter<'_>) -> (counts: ByteMap<usize>)
    requires
        documents.wf(),
        total_len(documents.rest()) <= usize::MAX,
    ensures
        counts.wf(),
        adds_list(Map::empty(), counts@, pretokens_of(documents.rest())),
{
    let ghost all = documents.rest();
    let ghost none = Map::<Seq<u8>, usize>::empty();
    let mut it = documents;
    let mut counts: ByteMap<usize> = ByteMap::new();
    let ghost mut done: Seq<Seq<u8>> = Seq::empty();
    let mut more: bool = true;
    assert(done + all =~= all);
    while more
        invariant
            it.wf(),
            counts.wf(),
            none == Map::<Seq<u8>, usize>::empty(),
            done + it.rest() == all,
            !more ==> done == all,
            total_len(all) <= usize::MAX,
            adds_list(none, counts@, pretokens_of(done)),
        decreases it.rest().len() + if more {
            1int
        } else {
            0
        },
    {
        let ghost rest = it.rest();
        match it.next() {
            None => {
                more = false;
                assert(done + rest =~= done);
            },
            Some(doc) => {
                let ghost before = counts@;
                let ghost next = done.push(doc@);
                proof {
                    assert(next.drop_last() =~= done);
                    assert(done + rest =~= next + it.rest());
                    lemma_total_concat(next, it.rest());
                    lemma_pretokens_bound(next);
                    lemma_counts_fit(none, before, pretokens_of(done));
                    assert forall|p: Seq<u8>| #[trigger] counted(before, p) + pretokens(doc@).len()
                        <= usize::MAX by {
                        assert(counted(before, p) <= pretokens_of(done).len());
                    }
                }
                count_pretokens(doc, &mut counts);
                proof {
                    lemma_adds_both(none, before, counts@, pretokens_of(done), pretokens(doc@));
                    done = next;
                }
            },
        }
    }
    counts
}

/// Count the pretokens of `bytes` in `n` chunks, splitting documents on
/// `separator`, and add the counts up.
pub fn pretokenize_par_bytes(bytes: &[u8], separator: &[u8], n: usize) -> (counts: ByteMap<usize>)
    ensures
        counts.wf(),
        adds_list(Map::empty(), counts@, pretokens_of(docs(bytes@, separator@))),
{
    let ghost s = bytes@;
    let ghost sep = separator@;
    let ghost none = Map::<Seq<u8>, usize>::empty();
    let len: usize = bytes.len();
    let mut chunks: Vec<DocumentIter<'_>> = par_document_chunks(bytes, separator, n);
    let ghost iters = chunks@;
    let ghost bounds = chunk_bounds(s, sep, n as int);
    let mut counts: ByteMap<usize> = ByteMap::new();
    let ghost mut at: int = iters.len() as int;
    let ghost mut back: Seq<Seq<u8>> = Seq::empty();
    proof {
        lemma_chunks_total(s, sep, n as int);
        assert(bounds.take(at + 1) =~= bounds);
        assert(docs_between(s, sep, bounds) + back =~= docs_between(s, sep, bounds));
    }
    let mut more: bool = true;
    while more
        invariant
            counts.wf(),
            none == Map::<Seq<u8>, usize>::empty(),
            0 <= at <= iters.len(),
            chunks@ == iters.take(at),
            bounds.len() == iters.len() + 1,
            forall|i: int|
                0 <= i < iters.len() ==> (#[trigger] iters[i]).wf() && iters[i].rest()
                    == docs_from(s.take(bounds[i + 1]), sep, bounds[i]),
            docs_between(s, sep, bounds.take(at + 1)) + back == docs_between(s, sep, bounds),
            !more ==> at == 0,
            len == s.len(),
            total_len(docs_between(s, sep, bounds)) <= len,
            adds_list(none, counts@, pretokens_of(back)),
        decreases at + if more {
            1int
        } else {
            0
        },
    {
        match chunks.pop() {
            None => {
                more = false;
            },
            Some(it) => {
                let ghost found = it.rest();
                let ghost init = bounds.take(at);
                let ghost before = counts@;
                proof {
                    assert(it == iters[at - 1]);
                    let t = bounds.take(at + 1);
                    assert(t.drop_last() =~= init);
                    assert(t.last() == bounds[at]);
                    assert(t[t.len() - 2] == bounds[at - 1]);
                    assert(docs_between(s, sep, t) == docs_between(s, sep, init) + found);
                    assert(docs_between(s, sep, init) + found + back =~= docs_between(s, sep, init)
                        + (found + back));
                    lemma_total_concat(docs_between(s, sep, init), found + back);
                    lemma_total_concat(found, back);
                }
                let part: ByteMap<usize> = count_documents(it);
                proof {
                    lemma_counts_fit(none, before, pretokens_of(back));
                    lemma_counts_fit(none, part@, pretokens_of(found));
                    lemma_pretokens_bound(found);
                    lemma_pretokens_bound(back);
                    assert forall|p: Seq<u8>| #[trigger]
                        counted(before, p) + counted(part@, p) <= usize::MAX by {
                        assert(counted(before, p) <= pretokens_of(back).len());
                        assert(counted(part@, p) <= pretokens_of(found).len());
                    }
                }
                merge_counts(&mut counts, &part);
                proof {
                    lemma_sums_swap(before, part@, counts@);
                    lemma_counts_in_parts(
                        none,
                        part@,
                        before,
                        counts@,
                        pretokens_of(found),
                        pretokens_of(back),
                    );
                    lemma_pretokens_of_concat(found, back);
                    back = found + back;
                    at = at - 1;
                }
            },
        }
    }
    proof {
        let t = bounds.take(1);
        assert(docs_between(s, sep, t) =~= Seq::<Seq<u8>>::empty());
        assert(docs_between(s, sep, t) + back =~= back);
    }
    counts
}

proof fn lemma_sums_swap(
    a: Map<Seq<u8>, usize>,
    b: Map<Seq<u8>, usize>,
    sum: Map<Seq<u8>, usize>,
)
    requires
        sums(a, b, sum),
    ensures
        sums(b, a, sum),
{
    assert forall|p: Seq<u8>| #[trigger]
        counted(sum, p) == counted(b, p) + counted(a, p) && (sum.contains_key(p)
            <==> b.contains_key(p) || a.contains_key(p)) by {
        assert(counted(sum, p) == counted(a, p) + counted(b, p));
    }
}

} // verus!
