//! Training on documents.

use vstd::prelude::*;

use crate::bpe::tiktoken::total_len;
use crate::bpe_train::counts::load;
use crate::bpe_train::train::{byte_words, merge_views, train_bpe, training_start, BPEResult};
use crate::byte_map::ByteMap;
use crate::input::counting::{
    lemma_chunks_total, lemma_total_concat, pretokenize_par_bytes, pretokens_of,
};
use crate::input::documents::docs;
use crate::pretokenize::counts::{adds_list, counted, occurrences};
use crate::pretokenize::gpt2::{lemma_pretoken_progress, pretoken_end, pretokens, pretokens_from};
use crate::seqs::{byte_seqs, copy_bytes};

verus! {

/// Whether a list of words holds each pretoken of `ps` once, with how often it
/// occurs, and nothing else.
pub open spec fn lists_words(words: Seq<(Vec<u8>, usize)>, ps: Seq<Seq<u8>>) -> bool {
    &&& forall|i: int|
        0 <= i < words.len() ==> 0 < (#[trigger] words[i]).1 == occurrences(ps, words[i].0@)
    &&& forall|i: int, j: int|
        0 <= i < j < words.len() ==> (#[trigger] words[i]).0@ != (#[trigger] words[j]).0@
    &&& forall|p: Seq<u8>| #[trigger]
        occurrences(ps, p) > 0 ==> exists|i: int|
            0 <= i < words.len() && (#[trigger] words[i]).0@ == p
}

/// Whether a result is that of training on words that hold these pretokens, in
/// some order.
pub open spec fn trained_on(
    ps: Seq<Seq<u8>>,
    special_tokens: Seq<String>,
    vocab_size: int,
    r: BPEResult,
) -> bool {
    exists|words: Seq<(Vec<u8>, usize)>| #[trigger]
        lists_words(words, ps) && training_start(words, special_tokens).trains(
            vocab_size,
            byte_seqs(r.vocab@),
            merge_views(r.merges@),
        )
}

/// The words of counts, in the order of the map.
fn list_words(counts: &ByteMap<usize>) -> (words: Vec<(Vec<u8>, usize)>)
    requires
        counts.wf(),
    ensures
        words@.len() == counts.order().len(),
        forall|i: int|
            0 <= i < words@.len() ==> (#[trigger] words@[i]).0@ == counts.order()[i]
                && counts@.contains_key(words@[i].0@) && counts@[words@[i].0@] == words@[i].1,
{
    let n: usize = counts.len();
    let mut words: Vec<(Vec<u8>, usize)> = Vec::with_capacity(n);
    for i in 0..n
        invariant
            counts.wf(),
            n == counts.order().len(),
            words@.len() == i,
            forall|k: int|
                0 <= k < i ==> (#[trigger] words@[k]).0@ == counts.order()[k]
                    && counts@.contains_key(words@[k].0@) && counts@[words@[k].0@] == words@[k].1,
    {
        let (key, count): (&[u8], usize) = counts.entry(i);
        words.push((copy_bytes(key), count));
    }
    words
}

/// How many bytes the first `n` words take up in a list of pretokens.
pub open spec fn taken(words: Seq<(Vec<u8>, usize)>, n: int, ps: Seq<Seq<u8>>) -> int
    decreases n,
{
    if n <= 0 {
        0
    } else {
        taken(words, n - 1, ps) + words[n - 1].0@.len() * occurrences(ps, words[n - 1].0@)
    }
}

/// Words take up no more than there is.
pub proof fn lemma_taken(words: Seq<(Vec<u8>, usize)>, n: int, ps: Seq<Seq<u8>>)
    requires
        0 <= n <= words.len(),
        forall|i: int, j: int|
            0 <= i < j < words.len() ==> (#[trigger] words[i]).0@ != (#[trigger] words[j]).0@,
    ensures
        taken(words, n, ps) <= total_len(ps),
    decreases ps.len(),
{
    if ps.len() == 0 {
        lemma_none_taken(words, n, ps);
    } else {
        lemma_taken(words, n, ps.drop_last());
        lemma_one_taken(words, n, ps);
    }
}

proof fn lemma_none_taken(words: Seq<(Vec<u8>, usize)>, n: int, ps: Seq<Seq<u8>>)
    requires
        0 <= n <= words.len(),
        ps.len() == 0,
    ensures
        taken(words, n, ps) == 0,
    decreases n,
{
    if n > 0 {
        lemma_none_taken(words, n - 1, ps);
        let l = words[n - 1].0@.len();
        assert(l * 0 == 0) by (nonlinear_arith);
    }
}

/// One more pretoken is taken up by one word at most.
proof fn lemma_one_taken(words: Seq<(Vec<u8>, usize)>, n: int, ps: Seq<Seq<u8>>)
    requires
        0 <= n <= words.len(),
        ps.len() > 0,
        forall|i: int, j: int|
            0 <= i < j < words.len() ==> (#[trigger] words[i]).0@ != (#[trigger] words[j]).0@,
    ensures
        taken(words, n, ps) <= taken(words, n, ps.drop_last()) + ps.last().len(),
        (forall|i: int| 0 <= i < n ==> (#[trigger] words[i]).0@ != ps.last()) ==> taken(
            words,
            n,
            ps,
        ) == taken(words, n, ps.drop_last()),
    decreases n,
{
    if n > 0 {
        lemma_one_taken(words, n - 1, ps);
        let w = words[n - 1].0@;
        let k = occurrences(ps.drop_last(), w);
        let l = w.len();
        assert(l * (k + 1) == l * k + l) by (nonlinear_arith);
        if w == ps.last() {
            assert forall|i: int| 0 <= i < n - 1 implies (#[trigger] words[i]).0@
                != ps.last() by {
                assert(words[i].0@ != words[n - 1].0@);
            }
        }
    }
}

/// Training counts as many symbols as the words take up.
pub proof fn lemma_load_taken(words: Seq<(Vec<u8>, usize)>, n: int, ps: Seq<Seq<u8>>)
    requires
        0 <= n <= words.len(),
        forall|i: int|
            0 <= i < words.len() ==> (#[trigger] words[i]).1 == occurrences(ps, words[i].0@),
    ensures
        load(byte_words(words), n) == taken(words, n, ps),
    decreases n,
{
    if n > 0 {
        lemma_load_taken(words, n - 1, ps);
        let view = byte_words(words)[n - 1];
        assert(view.symbols.len() == words[n - 1].0@.len());
        assert(view.count == words[n - 1].1 as int);
    }
}

/// Pretokens hold the bytes of the document, and none is empty.
proof fn lemma_pretokens_total(s: Seq<u8>, pos: int)
    requires
        0 <= pos <= s.len(),
    ensures
        total_len(pretokens_from(s, pos)) == s.len() - pos,
        forall|i: int|
            0 <= i < pretokens_from(s, pos).len() ==> (#[trigger] pretokens_from(s, pos)[i]).len()
                > 0,
    decreases s.len() - pos,
{
    if pos < s.len() {
        lemma_pretoken_progress(s, pos);
        let end = pretoken_end(s, pos);
        lemma_pretokens_total(s, end);
        let one = seq![s.subrange(pos, end)];
        let rest = pretokens_from(s, end);
        assert(one.drop_last() =~= Seq::<Seq<u8>>::empty());
        assert(total_len(one.drop_last()) == 0);
        lemma_total_concat(one, rest);
        assert forall|i: int| 0 <= i < pretokens_from(s, pos).len() implies (
        #[trigger] pretokens_from(s, pos)[i]).len() > 0 by {
            if i > 0 {
                assert(pretokens_from(s, pos)[i] == rest[i - 1]);
            }
        }
    }
}

/// The pretokens of documents hold their bytes, and none is empty.
proof fn lemma_pretokens_of_total(docs: Seq<Seq<u8>>)
    ensures
        total_len(pretokens_of(docs)) == total_len(docs),
        forall|i: int|
            0 <= i < pretokens_of(docs).len() ==> (#[trigger] pretokens_of(docs)[i]).len() > 0,
    decreases docs.len(),
{
    if docs.len() > 0 {
        let before = pretokens_of(docs.drop_last());
        let last = pretokens(docs.last());
        lemma_pretokens_of_total(docs.drop_last());
        lemma_pretokens_total(docs.last(), 0);
        lemma_total_concat(before, last);
        assert forall|i: int| 0 <= i < pretokens_of(docs).len() implies (
        #[trigger] pretokens_of(docs)[i]).len() > 0 by {
            if i < before.len() {
                assert(pretokens_of(docs)[i] == before[i]);
            } else {
                assert(pretokens_of(docs)[i] == last[i - before.len()]);
            }
        }
    }
}

/// What occurs in a list stands in it.
pub proof fn lemma_occurs_somewhere(ps: Seq<Seq<u8>>, p: Seq<u8>)
    requires
        occurrences(ps, p) > 0,
    ensures
        exists|i: int| 0 <= i < ps.len() && #[trigger] ps[i] == p,
    decreases ps.len(),
{
    if ps.len() > 0 {
        if ps.last() == p {
            assert(ps[ps.len() - 1] == p);
        } else {
            lemma_occurs_somewhere(ps.drop_last(), p);
            let i = choose|i: int|
                0 <= i < ps.drop_last().len() && #[trigger] ps.drop_last()[i] == p;
            assert(ps[i] == p);
        }
    }
}

/// Learn merges from the pretokens of `bytes`, counted in `n` chunks of documents
/// that `separator` splits.
pub fn train_on_bytes(
    bytes: &[u8],
    separator: &[u8],
    n: usize,
    vocab_size: usize,
    special_tokens: Vec<String>,
) -> (r: BPEResult)
    requires
        bytes@.len() <= isize::MAX,
        vocab_size <= u32::MAX,
        256 + special_tokens@.len() <= u32::MAX,
    ensures
        trained_on(
            pretokens_of(docs(bytes@, separator@)),
            special_tokens@,
            vocab_size as int,
            r,
        ),
{
    let ghost all = docs(bytes@, separator@);
    let ghost ps = pretokens_of(all);
    let counts: ByteMap<usize> = pretokenize_par_bytes(bytes, separator, n);
    let words: Vec<(Vec<u8>, usize)> = list_words(&counts);
    proof {
        let none = Map::<Seq<u8>, usize>::empty();
        let order = counts.order();
        counts.lemma_order();
        lemma_chunks_total(bytes@, separator@, n as int);
        lemma_pretokens_of_total(all);
        assert(adds_list(none, counts@, ps));
        assert forall|i: int| 0 <= i < words@.len() implies 0 < (#[trigger] words@[i]).1
            == occurrences(ps, words@[i].0@) by {
            let p = words@[i].0@;
            assert(counted(counts@, p) == counted(none, p) + occurrences(ps, p));
        }
        assert forall|i: int, j: int| 0 <= i < j < words@.len() implies (#[trigger] words@[i]).0@
            != (#[trigger] words@[j]).0@ by {
            assert(order[i] != order[j]);
        }
        assert forall|p: Seq<u8>| #[trigger] occurrences(ps, p) > 0 implies exists|i: int|
            0 <= i < words@.len() && (#[trigger] words@[i]).0@ == p by {
            assert(counted(counts@, p) == counted(none, p) + occurrences(ps, p));
            assert(counts@.contains_key(p));
            assert(order.contains(p));
            let i = choose|i: int| 0 <= i < order.len() && order[i] == p;
            assert(words@[i].0@ == p);
        }
        assert(lists_words(words@, ps));
        assert forall|k: int| 0 <= k < words@.len() implies (#[trigger] words@[k]).0@.len() > 0 by {
            lemma_occurs_somewhere(ps, words@[k].0@);
        }
        lemma_load_taken(words@, words@.len() as int, ps);
        lemma_taken(words@, words@.len() as int, ps);
    }
    train_bpe(words, vocab_size, special_tokens)
}

} // verus!
