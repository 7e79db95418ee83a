//! Token bytes: what a sequence of ids stands for.

use vstd::prelude::*;

use crate::bpe::merge::{bpe_merged, lemma_merge_step, merge_at, mergeable, merges_next, Rules};
use crate::seqs::{append_bytes, byte_seqs};
use crate::token::TokenId;

verus! {

/// The bytes of `ids`, one after the other.
pub open spec fn decoded(vocab: Seq<Seq<u8>>, ids: Seq<TokenId>) -> Seq<u8>
    decreases ids.len(),
{
    if ids.len() == 0 {
        Seq::empty()
    } else {
        decoded(vocab, ids.drop_last()) + vocab[ids.last().0 as int]
    }
}

/// Whether every id names a vocabulary entry.
pub open spec fn in_vocab(vocab: Seq<Seq<u8>>, ids: Seq<TokenId>) -> bool {
    forall|i: int| 0 <= i < ids.len() ==> (#[trigger] ids[i]).0 < vocab.len()
}

/// Decoding one sequence after another is decoding their concatenation.
pub proof fn lemma_decoded_concat(vocab: Seq<Seq<u8>>, a: Seq<TokenId>, b: Seq<TokenId>)
    ensures
        decoded(vocab, a + b) == decoded(vocab, a) + decoded(vocab, b),
    decreases b.len(),
{
    if b.len() == 0 {
        assert(a + b =~= a);
    } else {
        lemma_decoded_concat(vocab, a, b.drop_last());
        assert((a + b).drop_last() =~= a + b.drop_last());
        assert((a + b).last() == b.last());
        assert(decoded(vocab, a + b) =~= decoded(vocab, a) + decoded(vocab, b));
    }
}

/// The bytes of a single id.
pub proof fn lemma_decoded_one(vocab: Seq<Seq<u8>>, t: TokenId)
    ensures
        decoded(vocab, seq![t]) == vocab[t.0 as int],
{
    assert(seq![t].drop_last() =~= Seq::empty());
    assert(decoded(vocab, Seq::<TokenId>::empty()) == Seq::<u8>::empty());
    assert(decoded(vocab, seq![t]) =~= vocab[t.0 as int]);
}

/// Whether each rule yields the token whose bytes are those of the pair.
pub open spec fn rules_keep_bytes(rules: Rules, vocab: Seq<Seq<u8>>) -> bool {
    forall|p: (TokenId, TokenId)| #[trigger]
        rules.contains_key(p) ==> vocab[rules[p].0.0 as int] == vocab[p.0.0 as int]
            + vocab[p.1.0 as int]
}

/// One merge keeps the bytes.
proof fn lemma_merge_at_keeps_bytes(rules: Rules, vocab: Seq<Seq<u8>>, s: Seq<TokenId>, i: int)
    requires
        rules_keep_bytes(rules, vocab),
        mergeable(rules, s, i),
    ensures
        decoded(vocab, merge_at(s, i, rules[(s[i], s[i + 1])].0)) == decoded(vocab, s),
{
    let t = rules[(s[i], s[i + 1])].0;
    let head = s.subrange(0, i);
    let tail = s.subrange(i + 2, s.len() as int);
    let pair = seq![s[i]] + seq![s[i + 1]];
    assert(s =~= head + pair + tail);
    assert(merge_at(s, i, t) =~= head + seq![t] + tail);
    lemma_decoded_concat(vocab, head + pair, tail);
    lemma_decoded_concat(vocab, head, pair);
    lemma_decoded_concat(vocab, seq![s[i]], seq![s[i + 1]]);
    lemma_decoded_concat(vocab, head + seq![t], tail);
    lemma_decoded_concat(vocab, head, seq![t]);
    lemma_decoded_one(vocab, s[i]);
    lemma_decoded_one(vocab, s[i + 1]);
    lemma_decoded_one(vocab, t);
    assert(rules.contains_key((s[i], s[i + 1])));
}

/// Merging keeps the bytes: what the merged sequence stands for is what the
/// symbols stood for.
pub proof fn lemma_merged_keeps_bytes(rules: Rules, vocab: Seq<Seq<u8>>, s: Seq<TokenId>)
    requires
        rules_keep_bytes(rules, vocab),
    ensures
        decoded(vocab, bpe_merged(rules, s)) == decoded(vocab, s),
    decreases s.len(),
{
    if exists|i: int| merges_next(rules, s, i) {
        let i = choose|i: int| merges_next(rules, s, i);
        lemma_merge_step(rules, s, i);
        lemma_merge_at_keeps_bytes(rules, vocab, s, i);
        lemma_merged_keeps_bytes(rules, vocab, merge_at(s, i, rules[(s[i], s[i + 1])].0));
    }
}

/// Merging stays in the vocabulary where its rules do.
pub proof fn lemma_merged_in_vocab(rules: Rules, vocab: Seq<Seq<u8>>, s: Seq<TokenId>)
    requires
        in_vocab(vocab, s),
        forall|p: (TokenId, TokenId)| #[trigger]
            rules.contains_key(p) ==> rules[p].0.0 < vocab.len(),
    ensures
        in_vocab(vocab, bpe_merged(rules, s)),
    decreases s.len(),
{
    if exists|i: int| merges_next(rules, s, i) {
        let i = choose|i: int| merges_next(rules, s, i);
        let s2 = merge_at(s, i, rules[(s[i], s[i + 1])].0);
        lemma_merge_step(rules, s, i);
        assert(rules.contains_key((s[i], s[i + 1])));
        assert forall|j: int| 0 <= j < s2.len() implies (#[trigger] s2[j]).0 < vocab.len() by {
            assert(s2[j] == s[j] || s2[j] == s[j + 1] || s2[j] == rules[(s[i], s[i + 1])].0);
        }
        lemma_merged_in_vocab(rules, vocab, s2);
    }
}

/// The `(id, bytes)` pairs of the non-empty entries below `n`, in id order.
pub open spec fn assigned_entries(vocab: Seq<Seq<u8>>, n: int) -> Seq<(u32, Seq<u8>)>
    decreases n,
{
    if n <= 0 {
        Seq::empty()
    } else {
        let init = assigned_entries(vocab, n - 1);
        if vocab[n - 1].len() == 0 {
            init
        } else {
            init.push(((n - 1) as u32, vocab[n - 1]))
        }
    }
}

/// The contents of a list of ids with byte strings.
pub open spec fn entry_views(v: Seq<(u32, &[u8])>) -> Seq<(u32, Seq<u8>)> {
    v.map_values(|e: (u32, &[u8])| (e.0, e.1@))
}

/// Vocabulary entries as `(id, bytes)` pairs in ID order, skipping IDs with
/// no assigned content. Shared by both tokenizer types' `vocab_entries`.
pub fn vocab_entries(vocab: &[Vec<u8>]) -> (r: Vec<(u32, &[u8])>)
    requires
        vocab@.len() <= u32::MAX,
    ensures
        entry_views(r@) == assigned_entries(byte_seqs(vocab@), vocab@.len() as int),
{
    let mut r: Vec<(u32, &[u8])> = Vec::new();
    assert(entry_views(r@) =~= Seq::empty());
    for id in 0..vocab.len()
        invariant
            vocab@.len() <= u32::MAX,
            entry_views(r@) == assigned_entries(byte_seqs(vocab@), id as int),
    {
        let entry: &[u8] = vocab[id].as_slice();
        assert(byte_seqs(vocab@)[id as int] == entry@);
        if entry.len() > 0 {
            let ghost before = r@;
            r.push((id as u32, entry));
            assert(entry_views(r@) =~= entry_views(before).push((id as u32, entry@)));
        }
    }
    r
}

/// The bytes of `ids`, one after the other.
pub fn decode_ids(vocab: &[Vec<u8>], ids: &[TokenId]) -> (out: Vec<u8>)
    requires
        in_vocab(byte_seqs(vocab@), ids@),
    ensures
        out@ == decoded(byte_seqs(vocab@), ids@),
{
    let mut out: Vec<u8> = Vec::new();
    assert(ids@.take(0) =~= Seq::empty());
    for i in 0..ids.len()
        invariant
            in_vocab(byte_seqs(vocab@), ids@),
            out@ == decoded(byte_seqs(vocab@), ids@.take(i as int)),
    {
        let id: usize = ids[i].index();
        assert(ids@[i as int].0 < byte_seqs(vocab@).len());
        append_bytes(&mut out, vocab[id].as_slice());
        proof {
            let t = ids@.take(i as int + 1);
            assert(t.drop_last() =~= ids@.take(i as int));
            assert(t.last() == ids@[i as int]);
            assert(byte_seqs(vocab@)[id as int] == vocab@[id as int]@);
        }
    }
    assert(ids@.take(ids@.len() as int) =~= ids@);
    out
}

} // verus!
