//! Laws: looking a pretoken up whole is merging its bytes.

use vstd::prelude::*;

use crate::bpe::merge::{bpe_merged, lemma_merge_done, mergeable, rules_by_id};
use crate::bpe::model::{initial_symbols, lemma_vocab_inverse, vocab_inverse, ModelView};
use crate::encode::tiktoken_radix::{merged_pieces, merged_tokens};
use crate::token::TokenId;

verus! {

impl ModelView {
    /// Whether each byte string with a token is what merging its bytes gives.
    pub open spec fn words_merge(self) -> bool {
        forall|p: Seq<u8>| #[trigger]
            self.inv.contains_key(p) ==> merged_tokens(self, p) == seq![self.inv[p]]
    }

    /// Whether the vocabulary has no entry twice and none empty, the reverse
    /// vocabulary is its reverse, each byte that has an entry has it for token, and
    /// each longer entry is the one token that merging its bytes gives.
    pub open spec fn entries_merge(self) -> bool {
        &&& self.vocab.len() <= u32::MAX
        &&& self.inv == vocab_inverse(self.vocab, self.vocab.len() as int)
        &&& forall|i: int| 0 <= i < self.vocab.len() ==> (#[trigger] self.vocab[i]).len() > 0
        &&& forall|i: int, j: int|
            0 <= i < j < self.vocab.len() ==> #[trigger] self.vocab[i] != #[trigger] self.vocab[j]
        &&& forall|i: int|
            0 <= i < self.vocab.len() && (#[trigger] self.vocab[i]).len() == 1
                ==> self.byte_decodes(self.vocab[i][0])
        &&& forall|i: int|
            0 <= i < self.vocab.len() && (#[trigger] self.vocab[i]).len() >= 2 ==> merged_tokens(
                self,
                self.vocab[i],
            ) == seq![TokenId(i as u32)]
    }
}

/// A single symbol merges with nothing.
proof fn lemma_one_symbol(m: ModelView, p: Seq<u8>)
    requires
        p.len() == 1,
    ensures
        merged_tokens(m, p) == seq![m.byte_id(p[0])],
{
    let s = initial_symbols(m.remap, p);
    let rules = rules_by_id(m.merges);
    assert forall|i: int| !#[trigger] mergeable(rules, s, i) by {}
    lemma_merge_done(rules, s);
    assert(s =~= seq![m.byte_id(p[0])]);
}

/// Where each entry of a vocabulary is what merging its bytes gives, so is each
/// byte string with a token.
pub proof fn lemma_entries_merge(m: ModelView)
    requires
        m.entries_merge(),
    ensures
        m.words_merge(),
{
    let n = m.vocab.len() as int;
    assert forall|p: Seq<u8>| #[trigger] m.inv.contains_key(p) implies merged_tokens(m, p) == seq![
        m.inv[p],
    ] by {
        lemma_vocab_inverse(m.vocab, n, p);
        let id = m.inv[p].0 as int;
        assert(m.vocab[id] == p);
        if p.len() == 1 {
            lemma_one_symbol(m, p);
            let b = m.byte_id(p[0]).0 as int;
            assert(m.byte_decodes(m.vocab[id][0]));
            assert(m.vocab[b] =~= p);
            if b < id {
                assert(m.vocab[b] != m.vocab[id]);
            }
            if id < b {
                assert(m.vocab[id] != m.vocab[b]);
            }
        }
    }
}

/// Where each byte string with a token is what merging its bytes gives, encoding
/// pretokens with the lookup of whole words is merging the bytes of each, whatever
/// was encoded before.
pub proof fn lemma_lookup_is_merging(m: ModelView, ps: Seq<Seq<u8>>)
    requires
        m.words_merge(),
    ensures
        m.pieces_of(ps) == merged_pieces(m, ps),
{
    assert forall|i: int| 0 <= i < ps.len() implies m.pieces_of(ps)[i] == merged_pieces(
        m,
        ps,
    )[i] by {
        let p = ps[i];
        if m.inv.contains_key(p) {
            assert(merged_tokens(m, p) == seq![m.inv[p]]);
        }
        assert(m.pretoken_tokens(p) == merged_tokens(m, p));
    }
    assert(m.pieces_of(ps) =~= merged_pieces(m, ps));
}

/// An empty pretoken has no tokens by merging.
pub proof fn lemma_empty_merges(m: ModelView)
    ensures
        merged_tokens(m, Seq::empty()) == Seq::<TokenId>::empty(),
{
    let s = initial_symbols(m.remap, Seq::empty());
    let rules = rules_by_id(m.merges);
    assert forall|i: int| !#[trigger] mergeable(rules, s, i) by {}
    lemma_merge_done(rules, s);
    assert(s =~= Seq::<TokenId>::empty());
    assert(bpe_merged(rules, s) == s);
}

} // verus!
