//! Laws: the merges of a vocabulary in rank order.

use vstd::prelude::*;

use crate::bpe::merge::{bpe_merged, lemma_merged_is_final, mergeable, rules_by_id};
use crate::bpe::model::{
    lemma_rank_merges_keep_bytes, lemma_vocab_inverse, rank_merges, rank_ok, rank_parts,
    rank_symbols, ranks_mergeable, vocab_inverse,
};
use crate::bpe::remap::{byte_table, identity_table, lacks_byte, lemma_byte_token};
use crate::bpe::round_trip::ranked_bytes_first;
use crate::bpe::tiktoken::ranked_model;
use crate::token::TokenId;

verus! {

/// The merges that make tokens below `n`.
pub open spec fn merges_into(merges: Map<(TokenId, TokenId), TokenId>, n: int) -> Map<
    (TokenId, TokenId),
    TokenId,
> {
    Map::new(
        |p: (TokenId, TokenId)| merges.contains_key(p) && merges[p].0 < n,
        |p: (TokenId, TokenId)| merges[p],
    )
}

/// What a token falls apart into is no pair that merges before it.
proof fn lemma_pair_is_new(vocab: Seq<Seq<u8>>, n: int)
    requires
        0 < n <= vocab.len(),
        vocab[n - 1].len() >= 2,
        rank_parts(vocab, vocab_inverse(vocab, vocab.len() as int), n - 1).len() == 2,
    ensures
        ({
            let inv = vocab_inverse(vocab, vocab.len() as int);
            let parts = rank_parts(vocab, inv, n - 1);
            !rank_merges(vocab, inv, n - 1).contains_key((parts[0], parts[1]))
        }),
{
    let inv = vocab_inverse(vocab, vocab.len() as int);
    let before = rank_merges(vocab, inv, n - 1);
    let parts = rank_parts(vocab, inv, n - 1);
    lemma_merged_is_final(rules_by_id(before), rank_symbols(inv, vocab[n - 1]));
    assert(!mergeable(rules_by_id(before), parts, 0));
}

proof fn lemma_merges_of_ranks(vocab: Seq<Seq<u8>>, n: int)
    requires
        vocab.len() <= u32::MAX,
        0 <= n <= vocab.len(),
        ranks_mergeable(vocab),
    ensures
        ({
            let inv = vocab_inverse(vocab, vocab.len() as int);
            let merges = rank_merges(vocab, inv, n);
            &&& forall|p: (TokenId, TokenId)| #[trigger]
                merges.contains_key(p) ==> {
                    let i = merges[p].0 as int;
                    let parts = rank_parts(vocab, inv, i);
                    i < n && vocab[i].len() >= 2 && p == (parts[0], parts[1])
                }
            &&& forall|i: int|
                0 <= i < n && (#[trigger] vocab[i]).len() >= 2 ==> {
                    let parts = rank_parts(vocab, inv, i);
                    &&& merges.contains_key((parts[0], parts[1]))
                    &&& merges[(parts[0], parts[1])] == TokenId(i as u32)
                }
            &&& forall|i: int|
                0 <= i <= n ==> #[trigger] rank_merges(vocab, inv, i) == merges_into(merges, i)
        }),
    decreases n,
{
    let inv = vocab_inverse(vocab, vocab.len() as int);
    let merges = rank_merges(vocab, inv, n);
    if n > 0 {
        lemma_merges_of_ranks(vocab, n - 1);
        let before = rank_merges(vocab, inv, n - 1);
        assert(rank_ok(vocab, inv, n - 1));
        let parts = rank_parts(vocab, inv, n - 1);
        if vocab[n - 1].len() >= 2 {
            lemma_pair_is_new(vocab, n);
            assert(merges == before.insert((parts[0], parts[1]), TokenId((n - 1) as u32)));
        }
        assert forall|i: int| 0 <= i < n && (#[trigger] vocab[i]).len() >= 2 implies {
            let q = rank_parts(vocab, inv, i);
            &&& merges.contains_key((q[0], q[1]))
            &&& merges[(q[0], q[1])] == TokenId(i as u32)
        } by {
            if i < n - 1 {
                let q = rank_parts(vocab, inv, i);
                assert(before.contains_key((q[0], q[1])));
            }
        }
        assert forall|i: int| 0 <= i <= n implies #[trigger] rank_merges(vocab, inv, i)
            == merges_into(merges, i) by {
            if i < n {
                assert(rank_merges(vocab, inv, i) == merges_into(before, i));
                assert(merges_into(before, i) =~= merges_into(merges, i));
            } else {
                assert(merges =~= merges_into(merges, n));
            }
        }
    } else {
        assert forall|i: int| 0 <= i <= n implies #[trigger] rank_merges(vocab, inv, i)
            == merges_into(merges, i) by {
            assert(merges =~= merges_into(merges, 0));
        }
    }
}

/// Each token of two or more bytes of a vocabulary in rank order is the merge of one
/// pair: the two tokens that the merges of the tokens before it make of its bytes.
/// Every other token is the merge of none.
pub proof fn lemma_rank_is_merge(vocab: Seq<Seq<u8>>, i: int) -> (r: (
    (TokenId, TokenId),
    Seq<TokenId>,
))
    requires
        vocab.len() <= u32::MAX,
        ranked_bytes_first(vocab),
        0 <= i < vocab.len(),
    ensures
        ({
            let merges = ranked_model(vocab).merges;
            let (pair, bytes) = r;
            &&& vocab[i].len() < 2 ==> forall|q: (TokenId, TokenId)| #[trigger]
                merges.contains_key(q) ==> merges[q] != TokenId(i as u32)
            &&& vocab[i].len() >= 2 ==> {
                &&& forall|q: (TokenId, TokenId)|
                    q == pair <==> #[trigger] merges.contains_key(q) && merges[q] == TokenId(
                        i as u32,
                    )
                &&& vocab[pair.0.0 as int] + vocab[pair.1.0 as int] == vocab[i]
                &&& bytes.len() == vocab[i].len()
                &&& forall|k: int|
                    0 <= k < bytes.len() ==> vocab[(#[trigger] bytes[k]).0 as int] == seq![
                        vocab[i][k],
                    ]
                &&& bpe_merged(rules_by_id(merges_into(merges, i)), bytes) == seq![pair.0, pair.1]
            }
        }),
{
    let n = vocab.len() as int;
    let inv = vocab_inverse(vocab, n);
    let merges = rank_merges(vocab, inv, n);
    assert(merges == ranked_model(vocab).merges);
    lemma_merges_of_ranks(vocab, n);
    lemma_rank_merges_keep_bytes(vocab, n);
    let parts = rank_parts(vocab, inv, i);
    let bytes = rank_symbols(inv, vocab[i]);
    assert(rank_ok(vocab, inv, i));
    if vocab[i].len() >= 2 {
        let pair = (parts[0], parts[1]);
        assert(merges.contains_key(pair) && merges[pair] == TokenId(i as u32));
        assert(rules_by_id(merges).contains_key(pair));
        assert forall|k: int| 0 <= k < bytes.len() implies vocab[(#[trigger] bytes[k]).0 as int]
            == seq![vocab[i][k]] by {
            let b = vocab[i][k];
            assert(inv.contains_key(seq![b]));
            lemma_vocab_inverse(vocab, n, seq![b]);
        }
        assert(rank_merges(vocab, inv, i) == merges_into(merges, i));
        assert(parts =~= seq![parts[0], parts[1]]);
        (pair, bytes)
    } else {
        ((TokenId(0), TokenId(0)), bytes)
    }
}

/// The token of a byte under a vocabulary in rank order: the lowest entry that is the
/// byte alone.
pub proof fn lemma_rank_byte(vocab: Seq<Seq<u8>>, b: u8, id: int)
    requires
        vocab.len() <= u32::MAX,
        0 <= id < vocab.len(),
        vocab[id] == seq![b],
        forall|j: int| 0 <= j < id ==> #[trigger] vocab[j] != seq![b],
    ensures
        ranked_model(vocab).byte_id(b) == TokenId(id as u32),
        !lacks_byte(vocab, b),
{
    lemma_byte_token(vocab, b);
    assert(byte_table(vocab)[b as int] == TokenId(id as u32));
    if byte_table(vocab) == identity_table() {
        assert(identity_table()[b as int] == TokenId(b as u32));
    }
}

} // verus!
