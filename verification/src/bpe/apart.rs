//! Laws: when two sequences can be merged apart.

use vstd::prelude::*;

use crate::bpe::merge::{
    bpe_merged, lemma_merge_done, lemma_merge_step, lemma_some_pair_merges_next, merge_at,
    mergeable, merges_next, pair_rank, Rules,
};
use crate::bpe::vocab::{decoded, lemma_decoded_concat, lemma_decoded_one, rules_keep_bytes};
use crate::token::TokenId;

verus! {

/// Whether a piece is made of bytes that end `left` and bytes that start
/// `right`.
pub open spec fn spans(piece: Seq<u8>, left: Seq<u8>, right: Seq<u8>) -> bool {
    exists|i: int|
        0 < i < piece.len() && i <= left.len() && piece.len() - i <= right.len()
            && #[trigger] piece.take(i) == left.skip(left.len() - i) && piece.skip(i) == right.take(
            piece.len() - i,
        )
}

/// Whether no rule yields a piece that spans the two texts.
pub open spec fn nothing_spans(
    rules: Rules,
    vocab: Seq<Seq<u8>>,
    left: Seq<u8>,
    right: Seq<u8>,
) -> bool {
    forall|p: (TokenId, TokenId)| #[trigger]
        rules.contains_key(p) ==> !spans(vocab[rules[p].0.0 as int], left, right)
}

/// Whether no token is without bytes.
pub open spec fn all_inked(vocab: Seq<Seq<u8>>, s: Seq<TokenId>) -> bool {
    forall|i: int| 0 <= i < s.len() ==> vocab[(#[trigger] s[i]).0 as int].len() > 0
}

proof fn lemma_merge_keeps(rules: Rules, vocab: Seq<Seq<u8>>, s: Seq<TokenId>, i: int)
    requires
        rules_keep_bytes(rules, vocab),
        all_inked(vocab, s),
        mergeable(rules, s, i),
    ensures
        ({
            let t = merge_at(s, i, rules[(s[i], s[i + 1])].0);
            &&& decoded(vocab, t) == decoded(vocab, s)
            &&& all_inked(vocab, t)
            &&& t.len() == s.len() - 1
        }),
{
    let new = rules[(s[i], s[i + 1])].0;
    let t = merge_at(s, i, new);
    let head = s.subrange(0, i);
    let tail = s.subrange(i + 2, s.len() as int);
    let pair = seq![s[i]] + seq![s[i + 1]];
    assert(s =~= head + pair + tail);
    assert(t =~= head + seq![new] + tail);
    lemma_decoded_concat(vocab, head + pair, tail);
    lemma_decoded_concat(vocab, head, pair);
    lemma_decoded_concat(vocab, seq![s[i]], seq![s[i + 1]]);
    lemma_decoded_concat(vocab, head + seq![new], tail);
    lemma_decoded_concat(vocab, head, seq![new]);
    lemma_decoded_one(vocab, s[i]);
    lemma_decoded_one(vocab, s[i + 1]);
    lemma_decoded_one(vocab, new);
    assert(rules.contains_key((s[i], s[i + 1])));
    assert forall|k: int| 0 <= k < t.len() implies vocab[(#[trigger] t[k]).0 as int].len() > 0 by {
        assert(vocab[s[i].0 as int].len() > 0);
        assert(t[k] == new || t[k] == s[k] || t[k] == s[k + 1]);
    }
}

/// The pair of tokens on the two sides does not merge.
proof fn lemma_no_rule_spans(rules: Rules, vocab: Seq<Seq<u8>>, a: Seq<TokenId>, b: Seq<TokenId>)
    requires
        rules_keep_bytes(rules, vocab),
        all_inked(vocab, a),
        all_inked(vocab, b),
        a.len() > 0,
        b.len() > 0,
        nothing_spans(rules, vocab, decoded(vocab, a), decoded(vocab, b)),
    ensures
        !rules.contains_key((a.last(), b[0])),
{
    let p = (a.last(), b[0]);
    if rules.contains_key(p) {
        let l = vocab[a.last().0 as int];
        let r = vocab[b[0].0 as int];
        let piece = vocab[rules[p].0.0 as int];
        assert(vocab[a[a.len() - 1].0 as int].len() > 0);
        assert(vocab[b[0].0 as int].len() > 0);
        let left = decoded(vocab, a);
        let right = decoded(vocab, b);
        assert(left == decoded(vocab, a.drop_last()) + l);
        assert(b =~= seq![b[0]] + b.drop_first());
        lemma_decoded_concat(vocab, seq![b[0]], b.drop_first());
        lemma_decoded_one(vocab, b[0]);
        assert(right == r + decoded(vocab, b.drop_first()));
        assert(piece == l + r);
        let i = l.len() as int;
        assert(piece.take(i) =~= left.skip(left.len() - i));
        assert(piece.skip(i) =~= right.take(piece.len() - i));
        assert(spans(piece, left, right));
    }
}

/// Where no rule yields a piece that spans two texts, merging their symbols
/// together is merging them apart.
pub proof fn lemma_merged_apart(rules: Rules, vocab: Seq<Seq<u8>>, a: Seq<TokenId>, b: Seq<TokenId>)
    requires
        rules_keep_bytes(rules, vocab),
        all_inked(vocab, a),
        all_inked(vocab, b),
        nothing_spans(rules, vocab, decoded(vocab, a), decoded(vocab, b)),
    ensures
        bpe_merged(rules, a + b) == bpe_merged(rules, a) + bpe_merged(rules, b),
    decreases a.len() + b.len(),
{
    let s = a + b;
    let n = a.len() as int;
    if a.len() > 0 && b.len() > 0 {
        lemma_no_rule_spans(rules, vocab, a, b);
    }
    assert forall|j: int| #[trigger] mergeable(rules, a, j) implies mergeable(rules, s, j)
        && pair_rank(rules, s, j) == pair_rank(rules, a, j) by {}
    assert forall|j: int| #[trigger] mergeable(rules, b, j) implies mergeable(rules, s, n + j)
        && pair_rank(rules, s, n + j) == pair_rank(rules, b, j) by {}
    if exists|i: int| merges_next(rules, s, i) {
        let i = choose|i: int| merges_next(rules, s, i);
        assert(mergeable(rules, s, i));
        let new = rules[(s[i], s[i + 1])].0;
        lemma_merge_step(rules, s, i);
        if i + 1 < n {
            assert(s[i] == a[i] && s[i + 1] == a[i + 1]);
            assert(mergeable(rules, a, i));
            assert(merges_next(rules, a, i));
            lemma_merge_step(rules, a, i);
            lemma_merge_keeps(rules, vocab, a, i);
            let a2 = merge_at(a, i, new);
            assert(merge_at(s, i, new) =~= a2 + b);
            lemma_merged_apart(rules, vocab, a2, b);
        } else if i + 1 == n {
            assert(s[i] == a.last() && s[i + 1] == b[0]);
            assert(false);
        } else {
            let j = i - n;
            assert(s[i] == b[j] && s[i + 1] == b[j + 1]);
            assert(mergeable(rules, b, j));
            assert forall|k: int|
                #![trigger mergeable(rules, b, k)]
                mergeable(rules, b, k) implies {
                ||| pair_rank(rules, b, j) < pair_rank(rules, b, k)
                ||| pair_rank(rules, b, j) == pair_rank(rules, b, k) && j <= k
            } by {
                assert(mergeable(rules, s, n + k));
            }
            assert(merges_next(rules, b, j));
            lemma_merge_step(rules, b, j);
            lemma_merge_keeps(rules, vocab, b, j);
            let b2 = merge_at(b, j, new);
            assert(merge_at(s, i, new) =~= a + b2);
            lemma_merged_apart(rules, vocab, a, b2);
        }
    } else {
        assert forall|j: int| !#[trigger] mergeable(rules, a, j) by {
            if mergeable(rules, a, j) {
                lemma_some_pair_merges_next(rules, s, j);
            }
        }
        assert forall|j: int| !#[trigger] mergeable(rules, b, j) by {
            if mergeable(rules, b, j) {
                lemma_some_pair_merges_next(rules, s, n + j);
            }
        }
        lemma_merge_done(rules, a);
        lemma_merge_done(rules, b);
    }
}

} // verus!
