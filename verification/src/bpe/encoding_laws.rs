//! Laws: which added token a text is split at, which pair merges first, and what ids
//! stand for.

use vstd::prelude::*;

use crate::bpe::added::{
    added_at, by_descending_len, first_added, insert_by_len, lemma_by_descending_len,
    lemma_by_descending_len_from, lemma_first_added, lemma_winner, lemma_winner_longest,
    matching_order, next_added, winner, Added,
};
use crate::bpe::merge::{
    bpe_merged, lemma_merge_done, lemma_merge_step, merge_at, mergeable, merges_next, pair_rank,
    rules_by_id,
};
use crate::bpe::model::{
    initial_symbols, joined, lemma_joined_concat, lemma_joined_one, lemma_vocab_inverse,
    vocab_inverse, ModelView,
};
use crate::bpe::tiktoken::Encoding;
use crate::bpe::vocab::{assigned_entries, decoded};
use crate::seqs::{lemma_flatten_concat, lemma_flatten_one, occurs_at};
use crate::token::TokenId;

verus! {

/// Whether the first entry of a list with content `c` has token `id`.
pub open spec fn first_listed(list: Seq<Added>, c: Seq<u8>, id: TokenId) -> bool {
    exists|k: int|
        0 <= k < list.len() && #[trigger] list[k] == (c, id) && forall|j: int|
            0 <= j < k ==> (#[trigger] list[j]).0 != c
}

/// Putting an entry into a list by length leaves the first entry of each content
/// first, and makes the new one first where its content is new.
proof fn lemma_insert_first(list: Seq<Added>, x: Added, c: Seq<u8>, id: TokenId)
    requires
        first_listed(list, c, id) || ((forall|k: int|
            0 <= k < list.len() ==> (#[trigger] list[k]).0 != c) && x == (c, id)),
        matching_order(list),
    ensures
        first_listed(insert_by_len(list, x), c, id),
    decreases list.len(),
{
    let r = insert_by_len(list, x);
    if list.len() == 0 || list.last().0.len() >= x.0.len() {
        if first_listed(list, c, id) {
            let k = choose|k: int|
                0 <= k < list.len() && #[trigger] list[k] == (c, id) && forall|j: int|
                    0 <= j < k ==> (#[trigger] list[j]).0 != c;
            assert(r[k] == (c, id));
            assert forall|j: int| 0 <= j < k implies (#[trigger] r[j]).0 != c by {
                assert(r[j] == list[j]);
            }
        } else {
            let n = list.len() as int;
            assert(r[n] == (c, id));
            assert forall|j: int| 0 <= j < n implies (#[trigger] r[j]).0 != c by {
                assert(r[j] == list[j]);
            }
        }
    } else {
        let init = list.drop_last();
        let ri = insert_by_len(init, x);
        assert(matching_order(init)) by {
            assert forall|i: int| 0 <= i < init.len() implies (#[trigger] init[i]).0.len() > 0 by {
                assert(init[i] == list[i]);
            }
            assert forall|i: int, j: int| 0 <= i < j < init.len() implies (
            #[trigger] init[i]).0.len() >= (#[trigger] init[j]).0.len() by {
                assert(init[i] == list[i] && init[j] == list[j]);
            }
        }
        if first_listed(init, c, id) || !first_listed(list, c, id) {
            assert forall|k: int| 0 <= k < init.len() && !first_listed(init, c, id) implies (
            #[trigger] init[k]).0 != c by {
                assert(init[k] == list[k]);
            }
            lemma_insert_first(init, x, c, id);
            let k = choose|k: int|
                0 <= k < ri.len() && #[trigger] ri[k] == (c, id) && forall|j: int|
                    0 <= j < k ==> (#[trigger] ri[j]).0 != c;
            assert(r[k] == (c, id));
            assert forall|j: int| 0 <= j < k implies (#[trigger] r[j]).0 != c by {
                assert(r[j] == ri[j]);
            }
        } else {
            let k = choose|k: int|
                0 <= k < list.len() && #[trigger] list[k] == (c, id) && forall|j: int|
                    0 <= j < k ==> (#[trigger] list[j]).0 != c;
            if k < init.len() {
                assert(init[k] == (c, id));
                assert forall|j: int| 0 <= j < k implies (#[trigger] init[j]).0 != c by {
                    assert(init[j] == list[j]);
                }
            }
            assert(k == list.len() - 1);
            let n = ri.len() as int;
            assert(r[n] == (c, id));
            assert forall|j: int| 0 <= j < n implies (#[trigger] r[j]).0 != c by {
                assert(r[j] == ri[j]);
                lemma_inserted_from(init, x, j);
                if ri[j] != x {
                    let i = choose|i: int| 0 <= i < init.len() && #[trigger] init[i] == ri[j];
                    assert(list[i] == ri[j]);
                }
            }
        }
    }
}

proof fn lemma_inserted_from(list: Seq<Added>, x: Added, k: int)
    requires
        0 <= k < insert_by_len(list, x).len(),
    ensures
        insert_by_len(list, x)[k] == x || exists|i: int|
            0 <= i < list.len() && #[trigger] list[i] == insert_by_len(list, x)[k],
        insert_by_len(list, x).len() == list.len() + 1,
    decreases list.len(),
{
    let r = insert_by_len(list, x);
    if list.len() == 0 || list.last().0.len() >= x.0.len() {
        if k < list.len() {
            assert(list[k] == r[k]);
        }
    } else {
        let init = list.drop_last();
        lemma_inserted_from(init, x, 0);
        if k < init.len() + 1 {
            lemma_inserted_from(init, x, k);
            if r[k] != x {
                let i = choose|i: int| 0 <= i < init.len() && #[trigger] init[i] == r[k];
                assert(list[i] == r[k]);
            }
        } else {
            assert(list[list.len() - 1] == r[k]);
        }
    }
}

/// Every entry of a list of added tokens that has content can be matched, and of two
/// with one content the one that was listed first.
pub proof fn lemma_listed_is_matched(list: Seq<Added>, c: Seq<u8>, id: TokenId)
    requires
        c.len() > 0,
        first_listed(list, c, id),
    ensures
        first_listed(by_descending_len(list), c, id),
    decreases list.len(),
{
    let init = list.drop_last();
    let x = list.last();
    let k = choose|k: int|
        0 <= k < list.len() && #[trigger] list[k] == (c, id) && forall|j: int|
            0 <= j < k ==> (#[trigger] list[j]).0 != c;
    lemma_by_descending_len(init);
    let sorted = by_descending_len(init);
    if k < init.len() {
        assert(init[k] == (c, id));
        assert forall|j: int| 0 <= j < k implies (#[trigger] init[j]).0 != c by {
            assert(init[j] == list[j]);
        }
        assert(first_listed(init, c, id));
        lemma_listed_is_matched(init, c, id);
    } else {
        assert forall|j: int| 0 <= j < sorted.len() implies (#[trigger] sorted[j]).0 != c by {
            lemma_by_descending_len_from(init, j);
            let i = choose|i: int| 0 <= i < init.len() && init[i] == sorted[j];
            assert(list[i] == sorted[j]);
        }
    }
    if x.0.len() > 0 {
        lemma_insert_first(sorted, x, c, id);
    }
}

/// Where a text is split at an added token of a list: at the leftmost place where
/// one with content stands, for the longest that stands there; where two have its
/// content, for the one listed first.
pub proof fn lemma_leftmost_longest(list: Seq<Added>, s: Seq<u8>, from: int)
    requires
        0 <= from,
    ensures
        match next_added(by_descending_len(list), s, from) {
            Some((start, end, id)) => {
                &&& from <= start < end <= s.len()
                &&& first_listed(list, s.subrange(start, end), id)
                &&& forall|k: int, i: int|
                    0 <= k < list.len() && list[k].0.len() > 0 && from <= i < start
                        ==> !#[trigger] occurs_at(s, list[k].0, i)
                &&& forall|k: int|
                    0 <= k < list.len() && #[trigger] occurs_at(s, list[k].0, start)
                        ==> list[k].0.len() <= end - start
            },
            None => forall|k: int, i: int|
                0 <= k < list.len() && list[k].0.len() > 0 && from <= i ==> !#[trigger] occurs_at(
                    s,
                    list[k].0,
                    i,
                ),
        },
{
    let added = by_descending_len(list);
    lemma_by_descending_len(list);
    lemma_first_added(added, s, from);
    assert forall|k: int, i: int|
        0 <= k < list.len() && list[k].0.len() > 0 && #[trigger] occurs_at(
            s,
            list[k].0,
            i,
        ) implies added_at(added, s, i) && added[winner(added, s, i)].0.len()
        >= list[k].0.len() by {
        let m = lemma_has_first(list, k);
        lemma_listed_is_matched(list, list[k].0, list[m].1);
        let j = choose|j: int|
            0 <= j < added.len() && #[trigger] added[j] == (list[k].0, list[m].1) && forall|l: int|
                0 <= l < j ==> (#[trigger] added[l]).0 != list[k].0;
        assert(occurs_at(s, added[j].0, i));
        lemma_winner_longest(added, s, i, j);
    }
    match first_added(added, s, from) {
        Some(at) => {
            lemma_winner(added, s, at);
            let w = winner(added, s, at);
            let c = added[w].0;
            lemma_by_descending_len_from(list, w);
            let k = choose|k: int| 0 <= k < list.len() && list[k] == added[w];
            let m = lemma_has_first(list, k);
            lemma_listed_is_matched(list, c, list[m].1);
            let j = choose|j: int|
                0 <= j < added.len() && #[trigger] added[j] == (c, list[m].1) && forall|l: int|
                    0 <= l < j ==> (#[trigger] added[l]).0 != c;
            assert(occurs_at(s, added[j].0, at));
            assert(j == w);
            assert(s.subrange(at, at + c.len()) == c);
        },
        None => {},
    }
}

/// The first entry of a list with the content of entry `k`.
proof fn lemma_has_first(list: Seq<Added>, k: int) -> (m: int)
    requires
        0 <= k < list.len(),
    ensures
        0 <= m <= k,
        list[m].0 == list[k].0,
        first_listed(list, list[k].0, list[m].1),
    decreases k,
{
    if exists|j: int| 0 <= j < k && (#[trigger] list[j]).0 == list[k].0 {
        let j = choose|j: int| 0 <= j < k && (#[trigger] list[j]).0 == list[k].0;
        lemma_has_first(list, j)
    } else {
        assert(list[k] == (list[k].0, list[k].1));
        k
    }
}

/// What stands at or behind a place is what stands in the rest of the text from it.
pub proof fn lemma_next_in_rest(added: Seq<Added>, s: Seq<u8>, p: int, from: int)
    requires
        matching_order(added),
        0 <= p <= from,
        p <= s.len(),
    ensures
        next_added(added, s.skip(p), from - p) == match next_added(added, s, from) {
            Some((a, b, id)) => Some((a - p, b - p, id)),
            None => None,
        },
{
    let t = s.skip(p);
    lemma_first_added(added, s, from);
    lemma_first_added(added, t, from - p);
    assert forall|k: int, i: int|
        #![trigger occurs_at(s, added[k].0, i)]
        0 <= k < added.len() && p <= i implies occurs_at(t, added[k].0, i - p) == occurs_at(
        s,
        added[k].0,
        i,
    ) by {
        let c = added[k].0;
        if i + c.len() <= s.len() {
            assert(t.subrange(i - p, i - p + c.len()) =~= s.subrange(i, i + c.len()));
        }
    }
    assert forall|i: int| p <= i implies #[trigger] added_at(added, s, i) == added_at(
        added,
        t,
        i - p,
    ) by {
        if added_at(added, s, i) {
            let k = choose|k: int| 0 <= k < added.len() && occurs_at(s, (#[trigger] added[k]).0, i);
            assert(occurs_at(t, added[k].0, i - p));
        }
        if added_at(added, t, i - p) {
            let k = choose|k: int|
                0 <= k < added.len() && occurs_at(t, (#[trigger] added[k]).0, i - p);
            assert(occurs_at(s, added[k].0, i));
        }
    }
    match first_added(added, s, from) {
        Some(a) => {
            assert(added_at(added, t, a - p));
            let b = first_added(added, t, from - p)->0;
            assert(first_added(added, t, from - p) is Some);
            if b < a - p {
                assert(!added_at(added, s, b + p));
            }
            assert(b == a - p);
            lemma_winner(added, s, a);
            lemma_winner(added, t, b);
            let w = winner(added, s, a);
            let v = winner(added, t, b);
            assert(occurs_at(t, added[w].0, b));
            assert(occurs_at(s, added[v].0, a));
        },
        None => {
            match first_added(added, t, from - p) {
                Some(b) => {
                    assert(!added_at(added, s, b + p));
                },
                None => {},
            }
        },
    }
}

proof fn lemma_pieces_in_rest(e: Encoding, s: Seq<u8>, p: int, from: int)
    requires
        matching_order(e.added),
        0 <= p <= from,
        p <= s.len(),
    ensures
        e.pieces_from(s.skip(p), from - p) == e.pieces_from(s, from),
    decreases s.len() - from,
{
    let t = s.skip(p);
    if from < s.len() {
        lemma_next_in_rest(e.added, s, p, from);
        match next_added(e.added, s, from) {
            None => {
                assert(t.skip(from - p) =~= s.skip(from));
            },
            Some((a, b, id)) => {
                if from <= a < b <= s.len() {
                    lemma_pieces_in_rest(e, s, p, b);
                    assert(t.subrange(from - p, a - p) =~= s.subrange(from, a));
                }
            },
        }
    }
}

/// A text with an added token in it is encoded as what stands before the token, the
/// token, and what stands behind it, the last two apart from all that is before them;
/// one without is encoded as a segment.
pub proof fn lemma_split_at_added(e: Encoding, s: Seq<u8>)
    requires
        matching_order(e.added),
        s.len() > 0,
    ensures
        match next_added(e.added, s, 0) {
            Some((start, end, id)) => {
                &&& 0 <= start < end <= s.len()
                &&& e.pieces(s) == e.segment_pieces(s.take(start)) + seq![seq![id]] + e.pieces(
                    s.skip(end),
                )
                &&& e.tokens(s) == joined(e.segment_pieces(s.take(start))) + seq![id] + e.tokens(
                    s.skip(end),
                )
            },
            None => e.pieces(s) == e.segment_pieces(s),
        },
{
    lemma_first_added(e.added, s, 0);
    match next_added(e.added, s, 0) {
        Some((start, end, id)) => {
            lemma_winner(e.added, s, start);
            let w = winner(e.added, s, start);
            assert(e.added[w].0.len() > 0);
            assert(s.subrange(0, start) =~= s.take(start));
            lemma_pieces_in_rest(e, s, end, end);
            let head = e.segment_pieces(s.take(start));
            lemma_joined_concat(head + seq![seq![id]], e.pieces(s.skip(end)));
            lemma_joined_concat(head, seq![seq![id]]);
            lemma_joined_one(seq![id]);
        },
        None => {
            assert(s.skip(0) =~= s);
        },
    }
}

/// The entries that a vocabulary lists: every id with content, with it, by ascending
/// id, and no others.
pub proof fn lemma_entries_listed(vocab: Seq<Seq<u8>>, n: int)
    requires
        0 <= n <= vocab.len(),
        vocab.len() <= u32::MAX,
    ensures
        ({
            let list = assigned_entries(vocab, n);
            &&& forall|i: int, j: int|
                0 <= i < j < list.len() ==> (#[trigger] list[i]).0 < (#[trigger] list[j]).0
            &&& forall|i: int|
                0 <= i < list.len() ==> (#[trigger] list[i]).0 < n && list[i].1
                    == vocab[list[i].0 as int] && list[i].1.len() > 0
            &&& forall|id: int|
                0 <= id < n && (#[trigger] vocab[id]).len() > 0 ==> list.contains(
                    (id as u32, vocab[id]),
                )
        }),
    decreases n,
{
    if n > 0 {
        lemma_entries_listed(vocab, n - 1);
        let before = assigned_entries(vocab, n - 1);
        let list = assigned_entries(vocab, n);
        if vocab[n - 1].len() > 0 {
            let e = ((n - 1) as u32, vocab[n - 1]);
            assert(list == before.push(e));
            assert forall|i: int, j: int| 0 <= i < j < list.len() implies (#[trigger] list[i]).0 < (
            #[trigger] list[j]).0 by {
                assert(list[i] == before[i]);
                if j < before.len() {
                    assert(list[j] == before[j]);
                }
            }
            assert forall|i: int| 0 <= i < list.len() implies (#[trigger] list[i]).0 < n
                && list[i].1 == vocab[list[i].0 as int] && list[i].1.len() > 0 by {
                if i < before.len() {
                    assert(list[i] == before[i]);
                }
            }
            assert forall|id: int| 0 <= id < n && (#[trigger] vocab[id]).len()
                > 0 implies list.contains((id as u32, vocab[id])) by {
                if id < n - 1 {
                    let k = choose|k: int| 0 <= k < before.len() && before[k] == (id as u32, vocab[id]);
                    assert(list[k] == (id as u32, vocab[id]));
                } else {
                    assert(list[before.len() as int] == e);
                }
            }
        }
    }
}

/// The list of merges has a pair that makes a lower token before one that makes a
/// higher.
pub proof fn lemma_merges_listed_by_id(
    m: ModelView,
    pairs: Seq<(TokenId, TokenId)>,
    i: int,
    j: int,
)
    requires
        m.merge_order(pairs),
        0 <= i < pairs.len(),
        0 <= j < pairs.len(),
        m.merges[pairs[i]].0 < m.merges[pairs[j]].0,
    ensures
        i < j,
        m.merges.contains_key(pairs[i]),
{
    assert(pairs.contains(pairs[i]));
}

/// Ids stand for the entries of the vocabulary at them, one after the other.
pub proof fn lemma_ids_stand_for_entries(vocab: Seq<Seq<u8>>, ids: Seq<TokenId>)
    ensures
        decoded(vocab, ids) == Seq::new(ids.len(), |i: int| vocab[ids[i].0 as int]).flatten(),
    decreases ids.len(),
{
    let parts = Seq::new(ids.len(), |i: int| vocab[ids[i].0 as int]);
    if ids.len() > 0 {
        let init = ids.drop_last();
        let before = Seq::new(init.len(), |i: int| vocab[init[i].0 as int]);
        lemma_ids_stand_for_entries(vocab, init);
        assert(parts =~= before + seq![vocab[ids.last().0 as int]]);
        lemma_flatten_concat(before, seq![vocab[ids.last().0 as int]]);
        lemma_flatten_one(vocab[ids.last().0 as int]);
    } else {
        assert(parts =~= Seq::<Seq<u8>>::empty());
        assert(parts.flatten() =~= Seq::<u8>::empty());
    }
}

/// Two adjacent tokens.
pub open spec fn pair_at(s: Seq<TokenId>, i: int) -> (TokenId, TokenId) {
    (s[i], s[i + 1])
}

/// Of the pairs that merge, the one that makes the lowest token merges first, the
/// leftmost of equals: the two give way to the token they make.
pub proof fn lemma_lowest_merges_first(
    merges: Map<(TokenId, TokenId), TokenId>,
    s: Seq<TokenId>,
    i: int,
)
    requires
        0 <= i < s.len() - 1,
        merges.contains_key(pair_at(s, i)),
        forall|j: int|
            0 <= j < s.len() - 1 && merges.contains_key(#[trigger] pair_at(s, j)) ==> {
                ||| merges[pair_at(s, i)].0 < merges[pair_at(s, j)].0
                ||| merges[pair_at(s, i)].0 == merges[pair_at(s, j)].0 && i <= j
            },
    ensures
        bpe_merged(rules_by_id(merges), s) == bpe_merged(
            rules_by_id(merges),
            s.take(i) + seq![merges[pair_at(s, i)]] + s.skip(i + 2),
        ),
{
    let rules = rules_by_id(merges);
    let t = merges[pair_at(s, i)];
    assert(mergeable(rules, s, i));
    assert forall|j: int| #[trigger] mergeable(rules, s, j) implies {
        ||| pair_rank(rules, s, i) < pair_rank(rules, s, j)
        ||| pair_rank(rules, s, i) == pair_rank(rules, s, j) && i <= j
    } by {
        assert(merges.contains_key(pair_at(s, j)));
    }
    assert(merges_next(rules, s, i));
    lemma_merge_step(rules, s, i);
    assert(merge_at(s, i, t) =~= s.take(i) + seq![t] + s.skip(i + 2));
}

/// Tokens of which no adjacent two merge stay as they are.
pub proof fn lemma_nothing_merges(merges: Map<(TokenId, TokenId), TokenId>, s: Seq<TokenId>)
    requires
        forall|j: int| 0 <= j < s.len() - 1 ==> !merges.contains_key(#[trigger] pair_at(s, j)),
    ensures
        bpe_merged(rules_by_id(merges), s) == s,
{
    let rules = rules_by_id(merges);
    assert forall|j: int| !#[trigger] mergeable(rules, s, j) by {
        if mergeable(rules, s, j) {
            assert(merges.contains_key(pair_at(s, j)));
        }
    }
    lemma_merge_done(rules, s);
}

/// A pretoken that is an entry of the vocabulary is encoded as the highest id with
/// its bytes; any other is what merging makes of the tokens of its bytes, one for each.
pub proof fn lemma_pretoken(m: ModelView, p: Seq<u8>) -> (bytes: Seq<TokenId>)
    requires
        m.vocab.len() <= u32::MAX,
        m.inv == vocab_inverse(m.vocab, m.vocab.len() as int),
        forall|i: int| 0 <= i < p.len() ==> m.byte_decodes(#[trigger] p[i]),
    ensures
        bytes.len() == p.len(),
        forall|i: int|
            0 <= i < p.len() ==> (#[trigger] bytes[i]).0 < m.vocab.len()
                && m.vocab[bytes[i].0 as int] == seq![p[i]],
        forall|id: int|
            0 <= id < m.vocab.len() && #[trigger] m.vocab[id] == p && (forall|j: int|
                id < j < m.vocab.len() ==> #[trigger] m.vocab[j] != p) ==> m.pretoken_tokens(p)
                == seq![TokenId(id as u32)],
        (forall|id: int| 0 <= id < m.vocab.len() ==> #[trigger] m.vocab[id] != p)
            ==> m.pretoken_tokens(p) == bpe_merged(rules_by_id(m.merges), bytes),
{
    let n = m.vocab.len() as int;
    lemma_vocab_inverse(m.vocab, n, p);
    let bytes = Seq::new(p.len(), |i: int| m.byte_id(p[i]));
    assert(bytes =~= initial_symbols(m.remap, p));
    assert forall|i: int| 0 <= i < p.len() implies (#[trigger] bytes[i]).0 < m.vocab.len()
        && m.vocab[bytes[i].0 as int] == seq![p[i]] by {
        assert(m.byte_decodes(p[i]));
    }
    assert forall|id: int|
        0 <= id < n && #[trigger] m.vocab[id] == p && (forall|j: int|
            id < j < n ==> #[trigger] m.vocab[j] != p) implies m.pretoken_tokens(p) == seq![
        TokenId(id as u32),
    ] by {
        let got = m.inv[p].0 as int;
        assert(m.vocab[got] == p);
        assert(got == id);
    }
    bytes
}

/// Giving an id a content: an id without one has it from then on, in the vocabulary
/// and as a token of its own; an id with one keeps it. Every other id keeps what it
/// had, and ids that are new have nothing.
pub proof fn lemma_assigned(m: ModelView, content: Seq<u8>, id: TokenId, k: int)
    requires
        id.0 < u32::MAX,
        0 <= k,
    ensures
        ({
            let after = m.assigned(content, id);
            let free = id.0 >= m.vocab.len() || m.vocab[id.0 as int] == Seq::<u8>::empty();
            &&& id.0 < after.vocab.len()
            &&& m.vocab.len() <= after.vocab.len()
            &&& after.vocab.len() <= m.vocab.len() || after.vocab.len() == id.0 + 1
            &&& free ==> after.vocab[id.0 as int] == content && after.pretoken_tokens(content)
                == seq![id]
            &&& !free ==> after.inv == m.inv
            &&& k < m.vocab.len() && !(free && k == id.0) ==> after.vocab[k] == m.vocab[k]
            &&& m.vocab.len() <= k < after.vocab.len() && k != id.0 ==> after.vocab[k] == Seq::<
                u8,
            >::empty()
            &&& after.merges == m.merges
            &&& after.remap == m.remap
        }),
{
    if id.0 < m.vocab.len() && m.vocab[id.0 as int].len() == 0 {
        assert(m.vocab[id.0 as int] =~= Seq::<u8>::empty());
    }
}

} // verus!
