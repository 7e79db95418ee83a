//! Pair counts over all words, and how merging changes them.

use vstd::prelude::*;

use crate::bpe_train::index::{ascending, PairIndex};
use crate::bpe_train::pairs::{
    adjacent, amount, lemma_adjacent_tally, lemma_posted, lemma_tally_bound, posted, tally, touches,
    Pair, PairCounts,
};
use crate::bpe_train::word::{
    change_views, changes_at, changes_from, joined_at, lemma_changes, lemma_gone_counts,
    lemma_gone_merge, lemma_merged_counts, lemma_merged_gone, lemma_merged_loses, merged_from,
    pair_at, update_word, word_views, Word, WordView,
};

verus! {

/// How often a pair occurs in the first `n` words, each word as often as it
/// occurs itself.
pub open spec fn total(words: Seq<WordView>, n: int, p: Pair) -> int
    decreases n,
{
    if n <= 0 {
        0
    } else {
        total(words, n - 1, p) + tally(adjacent(words[n - 1].symbols), p) * words[n - 1].count
    }
}

/// The symbols of the first `n` words, each word as often as it occurs.
pub open spec fn load(words: Seq<WordView>, n: int) -> int
    decreases n,
{
    if n <= 0 {
        0
    } else {
        load(words, n - 1) + words[n - 1].symbols.len() * words[n - 1].count
    }
}

/// Whether no word is empty, nor occurs a negative number of times.
pub open spec fn proper(words: Seq<WordView>) -> bool {
    forall|k: int|
        0 <= k < words.len() ==> (#[trigger] words[k]).symbols.len() > 0 && words[k].count >= 0
}

/// The counts of the pairs of the first `n` words.
pub open spec fn all_pairs(words: Seq<WordView>, n: int) -> Map<Pair, int>
    decreases n,
{
    if n <= 0 {
        Map::empty()
    } else {
        posted(all_pairs(words, n - 1), adjacent(words[n - 1].symbols), words[n - 1].count)
    }
}

/// A word with `pair` merged.
pub open spec fn merged_word(w: WordView, pair: Pair, new_symbol: u32) -> WordView {
    WordView { symbols: merged_from(w.symbols, 0, pair, new_symbol), count: w.count }
}

/// Words with `pair` merged.
pub open spec fn merged_words(words: Seq<WordView>, pair: Pair, new_symbol: u32) -> Seq<WordView> {
    words.map_values(|w: WordView| merged_word(w, pair, new_symbol))
}

/// What merging `pair` in the first `n` words changes of the counts of pairs:
/// of those that went or came with a merge.
pub open spec fn all_changes(words: Seq<WordView>, n: int, pair: Pair, new_symbol: u32) -> Map<
    Pair,
    int,
>
    decreases n,
{
    if n <= 0 {
        Map::empty()
    } else {
        posted(
            all_changes(words, n - 1, pair, new_symbol),
            changes_from(words[n - 1].symbols, 0, pair, new_symbol),
            words[n - 1].count,
        )
    }
}

pub proof fn lemma_load_grows(words: Seq<WordView>, a: int, b: int)
    requires
        proper(words),
        0 <= a <= b <= words.len(),
    ensures
        0 <= load(words, a) <= load(words, b),
    decreases b,
{
    if b > 0 {
        let w = words[b - 1];
        assert(w.symbols.len() * w.count >= 0) by (nonlinear_arith)
            requires
                w.count >= 0,
        ;
        if a < b {
            lemma_load_grows(words, a, b - 1);
        } else {
            lemma_load_grows(words, a - 1, b - 1);
        }
    }
}

/// The counts of [`all_pairs`] are [`total`], and it has the pairs that stand
/// somewhere.
pub proof fn lemma_all_pairs(words: Seq<WordView>, n: int, p: Pair)
    requires
        proper(words),
        0 <= n <= words.len(),
    ensures
        amount(all_pairs(words, n), p) == total(words, n, p),
        0 <= total(words, n, p) <= load(words, n),
        all_pairs(words, n).contains_key(p) <==> exists|k: int|
            0 <= k < n && touches(adjacent(#[trigger] words[k].symbols), p),
    decreases n,
{
    if n > 0 {
        lemma_all_pairs(words, n - 1, p);
        let w = words[n - 1];
        let recs = adjacent(w.symbols);
        lemma_posted(all_pairs(words, n - 1), recs, w.count, p);
        lemma_adjacent_tally(recs, p);
        lemma_tally_bound(recs, p);
        let t = tally(recs, p);
        let len = w.symbols.len() as int;
        let c = w.count;
        assert(0 <= t * c <= len * c) by (nonlinear_arith)
            requires
                0 <= t <= len,
                c >= 0,
        ;
        if exists|k: int| 0 <= k < n && touches(adjacent(#[trigger] words[k].symbols), p) {
            let k = choose|k: int| 0 <= k < n && touches(adjacent(#[trigger] words[k].symbols), p);
            if k < n - 1 {
                assert(touches(adjacent(words[k].symbols), p));
            }
        }
        if touches(recs, p) {
            assert(touches(adjacent(words[n - 1].symbols), p));
        }
    }
}

/// [`all_changes`] is what merging changes of the count of every other pair;
/// of the pair itself it is not above 0 and no further below than the pair's
/// count.
pub proof fn lemma_all_changes(words: Seq<WordView>, n: int, pair: Pair, new_symbol: u32, p: Pair)
    requires
        proper(words),
        0 <= n <= words.len(),
        new_symbol != pair.0,
        new_symbol != pair.1,
    ensures
        p != pair ==> amount(all_changes(words, n, pair, new_symbol), p) == total(
            merged_words(words, pair, new_symbol),
            n,
            p,
        ) - total(words, n, p),
        p == pair ==> -total(words, n, p) <= amount(all_changes(words, n, pair, new_symbol), p)
            <= 0,
        p.0 != new_symbol && p.1 != new_symbol ==> amount(
            all_changes(words, n, pair, new_symbol),
            p,
        ) <= 0,
        total(merged_words(words, pair, new_symbol), n, pair) == 0,
        -4 * load(words, n) <= amount(all_changes(words, n, pair, new_symbol), p) <= 4 * load(
            words,
            n,
        ),
        all_changes(words, n, pair, new_symbol).contains_key(p) <==> exists|k: int|
            0 <= k < n && touches(
                changes_from(#[trigger] words[k].symbols, 0, pair, new_symbol),
                p,
            ),
    decreases n,
{
    if n > 0 {
        lemma_all_changes(words, n - 1, pair, new_symbol, p);
        let w = words[n - 1];
        let s = w.symbols;
        let c = w.count;
        let recs = changes_from(s, 0, pair, new_symbol);
        let m = merged_words(words, pair, new_symbol);
        let t = merged_from(s, 0, pair, new_symbol);
        assert(m[n - 1].symbols == t && m[n - 1].count == c);
        lemma_posted(all_changes(words, n - 1, pair, new_symbol), recs, c, p);
        lemma_changes(s, 0, pair, new_symbol);
        lemma_tally_bound(recs, p);
        lemma_merged_gone(s, 0, pair, new_symbol);
        lemma_gone_counts(t, pair);
        let k = tally(recs, p);
        let len = s.len() as int;
        assert(-4 * (len * c) <= k * c <= 4 * (len * c)) by (nonlinear_arith)
            requires
                -4 * len <= k <= 4 * len,
                c >= 0,
        ;
        if p.0 != new_symbol && p.1 != new_symbol {
            lemma_own_changes(recs, p, new_symbol);
            assert(k * c <= 0) by (nonlinear_arith)
                requires
                    k <= 0,
                    c >= 0,
            ;
        }
        if p != pair {
            lemma_merged_counts(s, 0, pair, new_symbol, p);
            let a = tally(adjacent(t), p);
            let b = tally(adjacent(s), p);
            assert(k * c == a * c - b * c) by (nonlinear_arith)
                requires
                    a == b + k,
            ;
        } else {
            lemma_merged_loses(s, 0, pair, new_symbol);
            let b = tally(adjacent(s), pair);
            assert(-(b * c) <= k * c <= 0) by (nonlinear_arith)
                requires
                    -b <= k <= 0,
                    c >= 0,
            ;
        }
        if exists|k: int|
            0 <= k < n && touches(changes_from(#[trigger] words[k].symbols, 0, pair, new_symbol), p) {
            let k = choose|k: int|
                0 <= k < n && touches(
                    changes_from(#[trigger] words[k].symbols, 0, pair, new_symbol),
                    p,
                );
            if k < n - 1 {
                assert(touches(changes_from(words[k].symbols, 0, pair, new_symbol), p));
            }
        }
        if touches(recs, p) {
            assert(touches(changes_from(words[n - 1].symbols, 0, pair, new_symbol), p));
        }
    }
}

/// A pair without the new symbol only goes.
proof fn lemma_own_changes(recs: Seq<(Pair, int)>, p: Pair, new_symbol: u32)
    requires
        p.0 != new_symbol,
        p.1 != new_symbol,
        forall|k: int|
            0 <= k < recs.len() ==> {
                let c = #[trigger] recs[k];
                c.1 == -1 || (c.1 == 1 && (c.0.0 == new_symbol || c.0.1 == new_symbol))
            },
    ensures
        tally(recs, p) <= 0,
    decreases recs.len(),
{
    if recs.len() > 0 {
        let init = recs.drop_last();
        assert forall|k: int| 0 <= k < init.len() implies ({
            let c = #[trigger] init[k];
            c.1 == -1 || (c.1 == 1 && (c.0.0 == new_symbol || c.0.1 == new_symbol))
        }) by {
            assert(init[k] == recs[k]);
        }
        lemma_own_changes(init, p, new_symbol);
        assert(recs[recs.len() - 1] == recs.last());
    }
}

/// A pair that comes out above 0 has come somewhere.
proof fn lemma_positive_record(recs: Seq<(Pair, int)>, p: Pair)
    requires
        tally(recs, p) > 0,
    ensures
        exists|k: int| 0 <= k < recs.len() && #[trigger] recs[k].0 == p && recs[k].1 > 0,
    decreases recs.len(),
{
    assert(recs[recs.len() - 1] == recs.last());
    if !(recs.last().0 == p && recs.last().1 > 0) {
        let init = recs.drop_last();
        lemma_positive_record(init, p);
        let k = choose|k: int| 0 <= k < init.len() && #[trigger] init[k].0 == p && init[k].1 > 0;
        assert(recs[k].0 == p);
    } else {
        assert(recs[recs.len() - 1].0 == p);
    }
}

/// Count the adjacent pairs of all words.
pub fn count_pairs(words: &[Word]) -> (r: PairCounts)
    requires
        proper(word_views(words@)),
        load(word_views(words@), words@.len() as int) <= isize::MAX,
    ensures
        r.wf(),
        r@ == all_pairs(word_views(words@), words@.len() as int),
{
    let ghost views = word_views(words@);
    let mut counts: PairCounts = PairCounts::new();
    for k in 0..words.len()
        invariant
            views == word_views(words@),
            proper(views),
            load(views, words@.len() as int) <= isize::MAX,
            counts.wf(),
            counts@ == all_pairs(views, k as int),
    {
        let w: &Word = &words[k];
        let ghost s = w.symbols@;
        let ghost before = counts@;
        let ghost recs = adjacent(s);
        proof {
            assert(views[k as int] == w@);
            assert(recs.take(0) =~= Seq::<(Pair, int)>::empty());
        }
        let n: usize = w.symbols.len();
        for i in 0..n - 1
            invariant
                views == word_views(words@),
                proper(views),
                load(views, words@.len() as int) <= isize::MAX,
                k < words@.len(),
                *w == words@[k as int],
                views[k as int] == w@,
                s == w.symbols@,
                n == s.len(),
                n > 0,
                recs == adjacent(s),
                before == all_pairs(views, k as int),
                counts.wf(),
                counts@ == posted(before, recs.take(i as int), w.word_count as int),
        {
            let pair: Pair = (w.symbols[i], w.symbols[i + 1]);
            proof {
                let c = w.word_count as int;
                let done = recs.take(i as int);
                assert(recs.take(i as int + 1).drop_last() =~= done);
                assert(recs.take(i as int + 1).last() == (pair, 1int));
                lemma_posted(before, done, c, pair);
                lemma_all_pairs(views, k as int, pair);
                lemma_tally_bound(done, pair);
                lemma_load_grows(views, k as int, words@.len() as int);
                lemma_load_grows(views, k as int + 1, words@.len() as int);
                let t = tally(done, pair);
                assert(-(n * c) <= t * c <= n * c) by (nonlinear_arith)
                    requires
                        -n <= t <= n,
                        c >= 0,
                ;
                assert(n * c == s.len() * c);
            }
            counts.post(pair, w.word_count as i128);
        }
        assert(recs.take(n - 1) =~= recs);
    }
    counts
}

/// Merging keeps words proper, and does not add to their load.
pub proof fn lemma_merged_words(words: Seq<WordView>, n: int, pair: Pair, new_symbol: u32)
    requires
        proper(words),
        0 <= n <= words.len(),
    ensures
        proper(merged_words(words, pair, new_symbol)),
        load(merged_words(words, pair, new_symbol), n) <= load(words, n),
    decreases n,
{
    let m = merged_words(words, pair, new_symbol);
    assert forall|k: int| 0 <= k < m.len() implies (#[trigger] m[k]).symbols.len() > 0
        && m[k].count >= 0 by {
        assert(words[k].symbols.len() > 0);
        lemma_changes(words[k].symbols, 0, pair, new_symbol);
    }
    if n > 0 {
        lemma_merged_words(words, n - 1, pair, new_symbol);
        lemma_changes(words[n - 1].symbols, 0, pair, new_symbol);
        let a = m[n - 1].symbols.len() as int;
        let b = words[n - 1].symbols.len() as int;
        let c = words[n - 1].count;
        assert(a * c <= b * c) by (nonlinear_arith)
            requires
                a <= b,
                c >= 0,
        ;
    }
}

// ---------------------------------------------------------------------------
// Updating words
// ---------------------------------------------------------------------------

/// Whether every symbol is below `n`.
pub open spec fn symbols_below(words: Seq<WordView>, n: int) -> bool {
    forall|k: int, i: int|
        0 <= k < words.len() && 0 <= i < words[k].symbols.len() ==> #[trigger] words[k].symbols[i]
            < n
}

/// Whether word `k` is listed for each of its pairs.
pub open spec fn word_listed(index: PairIndex, w: WordView, k: int) -> bool {
    forall|p: Pair| #[trigger]
        touches(adjacent(w.symbols), p) ==> index.listed(p).contains(k as usize)
}

/// Whether an index lists, for each pair, the words that it stands in; all of
/// them places of words in ascending order, and none for pairs with a symbol
/// that is not below `n`.
pub open spec fn index_ok(index: PairIndex, words: Seq<WordView>, n: int) -> bool {
    &&& words.len() <= usize::MAX
    &&& forall|k: int| 0 <= k < words.len() ==> #[trigger] word_listed(index, words[k], k)
    &&& forall|p: Pair| ascending(#[trigger] index.listed(p))
    &&& forall|p: Pair, i: int|
        0 <= i < index.listed(p).len() ==> #[trigger] index.listed(p)[i] < words.len()
    &&& forall|p: Pair| p.0 >= n || p.1 >= n ==> (#[trigger] index.listed(p)).len() == 0
}

/// Index the words that each pair stands in.
pub(crate) fn index_words(words: &[Word], n: Ghost<int>) -> (index: PairIndex)
    requires
        proper(word_views(words@)),
        symbols_below(word_views(words@), n@),
    ensures
        index_ok(index, word_views(words@), n@),
{
    let ghost views = word_views(words@);
    let mut index: PairIndex = PairIndex::new();
    let total_words: usize = words.len();
    for k in 0..total_words
        invariant
            total_words == words@.len(),
            views == word_views(words@),
            proper(views),
            symbols_below(views, n@),
            forall|j: int| 0 <= j < k ==> #[trigger] word_listed(index, views[j], j),
            forall|p: Pair| ascending(#[trigger] index.listed(p)),
            forall|p: Pair, i: int|
                0 <= i < index.listed(p).len() ==> #[trigger] index.listed(p)[i] < k,
            forall|p: Pair| p.0 >= n@ || p.1 >= n@ ==> (#[trigger] index.listed(p)).len() == 0,
    {
        let w: &Word = &words[k];
        let len: usize = w.symbols.len();
        let ghost s = w.symbols@;
        assert(views[k as int] == w@);
        for i in 0..len - 1
            invariant
                total_words == words@.len(),
                k < total_words,
                views == word_views(words@),
                proper(views),
                symbols_below(views, n@),
                *w == words@[k as int],
                views[k as int] == w@,
                s == w.symbols@,
                len == s.len(),
                len > 0,
                forall|j: int| 0 <= j < k ==> #[trigger] word_listed(index, views[j], j),
                forall|p: Pair| ascending(#[trigger] index.listed(p)),
                forall|p: Pair, i: int|
                    0 <= i < index.listed(p).len() ==> #[trigger] index.listed(p)[i] <= k,
                forall|p: Pair| p.0 >= n@ || p.1 >= n@ ==> (#[trigger] index.listed(p)).len() == 0,
                forall|j: int|
                    0 <= j < i ==> index.listed((#[trigger] adjacent(s)[j]).0).contains(k),
        {
            let pair: Pair = (w.symbols[i], w.symbols[i + 1]);
            let ghost before = index;
            proof {
                assert(views[k as int].symbols[i as int] < n@);
                assert(views[k as int].symbols[i + 1] < n@);
            }
            index.list_word(pair, k);
            proof {
                lemma_listed(before, index, pair, k);
                assert(adjacent(s)[i as int].0 == pair);
                assert forall|j: int| 0 <= j < k implies #[trigger] word_listed(
                    index,
                    views[j],
                    j,
                ) by {
                    assert(word_listed(before, views[j], j));
                }
            }
        }
        proof {
            assert forall|p: Pair| #[trigger] touches(adjacent(s), p) implies index.listed(
                p,
            ).contains(k) by {
                let j = choose|j: int|
                    0 <= j < adjacent(s).len() && (#[trigger] adjacent(s)[j]).0 == p;
                assert(index.listed(adjacent(s)[j].0).contains(k));
            }
            assert(word_listed(index, views[k as int], k as int));
        }
    }
    index
}

/// What listing one more place keeps.
proof fn lemma_listed(before: PairIndex, after: PairIndex, pair: Pair, k: usize)
    requires
        after.listed(pair) == if before.listed(pair).len() > 0 && before.listed(pair).last() == k {
            before.listed(pair)
        } else {
            before.listed(pair).push(k)
        },
        forall|q: Pair| q != pair ==> #[trigger] after.listed(q) == before.listed(q),
        forall|p: Pair| ascending(#[trigger] before.listed(p)),
        forall|i: int| 0 <= i < before.listed(pair).len() ==> #[trigger] before.listed(pair)[i] <= k,
    ensures
        forall|p: Pair| ascending(#[trigger] after.listed(p)),
        after.listed(pair).contains(k),
        forall|p: Pair, j: usize|
            before.listed(p).contains(j) ==> #[trigger] after.listed(p).contains(j),
        forall|i: int| 0 <= i < after.listed(pair).len() ==> #[trigger] after.listed(pair)[i] <= k,
{
    let a = before.listed(pair);
    let b = after.listed(pair);
    assert(ascending(a));
    if a.len() > 0 && a.last() == k {
        assert(b[b.len() - 1] == k);
    } else {
        assert(b[a.len() as int] == k);
        if a.len() > 0 {
            assert(a[a.len() - 1] <= k);
        }
        assert forall|i: int, j: int| 0 <= i < j < b.len() implies #[trigger] b[i]
            < #[trigger] b[j] by {
            if j == a.len() {
                assert(a[i] <= a[a.len() - 1]);
                assert(a[a.len() - 1] < k);
            }
        }
    }
    assert forall|p: Pair| ascending(#[trigger] after.listed(p)) by {
        if p != pair {
            assert(after.listed(p) == before.listed(p));
        }
    }
    assert forall|p: Pair, j: usize| before.listed(p).contains(j) implies #[trigger] after.listed(
        p,
    ).contains(j) by {
        if p == pair {
            let i = choose|i: int| 0 <= i < a.len() && a[i] == j;
            assert(b[i] == j);
        } else {
            assert(after.listed(p) == before.listed(p));
        }
    }
}

/// The state of an index while words are being merged: those below `upto` have
/// been.
spec fn index_part(
    index: PairIndex,
    first: PairIndex,
    views: Seq<WordView>,
    upto: int,
    pair: Pair,
    new_symbol: u32,
) -> bool {
    &&& forall|j: int|
        0 <= j < upto ==> #[trigger] word_listed(
            index,
            merged_word(views[j], pair, new_symbol),
            j,
        )
    &&& forall|j: int| upto <= j < views.len() ==> #[trigger] word_listed(index, views[j], j)
    &&& forall|p: Pair| ascending(#[trigger] index.listed(p))
    &&& forall|p: Pair|
        p.0 != new_symbol && p.1 != new_symbol ==> #[trigger] index.listed(p) == first.listed(p)
    &&& forall|p: Pair, i: int|
        (p.0 == new_symbol || p.1 == new_symbol) && 0 <= i < index.listed(p).len()
            ==> #[trigger] index.listed(p)[i] < upto
    &&& forall|p: Pair|
        p.0 > new_symbol || p.1 > new_symbol ==> (#[trigger] index.listed(p)).len() == 0
}

/// Words that the pair does not stand in stay as they are.
proof fn lemma_skip(
    views: Seq<WordView>,
    a: int,
    b: int,
    pair: Pair,
    new_symbol: u32,
)
    requires
        0 <= a <= b <= views.len(),
        forall|j: int| a <= j < b ==> !touches(adjacent(#[trigger] views[j].symbols), pair),
    ensures
        forall|j: int| a <= j < b ==> #[trigger] merged_word(views[j], pair, new_symbol) == views[j],
        all_changes(views, b, pair, new_symbol) == all_changes(views, a, pair, new_symbol),
    decreases b - a,
{
    if a < b {
        lemma_skip(views, a, b - 1, pair, new_symbol);
        let s = views[b - 1].symbols;
        assert(!touches(adjacent(s), pair));
        assert forall|k: int| !#[trigger] pair_at(s, k, pair) by {
            if pair_at(s, k, pair) {
                assert(adjacent(s)[k].0 == pair);
            }
        }
        lemma_gone_merge(s, 0, pair, new_symbol);
        assert(merged_word(views[b - 1], pair, new_symbol) =~= views[b - 1]);
    }
}

/// What the merged word's pairs are: those it had, and those that came.
proof fn lemma_merged_pairs(s: Seq<u32>, pair: Pair, new_symbol: u32, p: Pair)
    requires
        pair.0 < new_symbol,
        pair.1 < new_symbol,
        forall|k: int| 0 <= k < s.len() ==> #[trigger] s[k] < new_symbol,
        touches(adjacent(merged_from(s, 0, pair, new_symbol)), p),
    ensures
        p.0 == new_symbol || p.1 == new_symbol ==> exists|k: int|
            0 <= k < changes_from(s, 0, pair, new_symbol).len() && #[trigger] changes_from(
                s,
                0,
                pair,
                new_symbol,
            )[k].0 == p && changes_from(s, 0, pair, new_symbol)[k].1 > 0,
        p.0 != new_symbol && p.1 != new_symbol ==> touches(adjacent(s), p),
{
    let t = merged_from(s, 0, pair, new_symbol);
    let recs = changes_from(s, 0, pair, new_symbol);
    lemma_merged_gone(s, 0, pair, new_symbol);
    if p == pair {
        let k = choose|k: int| 0 <= k < adjacent(t).len() && (#[trigger] adjacent(t)[k]).0 == p;
        assert(pair_at(t, k, pair));
    }
    lemma_merged_counts(s, 0, pair, new_symbol, p);
    lemma_adjacent_tally(adjacent(t), p);
    lemma_adjacent_tally(adjacent(s), p);
    lemma_changes(s, 0, pair, new_symbol);
    if p.0 == new_symbol || p.1 == new_symbol {
        if touches(adjacent(s), p) {
            let k = choose|k: int| 0 <= k < adjacent(s).len() && (#[trigger] adjacent(s)[k]).0 == p;
            assert(s[k] < new_symbol && s[k + 1] < new_symbol);
        }
        lemma_positive_record(recs, p);
    } else {
        lemma_own_changes(recs, p, new_symbol);
    }
}

/// Post the changes of one word, and list the word for the pairs that came.
fn post_changes(
    counts: &mut PairCounts,
    index: &mut PairIndex,
    changes: &[(Pair, bool)],
    at: usize,
    times: isize,
    views: Ghost<Seq<WordView>>,
    pair: Ghost<Pair>,
    new_symbol: Ghost<u32>,
    first: Ghost<PairIndex>,
)
    requires
        proper(views@),
        at < views@.len(),
        load(views@, views@.len() as int) <= isize::MAX,
        symbols_below(views@, new_symbol@ as int),
        pair@.0 < new_symbol@,
        pair@.1 < new_symbol@,
        times == views@[at as int].count,
        change_views(changes@) == changes_from(
            views@[at as int].symbols,
            0,
            pair@,
            new_symbol@,
        ),
        old(counts).wf(),
        old(counts)@ == all_changes(views@, at as int, pair@, new_symbol@),
        index_part(*old(index), first@, views@, at as int, pair@, new_symbol@),
    ensures
        final(counts).wf(),
        final(counts)@ == all_changes(views@, at as int + 1, pair@, new_symbol@),
        index_part(*final(index), first@, views@, at as int + 1, pair@, new_symbol@),
{
    let ghost s = views@[at as int].symbols;
    let ghost recs = change_views(changes@);
    let ghost before = counts@;
    let ghost start = *index;
    assert(recs.take(0) =~= Seq::<(Pair, int)>::empty());
    proof {
        lemma_changes(s, 0, pair@, new_symbol@);
    }
    for k in 0..changes.len()
        invariant
            proper(views@),
            at < views@.len(),
            load(views@, views@.len() as int) <= isize::MAX,
            pair@.0 < new_symbol@,
            pair@.1 < new_symbol@,
            times == views@[at as int].count,
            s == views@[at as int].symbols,
            recs == change_views(changes@),
            recs == changes_from(s, 0, pair@, new_symbol@),
            recs.len() <= 4 * s.len(),
            forall|k: int|
                0 <= k < recs.len() ==> {
                    let c = #[trigger] recs[k];
                    c.1 == -1 || (c.1 == 1 && (c.0.0 == new_symbol@ || c.0.1 == new_symbol@))
                },
            before == all_changes(views@, at as int, pair@, new_symbol@),
            counts.wf(),
            counts@ == posted(before, recs.take(k as int), times as int),
            index_part(start, first@, views@, at as int, pair@, new_symbol@),
            forall|p: Pair| ascending(#[trigger] index.listed(p)),
            forall|p: Pair|
                p.0 != new_symbol@ && p.1 != new_symbol@ ==> #[trigger] index.listed(p)
                    == start.listed(p),
            forall|p: Pair, j: usize|
                start.listed(p).contains(j) ==> #[trigger] index.listed(p).contains(j),
            forall|p: Pair, i: int|
                (p.0 == new_symbol@ || p.1 == new_symbol@) && 0 <= i < index.listed(p).len()
                    ==> #[trigger] index.listed(p)[i] <= at,
            forall|p: Pair|
                p.0 > new_symbol@ || p.1 > new_symbol@ ==> #[trigger] index.listed(p)
                    == start.listed(p) || (p.0 <= new_symbol@ && p.1 <= new_symbol@),
            forall|j: int|
                0 <= j < k && recs[j].1 > 0 ==> index.listed((#[trigger] recs[j]).0).contains(at),
            symbols_below(views@, new_symbol@ as int),
    {
        let (p, came): (Pair, bool) = changes[k];
        let amount_of: i128 = if came {
            times as i128
        } else {
            -(times as i128)
        };
        proof {
            let c = times as int;
            let done = recs.take(k as int);
            assert(recs[k as int].0 == p);
            assert(recs[k as int].1 == if came {
                1int
            } else {
                -1
            });
            assert(recs.take(k as int + 1).drop_last() =~= done);
            assert(recs.take(k as int + 1).last() == recs[k as int]);
            lemma_posted(before, done, c, p);
            assert forall|j: int| 0 <= j < done.len() implies -1 <= (#[trigger] done[j]).1 <= 1 by {
                assert(done[j] == recs[j]);
            }
            lemma_tally_bound(done, p);
            lemma_all_changes(views@, at as int, pair@, new_symbol@, p);
            lemma_load_grows(views@, at as int, views@.len() as int);
            lemma_load_grows(views@, at as int + 1, views@.len() as int);
            let t = tally(done, p);
            let len = s.len() as int;
            assert(-4 * (len * c) <= t * c <= 4 * (len * c)) by (nonlinear_arith)
                requires
                    -4 * len <= t <= 4 * len,
                    c >= 0,
            ;
            assert(1 * c == c && -1 * c == -c) by (nonlinear_arith);
            assert(views@[at as int].symbols.len() * views@[at as int].count == len * c);
        }
        counts.post(p, amount_of);
        if came {
            let ghost prior = *index;
            proof {
                assert(recs[k as int].1 == 1);
                lemma_changes_below(s, 0, pair@, new_symbol@);
                assert(recs[k as int].0.0 <= new_symbol@ && recs[k as int].0.1 <= new_symbol@);
            }
            index.list_word(p, at);
            proof {
                lemma_listed(prior, *index, p, at);
                assert forall|q: Pair, j: usize| start.listed(q).contains(j) implies #[trigger] index.listed(
                    q,
                ).contains(j) by {
                    assert(prior.listed(q).contains(j));
                }
                assert forall|j: int|
                    0 <= j < k + 1 && recs[j].1 > 0 implies index.listed(
                    (#[trigger] recs[j]).0,
                ).contains(at) by {
                    if j < k {
                        assert(prior.listed(recs[j].0).contains(at));
                    }
                }
            }
        }
    }
    proof {
        assert(recs.take(recs.len() as int) =~= recs);
        assert(changes@.len() == recs.len());
        let m = merged_word(views@[at as int], pair@, new_symbol@);
        assert forall|p: Pair| #[trigger] touches(adjacent(m.symbols), p) implies index.listed(
            p,
        ).contains(at) by {
            assert forall|i: int| 0 <= i < s.len() implies #[trigger] s[i] < new_symbol@ by {
                assert(views@[at as int].symbols[i] < new_symbol@);
            }
            lemma_merged_pairs(s, pair@, new_symbol@, p);
            if p.0 == new_symbol@ || p.1 == new_symbol@ {
                let k = choose|k: int|
                    0 <= k < recs.len() && #[trigger] recs[k].0 == p && recs[k].1 > 0;
                assert(index.listed(recs[k].0).contains(at));
            } else {
                assert(word_listed(start, views@[at as int], at as int));
                assert(start.listed(p).contains(at));
            }
        }
        assert(word_listed(*index, m, at as int));
        assert forall|j: int| 0 <= j < at + 1 implies #[trigger] word_listed(
            *index,
            merged_word(views@[j], pair@, new_symbol@),
            j,
        ) by {
            if j < at {
                assert(word_listed(start, merged_word(views@[j], pair@, new_symbol@), j));
            }
        }
        assert forall|j: int| at + 1 <= j < views@.len() implies #[trigger] word_listed(
            *index,
            views@[j],
            j,
        ) by {
            assert(word_listed(start, views@[j], j));
        }
    }
}

/// What is recorded speaks of symbols that were there, and the new one.
pub proof fn lemma_changes_below(s: Seq<u32>, i: int, pair: Pair, new_symbol: u32)
    requires
        0 <= i,
        pair.0 <= new_symbol,
        pair.1 <= new_symbol,
        forall|k: int| 0 <= k < s.len() ==> #[trigger] s[k] <= new_symbol,
    ensures
        forall|k: int|
            0 <= k < changes_from(s, i, pair, new_symbol).len() ==> {
                let c = #[trigger] changes_from(s, i, pair, new_symbol)[k];
                c.0.0 <= new_symbol && c.0.1 <= new_symbol
            },
    decreases s.len() - i,
{
    if i + 1 < s.len() {
        if pair_at(s, i, pair) {
            let t = joined_at(s, i, new_symbol);
            assert forall|k: int| 0 <= k < t.len() implies #[trigger] t[k] <= new_symbol by {
                assert(t[k] == new_symbol || t[k] == s[k] || t[k] == s[k + 1]);
            }
            lemma_changes_below(t, i + 1, pair, new_symbol);
            let a = changes_at(s, i, pair, new_symbol);
            let b = changes_from(t, i + 1, pair, new_symbol);
            assert forall|k: int| 0 <= k < (a + b).len() implies ({
                let c = #[trigger] (a + b)[k];
                c.0.0 <= new_symbol && c.0.1 <= new_symbol
            }) by {
                if k >= a.len() {
                    assert((a + b)[k] == b[k - a.len()]);
                }
            }
            assert(changes_from(s, i, pair, new_symbol) == a + b);
        } else {
            lemma_changes_below(s, i + 1, pair, new_symbol);
            assert(changes_from(s, i, pair, new_symbol) == changes_from(
                s,
                i + 1,
                pair,
                new_symbol,
            ));
        }
    }
}

/// Update words by merging the given pair into a new symbol. The index comes to
/// list the words also for the newly created pairs (old ones are not removed,
/// though they will be stale). Returns a map of pair to change in count (it can
/// be negative) to update the priority queue.
pub fn update_words(
    words: &mut Vec<Word>,
    index: &mut PairIndex,
    pair: Pair,
    new_symbol: u32,
) -> (counts: PairCounts)
    requires
        proper(word_views(old(words)@)),
        load(word_views(old(words)@), old(words)@.len() as int) <= isize::MAX,
        symbols_below(word_views(old(words)@), new_symbol as int),
        index_ok(*old(index), word_views(old(words)@), new_symbol as int),
        pair.0 < new_symbol,
        pair.1 < new_symbol,
    ensures
        word_views(final(words)@) == merged_words(word_views(old(words)@), pair, new_symbol),
        index_ok(*final(index), word_views(final(words)@), new_symbol + 1),
        counts.wf(),
        counts@ == all_changes(
            word_views(old(words)@),
            old(words)@.len() as int,
            pair,
            new_symbol,
        ),
{
    let ghost views = word_views(words@);
    let ghost first = *index;
    let n: usize = words.len();
    let idcs: Vec<usize> = index.list(pair);
    let mut counts: PairCounts = PairCounts::new();
    let ghost mut upto: int = 0;
    for k in 0..idcs.len()
        invariant
            n == views.len(),
            n == words@.len(),
            proper(views),
            load(views, n as int) <= isize::MAX,
            symbols_below(views, new_symbol as int),
            index_ok(first, views, new_symbol as int),
            pair.0 < new_symbol,
            pair.1 < new_symbol,
            idcs@ == first.listed(pair),
            0 <= upto <= n,
            k < idcs@.len() ==> upto <= idcs@[k as int],
            forall|j: int| 0 <= j < k ==> #[trigger] idcs@[j] < upto,
            forall|j: int|
                0 <= j < upto ==> (#[trigger] words@[j])@ == merged_word(
                    views[j],
                    pair,
                    new_symbol,
                ),
            forall|j: int| upto <= j < n ==> (#[trigger] words@[j])@ == views[j],
            counts.wf(),
            counts@ == all_changes(views, upto, pair, new_symbol),
            index_part(*index, first, views, upto, pair, new_symbol),
    {
        let i: usize = idcs[k];
        proof {
            assert(first.listed(pair)[k as int] < n);
            assert(ascending(first.listed(pair)));
            lemma_unlisted(first, views, idcs@, k as int, upto, i as int, pair, new_symbol);
            lemma_skip(views, upto, i as int, pair, new_symbol);
            assert forall|j: int| 0 <= j < i implies #[trigger] word_listed(
                *index,
                merged_word(views[j], pair, new_symbol),
                j,
            ) by {
                if j >= upto {
                    assert(word_listed(*index, views[j], j));
                    assert(merged_word(views[j], pair, new_symbol) == views[j]);
                }
            }
            assert(words@[i as int]@ == views[i as int]);
            assert(views[i as int].symbols.len() > 0);
            assert(k + 1 < idcs@.len() ==> idcs@[k as int] < idcs@[k + 1]);
        }
        let times: isize = words[i].word_count;
        let ghost prior = words@;
        let changes: Vec<(Pair, bool)> = update_word(&mut words[i], pair, new_symbol);
        post_changes(
            &mut counts,
            index,
            changes.as_slice(),
            i,
            times,
            Ghost(views),
            Ghost(pair),
            Ghost(new_symbol),
            Ghost(first),
        );
        proof {
            assert(words@[i as int]@ =~= merged_word(views[i as int], pair, new_symbol));
            assert forall|j: int| 0 <= j < i + 1 implies (#[trigger] words@[j])@ == merged_word(
                views[j],
                pair,
                new_symbol,
            ) by {
                if upto <= j < i {
                    assert(merged_word(views[j], pair, new_symbol) == views[j]);
                    assert(prior[j]@ == views[j]);
                }
            }
            upto = i + 1;
        }
    }
    proof {
        lemma_unlisted(
            first,
            views,
            idcs@,
            idcs@.len() as int,
            upto,
            n as int,
            pair,
            new_symbol,
        );
        lemma_skip(views, upto, n as int, pair, new_symbol);
        let after = word_views(words@);
        assert forall|j: int| 0 <= j < n implies #[trigger] after[j] == merged_words(
            views,
            pair,
            new_symbol,
        )[j] by {
            assert(after[j] == words@[j]@);
            if j >= upto {
                assert(merged_word(views[j], pair, new_symbol) == views[j]);
            }
        }
        assert(after =~= merged_words(views, pair, new_symbol));
        assert forall|j: int| 0 <= j < n implies #[trigger] word_listed(*index, after[j], j) by {
            if j < upto {
                assert(word_listed(*index, merged_word(views[j], pair, new_symbol), j));
            } else {
                assert(word_listed(*index, views[j], j));
                assert(merged_word(views[j], pair, new_symbol) == views[j]);
            }
        }
        assert forall|p: Pair, i: int|
            0 <= i < index.listed(p).len() implies #[trigger] index.listed(p)[i] < n by {
            if p.0 != new_symbol && p.1 != new_symbol {
                assert(index.listed(p) == first.listed(p));
                assert(first.listed(p)[i] < n);
            }
        }
    }
    counts
}

/// A word that is not listed for a pair does not have it.
proof fn lemma_unlisted(
    first: PairIndex,
    views: Seq<WordView>,
    idcs: Seq<usize>,
    k: int,
    a: int,
    b: int,
    pair: Pair,
    new_symbol: u32,
)
    requires
        index_ok(first, views, new_symbol as int),
        idcs == first.listed(pair),
        0 <= k <= idcs.len(),
        0 <= a <= b <= views.len(),
        forall|j: int| 0 <= j < k ==> #[trigger] idcs[j] < a,
        k < idcs.len() ==> b <= idcs[k],
    ensures
        forall|j: int| a <= j < b ==> !touches(adjacent(#[trigger] views[j].symbols), pair),
{
    assert forall|j: int| a <= j < b implies !touches(
        adjacent(#[trigger] views[j].symbols),
        pair,
    ) by {
        assert(word_listed(first, views[j], j));
        if touches(adjacent(views[j].symbols), pair) {
            assert(first.listed(pair).contains(j as usize));
            let x = choose|x: int| 0 <= x < idcs.len() && idcs[x] == j as usize;
            assert(ascending(first.listed(pair)));
            if x > k {
                assert(idcs[k] < idcs[x]);
            }
        }
    }
}

} // verus!
