//! Words, and merging a pair in them.

use vstd::prelude::*;

use crate::bpe_train::pairs::{
    adjacent, lemma_adjacent_tally, lemma_tally_concat, lemma_tally_one, tally, touches, Pair,
};

verus! {

/// A word's symbols, and how often it occurs.
pub struct Word {
    pub symbols: Vec<u32>,
    pub word_count: isize,
}

/// What a word holds.
#[verifier::ext_equal]
pub struct WordView {
    pub symbols: Seq<u32>,
    pub count: int,
}

impl View for Word {
    type V = WordView;

    open spec fn view(&self) -> WordView {
        WordView { symbols: self.symbols@, count: self.word_count as int }
    }
}

/// The contents of words.
pub open spec fn word_views(words: Seq<Word>) -> Seq<WordView> {
    words.map_values(|w: Word| w@)
}

/// Whether `pair` stands in a word at `i`.
pub open spec fn pair_at(s: Seq<u32>, i: int, pair: Pair) -> bool {
    0 <= i && i + 1 < s.len() && s[i] == pair.0 && s[i + 1] == pair.1
}

/// A word with the pair at `i` made one symbol.
pub open spec fn joined_at(s: Seq<u32>, i: int, new_symbol: u32) -> Seq<u32> {
    s.subrange(0, i) + seq![new_symbol] + s.subrange(i + 2, s.len() as int)
}

/// A word with each occurrence of `pair` from `i` on made one symbol, from the
/// left; occurrences do not overlap.
pub open spec fn merged_from(s: Seq<u32>, i: int, pair: Pair, new_symbol: u32) -> Seq<u32>
    decreases s.len() - i,
{
    if i < 0 || i + 1 >= s.len() {
        s
    } else if pair_at(s, i, pair) {
        merged_from(joined_at(s, i, new_symbol), i + 1, pair, new_symbol)
    } else {
        merged_from(s, i + 1, pair, new_symbol)
    }
}

/// What merging the pair at `i` does to the pairs with its neighbours: the old
/// ones are gone, the new ones are there.
pub open spec fn changes_at(s: Seq<u32>, i: int, pair: Pair, new_symbol: u32) -> Seq<(Pair, int)> {
    (if i >= 1 {
        seq![((s[i - 1], pair.0), -1int), ((s[i - 1], new_symbol), 1int)]
    } else {
        Seq::empty()
    }) + (if i + 2 < s.len() {
        seq![((pair.1, s[i + 2]), -1int), ((new_symbol, s[i + 2]), 1int)]
    } else {
        Seq::empty()
    })
}

/// What merging `pair` from `i` on does to the other pairs, change by change.
pub open spec fn changes_from(s: Seq<u32>, i: int, pair: Pair, new_symbol: u32) -> Seq<(Pair, int)>
    decreases s.len() - i,
{
    if i < 0 || i + 1 >= s.len() {
        Seq::empty()
    } else if pair_at(s, i, pair) {
        changes_at(s, i, pair, new_symbol) + changes_from(
            joined_at(s, i, new_symbol),
            i + 1,
            pair,
            new_symbol,
        )
    } else {
        changes_from(s, i + 1, pair, new_symbol)
    }
}

/// Changes as a list: the pair, and whether it came (or went).
pub open spec fn change_views(v: Seq<(Pair, bool)>) -> Seq<(Pair, int)> {
    v.map_values(
        |c: (Pair, bool)|
            (
                c.0,
                if c.1 {
                    1int
                } else {
                    -1
                },
            ),
    )
}

fn record(changes: &mut Vec<(Pair, bool)>, pair: Pair, came: bool)
    ensures
        change_views(final(changes)@) == change_views(old(changes)@).push(
            (
                pair,
                if came {
                    1int
                } else {
                    -1
                },
            ),
        ),
{
    let ghost before = changes@;
    changes.push((pair, came));
    assert(change_views(changes@) =~= change_views(before).push(
        (
            pair,
            if came {
                1int
            } else {
                -1
            },
        ),
    ));
}

/// Merge `pair` in a word, recording the pairs that went and came with it. The
/// pair itself is not recorded.
pub fn update_word(w: &mut Word, pair: Pair, new_symbol: u32) -> (changes: Vec<(Pair, bool)>)
    requires
        old(w)@.symbols.len() > 0,
    ensures
        final(w)@.symbols == merged_from(old(w)@.symbols, 0, pair, new_symbol),
        final(w)@.count == old(w)@.count,
        change_views(changes@) == changes_from(old(w)@.symbols, 0, pair, new_symbol),
{
    let ghost start = w.symbols@;
    let mut changes: Vec<(Pair, bool)> = Vec::new();
    let mut i: usize = 0;
    assert(change_views(changes@) =~= Seq::<(Pair, int)>::empty());
    while i < w.symbols.len() - 1
        invariant
            i <= w.symbols@.len(),
            w.symbols@.len() > 0,
            w.word_count == old(w).word_count,
            merged_from(w.symbols@, i as int, pair, new_symbol) == merged_from(
                start,
                0,
                pair,
                new_symbol,
            ),
            change_views(changes@) + changes_from(w.symbols@, i as int, pair, new_symbol)
                =~= changes_from(start, 0, pair, new_symbol),
        decreases w.symbols@.len() - i,
    {
        let n: usize = w.symbols.len();
        let ghost s = w.symbols@;
        let ghost prior = change_views(changes@);
        if w.symbols[i] == pair.0 && w.symbols[i + 1] == pair.1 {
            if i >= 1 {
                record(&mut changes, (w.symbols[i - 1], pair.0), false);
                record(&mut changes, (w.symbols[i - 1], new_symbol), true);
            }
            if n >= 3 && i <= n - 3 {
                record(&mut changes, (pair.1, w.symbols[i + 2]), false);
                record(&mut changes, (new_symbol, w.symbols[i + 2]), true);
            }
            w.symbols.set(i, new_symbol);
            let _ = w.symbols.remove(i + 1);
            proof {
                assert(w.symbols@ =~= joined_at(s, i as int, new_symbol));
                assert(change_views(changes@) =~= prior + changes_at(
                    s,
                    i as int,
                    pair,
                    new_symbol,
                ));
            }
        }
        i = i + 1;
    }
    assert(changes_from(w.symbols@, i as int, pair, new_symbol) =~= Seq::<(Pair, int)>::empty());
    changes
}

// ---------------------------------------------------------------------------
// What merging does to counts
// ---------------------------------------------------------------------------

/// Merging one occurrence changes the count of every other pair by what is
/// recorded, and that of the pair by one more.
proof fn lemma_joined_counts(s: Seq<u32>, i: int, pair: Pair, new_symbol: u32, p: Pair)
    requires
        pair_at(s, i, pair),
    ensures
        tally(adjacent(joined_at(s, i, new_symbol)), p) == tally(adjacent(s), p) + tally(
            changes_at(s, i, pair, new_symbol),
            p,
        ) - if p == pair {
            1int
        } else {
            0
        },
{
    let t = joined_at(s, i, new_symbol);
    let a = adjacent(s);
    let b = adjacent(t);
    let n = s.len() as int;
    let empty = Seq::<(Pair, int)>::empty();
    let l_old = if i >= 1 {
        seq![((s[i - 1], pair.0), 1int)]
    } else {
        empty
    };
    let l_new = if i >= 1 {
        seq![((s[i - 1], new_symbol), 1int)]
    } else {
        empty
    };
    let r_old = if i + 2 < n {
        seq![((pair.1, s[i + 2]), 1int)]
    } else {
        empty
    };
    let r_new = if i + 2 < n {
        seq![((new_symbol, s[i + 2]), 1int)]
    } else {
        empty
    };
    let head = a.take(if i >= 1 {
        i - 1
    } else {
        0
    });
    let tail = a.skip(if i + 2 < n {
        i + 2
    } else {
        n - 1
    });
    let mid = seq![(pair, 1int)];
    assert(a =~= head + l_old + mid + r_old + tail);
    assert(b =~= head + l_new + r_new + tail);
    lemma_tally_concat(head + l_old + mid + r_old, tail, p);
    lemma_tally_concat(head + l_old + mid, r_old, p);
    lemma_tally_concat(head + l_old, mid, p);
    lemma_tally_concat(head, l_old, p);
    lemma_tally_concat(head + l_new + r_new, tail, p);
    lemma_tally_concat(head + l_new, r_new, p);
    lemma_tally_concat(head, l_new, p);
    lemma_tally_one(pair, 1, p);
    let cl = if i >= 1 {
        seq![((s[i - 1], pair.0), -1int), ((s[i - 1], new_symbol), 1int)]
    } else {
        empty
    };
    let cr = if i + 2 < n {
        seq![((pair.1, s[i + 2]), -1int), ((new_symbol, s[i + 2]), 1int)]
    } else {
        empty
    };
    lemma_tally_concat(cl, cr, p);
    if i >= 1 {
        lemma_tally_one((s[i - 1], pair.0), 1, p);
        lemma_tally_one((s[i - 1], new_symbol), 1, p);
        lemma_tally_one((s[i - 1], pair.0), -1, p);
        let x = seq![((s[i - 1], pair.0), -1int)];
        let y = seq![((s[i - 1], new_symbol), 1int)];
        assert(cl =~= x + y);
        lemma_tally_concat(x, y, p);
    }
    if i + 2 < n {
        lemma_tally_one((pair.1, s[i + 2]), 1, p);
        lemma_tally_one((new_symbol, s[i + 2]), 1, p);
        lemma_tally_one((pair.1, s[i + 2]), -1, p);
        let x = seq![((pair.1, s[i + 2]), -1int)];
        let y = seq![((new_symbol, s[i + 2]), 1int)];
        assert(cr =~= x + y);
        lemma_tally_concat(x, y, p);
    }
}

/// Merging changes the count of every other pair by what is recorded.
pub proof fn lemma_merged_counts(s: Seq<u32>, i: int, pair: Pair, new_symbol: u32, p: Pair)
    requires
        0 <= i,
        p != pair,
    ensures
        tally(adjacent(merged_from(s, i, pair, new_symbol)), p) == tally(adjacent(s), p) + tally(
            changes_from(s, i, pair, new_symbol),
            p,
        ),
    decreases s.len() - i,
{
    if i + 1 < s.len() {
        if pair_at(s, i, pair) {
            let t = joined_at(s, i, new_symbol);
            lemma_joined_counts(s, i, pair, new_symbol, p);
            lemma_merged_counts(t, i + 1, pair, new_symbol, p);
            lemma_tally_concat(
                changes_at(s, i, pair, new_symbol),
                changes_from(t, i + 1, pair, new_symbol),
                p,
            );
        } else {
            lemma_merged_counts(s, i + 1, pair, new_symbol, p);
        }
    }
}

/// After merging a pair into a symbol that is neither of the two, the pair
/// stands nowhere in the word.
pub proof fn lemma_merged_gone(s: Seq<u32>, i: int, pair: Pair, new_symbol: u32)
    requires
        0 <= i,
        new_symbol != pair.0,
        new_symbol != pair.1,
        forall|k: int| 0 <= k < i ==> !#[trigger] pair_at(s, k, pair),
    ensures
        forall|k: int| !#[trigger] pair_at(merged_from(s, i, pair, new_symbol), k, pair),
    decreases s.len() - i,
{
    if i + 1 < s.len() {
        if pair_at(s, i, pair) {
            let t = joined_at(s, i, new_symbol);
            assert forall|k: int| 0 <= k < i + 1 implies !#[trigger] pair_at(t, k, pair) by {
                if k < i {
                    assert(!pair_at(s, k, pair));
                }
            }
            lemma_merged_gone(t, i + 1, pair, new_symbol);
            assert(merged_from(s, i, pair, new_symbol) == merged_from(
                t,
                i + 1,
                pair,
                new_symbol,
            ));
        } else {
            lemma_merged_gone(s, i + 1, pair, new_symbol);
            assert(merged_from(s, i, pair, new_symbol) == merged_from(
                s,
                i + 1,
                pair,
                new_symbol,
            ));
        }
    } else {
        assert forall|k: int| !#[trigger] pair_at(merged_from(s, i, pair, new_symbol), k, pair) by {
            assert(0 <= k < i ==> !pair_at(s, k, pair));
        }
    }
}

/// Merging brings in no symbol but the new one.
pub proof fn lemma_merged_below(s: Seq<u32>, i: int, pair: Pair, new_symbol: u32, bound: int)
    requires
        0 <= i,
        new_symbol < bound,
        forall|k: int| 0 <= k < s.len() ==> #[trigger] s[k] < bound,
    ensures
        forall|k: int|
            0 <= k < merged_from(s, i, pair, new_symbol).len() ==> #[trigger] merged_from(
                s,
                i,
                pair,
                new_symbol,
            )[k] < bound,
    decreases s.len() - i,
{
    if i + 1 < s.len() {
        if pair_at(s, i, pair) {
            let t = joined_at(s, i, new_symbol);
            assert forall|k: int| 0 <= k < t.len() implies #[trigger] t[k] < bound by {
                assert(t[k] == new_symbol || t[k] == s[k] || t[k] == s[k + 1]);
            }
            lemma_merged_below(t, i + 1, pair, new_symbol, bound);
            assert(merged_from(s, i, pair, new_symbol) == merged_from(
                t,
                i + 1,
                pair,
                new_symbol,
            ));
        } else {
            lemma_merged_below(s, i + 1, pair, new_symbol, bound);
            assert(merged_from(s, i, pair, new_symbol) == merged_from(
                s,
                i + 1,
                pair,
                new_symbol,
            ));
        }
    }
}

/// What is recorded of the pair itself takes away no more than its count.
pub proof fn lemma_merged_loses(s: Seq<u32>, i: int, pair: Pair, new_symbol: u32)
    requires
        0 <= i,
    ensures
        tally(changes_from(s, i, pair, new_symbol), pair) >= tally(
            adjacent(merged_from(s, i, pair, new_symbol)),
            pair,
        ) - tally(adjacent(s), pair),
        tally(adjacent(merged_from(s, i, pair, new_symbol)), pair) >= 0,
    decreases s.len() - i,
{
    if i + 1 < s.len() {
        if pair_at(s, i, pair) {
            let t = joined_at(s, i, new_symbol);
            lemma_joined_counts(s, i, pair, new_symbol, pair);
            lemma_merged_loses(t, i + 1, pair, new_symbol);
            lemma_tally_concat(
                changes_at(s, i, pair, new_symbol),
                changes_from(t, i + 1, pair, new_symbol),
                pair,
            );
        } else {
            lemma_merged_loses(s, i + 1, pair, new_symbol);
        }
    } else {
        lemma_adjacent_tally(adjacent(s), pair);
    }
}

/// A pair that stands nowhere in a word has count 0 there.
pub proof fn lemma_gone_counts(s: Seq<u32>, pair: Pair)
    requires
        forall|k: int| !#[trigger] pair_at(s, k, pair),
    ensures
        tally(adjacent(s), pair) == 0,
        forall|i: int, new_symbol: u32|
            0 <= i ==> #[trigger] merged_from(s, i, pair, new_symbol) == s,
{
    lemma_adjacent_tally(adjacent(s), pair);
    if touches(adjacent(s), pair) {
        let k = choose|k: int| 0 <= k < adjacent(s).len() && (#[trigger] adjacent(s)[k]).0 == pair;
        assert(pair_at(s, k, pair));
    }
    assert forall|i: int, new_symbol: u32| 0 <= i implies #[trigger] merged_from(
        s,
        i,
        pair,
        new_symbol,
    ) == s by {
        lemma_gone_merge(s, i, pair, new_symbol);
    }
}

/// Merging a pair that stands nowhere changes nothing.
pub proof fn lemma_gone_merge(s: Seq<u32>, i: int, pair: Pair, new_symbol: u32)
    requires
        0 <= i,
        forall|k: int| !#[trigger] pair_at(s, k, pair),
    ensures
        merged_from(s, i, pair, new_symbol) == s,
        changes_from(s, i, pair, new_symbol) == Seq::<(Pair, int)>::empty(),
    decreases s.len() - i,
{
    if i + 1 < s.len() {
        assert(!pair_at(s, i, pair));
        lemma_gone_merge(s, i + 1, pair, new_symbol);
    }
}

/// What is recorded: pairs that came have the new symbol, and the rest went;
/// there are at most four records to a symbol; and where the word is not
/// empty, neither is it after.
pub proof fn lemma_changes(s: Seq<u32>, i: int, pair: Pair, new_symbol: u32)
    requires
        0 <= i,
    ensures
        forall|k: int|
            0 <= k < changes_from(s, i, pair, new_symbol).len() ==> {
                let c = #[trigger] changes_from(s, i, pair, new_symbol)[k];
                c.1 == -1 || (c.1 == 1 && (c.0.0 == new_symbol || c.0.1 == new_symbol))
            },
        i < s.len() ==> changes_from(s, i, pair, new_symbol).len() <= 4 * (s.len() - i),
        i >= s.len() ==> changes_from(s, i, pair, new_symbol).len() == 0,
        merged_from(s, i, pair, new_symbol).len() <= s.len(),
        s.len() > 0 ==> merged_from(s, i, pair, new_symbol).len() > 0,
    decreases s.len() - i,
{
    if i + 1 < s.len() {
        if pair_at(s, i, pair) {
            let t = joined_at(s, i, new_symbol);
            lemma_changes(t, i + 1, pair, new_symbol);
            let a = changes_at(s, i, pair, new_symbol);
            let b = changes_from(t, i + 1, pair, new_symbol);
            assert forall|k: int| 0 <= k < (a + b).len() implies ({
                let c = #[trigger] (a + b)[k];
                c.1 == -1 || (c.1 == 1 && (c.0.0 == new_symbol || c.0.1 == new_symbol))
            }) by {
                if k >= a.len() {
                    assert((a + b)[k] == b[k - a.len()]);
                }
            }
        } else {
            lemma_changes(s, i + 1, pair, new_symbol);
        }
    }
}

} // verus!
