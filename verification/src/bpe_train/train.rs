//! Learning merges.

use vstd::prelude::*;
use vstd::set_lib::{lemma_int_range, lemma_len_subset, set_int_range};
use vstd::utf8::encode_utf8;

use crate::bpe::model::single;
use crate::bpe_train::counts::{
    all_changes, all_pairs, count_pairs, index_ok, index_words, lemma_all_changes, lemma_all_pairs,
    lemma_changes_below, lemma_load_grows, lemma_merged_words, load, merged_words, proper,
    symbols_below, total, update_words,
};
use crate::bpe_train::index::PairIndex;
use crate::bpe_train::pairs::{adjacent, amount, touches, Pair, PairCounts};
use crate::bpe_train::queue::{
    new_queue, queue_peek, queue_pop, queue_push, queue_shift, queued, PairQueue,
};
use crate::bpe_train::word::{changes_from, lemma_merged_below, word_views, Word, WordView};
use crate::lex::{lemma_lex_irreflexive, lemma_lex_transitive, lex_less, lex_lt};
use crate::seqs::{append_bytes, byte_seqs, bytes_equal, copy_bytes};

verus! {

/// Where training stands.
#[verifier::ext_equal]
pub struct Training {
    pub words: Seq<WordView>,
    /// The bytes of each symbol.
    pub symbols: Seq<Seq<u8>>,
    /// The pairs that may be merged, each with its count.
    pub queue: Map<Pair, int>,
    /// The pairs that were merged.
    pub merges: Seq<(Seq<u8>, Seq<u8>)>,
}

/// Whether the bytes of pair `p` come before those of `q`: by the first symbol,
/// then by the second.
pub open spec fn pair_lt(symbols: Seq<Seq<u8>>, p: Pair, q: Pair) -> bool {
    let (a, b) = (symbols[p.0 as int], symbols[q.0 as int]);
    lex_lt(a, b) || (a == b && lex_lt(symbols[p.1 as int], symbols[q.1 as int]))
}

/// A queue of counts with changes applied: a pair that it lacks comes in with
/// the change for its count.
pub open spec fn shifted(queue: Map<Pair, int>, changes: Map<Pair, int>) -> Map<Pair, int> {
    Map::new(
        |p: Pair| queue.contains_key(p) || changes.contains_key(p),
        |p: Pair| amount(queue, p) + amount(changes, p),
    )
}

impl Training {
    /// Whether `pair` is one to merge next: none in the queue has a greater
    /// count, and none of the same count has bytes that come before.
    pub open spec fn next_pair(self, pair: Pair) -> bool {
        &&& self.queue.contains_key(pair)
        &&& forall|q: Pair| #[trigger]
            self.queue.contains_key(q) ==> self.queue[q] < self.queue[pair] || (self.queue[q]
                == self.queue[pair] && !pair_lt(self.symbols, q, pair))
    }

    /// Where training stands once `pair` has been merged.
    pub open spec fn after(self, pair: Pair) -> Training {
        let new_symbol = self.symbols.len() as u32;
        let (a, b) = (self.symbols[pair.0 as int], self.symbols[pair.1 as int]);
        Training {
            words: merged_words(self.words, pair, new_symbol),
            symbols: self.symbols.push(a + b),
            queue: shifted(
                self.queue.remove(pair),
                all_changes(self.words, self.words.len() as int, pair, new_symbol),
            ),
            merges: self.merges.push((a, b)),
        }
    }

    /// Where training stands once pairs have been merged in turn.
    pub open spec fn run(self, pairs: Seq<Pair>) -> Training
        decreases pairs.len(),
    {
        if pairs.len() == 0 {
            self
        } else {
            self.run(pairs.drop_last()).after(pairs.last())
        }
    }

    /// Whether each of the pairs was one to merge next, and the symbols had not
    /// reached `target`.
    pub open spec fn follows(self, pairs: Seq<Pair>, target: int) -> bool
        decreases pairs.len(),
    {
        pairs.len() > 0 ==> {
            let t = self.run(pairs.drop_last());
            self.follows(pairs.drop_last(), target) && t.symbols.len() < target && t.next_pair(
                pairs.last(),
            )
        }
    }

    /// Whether training is over: the symbols have reached `target`, or there is
    /// no pair left.
    pub open spec fn over(self, target: int) -> bool {
        self.symbols.len() >= target || forall|p: Pair| !#[trigger] self.queue.contains_key(p)
    }

    /// Whether training may end with these symbols and merges.
    pub open spec fn trains(
        self,
        target: int,
        symbols: Seq<Seq<u8>>,
        merges: Seq<(Seq<u8>, Seq<u8>)>,
    ) -> bool {
        exists|pairs: Seq<Pair>| #[trigger]
            self.follows(pairs, target) && self.run(pairs).over(target) && symbols == self.run(
                pairs,
            ).symbols && merges == self.run(pairs).merges
    }

    /// How often a pair occurs.
    pub open spec fn count(self, p: Pair) -> int {
        total(self.words, self.words.len() as int, p)
    }

    /// Whether the queue says how often each pair occurs. A pair that was merged
    /// may be left in it with a count below 0; such a pair does not occur.
    pub open spec fn queue_counts(self) -> bool {
        &&& forall|p: Pair| #[trigger] self.count(p) != 0 ==> self.queue.contains_key(p)
        &&& forall|p: Pair| #[trigger]
            self.queue.contains_key(p) ==> self.queue[p] == self.count(p) || (self.count(p) == 0
                && self.queue[p] < 0)
    }

    /// Whether words, symbols and queue are in order.
    pub open spec fn sound(self) -> bool {
        &&& proper(self.words)
        &&& symbols_below(self.words, self.symbols.len() as int)
        &&& load(self.words, self.words.len() as int) <= isize::MAX
        &&& self.queue_counts()
        &&& forall|p: Pair| #[trigger]
            self.queue.contains_key(p) ==> p.0 < self.symbols.len() && p.1 < self.symbols.len()
                && isize::MIN <= self.queue[p]
    }
}

/// Merging a pair of the queue keeps all in order: the queue goes on saying how
/// often each pair occurs.
pub proof fn lemma_after_sound(t: Training, pair: Pair)
    requires
        t.sound(),
        t.queue.contains_key(pair),
        t.symbols.len() < u32::MAX,
    ensures
        t.after(pair).sound(),
        t.after(pair).count(pair) == 0,
{
    let new_symbol = t.symbols.len() as u32;
    let n = t.words.len() as int;
    let m = merged_words(t.words, pair, new_symbol);
    let ch = all_changes(t.words, n, pair, new_symbol);
    let u = t.after(pair);
    lemma_merged_words(t.words, n, pair, new_symbol);
    assert forall|k: int, i: int|
        0 <= k < m.len() && 0 <= i < m[k].symbols.len() implies #[trigger] m[k].symbols[i]
        < u.symbols.len() by {
        let s = t.words[k].symbols;
        assert forall|j: int| 0 <= j < s.len() implies #[trigger] s[j] < new_symbol + 1 by {
            assert(t.words[k].symbols[j] < t.symbols.len());
        }
        lemma_merged_below(s, 0, pair, new_symbol, new_symbol + 1);
    }
    assert forall|p: Pair| #[trigger] u.count(p) != 0 implies u.queue.contains_key(p) by {
        lemma_all_changes(t.words, n, pair, new_symbol, p);
        assert(t.count(p) != 0 ==> t.queue.contains_key(p));
    }
    assert forall|p: Pair| #[trigger] u.queue.contains_key(p) implies u.queue[p] == u.count(p) || (
    u.count(p) == 0 && u.queue[p] < 0) by {
        lemma_all_changes(t.words, n, pair, new_symbol, p);
        lemma_all_pairs(m, n, p);
        assert(t.count(p) != 0 ==> t.queue.contains_key(p));
    }
    assert forall|p: Pair| #[trigger] u.queue.contains_key(p) implies p.0 < u.symbols.len() && p.1
        < u.symbols.len() && isize::MIN <= u.queue[p] by {
        lemma_all_changes(t.words, n, pair, new_symbol, p);
        lemma_all_pairs(t.words, n, p);
        lemma_all_pairs(m, n, p);
        assert(t.count(p) != 0 ==> t.queue.contains_key(p));
        if t.queue.contains_key(p) {
        } else {
            let k = choose|k: int|
                0 <= k < n && touches(
                    changes_from(#[trigger] t.words[k].symbols, 0, pair, new_symbol),
                    p,
                );
            let s = t.words[k].symbols;
            assert forall|j: int| 0 <= j < s.len() implies #[trigger] s[j] <= new_symbol by {
                assert(t.words[k].symbols[j] < t.symbols.len());
            }
            lemma_changes_below(s, 0, pair, new_symbol);
            let c = changes_from(s, 0, pair, new_symbol);
            let j = choose|j: int| 0 <= j < c.len() && (#[trigger] c[j]).0 == p;
            assert(c[j].0 == p);
        }
    }
    lemma_all_changes(t.words, n, pair, new_symbol, pair);
}

/// As long as some pair occurs, the pair to merge next is one that occurs most
/// often, and of those that occur as often none has bytes that come before.
pub proof fn lemma_next_pair_most_frequent(t: Training, pair: Pair, q: Pair)
    requires
        t.sound(),
        t.next_pair(pair),
        exists|p: Pair| #[trigger] t.count(p) > 0,
    ensures
        t.count(pair) > 0,
        t.count(q) <= t.count(pair),
        t.count(q) == t.count(pair) ==> !pair_lt(t.symbols, q, pair),
{
    let p = choose|p: Pair| #[trigger] t.count(p) > 0;
    assert(t.queue.contains_key(p));
    lemma_all_pairs(t.words, t.words.len() as int, q);
    assert(t.count(q) != 0 ==> t.queue.contains_key(q));
}

/// Training never goes astray: where it starts in order, it stays so.
pub proof fn lemma_run_sound(t: Training, pairs: Seq<Pair>, target: int)
    requires
        t.sound(),
        t.follows(pairs, target),
        target <= u32::MAX,
    ensures
        t.run(pairs).sound(),
    decreases pairs.len(),
{
    if pairs.len() > 0 {
        lemma_run_sound(t, pairs.drop_last(), target);
        lemma_after_sound(t.run(pairs.drop_last()), pairs.last());
    }
}

/// Every symbol that was learned is the merge that was made for it, one after
/// the other behind those there were.
pub proof fn lemma_run_symbols(t: Training, pairs: Seq<Pair>)
    ensures
        t.run(pairs).symbols.len() == t.symbols.len() + pairs.len(),
        t.run(pairs).merges.len() == t.merges.len() + pairs.len(),
        forall|i: int|
            0 <= i < t.symbols.len() ==> #[trigger] t.run(pairs).symbols[i] == t.symbols[i],
        forall|i: int|
            0 <= i < pairs.len() ==> (#[trigger] t.run(pairs).symbols[t.symbols.len() + i]) == t.run(
                pairs,
            ).merges[t.merges.len() + i].0 + t.run(pairs).merges[t.merges.len() + i].1,
    decreases pairs.len(),
{
    if pairs.len() > 0 {
        lemma_run_symbols(t, pairs.drop_last());
        let before = t.run(pairs.drop_last());
        assert forall|i: int| 0 <= i < pairs.len() implies (#[trigger] t.run(
            pairs,
        ).symbols[t.symbols.len() + i]) == t.run(pairs).merges[t.merges.len() + i].0 + t.run(
            pairs,
        ).merges[t.merges.len() + i].1 by {
            if i < pairs.len() - 1 {
                assert(before.symbols[t.symbols.len() + i] == before.merges[t.merges.len() + i].0
                    + before.merges[t.merges.len() + i].1);
            }
        }
    }
}

// ---------------------------------------------------------------------------
// Choosing a pair
// ---------------------------------------------------------------------------

/// Any set of pairs is finite.
proof fn lemma_pairs_finite(s: Set<Pair>)
    ensures
        s.finite(),
{
    let side = 0x1_0000_0000int;
    let all = set_int_range(0, side * side);
    let f = |x: int| ((x / side) as u32, (x % side) as u32);
    lemma_int_range(0, side * side);
    all.lemma_map_finite(f);
    assert forall|p: Pair| s.contains(p) implies all.map(f).contains(p) by {
        let x = p.0 * side + p.1;
        assert(x / side == p.0 && x % side == p.1 && 0 <= x < side * side) by (nonlinear_arith)
            requires
                x == p.0 * side + p.1,
                side == 0x1_0000_0000int,
                0 <= p.0 < side,
                0 <= p.1 < side,
        ;
        assert(f(x) == p);
        assert(all.contains(x));
    }
    lemma_len_subset(s, all.map(f));
}

/// The counts of a queue.
pub open spec fn queue_view(q: PairQueue) -> Map<Pair, int> {
    queued(q).map_values(|c: isize| c as int)
}

/// Whether pair `p` comes before pair `q`.
fn pair_less(symbols: &[Vec<u8>], p: Pair, q: Pair) -> (r: bool)
    requires
        p.0 < symbols@.len(),
        p.1 < symbols@.len(),
        q.0 < symbols@.len(),
        q.1 < symbols@.len(),
    ensures
        r == pair_lt(byte_seqs(symbols@), p, q),
{
    let ghost views = byte_seqs(symbols@);
    proof {
        assert(views[p.0 as int] == symbols@[p.0 as int]@);
        assert(views[p.1 as int] == symbols@[p.1 as int]@);
        assert(views[q.0 as int] == symbols@[q.0 as int]@);
        assert(views[q.1 as int] == symbols@[q.1 as int]@);
    }
    let a: &[u8] = symbols[p.0 as usize].as_slice();
    let b: &[u8] = symbols[q.0 as usize].as_slice();
    lex_less(a, b) || (bytes_equal(a, b) && lex_less(
        symbols[p.1 as usize].as_slice(),
        symbols[q.1 as usize].as_slice(),
    ))
}

proof fn lemma_pair_lt_transitive(symbols: Seq<Seq<u8>>, p: Pair, q: Pair, r: Pair)
    requires
        pair_lt(symbols, p, q),
        pair_lt(symbols, q, r),
    ensures
        pair_lt(symbols, p, r),
{
    let (a, b, c) = (symbols[p.0 as int], symbols[q.0 as int], symbols[r.0 as int]);
    if lex_lt(a, b) && lex_lt(b, c) {
        lemma_lex_transitive(a, b, c);
    }
    lemma_lex_irreflexive(a);
    if a == b && b == c {
        lemma_lex_transitive(symbols[p.1 as int], symbols[q.1 as int], symbols[r.1 as int]);
    }
}

proof fn lemma_pair_lt_irreflexive(symbols: Seq<Seq<u8>>, p: Pair)
    ensures
        !pair_lt(symbols, p, p),
{
    lemma_lex_irreflexive(symbols[p.0 as int]);
    lemma_lex_irreflexive(symbols[p.1 as int]);
}

/// The first pair of a list that no other comes before.
fn smallest_pair(symbols: &[Vec<u8>], tied: &[Pair]) -> (r: Pair)
    requires
        tied@.len() > 0,
        forall|i: int|
            0 <= i < tied@.len() ==> (#[trigger] tied@[i]).0 < symbols@.len() && tied@[i].1
                < symbols@.len(),
    ensures
        tied@.contains(r),
        forall|i: int|
            0 <= i < tied@.len() ==> !pair_lt(byte_seqs(symbols@), #[trigger] tied@[i], r),
{
    let ghost views = byte_seqs(symbols@);
    let mut smallest: Pair = tied[0];
    for k in 0..tied.len()
        invariant
            views == byte_seqs(symbols@),
            tied@.len() > 0,
            tied@.contains(smallest),
            smallest.0 < symbols@.len(),
            smallest.1 < symbols@.len(),
            forall|i: int|
                0 <= i < tied@.len() ==> (#[trigger] tied@[i]).0 < symbols@.len() && tied@[i].1
                    < symbols@.len(),
            forall|i: int| 0 <= i < k ==> !pair_lt(views, #[trigger] tied@[i], smallest),
    {
        let pair: Pair = tied[k];
        if pair_less(symbols, pair, smallest) {
            proof {
                lemma_pair_lt_irreflexive(views, pair);
                assert forall|i: int| 0 <= i < k + 1 implies !pair_lt(
                    views,
                    #[trigger] tied@[i],
                    pair,
                ) by {
                    if i < k && pair_lt(views, tied@[i], pair) {
                        lemma_pair_lt_transitive(views, tied@[i], pair, smallest);
                    }
                }
                assert(tied@.contains(tied@[k as int]));
            }
            smallest = pair;
        }
    }
    smallest
}

/// Take from the queue a pair of the greatest count, of several the one whose
/// bytes come first.
fn take_next(q: &mut PairQueue, symbols: &[Vec<u8>]) -> (r: Option<Pair>)
    requires
        forall|p: Pair| #[trigger]
            queued(*old(q)).contains_key(p) ==> p.0 < symbols@.len() && p.1 < symbols@.len(),
    ensures
        match r {
            Some(pair) => {
                let before = queued(*old(q));
                &&& before.contains_key(pair)
                &&& forall|p: Pair| #[trigger]
                    before.contains_key(p) ==> before[p] < before[pair] || (before[p]
                        == before[pair] && !pair_lt(byte_seqs(symbols@), p, pair))
                &&& queued(*final(q)) == before.remove(pair)
            },
            None => {
                &&& forall|p: Pair| !#[trigger] queued(*old(q)).contains_key(p)
                &&& queued(*final(q)) == queued(*old(q))
            },
        },
{
    let ghost before = queued(*q);
    match queue_pop(q) {
        None => None,
        Some((first, count)) => {
            let mut tied: Vec<Pair> = Vec::new();
            tied.push(first);
            assert(tied@[0] == first);
            let mut more: bool = true;
            while more
                invariant
                    before.contains_key(first),
                    before[first] == count,
                    forall|p: Pair| #[trigger] before.contains_key(p) ==> before[p] <= count,
                    tied@.len() > 0,
                    tied@[0] == first,
                    forall|i: int|
                        0 <= i < tied@.len() ==> before.contains_key(#[trigger] tied@[i])
                            && before[tied@[i]] == count,
                    forall|p: Pair| #[trigger]
                        queued(*q).contains_key(p) <==> before.contains_key(p) && !tied@.contains(p),
                    forall|p: Pair| #[trigger]
                        queued(*q).contains_key(p) ==> queued(*q)[p] == before[p],
                    tied@.no_duplicates(),
                    !more ==> forall|p: Pair| #[trigger]
                        queued(*q).contains_key(p) ==> queued(*q)[p] < count,
                decreases queued(*q).dom().len() + if more { 1int } else { 0 },
            {
                let ghost now = queued(*q);
                proof {
                    lemma_pairs_finite(now.dom());
                }
                match queue_peek(q) {
                    Some((_, next_count)) => {
                        if next_count != count {
                            more = false;
                        } else {
                            match queue_pop(q) {
                                Some((pair, _)) => {
                                    let ghost prior = tied@;
                                    tied.push(pair);
                                    proof {
                                        assert(now.dom().contains(pair));
                                        assert(queued(*q).dom() =~= now.dom().remove(pair));
                                        assert(tied@[prior.len() as int] == pair);
                                        assert forall|p: Pair|
                                            tied@.contains(p) <==> prior.contains(p) || p
                                                == pair by {
                                            if prior.contains(p) {
                                                let i = choose|i: int|
                                                    0 <= i < prior.len() && prior[i] == p;
                                                assert(tied@[i] == p);
                                            }
                                        }
                                    }
                                },
                                None => {
                                    more = false;
                                },
                            }
                        }
                    },
                    None => {
                        more = false;
                    },
                }
            }
            let pair: Pair = smallest_pair(symbols, tied.as_slice());
            let ghost rest = queued(*q);
            proof {
                let i = choose|i: int| 0 <= i < tied@.len() && tied@[i] == pair;
                assert(before.contains_key(tied@[i]));
            }
            for k in 0..tied.len()
                invariant
                    tied@.no_duplicates(),
                    forall|i: int|
                        0 <= i < tied@.len() ==> before.contains_key(#[trigger] tied@[i])
                            && before[tied@[i]] == count,
                    forall|p: Pair| #[trigger]
                        rest.contains_key(p) <==> before.contains_key(p) && !tied@.contains(p),
                    forall|p: Pair| #[trigger] rest.contains_key(p) ==> rest[p] == before[p],
                    forall|p: Pair| #[trigger]
                        queued(*q).contains_key(p) <==> rest.contains_key(p) || (p != pair
                            && tied@.take(k as int).contains(p)),
                    forall|p: Pair| #[trigger]
                        queued(*q).contains_key(p) ==> queued(*q)[p] == before[p],
            {
                let t: Pair = tied[k];
                if t.0 != pair.0 || t.1 != pair.1 {
                    queue_push(q, t, count);
                }
                proof {
                    let a = tied@.take(k as int);
                    let b = tied@.take(k as int + 1);
                    assert(b =~= a.push(t));
                    assert(b[k as int] == t);
                    assert forall|p: Pair| b.contains(p) <==> a.contains(p) || p == t by {
                        if a.contains(p) {
                            let i = choose|i: int| 0 <= i < a.len() && a[i] == p;
                            assert(b[i] == p);
                        }
                    }
                }
            }
            proof {
                assert(tied@.take(tied@.len() as int) =~= tied@);
                assert(queued(*q) =~= before.remove(pair));
                assert forall|p: Pair| #[trigger] before.contains_key(p) implies before[p]
                    < before[pair] || (before[p] == before[pair] && !pair_lt(
                    byte_seqs(symbols@),
                    p,
                    pair,
                )) by {
                    if tied@.contains(p) {
                        let i = choose|i: int| 0 <= i < tied@.len() && tied@[i] == p;
                        assert(!pair_lt(byte_seqs(symbols@), tied@[i], pair));
                    } else {
                        assert(rest.contains_key(p));
                    }
                }
            }
            Some(pair)
        },
    }
}

/// Apply changes of counts to the queue.
fn apply_changes(q: &mut PairQueue, changes: &PairCounts)
    requires
        changes.wf(),
        forall|p: Pair| #[trigger]
            changes@.contains_key(p) ==> isize::MIN <= changes@[p] <= isize::MAX && isize::MIN
                <= amount(queue_view(*old(q)), p) + changes@[p] <= isize::MAX,
    ensures
        queue_view(*final(q)) == shifted(queue_view(*old(q)), changes@),
{
    let ghost before = queue_view(*q);
    let ghost order = changes.order();
    let n: usize = changes.len();
    for k in 0..n
        invariant
            changes.wf(),
            order == changes.order(),
            n == order.len(),
            forall|p: Pair| #[trigger]
                changes@.contains_key(p) ==> isize::MIN <= changes@[p] <= isize::MAX && isize::MIN
                    <= amount(before, p) + changes@[p] <= isize::MAX,
            forall|p: Pair| #[trigger]
                queue_view(*q).contains_key(p) <==> before.contains_key(p) || order.take(
                    k as int,
                ).contains(p),
            forall|p: Pair| #[trigger]
                queue_view(*q).contains_key(p) ==> queue_view(*q)[p] == amount(before, p)
                    + if order.take(k as int).contains(p) {
                    changes@[p]
                } else {
                    0
                },
    {
        let (pair, change): (Pair, i128) = changes.entry(k);
        let ghost a = order.take(k as int);
        let ghost b = order.take(k as int + 1);
        proof {
            assert(b =~= a.push(pair));
            assert(b[k as int] == pair);
            assert forall|p: Pair| b.contains(p) <==> a.contains(p) || p == pair by {
                if a.contains(p) {
                    let i = choose|i: int| 0 <= i < a.len() && a[i] == p;
                    assert(b[i] == p);
                }
            }
            if a.contains(pair) {
                let i = choose|i: int| 0 <= i < a.len() && a[i] == pair;
                assert(order[i] == order[k as int]);
            }
            if queued(*q).contains_key(pair) {
                assert(queue_view(*q).contains_key(pair));
            }
        }
        let ghost prior = queue_view(*q);
        let ghost raw = queued(*q);
        assert(prior.contains_key(pair) == raw.contains_key(pair));
        let by: isize = change as isize;
        if !queue_shift(q, pair, by) {
            queue_push(q, pair, by);
            assert(queued(*q) == raw.insert(pair, by));
        } else {
            assert(prior[pair] == raw[pair]);
            assert(queued(*q)[pair] == raw[pair] + by);
        }
        assert(queue_view(*q) =~= prior.insert(pair, amount(before, pair) + changes@[pair]));
    }
    proof {
        assert(order.take(n as int) =~= order);
        assert(queue_view(*q) =~= shifted(before, changes@));
    }
}

// ---------------------------------------------------------------------------
// Training
// ---------------------------------------------------------------------------

/// Bytes as text, each byte the character of its value.
pub open spec fn latin1(bytes: Seq<u8>) -> Seq<char> {
    bytes.map_values(|b: u8| b as char)
}

/// `String::push`: the text with one more character.
#[verifier::external_body]
fn push_char(text: &mut String, c: char)
    ensures
        final(text)@ == old(text)@.push(c),
{
    text.push(c);
}

/// A token as text, each byte the character of its value.
pub fn assemble_token(token: u32, symbols: &[Vec<u8>]) -> (r: String)
    requires
        token < symbols@.len(),
    ensures
        r@ == latin1(symbols@[token as int]@),
{
    let bytes: &[u8] = symbols[token as usize].as_slice();
    let mut r: String = String::new();
    for i in 0..bytes.len()
        invariant
            r@ == latin1(bytes@.take(i as int)),
    {
        push_char(&mut r, bytes[i] as char);
        assert(latin1(bytes@.take(i as int + 1)) =~= latin1(bytes@.take(i as int)).push(
            bytes@[i as int] as char,
        ));
    }
    assert(bytes@.take(bytes@.len() as int) =~= bytes@);
    r
}

/// What was learned: the bytes of each token by id, and the merges in order.
pub struct BPEResult {
    pub vocab: Vec<Vec<u8>>,
    pub merges: Vec<(Vec<u8>, Vec<u8>)>,
}

/// The contents of a list of merges.
pub open spec fn merge_views(v: Seq<(Vec<u8>, Vec<u8>)>) -> Seq<(Seq<u8>, Seq<u8>)> {
    v.map_values(|e: (Vec<u8>, Vec<u8>)| (e.0@, e.1@))
}

/// Words as training starts with them: their bytes are their symbols.
pub open spec fn byte_words(counts: Seq<(Vec<u8>, usize)>) -> Seq<WordView> {
    counts.map_values(
        |e: (Vec<u8>, usize)|
            WordView { symbols: e.0@.map_values(|b: u8| b as u32), count: e.1 as int },
    )
}

/// The symbols that training starts with: each byte, then the special tokens.
pub open spec fn first_symbols(special_tokens: Seq<String>) -> Seq<Seq<u8>> {
    Seq::new(256, |b: int| seq![b as u8]) + special_tokens.map_values(
        |t: String| encode_utf8(t@),
    )
}

/// Where training starts.
pub open spec fn training_start(
    counts: Seq<(Vec<u8>, usize)>,
    special_tokens: Seq<String>,
) -> Training {
    Training {
        words: byte_words(counts),
        symbols: first_symbols(special_tokens),
        queue: all_pairs(byte_words(counts), counts.len() as int),
        merges: Seq::empty(),
    }
}

/// Training starts in order.
pub proof fn lemma_training_start_sound(counts: Seq<(Vec<u8>, usize)>, special_tokens: Seq<String>)
    requires
        forall|k: int| 0 <= k < counts.len() ==> (#[trigger] counts[k]).0@.len() > 0,
        load(byte_words(counts), counts.len() as int) <= isize::MAX,
    ensures
        training_start(counts, special_tokens).sound(),
{
    let t = training_start(counts, special_tokens);
    let n = counts.len() as int;
    assert forall|k: int| 0 <= k < t.words.len() implies (#[trigger] t.words[k]).symbols.len() > 0
        && t.words[k].count >= 0 by {
        assert(counts[k].0@.len() > 0);
    }
    assert forall|k: int, i: int|
        0 <= k < t.words.len() && 0 <= i < t.words[k].symbols.len() implies #[trigger] t.words[k].symbols[i]
        < t.symbols.len() by {
        assert(t.words[k].symbols[i] == counts[k].0@[i] as u32);
    }
    assert forall|p: Pair| #[trigger] t.count(p) != 0 implies t.queue.contains_key(p) by {
        lemma_all_pairs(t.words, n, p);
    }
    assert forall|p: Pair| #[trigger] t.queue.contains_key(p) implies t.queue[p] == t.count(p) by {
        lemma_all_pairs(t.words, n, p);
    }
    assert forall|p: Pair| #[trigger] t.queue.contains_key(p) implies p.0 < t.symbols.len() && p.1
        < t.symbols.len() && isize::MIN <= t.queue[p] by {
        lemma_all_pairs(t.words, n, p);
        let k = choose|k: int| 0 <= k < n && touches(adjacent(#[trigger] t.words[k].symbols), p);
        let s = t.words[k].symbols;
        let j = choose|j: int| 0 <= j < adjacent(s).len() && (#[trigger] adjacent(s)[j]).0 == p;
        assert(t.words[k].symbols[j] < t.symbols.len());
        assert(t.words[k].symbols[j + 1] < t.symbols.len());
    }
}

/// The words of a list of counts.
fn words_of(counts: &[(Vec<u8>, usize)]) -> (words: Vec<Word>)
    requires
        forall|k: int| 0 <= k < counts@.len() ==> (#[trigger] counts@[k]).0@.len() > 0,
        load(byte_words(counts@), counts@.len() as int) <= isize::MAX,
    ensures
        word_views(words@) == byte_words(counts@),
{
    let ghost views = byte_words(counts@);
    let mut words: Vec<Word> = Vec::with_capacity(counts.len());
    for k in 0..counts.len()
        invariant
            views == byte_words(counts@),
            forall|k: int| 0 <= k < counts@.len() ==> (#[trigger] counts@[k]).0@.len() > 0,
            load(views, counts@.len() as int) <= isize::MAX,
            words@.len() == k,
            forall|j: int| 0 <= j < k ==> (#[trigger] words@[j])@ == views[j],
    {
        let bytes: &[u8] = counts[k].0.as_slice();
        let count: usize = counts[k].1;
        let mut symbols: Vec<u32> = Vec::with_capacity(bytes.len());
        for i in 0..bytes.len()
            invariant
                symbols@.len() == i,
                forall|j: int| 0 <= j < i ==> #[trigger] symbols@[j] == bytes@[j] as u32,
        {
            symbols.push(bytes[i] as u32);
        }
        proof {
            assert forall|j: int| 0 <= j < views.len() implies (#[trigger] views[j]).symbols.len()
                > 0 && views[j].count >= 0 by {
                assert(counts@[j].0@.len() > 0);
            }
            assert(proper(views));
            lemma_load_grows(views, k as int, counts@.len() as int);
            lemma_load_grows(views, k as int + 1, counts@.len() as int);
            let len = views[k as int].symbols.len() as int;
            assert(len == bytes@.len());
            let c = views[k as int].count;
            assert(c <= len * c) by (nonlinear_arith)
                requires
                    len >= 1,
                    c >= 0,
            ;
            assert(count <= isize::MAX);
            assert(symbols@ =~= views[k as int].symbols);
        }
        words.push(Word { symbols, word_count: count as isize });
    }
    assert(word_views(words@) =~= views);
    words
}

/// The symbols that training starts with.
fn start_symbols(special_tokens: &[String]) -> (symbols: Vec<Vec<u8>>)
    ensures
        byte_seqs(symbols@) == first_symbols(special_tokens@),
{
    let mut symbols: Vec<Vec<u8>> = Vec::new();
    for b in 0..256usize
        invariant
            symbols@.len() == b,
            forall|j: int| 0 <= j < b ==> (#[trigger] symbols@[j])@ == seq![j as u8],
    {
        symbols.push(single(b as u8));
    }
    for k in 0..special_tokens.len()
        invariant
            symbols@.len() == 256 + k,
            forall|j: int| 0 <= j < 256 ==> (#[trigger] symbols@[j])@ == seq![j as u8],
            forall|j: int|
                0 <= j < k ==> (#[trigger] symbols@[256 + j])@ == encode_utf8(
                    special_tokens@[j]@,
                ),
    {
        let text: &str = special_tokens[k].as_str();
        symbols.push(copy_bytes(text.as_bytes()));
    }
    proof {
        let want = first_symbols(special_tokens@);
        assert forall|i: int| 0 <= i < want.len() implies byte_seqs(symbols@)[i] == #[trigger] want[i] by {
            if i >= 256 {
                assert(symbols@[256 + (i - 256)]@ == encode_utf8(special_tokens@[i - 256]@));
            }
        }
        assert(byte_seqs(symbols@) =~= want);
    }
    symbols
}

/// A queue of counts.
fn queue_of(counts: &PairCounts) -> (q: PairQueue)
    requires
        counts.wf(),
        forall|p: Pair| #[trigger]
            counts@.contains_key(p) ==> isize::MIN <= counts@[p] <= isize::MAX,
    ensures
        queue_view(q) == counts@,
{
    let mut q: PairQueue = new_queue();
    let ghost empty = Map::<Pair, int>::empty();
    assert(queue_view(q) =~= empty);
    apply_changes(&mut q, counts);
    assert(shifted(empty, counts@) =~= counts@);
    q
}

/// Learn merges from word counts until there are `vocab_size` tokens or no pair
/// is left. Each step merges a pair of the greatest count; of several, the one
/// whose bytes come first.
pub fn train_bpe(
    counts: Vec<(Vec<u8>, usize)>,
    vocab_size: usize,
    special_tokens: Vec<String>,
) -> (r: BPEResult)
    requires
        forall|k: int| 0 <= k < counts@.len() ==> (#[trigger] counts@[k]).0@.len() > 0,
        load(byte_words(counts@), counts@.len() as int) <= isize::MAX,
        vocab_size <= u32::MAX,
        256 + special_tokens@.len() <= u32::MAX,
    ensures
        training_start(counts@, special_tokens@).trains(
            vocab_size as int,
            byte_seqs(r.vocab@),
            merge_views(r.merges@),
        ),
{
    let ghost start = training_start(counts@, special_tokens@);
    let ghost target = vocab_size as int;
    let mut words: Vec<Word> = words_of(counts.as_slice());
    let mut symbols: Vec<Vec<u8>> = start_symbols(special_tokens.as_slice());
    proof {
        lemma_training_start_sound(counts@, special_tokens@);
        assert(byte_seqs(symbols@).len() == symbols@.len());
        assert(word_views(words@).len() == words@.len());
    }
    let mut index: PairIndex = index_words(words.as_slice(), Ghost(symbols@.len() as int));
    let first_counts: PairCounts = count_pairs(words.as_slice());
    proof {
        assert forall|p: Pair| #[trigger] first_counts@.contains_key(p) implies isize::MIN
            <= first_counts@[p] <= isize::MAX by {
            lemma_all_pairs(start.words, start.words.len() as int, p);
        }
    }
    let mut q: PairQueue = queue_of(&first_counts);
    let mut merges: Vec<(Vec<u8>, Vec<u8>)> = Vec::new();
    let ghost mut pairs: Seq<Pair> = Seq::empty();
    assert(merge_views(merges@) =~= Seq::<(Seq<u8>, Seq<u8>)>::empty());
    let mut more: bool = true;
    while more && symbols.len() < vocab_size
        invariant
            target == vocab_size,
            target <= u32::MAX,
            start.follows(pairs, target),
            start.run(pairs).sound(),
            word_views(words@) == start.run(pairs).words,
            byte_seqs(symbols@) == start.run(pairs).symbols,
            queue_view(q) == start.run(pairs).queue,
            merge_views(merges@) == start.run(pairs).merges,
            index_ok(index, start.run(pairs).words, symbols@.len() as int),
            !more ==> start.run(pairs).over(target),
        decreases vocab_size - symbols.len() + if more { 1int } else { 0 },
    {
        let ghost t = start.run(pairs);
        let n: usize = symbols.len();
        proof {
            assert(t.symbols.len() == n);
            assert(word_views(words@).len() == words@.len());
            assert forall|p: Pair| #[trigger] queued(q).contains_key(p) implies p.0 < n && p.1
                < n by {
                assert(t.queue.contains_key(p));
            }
        }
        let ghost raw = queued(q);
        match take_next(&mut q, symbols.as_slice()) {
            None => {
                more = false;
                proof {
                    assert forall|p: Pair| !#[trigger] t.queue.contains_key(p) by {
                        assert(!raw.contains_key(p));
                    }
                    assert(queue_view(q) =~= t.queue);
                }
            },
            Some(pair) => {
                proof {
                    assert(t.queue.contains_key(pair));
                    assert forall|p: Pair| #[trigger] t.queue.contains_key(p) implies t.queue[p]
                        < t.queue[pair] || (t.queue[p] == t.queue[pair] && !pair_lt(
                        t.symbols,
                        p,
                        pair,
                    )) by {
                        assert(raw.contains_key(p));
                    }
                    assert(t.next_pair(pair));
                    assert(queue_view(q) =~= t.queue.remove(pair));
                    assert(t.symbols[pair.0 as int] == symbols@[pair.0 as int]@);
                    assert(t.symbols[pair.1 as int] == symbols@[pair.1 as int]@);
                    lemma_after_sound(t, pair);
                }
                let left: Vec<u8> = copy_bytes(symbols[pair.0 as usize].as_slice());
                let right: Vec<u8> = copy_bytes(symbols[pair.1 as usize].as_slice());
                let mut both: Vec<u8> = copy_bytes(left.as_slice());
                append_bytes(&mut both, right.as_slice());
                let ghost (old_symbols, old_merges) = (symbols@, merges@);
                merges.push((left, right));
                symbols.push(both);
                let changes: PairCounts = update_words(&mut words, &mut index, pair, n as u32);
                let ghost u = t.after(pair);
                proof {
                    assert(byte_seqs(symbols@) =~= byte_seqs(old_symbols).push(both@));
                    assert(merge_views(merges@) =~= merge_views(old_merges).push((left@, right@)));
                    let len = t.words.len() as int;
                    assert forall|p: Pair| #[trigger] changes@.contains_key(p) implies isize::MIN
                        <= changes@[p] <= isize::MAX && isize::MIN <= amount(queue_view(q), p)
                        + changes@[p] <= isize::MAX by {
                        lemma_all_changes(t.words, len, pair, n as u32, p);
                        lemma_all_pairs(t.words, len, p);
                        lemma_all_pairs(u.words, len, p);
                        lemma_merged_words(t.words, len, pair, n as u32);
                        assert(u.queue.contains_key(p));
                    }
                }
                apply_changes(&mut q, &changes);
                proof {
                    let prior = pairs;
                    pairs = pairs.push(pair);
                    assert(pairs.drop_last() =~= prior);
                    assert(start.run(pairs) == u);
                    assert(queue_view(q) =~= u.queue);
                }
            },
        }
    }
    BPEResult { vocab: symbols, merges }
}

} // verus!
