//! Counts of symbol pairs.

use std::collections::HashMap;

use vstd::prelude::*;

use crate::bpe::merge::{lemma_pair_key_injective, pair_key, ranked_merge_key};
use crate::token::TokenId;

verus! {

/// Two symbols, one after the other.
pub type Pair = (u32, u32);

/// What a table says of a pair; 0 where it says nothing.
pub open spec fn amount(m: Map<Pair, int>, p: Pair) -> int {
    if m.contains_key(p) {
        m[p]
    } else {
        0
    }
}

/// A table with `recs` added to it, each amount `times` over.
pub open spec fn posted(m: Map<Pair, int>, recs: Seq<(Pair, int)>, times: int) -> Map<Pair, int>
    decreases recs.len(),
{
    if recs.len() == 0 {
        m
    } else {
        let before = posted(m, recs.drop_last(), times);
        let (p, n) = recs.last();
        before.insert(p, amount(before, p) + n * times)
    }
}

/// What `recs` add up to for a pair.
pub open spec fn tally(recs: Seq<(Pair, int)>, p: Pair) -> int
    decreases recs.len(),
{
    if recs.len() == 0 {
        0
    } else {
        tally(recs.drop_last(), p) + if recs.last().0 == p {
            recs.last().1
        } else {
            0
        }
    }
}

/// Whether `recs` speak of a pair.
pub open spec fn touches(recs: Seq<(Pair, int)>, p: Pair) -> bool {
    exists|k: int| 0 <= k < recs.len() && (#[trigger] recs[k]).0 == p
}

pub proof fn lemma_touches_last(recs: Seq<(Pair, int)>, p: Pair)
    requires
        recs.len() > 0,
    ensures
        touches(recs, p) <==> recs.last().0 == p || touches(recs.drop_last(), p),
{
    if touches(recs, p) {
        let k = choose|k: int| 0 <= k < recs.len() && (#[trigger] recs[k]).0 == p;
        if k < recs.len() - 1 {
            assert(recs.drop_last()[k].0 == p);
        }
    }
    if touches(recs.drop_last(), p) {
        let k = choose|k: int|
            0 <= k < recs.drop_last().len() && (#[trigger] recs.drop_last()[k]).0 == p;
        assert(recs[k].0 == p);
    }
    assert(recs[recs.len() - 1] == recs.last());
}

/// What adding `recs` does to a table.
pub proof fn lemma_posted(m: Map<Pair, int>, recs: Seq<(Pair, int)>, times: int, p: Pair)
    ensures
        amount(posted(m, recs, times), p) == amount(m, p) + tally(recs, p) * times,
        posted(m, recs, times).contains_key(p) <==> m.contains_key(p) || touches(recs, p),
    decreases recs.len(),
{
    if recs.len() > 0 {
        let init = recs.drop_last();
        let (q, n) = recs.last();
        lemma_posted(m, init, times, p);
        lemma_touches_last(recs, p);
        assert((tally(init, p) + n) * times == tally(init, p) * times + n * times)
            by (nonlinear_arith);
    }
}

pub proof fn lemma_tally_concat(a: Seq<(Pair, int)>, b: Seq<(Pair, int)>, p: Pair)
    ensures
        tally(a + b, p) == tally(a, p) + tally(b, p),
    decreases b.len(),
{
    if b.len() == 0 {
        assert(a + b =~= a);
    } else {
        lemma_tally_concat(a, b.drop_last(), p);
        assert((a + b).drop_last() =~= a + b.drop_last());
        assert((a + b).last() == b.last());
    }
}

pub proof fn lemma_tally_one(q: Pair, n: int, p: Pair)
    ensures
        tally(seq![(q, n)], p) == if q == p {
            n
        } else {
            0
        },
{
    assert(seq![(q, n)].drop_last() =~= Seq::<(Pair, int)>::empty());
    assert(tally(Seq::<(Pair, int)>::empty(), p) == 0);
}

/// A tally is no further from 0 than there are records of 1 or -1.
pub proof fn lemma_tally_bound(recs: Seq<(Pair, int)>, p: Pair)
    requires
        forall|k: int| 0 <= k < recs.len() ==> -1 <= (#[trigger] recs[k]).1 <= 1,
    ensures
        -recs.len() <= tally(recs, p) <= recs.len(),
    decreases recs.len(),
{
    if recs.len() > 0 {
        let init = recs.drop_last();
        assert forall|k: int| 0 <= k < init.len() implies -1 <= (#[trigger] init[k]).1 <= 1 by {
            assert(init[k] == recs[k]);
        }
        lemma_tally_bound(init, p);
        assert(recs[recs.len() - 1] == recs.last());
    }
}

/// The adjacent pairs of a word, each counted once where it stands.
pub open spec fn adjacent(s: Seq<u32>) -> Seq<(Pair, int)> {
    Seq::new(
        if s.len() == 0 {
            0
        } else {
            (s.len() - 1) as nat
        },
        |i: int| ((s[i], s[i + 1]), 1int),
    )
}

/// A pair whose tally in a word is 0 does not stand in it, and the other way
/// round.
pub proof fn lemma_adjacent_tally(recs: Seq<(Pair, int)>, p: Pair)
    requires
        forall|k: int| 0 <= k < recs.len() ==> (#[trigger] recs[k]).1 == 1,
    ensures
        tally(recs, p) >= 0,
        tally(recs, p) > 0 <==> touches(recs, p),
    decreases recs.len(),
{
    if recs.len() > 0 {
        let init = recs.drop_last();
        assert forall|k: int| 0 <= k < init.len() implies (#[trigger] init[k]).1 == 1 by {
            assert(init[k] == recs[k]);
        }
        lemma_adjacent_tally(init, p);
        lemma_touches_last(recs, p);
        assert(recs[recs.len() - 1] == recs.last());
    }
}

/// Amounts by pair, with the pairs in the order in which they came.
pub struct PairCounts {
    table: HashMap<u64, i128>,
    pairs: Vec<Pair>,
}

spec fn key_of(p: Pair) -> u64 {
    pair_key(TokenId(p.0), TokenId(p.1))
}

spec fn by_pair(table: Map<u64, i128>) -> Map<Pair, int> {
    Map::new(|p: Pair| table.contains_key(key_of(p)), |p: Pair| table[key_of(p)] as int)
}

impl View for PairCounts {
    type V = Map<Pair, int>;

    closed spec fn view(&self) -> Map<Pair, int> {
        by_pair(self.table@)
    }
}

impl PairCounts {
    /// The pairs in order.
    pub closed spec fn order(self) -> Seq<Pair> {
        self.pairs@
    }

    /// The order lists the pairs of the table, each once.
    pub open spec fn wf(self) -> bool {
        &&& forall|p: Pair| #[trigger] self@.contains_key(p) <==> self.order().contains(p)
        &&& self.order().no_duplicates()
    }

    /// A table that says nothing.
    pub fn new() -> (c: Self)
        ensures
            c.wf(),
            c@ == Map::<Pair, int>::empty(),
    {
        let c = PairCounts { table: HashMap::new(), pairs: Vec::new() };
        assert(c@ =~= Map::<Pair, int>::empty());
        c
    }

    /// The number of pairs.
    pub fn len(&self) -> (n: usize)
        ensures
            n == self.order().len(),
    {
        self.pairs.len()
    }

    /// The pair at place `i`, with its amount.
    pub fn entry(&self, i: usize) -> (r: (Pair, i128))
        requires
            self.wf(),
            i < self.order().len(),
        ensures
            r.0 == self.order()[i as int],
            self@.contains_key(r.0),
            r.1 == self@[r.0],
    {
        let p: Pair = self.pairs[i];
        assert(self.order().contains(p));
        (p, self.get(p))
    }

    /// The amount of a pair; 0 where there is none.
    pub fn get(&self, p: Pair) -> (n: i128)
        ensures
            n == amount(self@, p),
    {
        broadcast use vstd::std_specs::hash::group_hash_axioms;

        let key: u64 = ranked_merge_key(TokenId(p.0), TokenId(p.1));
        match self.table.get(&key) {
            Some(n) => *n,
            None => 0,
        }
    }

    /// Add `n` to the amount of a pair.
    pub fn post(&mut self, p: Pair, n: i128)
        requires
            old(self).wf(),
            i128::MIN <= amount(old(self)@, p) + n <= i128::MAX,
        ensures
            final(self).wf(),
            final(self)@ == old(self)@.insert(p, amount(old(self)@, p) + n),
            final(self).order() == if old(self)@.contains_key(p) {
                old(self).order()
            } else {
                old(self).order().push(p)
            },
    {
        broadcast use vstd::std_specs::hash::group_hash_axioms;

        let key: u64 = ranked_merge_key(TokenId(p.0), TokenId(p.1));
        let before: i128 = self.get(p);
        let known: bool = self.table.contains_key(&key);
        let ghost table = self.table@;
        self.table.insert(key, before + n);
        proof {
            let want = by_pair(table).insert(p, amount(by_pair(table), p) + n);
            assert forall|q: Pair| #[trigger] self@.contains_key(q) == want.contains_key(q) && (
            self@.contains_key(q) ==> self@[q] == want[q]) by {
                if key_of(q) == key_of(p) {
                    lemma_pair_key_injective(
                        TokenId(q.0),
                        TokenId(q.1),
                        TokenId(p.0),
                        TokenId(p.1),
                    );
                }
            }
            assert(self@ =~= want);
        }
        if !known {
            self.pairs.push(p);
            proof {
                let list = old(self).pairs@;
                let after = self.pairs@;
                assert(!list.contains(p));
                assert(after[list.len() as int] == p);
                assert forall|q: Pair| after.contains(q) <==> list.contains(q) || q == p by {
                    if list.contains(q) {
                        let i = choose|i: int| 0 <= i < list.len() && list[i] == q;
                        assert(after[i] == q);
                    }
                }
            }
        }
    }
}

} // verus!
