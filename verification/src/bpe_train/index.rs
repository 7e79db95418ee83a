//! Which words a pair stands in.

use std::collections::HashMap;

use vstd::prelude::*;

use crate::bpe::merge::{lemma_pair_key_injective, pair_key, ranked_merge_key};
use crate::bpe_train::pairs::Pair;
use crate::token::TokenId;

verus! {

/// For each pair, the places of words in ascending order.
pub struct PairIndex {
    table: HashMap<u64, Vec<usize>>,
}

/// Whether a list is strictly ascending.
pub open spec fn ascending(list: Seq<usize>) -> bool {
    forall|i: int, j: int| 0 <= i < j < list.len() ==> #[trigger] list[i] < #[trigger] list[j]
}

spec fn key_of(p: Pair) -> u64 {
    pair_key(TokenId(p.0), TokenId(p.1))
}

impl PairIndex {
    /// The places listed for a pair.
    pub closed spec fn listed(self, p: Pair) -> Seq<usize> {
        if self.table@.contains_key(key_of(p)) {
            self.table@[key_of(p)]@
        } else {
            Seq::empty()
        }
    }

    /// An index that lists nothing.
    pub fn new() -> (x: Self)
        ensures
            forall|p: Pair| #[trigger] x.listed(p) == Seq::<usize>::empty(),
    {
        PairIndex { table: HashMap::new() }
    }

    /// The places listed for a pair.
    pub fn list(&self, p: Pair) -> (r: Vec<usize>)
        ensures
            r@ == self.listed(p),
    {
        broadcast use vstd::std_specs::hash::group_hash_axioms;

        let key: u64 = ranked_merge_key(TokenId(p.0), TokenId(p.1));
        let mut r: Vec<usize> = Vec::new();
        if let Some(list) = self.table.get(&key) {
            for i in 0..list.len()
                invariant
                    r@ == list@.take(i as int),
            {
                r.push(list[i]);
                assert(list@.take(i as int + 1) =~= list@.take(i as int).push(list@[i as int]));
            }
            assert(list@.take(list@.len() as int) =~= list@);
        }
        r
    }

    /// List place `i` for a pair, unless it is the last one listed.
    pub fn list_word(&mut self, p: Pair, i: usize)
        ensures
            final(self).listed(p) == if old(self).listed(p).len() > 0 && old(self).listed(p).last()
                == i {
                old(self).listed(p)
            } else {
                old(self).listed(p).push(i)
            },
            forall|q: Pair| q != p ==> #[trigger] final(self).listed(q) == old(self).listed(q),
    {
        broadcast use vstd::std_specs::hash::group_hash_axioms;

        let key: u64 = ranked_merge_key(TokenId(p.0), TokenId(p.1));
        let ghost before = self.table@;
        let mut list: Vec<usize> = match self.table.remove(&key) {
            Some(list) => list,
            None => Vec::new(),
        };
        assert(list@ =~= old(self).listed(p));
        let n: usize = list.len();
        if n == 0 || list[n - 1] != i {
            list.push(i);
        }
        self.table.insert(key, list);
        proof {
            assert forall|q: Pair| q != p implies #[trigger] self.listed(q) == old(self).listed(
                q,
            ) by {
                if key_of(q) == key_of(p) {
                    lemma_pair_key_injective(
                        TokenId(q.0),
                        TokenId(q.1),
                        TokenId(p.0),
                        TokenId(p.1),
                    );
                }
            }
        }
    }
}

} // verus!
