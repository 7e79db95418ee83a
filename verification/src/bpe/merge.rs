//! The merge procedure: what merging a symbol sequence yields, and the two
//! ways it is computed.

use std::collections::HashMap;
use vstd::prelude::*;

use crate::token::TokenId;

verus! {

/// Merge rules: a pair of adjacent tokens, to the merged token and the rank of
/// the rule. Lower ranks merge first.
pub type Rules = Map<(TokenId, TokenId), (TokenId, u32)>;

/// Whether a rule covers the symbols at `i` and `i + 1`.
pub open spec fn mergeable(rules: Rules, s: Seq<TokenId>, i: int) -> bool {
    0 <= i && i + 1 < s.len() && rules.contains_key((s[i], s[i + 1]))
}

/// The rank of the rule for the symbols at `i` and `i + 1`.
pub open spec fn pair_rank(rules: Rules, s: Seq<TokenId>, i: int) -> u32 {
    rules[(s[i], s[i + 1])].1
}

/// Whether the pair at `i` is the next to merge: it has the lowest rank of all
/// mergeable pairs, and is the leftmost of those.
pub open spec fn merges_next(rules: Rules, s: Seq<TokenId>, i: int) -> bool {
    &&& mergeable(rules, s, i)
    &&& forall|j: int|
        #![trigger mergeable(rules, s, j)]
        mergeable(rules, s, j) ==> {
            ||| pair_rank(rules, s, i) < pair_rank(rules, s, j)
            ||| pair_rank(rules, s, i) == pair_rank(rules, s, j) && i <= j
        }
}

/// `s` with the symbols at `i` and `i + 1` replaced by `t`.
pub open spec fn merge_at(s: Seq<TokenId>, i: int, t: TokenId) -> Seq<TokenId> {
    s.update(i, t).remove(i + 1)
}

/// `s` with merge after merge applied until no rule covers an adjacent pair.
pub open spec fn bpe_merged(rules: Rules, s: Seq<TokenId>) -> Seq<TokenId>
    decreases s.len(),
{
    if exists|i: int| merges_next(rules, s, i) {
        let i = choose|i: int| merges_next(rules, s, i);
        bpe_merged(rules, merge_at(s, i, rules[(s[i], s[i + 1])].0))
    } else {
        s
    }
}

/// The next pair to merge is unique, so merging it is one step.
pub proof fn lemma_merge_step(rules: Rules, s: Seq<TokenId>, i: int)
    requires
        merges_next(rules, s, i),
    ensures
        bpe_merged(rules, s) == bpe_merged(rules, merge_at(s, i, rules[(s[i], s[i + 1])].0)),
{
    let k = choose|k: int| merges_next(rules, s, k);
    assert(merges_next(rules, s, k));
    assert(mergeable(rules, s, i) && mergeable(rules, s, k));
    assert(i == k);
}

/// Where no rule covers an adjacent pair, nothing is merged.
pub proof fn lemma_merge_done(rules: Rules, s: Seq<TokenId>)
    requires
        forall|i: int| !#[trigger] mergeable(rules, s, i),
    ensures
        bpe_merged(rules, s) == s,
{
    assert forall|i: int| !#[trigger] merges_next(rules, s, i) by {
        assert(!mergeable(rules, s, i));
    }
}

/// A mergeable sequence has a pair that merges next.
pub proof fn lemma_some_pair_merges_next(rules: Rules, s: Seq<TokenId>, j: int)
    requires
        mergeable(rules, s, j),
    ensures
        exists|i: int| merges_next(rules, s, i),
    decreases pair_rank(rules, s, j), j,
{
    if !merges_next(rules, s, j) {
        let k = choose|k: int|
            #![trigger mergeable(rules, s, k)]
            mergeable(rules, s, k) && !({
                ||| pair_rank(rules, s, j) < pair_rank(rules, s, k)
                ||| pair_rank(rules, s, j) == pair_rank(rules, s, k) && j <= k
            });
        lemma_some_pair_merges_next(rules, s, k);
    }
}

/// Merging ends only where no rule covers an adjacent pair any more.
pub proof fn lemma_merged_is_final(rules: Rules, s: Seq<TokenId>)
    ensures
        forall|i: int| !#[trigger] mergeable(rules, bpe_merged(rules, s), i),
    decreases s.len(),
{
    if exists|i: int| merges_next(rules, s, i) {
        let i = choose|i: int| merges_next(rules, s, i);
        lemma_merge_step(rules, s, i);
        lemma_merged_is_final(rules, merge_at(s, i, rules[(s[i], s[i + 1])].0));
    } else {
        assert(bpe_merged(rules, s) == s);
        assert forall|i: int| !#[trigger] mergeable(rules, s, i) by {
            if mergeable(rules, s, i) {
                lemma_some_pair_merges_next(rules, s, i);
            }
        }
    }
}

/// Merging twice is merging once.
pub proof fn lemma_merge_idempotent(rules: Rules, s: Seq<TokenId>)
    ensures
        bpe_merged(rules, bpe_merged(rules, s)) == bpe_merged(rules, s),
{
    lemma_merged_is_final(rules, s);
    lemma_merge_done(rules, bpe_merged(rules, s));
}

/// Merging never lengthens a sequence, and empties none.
pub proof fn lemma_merged_len(rules: Rules, s: Seq<TokenId>)
    ensures
        bpe_merged(rules, s).len() <= s.len(),
        s.len() > 0 ==> bpe_merged(rules, s).len() > 0,
    decreases s.len(),
{
    if exists|i: int| merges_next(rules, s, i) {
        let i = choose|i: int| merges_next(rules, s, i);
        lemma_merged_len(rules, merge_at(s, i, rules[(s[i], s[i + 1])].0));
    }
}

// ---------------------------------------------------------------------------
// Merge tables
// ---------------------------------------------------------------------------

/// Pack a pair of tokens into one key: the left token in the high half.
pub open spec fn pair_key(a: TokenId, b: TokenId) -> u64 {
    (((a.0 as u64) << 32u64) | b.0 as u64) as u64
}

/// Different pairs pack into different keys.
pub proof fn lemma_pair_key_injective(a: TokenId, b: TokenId, c: TokenId, d: TokenId)
    requires
        pair_key(a, b) == pair_key(c, d),
    ensures
        a == c,
        b == d,
{
    let (w, x, y, z) = (a.0, b.0, c.0, d.0);
    assert(((w as u64) << 32u64) | x as u64 == ((y as u64) << 32u64) | z as u64 ==> w == y && x
        == z) by (bit_vector);
}

/// Pack a ranked-merge pair key into one `u64`.
#[inline(always)]
pub fn ranked_merge_key(a: TokenId, b: TokenId) -> (key: u64)
    ensures
        key == pair_key(a, b),
{
    ((a.0 as u64) << 32u64) | b.0 as u64
}

/// A lookup of merge rules by pair.
pub trait MergeLookup {
    /// The rules of the table.
    spec fn rules(&self) -> Rules;

    /// The merged token and the rank of the rule for `(a, b)`.
    fn lookup(&self, a: TokenId, b: TokenId) -> (r: Option<(TokenId, u32)>)
        ensures
            match r {
                Some(m) => self.rules().contains_key((a, b)) && self.rules()[(a, b)] == m,
                None => !self.rules().contains_key((a, b)),
            },
    ;
}

/// Merges whose rank is the merged token's id.
pub struct MergeTable {
    table: HashMap<u64, TokenId>,
    pairs: Vec<(TokenId, TokenId)>,
}

/// The entries of a table keyed by packed pairs, by pair.
spec fn by_pair<T>(table: Map<u64, T>) -> Map<(TokenId, TokenId), T> {
    Map::new(
        |p: (TokenId, TokenId)| table.contains_key(pair_key(p.0, p.1)),
        |p: (TokenId, TokenId)| table[pair_key(p.0, p.1)],
    )
}

proof fn lemma_by_pair_insert<T>(table: Map<u64, T>, a: TokenId, b: TokenId, t: T)
    ensures
        by_pair(table.insert(pair_key(a, b), t)) == by_pair(table).insert((a, b), t),
{
    let after = by_pair(table.insert(pair_key(a, b), t));
    let want = by_pair(table).insert((a, b), t);
    assert forall|p: (TokenId, TokenId)| #[trigger] after.contains_key(p) == want.contains_key(p) && (
    after.contains_key(p) ==> after[p] == want[p]) by {
        if pair_key(p.0, p.1) == pair_key(a, b) {
            lemma_pair_key_injective(p.0, p.1, a, b);
            assert(p == (a, b));
        }
    }
    assert(after =~= want);
}

impl View for MergeTable {
    type V = Map<(TokenId, TokenId), TokenId>;

    closed spec fn view(&self) -> Map<(TokenId, TokenId), TokenId> {
        by_pair(self.table@)
    }
}

/// The rules of a table of merged tokens: each ranked by the token it yields.
pub open spec fn rules_by_id(merges: Map<(TokenId, TokenId), TokenId>) -> Rules {
    merges.map_values(|t: TokenId| (t, t.0))
}

impl MergeLookup for MergeTable {
    open spec fn rules(&self) -> Rules {
        rules_by_id(self@)
    }

    fn lookup(&self, a: TokenId, b: TokenId) -> (r: Option<(TokenId, u32)>) {
        match self.get(a, b) {
            Some(t) => Some((t, t.0)),
            None => None,
        }
    }
}

impl MergeTable {
    /// The pairs that merge, in the order of their first insert.
    pub closed spec fn order(self) -> Seq<(TokenId, TokenId)> {
        self.pairs@
    }

    /// The order lists the pairs of the table, each once.
    pub open spec fn wf(self) -> bool {
        &&& forall|p: (TokenId, TokenId)| #[trigger]
            self@.contains_key(p) <==> self.order().contains(p)
        &&& self.order().no_duplicates()
    }

    /// A table without merges.
    pub fn new() -> (m: Self)
        ensures
            m.wf(),
            m@ == Map::<(TokenId, TokenId), TokenId>::empty(),
            m.order() == Seq::<(TokenId, TokenId)>::empty(),
    {
        let m = MergeTable { table: HashMap::new(), pairs: Vec::new() };
        assert(m@ =~= Map::<(TokenId, TokenId), TokenId>::empty());
        m
    }

    /// The number of pairs that merge.
    pub fn len(&self) -> (n: usize)
        ensures
            n == self.order().len(),
    {
        self.pairs.len()
    }

    /// The pair at place `i` of the order.
    pub fn pair(&self, i: usize) -> (p: (TokenId, TokenId))
        requires
            i < self.order().len(),
        ensures
            p == self.order()[i as int],
    {
        self.pairs[i]
    }

    /// The token that `(a, b)` merges into.
    pub fn get(&self, a: TokenId, b: TokenId) -> (r: Option<TokenId>)
        ensures
            match r {
                Some(t) => self@.contains_key((a, b)) && self@[(a, b)] == t,
                None => !self@.contains_key((a, b)),
            },
    {
        broadcast use vstd::std_specs::hash::group_hash_axioms;

        let key: u64 = ranked_merge_key(a, b);
        match self.table.get(&key) {
            Some(t) => Some(*t),
            None => None,
        }
    }

    /// Let `(a, b)` merge into `t`, in place of what it merged into before.
    pub fn insert(&mut self, a: TokenId, b: TokenId, t: TokenId)
        requires
            old(self).wf(),
        ensures
            final(self).wf(),
            final(self)@ == old(self)@.insert((a, b), t),
            final(self).order() == if old(self)@.contains_key((a, b)) {
                old(self).order()
            } else {
                old(self).order().push((a, b))
            },
    {
        broadcast use vstd::std_specs::hash::group_hash_axioms;

        let key: u64 = ranked_merge_key(a, b);
        let known: bool = self.get(a, b).is_some();
        self.table.insert(key, t);
        proof {
            lemma_by_pair_insert(old(self).table@, a, b, t);
        }
        if !known {
            self.pairs.push((a, b));
            proof {
                let before = old(self).pairs@;
                let after = self.pairs@;
                assert(!before.contains((a, b)));
                assert(after[before.len() as int] == (a, b));
                assert forall|p: (TokenId, TokenId)| after.contains(p) <==> before.contains(p) || p
                    == (a, b) by {
                    if before.contains(p) {
                        let i = choose|i: int| 0 <= i < before.len() && before[i] == p;
                        assert(after[i] == p);
                    }
                }
            }
        }
    }

    /// A copy with the same merges in the same order.
    pub fn copy(&self) -> (m: Self)
        requires
            self.wf(),
        ensures
            m.wf(),
            m@ == self@,
            m.order() == self.order(),
    {
        let mut m: MergeTable = MergeTable::new();
        for i in 0..self.pairs.len()
            invariant
                self.wf(),
                m.wf(),
                m.order() == self.order().take(i as int),
                forall|p: (TokenId, TokenId)| #[trigger]
                    m@.contains_key(p) ==> self@.contains_key(p) && m@[p] == self@[p],
        {
            let (a, b): (TokenId, TokenId) = self.pairs[i];
            proof {
                assert(self.order().contains((a, b)));
                if m@.contains_key((a, b)) {
                    let j = choose|j: int| 0 <= j < m.order().len() && m.order()[j] == (a, b);
                    assert(self.order()[j] == self.order()[i as int]);
                }
                assert(self.order().take(i as int + 1) =~= self.order().take(i as int).push((a, b)));
            }
            match self.get(a, b) {
                Some(t) => m.insert(a, b, t),
                None => {
                    assert(self@.contains_key((a, b)));
                },
            }
        }
        proof {
            let n = self.order().len() as int;
            assert(self.order().take(n) =~= self.order());
            assert(m@ =~= self@);
        }
        m
    }
}

/// Merges with explicit ranks, keyed by [`ranked_merge_key`].
pub struct RankedMergeTable {
    table: HashMap<u64, (TokenId, u32)>,
    pairs: Vec<(TokenId, TokenId)>,
}

impl View for RankedMergeTable {
    type V = Rules;

    closed spec fn view(&self) -> Rules {
        by_pair(self.table@)
    }
}

impl MergeLookup for RankedMergeTable {
    open spec fn rules(&self) -> Rules {
        self@
    }

    fn lookup(&self, a: TokenId, b: TokenId) -> (r: Option<(TokenId, u32)>) {
        broadcast use vstd::std_specs::hash::group_hash_axioms;

        let key: u64 = ranked_merge_key(a, b);
        match self.table.get(&key) {
            Some(m) => Some(*m),
            None => None,
        }
    }
}

impl RankedMergeTable {
    /// The pairs that merge, in the order of their first insert.
    pub closed spec fn order(self) -> Seq<(TokenId, TokenId)> {
        self.pairs@
    }

    /// The order lists the pairs of the table, each once.
    pub open spec fn wf(self) -> bool {
        &&& forall|p: (TokenId, TokenId)| #[trigger]
            self@.contains_key(p) <==> self.order().contains(p)
        &&& self.order().no_duplicates()
    }

    /// A table without merges.
    pub fn new() -> (m: Self)
        ensures
            m.wf(),
            m@ == Map::<(TokenId, TokenId), (TokenId, u32)>::empty(),
    {
        let m = RankedMergeTable { table: HashMap::new(), pairs: Vec::new() };
        assert(m@ =~= Map::<(TokenId, TokenId), (TokenId, u32)>::empty());
        m
    }

    /// The number of pairs that merge.
    pub fn len(&self) -> (n: usize)
        ensures
            n == self.order().len(),
    {
        self.pairs.len()
    }

    /// The pair at place `i` of the order.
    pub fn pair(&self, i: usize) -> (p: (TokenId, TokenId))
        requires
            i < self.order().len(),
        ensures
            p == self.order()[i as int],
    {
        self.pairs[i]
    }

    /// Let `(a, b)` merge into `t` at `rank`, in place of its rule before.
    pub fn insert(&mut self, a: TokenId, b: TokenId, t: TokenId, rank: u32)
        requires
            old(self).wf(),
        ensures
            final(self).wf(),
            final(self)@ == old(self)@.insert((a, b), (t, rank)),
    {
        broadcast use vstd::std_specs::hash::group_hash_axioms;

        let key: u64 = ranked_merge_key(a, b);
        let known: bool = self.lookup(a, b).is_some();
        self.table.insert(key, (t, rank));
        proof {
            lemma_by_pair_insert(old(self).table@, a, b, (t, rank));
        }
        if !known {
            self.pairs.push((a, b));
            proof {
                let before = old(self).pairs@;
                let after = self.pairs@;
                assert(!before.contains((a, b)));
                assert(after[before.len() as int] == (a, b));
                assert forall|p: (TokenId, TokenId)| after.contains(p) <==> before.contains(p) || p
                    == (a, b) by {
                    if before.contains(p) {
                        let i = choose|i: int| 0 <= i < before.len() && before[i] == p;
                        assert(after[i] == p);
                    }
                }
            }
        }
    }
}

} // verus!
