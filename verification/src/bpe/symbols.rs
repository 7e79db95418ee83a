//! Merging a symbol sequence in place, over a linked list of its positions.

use vstd::prelude::*;
use vstd::seq_lib::*;

use crate::bpe::heap::{Candidate, MergeHeap};
use crate::bpe::merge::{
    bpe_merged, lemma_merge_done, lemma_merge_step, merge_at, mergeable, merges_next, pair_rank,
    MergeLookup, MergeTable, RankedMergeTable, Rules,
};
use crate::token::TokenId;

verus! {

/// Sequences up to this length use the linear-scan merge instead of the heap.
pub const SMALL_MERGE_MAX: usize = 32;

/// No neighbour.
pub const NONE: usize = usize::MAX;

/// Reusable scratch buffers for [`bpe_merge_symbols_with_scratch`]. Holding one
/// of these across calls means that repeated merges allocate nothing for the
/// linked list or the merge heap.
pub struct MergeScratch {
    next: Vec<usize>,
    prev: Vec<usize>,
    heap: MergeHeap,
}

impl MergeScratch {
    /// Whether the scratch can be used: its heap is in order.
    pub closed spec fn wf(self) -> bool {
        self.heap.wf()
    }

    /// Empty buffers.
    pub fn new() -> (s: Self)
        ensures
            s.wf(),
    {
        MergeScratch { next: Vec::new(), prev: Vec::new(), heap: MergeHeap::new() }
    }
}

/// `live` lists, in order, the positions below `n` that still hold a symbol;
/// `next` and `prev` link each to its neighbours.
spec fn linked(next: Seq<usize>, prev: Seq<usize>, live: Seq<int>, n: int) -> bool {
    &&& 0 < n <= usize::MAX
    &&& next.len() >= n
    &&& prev.len() >= n
    &&& live.len() > 0
    &&& live[0] == 0
    &&& forall|k: int| 0 <= k < live.len() ==> 0 <= #[trigger] live[k] < n
    &&& forall|j: int, k: int| 0 <= j < k < live.len() ==> #[trigger] live[j] < #[trigger] live[k]
    &&& forall|j: int, k: int|
        #![trigger live[j], live[k]]
        0 <= j && j + 1 == k && k < live.len() ==> next[live[j]] == live[k] && prev[live[k]]
            == live[j]
    &&& next[live[live.len() - 1]] == NONE
    &&& prev[live[0]] == NONE
}

/// Positions that no longer hold a symbol have no right neighbour.
spec fn dead_unlinked(next: Seq<usize>, live: Seq<int>, n: int) -> bool {
    forall|p: int| 0 <= p < n && !live.contains(p) ==> #[trigger] next[p] == NONE
}

/// The symbols at the live positions.
spec fn current(tok: Seq<TokenId>, live: Seq<int>) -> Seq<TokenId> {
    Seq::new(live.len(), |k: int| tok[live[k]])
}

proof fn lemma_live_at_least(live: Seq<int>, k: int)
    requires
        live.len() > 0,
        live[0] == 0,
        forall|j: int, k: int| 0 <= j < k < live.len() ==> #[trigger] live[j] < #[trigger] live[k],
        0 <= k < live.len(),
    ensures
        live[k] >= k,
    decreases k,
{
    if k > 0 {
        lemma_live_at_least(live, k - 1);
        assert(live[k - 1] < live[k]);
    }
}

/// Unlinking the right half of the pair at list index `k`.
proof fn lemma_unlink(
    next: Seq<usize>,
    prev: Seq<usize>,
    next2: Seq<usize>,
    prev2: Seq<usize>,
    live: Seq<int>,
    n: int,
    k: int,
)
    requires
        linked(next, prev, live, n),
        0 <= k,
        k + 1 < live.len(),
        next2.len() == next.len(),
        prev2.len() == prev.len(),
        next2[live[k]] == next[live[k + 1]],
        forall|p: int|
            0 <= p < next.len() && p != live[k] && p != live[k + 1] ==> #[trigger] next2[p] == next[p],
        next[live[k + 1]] == NONE ==> prev2 == prev,
        next[live[k + 1]] != NONE ==> prev2 == prev.update(
            next[live[k + 1]] as int,
            live[k] as usize,
        ),
    ensures
        linked(next2, prev2, live.remove(k + 1), n),
{
    let live2 = live.remove(k + 1);
    let last = live.len() - 1;
    let last2 = live2.len() - 1;
    assert(live2[0] == live[0]);
    assert(live[k] < live[k + 1]);
    assert(next[live[k]] == live[k + 1]);
    if k + 2 < live.len() {
        assert(live[k + 1] < live[k + 2]);
        assert(next[live[k + 1]] == live[k + 2] && prev[live[k + 2]] == live[k + 1]);
        assert(live2[last2] == live[last]);
        assert(live[k + 1] < live[last]);
    }
    assert forall|i: int, j: int| 0 <= i < j < live2.len() implies #[trigger] live2[i]
        < #[trigger] live2[j] by {
        let a = if i <= k { i } else { i + 1 };
        let b = if j <= k { j } else { j + 1 };
        assert(live[a] < live[b]);
    }
    assert forall|i: int, j: int|
        #![trigger live2[i], live2[j]]
        0 <= i && i + 1 == j && j < live2.len() implies next2[live2[i]] == live2[j]
        && prev2[live2[j]] == live2[i] by {
        let a = if i <= k { i } else { i + 1 };
        let b = if j <= k { j } else { j + 1 };
        assert(live2[i] == live[a] && live2[j] == live[b]);
        if a == k {
            assert(b == k + 2);
        } else {
            assert(b == a + 1);
            assert(next[live[a]] == live[b] && prev[live[b]] == live[a]);
            if a < k {
                assert(live[a] < live[k] && live[a] < live[k + 1]);
                if k + 2 < live.len() {
                    assert(live[b] < live[k + 2]);
                }
            } else {
                assert(live[k] < live[a] && live[k + 1] < live[a]);
                assert(live[k + 2] < live[b]);
            }
        }
    }
    if k + 2 < live.len() {
        assert(live[k] < live[k + 2] && live[0] < live[k + 2]);
    }
}

proof fn lemma_current_merge(tok: Seq<TokenId>, live: Seq<int>, n: int, k: int, t: TokenId)
    requires
        tok.len() == n,
        forall|j: int| 0 <= j < live.len() ==> 0 <= #[trigger] live[j] < n,
        forall|i: int, j: int| 0 <= i < j < live.len() ==> #[trigger] live[i] < #[trigger] live[j],
        0 <= k,
        k + 1 < live.len(),
    ensures
        current(tok.update(live[k], t), live.remove(k + 1)) == merge_at(current(tok, live), k, t),
{
    let a = current(tok.update(live[k], t), live.remove(k + 1));
    let b = merge_at(current(tok, live), k, t);
    assert(a.len() == b.len());
    assert forall|j: int| 0 <= j < a.len() implies a[j] == b[j] by {
        let o = if j <= k {
            j
        } else {
            j + 1
        };
        assert(live.remove(k + 1)[j] == live[o]);
        if o < k {
            assert(live[o] < live[k]);
        } else if o > k {
            assert(live[k] < live[o]);
        }
    }
    assert(a =~= b);
}

/// Move the live symbols to the front and drop the rest.
fn compact(symbols: &mut Vec<TokenId>, next: &[usize], prev: Ghost<Seq<usize>>, live: Ghost<Seq<int>>)
    requires
        linked(next@, prev@, live@, old(symbols)@.len() as int),
    ensures
        final(symbols)@ == current(old(symbols)@, live@),
{
    let ghost tok = symbols@;
    let ghost n = tok.len() as int;
    let ghost cur = current(tok, live@);
    let mut write: usize = 0;
    let mut i: usize = 0;
    assert(live@[0] == 0);
    loop
        invariant_except_break
            linked(next@, prev@, live@, n),
            tok.len() == n,
            symbols@.len() == n,
            cur == current(tok, live@),
            write < live@.len(),
            i == live@[write as int],
            write <= i < n,
            forall|p: int| 0 <= p < write ==> symbols@[p] == cur[p],
            forall|p: int| write <= p < n ==> symbols@[p] == tok[p],
        ensures
            symbols@.len() == n,
            write == cur.len(),
            cur == current(tok, live@),
            write <= n,
            forall|p: int| 0 <= p < write ==> symbols@[p] == cur[p],
        decreases live@.len() - write,
    {
        let t: TokenId = symbols[i];
        symbols.set(write, t);
        write = write + 1;
        let nx: usize = next[i];
        proof {
            assert(live@[write as int - 1] == i);
            if write < live@.len() {
                assert(live@[write as int] < n);
                assert(live@[write as int - 1] < live@[write as int]);
                lemma_live_at_least(live@, write as int);
            }
        }
        if nx == NONE {
            break;
        }
        i = nx;
    }
    symbols.truncate(write);
    assert(symbols@ =~= cur);
}

/// Every mergeable pair has its candidate in the heap.
spec fn covered(rules: Rules, tok: Seq<TokenId>, live: Seq<int>, heap: Seq<Candidate>) -> bool {
    forall|k: int|
        #![trigger mergeable(rules, current(tok, live), k)]
        mergeable(rules, current(tok, live), k) ==> heap.contains(
            (pair_rank(rules, current(tok, live), k), live[k] as usize),
        )
}

proof fn lemma_push_contains(before: Seq<Candidate>, after: Seq<Candidate>, item: Candidate)
    requires
        after.to_multiset() == before.to_multiset().insert(item),
    ensures
        after.contains(item),
        forall|c: Candidate| before.contains(c) ==> #[trigger] after.contains(c),
        forall|c: Candidate| #[trigger] after.contains(c) ==> before.contains(c) || c == item,
{
    broadcast use group_to_multiset_ensures;

    assert forall|c: Candidate| #[trigger] after.contains(c) <==> (before.contains(c) || c == item) by {
        to_multiset_contains(before, c);
        to_multiset_contains(after, c);
    }
}

proof fn lemma_pop_contains(before: Seq<Candidate>, after: Seq<Candidate>, item: Candidate)
    requires
        after.to_multiset() == before.to_multiset().remove(item),
    ensures
        forall|c: Candidate| before.contains(c) && c != item ==> #[trigger] after.contains(c),
        forall|c: Candidate| #[trigger] after.contains(c) ==> before.contains(c),
{
    assert forall|c: Candidate|
        (#[trigger] after.contains(c) ==> before.contains(c)) && (before.contains(c) && c != item
            ==> after.contains(c)) by {
        to_multiset_contains(before, c);
        to_multiset_contains(after, c);
    }
}

/// Which pairs are mergeable after merging the pair at `k`: those that do not
/// touch it are as they were.
proof fn lemma_mergeable_after(rules: Rules, s: Seq<TokenId>, k: int, t: TokenId, j: int)
    requires
        0 <= k,
        k + 1 < s.len(),
        mergeable(rules, merge_at(s, k, t), j),
    ensures
        j < k - 1 ==> mergeable(rules, s, j) && pair_rank(rules, s, j) == pair_rank(
            rules,
            merge_at(s, k, t),
            j,
        ),
        j > k ==> mergeable(rules, s, j + 1) && pair_rank(rules, s, j + 1) == pair_rank(
            rules,
            merge_at(s, k, t),
            j,
        ),
{
}

/// Merge with a min-heap of candidates and a doubly-linked list.
#[verifier::rlimit(60)]
fn merge_with_heap<M: MergeLookup>(
    merges: &M,
    symbols: &mut Vec<TokenId>,
    scratch: &mut MergeScratch,
)
    requires
        old(symbols)@.len() >= 2,
        old(scratch).wf(),
    ensures
        final(symbols)@ == bpe_merged(merges.rules(), old(symbols)@),
        final(scratch).wf(),
{
    let n: usize = symbols.len();
    let ghost original = symbols@;
    let ghost rules = merges.rules();
    let ghost mut live: Seq<int> = Seq::new(n as nat, |k: int| k);
    scratch.next.clear();
    scratch.prev.clear();
    scratch.heap.clear();
    for i in 0..n
        invariant
            n == symbols@.len(),
            n >= 2,
            scratch.next@.len() == i,
            scratch.prev@.len() == i,
            forall|p: int|
                0 <= p < i ==> #[trigger] scratch.next@[p] == (if p + 1 < n {
                    p + 1
                } else {
                    NONE as int
                }),
            forall|p: int|
                0 <= p < i ==> #[trigger] scratch.prev@[p] == (if p > 0 {
                    p - 1
                } else {
                    NONE as int
                }),
            scratch.heap.wf(),
            scratch.heap@.len() == 0,
    {
        scratch.next.push(
            if i + 1 < n {
                i + 1
            } else {
                NONE
            },
        );
        scratch.prev.push(
            if i > 0 {
                i - 1
            } else {
                NONE
            },
        );
    }
    assert(current(symbols@, live) =~= original);
    let ghost next_init = scratch.next@;
    let ghost prev_init = scratch.prev@;
    for i in 0..n - 1
        invariant
            scratch.next@ == next_init,
            scratch.prev@ == prev_init,
            n == symbols@.len(),
            n >= 2,
            symbols@ == original,
            rules == merges.rules(),
            live == Seq::new(n as nat, |k: int| k),
            scratch.heap.wf(),
            forall|k: int|
                #![trigger mergeable(rules, original, k)]
                k < i && mergeable(rules, original, k) ==> scratch.heap@.contains(
                    (pair_rank(rules, original, k), k as usize),
                ),
            forall|c: Candidate| #[trigger] scratch.heap@.contains(c) ==> c.1 < n,
    {
        let ghost before = scratch.heap@;
        if let Some(m) = merges.lookup(symbols[i], symbols[i + 1]) {
            scratch.heap.push((m.1, i));
            proof {
                lemma_push_contains(before, scratch.heap@, (m.1, i));
            }
        }
    }
    proof {
        assert(live[0] == 0);
        assert(linked(scratch.next@, scratch.prev@, live, n as int));
        assert forall|p: int| 0 <= p < n implies live.contains(p) by {
            assert(live[p] == p);
        }
        assert(dead_unlinked(scratch.next@, live, n as int));
        assert(covered(rules, symbols@, live, scratch.heap@));
    }
    loop
        invariant
            rules == merges.rules(),
            n == symbols@.len(),
            linked(scratch.next@, scratch.prev@, live, n as int),
            dead_unlinked(scratch.next@, live, n as int),
            scratch.heap.wf(),
            covered(rules, symbols@, live, scratch.heap@),
            forall|c: Candidate| #[trigger] scratch.heap@.contains(c) ==> c.1 < n,
            bpe_merged(rules, current(symbols@, live)) == bpe_merged(rules, original),
        ensures
            current(symbols@, live) == bpe_merged(rules, original),
        decreases 3 * live.len() + scratch.heap@.len(),
    {
        let ghost heap0 = scratch.heap@;
        let ghost cur = current(symbols@, live);
        let (rank, pos): (u32, usize) = match scratch.heap.pop() {
            Some(c) => c,
            None => {
                proof {
                    assert forall|k: int| !#[trigger] mergeable(rules, cur, k) by {
                        if mergeable(rules, cur, k) {
                            assert(heap0.contains((pair_rank(rules, cur, k), live[k] as usize)));
                        }
                    }
                    lemma_merge_done(rules, cur);
                }
                break ;
            },
        };
        let ghost heap1 = scratch.heap@;
        proof {
            lemma_pop_contains(heap0, heap1, (rank, pos));
        }
        let right: usize = scratch.next[pos];
        if right == NONE {
            proof {
                assert forall|k: int|
                    #![trigger mergeable(rules, cur, k)]
                    mergeable(rules, cur, k) implies heap1.contains(
                    (pair_rank(rules, cur, k), live[k] as usize),
                ) by {
                    assert(live[k] < live[k + 1]);
                    assert(scratch.next@[live[k]] == live[k + 1]);
                    assert(0 <= live[k + 1] < n);
                    assert(live[k] as usize != pos);
                }
            }
            continue ;
        }
        let ghost k = choose|k: int| 0 <= k < live.len() && live[k] == pos as int;
        proof {
            assert(live.contains(pos as int));
            assert(0 <= k < live.len() && live[k] == pos as int);
            assert(k + 1 < live.len());
            assert(live[k] < live[k + 1]);
            assert(0 <= live[k + 1] < n);
            assert(right == live[k + 1]);
        }
        let found: Option<(TokenId, u32)> = merges.lookup(symbols[pos], symbols[right]);
        proof {
            assert(cur[k] == symbols@[pos as int] && cur[k + 1] == symbols@[right as int]);
        }
        let (merged, applies): (TokenId, bool) = match found {
            Some(m) => (m.0, m.1 == rank),
            None => (TokenId(0), false),
        };
        if !applies {
            proof {
                assert forall|j: int|
                    #![trigger mergeable(rules, cur, j)]
                    mergeable(rules, cur, j) implies heap1.contains(
                    (pair_rank(rules, cur, j), live[j] as usize),
                ) by {
                    assert(heap0.contains((pair_rank(rules, cur, j), live[j] as usize)));
                    if j < k {
                        assert(live[j] < live[k]);
                    } else if j > k {
                        assert(live[k] < live[j]);
                    }
                    assert(0 <= live[j] < n);
                }
            }
            continue ;
        }
        proof {
            assert(mergeable(rules, cur, k));
            assert forall|j: int|
                #![trigger mergeable(rules, cur, j)]
                mergeable(rules, cur, j) implies {
                ||| pair_rank(rules, cur, k) < pair_rank(rules, cur, j)
                ||| pair_rank(rules, cur, k) == pair_rank(rules, cur, j) && k <= j
            } by {
                assert(heap0.contains((pair_rank(rules, cur, j), live[j] as usize)));
                assert(0 <= live[j] < n);
                if j < k {
                    assert(live[j] < live[k]);
                }
            }
            assert(merges_next(rules, cur, k));
            lemma_merge_step(rules, cur, k);
            lemma_current_merge(symbols@, live, n as int, k, merged);
        }
        let ghost next0 = scratch.next@;
        let ghost prev0 = scratch.prev@;
        let ghost live0 = live;
        symbols.set(pos, merged);
        let right_right: usize = scratch.next[right];
        scratch.next.set(pos, right_right);
        proof {
            if k + 2 < live.len() {
                assert(next0[live[k + 1]] == live[k + 2]);
                assert(0 <= live[k + 2] < n);
            } else {
                assert(next0[live[k + 1]] == NONE);
            }
        }
        if right_right != NONE {
            scratch.prev.set(right_right, pos);
        }
        scratch.next.set(right, NONE);
        proof {
            lemma_unlink(next0, prev0, scratch.next@, scratch.prev@, live, n as int, k);
            live = live.remove(k + 1);
            assert forall|p: int| 0 <= p < n && !live.contains(p) implies #[trigger] scratch.next@[p]
                == NONE by {
                if p != right && live0.contains(p) {
                    let o = choose|o: int| 0 <= o < live0.len() && live0[o] == p;
                    let o2 = if o <= k {
                        o
                    } else {
                        o - 1
                    };
                    assert(live[o2] == p);
                }
            }
        }
        let ghost cur2 = current(symbols@, live);
        let left: usize = scratch.prev[pos];
        proof {
            assert(live[k] == pos as int);
            if k > 0 {
                assert(live[k - 1] < live[k]);
                assert(scratch.prev@[live[k]] == live[k - 1]);
                assert(0 <= live[k - 1] < n);
            }
        }
        if left != NONE {
            let ghost before = scratch.heap@;
            if let Some(m) = merges.lookup(symbols[left], symbols[pos]) {
                scratch.heap.push((m.1, left));
                proof {
                    lemma_push_contains(before, scratch.heap@, (m.1, left));
                }
            }
        }
        let ghost heap2 = scratch.heap@;
        let nx: usize = scratch.next[pos];
        proof {
            if k + 1 < live.len() {
                assert(live[k] < live[k + 1]);
                assert(scratch.next@[live[k]] == live[k + 1]);
                assert(0 <= live[k + 1] < n);
            }
        }
        if nx != NONE {
            if let Some(m) = merges.lookup(symbols[pos], symbols[nx]) {
                scratch.heap.push((m.1, pos));
                proof {
                    lemma_push_contains(heap2, scratch.heap@, (m.1, pos));
                }
            }
        }
        proof {
            assert forall|j: int|
                #![trigger mergeable(rules, cur2, j)]
                mergeable(rules, cur2, j) implies scratch.heap@.contains(
                (pair_rank(rules, cur2, j), live[j] as usize),
            ) by {
                lemma_mergeable_after(rules, cur, k, merged, j);
                if j < k - 1 {
                    assert(heap0.contains((pair_rank(rules, cur, j), live0[j] as usize)));
                    assert(live0[j] < live0[k]);
                    assert(heap1.contains((pair_rank(rules, cur, j), live0[j] as usize)));
                    assert(heap2.contains((pair_rank(rules, cur, j), live0[j] as usize)));
                } else if j > k {
                    assert(heap0.contains((pair_rank(rules, cur, j + 1), live0[j + 1] as usize)));
                    assert(live0[k] < live0[j + 1]);
                    assert(0 <= live0[j + 1] < n);
                    assert(heap1.contains((pair_rank(rules, cur, j + 1), live0[j + 1] as usize)));
                    assert(heap2.contains((pair_rank(rules, cur, j + 1), live0[j + 1] as usize)));
                } else if j == k - 1 {
                    assert(heap2.contains((pair_rank(rules, cur2, j), live[j] as usize)));
                } else {
                    assert(j == k);
                }
            }
        }
    }
    compact(symbols, scratch.next.as_slice(), Ghost(scratch.prev@), Ghost(live));
}

/// No merge, as a rank: above every `u32`.
pub const NO_RANK: u64 = u64::MAX;

/// The rank of the rule for `(a, b)`, or [`NO_RANK`].
spec fn rank_or_none(rules: Rules, a: TokenId, b: TokenId) -> u64 {
    if rules.contains_key((a, b)) {
        rules[(a, b)].1 as u64
    } else {
        NO_RANK
    }
}

/// The rank of the pair at `k`, or [`NO_RANK`] where none starts there.
#[verifier::opaque]
spec fn rank_at(rules: Rules, s: Seq<TokenId>, k: int) -> u64 {
    if mergeable(rules, s, k) {
        pair_rank(rules, s, k) as u64
    } else {
        NO_RANK
    }
}

/// What the pair at `k` merges into.
#[verifier::opaque]
spec fn token_at(rules: Rules, s: Seq<TokenId>, k: int) -> TokenId {
    rules[(s[k], s[k + 1])].0
}

/// `ranks` and `merged` hold, at each live position, the rank and the merged
/// token of the pair that starts there; where there is none, or the position is
/// not live, the rank is [`NO_RANK`].
spec fn ranked(
    rules: Rules,
    cur: Seq<TokenId>,
    live: Seq<int>,
    n: int,
    ranks: Seq<u64>,
    merged: Seq<TokenId>,
) -> bool {
    &&& forall|k: int|
        #![trigger live[k]]
        0 <= k < live.len() ==> ranks[live[k]] == rank_at(rules, cur, k) && (rank_at(rules, cur, k)
            != NO_RANK ==> merged[live[k]] == token_at(rules, cur, k))
    &&& forall|p: int| 0 <= p < n && !live.contains(p) ==> #[trigger] ranks[p] == NO_RANK
}

/// The rank and merged token of a pair, with [`NO_RANK`] where no rule covers it.
fn rank_of<M: MergeLookup>(merges: &M, a: TokenId, b: TokenId) -> (r: (u64, TokenId))
    ensures
        r.0 == rank_or_none(merges.rules(), a, b),
        r.0 != NO_RANK ==> r.1 == merges.rules()[(a, b)].0,
{
    match merges.lookup(a, b) {
        Some(m) => (m.1 as u64, m.0),
        None => (NO_RANK, TokenId(0)),
    }
}

/// Refreshing the ranks of the two pairs that a merge at `k` touches keeps
/// every rank right.
proof fn lemma_ranked_after(
    rules: Rules,
    cur: Seq<TokenId>,
    cur2: Seq<TokenId>,
    live0: Seq<int>,
    live: Seq<int>,
    n: int,
    k: int,
    t: TokenId,
    ranks0: Seq<u64>,
    merged0: Seq<TokenId>,
    ranks: Seq<u64>,
    merged: Seq<TokenId>,
)
    requires
        ranked(rules, cur, live0, n, ranks0, merged0),
        0 <= k,
        k + 1 < live0.len(),
        cur.len() == live0.len(),
        live == live0.remove(k + 1),
        cur2 == merge_at(cur, k, t),
        forall|j: int| 0 <= j < live0.len() ==> 0 <= #[trigger] live0[j] < n,
        forall|i: int, j: int| 0 <= i < j < live0.len() ==> #[trigger] live0[i] < #[trigger] live0[j],
        forall|p: int|
            0 <= p < n && p != live0[k] && p != live0[k + 1] && (k > 0 ==> p != live0[k - 1])
                ==> #[trigger] ranks[p] == ranks0[p] && merged[p] == merged0[p],
        ranks[live0[k + 1]] == NO_RANK,
        ranks[live0[k]] == (if k + 1 < cur2.len() {
            rank_or_none(rules, cur2[k], cur2[k + 1])
        } else {
            NO_RANK
        }),
        ranks[live0[k]] != NO_RANK ==> merged[live0[k]] == rules[(cur2[k], cur2[k + 1])].0,
        k > 0 ==> ranks[live0[k - 1]] == rank_or_none(rules, cur2[k - 1], cur2[k]),
        k > 0 && ranks[live0[k - 1]] != NO_RANK ==> merged[live0[k - 1]] == rules[(
            cur2[k - 1],
            cur2[k],
        )].0,
    ensures
        ranked(rules, cur2, live, n, ranks, merged),
{
    reveal(rank_at);
    reveal(token_at);
    assert(live0[k] < live0[k + 1]);
    assert forall|j: int| #![trigger live[j]] 0 <= j < live.len() implies ranks[live[j]] == rank_at(
        rules,
        cur2,
        j,
    ) && (rank_at(rules, cur2, j) != NO_RANK ==> merged[live[j]] == token_at(rules, cur2, j)) by {
        let o = if j <= k {
            j
        } else {
            j + 1
        };
        assert(live[j] == live0[o]);
        assert(0 <= live0[o] < n);
        if o < k {
            assert(live0[o] < live0[k] < live0[k + 1]);
            if o < k - 1 {
                assert(live0[o] < live0[k - 1]);
                assert(cur2[j] == cur[o] && cur2[j + 1] == cur[o + 1]);
                assert(ranks[live0[o]] == ranks0[live0[o]]);
            }
        } else if o > k {
            assert(live0[k + 1] < live0[o]);
            if k > 0 {
                assert(live0[k - 1] < live0[o]);
            }
            assert(cur2[j] == cur[o]);
            if o + 1 < live0.len() {
                assert(cur2[j + 1] == cur[o + 1]);
            }
            assert(ranks[live0[o]] == ranks0[live0[o]]);
        }
    }
    assert forall|p: int| 0 <= p < n && !live.contains(p) implies #[trigger] ranks[p] == NO_RANK by {
        if p != live0[k + 1] {
            if live0.contains(p) {
                let o = choose|o: int| 0 <= o < live0.len() && live0[o] == p;
                let o2 = if o <= k {
                    o
                } else {
                    o - 1
                };
                assert(live[o2] == p);
            }
            assert(live[k] == live0[k]);
            assert(live.contains(live0[k]));
            if k > 0 {
                assert(live[k - 1] == live0[k - 1]);
                assert(live.contains(live0[k - 1]));
            }
            assert(ranks0[p] == NO_RANK);
        }
    }
}

/// Merge a short sequence: keep the rank of the pair at each position, find the
/// least by a linear scan, merge, and refresh the two ranks that it touches.
#[verifier::rlimit(60)]
fn merge_small<M: MergeLookup>(merges: &M, symbols: &mut Vec<TokenId>)
    requires
        2 <= old(symbols)@.len() <= SMALL_MERGE_MAX,
    ensures
        final(symbols)@ == bpe_merged(merges.rules(), old(symbols)@),
{
    let n: usize = symbols.len();
    let ghost original = symbols@;
    let ghost rules = merges.rules();
    let ghost mut live: Seq<int> = Seq::new(n as nat, |k: int| k);
    let mut next: [usize; 32] = [usize::MAX; 32];
    let mut prev: [usize; 32] = [usize::MAX; 32];
    let mut ranks: [u64; 32] = [u64::MAX; 32];
    let mut merged: [TokenId; 32] = [TokenId(0); 32];
    for i in 0..n - 1
        invariant
            2 <= n <= 32,
            n == symbols@.len(),
            symbols@ == original,
            rules == merges.rules(),
            forall|p: int|
                0 <= p < n ==> #[trigger] next@[p] == (if p < i {
                    p + 1
                } else {
                    NONE as int
                }),
            forall|p: int|
                0 <= p < n ==> #[trigger] prev@[p] == (if 0 < p <= i {
                    p - 1
                } else {
                    NONE as int
                }),
            forall|p: int|
                0 <= p < n ==> #[trigger] ranks@[p] == (if p < i {
                    rank_or_none(rules, original[p], original[p + 1])
                } else {
                    NO_RANK
                }),
            forall|p: int|
                0 <= p < i && ranks@[p] != NO_RANK ==> #[trigger] merged@[p] == rules[(
                    original[p],
                    original[p + 1],
                )].0,
    {
        next[i] = i + 1;
        prev[i + 1] = i;
        let r: (u64, TokenId) = rank_of(merges, symbols[i], symbols[i + 1]);
        ranks[i] = r.0;
        merged[i] = r.1;
    }
    proof {
        assert(current(symbols@, live) =~= original);
        assert(live[0] == 0);
        assert(linked(next@, prev@, live, n as int));
        assert forall|p: int| 0 <= p < n implies live.contains(p) by {
            assert(live[p] == p);
        }
        reveal(rank_at);
        reveal(token_at);
        assert(ranked(rules, original, live, n as int, ranks@, merged@));
    }
    loop
        invariant
            2 <= n <= 32,
            n == symbols@.len(),
            rules == merges.rules(),
            linked(next@, prev@, live, n as int),
            ranked(rules, current(symbols@, live), live, n as int, ranks@, merged@),
            bpe_merged(rules, current(symbols@, live)) == bpe_merged(rules, original),
        ensures
            current(symbols@, live) == bpe_merged(rules, original),
        decreases live.len(),
    {
        let ghost cur = current(symbols@, live);
        let mut best: u64 = NO_RANK;
        let mut best_i: usize = 0;
        for i in 0..n - 1
            invariant
                2 <= n <= 32,
                best == NO_RANK || (best_i < i && ranks@[best_i as int] == best),
                forall|p: int| 0 <= p < i ==> best <= #[trigger] ranks@[p],
                forall|p: int| 0 <= p < best_i ==> best < #[trigger] ranks@[p] || best == NO_RANK,
        {
            if ranks[i] < best {
                best = ranks[i];
                best_i = i;
            }
        }
        if best == NO_RANK {
            proof {
                assert forall|k: int| !#[trigger] mergeable(rules, cur, k) by {
                    if mergeable(rules, cur, k) {
                        reveal(rank_at);
                        assert(live[k] < live[k + 1]);
                        assert(0 <= live[k + 1] < n);
                        assert(ranks@[live[k]] == pair_rank(rules, cur, k));
                    }
                }
                lemma_merge_done(rules, cur);
            }
            break ;
        }
        let i: usize = best_i;
        let ghost k = choose|k: int| 0 <= k < live.len() && live[k] == i as int;
        proof {
            assert(live.contains(i as int));
            assert(0 <= k < live.len() && live[k] == i as int);
            assert(mergeable(rules, cur, k) && best == pair_rank(rules, cur, k)) by {
                reveal(rank_at);
            }
            assert(live[k] < live[k + 1]);
            assert(0 <= live[k + 1] < n);
            assert forall|j: int|
                #![trigger mergeable(rules, cur, j)]
                mergeable(rules, cur, j) implies {
                ||| pair_rank(rules, cur, k) < pair_rank(rules, cur, j)
                ||| pair_rank(rules, cur, k) == pair_rank(rules, cur, j) && k <= j
            } by {
                reveal(rank_at);
                assert(live[j] < live[j + 1]);
                assert(0 <= live[j + 1] < n);
                assert(ranks@[live[j]] == pair_rank(rules, cur, j));
                if j < k {
                    assert(live[j] < live[k]);
                }
            }
            assert(merges_next(rules, cur, k));
            assert(merged@[i as int] == rules[(cur[k], cur[k + 1])].0) by {
                reveal(token_at);
                reveal(rank_at);
            }
            lemma_merge_step(rules, cur, k);
            lemma_current_merge(symbols@, live, n as int, k, merged@[i as int]);
        }
        let ghost next0 = next@;
        let ghost prev0 = prev@;
        let ghost live0 = live;
        let ghost ranks0 = ranks@;
        let ghost merged0 = merged@;
        let t: TokenId = merged[i];
        symbols.set(i, t);
        let dead: usize = next[i];
        let new_right: usize = next[dead];
        next[i] = new_right;
        ranks[dead] = NO_RANK;
        proof {
            if k + 2 < live.len() {
                assert(live[k + 1] < live[k + 2]);
                assert(next0[live[k + 1]] == live[k + 2]);
                assert(0 <= live[k + 2] < n);
            } else {
                assert(next0[live[k + 1]] == NONE);
            }
        }
        if new_right != NONE {
            prev[new_right] = i;
            let r: (u64, TokenId) = rank_of(merges, symbols[i], symbols[new_right]);
            ranks[i] = r.0;
            merged[i] = r.1;
        } else {
            ranks[i] = NO_RANK;
        }
        proof {
            lemma_unlink(next0, prev0, next@, prev@, live, n as int, k);
            live = live.remove(k + 1);
            assert(live[k] == i as int);
        }
        let left: usize = prev[i];
        let ghost cur2 = current(symbols@, live);
        proof {
            if k > 0 {
                assert(live[k - 1] < live[k]);
                assert(prev@[live[k]] == live[k - 1]);
                assert(0 <= live[k - 1] < n);
            } else {
                assert(prev@[live[0]] == NONE);
            }
        }
        if left != NONE {
            let r: (u64, TokenId) = rank_of(merges, symbols[left], symbols[i]);
            ranks[left] = r.0;
            merged[left] = r.1;
        }
        proof {
            assert(cur2[k] == symbols@[live[k]]);
            if k > 0 {
                assert(cur2[k - 1] == symbols@[live[k - 1]]);
            }
            if k + 1 < live.len() {
                assert(live[k + 1] == live0[k + 2]);
                assert(cur2[k + 1] == symbols@[live[k + 1]]);
            }
            lemma_ranked_after(
                rules,
                cur,
                cur2,
                live0,
                live,
                n as int,
                k,
                t,
                ranks0,
                merged0,
                ranks@,
                merged@,
            );
        }
    }
    compact(symbols, &next, Ghost(prev@), Ghost(live));
}

/// Merge `symbols` in place: by linear scan where it is short, else with a heap.
fn merge_in_place<M: MergeLookup>(
    merges: &M,
    symbols: &mut Vec<TokenId>,
    scratch: &mut MergeScratch,
)
    requires
        old(scratch).wf(),
    ensures
        final(symbols)@ == bpe_merged(merges.rules(), old(symbols)@),
        final(scratch).wf(),
{
    let n: usize = symbols.len();
    if n < 2 {
        proof {
            lemma_merge_done(merges.rules(), symbols@);
        }
        return ;
    }
    if n <= SMALL_MERGE_MAX {
        merge_small(merges, symbols);
        return ;
    }
    merge_with_heap(merges, symbols, scratch);
}

/// Apply BPE merges to an already-initialized symbol sequence.
/// Priority is determined by the merged token's ID (lower = first).
/// This is correct for tiktoken-style tokenizers where vocab ID equals merge rank.
pub fn bpe_merge_symbols(merges: &MergeTable, symbols: &mut Vec<TokenId>)
    ensures
        final(symbols)@ == bpe_merged(merges.rules(), old(symbols)@),
{
    let mut scratch = MergeScratch::new();
    bpe_merge_symbols_with_scratch(merges, symbols, &mut scratch);
}

/// Like [`bpe_merge_symbols`], but reuses caller-provided scratch buffers so
/// repeated calls do not allocate. Merges `symbols` in place.
pub fn bpe_merge_symbols_with_scratch(
    merges: &MergeTable,
    symbols: &mut Vec<TokenId>,
    scratch: &mut MergeScratch,
)
    requires
        old(scratch).wf(),
    ensures
        final(symbols)@ == bpe_merged(merges.rules(), old(symbols)@),
        final(scratch).wf(),
{
    merge_in_place(merges, symbols, scratch);
}

/// Apply BPE merges using explicit merge ranks for priority (lower rank = first).
/// The merge table maps a pair of tokens to the merged token and its rank.
/// This is only needed by SentencePiece-style tokenizers.
pub fn bpe_merge_symbols_ranked(merges: &RankedMergeTable, symbols: &mut Vec<TokenId>)
    ensures
        final(symbols)@ == bpe_merged(merges@, old(symbols)@),
{
    let mut scratch = MergeScratch::new();
    merge_in_place(merges, symbols, &mut scratch);
}

/// The bytes of a pretoken as symbols, each byte's value its id.
pub open spec fn byte_symbols(bytes: Seq<u8>) -> Seq<TokenId> {
    Seq::new(bytes.len(), |i: int| TokenId(bytes[i] as u32))
}

/// Tokenize a single pretoken by mapping each byte to `TokenId(byte_value)`
/// then applying BPE merges (priority by merged token ID).
pub fn simple_bpe_merge(merges: &MergeTable, pre_token: &[u8]) -> (symbols: Vec<TokenId>)
    ensures
        symbols@ == bpe_merged(merges.rules(), byte_symbols(pre_token@)),
{
    let mut symbols: Vec<TokenId> = Vec::with_capacity(pre_token.len());
    for i in 0..pre_token.len()
        invariant
            symbols@.len() == i,
            forall|p: int| 0 <= p < i ==> symbols@[p] == TokenId(pre_token@[p] as u32),
    {
        symbols.push(TokenId(pre_token[i] as u32));
    }
    assert(symbols@ =~= byte_symbols(pre_token@));
    bpe_merge_symbols(merges, &mut symbols);
    symbols
}

} // verus!
