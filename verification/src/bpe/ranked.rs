//! Sorting by rank.

use vstd::prelude::*;
use vstd::set_lib::{lemma_int_range, set_int_range};

use crate::bpe::heap::{candidate_le, Candidate, MergeHeap};

verus! {

/// Whether `perm` lists every place of `ranks` once, by ascending rank; places
/// of one rank in ascending order.
pub open spec fn rank_sorted(ranks: Seq<u32>, perm: Seq<usize>) -> bool {
    &&& perm.len() == ranks.len()
    &&& perm.no_duplicates()
    &&& forall|i: int| 0 <= i < perm.len() ==> #[trigger] perm[i] < ranks.len()
    &&& forall|i: int, j: int|
        0 <= i < j < perm.len() ==> candidate_le(
            (ranks[#[trigger] perm[i] as int], perm[i]),
            (ranks[#[trigger] perm[j] as int], perm[j]),
        )
}

/// Every place is in a list of as many places as there are, each once.
pub proof fn lemma_rank_sorted_covers(ranks: Seq<u32>, perm: Seq<usize>, k: int)
    requires
        rank_sorted(ranks, perm),
        ranks.len() <= usize::MAX,
        0 <= k < ranks.len(),
    ensures
        exists|i: int| 0 <= i < perm.len() && #[trigger] perm[i] == k,
{
    let s = perm.map_values(|u: usize| u as int);
    let all = set_int_range(0, ranks.len() as int);
    lemma_int_range(0, ranks.len() as int);
    assert(s.no_duplicates());
    s.unique_seq_to_set();
    assert forall|x: int| s.to_set().contains(x) implies all.contains(x) by {
        let i = choose|i: int| 0 <= i < s.len() && s[i] == x;
        assert(perm[i] < ranks.len());
    }
    vstd::set_lib::lemma_len_subset(s.to_set(), all);
    vstd::set_lib::lemma_subset_equality(s.to_set(), all);
    assert(s.to_set().contains(k));
    let i = choose|i: int| 0 <= i < s.len() && s[i] == k;
    assert(perm[i] == k);
}

/// The candidates of a list of ranks: each rank with its place.
spec fn candidates(ranks: Seq<u32>) -> Seq<Candidate> {
    Seq::new(ranks.len(), |i: int| (ranks[i], i as usize))
}

/// The places of candidates.
spec fn places(seen: Seq<Candidate>) -> Seq<usize> {
    seen.map_values(|c: Candidate| c.1)
}

/// The places of `ranks` by ascending rank, those of one rank in order.
pub fn sort_by_rank(ranks: &[u32]) -> (perm: Vec<usize>)
    ensures
        rank_sorted(ranks@, perm@),
{
    broadcast use vstd::seq_lib::group_to_multiset_ensures;

    let n: usize = ranks.len();
    let ghost full = candidates(ranks@);
    let mut heap: MergeHeap = MergeHeap::new();
    for i in 0..n
        invariant
            n == ranks@.len(),
            full == candidates(ranks@),
            heap.wf(),
            heap@.len() == i,
            heap@.to_multiset() == full.take(i as int).to_multiset(),
    {
        heap.push((ranks[i], i));
        proof {
            broadcast use vstd::seq_lib::group_to_multiset_ensures;

            let c: Candidate = (ranks@[i as int], i);
            assert(full.take(i as int + 1) =~= full.take(i as int).push(c));
        }
    }
    assert(full.take(n as int) =~= full);
    let mut perm: Vec<usize> = Vec::with_capacity(n);
    let ghost mut seen: Seq<Candidate> = Seq::empty();
    proof {
        assert(seen.to_multiset().add(heap@.to_multiset()) =~= full.to_multiset());
        assert(places(seen) =~= perm@);
    }
    while heap.len() > 0
        invariant
            n == ranks@.len(),
            full == candidates(ranks@),
            full.len() == n,
            heap.wf(),
            perm@ == places(seen),
            seen.to_multiset().add(heap@.to_multiset()) == full.to_multiset(),
            seen.len() + heap@.len() == n,
            forall|i: int, j: int|
                0 <= i < j < seen.len() ==> candidate_le(#[trigger] seen[i], #[trigger] seen[j]),
            forall|i: int, c: Candidate|
                0 <= i < seen.len() && #[trigger] heap@.contains(c) ==> candidate_le(
                    #[trigger] seen[i],
                    c,
                ),
        decreases heap@.len(),
    {
        let ghost before = heap@;
        match heap.pop() {
            Some(c) => {
                perm.push(c.1);
                proof {
                    broadcast use vstd::seq_lib::group_to_multiset_ensures;

                    let prior = seen;
                    assert(before.to_multiset().contains(c));
                    assert forall|d: Candidate| #[trigger] heap@.contains(d) implies before.contains(
                        d,
                    ) by {
                        assert(heap@.to_multiset().contains(d));
                        assert(before.to_multiset().contains(d));
                    }
                    seen = seen.push(c);
                    assert(places(seen) =~= perm@);
                    assert(seen.to_multiset() == prior.to_multiset().insert(c));
                    assert(seen.to_multiset().add(heap@.to_multiset()) =~= full.to_multiset());
                }
            },
            None => {},
        }
    }
    proof {
        assert(heap@ =~= Seq::<Candidate>::empty());
        assert(seen.to_multiset() =~= full.to_multiset());
        full.lemma_multiset_has_no_duplicates();
        seen.lemma_multiset_has_no_duplicates_conv();
        assert forall|i: int| 0 <= i < seen.len() implies (#[trigger] seen[i]).1 < n && seen[i].0
            == ranks@[seen[i].1 as int] by {
            assert(seen.to_multiset().contains(seen[i]));
            assert(full.to_multiset().contains(seen[i]));
            assert(full.contains(seen[i]));
        }
        assert forall|i: int, j: int| 0 <= i < j < perm@.len() implies candidate_le(
            (ranks@[#[trigger] perm@[i] as int], perm@[i]),
            (ranks@[#[trigger] perm@[j] as int], perm@[j]),
        ) by {
            assert(candidate_le(seen[i], seen[j]));
        }
        assert forall|i: int, j: int| 0 <= i < j < perm@.len() implies perm@[i] != perm@[j] by {
            assert(seen[i] != seen[j]);
        }
    }
    perm
}

} // verus!
