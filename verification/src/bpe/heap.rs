//! Binary min-heap of merge candidates, ordered by rank and then by position.

use vstd::prelude::*;
use vstd::seq_lib::*;

verus! {

/// A merge candidate: the rank of the pair, and the position of its left symbol.
pub type Candidate = (u32, usize);

/// Candidate order: lower rank first, then lower position.
pub open spec fn candidate_le(a: Candidate, b: Candidate) -> bool {
    a.0 < b.0 || (a.0 == b.0 && a.1 <= b.1)
}

/// Min-heap of candidates over one reusable buffer.
pub struct MergeHeap {
    items: Vec<Candidate>,
}

impl View for MergeHeap {
    type V = Seq<Candidate>;

    closed spec fn view(&self) -> Seq<Candidate> {
        self.items@
    }
}

/// Heap order: no item precedes its parent.
spec fn heap_ordered(s: Seq<Candidate>) -> bool {
    forall|i: int| 0 < i < s.len() ==> candidate_le(s[(i - 1) / 2], #[trigger] s[i])
}

/// Heap order everywhere but between `hole` and its parent.
spec fn ordered_but_up(s: Seq<Candidate>, hole: int) -> bool {
    &&& forall|i: int|
        0 < i < s.len() && i != hole ==> candidate_le(s[(i - 1) / 2], #[trigger] s[i])
    &&& forall|i: int|
        0 < i < s.len() && (i - 1) / 2 == hole && hole > 0 ==> candidate_le(
            s[(hole - 1) / 2],
            #[trigger] s[i],
        )
}

/// Heap order everywhere but between `hole` and its children.
spec fn ordered_but_down(s: Seq<Candidate>, hole: int) -> bool {
    &&& forall|i: int|
        0 < i < s.len() && (i - 1) / 2 != hole ==> candidate_le(s[(i - 1) / 2], #[trigger] s[i])
    &&& forall|i: int|
        0 < i < s.len() && (i - 1) / 2 == hole && hole > 0 ==> candidate_le(
            s[(hole - 1) / 2],
            #[trigger] s[i],
        )
}

proof fn lemma_root_is_least(s: Seq<Candidate>, i: int)
    requires
        heap_ordered(s),
        0 <= i < s.len(),
    ensures
        candidate_le(s[0], s[i]),
    decreases i,
{
    if i > 0 {
        lemma_root_is_least(s, (i - 1) / 2);
        assert(candidate_le(s[(i - 1) / 2], s[i]));
    }
}

proof fn lemma_swap_keeps_multiset(s: Seq<Candidate>, i: int, j: int)
    requires
        0 <= i < s.len(),
        0 <= j < s.len(),
    ensures
        s.update(i, s[j]).update(j, s[i]).to_multiset() =~= s.to_multiset(),
{
    broadcast use group_to_multiset_ensures;

    to_multiset_update(s, i, s[j]);
    to_multiset_update(s.update(i, s[j]), j, s[i]);
    if i != j {
        assert(s.update(i, s[j])[j] == s[j]);
    }
    assert(s.contains(s[i]));
    assert(s.contains(s[j]));
}

impl MergeHeap {
    /// Every item is at or after its parent in candidate order.
    pub closed spec fn wf(self) -> bool {
        heap_ordered(self.items@)
    }

    /// An empty heap.
    pub fn new() -> (h: Self)
        ensures
            h.wf(),
            h@ == Seq::<Candidate>::empty(),
    {
        MergeHeap { items: Vec::new() }
    }

    /// The number of candidates held.
    pub fn len(&self) -> (n: usize)
        ensures
            n == self@.len(),
    {
        self.items.len()
    }

    /// Drop every candidate, keeping the buffer.
    pub fn clear(&mut self)
        ensures
            final(self).wf(),
            final(self)@ == Seq::<Candidate>::empty(),
    {
        self.items.clear();
    }

    /// Add a candidate.
    pub fn push(&mut self, item: Candidate)
        requires
            old(self).wf(),
        ensures
            final(self).wf(),
            final(self)@.to_multiset() == old(self)@.to_multiset().insert(item),
            final(self)@.len() == old(self)@.len() + 1,
    {
        let ghost before = self.items@;
        self.items.push(item);
        proof {
            to_multiset_build(before, item);
        }
        let mut i: usize = self.items.len() - 1;
        while i > 0
            invariant
                i < self.items.len(),
                self.items@.len() == before.len() + 1,
                self.items@.to_multiset() == before.to_multiset().insert(item),
                ordered_but_up(self.items@, i as int),
            ensures
                self.items@.len() == before.len() + 1,
                self.items@.to_multiset() == before.to_multiset().insert(item),
                heap_ordered(self.items@),
            decreases i,
        {
            let parent: usize = (i - 1) / 2;
            let a: Candidate = self.items[parent];
            let b: Candidate = self.items[i];
            if a.0 < b.0 || (a.0 == b.0 && a.1 <= b.1) {
                break;
            }
            proof {
                lemma_swap_keeps_multiset(self.items@, parent as int, i as int);
            }
            let ghost prev = self.items@;
            self.items.set(parent, b);
            self.items.set(i, a);
            proof {
                assert forall|k: int| 0 < k < self.items@.len() && k != parent implies candidate_le(
                    self.items@[(k - 1) / 2],
                    #[trigger] self.items@[k],
                ) by {
                    assert(k == i || prev[k] == self.items@[k]);
                    if k != i && (k - 1) / 2 == parent as int {
                        assert(candidate_le(prev[(k - 1) / 2], prev[k]));
                    }
                    if k != i && (k - 1) / 2 == i as int {
                        assert(candidate_le(prev[(i - 1) / 2], prev[k]));
                    }
                }
                assert forall|k: int|
                    0 < k < self.items@.len() && (k - 1) / 2 == parent && parent > 0 implies candidate_le(
                    self.items@[(parent - 1) / 2],
                    #[trigger] self.items@[k],
                ) by {
                    assert(candidate_le(prev[(parent - 1) / 2], prev[parent as int]));
                    if k != i {
                        assert(candidate_le(prev[(k - 1) / 2], prev[k]));
                    }
                }
            }
            i = parent;
        }
    }

    /// Remove and return the least candidate.
    pub fn pop(&mut self) -> (r: Option<Candidate>)
        requires
            old(self).wf(),
        ensures
            final(self).wf(),
            match r {
                None => old(self)@.len() == 0 && final(self)@.len() == 0,
                Some(least) => {
                    &&& old(self)@.contains(least)
                    &&& forall|c: Candidate| #[trigger]
                        old(self)@.contains(c) ==> candidate_le(least, c)
                    &&& final(self)@.to_multiset() == old(self)@.to_multiset().remove(least)
                    &&& final(self)@.len() + 1 == old(self)@.len()
                },
            },
    {
        let n: usize = self.items.len();
        if n == 0 {
            return None;
        }
        let ghost before = self.items@;
        let least: Candidate = self.items[0];
        let last: Candidate = self.items[n - 1];
        proof {
            assert forall|c: Candidate| #[trigger] before.contains(c) implies candidate_le(
                least,
                c,
            ) by {
                let k = choose|k: int| 0 <= k < before.len() && before[k] == c;
                lemma_root_is_least(before, k);
            }
            lemma_swap_keeps_multiset(before, 0, n - 1);
        }
        self.items.set(0, last);
        self.items.set(n - 1, least);
        let ghost swapped = self.items@;
        let _ = self.items.pop();
        proof {
            broadcast use group_to_multiset_ensures;

            assert(swapped.remove(n - 1) =~= self.items@);
            to_multiset_remove(swapped, n - 1);
            assert(self.items@.to_multiset() == before.to_multiset().remove(least));
            assert forall|k: int|
                0 < k < self.items@.len() && (k - 1) / 2 != 0 implies candidate_le(
                self.items@[(k - 1) / 2],
                #[trigger] self.items@[k],
            ) by {
                assert(candidate_le(before[(k - 1) / 2], before[k]));
            }
        }
        let m: usize = n - 1;
        let ghost target = before.to_multiset().remove(least);
        let mut i: usize = 0;
        while i < m && i <= (m - 1) / 2 && 2 * i + 1 < m
            invariant
                m == self.items@.len(),
                i <= m,
                self.items@.to_multiset() == target,
                ordered_but_down(self.items@, i as int),
            ensures
                m == self.items@.len(),
                self.items@.to_multiset() == target,
                heap_ordered(self.items@),
            decreases m - i,
        {
            let left: usize = 2 * i + 1;
            let mut child: usize = left;
            if left + 1 < m {
                let a: Candidate = self.items[left];
                let b: Candidate = self.items[left + 1];
                if !(a.0 < b.0 || (a.0 == b.0 && a.1 <= b.1)) {
                    child = left + 1;
                }
            }
            let a: Candidate = self.items[i];
            let b: Candidate = self.items[child];
            let ghost prev = self.items@;
            assert(forall|k: int|
                0 < k < m && (k - 1) / 2 == i as int ==> candidate_le(b, #[trigger] prev[k]));
            if a.0 < b.0 || (a.0 == b.0 && a.1 <= b.1) {
                break;
            }
            proof {
                lemma_swap_keeps_multiset(self.items@, i as int, child as int);
            }
            self.items.set(i, b);
            self.items.set(child, a);
            proof {
                assert forall|k: int|
                    0 < k < self.items@.len() && (k - 1) / 2 != child implies candidate_le(
                    self.items@[(k - 1) / 2],
                    #[trigger] self.items@[k],
                ) by {
                    if (k - 1) / 2 == i as int {
                        assert(candidate_le(b, prev[k]));
                    } else {
                        assert(candidate_le(prev[(k - 1) / 2], prev[k]));
                        if k == i as int {
                            assert(candidate_le(prev[(i - 1) / 2], prev[child as int]));
                        }
                    }
                }
                assert forall|k: int|
                    0 < k < self.items@.len() && (k - 1) / 2 == child implies candidate_le(
                    self.items@[(child - 1) / 2],
                    #[trigger] self.items@[k],
                ) by {
                    assert(candidate_le(prev[(k - 1) / 2], prev[k]));
                }
            }
            i = child;
        }
        Some(least)
    }
}

} // verus!
