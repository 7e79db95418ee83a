//! How often each pretoken occurs.

use vstd::prelude::*;

use crate::byte_map::ByteMap;
use crate::pretokenize::gpt2::pretokens;
use crate::pretokenize::r50k::pretokenize_as_iter;

verus! {

/// How often a pretoken occurs in a list.
pub open spec fn occurrences(ps: Seq<Seq<u8>>, p: Seq<u8>) -> nat
    decreases ps.len(),
{
    if ps.len() == 0 {
        0
    } else {
        occurrences(ps.drop_last(), p) + if ps.last() == p {
            1nat
        } else {
            0
        }
    }
}

/// The count of a pretoken; none is 0.
pub open spec fn counted(counts: Map<Seq<u8>, usize>, p: Seq<u8>) -> nat {
    if counts.contains_key(p) {
        counts[p] as nat
    } else {
        0
    }
}

/// Pretokens of two lists, one after the other, occur as often as in both.
pub proof fn lemma_occurrences_concat(a: Seq<Seq<u8>>, b: Seq<Seq<u8>>, p: Seq<u8>)
    ensures
        occurrences(a + b, p) == occurrences(a, p) + occurrences(b, p),
    decreases b.len(),
{
    if b.len() == 0 {
        assert(a + b =~= a);
    } else {
        assert((a + b).drop_last() =~= a + b.drop_last());
        assert((a + b).last() == b.last());
        lemma_occurrences_concat(a, b.drop_last(), p);
    }
}

/// A pretoken of a list occurs no more often than the list is long.
pub proof fn lemma_occurrences_bound(ps: Seq<Seq<u8>>, p: Seq<u8>)
    ensures
        occurrences(ps, p) <= ps.len(),
    decreases ps.len(),
{
    if ps.len() > 0 {
        lemma_occurrences_bound(ps.drop_last(), p);
    }
}

/// Whether counts are those of before with the pretokens of a list added.
pub open spec fn adds_list(
    before: Map<Seq<u8>, usize>,
    after: Map<Seq<u8>, usize>,
    ps: Seq<Seq<u8>>,
) -> bool {
    forall|p: Seq<u8>| #[trigger]
        counted(after, p) == counted(before, p) + occurrences(ps, p) && (after.contains_key(p)
            <==> before.contains_key(p) || occurrences(ps, p) > 0)
}

/// Count the pretokens of a document.
pub fn count_pretokens(doc: &[u8], counts: &mut ByteMap<usize>)
    requires
        old(counts).wf(),
        forall|p: Seq<u8>| #[trigger] counted(old(counts)@, p) + pretokens(doc@).len() <= usize::MAX,
    ensures
        final(counts).wf(),
        adds_list(old(counts)@, final(counts)@, pretokens(doc@)),
{
    let ghost before = counts@;
    let ghost all = pretokens(doc@);
    let ghost mut done: Seq<Seq<u8>> = Seq::empty();
    let mut it = pretokenize_as_iter(doc);
    let mut more: bool = true;
    assert(done + all =~= all);
    while more
        invariant
            counts.wf(),
            it.doc() == doc@,
            all == pretokens(doc@),
            all == done + it.remaining(),
            !more ==> done == all,
            adds_list(before, counts@, done),
            forall|p: Seq<u8>| #[trigger] counted(before, p) + all.len() <= usize::MAX,
        decreases it.remaining().len() + if more {
            1int
        } else {
            0
        },
    {
        let ghost left = it.remaining();
        match it.next() {
            None => {
                more = false;
                assert(done + left =~= done);
            },
            Some(pretoken) => {
                let ghost p = pretoken@;
                let ghost now = counts@;
                let ghost next = done.push(p);
                proof {
                    assert(all =~= next + it.remaining());
                    assert(next.drop_last() =~= done);
                    lemma_occurrences_bound(done, p);
                    assert(counted(now, p) == counted(before, p) + occurrences(done, p));
                    assert(counted(before, p) + all.len() <= usize::MAX);
                }
                let n: usize = match counts.get(pretoken.0) {
                    Some(n) => n,
                    None => 0,
                };
                counts.insert(pretoken.0, n + 1);
                proof {
                    assert forall|q: Seq<u8>| #[trigger]
                        counted(counts@, q) == counted(before, q) + occurrences(next, q) && (
                        counts@.contains_key(q) <==> before.contains_key(q) || occurrences(next, q)
                            > 0) by {
                        assert(counted(now, q) == counted(before, q) + occurrences(done, q));
                    }
                    done = next;
                }
            },
        }
    }
}

/// Whether counts are the sums of two others.
pub open spec fn sums(
    a: Map<Seq<u8>, usize>,
    b: Map<Seq<u8>, usize>,
    c: Map<Seq<u8>, usize>,
) -> bool {
    forall|p: Seq<u8>| #[trigger]
        counted(c, p) == counted(a, p) + counted(b, p) && (c.contains_key(p) <==> a.contains_key(p)
            || b.contains_key(p))
}

/// The count of a pretoken among the first `n` of a list of keys.
spec fn counted_upto(
    counts: Map<Seq<u8>, usize>,
    order: Seq<Seq<u8>>,
    n: int,
    p: Seq<u8>,
) -> nat {
    if order.take(n).contains(p) {
        counted(counts, p)
    } else {
        0
    }
}

/// What one more key adds.
proof fn lemma_one_more(counts: Map<Seq<u8>, usize>, order: Seq<Seq<u8>>, n: int, p: Seq<u8>)
    requires
        0 <= n < order.len(),
        order.no_duplicates(),
    ensures
        order.take(n + 1).contains(p) <==> order.take(n).contains(p) || p == order[n],
        !order.take(n).contains(order[n]),
{
    let t = order.take(n);
    let u = order.take(n + 1);
    assert(u[n] == order[n]);
    if t.contains(order[n]) {
        let j = choose|j: int| 0 <= j < t.len() && t[j] == order[n];
        assert(order[j] == order[n]);
    }
    if t.contains(p) {
        let j = choose|j: int| 0 <= j < t.len() && t[j] == p;
        assert(u[j] == p);
    }
    if u.contains(p) {
        let j = choose|j: int| 0 <= j < u.len() && u[j] == p;
        if j < n {
            assert(t[j] == p);
        }
    }
}

/// Add the counts of a part to those of the others.
pub fn merge_counts(acc: &mut ByteMap<usize>, counts: &ByteMap<usize>)
    requires
        old(acc).wf(),
        counts.wf(),
        forall|p: Seq<u8>| #[trigger] counted(old(acc)@, p) + counted(counts@, p) <= usize::MAX,
    ensures
        final(acc).wf(),
        sums(old(acc)@, counts@, final(acc)@),
{
    let ghost before = acc@;
    let ghost order = counts.order();
    let n_keys: usize = counts.len();
    proof {
        counts.lemma_order();
        assert(order.take(0) =~= Seq::<Seq<u8>>::empty());
    }
    for i in 0..n_keys
        invariant
            acc.wf(),
            counts.wf(),
            order == counts.order(),
            n_keys == order.len(),
            order.no_duplicates(),
            forall|p: Seq<u8>| #[trigger] counted(before, p) + counted(counts@, p) <= usize::MAX,
            forall|p: Seq<u8>| #[trigger]
                counted(acc@, p) == counted(before, p) + counted_upto(
                    counts@,
                    order,
                    i as int,
                    p,
                ),
            forall|p: Seq<u8>| #[trigger]
                acc@.contains_key(p) <==> before.contains_key(p) || order.take(i as int).contains(
                    p,
                ),
    {
        let ghost now = acc@;
        let (key, v): (&[u8], usize) = counts.entry(i);
        let ghost k = key@;
        proof {
            lemma_one_more(counts@, order, i as int, k);
            assert(counted(now, k) == counted(before, k));
            assert(counted(before, k) + counted(counts@, k) <= usize::MAX);
        }
        let n: usize = match acc.get(key) {
            Some(n) => n,
            None => 0,
        };
        acc.insert(key, n + v);
        proof {
            assert forall|p: Seq<u8>| #[trigger]
                counted(acc@, p) == counted(before, p) + counted_upto(
                    counts@,
                    order,
                    i as int + 1,
                    p,
                ) by {
                lemma_one_more(counts@, order, i as int, p);
                assert(counted(now, p) == counted(before, p) + counted_upto(
                    counts@,
                    order,
                    i as int,
                    p,
                ));
            }
            assert forall|p: Seq<u8>| #[trigger]
                acc@.contains_key(p) <==> before.contains_key(p) || order.take(
                    i as int + 1,
                ).contains(p) by {
                lemma_one_more(counts@, order, i as int, p);
                assert(now.contains_key(p) <==> before.contains_key(p) || order.take(
                    i as int,
                ).contains(p));
            }
        }
    }
    proof {
        assert(order.take(order.len() as int) =~= order);
        counts.lemma_order();
        assert forall|p: Seq<u8>| #[trigger]
            counted(acc@, p) == counted(before, p) + counted(counts@, p) && (acc@.contains_key(p)
                <==> before.contains_key(p) || counts@.contains_key(p)) by {
            assert(order.contains(p) <==> counts@.contains_key(p));
            assert(acc@.contains_key(p) <==> before.contains_key(p) || order.contains(p));
            assert(counted(acc@, p) == counted(before, p) + counted_upto(
                counts@,
                order,
                order.len() as int,
                p,
            ));
        }
    }
}

/// Counting in parts and adding up counts as counting all at once does.
pub proof fn lemma_counts_in_parts(
    none: Map<Seq<u8>, usize>,
    a: Map<Seq<u8>, usize>,
    b: Map<Seq<u8>, usize>,
    sum: Map<Seq<u8>, usize>,
    xs: Seq<Seq<u8>>,
    ys: Seq<Seq<u8>>,
)
    requires
        none == Map::<Seq<u8>, usize>::empty(),
        adds_list(none, a, xs),
        adds_list(none, b, ys),
        sums(a, b, sum),
    ensures
        adds_list(none, sum, xs + ys),
{
    assert forall|p: Seq<u8>| #[trigger]
        counted(sum, p) == counted(none, p) + occurrences(xs + ys, p) && (sum.contains_key(p)
            <==> none.contains_key(p) || occurrences(xs + ys, p) > 0) by {
        lemma_occurrences_concat(xs, ys, p);
        assert(counted(a, p) == counted(none, p) + occurrences(xs, p));
        assert(counted(b, p) == counted(none, p) + occurrences(ys, p));
        assert(counted(sum, p) == counted(a, p) + counted(b, p));
    }
}

} // verus!
