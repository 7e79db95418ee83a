//! The queue of pairs by count.

use std::collections::hash_map::RandomState;

use priority_queue::PriorityQueue;
use vstd::prelude::*;

use crate::bpe_train::pairs::Pair;

verus! {

/// The queue of the `priority_queue` crate.
#[verifier::external_type_specification]
#[verifier::external_body]
#[verifier::reject_recursive_types(I)]
#[verifier::reject_recursive_types(P)]
#[verifier::reject_recursive_types(H)]
pub struct ExPriorityQueue<I, P, H>(PriorityQueue<I, P, H>);

/// A queue of pairs by count.
pub type PairQueue = PriorityQueue<Pair, isize, RandomState>;

/// The pairs in a queue, each with its priority.
pub uninterp spec fn queued(q: PairQueue) -> Map<Pair, isize>;

/// `PriorityQueue::new`: an empty queue.
#[verifier::external_body]
pub(crate) fn new_queue() -> (q: PairQueue)
    ensures
        forall|p: Pair| !#[trigger] queued(q).contains_key(p),
{
    PriorityQueue::new()
}

/// `PriorityQueue::push`: the pair is in the queue with that priority, in place
/// of the one it had.
#[verifier::external_body]
pub(crate) fn queue_push(q: &mut PairQueue, pair: Pair, count: isize)
    ensures
        queued(*final(q)) == queued(*old(q)).insert(pair, count),
{
    q.push(pair, count);
}

/// `PriorityQueue::peek`: a pair of the greatest priority, with its priority;
/// `None` where the queue is empty. Which of several is open.
#[verifier::external_body]
pub(crate) fn queue_peek(q: &PairQueue) -> (r: Option<(Pair, isize)>)
    ensures
        match r {
            Some((pair, count)) => {
                &&& queued(*q).contains_key(pair)
                &&& queued(*q)[pair] == count
                &&& forall|p: Pair| #[trigger]
                    queued(*q).contains_key(p) ==> queued(*q)[p] <= count
            },
            None => forall|p: Pair| !#[trigger] queued(*q).contains_key(p),
        },
{
    q.peek().map(|(pair, count)| (*pair, *count))
}

/// `PriorityQueue::pop`: remove a pair of the greatest priority and return it
/// with its priority; `None` where the queue is empty. Which of several is open.
#[verifier::external_body]
pub(crate) fn queue_pop(q: &mut PairQueue) -> (r: Option<(Pair, isize)>)
    ensures
        match r {
            Some((pair, count)) => {
                &&& queued(*old(q)).contains_key(pair)
                &&& queued(*old(q))[pair] == count
                &&& forall|p: Pair| #[trigger]
                    queued(*old(q)).contains_key(p) ==> queued(*old(q))[p] <= count
                &&& queued(*final(q)) == queued(*old(q)).remove(pair)
            },
            None => {
                &&& forall|p: Pair| !#[trigger] queued(*old(q)).contains_key(p)
                &&& queued(*final(q)) == queued(*old(q))
            },
        },
{
    q.pop()
}

/// Add a change to a count.
fn shift(count: &mut isize, change: isize)
    requires
        isize::MIN <= *old(count) + change <= isize::MAX,
    ensures
        *final(count) == *old(count) + change,
{
    *count = *count + change;
}

/// `PriorityQueue::change_priority_by`: add to the priority of a pair, where it
/// is in the queue. Returns whether it is.
#[verifier::external_body]
pub(crate) fn queue_shift(
    q: &mut PairQueue,
    pair: Pair,
    change: isize,
) -> (found: bool)
    requires
        queued(*old(q)).contains_key(pair) ==> isize::MIN <= queued(*old(q))[pair] + change
            <= isize::MAX,
    ensures
        found == queued(*old(q)).contains_key(pair),
        found ==> queued(*final(q)) == queued(*old(q)).insert(
            pair,
            (queued(*old(q))[pair] + change) as isize,
        ),
        !found ==> queued(*final(q)) == queued(*old(q)),
{
    q.change_priority_by(&pair, |count| shift(count, change))
}

} // verus!
