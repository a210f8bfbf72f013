//! The priority-ordered frontier of the shortest-path search, kept in a
//! `priority_queue::PriorityQueue` keyed by node handle.
use priority_queue::PriorityQueue;
use vstd::prelude::*;

verus! {

#[verifier::external_type_specification]
#[verifier::external_body]
#[verifier::reject_recursive_types(I)]
#[verifier::reject_recursive_types(P)]
#[verifier::reject_recursive_types(H)]
pub struct ExPriorityQueue<I, P, H>(PriorityQueue<I, P, H>);

/// What a queue holds: each item with its priority (the queue holds an item at
/// most once).
pub uninterp spec fn queue_contents(q: PriorityQueue<usize, usize>) -> Map<usize, usize>;

/// Relies on `PriorityQueue::new`: the new queue is empty.
#[verifier::external_body]
pub(crate) fn queue_new() -> (r: PriorityQueue<usize, usize>)
    ensures
        queue_contents(r).dom() == Set::<usize>::empty(),
{
    PriorityQueue::new()
}

/// Relies on `PriorityQueue::is_empty`: true exactly when the queue holds no item.
#[verifier::external_body]
pub(crate) fn queue_is_empty(q: &PriorityQueue<usize, usize>) -> (r: bool)
    ensures
        r == (queue_contents(*q).dom() == Set::<usize>::empty()),
{
    q.is_empty()
}

/// Relies on `PriorityQueue::push`: an item not yet held is inserted with the
/// priority; one already held has its priority replaced.
#[verifier::external_body]
pub(crate) fn queue_push(q: &mut PriorityQueue<usize, usize>, item: usize, priority: usize)
    ensures
        queue_contents(*final(q)) == queue_contents(*old(q)).insert(item, priority),
{
    q.push(item, priority);
}

/// Relies on `PriorityQueue::pop`: `None` on an empty queue; otherwise an item
/// with the greatest priority, which leaves the queue.
#[verifier::external_body]
pub(crate) fn queue_pop(q: &mut PriorityQueue<usize, usize>) -> (r: Option<(usize, usize)>)
    ensures
        queue_contents(*old(q)).dom() == Set::<usize>::empty() ==> r.is_none() && queue_contents(*final(q)) == queue_contents(*old(q)),
        queue_contents(*old(q)).dom() != Set::<usize>::empty() ==> r.is_some(),
        r matches Some((item, priority)) ==> {
            &&& queue_contents(*old(q)).contains_key(item)
            &&& queue_contents(*old(q))[item] == priority
            &&& forall|i: usize| #[trigger] queue_contents(*old(q)).contains_key(i) ==> queue_contents(*old(q))[i] <= priority
            &&& queue_contents(*final(q)) == queue_contents(*old(q)).remove(item)
        },
{
    q.pop()
}

} // verus!
