//! The addressable priority queue behind the searches and the contractor:
//! `priority_queue::PriorityQueue`, keyed by node, ordered so that the entry
//! with the least `(key, node)` pair leaves first.
//!
//! Nothing in this file is proved: each function states what the queue's
//! own documentation and source say of the method it calls.
use priority_queue::PriorityQueue;
use std::cmp::Reverse;
use vstd::prelude::*;

verus! {

#[verifier::external_type_specification]
#[verifier::external_body]
#[verifier::reject_recursive_types(I)]
#[verifier::reject_recursive_types(P)]
#[verifier::reject_recursive_types(H)]
pub struct ExPriorityQueue<I, P, H>(PriorityQueue<I, P, H>);

#[verifier::external_type_specification]
#[verifier::external_body]
#[verifier::reject_recursive_types(T)]
pub struct ExReverse<T>(Reverse<T>);

/// A queue of nodes in which the least `(key, node)` pair has the greatest
/// priority.
pub type MinQueue = PriorityQueue<usize, Reverse<(i128, usize)>>;

/// What a queue holds: for each queued node the pair it was last pushed with.
pub uninterp spec fn queue_entries(queue: PriorityQueue<usize, Reverse<(i128, usize)>>) -> Map<
    usize,
    (i128, usize),
>;

/// The entries of an empty queue.
pub open spec fn no_entries() -> Map<usize, (i128, usize)> {
    Map::empty()
}

/// The order of the pairs: by key, then by node.
pub open spec fn entry_le(a: (i128, usize), b: (i128, usize)) -> bool {
    a.0 < b.0 || (a.0 == b.0 && a.1 <= b.1)
}

/// `top` is an entry of `entries` and no entry is below it.
pub open spec fn is_least_entry(entries: Map<usize, (i128, usize)>, top: (usize, (i128, usize))) -> bool {
    &&& entries.contains_key(top.0)
    &&& entries[top.0] == top.1
    &&& forall|other: usize| #[trigger]
        entries.contains_key(other) ==> entry_le(top.1, entries[other])
}

/// `PriorityQueue::new`: a queue without entries.
#[verifier::external_body]
pub(crate) fn queue_new() -> (queue: MinQueue)
    ensures
        queue_entries(queue) == no_entries(),
{
    PriorityQueue::new()
}

/// `PriorityQueue::clear`: drops every entry.
#[verifier::external_body]
pub(crate) fn queue_clear(queue: &mut MinQueue)
    ensures
        queue_entries(*final(queue)) == no_entries(),
{
    queue.clear()
}

/// `PriorityQueue::push`: enters `node` with `entry`; a node that is queued
/// already has its pair replaced. Returns the pair it had before, if any.
#[verifier::external_body]
pub(crate) fn queue_push(queue: &mut MinQueue, node: usize, entry: (i128, usize)) -> (before: Option<
    (i128, usize),
>)
    ensures
        queue_entries(*final(queue)) == queue_entries(*old(queue)).insert(node, entry),
        before == if queue_entries(*old(queue)).contains_key(node) {
            Some(queue_entries(*old(queue))[node])
        } else {
            None
        },
{
    queue.push(node, Reverse(entry)).map(|p| p.0)
}

/// `PriorityQueue::change_priority`: replaces the pair of a queued node and
/// returns the one it had; leaves the queue alone when the node is not queued.
#[verifier::external_body]
pub(crate) fn queue_change_priority(queue: &mut MinQueue, node: usize, entry: (i128, usize)) -> (before:
    Option<(i128, usize)>)
    ensures
        queue_entries(*old(queue)).contains_key(node) ==> {
            &&& queue_entries(*final(queue)) == queue_entries(*old(queue)).insert(node, entry)
            &&& before == Some(queue_entries(*old(queue))[node])
        },
        !queue_entries(*old(queue)).contains_key(node) ==> {
            &&& queue_entries(*final(queue)) == queue_entries(*old(queue))
            &&& before.is_none()
        },
{
    queue.change_priority(&node, Reverse(entry)).map(|p| p.0)
}

/// `PriorityQueue::peek`: an entry of greatest priority, that is a least
/// pair, or nothing when the queue is empty.
#[verifier::external_body]
pub(crate) fn queue_peek(queue: &MinQueue) -> (top: Option<(usize, (i128, usize))>)
    ensures
        top.is_none() ==> queue_entries(*queue) == no_entries(),
        top.is_some() ==> is_least_entry(queue_entries(*queue), top.unwrap()),
{
    queue.peek().map(|(node, p)| (*node, p.0))
}

/// `PriorityQueue::pop`: takes an entry of greatest priority, that is a
/// least pair, out of the queue and returns it, or nothing when the queue
/// is empty.
#[verifier::external_body]
pub(crate) fn queue_pop(queue: &mut MinQueue) -> (top: Option<(usize, (i128, usize))>)
    ensures
        top.is_none() ==> {
            &&& queue_entries(*old(queue)) == no_entries()
            &&& queue_entries(*final(queue)) == queue_entries(*old(queue))
        },
        top.is_some() ==> {
            &&& is_least_entry(queue_entries(*old(queue)), top.unwrap())
            &&& queue_entries(*final(queue)) == queue_entries(*old(queue)).remove(top.unwrap().0)
        },
{
    queue.pop().map(|(node, p)| (node, p.0))
}

} // verus!
