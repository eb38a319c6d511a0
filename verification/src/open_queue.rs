//! The planner's open queue: an addressable priority queue from nodes to
//! priority keys, kept in a `priority_queue::DoublePriorityQueue`.

use priority_queue::DoublePriorityQueue;
use vstd::prelude::*;

verus! {

/// `priority_queue::DoublePriorityQueue`, of which nothing is known but what
/// the functions below say.
#[verifier::external_type_specification]
#[verifier::external_body]
#[verifier::reject_recursive_types(I)]
#[verifier::reject_recursive_types(P)]
#[verifier::reject_recursive_types(H)]
pub struct ExDoublePriorityQueue<I, P, H>(DoublePriorityQueue<I, P, H>);

/// What a queue holds: each queued node with the key it is queued under.
pub uninterp spec fn queue_entries(q: DoublePriorityQueue<u64, (u64, u64)>) -> Map<u64, (u64, u64)>;

/// The contents of an empty queue.
pub open spec fn no_entries() -> Map<u64, (u64, u64)> {
    Map::empty()
}

/// Lexicographic order on keys, strict.
pub open spec fn key_lt(a: (u64, u64), b: (u64, u64)) -> bool {
    a.0 < b.0 || (a.0 == b.0 && a.1 < b.1)
}

/// Lexicographic order on keys.
pub open spec fn key_le(a: (u64, u64), b: (u64, u64)) -> bool {
    a.0 < b.0 || (a.0 == b.0 && a.1 <= b.1)
}

/// `DoublePriorityQueue::new`: a queue that holds nothing.
#[verifier::external_body]
pub(crate) fn queue_new() -> (q: DoublePriorityQueue<u64, (u64, u64)>)
    ensures
        queue_entries(q) == no_entries(),
{
    DoublePriorityQueue::new()
}

/// `DoublePriorityQueue::push`: the node is queued under the given key,
/// whether or not it was queued before; no other entry changes.
#[verifier::external_body]
pub(crate) fn queue_push(q: &mut DoublePriorityQueue<u64, (u64, u64)>, node: u64, key: (u64, u64))
    ensures
        queue_entries(*final(q)) == queue_entries(*old(q)).insert(node, key),
{
    q.push(node, key);
}

/// `DoublePriorityQueue::pop_min`: takes out an entry whose key no other
/// entry's key is below, and returns it; `None` on an empty queue. Which of
/// several entries with the least key leaves is left open.
#[verifier::external_body]
pub(crate) fn queue_pop_min(q: &mut DoublePriorityQueue<u64, (u64, u64)>) -> (r: Option<(u64, (u64, u64))>)
    ensures
        match r {
            Some((node, key)) => {
                &&& queue_entries(*old(q)).contains_key(node)
                &&& queue_entries(*old(q))[node] == key
                &&& forall|n: u64| #[trigger] queue_entries(*old(q)).contains_key(n)
                        ==> key_le(key, queue_entries(*old(q))[n])
                &&& queue_entries(*final(q)) == queue_entries(*old(q)).remove(node)
            },
            None => {
                &&& queue_entries(*old(q)) == no_entries()
                &&& queue_entries(*final(q)) == queue_entries(*old(q))
            },
        },
{
    q.pop_min()
}

/// `DoublePriorityQueue::peek_min`: an entry whose key no other entry's key
/// is below, left in place; `None` on an empty queue.
#[verifier::external_body]
pub(crate) fn queue_peek_min(q: &DoublePriorityQueue<u64, (u64, u64)>) -> (r: Option<(u64, (u64, u64))>)
    ensures
        match r {
            Some((node, key)) => {
                &&& queue_entries(*q).contains_key(node)
                &&& queue_entries(*q)[node] == key
                &&& forall|n: u64| #[trigger] queue_entries(*q).contains_key(n)
                        ==> key_le(key, queue_entries(*q)[n])
            },
            None => queue_entries(*q) == no_entries(),
        },
{
    q.peek_min().map(|(node, key)| (*node, *key))
}

/// `DoublePriorityQueue::get_priority`: the key a node is queued under, or
/// `None` for a node that is not queued.
#[verifier::external_body]
pub(crate) fn queue_get(q: &DoublePriorityQueue<u64, (u64, u64)>, node: u64) -> (r: Option<(u64, u64)>)
    ensures
        r is Some <==> queue_entries(*q).contains_key(node),
        r is Some ==> r->0 == queue_entries(*q)[node],
{
    q.get_priority(&node).copied()
}

/// `DoublePriorityQueue::change_priority`: a queued node gets the new key and
/// its old key is returned; for a node that is not queued nothing changes and
/// `None` is returned.
#[verifier::external_body]
pub(crate) fn queue_change_priority(
    q: &mut DoublePriorityQueue<u64, (u64, u64)>,
    node: u64,
    key: (u64, u64),
) -> (r: Option<(u64, u64)>)
    ensures
        r is Some <==> queue_entries(*old(q)).contains_key(node),
        r is Some ==> r->0 == queue_entries(*old(q))[node],
        r is Some ==> queue_entries(*final(q)) == queue_entries(*old(q)).insert(node, key),
        r is None ==> queue_entries(*final(q)) == queue_entries(*old(q)),
{
    q.change_priority(&node, key)
}

/// `DoublePriorityQueue::remove`: the node's entry, if there is one, leaves
/// the queue; no other entry changes.
#[verifier::external_body]
pub(crate) fn queue_remove(q: &mut DoublePriorityQueue<u64, (u64, u64)>, node: u64)
    ensures
        queue_entries(*final(q)) == queue_entries(*old(q)).remove(node),
{
    q.remove(&node);
}

} // verus!
