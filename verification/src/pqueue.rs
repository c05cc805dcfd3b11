//! The selection queue is a `keyed_priority_queue` keyed by cell index, with
//! `nohash_hasher` hashing the integer keys. This module gives the queue's
//! contents a name, `queue_map`, and wraps the operations the solver uses.

use vstd::prelude::*;

verus! {

#[verifier::external_type_specification]
#[verifier::external_body]
#[verifier::reject_recursive_types(T)]
pub struct ExNoHashHasher<T>(nohash_hasher::NoHashHasher<T>);

#[verifier::external_type_specification]
#[verifier::external_body]
#[verifier::reject_recursive_types(H)]
pub struct ExBuildHasherDefault<H>(core::hash::BuildHasherDefault<H>);

#[verifier::external_type_specification]
#[verifier::external_body]
#[verifier::reject_recursive_types(TKey)]
#[verifier::reject_recursive_types(TPriority)]
#[verifier::reject_recursive_types(S)]
pub struct ExKeyedPriorityQueue<
    TKey: core::hash::Hash + core::cmp::Eq,
    TPriority: core::cmp::Ord,
    S: core::hash::BuildHasher,
>(keyed_priority_queue::KeyedPriorityQueue<TKey, TPriority, S>);

/// The queue the solver selects cells from: cell index to `u8` priority.
pub type CellQueue = keyed_priority_queue::KeyedPriorityQueue<
    usize,
    u8,
    nohash_hasher::BuildNoHashHasher<usize>,
>;

/// The contents of a cell queue: each queued cell mapped to its priority.
pub uninterp spec fn queue_map(q: CellQueue) -> Map<usize, u8>;

/// Relies on keyed_priority_queue's `FromIterator` impl for
/// `KeyedPriorityQueue`: a queue holding every cell below `len`, each at
/// priority 0.
#[verifier::external_body]
pub(crate) fn queue_from_range(len: usize) -> (r: CellQueue)
    ensures
        queue_map(r) == Map::new(|k: usize| (k as int) < len, |k: usize| 0u8),
{
    keyed_priority_queue::KeyedPriorityQueue::from_iter((0..len).zip(core::iter::repeat(0u8)))
}

/// Relies on keyed_priority_queue's `KeyedPriorityQueue::len`: the number of
/// queued keys.
#[verifier::external_body]
pub(crate) fn queue_len(q: &CellQueue) -> (r: usize)
    ensures
        r == queue_map(*q).dom().len(),
{
    q.len()
}

/// Relies on keyed_priority_queue's `KeyedPriorityQueue::pop`: removes and
/// returns a key with maximal priority, or `None` from an empty queue. Which
/// of several keys of equal maximal priority leaves is not specified.
#[verifier::external_body]
pub(crate) fn queue_pop(q: &mut CellQueue) -> (r: Option<(usize, u8)>)
    ensures
        match r {
            None => queue_map(*old(q)) == Map::<usize, u8>::empty() && queue_map(*final(q))
                == queue_map(*old(q)),
            Some((key, priority)) => {
                &&& queue_map(*old(q)).dom().contains(key)
                &&& queue_map(*old(q))[key] == priority
                &&& forall|k2: usize|
                    queue_map(*old(q)).dom().contains(k2) ==> queue_map(*old(q))[k2] <= priority
                &&& queue_map(*final(q)) == queue_map(*old(q)).remove(key)
            },
        },
{
    q.pop()
}

/// Relies on keyed_priority_queue's `KeyedPriorityQueue::set_priority`:
/// changes a present key's priority and returns the old one; a missing key
/// leaves the queue unchanged.
#[verifier::external_body]
pub(crate) fn queue_set_priority(q: &mut CellQueue, key: usize, priority: u8) -> (r: Option<u8>)
    ensures
        queue_map(*old(q)).dom().contains(key) ==> r == Some(queue_map(*old(q))[key])
            && queue_map(*final(q)) == queue_map(*old(q)).insert(key, priority),
        !queue_map(*old(q)).dom().contains(key) ==> r == None::<u8> && queue_map(*final(q))
            == queue_map(*old(q)),
{
    match q.set_priority(&key, priority) {
        Ok(p) => Some(p),
        Err(_) => None,
    }
}

} // verus!
