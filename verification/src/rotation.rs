//! The round-robin rotation queue: a concurrent FIFO of peer identities.
//!
//! The rotation structure is crossbeam's `SegQueue`, kept because the
//! embedding runtime shares the backend across tasks. Its contents are
//! abstracted as a sequence; the queue offers no way to excise a specific
//! element, so entries for departed peers linger until a pop discards them.

use vstd::prelude::*;

verus! {

#[verifier::external_type_specification]
#[verifier::external_body]
#[verifier::reject_recursive_types(T)]
pub struct ExSegQueue<T>(crossbeam::queue::SegQueue<T>);

/// The identities held by a rotation queue, front first.
pub uninterp spec fn rotation_entries(q: crossbeam::queue::SegQueue<u64>) -> Seq<u64>;

/// Relies on crossbeam's `SegQueue::new`: creates an empty queue.
#[verifier::external_body]
pub(crate) fn rotation_new() -> (q: crossbeam::queue::SegQueue<u64>)
    ensures
        rotation_entries(q) == Seq::<u64>::empty(),
{
    crossbeam::queue::SegQueue::new()
}

/// Relies on crossbeam's `SegQueue::push`: appends the element at the tail.
#[verifier::external_body]
pub(crate) fn rotation_push(q: &mut crossbeam::queue::SegQueue<u64>, id: u64)
    ensures
        rotation_entries(*final(q)) == rotation_entries(*old(q)).push(id),
{
    q.push(id);
}

/// Relies on crossbeam's `SegQueue::pop`: removes and returns the element
/// at the head, or `None` when the queue is empty.
#[verifier::external_body]
pub(crate) fn rotation_pop(q: &mut crossbeam::queue::SegQueue<u64>) -> (r: Option<u64>)
    ensures
        match r {
            Some(id) => rotation_entries(*old(q)).len() > 0 && id == rotation_entries(
                *old(q),
            )[0] && rotation_entries(*final(q)) == rotation_entries(*old(q)).drop_first(),
            None => rotation_entries(*old(q)).len() == 0 && rotation_entries(*final(q))
                == rotation_entries(*old(q)),
        },
{
    q.pop()
}

/// Relies on crossbeam's `SegQueue::len`: the number of elements held.
#[verifier::external_body]
pub(crate) fn rotation_len(q: &crossbeam::queue::SegQueue<u64>) -> (n: usize)
    ensures
        n == rotation_entries(*q).len(),
{
    q.len()
}

} // verus!
