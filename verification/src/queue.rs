//! Trusted boundary to the lock-free FIFO queue backing the entity
//! directory's free list.
//!
//! The queue itself is an outside concurrent structure; these wrappers
//! give it a sequence view (front first) against which the directory's
//! logic is verified.

use vstd::prelude::*;

verus! {

#[verifier::external_type_specification]
#[verifier::external_body]
#[verifier::reject_recursive_types(T)]
pub struct ExQueue<T>(lockfree::queue::Queue<T>);

/// The elements currently in the queue, front first.
pub uninterp spec fn queue_view(q: lockfree::queue::Queue<usize>) -> Seq<usize>;

/// Relies on lockfree's `Queue::new`: creates an empty queue.
#[verifier::external_body]
pub fn queue_new() -> (q: lockfree::queue::Queue<usize>)
    ensures
        queue_view(q) == Seq::<usize>::empty(),
{
    lockfree::queue::Queue::new()
}

/// Relies on lockfree's `Queue::push`: appends the value at the back of
/// the queue ("FIFO semantics are fully respected").
#[verifier::external_body]
pub fn queue_push(q: &mut lockfree::queue::Queue<usize>, v: usize)
    ensures
        queue_view(*final(q)) == queue_view(*old(q)).push(v),
{
    q.push(v)
}

/// Relies on lockfree's `Queue::pop`: takes the value at the front of the
/// queue if one is available; under exclusive access that is exactly when
/// the queue is non-empty.
#[verifier::external_body]
pub fn queue_pop(q: &mut lockfree::queue::Queue<usize>) -> (r: Option<usize>)
    ensures
        queue_view(*old(q)).len() == 0 ==> r is None && queue_view(*final(q)) == queue_view(
            *old(q),
        ),
        queue_view(*old(q)).len() > 0 ==> r == Some(queue_view(*old(q)).first()) && queue_view(
            *final(q),
        ) == queue_view(*old(q)).drop_first(),
{
    q.pop()
}

} // verus!
