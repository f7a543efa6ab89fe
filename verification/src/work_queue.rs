//! The bounded work-sharing queue. The engine stores `(state, depth)` pairs
//! in a fixed-capacity concurrent FIFO queue from an outside crate; the
//! declarations here give that queue's contents and capacity names that the
//! engine's contracts speak of.
use vstd::prelude::*;

verus! {

use crate::game::GameState;

/// One unit of work: a position and the depth budget left below it.
pub struct WorkItem {
    pub state: GameState,
    pub depth: u8,
}

#[verifier::external_type_specification]
#[verifier::external_body]
#[verifier::reject_recursive_types(T)]
pub struct ExArrayQueue<T>(crossbeam::queue::ArrayQueue<T>);

/// The elements the queue holds, oldest first.
pub uninterp spec fn queue_items(q: crossbeam::queue::ArrayQueue<WorkItem>) -> Seq<WorkItem>;

/// The fixed capacity the queue was created with.
pub uninterp spec fn queue_capacity(q: crossbeam::queue::ArrayQueue<WorkItem>) -> usize;

/// Relies on crossbeam's `ArrayQueue::new`: an empty queue of the given
/// capacity. `new` panics on a zero capacity, so that input is kept out.
#[verifier::external_body]
pub(crate) fn queue_new(cap: usize) -> (q: crossbeam::queue::ArrayQueue<WorkItem>)
    requires
        1 <= cap < 0x1000_0000,
    ensures
        queue_items(q) == Seq::<WorkItem>::empty(),
        queue_capacity(q) == cap,
{
    crossbeam::queue::ArrayQueue::new(cap)
}

/// Relies on crossbeam's `ArrayQueue::push`: appends the value at the tail
/// when the queue is not full, and hands the value back when it is.
#[verifier::external_body]
pub(crate) fn queue_push(q: &mut crossbeam::queue::ArrayQueue<WorkItem>, item: WorkItem) -> (r:
    Option<WorkItem>)
    ensures
        queue_capacity(*final(q)) == queue_capacity(*old(q)),
        queue_items(*old(q)).len() < queue_capacity(*old(q)) ==> r is None && queue_items(
            *final(q),
        ) == queue_items(*old(q)).push(item),
        queue_items(*old(q)).len() >= queue_capacity(*old(q)) ==> r == Some(item) && queue_items(
            *final(q),
        ) == queue_items(*old(q)),
{
    match q.push(item) {
        Ok(()) => None,
        Err(v) => Some(v),
    }
}

/// Relies on crossbeam's `ArrayQueue::pop`: removes and returns the oldest
/// element, or `None` when the queue is empty.
#[verifier::external_body]
pub(crate) fn queue_pop(q: &mut crossbeam::queue::ArrayQueue<WorkItem>) -> (r: Option<WorkItem>)
    ensures
        queue_capacity(*final(q)) == queue_capacity(*old(q)),
        queue_items(*old(q)).len() == 0 ==> r is None && queue_items(*final(q)) == queue_items(
            *old(q),
        ),
        queue_items(*old(q)).len() > 0 ==> r == Some(queue_items(*old(q))[0]) && queue_items(
            *final(q),
        ) == queue_items(*old(q)).drop_first(),
{
    q.pop()
}

/// Relies on crossbeam's `ArrayQueue::len`: how many elements the queue
/// currently holds.
#[verifier::external_body]
pub(crate) fn queue_len(q: &crossbeam::queue::ArrayQueue<WorkItem>) -> (r: usize)
    ensures
        r == queue_items(*q).len(),
{
    q.len()
}

/// Relies on crossbeam's `ArrayQueue::capacity`: the capacity the queue was
/// created with.
#[verifier::external_body]
pub(crate) fn queue_cap(q: &crossbeam::queue::ArrayQueue<WorkItem>) -> (r: usize)
    ensures
        r == queue_capacity(*q),
{
    q.capacity()
}

} // verus!
