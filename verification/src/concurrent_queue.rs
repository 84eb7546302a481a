//! A fixed-capacity concurrent queue of orders: many producers, one consumer.
//!
//! The queue is a thin handle around crossbeam's lock-free `ArrayQueue`.
//! Because other handles to the same buffer may push and pop concurrently,
//! nothing can be promised about what a `push` or `pop` finds in the buffer;
//! the contracts state only what holds of every outcome.

use crate::order::Order;
use crossbeam::queue::ArrayQueue;
use std::sync::Arc;
use vstd::prelude::*;

verus! {

/// crossbeam's bounded lock-free MPMC queue, opaque to the verifier.
#[verifier::external_type_specification]
#[verifier::external_body]
#[verifier::reject_recursive_types(T)]
pub struct ExArrayQueue<T>(ArrayQueue<T>);

/// A shared handle to one fixed-capacity buffer of orders. Cloning the handle
/// shares the buffer; it does not duplicate contents or capacity.
#[derive(Clone)]
pub struct OrderQueue {
    inner: Arc<ArrayQueue<Order>>,
}

impl OrderQueue {
    /// Relies on `crossbeam::queue::ArrayQueue::new`: allocates a buffer of
    /// exactly `capacity` slots. `ArrayQueue::new` panics when the capacity is
    /// zero or so large that its internal index would overflow; the
    /// precondition excludes both.
    #[verifier::external_body]
    pub fn new(capacity: usize) -> (queue: OrderQueue)
        requires
            0 < capacity <= usize::MAX / 2,
    {
        OrderQueue { inner: Arc::new(ArrayQueue::new(capacity)) }
    }

    /// Relies on `crossbeam::queue::ArrayQueue::push`: enqueues the order at
    /// the tail, or, when the buffer is full at that moment, hands the very
    /// same order back without blocking.
    #[verifier::external_body]
    pub fn push(&self, order: Order) -> (r: Result<(), Order>)
        ensures
            r matches Err(rejected) ==> rejected == order,
    {
        self.inner.push(order)
    }

    /// Relies on `crossbeam::queue::ArrayQueue::pop`: dequeues the oldest
    /// order, or returns `None` when the buffer is empty at that moment,
    /// without blocking. Concurrent handles may change the buffer between any
    /// two calls, so nothing is promised of the result.
    #[verifier::external_body]
    pub fn pop(&self) -> (r: Option<Order>) {
        self.inner.pop()
    }
}

} // verus!
