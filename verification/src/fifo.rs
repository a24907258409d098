//! First-in-first-out queues for the scheduler's index traffic.
//!
//! A [`Fifo`] carries slot indices between a task's free queue, a priority
//! level's ready queue and the executing dispatcher.  Dequeue order equals
//! enqueue order, which is what fixes the relative execution order of
//! activations spawned to the same priority level.  The number of elements a
//! queue can ever hold is bounded externally: only indices of a fixed-capacity
//! slot pool flow through it, and index conservation keeps each queue at or
//! below the capacity of the pools that feed it.

use vstd::prelude::*;

verus! {

/// A first-in-first-out queue, viewed in specifications as the sequence of
/// its elements from front (next out) to back (last in).
pub struct Fifo<T> {
    items: Vec<T>,
}

impl<T> Fifo<T> {
    /// The queue's contents, front first.
    pub closed spec fn view(&self) -> Seq<T> {
        self.items@
    }

    /// An empty queue.
    pub fn new() -> (r: Fifo<T>)
        ensures
            r@ == Seq::<T>::empty(),
    {
        Fifo { items: Vec::new() }
    }

    /// The number of queued elements.
    pub fn len(&self) -> (r: usize)
        ensures
            r == self@.len(),
    {
        self.items.len()
    }

    /// True if nothing is queued.
    pub fn is_empty(&self) -> (r: bool)
        ensures
            r == (self@.len() == 0),
    {
        self.items.len() == 0
    }

    /// Adds `x` at the back of the queue.
    pub fn enqueue(&mut self, x: T)
        ensures
            final(self)@ == old(self)@.push(x),
    {
        self.items.push(x);
    }

    /// Removes and returns the front element, or `None` if the queue is
    /// empty; non-blocking either way.
    pub fn dequeue(&mut self) -> (r: Option<T>)
        ensures
            old(self)@.len() == 0 ==> r is None && final(self)@ == old(self)@,
            old(self)@.len() > 0 ==> {
                &&& r is Some
                &&& r->Some_0 == old(self)@[0]
                &&& final(self)@ == old(self)@.drop_first()
            },
    {
        if self.items.len() == 0 {
            None
        } else {
            Some(self.items.remove(0))
        }
    }
}

} // verus!
