//! A bounded first-in first-out queue. Room for every item is reserved when
//! the queue is made, and pushing into a full queue fails instead of
//! growing, so producers never allocate.
use std::collections::VecDeque;
use vstd::prelude::*;

verus! {

/// Why a push was refused.
#[derive(Debug, Clone, Copy, PartialEq, Eq, Structural)]
pub enum QueueError {
    Full,
}

/// A FIFO queue holding at most `capacity` items.
pub struct BoundedQueue<T> {
    items: VecDeque<T>,
    capacity: usize,
}

impl<T> BoundedQueue<T> {
    /// The items in the queue, oldest first.
    pub closed spec fn view(&self) -> Seq<T> {
        self.items@
    }

    pub closed spec fn cap(&self) -> nat {
        self.capacity as nat
    }

    pub open spec fn wf(&self) -> bool {
        self@.len() <= self.cap()
    }

    /// An empty queue with storage for `capacity` items reserved up front.
    pub fn new(capacity: usize) -> (r: Self)
        ensures
            r.wf(),
            r@ == Seq::<T>::empty(),
            r.cap() == capacity,
    {
        BoundedQueue { items: VecDeque::with_capacity(capacity), capacity }
    }

    pub fn capacity(&self) -> (r: usize)
        ensures
            r == self.cap(),
    {
        self.capacity
    }

    pub fn len(&self) -> (r: usize)
        ensures
            r == self@.len(),
    {
        self.items.len()
    }

    pub fn is_empty(&self) -> (r: bool)
        ensures
            r == (self@.len() == 0),
    {
        self.items.len() == 0
    }

    pub fn is_full(&self) -> (r: bool)
        requires
            self.wf(),
        ensures
            r == (self@.len() == self.cap()),
    {
        self.items.len() >= self.capacity
    }

    /// The item at position `i`, counting from the oldest.
    pub fn get(&self, i: usize) -> (r: &T)
        requires
            i < self@.len(),
        ensures
            *r == self@[i as int],
    {
        &self.items[i]
    }

    /// Appends `value` at the back, or reports `Full` and leaves the queue
    /// as it was.
    pub fn push(&mut self, value: T) -> (r: Result<(), QueueError>)
        requires
            old(self).wf(),
        ensures
            final(self).wf(),
            final(self).cap() == old(self).cap(),
            old(self)@.len() < old(self).cap() ==> r is Ok && final(self)@ == old(self)@.push(value),
            old(self)@.len() >= old(self).cap() ==> r == Err::<(), QueueError>(QueueError::Full)
                && final(self)@ == old(self)@,
    {
        if self.items.len() >= self.capacity {
            Err(QueueError::Full)
        } else {
            self.items.push_back(value);
            Ok(())
        }
    }

    /// Removes and returns the oldest item, or `None` when empty.
    pub fn pop(&mut self) -> (r: Option<T>)
        requires
            old(self).wf(),
        ensures
            final(self).wf(),
            final(self).cap() == old(self).cap(),
            old(self)@.len() == 0 ==> r is None && final(self)@ == old(self)@,
            old(self)@.len() > 0 ==> r == Some(old(self)@[0]) && final(self)@ == old(self)@.drop_first(),
    {
        self.items.pop_front()
    }
}

} // verus!
