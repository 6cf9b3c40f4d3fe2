//! The wake bridge: the ready queue of task identifiers, and the wake
//! operation that any context, an interrupt handler included, may invoke.
//!
//! Waking never allocates and never blocks: it scans the bounded queue once.
//! A task that is already waiting in the ready queue is not queued a second
//! time, and a wake that finds the ready queue full is dropped.
use vstd::prelude::*;
use crate::queue::BoundedQueue;

verus! {

pub struct WakeBridge {
    ready: BoundedQueue<u64>,
}

impl WakeBridge {
    /// The identifiers waiting for a poll, oldest first.
    pub closed spec fn ready(&self) -> Seq<u64> {
        self.ready@
    }

    pub closed spec fn capacity_spec(&self) -> nat {
        self.ready.cap()
    }

    pub open spec fn wf(&self) -> bool {
        &&& self.ready().len() <= self.capacity_spec()
        &&& self.ready().no_duplicates()
        &&& self.inner_wf()
    }

    pub closed spec fn inner_wf(&self) -> bool {
        self.ready.wf()
    }

    /// An empty ready queue that holds at most `capacity` identifiers.
    pub fn new(capacity: usize) -> (r: Self)
        ensures
            r.wf(),
            r.ready() == Seq::<u64>::empty(),
            r.capacity_spec() == capacity,
    {
        WakeBridge { ready: BoundedQueue::new(capacity) }
    }

    pub fn is_empty(&self) -> (r: bool)
        ensures
            r == (self.ready().len() == 0),
    {
        self.ready.is_empty()
    }

    pub fn capacity(&self) -> (r: usize)
        ensures
            r == self.capacity_spec(),
    {
        self.ready.capacity()
    }

    pub fn len(&self) -> (r: usize)
        ensures
            r == self.ready().len(),
    {
        self.ready.len()
    }

    /// Marks task `id` ready. Returns whether the ready queue changed: it
    /// does not when `id` is already waiting, nor when the queue is full.
    pub fn wake(&mut self, id: u64) -> (r: bool)
        requires
            old(self).wf(),
        ensures
            final(self).wf(),
            final(self).capacity_spec() == old(self).capacity_spec(),
            old(self).ready().contains(id) ==> !r && *final(self) == *old(self),
            !old(self).ready().contains(id) && old(self).ready().len() >= old(self).capacity_spec()
                ==> !r && *final(self) == *old(self),
            !old(self).ready().contains(id) && old(self).ready().len() < old(self).capacity_spec()
                ==> r && final(self).ready() == old(self).ready().push(id),
    {
        if self.is_queued(id) {
            return false;
        }
        if self.ready.is_full() {
            return false;
        }
        let _ = self.ready.push(id);
        proof {
            let s = old(self).ready();
            assert(self.ready() == s.push(id));
            assert forall|i: int, j: int|
                0 <= i < self.ready().len() && 0 <= j < self.ready().len() && i != j implies
                self.ready()[i] != self.ready()[j] by {
                if i < s.len() && j < s.len() {
                    assert(s[i] != s[j]);
                } else if i < s.len() {
                    assert(s.contains(s[i]));
                } else {
                    assert(s.contains(s[j]));
                }
            }
        }
        true
    }

    /// Whether `id` is waiting in the ready queue.
    pub fn is_queued(&self, id: u64) -> (r: bool)
        requires
            self.wf(),
        ensures
            r == self.ready().contains(id),
    {
        let n = self.ready.len();
        let mut i: usize = 0;
        while i < n
            invariant
                self.wf(),
                n == self.ready().len(),
                0 <= i <= n,
                forall|k: int| 0 <= k < i ==> self.ready()[k] != id,
            decreases n - i,
        {
            if *self.ready.get(i) == id {
                return true;
            }
            i = i + 1;
        }
        false
    }

    /// Takes the oldest ready identifier off the queue.
    pub fn pop_ready(&mut self) -> (r: Option<u64>)
        requires
            old(self).wf(),
        ensures
            final(self).wf(),
            final(self).capacity_spec() == old(self).capacity_spec(),
            old(self).ready().len() == 0 ==> r is None && final(self).ready() == old(self).ready(),
            old(self).ready().len() > 0 ==> r == Some(old(self).ready()[0]) && final(self).ready()
                == old(self).ready().drop_first(),
    {
        let r = self.ready.pop();
        proof {
            if old(self).ready().len() > 0 {
                let s = old(self).ready();
                assert forall|i: int, j: int|
                    0 <= i < self.ready().len() && 0 <= j < self.ready().len() && i != j implies
                    self.ready()[i] != self.ready()[j] by {
                    assert(s[i + 1] != s[j + 1]);
                }
            }
        }
        r
    }
}

} // verus!
