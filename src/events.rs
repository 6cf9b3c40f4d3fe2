//! The hardware event queue: a bounded FIFO of raw event bytes (such as
//! keyboard scancodes) filled from interrupt context and drained by one
//! consumer task. A push into a full queue drops the event and counts it.
use vstd::prelude::*;
use crate::queue::{BoundedQueue, QueueError};
use crate::wake::WakeBridge;

verus! {

pub struct EventQueue {
    items: BoundedQueue<u8>,
    consumer: Option<u64>,
    dropped: u64,
}

impl EventQueue {
    /// The pending events, oldest first.
    pub closed spec fn events(&self) -> Seq<u8> {
        self.items@
    }

    pub closed spec fn capacity_spec(&self) -> nat {
        self.items.cap()
    }

    /// The task woken when an event arrives.
    pub closed spec fn consumer_spec(&self) -> Option<u64> {
        self.consumer
    }

    /// How many events were dropped because the queue was full.
    pub closed spec fn dropped_spec(&self) -> nat {
        self.dropped as nat
    }

    pub open spec fn wf(&self) -> bool {
        self.events().len() <= self.capacity_spec()
    }

    pub fn new(capacity: usize) -> (r: Self)
        ensures
            r.wf(),
            r.events() == Seq::<u8>::empty(),
            r.capacity_spec() == capacity,
            r.consumer_spec() is None,
            r.dropped_spec() == 0,
    {
        EventQueue { items: BoundedQueue::new(capacity), consumer: None, dropped: 0 }
    }

    pub fn len(&self) -> (r: usize)
        ensures
            r == self.events().len(),
    {
        self.items.len()
    }

    pub fn dropped(&self) -> (r: u64)
        ensures
            r == self.dropped_spec(),
    {
        self.dropped
    }

    pub fn consumer(&self) -> (r: Option<u64>)
        ensures
            r == self.consumer_spec(),
    {
        self.consumer
    }

    /// Names the task to wake when an event arrives.
    pub fn register_consumer(&mut self, id: u64)
        ensures
            final(self).events() == old(self).events(),
            final(self).capacity_spec() == old(self).capacity_spec(),
            final(self).dropped_spec() == old(self).dropped_spec(),
            final(self).consumer_spec() == Some(id),
    {
        self.consumer = Some(id);
    }

    /// Called from the interrupt handler. Appends `value` and wakes the
    /// consumer through `bridge`; when the queue is full the event is
    /// dropped, the drop counter goes up (it stops at `u64::MAX`) and
    /// nobody is woken.
    pub fn push(&mut self, value: u8, bridge: &mut WakeBridge) -> (r: Result<(), QueueError>)
        requires
            old(self).wf(),
            old(bridge).wf(),
        ensures
            final(self).wf(),
            final(bridge).wf(),
            final(self).capacity_spec() == old(self).capacity_spec(),
            final(self).consumer_spec() == old(self).consumer_spec(),
            final(bridge).capacity_spec() == old(bridge).capacity_spec(),
            old(self).events().len() < old(self).capacity_spec() ==> {
                &&& r is Ok
                &&& final(self).events() == old(self).events().push(value)
                &&& final(self).dropped_spec() == old(self).dropped_spec()
                &&& match old(self).consumer_spec() {
                    None => *final(bridge) == *old(bridge),
                    Some(id) => woken(*old(bridge), *final(bridge), id),
                }
            },
            old(self).events().len() >= old(self).capacity_spec() ==> {
                &&& r == Err::<(), QueueError>(QueueError::Full)
                &&& final(self).events() == old(self).events()
                &&& final(self).dropped_spec() == if old(self).dropped_spec() < u64::MAX {
                    old(self).dropped_spec() + 1
                } else {
                    old(self).dropped_spec()
                }
                &&& *final(bridge) == *old(bridge)
            },
    {
        match self.items.push(value) {
            Err(e) => {
                if self.dropped < u64::MAX {
                    self.dropped = self.dropped + 1;
                }
                Err(e)
            },
            Ok(()) => {
                match self.consumer {
                    None => {},
                    Some(id) => {
                        bridge.wake(id);
                    },
                }
                Ok(())
            },
        }
    }

    /// Takes the oldest event, if any.
    pub fn pop(&mut self) -> (r: Option<u8>)
        requires
            old(self).wf(),
        ensures
            final(self).wf(),
            final(self).capacity_spec() == old(self).capacity_spec(),
            final(self).consumer_spec() == old(self).consumer_spec(),
            final(self).dropped_spec() == old(self).dropped_spec(),
            old(self).events().len() == 0 ==> r is None && final(self).events() == old(self).events(),
            old(self).events().len() > 0 ==> r == Some(old(self).events()[0]) && final(self).events()
                == old(self).events().drop_first(),
    {
        self.items.pop()
    }
}

/// `after` is `before` once task `id` has been woken: it joined the back of
/// the ready queue, unless it was already waiting there or the queue was full.
pub open spec fn woken(before: WakeBridge, after: WakeBridge, id: u64) -> bool {
    &&& after.capacity_spec() == before.capacity_spec()
    &&& after.ready() == if before.ready().contains(id) || before.ready().len()
        >= before.capacity_spec() {
        before.ready()
    } else {
        before.ready().push(id)
    }
}

} // verus!
