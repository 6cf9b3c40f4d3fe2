//! The cooperative task executor.
//!
//! A task is an event consumer: it wants a fixed number of bytes from the
//! hardware event queue and completes once it has them all (a task that
//! wants none completes on its first poll). Each poll takes as many pending
//! events as the task still wants; if that is not enough, the task suspends
//! and registers itself as the queue's consumer, so that the next event
//! wakes it. Tasks are polled in the order in which they became ready.
use std::collections::HashMap;
use vstd::prelude::*;
use crate::events::{EventQueue, woken};
use crate::queue::QueueError;
use crate::wake::WakeBridge;

verus! {

broadcast use vstd::std_specs::hash::group_hash_axioms;

/// A task identifier; identifiers are issued in increasing order and never
/// reused.
#[derive(Debug, Clone, Copy, PartialEq, Eq, Structural)]
pub struct TaskId(pub u64);

/// The reusable wake handle of one task.
#[derive(Debug, Clone, Copy, PartialEq, Eq, Structural)]
pub struct Waker {
    pub task: u64,
}

/// Why a task could not be spawned.
#[derive(Debug, Clone, Copy, PartialEq, Eq, Structural)]
pub enum SpawnError {
    /// The ready queue has no room for the new task.
    ReadyQueueFull,
    /// Every task identifier has been issued.
    IdsExhausted,
}

/// What one scheduling step did.
#[derive(Debug, Clone, Copy, PartialEq, Eq, Structural)]
pub enum Step {
    /// The ready queue was empty.
    Idle,
    /// The identifier taken from the ready queue has no task any more.
    Skipped(u64),
    /// The task was polled and is waiting for more events.
    Suspended(u64),
    /// The task was polled, completed, and is gone.
    Completed(u64),
}

/// What the idle policy does once interrupts are off and the ready queue
/// has been looked at again.
#[derive(Debug, Clone, Copy, PartialEq, Eq, Structural)]
pub enum IdleAction {
    /// Turn interrupts back on and run the ready tasks.
    Run,
    /// Turn interrupts on and halt in one step, until the next interrupt.
    Halt,
}

pub struct Task {
    wanted: u64,
    received: Vec<u8>,
    polls: Ghost<nat>,
}

impl Task {
    pub closed spec fn wanted_spec(&self) -> nat {
        self.wanted as nat
    }

    /// The events the task has taken so far, in order.
    pub closed spec fn received_spec(&self) -> Seq<u8> {
        self.received@
    }

    /// How many times the task has been polled.
    pub closed spec fn polls_spec(&self) -> nat {
        self.polls@
    }

    pub open spec fn wf(&self) -> bool {
        self.received_spec().len() <= self.wanted_spec()
    }

    pub fn wanted(&self) -> (r: u64)
        ensures
            r == self.wanted_spec(),
    {
        self.wanted
    }

    pub fn received(&self) -> (r: &Vec<u8>)
        ensures
            r@ == self.received_spec(),
    {
        &self.received
    }
}

/// How many of the pending `events` a poll of `t` takes.
pub open spec fn take_count(t: Task, events: Seq<u8>) -> int {
    let need = t.wanted_spec() - t.received_spec().len();
    if need <= events.len() {
        need
    } else {
        events.len() as int
    }
}

/// Polls `t` once: it takes the events it still wants, and reports whether
/// it has all of them.
fn poll_task(t: &mut Task, events: &mut EventQueue) -> (done: bool)
    requires
        old(t).wf(),
        old(events).wf(),
    ensures
        final(t).wf(),
        final(events).wf(),
        final(t).wanted_spec() == old(t).wanted_spec(),
        final(t).polls_spec() == old(t).polls_spec() + 1,
        final(t).received_spec() == old(t).received_spec() + old(events).events().take(
            take_count(*old(t), old(events).events()),
        ),
        final(events).events() == old(events).events().skip(take_count(*old(t), old(events).events())),
        final(events).capacity_spec() == old(events).capacity_spec(),
        final(events).consumer_spec() == old(events).consumer_spec(),
        final(events).dropped_spec() == old(events).dropped_spec(),
        done == (final(t).received_spec().len() == final(t).wanted_spec()),
{
    let ghost e0 = old(events).events();
    let ghost r0 = old(t).received_spec();
    let ghost k = take_count(*old(t), e0);
    t.polls = Ghost(t.polls@ + 1);
    while (t.received.len() as u64) < t.wanted && events.len() > 0
        invariant
            t.wf(),
            events.wf(),
            t.wanted_spec() == old(t).wanted_spec(),
            t.polls_spec() == old(t).polls_spec() + 1,
            r0.len() <= t.received_spec().len() <= r0.len() + k,
            t.received_spec() == r0 + e0.take(t.received_spec().len() - r0.len()),
            events.events() == e0.skip(t.received_spec().len() - r0.len()),
            t.received_spec().len() - r0.len() <= e0.len(),
            r0 == old(t).received_spec(),
            e0 == old(events).events(),
            k == take_count(*old(t), e0),
            events.capacity_spec() == old(events).capacity_spec(),
            events.consumer_spec() == old(events).consumer_spec(),
            events.dropped_spec() == old(events).dropped_spec(),
        decreases t.wanted_spec() - t.received_spec().len(),
    {
        let ghost n = t.received_spec().len() - r0.len();
        proof {
            assert(n < e0.len());
            assert(t.received_spec().len() < t.wanted_spec());
            assert(n < old(t).wanted_spec() - old(t).received_spec().len());
            assert(n < k);
        }
        match events.pop() {
            None => {},
            Some(b) => {
                t.received.push(b);
                proof {
                    assert(n < e0.len());
                    assert(e0.take(n + 1) =~= e0.take(n).push(e0[n]));
                    assert(t.received_spec() =~= r0 + e0.take(n + 1));
                    assert(events.events() =~= e0.skip(n + 1));
                }
            },
        }
    }
    proof {
        let n = t.received_spec().len() - r0.len();
        assert(n == k);
    }
    t.received.len() as u64 == t.wanted
}

pub struct Executor {
    tasks: HashMap<u64, Task>,
    wakers: HashMap<u64, Waker>,
    bridge: WakeBridge,
    events: EventQueue,
    next_id: u64,
}

impl Executor {
    /// The task table.
    pub closed spec fn tasks(&self) -> Map<u64, Task> {
        self.tasks@
    }

    /// The waker cache.
    pub closed spec fn wakers(&self) -> Map<u64, Waker> {
        self.wakers@
    }

    pub closed spec fn bridge(&self) -> WakeBridge {
        self.bridge
    }

    pub closed spec fn event_queue(&self) -> EventQueue {
        self.events
    }

    /// The identifier the next spawned task gets.
    pub closed spec fn next_id_spec(&self) -> nat {
        self.next_id as nat
    }

    pub open spec fn ready(&self) -> Seq<u64> {
        self.bridge().ready()
    }

    pub open spec fn events(&self) -> Seq<u8> {
        self.event_queue().events()
    }

    pub open spec fn wf(&self) -> bool {
        &&& self.bridge().wf()
        &&& self.event_queue().wf()
        &&& forall|id: u64| #[trigger] self.tasks().contains_key(id) ==> self.tasks()[id].wf()
        &&& forall|id: u64| #[trigger] self.tasks().contains_key(id) ==> id < self.next_id_spec()
        &&& forall|id: u64| #[trigger]
            self.wakers().contains_key(id) ==> self.tasks().contains_key(id) && self.wakers()[id].task
                == id
        &&& forall|i: int| 0 <= i < self.ready().len() ==> #[trigger] self.ready()[i] < self.next_id_spec()
        &&& match self.event_queue().consumer_spec() {
            Some(id) => id < self.next_id_spec(),
            None => true,
        }
    }

    /// An executor with no tasks, a ready queue of `ready_capacity`
    /// identifiers and an event queue of `event_capacity` bytes.
    pub fn new(ready_capacity: usize, event_capacity: usize) -> (r: Self)
        ensures
            r.wf(),
            r.tasks() == Map::<u64, Task>::empty(),
            r.wakers() == Map::<u64, Waker>::empty(),
            r.ready() == Seq::<u64>::empty(),
            r.events() == Seq::<u8>::empty(),
            r.bridge().capacity_spec() == ready_capacity,
            r.event_queue().capacity_spec() == event_capacity,
            r.event_queue().consumer_spec() is None,
            r.event_queue().dropped_spec() == 0,
            r.next_id_spec() == 0,
    {
        Executor {
            tasks: HashMap::new(),
            wakers: HashMap::new(),
            bridge: WakeBridge::new(ready_capacity),
            events: EventQueue::new(event_capacity),
            next_id: 0,
        }
    }

    pub fn task_count(&self) -> (r: usize)
        ensures
            r == self.tasks().len(),
    {
        self.tasks.len()
    }

    pub fn contains_task(&self, id: TaskId) -> (r: bool)
        ensures
            r == self.tasks().contains_key(id.0),
    {
        self.tasks.contains_key(&id.0)
    }

    pub fn has_waker(&self, id: TaskId) -> (r: bool)
        ensures
            r == self.wakers().contains_key(id.0),
    {
        self.wakers.contains_key(&id.0)
    }

    /// The events task `id` has taken so far; `None` if there is no such task.
    pub fn received(&self, id: TaskId) -> (r: Option<Vec<u8>>)
        ensures
            match r {
                Some(v) => self.tasks().contains_key(id.0) && v@ == self.tasks()[id.0].received_spec(),
                None => !self.tasks().contains_key(id.0),
            },
    {
        match self.tasks.get(&id.0) {
            Some(t) => Some(t.received.clone()),
            None => None,
        }
    }

    pub fn ready_len(&self) -> (r: usize)
        ensures
            r == self.ready().len(),
    {
        self.bridge.len()
    }

    pub fn pending_events(&self) -> (r: usize)
        ensures
            r == self.events().len(),
    {
        self.events.len()
    }

    pub fn dropped_events(&self) -> (r: u64)
        ensures
            r == self.event_queue().dropped_spec(),
    {
        self.events.dropped()
    }

    /// Registers a task that completes once it has taken `wanted` events,
    /// and makes it ready.
    pub fn spawn(&mut self, wanted: u64) -> (r: Result<TaskId, SpawnError>)
        requires
            old(self).wf(),
        ensures
            final(self).wf(),
            final(self).events() == old(self).events(),
            final(self).event_queue() == old(self).event_queue(),
            final(self).wakers() == old(self).wakers(),
            final(self).bridge().capacity_spec() == old(self).bridge().capacity_spec(),
            old(self).next_id_spec() == u64::MAX ==> r == Err::<TaskId, SpawnError>(
                SpawnError::IdsExhausted,
            ) && *final(self) == *old(self),
            old(self).next_id_spec() < u64::MAX && old(self).ready().len() >= old(self).bridge().capacity_spec()
                ==> r == Err::<TaskId, SpawnError>(SpawnError::ReadyQueueFull) && *final(self) == *old(self),
            old(self).next_id_spec() < u64::MAX && old(self).ready().len() < old(self).bridge().capacity_spec()
                ==> {
                &&& r == Ok::<TaskId, SpawnError>(TaskId(old(self).next_id_spec() as u64))
                &&& final(self).next_id_spec() == old(self).next_id_spec() + 1
                &&& final(self).ready() == old(self).ready().push(old(self).next_id_spec() as u64)
                &&& final(self).tasks().remove(old(self).next_id_spec() as u64) == old(self).tasks()
                &&& final(self).tasks().contains_key(old(self).next_id_spec() as u64)
                &&& final(self).tasks()[old(self).next_id_spec() as u64].wanted_spec() == wanted
                &&& final(self).tasks()[old(self).next_id_spec() as u64].received_spec().len() == 0
                &&& final(self).tasks()[old(self).next_id_spec() as u64].polls_spec() == 0
            },
    {
        if self.next_id == u64::MAX {
            return Err(SpawnError::IdsExhausted);
        }
        if self.bridge.len() >= self.bridge.capacity() {
            return Err(SpawnError::ReadyQueueFull);
        }
        let id = self.next_id;
        proof {
            assert(!old(self).ready().contains(id)) by {
                if old(self).ready().contains(id) {
                    let i = choose|i: int| 0 <= i < old(self).ready().len() && old(self).ready()[i] == id;
                    assert(old(self).ready()[i] < old(self).next_id_spec());
                }
            }
            assert(!old(self).tasks().contains_key(id));
        }
        self.tasks.insert(id, Task { wanted, received: Vec::new(), polls: Ghost(0) });
        self.bridge.wake(id);
        self.next_id = id + 1;
        proof {
            assert(self.wakers() == old(self).wakers());
            assert(self.tasks().remove(id) =~= old(self).tasks());
            assert forall|x: u64| #[trigger] self.wakers().contains_key(x) implies self.tasks().contains_key(x)
                && self.wakers()[x].task == x by {
                assert(old(self).tasks().contains_key(x));
            }
            assert forall|x: u64| #[trigger] self.tasks().contains_key(x) implies self.tasks()[x].wf() && x < self.next_id_spec() by {
                if x != id {
                    assert(old(self).tasks().contains_key(x));
                }
            }
            assert forall|i: int| 0 <= i < self.ready().len() implies #[trigger] self.ready()[i] < self.next_id_spec() by {
                if i < old(self).ready().len() {
                    assert(self.ready()[i] == old(self).ready()[i]);
                }
            }
        }
        Ok(TaskId(id))
    }

    /// The wake handle of task `id`: marks it ready. Waking a task that is
    /// already waiting in the ready queue changes nothing.
    pub fn wake(&mut self, waker: Waker) -> (r: bool)
        requires
            old(self).wf(),
            waker.task < old(self).next_id_spec(),
        ensures
            final(self).wf(),
            woken(old(self).bridge(), final(self).bridge(), waker.task),
            r == (final(self).ready() != old(self).ready()),
            final(self).tasks() == old(self).tasks(),
            final(self).wakers() == old(self).wakers(),
            final(self).event_queue() == old(self).event_queue(),
            final(self).next_id_spec() == old(self).next_id_spec(),
            old(self).ready().contains(waker.task) ==> *final(self) == *old(self),
    {
        let r = self.bridge.wake(waker.task);
        proof {
            assert(self.tasks() == old(self).tasks());
            assert(self.wakers() == old(self).wakers());
            assert forall|i: int| 0 <= i < self.ready().len() implies #[trigger] self.ready()[i] < self.next_id_spec() by {
                if i < old(self).ready().len() {
                    assert(self.ready()[i] == old(self).ready()[i]);
                }
            }
            if r {
                assert(self.ready().len() != old(self).ready().len());
            }
        }
        r
    }

    /// The body of the event interrupt handler: queues `value` and wakes the
    /// consumer task; when the event queue is full the event is dropped.
    pub fn interrupt_event(&mut self, value: u8) -> (r: Result<(), QueueError>)
        requires
            old(self).wf(),
        ensures
            final(self).wf(),
            final(self).tasks() == old(self).tasks(),
            final(self).wakers() == old(self).wakers(),
            final(self).next_id_spec() == old(self).next_id_spec(),
            final(self).event_queue().consumer_spec() == old(self).event_queue().consumer_spec(),
            old(self).events().len() < old(self).event_queue().capacity_spec() ==> {
                &&& r is Ok
                &&& final(self).events() == old(self).events().push(value)
                &&& final(self).event_queue().dropped_spec() == old(self).event_queue().dropped_spec()
                &&& match old(self).event_queue().consumer_spec() {
                    None => final(self).bridge() == old(self).bridge(),
                    Some(id) => woken(old(self).bridge(), final(self).bridge(), id),
                }
            },
            old(self).events().len() >= old(self).event_queue().capacity_spec() ==> {
                &&& r == Err::<(), QueueError>(QueueError::Full)
                &&& final(self).events() == old(self).events()
                &&& final(self).event_queue().dropped_spec() == if old(self).event_queue().dropped_spec()
                    < u64::MAX {
                    old(self).event_queue().dropped_spec() + 1
                } else {
                    old(self).event_queue().dropped_spec()
                }
                &&& final(self).bridge() == old(self).bridge()
            },
    {
        let r = self.events.push(value, &mut self.bridge);
        proof {
            assert(self.tasks() == old(self).tasks());
            assert(self.wakers() == old(self).wakers());
            assert(self.next_id_spec() == old(self).next_id_spec());
            assert forall|i: int| 0 <= i < self.ready().len() implies #[trigger] self.ready()[i] < self.next_id_spec() by {
                if i < old(self).ready().len() {
                    assert(self.ready()[i] == old(self).ready()[i]);
                }
            }
        }
        r
    }

    /// Decides, with interrupts off, whether to halt: only when no task is
    /// ready. A wake that arrives before this check is seen here; one that
    /// arrives after it is held by the processor until the halt, which it
    /// then ends.
    pub fn idle_action(&self) -> (r: IdleAction)
        ensures
            r == (if self.ready().len() == 0 {
                IdleAction::Halt
            } else {
                IdleAction::Run
            }),
    {
        if self.bridge.is_empty() {
            IdleAction::Halt
        } else {
            IdleAction::Run
        }
    }

    /// Takes the oldest ready identifier and polls its task, if the task
    /// still exists. The task's waker is made on its first poll and kept
    /// until the task completes.
    pub fn run_next(&mut self) -> (r: Step)
        requires
            old(self).wf(),
        ensures
            final(self).wf(),
            stepped(*old(self), *final(self), r),
    {
        let popped = self.bridge.pop_ready();
        proof {
            assert(self.tasks() == old(self).tasks());
            assert(self.wakers() == old(self).wakers());
            assert forall|i: int| 0 <= i < self.ready().len() implies #[trigger] self.ready()[i] < self.next_id_spec() by {
                assert(self.ready()[i] == old(self).ready()[i + 1]);
            }
        }
        match popped {
            None => Step::Idle,
            Some(id) => {
                match self.tasks.remove(&id) {
                    None => {
                        assert(self.tasks() =~= old(self).tasks());
                        Step::Skipped(id)
                    },
                    Some(mut t) => {
                        let ghost pre = *self;
                        if !self.wakers.contains_key(&id) {
                            self.wakers.insert(id, Waker { task: id });
                        }
                        assert(t.wf());
                        let done = poll_task(&mut t, &mut self.events);
                        if done {
                            self.wakers.remove(&id);
                            proof {
                                assert(self.wakers() =~= old(self).wakers().remove(id));
                                assert(self.tasks() == old(self).tasks().remove(id));
                            }
                            Step::Completed(id)
                        } else {
                            self.events.register_consumer(id);
                            self.tasks.insert(id, t);
                            proof {
                                assert(self.tasks().remove(id) =~= old(self).tasks().remove(id));
                                assert(self.wakers().remove(id) =~= old(self).wakers().remove(id));
                                assert forall|x: u64| #[trigger] self.wakers().contains_key(x) implies self.tasks().contains_key(x)
                                    && self.wakers()[x].task == x by {
                                    if x != id {
                                        assert(old(self).wakers().contains_key(x));
                                        assert(self.wakers().remove(id)[x] == self.wakers()[x]);
                                    }
                                }
                                assert forall|x: u64| #[trigger] self.tasks().contains_key(x) implies self.tasks()[x].wf() && x < self.next_id_spec() by {
                                    if x != id {
                                        assert(old(self).tasks().contains_key(x));
                                    }
                                }
                            }
                            Step::Suspended(id)
                        }
                    },
                }
            },
        }
    }

    /// Polls ready tasks until the ready queue is empty, and returns the
    /// tasks that completed, in the order they did. The pass is exactly one
    /// step per identifier that was ready when it began, taken in queue
    /// order, each step starting where the one before it left off.
    pub fn run_ready_tasks(&mut self) -> (done: Vec<TaskId>)
        requires
            old(self).wf(),
        ensures
            final(self).wf(),
            ran_ready(*old(self), *final(self)),
            forall|id: u64|
                (old(self).tasks().contains_key(id) && !final(self).tasks().contains_key(id)) <==> done@.contains(
                    TaskId(id),
                ),
            exists|trace: Seq<Executor>, steps: Seq<Step>|
                pass_trace(*old(self), *final(self), trace, steps, done@),
    {
        let ghost before = *self;
        let ghost mut p: int = 0;
        let ghost mut trace: Seq<Executor> = seq![*self];
        let ghost mut steps: Seq<Step> = Seq::empty();
        let mut done: Vec<TaskId> = Vec::new();
        while !self.bridge.is_empty()
            invariant
                self.wf(),
                before.wf(),
                0 <= p <= before.ready().len(),
                self.ready() == before.ready().skip(p),
                self.next_id_spec() == before.next_id_spec(),
                self.bridge().capacity_spec() == before.bridge().capacity_spec(),
                forall|id: u64| #[trigger] self.tasks().contains_key(id) ==> before.tasks().contains_key(id),
                forall|id: u64|
                    #[trigger] before.tasks().contains_key(id) && !before.ready().take(p).contains(id)
                        ==> self.tasks().contains_key(id) && self.tasks()[id] == before.tasks()[id],
                forall|id: u64|
                    #[trigger] before.tasks().contains_key(id) && before.ready().take(p).contains(id)
                        ==> !self.tasks().contains_key(id) || self.tasks()[id].polls_spec()
                        == before.tasks()[id].polls_spec() + 1,
                forall|id: u64|
                    (#[trigger] before.tasks().contains_key(id) && !self.tasks().contains_key(id))
                        <==> done@.contains(TaskId(id)),
                trace.len() == p + 1,
                steps.len() == p,
                trace[0] == before,
                trace[p] == *self,
                forall|i: int| 0 <= i < p ==> stepped(trace[i], trace[i + 1], #[trigger] steps[i]),
                forall|i: int| 0 <= i <= p ==> (#[trigger] trace[i]).ready() == before.ready().skip(i),
                done@ == completed_ids(steps),
            decreases self.ready().len(),
        {
            let ghost cur = *self;
            let ghost cur_done = done@;
            let step = self.run_next();
            match step {
                Step::Completed(id) => {
                    done.push(TaskId(id));
                },
                _ => {},
            }
            proof {
                let id0 = cur.ready()[0];
                let s = before.ready();
                let q = p + 1;
                assert(id0 == s[p]);
                assert(s.take(q) =~= s.take(p).push(id0));
                assert(s.take(q)[p] == id0);
                assert(s.take(q).contains(id0));
                assert(!s.take(p).contains(id0)) by {
                    if s.take(p).contains(id0) {
                        let j = choose|j: int| 0 <= j < p && s.take(p)[j] == id0;
                        assert(s[j] == s[p]);
                    }
                }
                assert(self.ready() =~= s.skip(q));
                assert(self.tasks().remove(id0) =~= cur.tasks().remove(id0));
                if before.tasks().contains_key(id0) {
                    assert(cur.tasks().contains_key(id0));
                    assert(cur.tasks()[id0] == before.tasks()[id0]);
                }
                assert(!cur_done.contains(TaskId(id0)));
                assert forall|id: u64| id != id0 implies (self.tasks().contains_key(id) == cur.tasks().contains_key(id)
                    && (self.tasks().contains_key(id) ==> self.tasks()[id] == cur.tasks()[id])
                    && (s.take(q).contains(id) == s.take(p).contains(id))) by {
                    assert(self.tasks().remove(id0).contains_key(id) == self.tasks().contains_key(id));
                    if self.tasks().contains_key(id) {
                        assert(self.tasks().remove(id0)[id] == self.tasks()[id]);
                        assert(cur.tasks().remove(id0)[id] == cur.tasks()[id]);
                    }
                    assert(cur.tasks().remove(id0).contains_key(id) == cur.tasks().contains_key(id));
                    if s.take(q).contains(id) {
                        let j = choose|j: int| 0 <= j < q && s.take(q)[j] == id;
                        assert(s.take(p)[j] == id);
                    }
                    if s.take(p).contains(id) {
                        let j = choose|j: int| 0 <= j < p && s.take(p)[j] == id;
                        assert(s.take(q)[j] == id);
                    }
                }
                assert forall|id: u64| id != id0 implies (done@.contains(TaskId(id)) == cur_done.contains(TaskId(id))) by {
                    if done@.contains(TaskId(id)) {
                        let j = choose|j: int| 0 <= j < done@.len() && done@[j] == TaskId(id);
                        assert(j < cur_done.len());
                        assert(cur_done[j] == TaskId(id));
                    }
                    if cur_done.contains(TaskId(id)) {
                        let j = choose|j: int| 0 <= j < cur_done.len() && cur_done[j] == TaskId(id);
                        assert(done@[j] == TaskId(id));
                    }
                }
                if step is Completed {
                    assert(done@[done@.len() - 1] == TaskId(id0));
                } else {
                    assert(done@ == cur_done);
                }
                assert forall|id: u64| #[trigger] self.tasks().contains_key(id) implies before.tasks().contains_key(id) by {
                    if id != id0 {
                        assert(cur.tasks().contains_key(id));
                    }
                }
                assert forall|id: u64|
                    #[trigger] before.tasks().contains_key(id) && !before.ready().take(q).contains(id)
                        implies self.tasks().contains_key(id) && self.tasks()[id] == before.tasks()[id] by {
                    assert(id != id0);
                }
                assert forall|id: u64|
                    #[trigger] before.tasks().contains_key(id) && before.ready().take(q).contains(id)
                        implies !self.tasks().contains_key(id) || self.tasks()[id].polls_spec()
                        == before.tasks()[id].polls_spec() + 1 by {
                    if id != id0 {
                        assert(s.take(p).contains(id));
                    }
                }
                assert forall|id: u64|
                    (#[trigger] before.tasks().contains_key(id) && !self.tasks().contains_key(id))
                        <==> done@.contains(TaskId(id)) by {
                    if id == id0 {
                        if done@.contains(TaskId(id)) {
                            let j = choose|j: int| 0 <= j < done@.len() && done@[j] == TaskId(id);
                            if j < cur_done.len() {
                                assert(cur_done[j] == TaskId(id));
                            }
                        }
                    }
                }
                let old_steps = steps;
                trace = trace.push(*self);
                steps = steps.push(step);
                assert(steps.drop_last() =~= old_steps);
                assert(steps[p] == step);
                assert(trace[p] == cur);
                assert(trace[q] == *self);
                p = q;
            }
        }
        proof {
            assert(before.ready().take(p) =~= before.ready());
            assert(p == before.ready().len());
            assert(pass_trace(before, *self, trace, steps, done@));
        }
        done
    }
}

/// The tasks that completed in `steps`, in order.
pub open spec fn completed_ids(steps: Seq<Step>) -> Seq<TaskId>
    decreases steps.len(),
{
    if steps.len() == 0 {
        Seq::empty()
    } else {
        let rest = completed_ids(steps.drop_last());
        match steps.last() {
            Step::Completed(id) => rest.push(TaskId(id)),
            _ => rest,
        }
    }
}

/// `trace` and `steps` record a pass from `before` to `after`: one step for
/// each identifier that was ready at the start, in queue order, each from
/// the state the previous step left; `done` lists the completed tasks.
pub open spec fn pass_trace(
    before: Executor,
    after: Executor,
    trace: Seq<Executor>,
    steps: Seq<Step>,
    done: Seq<TaskId>,
) -> bool {
    &&& steps.len() == before.ready().len()
    &&& trace.len() == steps.len() + 1
    &&& trace[0] == before
    &&& trace[steps.len() as int] == after
    &&& forall|i: int| 0 <= i < steps.len() ==> stepped(trace[i], trace[i + 1], #[trigger] steps[i])
    &&& forall|i: int| 0 <= i <= steps.len() ==> (#[trigger] trace[i]).ready() == before.ready().skip(i)
    &&& done == completed_ids(steps)
}

/// `after` is `before` once one scheduling step has returned `r`.
pub open spec fn stepped(before: Executor, after: Executor, r: Step) -> bool {
    &&& after.next_id_spec() == before.next_id_spec()
    &&& after.bridge().capacity_spec() == before.bridge().capacity_spec()
    &&& if before.ready().len() == 0 {
        &&& r == Step::Idle
        &&& after.ready() == before.ready()
        &&& after.tasks() == before.tasks()
        &&& after.wakers() == before.wakers()
        &&& after.event_queue() == before.event_queue()
    } else {
        let id = before.ready()[0];
        &&& after.ready() == before.ready().drop_first()
        &&& if !before.tasks().contains_key(id) {
            &&& r == Step::Skipped(id)
            &&& after.tasks() == before.tasks()
            &&& after.wakers() == before.wakers()
            &&& after.event_queue() == before.event_queue()
        } else {
            let t = before.tasks()[id];
            let k = take_count(t, before.events());
            let got = t.received_spec() + before.events().take(k);
            &&& after.events() == before.events().skip(k)
            &&& after.event_queue().capacity_spec() == before.event_queue().capacity_spec()
            &&& after.event_queue().dropped_spec() == before.event_queue().dropped_spec()
            &&& if got.len() == t.wanted_spec() {
                &&& r == Step::Completed(id)
                &&& after.tasks() == before.tasks().remove(id)
                &&& after.wakers() == before.wakers().remove(id)
                &&& after.event_queue().consumer_spec() == before.event_queue().consumer_spec()
            } else {
                &&& r == Step::Suspended(id)
                &&& after.tasks().contains_key(id)
                &&& after.tasks().remove(id) == before.tasks().remove(id)
                &&& after.tasks()[id].received_spec() == got
                &&& after.tasks()[id].wanted_spec() == t.wanted_spec()
                &&& after.tasks()[id].polls_spec() == t.polls_spec() + 1
                &&& after.wakers().contains_key(id)
                &&& after.wakers()[id] == (Waker { task: id })
                &&& after.wakers().remove(id) == before.wakers().remove(id)
                &&& after.event_queue().consumer_spec() == Some(id)
            }
        }
    }
}

/// `after` is `before` once every ready task has been polled: the ready
/// queue is empty, no task was added, tasks that were not ready are as
/// they were, and each task that was ready was polled once or completed.
pub open spec fn ran_ready(before: Executor, after: Executor) -> bool {
    &&& after.ready().len() == 0
    &&& after.next_id_spec() == before.next_id_spec()
    &&& after.bridge().capacity_spec() == before.bridge().capacity_spec()
    &&& forall|id: u64| #[trigger] after.tasks().contains_key(id) ==> before.tasks().contains_key(id)
    &&& forall|id: u64|
        #[trigger] before.tasks().contains_key(id) && !before.ready().contains(id)
            ==> after.tasks().contains_key(id) && after.tasks()[id] == before.tasks()[id]
    &&& forall|id: u64|
        #[trigger] before.tasks().contains_key(id) && before.ready().contains(id)
            ==> !after.tasks().contains_key(id) || after.tasks()[id].polls_spec()
            == before.tasks()[id].polls_spec() + 1
}

/// A second wake of a task that the first wake left waiting in the ready
/// queue changes nothing: the queue never holds a task twice.
pub proof fn lemma_repeated_wake_is_harmless(a: WakeBridge, b: WakeBridge, c: WakeBridge, id: u64)
    requires
        a.wf(),
        woken(a, b, id),
        woken(b, c, id),
        b.ready().contains(id),
    ensures
        c.ready() == b.ready(),
{
}

/// A wake that arrives while the idle policy is halting (the ready queue
/// was seen empty with interrupts off) is not lost: the next pass over the
/// ready tasks polls the woken task, or completes it.
pub proof fn lemma_wake_during_halt_is_polled(idle: Executor, woke: Executor, after: Executor, id: u64)
    requires
        idle.wf(),
        idle.ready().len() == 0,
        idle.bridge().capacity_spec() > 0,
        idle.tasks().contains_key(id),
        woken(idle.bridge(), woke.bridge(), id),
        woke.tasks() == idle.tasks(),
        ran_ready(woke, after),
    ensures
        !after.tasks().contains_key(id) || after.tasks()[id].polls_spec() == idle.tasks()[id].polls_spec()
            + 1,
{
    assert(woke.ready() == seq![id]);
    assert(woke.ready()[0] == id);
    assert(woke.tasks().contains_key(id));
}

/// The task a step dealt with, if it took one off the ready queue.
pub open spec fn step_task(s: Step) -> Option<u64> {
    match s {
        Step::Idle => None,
        Step::Skipped(id) => Some(id),
        Step::Suspended(id) => Some(id),
        Step::Completed(id) => Some(id),
    }
}

/// A pass deals with the ready identifiers first-ready, first-polled: its
/// `i`-th step is about the `i`-th identifier that was ready when it began.
pub proof fn lemma_pass_follows_ready_order(
    before: Executor,
    after: Executor,
    trace: Seq<Executor>,
    steps: Seq<Step>,
    done: Seq<TaskId>,
    i: int,
)
    requires
        pass_trace(before, after, trace, steps, done),
        0 <= i < steps.len(),
    ensures
        step_task(steps[i]) == Some(before.ready()[i]),
{
    assert(stepped(trace[i], trace[i + 1], steps[i]));
    assert(trace[i].ready() == before.ready().skip(i));
    assert(trace[i].ready()[0] == before.ready()[i]);
}

/// A pass over one ready task: the task takes the events it still wants.
/// If that is all of them it completes, leaving the task table and the
/// waker cache, and is the one task reported done; otherwise it stays with
/// the events it got, keeps its waker, and is the event queue's consumer.
pub proof fn lemma_single_task_pass(
    before: Executor,
    after: Executor,
    trace: Seq<Executor>,
    steps: Seq<Step>,
    done: Seq<TaskId>,
    id: u64,
)
    requires
        pass_trace(before, after, trace, steps, done),
        before.ready() == seq![id],
        before.tasks().contains_key(id),
    ensures
        ({
            let t = before.tasks()[id];
            let k = take_count(t, before.events());
            let got = t.received_spec() + before.events().take(k);
            &&& after.events() == before.events().skip(k)
            &&& after.ready().len() == 0
            &&& got.len() == t.wanted_spec() ==> {
                &&& !after.tasks().contains_key(id)
                &&& !after.wakers().contains_key(id)
                &&& after.tasks() == before.tasks().remove(id)
                &&& done == seq![TaskId(id)]
            }
            &&& got.len() != t.wanted_spec() ==> {
                &&& after.tasks().contains_key(id)
                &&& after.tasks()[id].received_spec() == got
                &&& after.wakers().contains_key(id)
                &&& after.event_queue().consumer_spec() == Some(id)
                &&& done == Seq::<TaskId>::empty()
            }
        }),
{
    assert(stepped(trace[0], trace[1], steps[0]));
    assert(steps.drop_last() =~= Seq::<Step>::empty());
    assert(completed_ids(Seq::<Step>::empty()) == Seq::<TaskId>::empty());
    assert(trace[1].ready() == before.ready().skip(1));
}

} // verus!
