use kernel_core::executor::{Executor, IdleAction, SpawnError, Step, TaskId, Waker};
use kernel_core::harness::{alloc_error_handler, test_runner, AllocFailure, QemuExitCode, Testable};
use kernel_core::queue::{BoundedQueue, QueueError};
use kernel_core::wake::WakeBridge;
use kernel_core::events::EventQueue;
use std::cell::Cell;

#[test]
fn task_that_completes_at_once_is_removed_after_one_pass() {
    let mut ex = Executor::new(8, 8);
    let id = ex.spawn(0).unwrap();
    assert_eq!(id, TaskId(0));
    assert!(ex.contains_task(id));
    let done = ex.run_ready_tasks();
    assert_eq!(done, vec![id]);
    assert!(!ex.contains_task(id));
    assert!(!ex.has_waker(id));
    assert_eq!(ex.task_count(), 0);
    assert_eq!(ex.ready_len(), 0);
}

#[test]
fn task_waiting_for_an_event_completes_once_it_arrives() {
    let mut ex = Executor::new(8, 8);
    let id = ex.spawn(1).unwrap();
    assert_eq!(ex.run_ready_tasks(), Vec::<TaskId>::new());
    assert!(ex.contains_task(id));
    assert!(ex.has_waker(id));
    assert_eq!(ex.ready_len(), 0);
    assert_eq!(ex.interrupt_event(0x1e), Ok(()));
    assert_eq!(ex.ready_len(), 1);
    assert_eq!(ex.run_ready_tasks(), vec![id]);
    assert!(!ex.contains_task(id));
    assert_eq!(ex.pending_events(), 0);
}

#[test]
fn task_collects_events_in_order_across_polls() {
    let mut ex = Executor::new(8, 8);
    let id = ex.spawn(3).unwrap();
    ex.run_ready_tasks();
    ex.interrupt_event(1).unwrap();
    ex.interrupt_event(2).unwrap();
    assert_eq!(ex.run_next(), Step::Suspended(id.0));
    assert_eq!(ex.received(id), Some(vec![1, 2]));
    assert_eq!(ex.run_next(), Step::Idle);
    ex.interrupt_event(3).unwrap();
    ex.interrupt_event(4).unwrap();
    assert_eq!(ex.run_ready_tasks(), vec![id]);
    assert_eq!(ex.received(id), None);
    assert_eq!(ex.pending_events(), 1);
}

#[test]
fn tasks_are_polled_in_ready_order() {
    let mut ex = Executor::new(8, 8);
    let a = ex.spawn(0).unwrap();
    let b = ex.spawn(0).unwrap();
    let c = ex.spawn(0).unwrap();
    assert_eq!(ex.run_ready_tasks(), vec![a, b, c]);
}

#[test]
fn waking_a_queued_task_again_changes_nothing() {
    let mut ex = Executor::new(8, 8);
    let id = ex.spawn(1).unwrap();
    assert_eq!(ex.ready_len(), 1);
    assert!(!ex.wake(Waker { task: id.0 }));
    assert!(!ex.wake(Waker { task: id.0 }));
    assert_eq!(ex.ready_len(), 1);
    assert_eq!(ex.run_next(), Step::Suspended(id.0));
    assert_eq!(ex.run_next(), Step::Idle);
}

#[test]
fn stale_wake_of_a_completed_task_is_skipped() {
    let mut ex = Executor::new(8, 8);
    let id = ex.spawn(0).unwrap();
    ex.run_ready_tasks();
    assert!(ex.wake(Waker { task: id.0 }));
    assert_eq!(ex.run_next(), Step::Skipped(id.0));
    assert_eq!(ex.run_next(), Step::Idle);
}

#[test]
fn wake_in_the_halt_window_is_polled_next() {
    let mut ex = Executor::new(8, 8);
    let id = ex.spawn(1).unwrap();
    ex.run_ready_tasks();
    assert_eq!(ex.idle_action(), IdleAction::Halt);
    // the interrupt held back while interrupts were off fires with the halt
    ex.interrupt_event(7).unwrap();
    assert_eq!(ex.idle_action(), IdleAction::Run);
    assert_eq!(ex.run_ready_tasks(), vec![id]);
}

#[test]
fn spawn_into_a_full_ready_queue_fails() {
    let mut ex = Executor::new(1, 4);
    assert_eq!(ex.spawn(0), Ok(TaskId(0)));
    assert_eq!(ex.spawn(0), Err(SpawnError::ReadyQueueFull));
    assert_eq!(ex.task_count(), 1);
    ex.run_ready_tasks();
    assert_eq!(ex.spawn(0), Ok(TaskId(1)));
}

#[test]
fn wake_into_a_full_ready_queue_is_dropped() {
    let mut bridge = WakeBridge::new(1);
    assert!(bridge.wake(4));
    assert!(!bridge.wake(5));
    assert_eq!(bridge.len(), 1);
    assert_eq!(bridge.pop_ready(), Some(4));
    assert_eq!(bridge.pop_ready(), None);
}

#[test]
fn full_event_queue_drops_and_keeps_order() {
    let mut bridge = WakeBridge::new(4);
    let mut q = EventQueue::new(3);
    assert_eq!(q.push(10, &mut bridge), Ok(()));
    assert_eq!(q.push(11, &mut bridge), Ok(()));
    assert_eq!(q.push(12, &mut bridge), Ok(()));
    assert_eq!(q.push(13, &mut bridge), Err(QueueError::Full));
    assert_eq!(q.dropped(), 1);
    assert_eq!(q.len(), 3);
    assert_eq!(q.pop(), Some(10));
    assert_eq!(q.pop(), Some(11));
    assert_eq!(q.pop(), Some(12));
    assert_eq!(q.pop(), None);
    assert_eq!(q.push(14, &mut bridge), Ok(()));
    assert_eq!(q.pop(), Some(14));
    assert_eq!(bridge.len(), 0);
}

#[test]
fn event_push_wakes_the_registered_consumer() {
    let mut bridge = WakeBridge::new(4);
    let mut q = EventQueue::new(3);
    q.register_consumer(9);
    assert_eq!(q.consumer(), Some(9));
    q.push(1, &mut bridge).unwrap();
    q.push(2, &mut bridge).unwrap();
    assert_eq!(bridge.len(), 1);
    assert_eq!(bridge.pop_ready(), Some(9));
}

#[test]
fn executor_event_queue_overflow_counts_drops() {
    let mut ex = Executor::new(4, 2);
    ex.interrupt_event(1).unwrap();
    ex.interrupt_event(2).unwrap();
    assert_eq!(ex.interrupt_event(3), Err(QueueError::Full));
    assert_eq!(ex.dropped_events(), 1);
    let id = ex.spawn(2).unwrap();
    assert_eq!(ex.run_ready_tasks(), vec![id]);
    assert_eq!(ex.pending_events(), 0);
}

#[test]
fn bounded_queue_is_fifo() {
    let mut q: BoundedQueue<u64> = BoundedQueue::new(2);
    assert!(q.is_empty());
    assert_eq!(q.push(1), Ok(()));
    assert_eq!(q.push(2), Ok(()));
    assert!(q.is_full());
    assert_eq!(q.push(3), Err(QueueError::Full));
    assert_eq!(*q.get(1), 2);
    assert_eq!(q.pop(), Some(1));
    assert_eq!(q.pop(), Some(2));
    assert_eq!(q.pop(), None);
    let mut zero: BoundedQueue<u8> = BoundedQueue::new(0);
    assert_eq!(zero.push(1), Err(QueueError::Full));
}

#[test]
fn exit_codes_match_the_exit_port_protocol() {
    assert_eq!(QemuExitCode::Success.code(), 0x10);
    assert_eq!(QemuExitCode::Failed.code(), 0x11);
}

struct Counting<'a>(&'a Cell<u32>);

impl<'a> Testable for Counting<'a> {
    fn run(&self) {
        self.0.set(self.0.get() + 1);
    }
}

#[test]
fn runner_runs_every_case_and_succeeds() {
    let count = Cell::new(0);
    let cases = [Counting(&count), Counting(&count), Counting(&count)];
    assert_eq!(test_runner(&cases), QemuExitCode::Success);
    assert_eq!(count.get(), 3);
}

#[test]
fn allocation_error_hook_reports_the_request() {
    assert_eq!(alloc_error_handler(64, 8), AllocFailure { size: 64, align: 8 });
}
