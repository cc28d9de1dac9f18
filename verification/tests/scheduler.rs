use slate::keyboard::PollNext;
use slate::keyboard::ScancodeQueue;
use slate::task::Executor;
use slate::task::Task;
use slate::task::TaskProgram;
use slate::task::Waker;

fn consumer() -> Task {
    Task::new(TaskProgram::KeyboardConsumer { observed: Vec::new() })
}

#[test]
fn queued_scancodes_are_observed_in_hardware_order() {
    // Push a, b, c with nobody registered, then let one task drain.
    let mut queue = ScancodeQueue::new(8);
    assert_eq!(queue.push(0x1E), None);
    assert_eq!(queue.push(0x30), None);
    assert_eq!(queue.push(0x2E), None);
    let mut executor = Executor::new();
    let id = executor.spawn(consumer());
    executor.run_ready_tasks(&mut queue);
    assert_eq!(executor.task_observed(id).unwrap(), vec![0x1E, 0x30, 0x2E]);
    assert!(queue.is_empty());
}

#[test]
fn a_push_wakes_exactly_the_suspended_consumer() {
    let mut queue = ScancodeQueue::new(8);
    let mut executor = Executor::new();
    let id = executor.spawn(consumer());
    let other = executor.spawn(Task::new(TaskProgram::CountDown { polls_left: 3 }));
    // The consumer polls the empty queue and suspends with its waker
    // registered; the other task suspends without one.
    executor.run_ready_tasks(&mut queue);
    assert_eq!(executor.task_observed(id).unwrap(), Vec::<u8>::new());
    // The interrupt handler deposits one byte and gets the waker back.
    let woken = queue.push(0x10);
    assert_eq!(woken, Some(Waker { task_id: id }));
    executor.wake(woken.unwrap());
    executor.run_ready_tasks(&mut queue);
    assert_eq!(executor.task_observed(id).unwrap(), vec![0x10]);
    // Only the woken task ran again; both tasks are still live.
    assert_eq!(executor.task_count(), 2);
    assert!(executor.contains_task(other));
}

#[test]
fn completed_tasks_leave_the_table() {
    // A and C complete on their first poll, B suspends.
    let mut executor = Executor::new();
    let mut queue = ScancodeQueue::new(4);
    let a = executor.spawn(Task::new(TaskProgram::CountDown { polls_left: 0 }));
    let b = executor.spawn(Task::new(TaskProgram::CountDown { polls_left: 5 }));
    let c = executor.spawn(Task::new(TaskProgram::CountDown { polls_left: 0 }));
    assert_eq!(executor.task_count(), 3);
    executor.run_ready_tasks(&mut queue);
    assert_eq!(executor.task_count(), 1);
    assert!(!executor.contains_task(a));
    assert!(executor.contains_task(b));
    assert!(!executor.contains_task(c));
}

#[test]
fn overflow_keeps_the_oldest_bytes_and_counts_the_drop() {
    // Capacity 4, five pushes: the newest byte is dropped and counted.
    let mut queue = ScancodeQueue::new(4);
    for b in [1u8, 2, 3, 4] {
        assert_eq!(queue.push(b), None);
    }
    assert_eq!(queue.push(5), None);
    assert_eq!(queue.dropped_bytes(), 1);
    assert_eq!(queue.len(), 4);
    let mut executor = Executor::new();
    let id = executor.spawn(consumer());
    executor.run_ready_tasks(&mut queue);
    assert_eq!(executor.task_observed(id).unwrap(), vec![1, 2, 3, 4]);
}

#[test]
fn stale_wakes_are_ignored() {
    let mut executor = Executor::new();
    let mut queue = ScancodeQueue::new(4);
    let a = executor.spawn(Task::new(TaskProgram::CountDown { polls_left: 0 }));
    executor.run_ready_tasks(&mut queue);
    assert!(!executor.contains_task(a));
    // The task is gone; waking its identifier is a no-op.
    executor.wake(Waker { task_id: a });
    executor.wake(Waker { task_id: 999 });
    executor.run_ready_tasks(&mut queue);
    assert_eq!(executor.task_count(), 0);
}

#[test]
fn identifiers_are_never_reused() {
    let mut executor = Executor::new();
    let mut queue = ScancodeQueue::new(4);
    let a = executor.spawn(Task::new(TaskProgram::CountDown { polls_left: 0 }));
    executor.run_ready_tasks(&mut queue);
    let b = executor.spawn(Task::new(TaskProgram::CountDown { polls_left: 0 }));
    assert_ne!(a, b);
}

#[test]
fn poll_next_pops_in_order_and_suspends_when_empty() {
    let mut queue = ScancodeQueue::new(4);
    queue.push(7);
    queue.push(9);
    let w = Waker { task_id: 1 };
    assert_eq!(queue.poll_next(w), PollNext::Ready(7));
    assert_eq!(queue.poll_next(w), PollNext::Ready(9));
    assert_eq!(queue.poll_next(w), PollNext::Pending);
    // The registered waker comes back on the next push.
    assert_eq!(queue.push(3), Some(w));
    // It was consumed: a further push wakes nobody.
    assert_eq!(queue.push(4), None);
}
