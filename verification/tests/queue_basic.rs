use ready_queue::PollNext;
use ready_queue::ReadyQueue;
use ready_queue::Task;

#[test]
fn empty_queue() {
    let mut q: ReadyQueue<u64> = ReadyQueue::new();
    assert_eq!(q.len(), 0);
    assert!(q.is_empty());
    assert!(matches!(q.poll_next(), PollNext::ReadyNone));
    assert_eq!(q.len(), 0);
}

#[test]
fn single_immediate_task() {
    let mut q: ReadyQueue<u64> = ReadyQueue::new();
    q.push(Task::ready(42));
    assert_eq!(q.len(), 1);
    match q.poll_next() {
        PollNext::ReadySome(v) => assert_eq!(v, 42),
        _ => panic!("expected the task's output"),
    }
    assert_eq!(q.len(), 0);
    assert!(matches!(q.poll_next(), PollNext::ReadyNone));
    assert_eq!(q.len(), 0);
}

#[test]
fn output_yielded_exactly_once() {
    let mut q: ReadyQueue<String> = ReadyQueue::new();
    q.push(Task::ready(String::from("only")));
    match q.poll_next() {
        PollNext::ReadySome(v) => assert_eq!(v, "only"),
        _ => panic!("expected the task's output"),
    }
    assert!(matches!(q.poll_next(), PollNext::ReadyNone));
    assert!(matches!(q.poll_next(), PollNext::ReadyNone));
}

#[test]
fn pending_then_woken() {
    let mut q: ReadyQueue<&'static str> = ReadyQueue::new();
    let id = q.push(Task::pending(1, "ok"));
    assert!(matches!(q.poll_next(), PollNext::Pending));
    assert_eq!(q.len(), 1);
    assert!(!q.wake_signalled());
    // the stashed wake handle fires
    q.notify(id);
    assert!(q.wake_signalled());
    match q.poll_next() {
        PollNext::ReadySome(v) => assert_eq!(v, "ok"),
        _ => panic!("expected the task's output after the wake"),
    }
    assert_eq!(q.len(), 0);
}

#[test]
fn wake_on_queued_node_is_noop() {
    let mut q: ReadyQueue<u64> = ReadyQueue::new();
    let id = q.push(Task::pending(1, 5));
    assert!(matches!(q.poll_next(), PollNext::Pending));
    q.notify(id);
    // the node is already queued: a second wake changes nothing
    q.notify(id);
    match q.poll_next() {
        PollNext::ReadySome(v) => assert_eq!(v, 5),
        _ => panic!("expected the task's output"),
    }
    // exactly one pending re-poll happened; nothing lingers
    assert!(matches!(q.poll_next(), PollNext::ReadyNone));
    assert_eq!(q.len(), 0);
    assert_eq!(q.live_nodes(), 0);
}

#[test]
fn many_wakes_one_task() {
    let mut q: ReadyQueue<u64> = ReadyQueue::new();
    let id = q.push(Task::pending(1, 7));
    assert!(matches!(q.poll_next(), PollNext::Pending));
    // a thousand producers race to wake the same node: the first enqueues,
    // the rest find the flag set
    for _ in 0..1000 {
        q.notify(id);
    }
    match q.poll_next() {
        PollNext::ReadySome(v) => assert_eq!(v, 7),
        _ => panic!("expected the task's output"),
    }
    assert!(matches!(q.poll_next(), PollNext::ReadyNone));
    // no memory is leaked
    assert_eq!(q.live_nodes(), 0);
}

#[test]
fn repolls_counted() {
    let mut q: ReadyQueue<u64> = ReadyQueue::new();
    let id = q.push(Task::pending(3, 8));
    assert!(matches!(q.poll_next(), PollNext::Pending));
    q.notify(id);
    assert!(matches!(q.poll_next(), PollNext::Pending));
    q.notify(id);
    assert!(matches!(q.poll_next(), PollNext::Pending));
    q.notify(id);
    match q.poll_next() {
        PollNext::ReadySome(v) => assert_eq!(v, 8),
        _ => panic!("expected the task's output on its fourth poll"),
    }
    assert_eq!(q.len(), 0);
}

#[test]
fn reentrant_wake_is_polled_again() {
    let mut q: ReadyQueue<u64> = ReadyQueue::new();
    q.push(Task::reentrant(2, 9));
    // the task wakes itself from within each poll, so one consumer poll
    // drives it through both pending polls to completion
    match q.poll_next() {
        PollNext::ReadySome(v) => assert_eq!(v, 9),
        _ => panic!("a self-waking task must complete before pending is reported"),
    }
    assert_eq!(q.len(), 0);
    assert!(matches!(q.poll_next(), PollNext::ReadyNone));
    assert_eq!(q.live_nodes(), 0);
}

#[test]
fn two_tasks_complete_in_wake_order() {
    let mut q: ReadyQueue<u64> = ReadyQueue::new();
    let a = q.push(Task::pending(1, 10));
    let b = q.push(Task::pending(1, 20));
    assert_eq!(q.len(), 2);
    assert!(matches!(q.poll_next(), PollNext::Pending));
    // b is woken first, then a
    q.notify(b);
    q.notify(a);
    match q.poll_next() {
        PollNext::ReadySome(v) => assert_eq!(v, 20),
        _ => panic!("expected the first woken task's output"),
    }
    match q.poll_next() {
        PollNext::ReadySome(v) => assert_eq!(v, 10),
        _ => panic!("expected the second woken task's output"),
    }
    assert!(matches!(q.poll_next(), PollNext::ReadyNone));
}
