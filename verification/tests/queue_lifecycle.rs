use ready_queue::PollNext;
use ready_queue::ReadyQueue;
use ready_queue::Task;

#[test]
fn close_with_in_flight_tasks_frees_everything() {
    let mut q: ReadyQueue<u64> = ReadyQueue::new();
    for k in 0..100 {
        q.push(Task::pending(5, k));
    }
    assert_eq!(q.len(), 100);
    assert_eq!(q.slots(), 101);
    // drop the queue without polling to completion: all 100 task slots are
    // dropped, and every node is freed
    q.close();
    assert_eq!(q.len(), 0);
    assert_eq!(q.live_nodes(), 0);
}

#[test]
fn close_after_completion_frees_everything() {
    let mut q: ReadyQueue<u64> = ReadyQueue::new();
    q.push(Task::ready(1));
    q.push(Task::pending(1, 2));
    assert!(matches!(q.poll_next(), PollNext::ReadySome(1)));
    q.close();
    assert_eq!(q.live_nodes(), 0);
}

#[test]
fn handle_reference_keeps_node_until_dropped() {
    let mut q: ReadyQueue<u64> = ReadyQueue::new();
    let id = q.push(Task::pending(3, 4));
    // a wake handle is cloned for the task: one more reference on the node
    // and on the inner block
    q.clone_raw();
    q.ref_inc(id);
    q.close();
    // the handle still pins the node
    assert_eq!(q.live_nodes(), 1);
    // dropping the handle releases the node and the inner reference
    q.ref_dec(id);
    q.drop_raw();
    assert_eq!(q.live_nodes(), 0);
}

#[test]
fn wake_after_release_is_absorbed() {
    let mut q: ReadyQueue<u64> = ReadyQueue::new();
    let id = q.push(Task::pending(1, 6));
    q.clone_raw();
    q.ref_inc(id);
    assert!(matches!(q.poll_next(), PollNext::Pending));
    q.notify(id);
    assert!(matches!(q.poll_next(), PollNext::ReadySome(6)));
    // the task is done; its poisoned node absorbs any further wake
    q.notify(id);
    assert!(matches!(q.poll_next(), PollNext::ReadyNone));
    assert_eq!(q.live_nodes(), 1);
    q.ref_dec(id);
    q.drop_raw();
    assert_eq!(q.live_nodes(), 0);
}

#[test]
fn inconsistency_recovery() {
    let mut q: ReadyQueue<u64> = ReadyQueue::new();
    let a = q.push(Task::pending(1, 1));
    let b = q.push(Task::pending(1, 2));
    assert!(matches!(q.poll_next(), PollNext::Pending));
    // one producer completes its wake; a second stalls between the
    // head swap and the forward-link store
    q.notify(a);
    assert!(q.notify_stall(b));
    // the consumer observes the gap, reports pending with a self-wake
    assert!(matches!(q.poll_next(), PollNext::Pending));
    assert!(q.wake_signalled());
    // the stalled producer publishes its link; the next poll gets through
    q.finish_notify();
    assert!(matches!(q.poll_next(), PollNext::ReadySome(1)));
    assert!(matches!(q.poll_next(), PollNext::ReadySome(2)));
    assert!(matches!(q.poll_next(), PollNext::ReadyNone));
    assert_eq!(q.live_nodes(), 0);
}

#[test]
fn stall_on_queued_node_is_noop() {
    let mut q: ReadyQueue<u64> = ReadyQueue::new();
    let id = q.push(Task::pending(1, 3));
    // the node is still queued from its push: the producer's transition
    // fails and no enqueue begins
    assert!(!q.notify_stall(id));
    assert!(matches!(q.poll_next(), PollNext::Pending));
    q.notify(id);
    assert!(matches!(q.poll_next(), PollNext::ReadySome(3)));
}

#[test]
fn identifiers_are_never_reused() {
    let mut q: ReadyQueue<u64> = ReadyQueue::new();
    let a = q.push(Task::ready(1));
    assert!(matches!(q.poll_next(), PollNext::ReadySome(1)));
    let b = q.push(Task::ready(2));
    assert_ne!(a, b);
    assert!(matches!(q.poll_next(), PollNext::ReadySome(2)));
    assert_eq!(q.slots(), 3);
}
