use ready_queue::remote_handle;
use ready_queue::LocalSpawnExt;
use ready_queue::PollNext;
use ready_queue::ReadyQueue;
use ready_queue::SpawnExt;
use ready_queue::Task;

#[test]
fn spawn_runs_task_on_the_queue() {
    let mut exec: ReadyQueue<()> = ReadyQueue::new();
    assert!(exec.spawn(Task::ready(())).is_ok());
    assert_eq!(exec.len(), 1);
    assert!(matches!(exec.poll_next(), PollNext::ReadySome(())));
    assert!(matches!(exec.poll_next(), PollNext::ReadyNone));
}

#[test]
fn spawn_with_handle_resolves_to_output() {
    let mut exec: ReadyQueue<()> = ReadyQueue::new();
    let handle = exec.spawn_with_handle(Task::ready(17u64)).unwrap();
    // the driver runs on the executor
    assert!(matches!(exec.poll_next(), PollNext::ReadySome(())));
    // the handle is itself a task resolving to the output
    let mut join: ReadyQueue<u64> = ReadyQueue::new();
    join.push(handle.task);
    assert!(matches!(join.poll_next(), PollNext::ReadySome(17)));
}

#[test]
fn spawn_local_with_handle_resolves_to_output() {
    let mut exec: ReadyQueue<()> = ReadyQueue::new();
    let handle = exec.spawn_local_with_handle(Task::ready(5u64)).unwrap();
    assert!(matches!(exec.poll_next(), PollNext::ReadySome(())));
    let mut join: ReadyQueue<u64> = ReadyQueue::new();
    join.push(handle.task);
    assert!(matches!(join.poll_next(), PollNext::ReadySome(5)));
}

#[test]
fn spawn_local_runs_task_on_the_queue() {
    let mut exec: ReadyQueue<()> = ReadyQueue::new();
    assert!(exec.spawn_local(Task::ready(())).is_ok());
    assert!(matches!(exec.poll_next(), PollNext::ReadySome(())));
}

#[test]
fn remote_handle_splits_pending_shape() {
    let task: Task<u64> = Task::pending(2, 11);
    let (driver, handle) = remote_handle(task);
    assert_eq!(driver.pending_polls, 2);
    assert!(!driver.wake_on_pending);
    assert_eq!(handle.task.pending_polls, 2);
    assert_eq!(handle.task.output, 11);
}
