//! Spawning capabilities: the thin surface that hands a task to an executor.
//!
//! `Spawn` and `LocalSpawn` are the capabilities an executor offers; the
//! extension traits add the convenience forms, among them "spawn and keep a
//! joinable handle".  A [`ReadyQueue`](crate::ReadyQueue) of unit-valued
//! tasks is itself such an executor: spawning pushes the task into the
//! queue, and refuses once the queue can grow no further.

use vstd::prelude::*;
use crate::ready_queue::ReadyQueue;
use crate::ready_queue::Task;

verus! {

/// An executor refused a task.
#[derive(Debug, Clone, Copy, PartialEq, Eq, Structural)]
pub struct SpawnError {
    /// The executor no longer accepts tasks.
    pub shutdown: bool,
}

/// The capability to spawn a task that produces no value and may move
/// across threads.
pub trait Spawn {
    /// Whether this executor is in a state fit to accept tasks.
    spec fn ok(&self) -> bool;

    /// Submits the task.  An executor that refuses reports why.
    fn spawn_obj(&mut self, task: Task<()>) -> (r: Result<(), SpawnError>)
        requires
            old(self).ok(),
        ensures
            final(self).ok(),
    ;
}

/// The capability to spawn a task that produces no value and stays on the
/// current thread.
pub trait LocalSpawn {
    /// Whether this executor is in a state fit to accept tasks.
    spec fn local_ok(&self) -> bool;

    /// Submits the task.  An executor that refuses reports why.
    fn spawn_local_obj(&mut self, task: Task<()>) -> (r: Result<(), SpawnError>)
        requires
            old(self).local_ok(),
        ensures
            final(self).local_ok(),
    ;
}

/// A joinable handle: a task that resolves to the output of the task it was
/// split from, once the driver half has been run to completion.
pub struct RemoteHandle<V> {
    /// The handle as a pollable task of its own.
    pub task: Task<V>,
}

/// Splits a task into a driver, which produces no value, and a handle that
/// resolves to the task's output.
pub fn remote_handle<V>(task: Task<V>) -> (pair: (Task<()>, RemoteHandle<V>))
    ensures
        pair.0.pending_polls == task.pending_polls,
        pair.0.wake_on_pending == task.wake_on_pending,
        pair.1.task == task,
{
    let driver = Task {
        pending_polls: task.pending_polls,
        wake_on_pending: task.wake_on_pending,
        output: (),
    };
    (driver, RemoteHandle { task })
}

/// Extension trait for `Spawn`.
pub trait SpawnExt: Spawn {
    /// Spawns a task that is polled to completion for its effect alone.
    fn spawn(&mut self, task: Task<()>) -> (r: Result<(), SpawnError>)
        requires
            old(self).ok(),
        ensures
            final(self).ok(),
    ;

    /// Spawns a task and returns a handle resolving to its output: the task
    /// is split into a driver, which is submitted, and the handle, which is
    /// returned.
    fn spawn_with_handle<V>(&mut self, task: Task<V>) -> (r: Result<
        RemoteHandle<V>,
        SpawnError,
    >)
        requires
            old(self).ok(),
        ensures
            final(self).ok(),
            r matches Ok(h) ==> h.task == task,
    ;
}

/// Extension trait for `LocalSpawn`.
pub trait LocalSpawnExt: LocalSpawn {
    /// Spawns a task that is polled to completion for its effect alone.
    fn spawn_local(&mut self, task: Task<()>) -> (r: Result<(), SpawnError>)
        requires
            old(self).local_ok(),
        ensures
            final(self).local_ok(),
    ;

    /// Spawns a task and returns a handle resolving to its output.
    fn spawn_local_with_handle<V>(&mut self, task: Task<V>) -> (r: Result<
        RemoteHandle<V>,
        SpawnError,
    >)
        requires
            old(self).local_ok(),
        ensures
            final(self).local_ok(),
            r matches Ok(h) ==> h.task == task,
    ;
}

impl<Sp: Spawn> SpawnExt for Sp {
    fn spawn(&mut self, task: Task<()>) -> (r: Result<(), SpawnError>) {
        self.spawn_obj(task)
    }

    fn spawn_with_handle<V>(&mut self, task: Task<V>) -> (r: Result<
        RemoteHandle<V>,
        SpawnError,
    >) {
        let (driver, handle) = remote_handle(task);
        match self.spawn(driver) {
            Ok(()) => Ok(handle),
            Err(e) => Err(e),
        }
    }
}

impl<Sp: LocalSpawn> LocalSpawnExt for Sp {
    fn spawn_local(&mut self, task: Task<()>) -> (r: Result<(), SpawnError>) {
        self.spawn_local_obj(task)
    }

    fn spawn_local_with_handle<V>(&mut self, task: Task<V>) -> (r: Result<
        RemoteHandle<V>,
        SpawnError,
    >) {
        let (driver, handle) = remote_handle(task);
        match self.spawn_local(driver) {
            Ok(()) => Ok(handle),
            Err(e) => Err(e),
        }
    }
}

impl Spawn for ReadyQueue<()> {
    open spec fn ok(&self) -> bool {
        self.wf() && !self.is_closed()
    }

    fn spawn_obj(&mut self, task: Task<()>) -> (r: Result<(), SpawnError>) {
        if self.slots() < usize::MAX && self.len() < usize::MAX {
            let _ = self.push(task);
            Ok(())
        } else {
            Err(SpawnError { shutdown: false })
        }
    }
}

impl LocalSpawn for ReadyQueue<()> {
    open spec fn local_ok(&self) -> bool {
        self.wf() && !self.is_closed()
    }

    fn spawn_local_obj(&mut self, task: Task<()>) -> (r: Result<(), SpawnError>) {
        if self.slots() < usize::MAX && self.len() < usize::MAX {
            let _ = self.push(task);
            Ok(())
        } else {
            Err(SpawnError { shutdown: false })
        }
    }
}

} // verus!
