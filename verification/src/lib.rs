//! An unbounded, notifiable collection of in-flight tasks.
//!
//! The heart of the crate is [`ReadyQueue`](ready_queue::ReadyQueue): tasks are
//! pushed into the queue and their outputs are yielded, one per poll, in the
//! order the tasks become ready.  Any number of producers may mark a task as
//! ready again through its numeric identifier; a single consumer drives the
//! queue.  The whole protocol — the sentinel-based wake queue, the queued-flag
//! discipline and the per-node reference counts — runs on plain data, and
//! every step of it is verified.

use vstd::prelude::*;

mod ready_queue;
mod spawn;

pub use ready_queue::PollNext;
pub use ready_queue::ReadyQueue;
pub use ready_queue::Task;
pub use ready_queue::MAX_REFS;
pub use spawn::remote_handle;
pub use spawn::LocalSpawn;
pub use spawn::LocalSpawnExt;
pub use spawn::RemoteHandle;
pub use spawn::Spawn;
pub use spawn::SpawnError;
pub use spawn::SpawnExt;

verus! {

} // verus!
