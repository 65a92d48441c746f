//! The readiness-tracking queue.
//!
//! A `ReadyQueue` owns a slab of nodes, one per pushed task, plus one
//! permanent sentinel node at identifier 0.  Producers mark a node ready
//! (`notify`); the single consumer drains readiness with `poll_next`.  The
//! wake queue is the intrusive multi-producer single-consumer list with a
//! sentinel terminator: each node carries a forward link, the queue keeps the
//! most recently enqueued node (`head_wake`) and the consumer keeps its
//! private `tail_wake`.  A node's lifetime is governed by a reference count
//! plus a `queued` flag that itself stands for one logical reference held by
//! the wake queue.

use vstd::prelude::*;

verus! {

/// Most references a single node may hold: half the state word, since the
/// word's top bit is the `QUEUED` flag.
pub const MAX_REFS: usize = usize::MAX / 2;

/// A task: a value that is polled.  It reports "pending" a fixed number of
/// times and then completes with `output`.  A task with `wake_on_pending`
/// invokes its own wake handle from within every poll, the way a task that
/// arranges an immediate re-poll would.
pub struct Task<V> {
    /// How many more polls report "pending" before the task completes.
    pub pending_polls: usize,
    /// Whether each poll wakes the task's own node at once.
    pub wake_on_pending: bool,
    /// The value the task completes with.
    pub output: V,
}

impl<V> Task<V> {
    /// A task that completes on its first poll.
    pub fn ready(output: V) -> (t: Task<V>)
        ensures
            t.pending_polls == 0,
            !t.wake_on_pending,
            t.output == output,
    {
        Task { pending_polls: 0, wake_on_pending: false, output }
    }

    /// A task that reports pending `polls` times, then completes.  It does not
    /// wake itself: a producer must notify its node for it to be polled again.
    pub fn pending(polls: usize, output: V) -> (t: Task<V>)
        ensures
            t.pending_polls == polls,
            !t.wake_on_pending,
            t.output == output,
    {
        Task { pending_polls: polls, wake_on_pending: false, output }
    }

    /// A task that reports pending `polls` times but wakes its own node from
    /// within each poll, so the consumer keeps polling it until it completes.
    pub fn reentrant(polls: usize, output: V) -> (t: Task<V>)
        ensures
            t.pending_polls == polls,
            t.wake_on_pending,
            t.output == output,
    {
        Task { pending_polls: polls, wake_on_pending: true, output }
    }
}

/// What one call of `poll_next` reports.
#[derive(Debug, PartialEq, Eq)]
pub enum PollNext<V> {
    /// No task is ready now; the consumer will be woken when one becomes so.
    Pending,
    /// The queue holds no tasks at all: end of stream.
    ReadyNone,
    /// A task completed with this output.
    ReadySome(V),
}

/// One slab entry.  A freed entry stays `Free` forever: identifiers are never
/// reused, so a stale identifier can never denote a different node.
enum Slot<V> {
    Free,
    Used(Node<V>),
}

/// The per-task record.
struct Node<V> {
    /// The task slot; cleared when the task completes or the queue is closed.
    task: Option<Task<V>>,
    /// The `QUEUED` flag: set while the node sits in the wake queue, and also
    /// set permanently once the node's task has been released, so that any
    /// later notify is a no-op.  While set it counts as one logical reference.
    queued: bool,
    /// The reference count apart from the `queued` flag: one for membership in
    /// the all-list (or, after release, one inherited by a lingering wake-queue
    /// entry), plus one per outstanding wake handle.
    refs: usize,
    /// Forward link in the wake queue; `None` is the null terminator.
    next_wake: Option<usize>,
    /// Membership in the all-list of tasks the consumer still owns.
    in_all: bool,
    /// Ghost count of the references held by outstanding wake handles.
    ext: Ghost<nat>,
}

/// A producer caught between the two steps of an enqueue: the queue head
/// already points at `node`, but `prev`'s forward link is still null.
#[derive(Clone, Copy)]
struct Stall {
    prev: usize,
    node: usize,
}

/// The queue façade together with the shared inner block it owns: the node
/// slab, the wake-queue ends, the consumer's parking flag and the inner
/// reference count.
pub struct ReadyQueue<V> {
    nodes: Vec<Slot<V>>,
    tail_wake: usize,
    head_wake: usize,
    len: usize,
    inner_refs: usize,
    woken: bool,
    closed: bool,
    stalled: Option<Stall>,
    /// Position of the stalled producer's `prev` within the wake chain.
    stall_idx: Ghost<int>,
    wake: Ghost<Seq<int>>,
}

impl<V> ReadyQueue<V> {
    /// How many slab entries exist: one per push, plus the sentinel.
    pub closed spec fn slot_count(self) -> nat {
        self.nodes@.len()
    }

    /// Whether `i` denotes a node that is still allocated.
    pub closed spec fn is_live(self, i: int) -> bool {
        0 <= i < self.nodes@.len() && self.nodes@[i] is Used
    }

    spec fn node_at(self, i: int) -> Node<V> {
        self.nodes@[i]->Used_0
    }

    /// The task held by node `i`, if any.
    pub closed spec fn task_at(self, i: int) -> Option<Task<V>> {
        self.node_at(i).task
    }

    /// The `QUEUED` flag of node `i`.
    pub closed spec fn queued_at(self, i: int) -> bool {
        self.node_at(i).queued
    }

    /// The reference count of node `i` (the count word without the flag).
    pub closed spec fn refs_at(self, i: int) -> nat {
        self.node_at(i).refs as nat
    }

    /// How many of node `i`'s references are held by outstanding wake handles.
    pub closed spec fn handle_refs_at(self, i: int) -> nat {
        self.node_at(i).ext@
    }

    /// Whether node `i` is in the all-list, i.e. its task has not been
    /// released by the consumer.
    pub closed spec fn in_all_at(self, i: int) -> bool {
        self.node_at(i).in_all
    }

    spec fn next_at(self, i: int) -> Option<usize> {
        self.node_at(i).next_wake
    }

    /// The wake queue from the consumer's tail to the most recent enqueue.
    /// Identifier 0 is the sentinel, which may sit anywhere in it.
    pub closed spec fn wake_ids(self) -> Seq<int> {
        self.wake@
    }

    /// The number of tasks in flight: the length of the all-list.
    pub closed spec fn task_count(self) -> nat {
        self.len as nat
    }

    /// The reference count of the shared inner block.
    pub closed spec fn inner_ref_count(self) -> nat {
        self.inner_refs as nat
    }

    /// Whether a wake signal for the consumer is pending.
    pub closed spec fn wake_signal(self) -> bool {
        self.woken
    }

    /// Whether the queue has been closed.
    pub closed spec fn is_closed(self) -> bool {
        self.closed
    }

    /// Whether some producer is stalled in the middle of an enqueue.
    pub closed spec fn stall_active(self) -> bool {
        self.stalled is Some
    }

    /// The identifier of the node a stalled producer is enqueueing.
    pub closed spec fn stalled_id(self) -> int {
        self.stalled->Some_0.node as int
    }

    /// The forward link of chain position `i` is as the chain demands: it
    /// names the next chain element, or is null right where a stalled producer
    /// has not yet published it.
    spec fn chain_link_ok(self, i: int) -> bool {
        let q = self.wake@;
        match self.stalled {
            Some(s) => {
                if self.stall_idx@ == i {
                    self.next_at(q[i]) is None && q[i] == s.prev as int && q[i + 1] == s.node
                        as int
                } else {
                    self.next_at(q[i]) == Some(q[i + 1] as usize)
                }
            },
            None => self.next_at(q[i]) == Some(q[i + 1] as usize),
        }
    }

    /// Everything a live non-sentinel node must satisfy.
    spec fn node_ok(self, j: int) -> bool {
        &&& self.in_all_at(j) <==> self.task_at(j) is Some
        &&& !self.in_all_at(j) ==> self.queued_at(j)
        &&& self.wake@.contains(j) ==> self.queued_at(j)
        &&& self.refs_at(j) == self.handle_refs_at(j) + (
            if self.in_all_at(j) || self.wake@.contains(j) {
                1nat
            } else {
                0nat
            }
        )
        &&& self.refs_at(j) >= 1
        &&& self.refs_at(j) <= MAX_REFS
    }

    /// An all-list node whose `QUEUED` flag is set really is in the wake
    /// queue.  (A node out of the all-list keeps the flag set forever, whether
    /// queued or poisoned.)
    spec fn queued_in_wake(self, j: int) -> bool {
        self.in_all_at(j) && self.queued_at(j) ==> self.wake@.contains(j)
    }

    /// The queue's invariant: the sentinel is permanent, the wake chain is a
    /// duplicate-free list of live nodes threaded through the forward links
    /// (broken at most where a stalled producer has not published one), every
    /// live node's references add up, and `len` counts the all-list.
    pub closed spec fn wf(self) -> bool {
        self.wf_except(-1)
    }

    /// The invariant with the per-node conditions waived for node `x`: the
    /// state the consumer holds while it works on a node it just dequeued.
    spec fn wf_except(self, x: int) -> bool {
        let q = self.wake@;
        let n = self.nodes@.len() as int;
        &&& 1 <= self.nodes@.len()
        // the sentinel
        &&& self.is_live(0)
        &&& self.task_at(0) is None
        &&& !self.in_all_at(0)
        &&& self.queued_at(0)
        &&& self.refs_at(0) == 1
        &&& self.handle_refs_at(0) == 0
        // the wake chain
        &&& q.len() >= 1
        &&& q[0] == self.tail_wake as int
        &&& q.last() == self.head_wake as int
        &&& forall|i: int| 0 <= i < q.len() ==> self.is_live(#[trigger] q[i])
        &&& forall|i: int, j: int| 0 <= i < j < q.len() ==> q[i] != q[j]
        &&& forall|i: int| 0 <= i < q.len() - 1 ==> #[trigger] self.chain_link_ok(i)
        &&& self.next_at(q.last()) is None
        &&& (q.contains(0) ==> q[0] == 0)
        // a stalled producer's position
        &&& match self.stalled {
            Some(s) => {
                &&& 0 <= self.stall_idx@ < q.len() - 1
                &&& q[self.stall_idx@] == s.prev as int
                &&& q[self.stall_idx@ + 1] == s.node as int
                &&& s.node != 0
                &&& self.is_live(s.node as int)
                &&& self.in_all_at(s.node as int)
            },
            None => true,
        }
        // every live node but `x`
        &&& forall|j: int| 1 <= j < n && j != x && self.is_live(j) ==> #[trigger] self.node_ok(j)
        &&& forall|j: int|
            1 <= j < n && j != x && self.is_live(j) ==> #[trigger] self.queued_in_wake(j)
        // the all-list count
        &&& self.len as nat == count_in_all(self.nodes@)
        // the facade itself holds one reference to the inner block
        &&& (!self.closed ==> self.inner_refs >= 1)
    }
}

/// What one dequeue attempt reports to the consumer.
enum Dequeue {
    /// A node left the queue.
    Data(usize),
    /// The queue is truly empty.
    Empty,
    /// An enqueue is in progress and its link is not yet published; the
    /// consumer must retry later.
    Inconsistent,
}

/// The pending-poll budget a slab entry holds.
spec fn pend_cost<V>(s: Slot<V>) -> nat {
    match s {
        Slot::Used(n) => match n.task {
            Some(t) => t.pending_polls as nat,
            None => 0,
        },
        Slot::Free => 0,
    }
}

/// Whether a slab entry is live.
spec fn live_cost<V>(s: Slot<V>) -> nat {
    if s is Used {
        1nat
    } else {
        0nat
    }
}

/// The total pending-poll budget of a slab.
spec fn pends_seq<V>(s: Seq<Slot<V>>) -> nat
    decreases s.len(),
{
    if s.len() == 0 {
        0
    } else {
        pends_seq(s.drop_last()) + pend_cost(s.last())
    }
}

proof fn lemma_pends_update<V>(s: Seq<Slot<V>>, i: int, v: Slot<V>)
    requires
        0 <= i < s.len(),
    ensures
        pends_seq(s.update(i, v)) + pend_cost(s[i]) == pends_seq(s) + pend_cost(v),
    decreases s.len(),
{
    if i == s.len() - 1 {
        assert(s.update(i, v).drop_last() =~= s.drop_last());
    } else {
        assert(s.update(i, v).drop_last() =~= s.drop_last().update(i, v));
        lemma_pends_update(s.drop_last(), i, v);
    }
}

proof fn lemma_pends_congruence<V>(s1: Seq<Slot<V>>, s2: Seq<Slot<V>>)
    requires
        s1.len() == s2.len(),
        forall|i: int| 0 <= i < s1.len() ==> pend_cost(#[trigger] s1[i]) == pend_cost(s2[i]),
    ensures
        pends_seq(s1) == pends_seq(s2),
    decreases s1.len(),
{
    if s1.len() > 0 {
        lemma_pends_congruence(s1.drop_last(), s2.drop_last());
        assert(pend_cost(s1.last()) == pend_cost(s2.last()));
    }
}

/// How many entries of a slab are live.
spec fn live_seq<V>(s: Seq<Slot<V>>) -> nat
    decreases s.len(),
{
    if s.len() == 0 {
        0
    } else {
        live_seq(s.drop_last()) + live_cost(s.last())
    }
}

proof fn lemma_live_update<V>(s: Seq<Slot<V>>, i: int, v: Slot<V>)
    requires
        0 <= i < s.len(),
    ensures
        live_seq(s.update(i, v)) + live_cost(s[i]) == live_seq(s) + live_cost(v),
    decreases s.len(),
{
    if i == s.len() - 1 {
        assert(s.update(i, v).drop_last() =~= s.drop_last());
    } else {
        assert(s.update(i, v).drop_last() =~= s.drop_last().update(i, v));
        lemma_live_update(s.drop_last(), i, v);
    }
}

proof fn lemma_live_congruence<V>(s1: Seq<Slot<V>>, s2: Seq<Slot<V>>)
    requires
        s1.len() == s2.len(),
        forall|i: int| 0 <= i < s1.len() ==> live_cost(#[trigger] s1[i]) == live_cost(s2[i]),
    ensures
        live_seq(s1) == live_seq(s2),
    decreases s1.len(),
{
    if s1.len() > 0 {
        lemma_live_congruence(s1.drop_last(), s2.drop_last());
        assert(live_cost(s1.last()) == live_cost(s2.last()));
    }
}

/// Whether a slab entry is a member of the all-list.
spec fn all_cost<V>(s: Slot<V>) -> nat {
    if s matches Slot::Used(n) && n.in_all {
        1nat
    } else {
        0nat
    }
}

/// How many slab entries are members of the all-list.
spec fn count_in_all<V>(s: Seq<Slot<V>>) -> nat
    decreases s.len(),
{
    if s.len() == 0 {
        0
    } else {
        count_in_all(s.drop_last()) + all_cost(s.last())
    }
}

proof fn lemma_count_in_all_update<V>(s: Seq<Slot<V>>, i: int, v: Slot<V>)
    requires
        0 <= i < s.len(),
    ensures
        count_in_all(s.update(i, v)) + all_cost(s[i]) == count_in_all(s) + all_cost(v),
    decreases s.len(),
{
    if i == s.len() - 1 {
        assert(s.update(i, v).drop_last() =~= s.drop_last());
    } else {
        assert(s.update(i, v).drop_last() =~= s.drop_last().update(i, v));
        lemma_count_in_all_update(s.drop_last(), i, v);
    }
}

proof fn lemma_count_in_all_push<V>(s: Seq<Slot<V>>, v: Slot<V>)
    ensures
        count_in_all(s.push(v)) == count_in_all(s) + all_cost(v),
{
    assert(s.push(v).drop_last() =~= s);
}

proof fn lemma_count_zero<V>(s: Seq<Slot<V>>)
    requires
        forall|j: int| 0 <= j < s.len() ==> all_cost(#[trigger] s[j]) == 0,
    ensures
        count_in_all(s) == 0,
    decreases s.len(),
{
    if s.len() > 0 {
        assert(forall|j: int|
            0 <= j < s.drop_last().len() ==> all_cost(#[trigger] s.drop_last()[j]) == 0);
        lemma_count_zero(s.drop_last());
        assert(all_cost(s.last()) == 0);
    }
}

proof fn lemma_count_pos<V>(s: Seq<Slot<V>>, i: int)
    requires
        0 <= i < s.len(),
        all_cost(s[i]) == 1,
    ensures
        count_in_all(s) >= 1,
    decreases s.len(),
{
    if i < s.len() - 1 {
        lemma_count_pos(s.drop_last(), i);
    }
}

impl<V> ReadyQueue<V> {
    /// Constructs a new, empty queue.  The sentinel node is allocated with its
    /// `queued` flag set and one reference, so the wake protocol never frees
    /// it; the wake queue starts as just the sentinel.
    pub fn new() -> (q: ReadyQueue<V>)
        ensures
            q.wf(),
            q.task_count() == 0,
            q.slot_count() == 1,
            q.wake_ids() =~= seq![0int],
            q.inner_ref_count() == 1,
            !q.is_closed(),
            !q.wake_signal(),
            !q.stall_active(),
    {
        let sentinel = Node {
            task: None,
            queued: true,
            refs: 1,
            next_wake: None,
            in_all: false,
            ext: Ghost(0nat),
        };
        let mut nodes: Vec<Slot<V>> = Vec::new();
        nodes.push(Slot::Used(sentinel));
        let ghost w: Seq<int> = seq![0int];
        let q = ReadyQueue {
            nodes,
            tail_wake: 0,
            head_wake: 0,
            len: 0,
            inner_refs: 1,
            woken: false,
            closed: false,
            stalled: None,
            stall_idx: Ghost(0int),
            wake: Ghost(w),
        };
        proof {
            assert(q.nodes@ =~= seq![Slot::Used(
                Node::<V> {
                    task: None,
                    queued: true,
                    refs: 1,
                    next_wake: None,
                    in_all: false,
                    ext: Ghost(0nat),
                },
            )]);
            reveal_with_fuel(count_in_all, 2);
        }
        q
    }

    /// All control state (everything but the node slab) of `self` and `other`
    /// agrees.
    spec fn ctrl_eq(self, other: Self) -> bool {
        &&& other.tail_wake == self.tail_wake
        &&& other.head_wake == self.head_wake
        &&& other.len == self.len
        &&& other.inner_refs == self.inner_refs
        &&& other.woken == self.woken
        &&& other.closed == self.closed
        &&& other.stalled == self.stalled
        &&& other.stall_idx@ == self.stall_idx@
        &&& other.wake@ == self.wake@
    }

    /// `self` and `other` agree on everything except the inner block's own
    /// reference count.
    pub closed spec fn eq_but_inner(self, other: Self) -> bool {
        &&& other.nodes@ == self.nodes@
        &&& other.tail_wake == self.tail_wake
        &&& other.head_wake == self.head_wake
        &&& other.len == self.len
        &&& other.woken == self.woken
        &&& other.closed == self.closed
        &&& other.stalled == self.stalled
        &&& other.stall_idx@ == self.stall_idx@
        &&& other.wake@ == self.wake@
    }

    /// The slabs of `self` and `other` agree except for the entry at `i`.
    spec fn nodes_eq_except(self, other: Self, i: int) -> bool {
        &&& other.nodes@.len() == self.nodes@.len()
        &&& forall|j: int|
            0 <= j < self.nodes@.len() && j != i ==> other.nodes@[j] == #[trigger] self.nodes@[j]
    }

    /// Node `i` of `self` and `other` agrees except for its forward link.
    pub open spec fn node_eq_except_link(self, other: Self, i: int) -> bool {
        &&& other.is_live(i) == self.is_live(i)
        &&& other.task_at(i) == self.task_at(i)
        &&& other.queued_at(i) == self.queued_at(i)
        &&& other.refs_at(i) == self.refs_at(i)
        &&& other.handle_refs_at(i) == self.handle_refs_at(i)
        &&& other.in_all_at(i) == self.in_all_at(i)
    }

    /// Reads node `i`'s forward link.
    fn link_of(&self, i: usize) -> (r: Option<usize>)
        requires
            self.is_live(i as int),
        ensures
            r == self.next_at(i as int),
    {
        match &self.nodes[i] {
            Slot::Used(n) => n.next_wake,
            Slot::Free => None,
        }
    }

    /// Writes node `i`'s forward link.
    fn set_link(&mut self, i: usize, v: Option<usize>)
        requires
            old(self).is_live(i as int),
        ensures
            old(self).ctrl_eq(*final(self)),
            old(self).nodes_eq_except(*final(self), i as int),
            old(self).node_eq_except_link(*final(self), i as int),
            final(self).next_at(i as int) == v,
            count_in_all(final(self).nodes@) == count_in_all(old(self).nodes@),
            pends_seq(final(self).nodes@) == pends_seq(old(self).nodes@),
            live_seq(final(self).nodes@) == live_seq(old(self).nodes@),
    {
        let slot = &mut self.nodes[i];
        match slot {
            Slot::Used(n) => {
                n.next_wake = v;
            },
            Slot::Free => {
                proof {
                    assert(false);
                }
            },
        }
        proof {
            lemma_count_in_all_update(old(self).nodes@, i as int, self.nodes@[i as int]);
            lemma_pends_update(old(self).nodes@, i as int, self.nodes@[i as int]);
            lemma_live_update(old(self).nodes@, i as int, self.nodes@[i as int]);
        }
    }

    /// Reads node `i`'s `QUEUED` flag.
    fn queued_of(&self, i: usize) -> (r: bool)
        requires
            self.is_live(i as int),
        ensures
            r == self.queued_at(i as int),
    {
        match &self.nodes[i] {
            Slot::Used(n) => n.queued,
            Slot::Free => false,
        }
    }

    /// Writes node `i`'s `QUEUED` flag and reports the previous value, the
    /// way an atomic exchange on the flag bit would.
    fn set_queued(&mut self, i: usize, v: bool) -> (prev: bool)
        requires
            old(self).is_live(i as int),
        ensures
            old(self).ctrl_eq(*final(self)),
            old(self).nodes_eq_except(*final(self), i as int),
            prev == old(self).queued_at(i as int),
            final(self).is_live(i as int),
            final(self).queued_at(i as int) == v,
            final(self).task_at(i as int) == old(self).task_at(i as int),
            final(self).refs_at(i as int) == old(self).refs_at(i as int),
            final(self).handle_refs_at(i as int) == old(self).handle_refs_at(i as int),
            final(self).in_all_at(i as int) == old(self).in_all_at(i as int),
            final(self).next_at(i as int) == old(self).next_at(i as int),
            count_in_all(final(self).nodes@) == count_in_all(old(self).nodes@),
            pends_seq(final(self).nodes@) == pends_seq(old(self).nodes@),
            live_seq(final(self).nodes@) == live_seq(old(self).nodes@),
    {
        let slot = &mut self.nodes[i];
        let mut prev = false;
        match slot {
            Slot::Used(n) => {
                prev = n.queued;
                n.queued = v;
            },
            Slot::Free => {
                proof {
                    assert(false);
                }
            },
        }
        proof {
            lemma_count_in_all_update(old(self).nodes@, i as int, self.nodes@[i as int]);
            lemma_pends_update(old(self).nodes@, i as int, self.nodes@[i as int]);
            lemma_live_update(old(self).nodes@, i as int, self.nodes@[i as int]);
        }
        prev
    }

    /// What one complete enqueue of `id` does to the queue state: the chain
    /// gains `id` at the back, the previous head's link points at it, and
    /// nothing else moves.
    spec fn enqueue_rel(self, post: Self, id: usize) -> bool {
        &&& post.wake@ == self.wake@.push(id as int)
        &&& post.head_wake == id
        &&& post.tail_wake == self.tail_wake
        &&& post.len == self.len
        &&& post.inner_refs == self.inner_refs
        &&& post.woken == self.woken
        &&& post.closed == self.closed
        &&& post.stalled == self.stalled
        &&& post.stall_idx@ == self.stall_idx@
        &&& post.nodes@.len() == self.nodes@.len()
        &&& forall|j: int|
            0 <= j < self.nodes@.len() ==> {
                &&& (post.is_live(j) <==> #[trigger] self.is_live(j))
                &&& self.node_eq_except_link(post, j)
            }
        &&& forall|j: int|
            0 <= j < self.nodes@.len() && j != id as int && j != self.head_wake as int
                ==> post.next_at(j) == #[trigger] self.next_at(j)
        &&& post.next_at(self.head_wake as int) == Some(id)
        &&& (id as int != self.head_wake as int ==> post.next_at(id as int) is None)
        &&& count_in_all(post.nodes@) == count_in_all(self.nodes@)
        &&& pends_seq(post.nodes@) == pends_seq(self.nodes@)
        &&& live_seq(post.nodes@) == live_seq(self.nodes@)
    }

    /// Setting a clear `QUEUED` flag and then enqueueing the node preserves
    /// the invariant.  `pre` is the state before the flag was set, `mid`
    /// right after, `post` after the enqueue.
    proof fn lemma_mark_enqueue_wf(pre: Self, mid: Self, post: Self, id: usize)
        requires
            pre.wf(),
            pre.is_live(id as int),
            id != 0,
            !pre.queued_at(id as int),
            pre.ctrl_eq(mid),
            pre.nodes_eq_except(mid, id as int),
            mid.is_live(id as int),
            mid.queued_at(id as int),
            mid.task_at(id as int) == pre.task_at(id as int),
            mid.refs_at(id as int) == pre.refs_at(id as int),
            mid.handle_refs_at(id as int) == pre.handle_refs_at(id as int),
            mid.in_all_at(id as int) == pre.in_all_at(id as int),
            mid.next_at(id as int) == pre.next_at(id as int),
            mid.enqueue_rel(post, id),
        ensures
            post.wf(),
            pre.in_all_at(id as int),
            !pre.wake@.contains(id as int),
            post.wake@ == pre.wake@.push(id as int),
    {
        assert(pre.node_ok(id as int));
        // a clear flag means the node is in the all-list and not in the chain
        assert(pre.in_all_at(id as int));
        assert(!pre.wake@.contains(id as int));
        let q = post.wake@;
        let oq = pre.wake@;
        assert(q.last() == id as int);
        assert(oq.contains(oq.last()));
        assert forall|j: int|
            0 <= j < pre.nodes@.len() && j != id as int implies (pre.is_live(j) <==> #[trigger] mid
            .is_live(j)) && pre.node_eq_except_link(mid, j) && pre.next_at(j) == mid.next_at(
            j,
        ) by {
            assert(mid.nodes@[j] == pre.nodes@[j]);
        }
        assert forall|i: int| 0 <= i < q.len() implies post.is_live(#[trigger] q[i]) by {
            if i < q.len() - 1 {
                assert(oq[i] == q[i]);
                assert(pre.is_live(q[i]));
                assert(mid.is_live(q[i]));
            } else {
                assert(q[i] == id as int);
                assert(mid.is_live(id as int));
            }
        }
        assert forall|i: int| 0 <= i < q.len() - 1 implies #[trigger] post.chain_link_ok(i) by {
            if i < q.len() - 2 {
                assert(pre.chain_link_ok(i));
                assert(oq.contains(oq[i]));
                assert(q[i] != id as int);
                assert(q[i] == oq[i] && oq[i] != oq[oq.len() - 1]);
                assert(q[i] != mid.head_wake as int);
                assert(mid.next_at(q[i]) == pre.next_at(q[i]));
                assert(post.next_at(q[i]) == mid.next_at(q[i]));
                assert(q[i + 1] == oq[i + 1]);
            } else {
                assert(q[i] == mid.head_wake as int);
                assert(post.next_at(q[i]) == Some(id));
            }
        }
        assert forall|j: int| 1 <= j < post.nodes@.len() && post.is_live(j) implies #[trigger] post
            .node_ok(j) && post.queued_in_wake(j) by {
            assert(pre.is_live(j) ==> pre.node_ok(j));
            assert(pre.is_live(j) ==> pre.queued_in_wake(j));
            assert(post.wake@.contains(j) ==> pre.wake@.contains(j) || j == id as int) by {
                if post.wake@.contains(j) {
                    let k = choose|k: int| 0 <= k < q.len() && q[k] == j;
                    if k < q.len() - 1 {
                        assert(oq[k] == j);
                        assert(pre.wake@.contains(j));
                    }
                }
            }
            assert(pre.wake@.contains(j) ==> post.wake@.contains(j)) by {
                if pre.wake@.contains(j) {
                    let k = choose|k: int| 0 <= k < oq.len() && oq[k] == j;
                    assert(q[k] == j);
                }
            }
            assert(post.wake@.contains(id as int));
            if j != id as int {
                assert(mid.node_eq_except_link(post, j));
                assert(pre.node_eq_except_link(mid, j));
            }
        }
        assert(post.wake@.contains(0) ==> post.wake@[0] == 0) by {
            if post.wake@.contains(0) {
                let k = choose|k: int| 0 <= k < q.len() && q[k] == 0;
                assert(k < q.len() - 1);
                assert(oq[k] == 0);
                assert(oq.contains(0));
            }
        }
        assert forall|j: int|
            1 <= j < post.nodes@.len() && post.is_live(j) implies #[trigger] post.queued_in_wake(
            j,
        ) by {
            assert(post.node_ok(j) && post.queued_in_wake(j));
        }
        // releasing no one from the all-list, the count stands
        assert(mid.nodes@ =~= pre.nodes@.update(id as int, mid.nodes@[id as int]));
        lemma_count_in_all_update(pre.nodes@, id as int, mid.nodes@[id as int]);
        assert(mid.nodes@[id as int] is Used);
        assert(pre.nodes@[id as int] is Used);
        assert(all_cost(mid.nodes@[id as int]) == all_cost(pre.nodes@[id as int]));
        assert(post.len as nat == count_in_all(post.nodes@));
        // the sentinel is untouched
        assert(mid.nodes@[0] == pre.nodes@[0]);
        assert(mid.node_eq_except_link(post, 0));
        assert(post.is_live(0));
        assert(post.task_at(0) is None);
        assert(!post.in_all_at(0));
        assert(post.queued_at(0));
        assert(post.refs_at(0) == 1);
        assert(post.handle_refs_at(0) == 0);
        // a stalled producer's node keeps its place and its task
        match pre.stalled {
            Some(s) => {
                assert(oq[pre.stall_idx@ + 1] == s.node as int);
                assert(oq.contains(s.node as int));
                assert(q[pre.stall_idx@] == oq[pre.stall_idx@]);
                assert(q[pre.stall_idx@ + 1] == oq[pre.stall_idx@ + 1]);
                assert(pre.node_ok(s.node as int));
                assert(pre.queued_at(s.node as int));
                assert(s.node as int != id as int);
                assert(mid.nodes@[s.node as int] == pre.nodes@[s.node as int]);
                assert(mid.node_eq_except_link(post, s.node as int));
                assert(post.is_live(s.node as int));
                assert(post.in_all_at(s.node as int));
            },
            None => {},
        }
        assert(post.wf_except(-1));
    }

    /// One producer-side enqueue of `id` into the wake queue, complete: null
    /// the node's own link, swap the queue head, publish the forward link of
    /// the previous head.
    fn enqueue_id(&mut self, id: usize)
        requires
            old(self).is_live(id as int),
            old(self).is_live(old(self).head_wake as int),
        ensures
            old(self).enqueue_rel(*final(self), id),
    {
        // Step 1: the node's own forward link becomes the null terminator.
        self.set_link(id, None);
        // Step 2: the queue head now names this node.
        let prev = self.head_wake;
        self.head_wake = id;
        // Step 3: the previous head's forward link is published.
        self.set_link(prev, Some(id));
        proof {
            self.wake@ = self.wake@.push(id as int);
        }
    }

    /// The producer side of a wake: transition the node's clear `QUEUED` flag
    /// to set — which grants the right to enqueue — and enqueue it.
    fn mark_and_enqueue(&mut self, id: usize)
        requires
            old(self).wf(),
            old(self).is_live(id as int),
            id != 0,
            !old(self).queued_at(id as int),
        ensures
            final(self).wf(),
            final(self).wake@ == old(self).wake@.push(id as int),
            !old(self).wake@.contains(id as int),
            old(self).in_all_at(id as int),
            final(self).nodes@.len() == old(self).nodes@.len(),
            forall|j: int|
                0 <= j < old(self).nodes@.len() ==> (final(self).is_live(j) <==> old(
                    self,
                ).is_live(j)),
            forall|j: int|
                0 <= j < old(self).nodes@.len() && j != id as int ==> old(
                    self,
                ).node_eq_except_link(*final(self), j),
            final(self).queued_at(id as int),
            final(self).task_at(id as int) == old(self).task_at(id as int),
            final(self).refs_at(id as int) == old(self).refs_at(id as int),
            final(self).handle_refs_at(id as int) == old(self).handle_refs_at(id as int),
            final(self).in_all_at(id as int),
            final(self).len == old(self).len,
            final(self).inner_refs == old(self).inner_refs,
            final(self).woken == old(self).woken,
            final(self).closed == old(self).closed,
            final(self).stalled == old(self).stalled,
            final(self).tail_wake == old(self).tail_wake,
            pends_seq(final(self).nodes@) == pends_seq(old(self).nodes@),
            live_seq(final(self).nodes@) == live_seq(old(self).nodes@),
    {
        proof {
            assert(old(self).node_ok(id as int));
            assert(old(self).wake@.contains(old(self).wake@.last()));
        }
        let prev = self.set_queued(id, true);
        let ghost mid = *self;
        self.enqueue_id(id);
        proof {
            Self::lemma_mark_enqueue_wf(*old(self), mid, *self, id);
            assert forall|j: int|
                0 <= j < old(self).nodes@.len() && j != id as int implies old(
                self,
            ).node_eq_except_link(*self, j) by {
                assert(mid.nodes@[j] == old(self).nodes@[j]);
                assert(mid.is_live(j) <==> self.is_live(j));
                assert(mid.node_eq_except_link(*self, j));
            }
            assert(mid.node_eq_except_link(*self, id as int));
            assert forall|j: int| 0 <= j < old(self).nodes@.len() implies (self.is_live(j) <==> old(
                self,
            ).is_live(j)) by {
                if j == id as int {
                    assert(mid.is_live(j));
                    assert(self.is_live(j));
                    assert(old(self).is_live(j));
                } else {
                    assert(mid.nodes@[j] == old(self).nodes@[j]);
                    assert(mid.is_live(j) <==> self.is_live(j));
                }
            }
        }
    }

    /// Pushes a task into the queue and returns the identifier of its node,
    /// the number that a wake target for it holds.  The task is not polled
    /// here: the caller must call `poll_next` afterwards to drive it.
    ///
    /// The new node joins the all-list with one reference, its `queued` flag
    /// set, and a place at the back of the wake queue, so `len` grows by
    /// exactly one.
    pub fn push(&mut self, task: Task<V>) -> (id: u64)
        requires
            old(self).wf(),
            !old(self).is_closed(),
            old(self).slot_count() < usize::MAX,
            old(self).task_count() < usize::MAX,
        ensures
            final(self).wf(),
            id == old(self).slot_count(),
            final(self).slot_count() == old(self).slot_count() + 1,
            final(self).task_count() == old(self).task_count() + 1,
            final(self).is_live(id as int),
            final(self).task_at(id as int) == Some(task),
            final(self).in_all_at(id as int),
            final(self).queued_at(id as int),
            final(self).refs_at(id as int) == 1,
            final(self).handle_refs_at(id as int) == 0,
            final(self).wake_ids() == old(self).wake_ids().push(id as int),
            forall|j: int|
                0 <= j < old(self).slot_count() ==> {
                    &&& (final(self).is_live(j) <==> old(self).is_live(j))
                    &&& old(self).node_eq_except_link(*final(self), j)
                },
            !final(self).is_closed(),
            final(self).wake_signal() == old(self).wake_signal(),
            final(self).stall_active() == old(self).stall_active(),
            final(self).stalled_id() == old(self).stalled_id(),
            final(self).inner_ref_count() == old(self).inner_ref_count(),
    {
        let id: usize = self.nodes.len();
        let node = Node {
            task: Some(task),
            queued: false,
            refs: 1,
            next_wake: None,
            in_all: true,
            ext: Ghost(0nat),
        };
        // Splice into the all-list, one more in-flight task.
        self.nodes.push(Slot::Used(node));
        self.len = self.len + 1;
        proof {
            lemma_count_in_all_push(old(self).nodes@, self.nodes@.last());
            assert forall|i: int| 0 <= i < self.wake@.len() implies self.is_live(
                #[trigger] self.wake@[i],
            ) by {
                assert(old(self).is_live(old(self).wake@[i]));
            }
            assert forall|i: int| 0 <= i < self.wake@.len() - 1 implies #[trigger] self
                .chain_link_ok(i) by {
                assert(old(self).chain_link_ok(i));
            }
            assert forall|j: int| 1 <= j < self.nodes@.len() && self.is_live(j) implies #[trigger] self
                .node_ok(j) by {
                if j < old(self).nodes@.len() {
                    assert(old(self).node_ok(j));
                    assert(old(self).queued_in_wake(j));
                } else {
                    assert(self.nodes@[j] == self.nodes@.last());
                    assert(self.task_at(j) is Some);
                    assert(self.in_all_at(j));
                    assert(self.refs_at(j) == 1);
                    assert(self.handle_refs_at(j) == 0);
                }
            }
            assert forall|j: int| 1 <= j < self.nodes@.len() && self.is_live(j) implies #[trigger] self
                .queued_in_wake(j) by {
                if j < old(self).nodes@.len() {
                    assert(old(self).queued_in_wake(j));
                } else {
                    assert(!self.queued_at(j));
                }
            }
            assert(self.wf());
        }
        // Set the flag and enqueue the node into the wake queue.
        let ghost mid = *self;
        self.mark_and_enqueue(id);
        proof {
            assert forall|j: int| 0 <= j < old(self).slot_count() implies ((final(self).is_live(j)
                <==> old(self).is_live(j)) && old(self).node_eq_except_link(*final(self), j)) by {
                assert(mid.is_live(j) <==> old(self).is_live(j));
                if j != id as int {
                    assert(mid.node_eq_except_link(*self, j));
                    assert(mid.nodes@[j] == old(self).nodes@[j]);
                }
            }
            assert(mid.task_at(id as int) == Some(task));
            assert(self.task_at(id as int) == Some(task));
        }
        id as u64
    }

    /// Replacing the contents of one non-sentinel node — links, flags, counts
    /// or the slot itself — while the chain's links through it stay put keeps
    /// every part of the invariant that does not speak of that node.
    proof fn lemma_wf_after_update(pre: Self, post: Self, i: int)
        requires
            pre.wf_except(i),
            post.wake@ == pre.wake@,
            post.tail_wake == pre.tail_wake,
            post.head_wake == pre.head_wake,
            post.stalled == pre.stalled,
            post.stall_idx@ == pre.stall_idx@,
            pre.nodes_eq_except(post, i),
            1 <= i < pre.nodes@.len(),
            pre.wake@.contains(i) ==> post.is_live(i) && post.next_at(i) == pre.next_at(i),
            match pre.stalled {
                Some(s) => post.is_live(s.node as int) && post.in_all_at(s.node as int),
                None => true,
            },
            post.len as nat == count_in_all(post.nodes@),
            !post.closed ==> post.inner_refs >= 1,
        ensures
            post.wf_except(i),
    {
        let q = post.wake@;
        assert(q == pre.wake@);
        assert forall|k: int|
            0 <= k < q.len() implies post.is_live(#[trigger] q[k]) && post.next_at(q[k])
            == pre.next_at(q[k]) by {
            assert(pre.is_live(q[k]));
            assert(q.contains(q[k]));
            if q[k] != i {
                assert(post.nodes@[q[k]] == pre.nodes@[q[k]]);
            }
        }
        assert forall|k: int| 0 <= k < q.len() - 1 implies #[trigger] post.chain_link_ok(k) by {
            assert(pre.chain_link_ok(k));
        }
        assert forall|j: int|
            1 <= j < post.nodes@.len() && j != i && post.is_live(j) implies #[trigger] post
            .node_ok(j) by {
            assert(post.nodes@[j] == pre.nodes@[j]);
            assert(pre.is_live(j));
            assert(pre.node_ok(j));
        }
        assert forall|j: int|
            1 <= j < post.nodes@.len() && j != i && post.is_live(j) implies #[trigger] post
            .queued_in_wake(j) by {
            assert(post.nodes@[j] == pre.nodes@[j]);
            assert(pre.is_live(j));
            assert(pre.queued_in_wake(j));
        }
        assert(post.nodes@[0] == pre.nodes@[0]);
        assert(post.wf_except(i));
    }

    /// The invariant with node `i` waived, plus the per-node conditions for
    /// `i` itself, give the invariant whole.
    proof fn lemma_wf_close(s: Self, i: int)
        requires
            s.wf_except(i),
            1 <= i < s.nodes@.len(),
            s.is_live(i) ==> s.node_ok(i) && s.queued_in_wake(i),
        ensures
            s.wf(),
    {
        assert forall|j: int|
            1 <= j < s.nodes@.len() && s.is_live(j) implies #[trigger] s.node_ok(j) by {
            if j != i {
                assert(s.node_ok(j));
            }
        }
        assert forall|j: int|
            1 <= j < s.nodes@.len() && s.is_live(j) implies #[trigger] s.queued_in_wake(j) by {
            if j != i {
                assert(s.queued_in_wake(j));
            }
        }
        assert(s.wf_except(-1));
    }

    /// A change that touches neither the slab nor the chain state — the
    /// parking flag, the closed mark or the inner count — keeps the
    /// invariant.
    proof fn lemma_wf_frame(pre: Self, post: Self)
        requires
            pre.wf(),
            post.nodes@ == pre.nodes@,
            post.wake@ == pre.wake@,
            post.tail_wake == pre.tail_wake,
            post.head_wake == pre.head_wake,
            post.len == pre.len,
            post.stalled == pre.stalled,
            post.stall_idx@ == pre.stall_idx@,
            !post.closed ==> post.inner_refs >= 1,
        ensures
            post.wf(),
    {
        let q = post.wake@;
        assert forall|k: int| 0 <= k < q.len() implies post.is_live(#[trigger] q[k]) by {
            assert(pre.is_live(q[k]));
        }
        assert forall|k: int| 0 <= k < q.len() - 1 implies #[trigger] post.chain_link_ok(k) by {
            assert(pre.chain_link_ok(k));
        }
        assert forall|j: int|
            1 <= j < post.nodes@.len() && post.is_live(j) implies #[trigger] post.node_ok(j) by {
            assert(pre.is_live(j));
            assert(pre.node_ok(j));
        }
        assert forall|j: int|
            1 <= j < post.nodes@.len() && post.is_live(j) implies #[trigger] post.queued_in_wake(
            j,
        ) by {
            assert(pre.is_live(j));
            assert(pre.queued_in_wake(j));
        }
        assert(post.wf_except(-1));
    }

    /// Reads node `i`'s reference count.
    fn refs_of(&self, i: usize) -> (r: usize)
        requires
            self.is_live(i as int),
        ensures
            r == self.refs_at(i as int),
    {
        match &self.nodes[i] {
            Slot::Used(n) => n.refs,
            Slot::Free => 0,
        }
    }

    /// Releases one reference on node `i` with a single decrement.  When
    /// the count reaches zero the node's memory is
    /// returned — the slot is freed.  `from_handle` says whether the released
    /// reference was one a wake handle held.
    fn release_slot(&mut self, i: usize, Ghost(from_handle): Ghost<bool>)
        requires
            old(self).is_live(i as int),
            i != 0,
            old(self).refs_at(i as int) >= 1,
            from_handle ==> old(self).handle_refs_at(i as int) >= 1,
        ensures
            old(self).ctrl_eq(*final(self)),
            old(self).nodes_eq_except(*final(self), i as int),
            old(self).refs_at(i as int) == 1 ==> !final(self).is_live(i as int),
            old(self).refs_at(i as int) > 1 ==> {
                &&& final(self).is_live(i as int)
                &&& final(self).refs_at(i as int) == old(self).refs_at(i as int) - 1
                &&& final(self).handle_refs_at(i as int) == old(self).handle_refs_at(i as int)
                    - (if from_handle {
                    1nat
                } else {
                    0nat
                })
                &&& final(self).task_at(i as int) == old(self).task_at(i as int)
                &&& final(self).queued_at(i as int) == old(self).queued_at(i as int)
                &&& final(self).in_all_at(i as int) == old(self).in_all_at(i as int)
                &&& final(self).next_at(i as int) == old(self).next_at(i as int)
            },
            count_in_all(final(self).nodes@) == count_in_all(old(self).nodes@) - (if old(
                self,
            ).refs_at(i as int) == 1 && old(self).in_all_at(i as int) {
                1nat
            } else {
                0nat
            }),
    {
        let r = self.refs_of(i);
        if r == 1 {
            let slot = &mut self.nodes[i];
            *slot = Slot::Free;
        } else {
            let slot = &mut self.nodes[i];
            match slot {
                Slot::Used(n) => {
                    n.refs = n.refs - 1;
                    proof {
                        if from_handle {
                            n.ext@ = (n.ext@ - 1) as nat;
                        }
                    }
                },
                Slot::Free => {
                    proof {
                        assert(false);
                    }
                },
            }
        }
        proof {
            lemma_count_in_all_update(old(self).nodes@, i as int, self.nodes@[i as int]);
        }
    }

    /// Marks the node ready.  Sets its `QUEUED` flag; when the flag was
    /// clear, that grants the right to enqueue, so the node is enqueued and
    /// the parent parker wakes the consumer.  When the flag was already set
    /// the call does nothing at all: the node already sits in the wake queue
    /// (or is poisoned after release) and will be handled by the consumer.
    ///
    /// The sentinel must never be notified, and an identifier may be used
    /// only while at least one reference to its node is alive.
    #[verifier::rlimit(100)]
    pub fn notify(&mut self, id: u64)
        requires
            old(self).wf(),
            id != 0,
            id < old(self).slot_count(),
            old(self).is_live(id as int),
        ensures
            final(self).wf(),
            old(self).queued_at(id as int) ==> *final(self) == *old(self),
            !old(self).queued_at(id as int) ==> {
                &&& final(self).wake_ids() == old(self).wake_ids().push(id as int)
                &&& final(self).queued_at(id as int)
                &&& final(self).wake_signal()
                &&& old(self).in_all_at(id as int)
                &&& final(self).in_all_at(id as int)
                &&& final(self).task_at(id as int) == old(self).task_at(id as int)
                &&& final(self).refs_at(id as int) == old(self).refs_at(id as int)
                &&& final(self).handle_refs_at(id as int) == old(self).handle_refs_at(id as int)
                &&& forall|j: int|
                    0 <= j < old(self).slot_count() && j != id as int ==> #[trigger] old(
                        self,
                    ).node_eq_except_link(*final(self), j) && (final(self).is_live(j) <==> old(
                        self,
                    ).is_live(j))
                &&& final(self).task_count() == old(self).task_count()
                &&& final(self).slot_count() == old(self).slot_count()
                &&& final(self).inner_ref_count() == old(self).inner_ref_count()
                &&& final(self).is_closed() == old(self).is_closed()
                &&& final(self).stall_active() == old(self).stall_active()
            },
    {
        let n = self.nodes.len();
        let i = id as usize;
        proof {
            assert(n as nat == self.nodes@.len());
            assert(i as nat == id as nat);
        }
        if !self.queued_of(i) {
            self.mark_and_enqueue(i);
            let ghost mid = *self;
            // Notify the parent after the node has been enqueued.
            self.woken = true;
            proof {
                Self::lemma_wf_frame(mid, *self);
                assert forall|j: int|
                    0 <= j < old(self).slot_count() && j != id as int implies #[trigger] old(
                    self,
                ).node_eq_except_link(*self, j) && (self.is_live(j) <==> old(self).is_live(j)) by {
                    assert(old(self).node_eq_except_link(mid, j));
                    assert(self.nodes@ == mid.nodes@);
                    assert(mid.node_eq_except_link(*self, j));
                }
                assert(self.nodes@ == mid.nodes@);
                assert(self.task_at(id as int) == mid.task_at(id as int));
                assert(self.queued_at(id as int) == mid.queued_at(id as int));
                assert(self.refs_at(id as int) == mid.refs_at(id as int));
                assert(self.handle_refs_at(id as int) == mid.handle_refs_at(id as int));
                assert(self.in_all_at(id as int) == mid.in_all_at(id as int));
            }
        }
    }

    /// Adds one reference to the node on behalf of a new wake handle.  The
    /// caller must already hold a reference; a count at the saturation bound
    /// would abort rather than continue, so such a state is excluded here.
    pub fn ref_inc(&mut self, id: u64)
        requires
            old(self).wf(),
            id != 0,
            id < old(self).slot_count(),
            old(self).is_live(id as int),
            old(self).refs_at(id as int) < MAX_REFS,
        ensures
            final(self).wf(),
            final(self).refs_at(id as int) == old(self).refs_at(id as int) + 1,
            final(self).handle_refs_at(id as int) == old(self).handle_refs_at(id as int) + 1,
            final(self).is_live(id as int),
            final(self).task_at(id as int) == old(self).task_at(id as int),
            final(self).queued_at(id as int) == old(self).queued_at(id as int),
            final(self).in_all_at(id as int) == old(self).in_all_at(id as int),
            forall|j: int|
                0 <= j < old(self).slot_count() && j != id as int ==> old(
                    self,
                ).node_eq_except_link(*final(self), j) && (final(self).is_live(j) <==> old(
                    self,
                ).is_live(j)),
            final(self).wake_ids() == old(self).wake_ids(),
            final(self).slot_count() == old(self).slot_count(),
            final(self).task_count() == old(self).task_count(),
            final(self).inner_ref_count() == old(self).inner_ref_count(),
            final(self).wake_signal() == old(self).wake_signal(),
            final(self).is_closed() == old(self).is_closed(),
            final(self).stall_active() == old(self).stall_active(),
    {
        let n = self.nodes.len();
        let i = id as usize;
        proof {
            assert(n as nat == self.nodes@.len());
            assert(i as nat == id as nat);
        }
        {
            let slot = &mut self.nodes[i];
            match slot {
                Slot::Used(nd) => {
                    nd.refs = nd.refs + 1;
                    proof {
                        nd.ext@ = nd.ext@ + 1;
                    }
                },
                Slot::Free => {
                    proof {
                        assert(false);
                    }
                },
            }
        }
        proof {
            assert(old(self).node_ok(id as int));
            lemma_count_in_all_update(old(self).nodes@, id as int, self.nodes@[id as int]);
            Self::lemma_wf_after_update(*old(self), *self, id as int);
            assert(self.node_ok(id as int));
            assert(self.queued_in_wake(id as int)) by {
                assert(old(self).queued_in_wake(id as int));
            }
            Self::lemma_wf_close(*self, id as int);
        }
    }

    /// Releases the reference a wake handle held on the node.  When it was
    /// the node's last reference, the node's memory is returned.
    pub fn ref_dec(&mut self, id: u64)
        requires
            old(self).wf(),
            id != 0,
            id < old(self).slot_count(),
            old(self).is_live(id as int),
            old(self).handle_refs_at(id as int) >= 1,
        ensures
            final(self).wf(),
            old(self).refs_at(id as int) == 1 ==> !final(self).is_live(id as int),
            old(self).refs_at(id as int) > 1 ==> {
                &&& final(self).is_live(id as int)
                &&& final(self).refs_at(id as int) == old(self).refs_at(id as int) - 1
                &&& final(self).handle_refs_at(id as int) == old(self).handle_refs_at(id as int)
                    - 1
                &&& final(self).task_at(id as int) == old(self).task_at(id as int)
            },
            forall|j: int|
                0 <= j < old(self).slot_count() && j != id as int ==> old(
                    self,
                ).node_eq_except_link(*final(self), j) && (final(self).is_live(j) <==> old(
                    self,
                ).is_live(j)),
            final(self).wake_ids() == old(self).wake_ids(),
            final(self).slot_count() == old(self).slot_count(),
            final(self).task_count() == old(self).task_count(),
            final(self).inner_ref_count() == old(self).inner_ref_count(),
            final(self).wake_signal() == old(self).wake_signal(),
            final(self).is_closed() == old(self).is_closed(),
            final(self).stall_active() == old(self).stall_active(),
    {
        let n = self.nodes.len();
        let i = id as usize;
        proof {
            assert(n as nat == self.nodes@.len());
            assert(i as nat == id as nat);
            assert(old(self).node_ok(id as int));
            if old(self).refs_at(id as int) == 1 {
                // the handle's reference was the only one: the node is out of
                // the all-list and out of the wake queue
                assert(!old(self).in_all_at(id as int));
                assert(!old(self).wake@.contains(id as int));
            }
        }
        self.release_slot(i, Ghost(true));
        proof {
            Self::lemma_wf_after_update(*old(self), *self, id as int);
            if old(self).refs_at(id as int) > 1 {
                assert(self.node_ok(id as int));
                assert(self.queued_in_wake(id as int)) by {
                    assert(old(self).queued_in_wake(id as int));
                }
            }
            Self::lemma_wf_close(*self, id as int);
        }
    }

    /// Adds one reference to the shared inner block itself: a wake handle is
    /// created or cloned.  At the saturation bound the process would abort
    /// rather than continue, so that state is excluded here.
    pub fn clone_raw(&mut self)
        requires
            old(self).wf(),
            old(self).inner_ref_count() < MAX_REFS,
        ensures
            final(self).wf(),
            final(self).inner_ref_count() == old(self).inner_ref_count() + 1,
            old(self).eq_but_inner(*final(self)),
    {
        self.inner_refs = self.inner_refs + 1;
        proof {
            Self::lemma_wf_frame(*old(self), *self);
        }
    }

    /// Releases one reference to the shared inner block.  On the transition
    /// to zero — possible only once the queue itself is closed — the inner
    /// block, the sentinel with it, is destroyed.
    pub fn drop_raw(&mut self)
        requires
            old(self).wf(),
            old(self).inner_ref_count() >= 1,
            !old(self).is_closed() ==> old(self).inner_ref_count() >= 2,
        ensures
            final(self).wf(),
            final(self).inner_ref_count() == old(self).inner_ref_count() - 1,
            old(self).eq_but_inner(*final(self)),
    {
        self.inner_refs = self.inner_refs - 1;
        proof {
            Self::lemma_wf_frame(*old(self), *self);
        }
    }

    /// The total pending-poll budget of every task in the slab.
    spec fn pends_total(self) -> nat {
        pends_seq(self.nodes@)
    }

    /// How many slab entries are live.
    spec fn live_total(self) -> nat {
        live_seq(self.nodes@)
    }

    /// One when the sentinel is out of the wake chain, zero when in it.
    spec fn stub_out(self) -> int {
        if self.wake@.contains(0) {
            0int
        } else {
            1int
        }
    }

    /// Dropping the front of the wake chain — the consumer advancing its
    /// tail — keeps the invariant, waiving the dropped node; dropping the
    /// sentinel waives nothing.
    proof fn lemma_advance_front(pre: Self, post: Self)
        requires
            pre.wf(),
            pre.wake@.len() >= 2,
            post.nodes@ == pre.nodes@,
            post.wake@ == pre.wake@.subrange(1, pre.wake@.len() as int),
            post.tail_wake as int == pre.wake@[1],
            post.head_wake == pre.head_wake,
            post.len == pre.len,
            post.inner_refs == pre.inner_refs,
            post.woken == pre.woken,
            post.closed == pre.closed,
            post.stalled == pre.stalled,
            pre.stalled is Some ==> pre.stall_idx@ >= 1 && post.stall_idx@ == pre.stall_idx@
                - 1,
        ensures
            post.wf_except(pre.wake@[0]),
            pre.wake@[0] == 0 ==> post.wf(),
            !post.wake@.contains(pre.wake@[0]),
            forall|j: int| post.wake@.contains(j) ==> pre.wake@.contains(j),
    {
        let q = post.wake@;
        let oq = pre.wake@;
        let front = oq[0];
        assert(q.len() == oq.len() - 1);
        assert(forall|k: int| 0 <= k < q.len() ==> #[trigger] q[k] == oq[k + 1]);
        assert forall|j: int| post.wake@.contains(j) implies pre.wake@.contains(j) by {
            let k = choose|k: int| 0 <= k < q.len() && q[k] == j;
            assert(oq[k + 1] == j);
        }
        assert(!post.wake@.contains(front)) by {
            if post.wake@.contains(front) {
                let k = choose|k: int| 0 <= k < q.len() && q[k] == front;
                assert(oq[k + 1] == front && oq[0] == front);
            }
        }
        assert forall|j: int| pre.wake@.contains(j) && j != front implies post.wake@.contains(
            j,
        ) by {
            let k = choose|k: int| 0 <= k < oq.len() && oq[k] == j;
            assert(k >= 1);
            assert(q[k - 1] == j);
        }
        assert forall|k: int| 0 <= k < q.len() implies post.is_live(#[trigger] q[k]) by {
            assert(pre.is_live(oq[k + 1]));
        }
        assert forall|k: int| 0 <= k < q.len() - 1 implies #[trigger] post.chain_link_ok(k) by {
            assert(pre.chain_link_ok(k + 1));
            assert(q[k] == oq[k + 1] && q[k + 1] == oq[k + 2]);
        }
        assert(post.next_at(q.last()) is None) by {
            assert(q.last() == oq.last());
        }
        assert(!post.wake@.contains(0)) by {
            if post.wake@.contains(0) {
                assert(pre.wake@.contains(0));
                assert(oq[0] == 0);
            }
        }
        assert forall|j: int|
            1 <= j < post.nodes@.len() && j != front && post.is_live(j) implies #[trigger] post
            .node_ok(j) by {
            assert(pre.node_ok(j));
            assert(pre.wake@.contains(j) <==> post.wake@.contains(j) || j == front);
        }
        assert forall|j: int|
            1 <= j < post.nodes@.len() && j != front && post.is_live(j) implies #[trigger] post
            .queued_in_wake(j) by {
            assert(pre.node_ok(j));
            assert(pre.queued_in_wake(j));
        }
        assert(post.wf_except(front));
        if front == 0 {
            assert forall|j: int|
                1 <= j < post.nodes@.len() && post.is_live(j) implies #[trigger] post.node_ok(
                j,
            ) && post.queued_in_wake(j) by {
                assert(pre.node_ok(j));
                assert(pre.queued_in_wake(j));
                assert(pre.wake@.contains(j) <==> post.wake@.contains(j) || j == front);
            }
            assert forall|j: int|
                1 <= j < post.nodes@.len() && post.is_live(j) implies #[trigger] post
                .queued_in_wake(j) by {
                assert(post.node_ok(j) && post.queued_in_wake(j));
            }
            assert(post.wf_except(-1));
        }
    }

    /// The single-consumer dequeue of the intrusive queue.  Three outcomes:
    /// a node (never the sentinel), truly empty, or caught between a
    /// producer's head swap and its link store.
    #[verifier::rlimit(100)]
    fn dequeue(&mut self) -> (r: Dequeue)
        requires
            old(self).wf(),
        ensures
            final(self).nodes@.len() == old(self).nodes@.len(),
            forall|j: int|
                0 <= j < old(self).nodes@.len() ==> (old(self).node_eq_except_link(
                    *final(self),
                    j,
                ) && (final(self).is_live(j) <==> old(self).is_live(j))),
            final(self).len == old(self).len,
            final(self).inner_refs == old(self).inner_refs,
            final(self).woken == old(self).woken,
            final(self).closed == old(self).closed,
            final(self).stalled == old(self).stalled,
            final(self).pends_total() == old(self).pends_total(),
            final(self).live_total() == old(self).live_total(),
            count_in_all(final(self).nodes@) == count_in_all(old(self).nodes@),
            forall|j: int|
                final(self).wake@.contains(j) ==> old(self).wake@.contains(j) || j == 0,
            match r {
                Dequeue::Empty => {
                    &&& *final(self) == *old(self)
                    &&& final(self).wf()
                    &&& old(self).wake@[0] == 0
                    &&& old(self).tail_wake == 0
                    &&& old(self).next_at(0) is None
                    &&& (old(self).stalled is None ==> old(self).wake@ =~= seq![0int])
                },
                Dequeue::Inconsistent => {
                    &&& final(self).wf()
                    &&& old(self).stalled is Some
                    &&& final(self).wake@.len() <= old(self).wake@.len()
                },
                Dequeue::Data(n) => {
                    &&& final(self).wf_except(n as int)
                    &&& n != 0
                    &&& final(self).is_live(n as int)
                    &&& final(self).queued_at(n as int)
                    &&& old(self).wake@.contains(n as int)
                    &&& !final(self).wake@.contains(n as int)
                    &&& final(self).refs_at(n as int) == final(self).handle_refs_at(n as int) + 1
                    &&& (final(self).in_all_at(n as int) <==> final(self).task_at(n as int)
                        is Some)
                    &&& n as int == (if old(self).wake@[0] == 0 {
                        old(self).wake@[1]
                    } else {
                        old(self).wake@[0]
                    })
                    &&& (final(self).wake@.len() < old(self).wake@.len() || (final(self).wake@.len()
                        == old(self).wake@.len() && old(self).stub_out() == 1
                        && final(self).stub_out() == 0))
                },
            },
    {
        let ghost pre = *old(self);
        let n_slots = self.nodes.len();
        let mut tail = self.tail_wake;
        proof {
            assert(n_slots as nat == self.nodes@.len());
            assert(self.nodes@.len() <= usize::MAX as nat);
            assert(self.wake@[0] == tail as int);
            assert(self.wake@.contains(self.wake@[0]));
        }
        let mut next = self.link_of(tail);
        if tail == 0 {
            match next {
                None => {
                    proof {
                        if self.stalled is None && self.wake@.len() > 1 {
                            assert(self.chain_link_ok(0));
                            assert(false);
                        }
                        if self.stalled is None {
                            assert(self.wake@ =~= seq![0int]);
                        }
                    }
                    return Dequeue::Empty;
                },
                Some(nx) => {
                    proof {
                        if self.wake@.len() == 1 {
                            assert(self.next_at(self.wake@.last()) is None);
                            assert(false);
                        }
                        assert(self.chain_link_ok(0));
                        if self.stalled is Some && self.stall_idx@ == 0 {
                            assert(false);
                        }
                        assert(self.is_live(self.wake@[1]));
                        assert(self.next_at(self.wake@[0]) == Some(self.wake@[1] as usize));
                        assert(nx as int == self.wake@[1]);
                    }
                    self.tail_wake = nx;
                    proof {
                        self.wake@ = self.wake@.subrange(1, self.wake@.len() as int);
                        if self.stalled is Some {
                            self.stall_idx@ = self.stall_idx@ - 1;
                        }
                        Self::lemma_advance_front(pre, *self);
                        assert(self.wf());
                    }
                    tail = nx;
                    proof {
                        assert(self.wake@[0] == tail as int);
                        assert(self.wake@.contains(self.wake@[0]));
                        assert(tail != 0);
                    }
                    next = self.link_of(tail);
                },
            }
        }
        let ghost base = *self;
        // `base` is a well-formed state whose chain starts at `tail`, with
        // the sentinel no longer in front.
        proof {
            assert(base.wf());
            assert(base.wake@[0] == tail as int);
            assert(tail != 0);
        }
        match next {
            Some(nx) => {
                proof {
                    if self.wake@.len() == 1 {
                        assert(self.next_at(self.wake@.last()) is None);
                        assert(false);
                    }
                    assert(self.chain_link_ok(0));
                    if self.stalled is Some && self.stall_idx@ == 0 {
                        assert(false);
                    }
                    assert(self.is_live(self.wake@[1]));
                    assert(self.next_at(self.wake@[0]) == Some(self.wake@[1] as usize));
                    assert(nx as int == self.wake@[1]);
                }
                self.tail_wake = nx;
                proof {
                    self.wake@ = self.wake@.subrange(1, self.wake@.len() as int);
                    if self.stalled is Some {
                        self.stall_idx@ = self.stall_idx@ - 1;
                    }
                    Self::lemma_advance_front(base, *self);
                    assert(self.wf_except(tail as int));
                    assert(base.node_ok(tail as int));
                    assert(base.wake@.contains(base.wake@[0]));
                    assert(pre.wake@.contains(tail as int)) by {
                        if pre.wake@[0] == 0 {
                            assert(pre.wake@[1] == tail as int);
                        } else {
                            assert(pre.wake@[0] == tail as int);
                        }
                    }
                    assert(self.nodes@ == pre.nodes@);
                    assert forall|j: int| 0 <= j < pre.nodes@.len() implies pre
                        .node_eq_except_link(*self, j) && (self.is_live(j) <==> pre.is_live(
                        j,
                    )) by {}
                }
                return Dequeue::Data(tail);
            },
            None => {},
        }
        let head = self.head_wake;
        if head != tail {
            proof {
                // the chain has at least two entries yet the tail's link is
                // null: only an unpublished enqueue explains it
                assert(self.wake@.last() == head as int);
                if self.wake@.len() == 1 {
                    assert(false);
                }
                assert(self.chain_link_ok(0));
                if self.stalled is None {
                    assert(false);
                }
                assert(self.nodes@ == pre.nodes@);
                assert forall|j: int| 0 <= j < pre.nodes@.len() implies pre.node_eq_except_link(
                    *self,
                    j,
                ) && (self.is_live(j) <==> pre.is_live(j)) by {}
            }
            return Dequeue::Inconsistent;
        }
        proof {
            // head == tail: the chain is the lone tail node
            assert(self.wake@.last() == self.wake@[self.wake@.len() - 1]);
            if self.wake@.len() >= 2 {
                assert(self.wake@[0] != self.wake@[self.wake@.len() - 1]);
                assert(false);
            }
            assert(self.wake@ =~= seq![tail as int]);
            assert(!self.wake@.contains(0));
            if self.stalled is Some {
                assert(false);
            }
        }
        // Install a new terminator: push the sentinel, then re-read the link.
        self.enqueue_id(0);
        let ghost pe = *self;
        proof {
            assert(base.enqueue_rel(pe, 0));
            assert(tail != 0);
            assert(self.next_at(tail as int) == Some(0usize));
            assert(self.next_at(0) is None);
            assert forall|j: int|
                0 <= j < base.nodes@.len() implies #[trigger] base.node_eq_except_link(pe, j) by {
                assert((pe.is_live(j) <==> base.is_live(j)) && base.node_eq_except_link(pe, j));
            }
        }
        next = self.link_of(tail);
        match next {
            Some(nx) => {
                self.tail_wake = nx;
                proof {
                    assert(nx == 0);
                    self.wake@ = self.wake@.subrange(1, self.wake@.len() as int);
                    assert(self.wake@ =~= seq![0int]);
                    // rebuild the invariant for the one-element chain
                    assert(self.nodes@ == pe.nodes@);
                    assert forall|j: int|
                        0 <= j < base.nodes@.len() implies base.node_eq_except_link(*self, j)
                        && (self.is_live(j) <==> base.is_live(j)) by {
                        assert(base.node_eq_except_link(pe, j));
                    }
                    assert(self.is_live(0));
                    assert(self.tail_wake == 0 && self.head_wake == 0);
                    assert(self.next_at(0) is None);
                    assert(self.wake@[0] == 0 && self.wake@.last() == 0);
                    assert forall|j: int|
                        1 <= j < self.nodes@.len() && j != tail as int && self.is_live(j)
                        implies #[trigger] self.node_ok(j) by {
                        assert(base.node_eq_except_link(pe, j));
                        assert(base.is_live(j));
                        assert(base.node_ok(j));
                        assert(!base.wake@.contains(j));
                        assert(!self.wake@.contains(j));
                    }
                    assert forall|j: int|
                        1 <= j < self.nodes@.len() && j != tail as int && self.is_live(j)
                        implies #[trigger] self.queued_in_wake(j) by {
                        assert(base.node_eq_except_link(pe, j));
                        assert(base.is_live(j));
                        assert(base.node_ok(j));
                        assert(base.queued_in_wake(j));
                        assert(!base.wake@.contains(j));
                    }
                    assert(self.task_at(0) is None && !self.in_all_at(0) && self.queued_at(0)
                        && self.refs_at(0) == 1 && self.handle_refs_at(0) == 0);
                    assert(self.wf_except(tail as int));
                    assert(base.node_ok(tail as int));
                    assert(base.wake@.contains(tail as int));
                    assert(pre.wake@.contains(tail as int)) by {
                        if pre.wake@[0] == 0 {
                            assert(pre.wake@[1] == tail as int);
                        } else {
                            assert(pre.wake@[0] == tail as int);
                        }
                    }
                    assert(!self.wake@.contains(tail as int));
                    assert(base.nodes@ == pre.nodes@);
                    assert forall|j: int| 0 <= j < pre.nodes@.len() implies pre
                        .node_eq_except_link(*self, j) && (self.is_live(j) <==> pre.is_live(
                        j,
                    )) by {
                        assert(base.node_eq_except_link(pe, j));
                    }
                    assert forall|i: int|
                        0 <= i < pre.nodes@.len() implies pend_cost(#[trigger] pre.nodes@[i])
                        == pend_cost(self.nodes@[i]) && live_cost(pre.nodes@[i]) == live_cost(
                        self.nodes@[i],
                    ) by {
                        assert(pre.node_eq_except_link(*self, i));
                        if self.is_live(i) {
                            assert(self.task_at(i) == pre.task_at(i));
                        }
                    }
                    lemma_pends_congruence(pre.nodes@, self.nodes@);
                    lemma_live_congruence(pre.nodes@, self.nodes@);
                }
                return Dequeue::Data(tail);
            },
            None => {
                proof {
                    assert(false);
                }
                return Dequeue::Inconsistent;
            },
        }
    }

    /// A queue state in which exactly one node waits in the wake queue, its
    /// task ready to complete on its first poll without waking itself: the
    /// round-trip configuration after a single push of an immediate task.
    pub open spec fn lone_ready(self, n: int) -> bool {
        &&& !self.stall_active()
        &&& (self.wake_ids() =~= seq![n] || self.wake_ids() =~= seq![0int, n])
        &&& n != 0
        &&& self.is_live(n)
        &&& self.task_at(n) matches Some(t) && t.pending_polls == 0 && !t.wake_on_pending
    }

    /// Some live task in the queue has output `v`.
    pub open spec fn has_task_with_output(self, v: V) -> bool {
        exists|i: int| #[trigger] self.could_output(i, v)
    }

    /// Node `i` could be the source of output `v`.
    pub open spec fn could_output(self, i: int, v: V) -> bool {
        &&& self.is_live(i)
        &&& i != 0
        &&& match self.task_at(i) {
            Some(t) => t.output == v,
            None => false,
        }
    }

    /// How a task may have evolved under polling: same output, same waking
    /// habit, and no more pending polls than before.
    spec fn task_evolved(pre: Option<Task<V>>, cur: Option<Task<V>>) -> bool {
        match cur {
            Some(t) => match pre {
                Some(t0) => t.output == t0.output && t.wake_on_pending == t0.wake_on_pending
                    && t.pending_polls <= t0.pending_polls,
                None => false,
            },
            None => true,
        }
    }

    /// Reads whether node `i` holds a task, and if so its remaining pending
    /// polls and its waking habit, without disturbing the slot.
    fn task_probe(&self, i: usize) -> (r: Option<(usize, bool)>)
        requires
            self.is_live(i as int),
        ensures
            match r {
                Some(pw) => self.task_at(i as int) matches Some(t) && t.pending_polls == pw.0
                    && t.wake_on_pending == pw.1,
                None => self.task_at(i as int) is None,
            },
    {
        match &self.nodes[i] {
            Slot::Used(n) => match &n.task {
                Some(t) => Some((t.pending_polls, t.wake_on_pending)),
                None => None,
            },
            Slot::Free => None,
        }
    }

    /// One pending poll of the task in node `i`: its budget shrinks by one.
    fn task_tick(&mut self, i: usize)
        requires
            old(self).is_live(i as int),
            old(self).task_at(i as int) matches Some(t) && t.pending_polls >= 1,
        ensures
            old(self).ctrl_eq(*final(self)),
            old(self).nodes_eq_except(*final(self), i as int),
            final(self).is_live(i as int),
            final(self).queued_at(i as int) == old(self).queued_at(i as int),
            final(self).refs_at(i as int) == old(self).refs_at(i as int),
            final(self).handle_refs_at(i as int) == old(self).handle_refs_at(i as int),
            final(self).in_all_at(i as int) == old(self).in_all_at(i as int),
            final(self).next_at(i as int) == old(self).next_at(i as int),
            final(self).task_at(i as int) matches Some(t2)
                && old(self).task_at(i as int) matches Some(t)
                && t2.pending_polls + 1 == t.pending_polls && t2.output == t.output
                && t2.wake_on_pending == t.wake_on_pending,
            count_in_all(final(self).nodes@) == count_in_all(old(self).nodes@),
            final(self).pends_total() + 1 == old(self).pends_total(),
            final(self).live_total() == old(self).live_total(),
    {
        let slot = &mut self.nodes[i];
        match slot {
            Slot::Used(nd) => {
                match &mut nd.task {
                    Some(t) => {
                        t.pending_polls = t.pending_polls - 1;
                    },
                    None => {
                        proof {
                            assert(false);
                        }
                    },
                }
            },
            Slot::Free => {
                proof {
                    assert(false);
                }
            },
        }
        proof {
            lemma_count_in_all_update(old(self).nodes@, i as int, self.nodes@[i as int]);
            lemma_pends_update(old(self).nodes@, i as int, self.nodes@[i as int]);
            lemma_live_update(old(self).nodes@, i as int, self.nodes@[i as int]);
        }
    }

    /// The consumer releases a completed (or cancelled) node: set the
    /// `QUEUED` flag so any later notify is a no-op, take the task out,
    /// unlink the node from the all-list, and — unless the node was
    /// re-enqueued meanwhile — release the all-list's reference.
    fn release_node(&mut self, i: usize) -> (t: Option<Task<V>>)
        requires
            old(self).wf(),
            old(self).is_live(i as int),
            i != 0,
            old(self).in_all_at(i as int),
            old(self).stall_active() ==> old(self).stalled_id() != i as int,
        ensures
            final(self).wf(),
            t == old(self).task_at(i as int),
            t is Some,
            final(self).task_count() + 1 == old(self).task_count(),
            final(self).wake@ == old(self).wake@,
            final(self).woken == old(self).woken,
            final(self).closed == old(self).closed,
            final(self).stalled == old(self).stalled,
            final(self).inner_refs == old(self).inner_refs,
            final(self).nodes@.len() == old(self).nodes@.len(),
            forall|j: int|
                0 <= j < old(self).nodes@.len() && j != i as int ==> #[trigger] old(
                    self,
                ).node_eq_except_link(*final(self), j) && (final(self).is_live(j) <==> old(
                    self,
                ).is_live(j)),
            // a node that had been re-enqueued lingers in the queue
            old(self).queued_at(i as int) ==> final(self).is_live(i as int) && final(self).task_at(i as int) is None && !final(self).in_all_at(i as int),
            // otherwise only outstanding handles keep it alive
            !old(self).queued_at(i as int) && old(self).handle_refs_at(i as int) == 0
                ==> !final(self).is_live(i as int),
            !old(self).queued_at(i as int) && old(self).handle_refs_at(i as int) >= 1 ==> final(self).is_live(i as int) && final(self).task_at(i as int) is None && !final(self).in_all_at(i as int),
            final(self).is_live(i as int) ==> final(self).handle_refs_at(i as int) == old(
                self,
            ).handle_refs_at(i as int),
            final(self).pends_total() <= old(self).pends_total(),
            final(self).live_total() <= old(self).live_total(),
    {
        proof {
            assert(old(self).node_ok(i as int));
            assert(old(self).queued_in_wake(i as int));
            lemma_count_pos(old(self).nodes@, i as int);
        }
        // The task is done: set the queued flag, so that any future notify
        // becomes a no-op until the node is freed.
        let prev = self.set_queued(i, true);
        // Drop the task and unlink the node from the all-list.
        let mut t: Option<Task<V>> = None;
        {
            let slot = &mut self.nodes[i];
            match slot {
                Slot::Used(nd) => {
                    t = nd.task.take();
                    nd.in_all = false;
                },
                Slot::Free => {
                    proof {
                        assert(false);
                    }
                },
            }
        }
        self.len = self.len - 1;
        let ghost mid = *self;
        proof {
            lemma_count_in_all_update(
                old(self).nodes@.update(i as int, mid.nodes@[i as int]),
                i as int,
                mid.nodes@[i as int],
            );
            assert(old(self).nodes@.update(i as int, mid.nodes@[i as int]) =~= mid.nodes@);
            lemma_count_in_all_update(old(self).nodes@, i as int, mid.nodes@[i as int]);
            lemma_pends_update(old(self).nodes@, i as int, mid.nodes@[i as int]);
            lemma_live_update(old(self).nodes@, i as int, mid.nodes@[i as int]);
        }
        if !prev {
            // The flag was clear, so the node is in no queue: the reference
            // the all-list held is released here and now.
            proof {
                assert(!old(self).wake@.contains(i as int));
                assert(old(self).refs_at(i as int) == old(self).handle_refs_at(i as int) + 1);
            }
            self.release_slot(i, Ghost(false));
            proof {
                lemma_pends_update(mid.nodes@, i as int, self.nodes@[i as int]);
                lemma_live_update(mid.nodes@, i as int, self.nodes@[i as int]);
                assert(mid.nodes@.update(i as int, self.nodes@[i as int]) =~= self.nodes@);
            }
        }
        proof {
            Self::lemma_wf_after_update(*old(self), *self, i as int);
            if self.is_live(i as int) {
                assert(self.node_ok(i as int)) by {
                    if old(self).queued_at(i as int) {
                        assert(old(self).wake@.contains(i as int));
                        assert(self.refs_at(i as int) == old(self).refs_at(i as int));
                    }
                }
                assert(self.queued_in_wake(i as int));
            }
            Self::lemma_wf_close(*self, i as int);
        }
        t
    }

    /// Every node live in `self` was live in `base`, with a task that at
    /// most lost pending polls since.
    spec fn node_evolved(self, base: Self, j: int) -> bool {
        base.is_live(j) && Self::task_evolved(base.task_at(j), self.task_at(j))
    }

    spec fn evolves_from(self, base: Self) -> bool {
        forall|j: int|
            0 <= j < self.nodes@.len() && self.is_live(j) ==> #[trigger] self.node_evolved(
                base,
                j,
            )
    }

    /// Task evolution is reflexive on equal states and steps through a
    /// change of one node whose task evolved.
    proof fn lemma_evolves_step(b: Self, c: Self, i: int)
        requires
            c.nodes@.len() == b.nodes@.len(),
            forall|j: int|
                0 <= j < b.nodes@.len() && j != i ==> ((c.is_live(j) <==> #[trigger] b.is_live(
                    j,
                )) && c.task_at(j) == b.task_at(j)),
            0 <= i < b.nodes@.len() && c.is_live(i) ==> b.is_live(i) && Self::task_evolved(
                b.task_at(i),
                c.task_at(i),
            ),
        ensures
            c.evolves_from(b),
    {
        assert forall|j: int|
            0 <= j < c.nodes@.len() && c.is_live(j) implies #[trigger] c.node_evolved(b, j) by {
            if j != i {
                assert(b.is_live(j) <==> b.is_live(j));
            }
            assert(b.is_live(j));
            assert(Self::task_evolved(b.task_at(j), c.task_at(j)));
        }
    }

    /// Task evolution composes.
    proof fn lemma_evolves_trans(a: Self, b: Self, c: Self)
        requires
            b.evolves_from(a),
            c.evolves_from(b),
        ensures
            c.evolves_from(a),
    {
        assert forall|j: int|
            0 <= j < c.nodes@.len() && c.is_live(j) implies #[trigger] c.node_evolved(a, j) by {
            assert(c.node_evolved(b, j));
            assert(b.is_live(j));
            assert(b.node_evolved(a, j));
            assert(a.is_live(j));
            assert(Self::task_evolved(a.task_at(j), c.task_at(j)));
        }
    }

    /// Polls the queue for the next completed task.  Registers the consumer
    /// with the parent parker, then drains the wake queue: lingering
    /// references are dropped, pending tasks are polled — their `QUEUED`
    /// flag cleared first, so no wake is lost — and the first task to
    /// complete has its output returned and its node released.
    #[verifier::rlimit(100)]
    pub fn poll_next(&mut self) -> (r: PollNext<V>)
        requires
            old(self).wf(),
            !old(self).is_closed(),
        ensures
            final(self).wf(),
            !final(self).is_closed(),
            final(self).slot_count() == old(self).slot_count(),
            final(self).inner_ref_count() == old(self).inner_ref_count(),
            final(self).stall_active() == old(self).stall_active(),
            r is ReadyNone ==> final(self).task_count() == 0 && old(self).task_count() == 0,
            r is Pending ==> final(self).task_count() == old(self).task_count() && final(self).task_count() >= 1,
            r is Pending && !final(self).stall_active() ==> final(self).wake_ids()
                =~= seq![0int],
            r is ReadySome ==> final(self).task_count() + 1 == old(self).task_count(),
            r matches PollNext::ReadySome(v) ==> old(self).has_task_with_output(v),
            forall|n: int| #[trigger] old(self).lone_ready(n) ==> r == PollNext::ReadySome(
                old(self).task_at(n)->Some_0.output,
            ) && (old(self).handle_refs_at(n) == 0 ==> !final(self).is_live(n)),
    {
        // Ensure the parent parker holds the current consumer.
        self.woken = false;
        proof {
            Self::lemma_wf_frame(*old(self), *self);
        }
        loop
            invariant
                self.wf(),
                !self.closed,
                self.nodes@.len() == old(self).nodes@.len(),
                self.len == old(self).len,
                self.inner_refs == old(self).inner_refs,
                self.stalled == old(self).stalled,
                self.evolves_from(*old(self)),
                (exists|n: int| old(self).lone_ready(n)) ==> (self.nodes@ == old(self).nodes@
                    && self.wake@ == old(self).wake@ && self.tail_wake == old(self).tail_wake
                    && self.head_wake == old(self).head_wake && self.stall_idx@ == old(
                    self,
                ).stall_idx@),
            decreases
                self.pends_total(),
                self.live_total(),
                self.wake@.len(),
                (if self.wake@.contains(0) {
                    0int
                } else {
                    1int
                }),
        {
            let ghost it = *self;
            match self.dequeue() {
                Dequeue::Empty => {
                    proof {
                        if exists|n: int| old(self).lone_ready(n) {
                            let n = choose|n: int| old(self).lone_ready(n);
                            assert(it.wake@ == old(self).wake@);
                            if old(self).wake@ =~= seq![n] {
                                assert(it.wake@[0] == n);
                                assert(false);
                            } else {
                                assert(it.wake@.len() == 2 && it.wake@[1] == n);
                                assert(it.chain_link_ok(0));
                                assert(false);
                            }
                        }
                    }
                    if self.len == 0 {
                        return PollNext::ReadyNone;
                    } else {
                        return PollNext::Pending;
                    }
                },
                Dequeue::Inconsistent => {
                    // Yield: have the parker wake this consumer again at once.
                    let ghost mid = *self;
                    self.woken = true;
                    proof {
                        Self::lemma_wf_frame(mid, *self);
                        match self.stalled {
                            Some(s) => {
                                assert(self.in_all_at(s.node as int));
                                assert(all_cost(self.nodes@[s.node as int]) == 1);
                                lemma_count_pos(self.nodes@, s.node as int);
                            },
                            None => {
                                assert(false);
                            },
                        }
                        if exists|n: int| old(self).lone_ready(n) {
                            let n = choose|n: int| old(self).lone_ready(n);
                            assert(!old(self).stall_active());
                            assert(false);
                        }
                    }
                    return PollNext::Pending;
                },
                Dequeue::Data(n) => {
                    proof {
                        // the stalled node, if any, still sits in the chain
                        match self.stalled {
                            Some(s) => {
                                assert(self.wake@[self.stall_idx@ + 1] == s.node as int);
                                assert(self.wake@.contains(s.node as int));
                                assert(s.node != n);
                            },
                            None => {},
                        }
                        assert(it.node_ok(n as int));
                        assert(it.node_eq_except_link(*self, n as int));
                    }
                    match self.task_probe(n) {
                        None => {
                            // A lingering wake-queue reference on a released
                            // node: drop it; the slot may be freed here.
                            proof {
                                assert(!self.in_all_at(n as int));
                            }
                            let ghost before = *self;
                            self.release_slot(n, Ghost(false));
                            proof {
                                assert(before.nodes@.update(n as int, self.nodes@[n as int])
                                    =~= self.nodes@);
                                lemma_count_in_all_update(
                                    before.nodes@,
                                    n as int,
                                    self.nodes@[n as int],
                                );
                                lemma_pends_update(before.nodes@, n as int, self.nodes@[n as int]);
                                lemma_live_update(before.nodes@, n as int, self.nodes@[n as int]);
                                Self::lemma_wf_after_update(before, *self, n as int);
                                if self.is_live(n as int) {
                                    assert(self.node_ok(n as int));
                                    assert(self.queued_in_wake(n as int));
                                }
                                Self::lemma_wf_close(*self, n as int);
                                assert forall|j: int|
                                    0 <= j < it.nodes@.len() && j != -1 implies ((before.is_live(
                                    j,
                                ) <==> it.is_live(j)) && before.task_at(j) == it.task_at(j)) by {
                                    assert(it.node_eq_except_link(before, j));
                                }
                                Self::lemma_evolves_step(it, before, -1);
                                assert forall|j: int|
                                    0 <= j < before.nodes@.len() && j != n as int implies ((self
                                    .is_live(j) <==> before.is_live(j)) && self.task_at(j)
                                    == before.task_at(j)) by {
                                    assert(before.nodes@[j] == self.nodes@[j]);
                                }
                                Self::lemma_evolves_step(before, *self, n as int);
                                Self::lemma_evolves_trans(it, before, *self);
                                Self::lemma_evolves_trans(*old(self), it, *self);
                                if exists|n0: int| old(self).lone_ready(n0) {
                                    let n0 = choose|n0: int| old(self).lone_ready(n0);
                                    assert(n0 == n as int);
                                    assert(it.task_at(n as int) is Some);
                                    assert(false);
                                }
                            }
                        },
                        Some(pw) => {
                            // Unset the queued flag — before polling, so a
                            // wake racing with the poll is never lost.
                            let ghost before_clear = *self;
                            let _ = self.set_queued(n, false);
                            proof {
                                Self::lemma_wf_after_update(before_clear, *self, n as int);
                                assert(self.node_ok(n as int)) by {
                                    assert(self.in_all_at(n as int));
                                    assert(self.refs_at(n as int) == it.refs_at(n as int));
                                    assert(it.refs_at(n as int) <= MAX_REFS);
                                }
                                assert(self.queued_in_wake(n as int));
                                Self::lemma_wf_close(*self, n as int);
                            }
                            if pw.0 == 0 {
                                // The task completes on this poll.
                                if pw.1 {
                                    // ... and wakes its own node while at it.
                                    self.mark_and_enqueue(n);
                                    let ghost m2 = *self;
                                    self.woken = true;
                                    proof {
                                        Self::lemma_wf_frame(m2, *self);
                                    }
                                }
                                let ghost before_rel = *self;
                                let t = self.release_node(n);
                                match t {
                                    Some(task) => {
                                        proof {
                                            assert(before_rel.task_at(n as int) == Some(task));
                                            assert(it.node_eq_except_link(
                                                before_clear,
                                                n as int,
                                            ));
                                            assert(before_clear.task_at(n as int) == it.task_at(
                                                n as int,
                                            ));
                                            assert(it.task_at(n as int) matches Some(t0)
                                                && t0.output == task.output);
                                            assert(it.is_live(n as int));
                                            assert(it.node_evolved(*old(self), n as int));
                                            assert(old(self).is_live(n as int));
                                            assert(old(self).could_output(n as int, task.output));
                                            assert forall|n0: int|
                                                old(self).lone_ready(n0) implies n0 == n as int
                                                && old(self).task_at(n0)->Some_0.output
                                                == task.output && (old(self).handle_refs_at(n0)
                                                == 0 ==> !self.is_live(n0)) by {
                                                assert(it.wake@ == old(self).wake@);
                                                assert(old(self).task_at(n0) == it.task_at(
                                                    n0,
                                                ));
                                                assert(!pw.1);
                                                assert(!before_rel.queued_at(n as int));
                                                assert(before_rel.handle_refs_at(n as int) == old(
                                                    self,
                                                ).handle_refs_at(n0));
                                            }
                                        }
                                        proof {
                                            assert(self.task_count() + 1 == old(
                                                self,
                                            ).task_count());
                                            assert(old(self).has_task_with_output(
                                                task.output,
                                            ));
                                        }
                                        return PollNext::ReadySome(task.output);
                                    },
                                    None => {
                                        proof {
                                            assert(false);
                                        }
                                        return PollNext::Pending;
                                    },
                                }
                            } else {
                                // The task stays pending: one budget unit is
                                // consumed.
                                let ghost before_tick = *self;
                                self.task_tick(n);
                                let ghost after_tick = *self;
                                proof {
                                    Self::lemma_wf_after_update(before_tick, *self, n as int);
                                    assert(self.node_ok(n as int)) by {
                                        assert(self.refs_at(n as int) == it.refs_at(n as int));
                                        assert(it.refs_at(n as int) <= MAX_REFS);
                                    }
                                    assert(self.queued_in_wake(n as int));
                                    Self::lemma_wf_close(*self, n as int);
                                }
                                if pw.1 {
                                    // A reentrant wake from within the poll:
                                    // the node goes straight back in line.
                                    self.mark_and_enqueue(n);
                                    let ghost m3 = *self;
                                    self.woken = true;
                                    proof {
                                        Self::lemma_wf_frame(m3, *self);
                                        assert forall|j: int|
                                            0 <= j < after_tick.nodes@.len() && j != n as int
                                            implies #[trigger] after_tick.node_eq_except_link(
                                            *self,
                                            j,
                                        ) by {
                                            assert(after_tick.node_eq_except_link(m3, j));
                                            assert(self.nodes@ == m3.nodes@);
                                        }
                                    }
                                }
                                proof {
                                    assert forall|j: int|
                                        0 <= j < it.nodes@.len() && j != -1 implies ((before_clear
                                        .is_live(j) <==> it.is_live(j)) && before_clear.task_at(j)
                                        == it.task_at(j)) by {
                                        assert(it.node_eq_except_link(before_clear, j));
                                    }
                                    Self::lemma_evolves_step(it, before_clear, -1);
                                    assert forall|j: int|
                                        0 <= j < before_clear.nodes@.len() && j != n as int
                                        implies ((before_tick.is_live(j) <==> before_clear.is_live(
                                        j,
                                    )) && before_tick.task_at(j) == before_clear.task_at(j)) by {
                                        assert(before_clear.nodes@[j] == before_tick.nodes@[j]);
                                    }
                                    Self::lemma_evolves_step(before_clear, before_tick, n as int);
                                    assert forall|j: int|
                                        0 <= j < before_tick.nodes@.len() && j != n as int
                                        implies ((self.is_live(j) <==> before_tick.is_live(j))
                                        && self.task_at(j) == before_tick.task_at(j)) by {
                                        assert(after_tick.nodes@[j] == before_tick.nodes@[j]);
                                        if pw.1 {
                                            assert(after_tick.node_eq_except_link(*self, j));
                                        } else {
                                            assert(self.nodes@[j] == after_tick.nodes@[j]);
                                        }
                                    }
                                    Self::lemma_evolves_step(before_tick, *self, n as int);
                                    Self::lemma_evolves_trans(it, before_clear, before_tick);
                                    Self::lemma_evolves_trans(it, before_tick, *self);
                                    Self::lemma_evolves_trans(*old(self), it, *self);
                                    assert(self.pends_total() < it.pends_total());
                                    if exists|n0: int| old(self).lone_ready(n0) {
                                        let n0 = choose|n0: int| old(self).lone_ready(n0);
                                        assert(n0 == n as int);
                                        assert(it.task_at(n as int)->Some_0.pending_polls == 0);
                                        assert(false);
                                    }
                                }
                            }
                        },
                    }
                },
            }
        }
    }

    /// Whether node `i` is a live all-list member.
    fn is_task_node(&self, i: usize) -> (r: bool)
        requires
            i < self.slot_count(),
        ensures
            r == (self.is_live(i as int) && self.in_all_at(i as int)),
    {
        match &self.nodes[i] {
            Slot::Used(n) => n.in_all,
            Slot::Free => false,
        }
    }

    /// Closes the queue, as destroying it would: every task still held is
    /// released, the wake queue is drained of lingering entries, and the
    /// queue's own reference to the inner block is dropped.  A node kept
    /// alive by outstanding wake handles survives, poisoned, until its last
    /// `ref_dec`; with no handles outstanding every node is freed and only
    /// the sentinel, owned by the inner block, remains.
    #[verifier::rlimit(100)]
    pub fn close(&mut self)
        requires
            old(self).wf(),
            !old(self).is_closed(),
            !old(self).stall_active(),
        ensures
            final(self).wf(),
            final(self).is_closed(),
            final(self).task_count() == 0,
            final(self).slot_count() == old(self).slot_count(),
            final(self).inner_ref_count() + 1 == old(self).inner_ref_count(),
            final(self).wake_ids() =~= seq![0int],
            final(self).is_live(0),
            forall|j: int|
                1 <= j < old(self).slot_count() && #[trigger] final(self).is_live(j) ==> old(
                    self,
                ).is_live(j) && final(self).handle_refs_at(j) == old(self).handle_refs_at(j)
                    && final(self).refs_at(j) == final(self).handle_refs_at(j),
            forall|j: int|
                1 <= j < old(self).slot_count() && old(self).is_live(j) && old(
                    self,
                ).handle_refs_at(j) == 0 ==> !(#[trigger] final(self).is_live(j)),
    {
        let total = self.nodes.len();
        // Walk the all-list and release every node still on it.
        let mut i: usize = 1;
        while i < total
            invariant
                self.wf(),
                !self.closed,
                self.stalled is None,
                total == self.nodes@.len(),
                total == old(self).nodes@.len(),
                1 <= i <= total,
                self.inner_refs == old(self).inner_refs,
                forall|j: int| 1 <= j < i ==> !(self.is_live(j) && #[trigger] self.in_all_at(j)),
                forall|j: int|
                    1 <= j < total && #[trigger] self.is_live(j) ==> old(self).is_live(j)
                        && self.handle_refs_at(j) == old(self).handle_refs_at(j),
            decreases total - i,
        {
            if self.is_task_node(i) {
                let ghost before = *self;
                let _ = self.release_node(i);
                proof {
                    assert forall|j: int| 1 <= j < i + 1 implies !(self.is_live(j)
                        && #[trigger] self.in_all_at(j)) by {
                        if j < i {
                            assert(before.node_eq_except_link(*self, j));
                            assert(!(before.is_live(j) && before.in_all_at(j)));
                        }
                    }
                    assert forall|j: int|
                        1 <= j < total && #[trigger] self.is_live(j) implies old(self).is_live(j)
                        && self.handle_refs_at(j) == old(self).handle_refs_at(j) by {
                        if j != i as int {
                            assert(before.node_eq_except_link(*self, j));
                            assert(before.is_live(j));
                        } else {
                            assert(before.is_live(j));
                        }
                    }
                }
            }
            i = i + 1;
        }
        proof {
            assert forall|j: int|
                0 <= j < self.nodes@.len() implies all_cost(#[trigger] self.nodes@[j]) == 0 by {
                if j >= 1 {
                    assert(!(self.is_live(j) && self.in_all_at(j)));
                }
                assert(!self.in_all_at(0));
            }
            lemma_count_zero(self.nodes@);
            assert(self.len == 0);
        }
        // Drain the wake queue: what remains there are lingering references.
        loop
            invariant
                self.wf(),
                !self.closed,
                self.stalled is None,
                self.nodes@.len() == old(self).nodes@.len(),
                self.len == 0,
                self.inner_refs == old(self).inner_refs,
                forall|j: int|
                    1 <= j < self.nodes@.len() ==> !(self.is_live(j) && #[trigger] self.in_all_at(
                        j,
                    )),
                forall|j: int|
                    1 <= j < self.nodes@.len() && #[trigger] self.is_live(j) ==> old(
                        self,
                    ).is_live(j) && self.handle_refs_at(j) == old(self).handle_refs_at(j),
            ensures
                self.wf(),
                !self.closed,
                self.stalled is None,
                self.nodes@.len() == old(self).nodes@.len(),
                self.len == 0,
                self.inner_refs == old(self).inner_refs,
                self.wake@ =~= seq![0int],
                forall|j: int|
                    1 <= j < self.nodes@.len() && #[trigger] self.is_live(j) ==> old(
                        self,
                    ).is_live(j) && self.handle_refs_at(j) == old(self).handle_refs_at(j),
                forall|j: int|
                    1 <= j < self.nodes@.len() ==> !(self.is_live(j) && #[trigger] self.in_all_at(
                        j,
                    )),
            decreases
                self.pends_total(),
                self.live_total(),
                self.wake@.len(),
                (if self.wake@.contains(0) {
                    0int
                } else {
                    1int
                }),
        {
            let ghost it = *self;
            match self.dequeue() {
                Dequeue::Empty => {
                    proof {
                        assert(it.wake@ =~= seq![0int]);
                    }
                    break ;
                },
                Dequeue::Inconsistent => {
                    proof {
                        assert(false);
                    }
                    break ;
                },
                Dequeue::Data(n) => {
                    proof {
                        assert(it.node_ok(n as int));
                        assert(it.node_eq_except_link(*self, n as int));
                        assert(!self.in_all_at(n as int));
                        assert(self.task_at(n as int) is None);
                    }
                    let ghost before = *self;
                    self.release_slot(n, Ghost(false));
                    proof {
                        assert(before.nodes@.update(n as int, self.nodes@[n as int])
                            =~= self.nodes@);
                        lemma_count_in_all_update(before.nodes@, n as int, self.nodes@[n as int]);
                        lemma_pends_update(before.nodes@, n as int, self.nodes@[n as int]);
                        lemma_live_update(before.nodes@, n as int, self.nodes@[n as int]);
                        Self::lemma_wf_after_update(before, *self, n as int);
                        if self.is_live(n as int) {
                            assert(self.node_ok(n as int));
                            assert(self.queued_in_wake(n as int));
                        }
                        Self::lemma_wf_close(*self, n as int);
                        assert forall|j: int|
                            1 <= j < self.nodes@.len() && #[trigger] self.is_live(j) implies old(
                            self,
                        ).is_live(j) && self.handle_refs_at(j) == old(self).handle_refs_at(j) by {
                            if j != n as int {
                                assert(before.nodes@[j] == self.nodes@[j]);
                                assert(it.is_live(j));
                            } else {
                                assert(it.is_live(j));
                            }
                        }
                        assert forall|j: int|
                            1 <= j < self.nodes@.len() implies !(self.is_live(j)
                            && #[trigger] self.in_all_at(j)) by {
                            assert(!(it.is_live(j) && it.in_all_at(j)));
                            if j != n as int {
                                assert(it.node_eq_except_link(before, j));
                                assert(before.nodes@[j] == self.nodes@[j]);
                            } else {
                                if self.is_live(j) {
                                    assert(self.in_all_at(j) == before.in_all_at(j));
                                    assert(before.in_all_at(j) == it.in_all_at(j));
                                }
                            }
                        }
                    }
                },
            }
        }
        // Drop the queue's reference to the shared inner block.
        let ghost drained = *self;
        self.closed = true;
        proof {
            Self::lemma_wf_frame(drained, *self);
        }
        self.drop_raw();
        proof {
            assert(self.nodes@ == drained.nodes@);
            assert(self.wake@ == drained.wake@);
            assert(self.wake@ =~= seq![0int]);
            assert forall|j: int|
                1 <= j < self.nodes@.len() && j != 0 implies !(#[trigger] self.wake@.contains(
                j,
            )) by {
                if self.wake@.contains(j) {
                    let k = choose|k: int| 0 <= k < self.wake@.len() && self.wake@[k] == j;
                    assert(self.wake@[0] == 0);
                }
            }
            assert forall|j: int|
                1 <= j < old(self).slot_count() && #[trigger] self.is_live(j) implies old(
                self,
            ).is_live(j) && self.handle_refs_at(j) == old(self).handle_refs_at(j)
                && self.refs_at(j) == self.handle_refs_at(j) by {
                assert(drained.is_live(j));
                assert(!(drained.is_live(j) && drained.in_all_at(j)));
                assert(self.node_ok(j));
                assert(!self.in_all_at(j));
                assert(!self.wake@.contains(j));
            }
            assert forall|j: int|
                1 <= j < old(self).slot_count() && old(self).is_live(j) && old(
                self,
            ).handle_refs_at(j) == 0 implies !(#[trigger] self.is_live(j)) by {
                if self.is_live(j) {
                    assert(drained.is_live(j));
                    assert(!(drained.is_live(j) && drained.in_all_at(j)));
                    assert(self.node_ok(j));
                    assert(self.refs_at(j) >= 1);
                    assert(self.handle_refs_at(j) == old(self).handle_refs_at(j));
                    assert(!self.in_all_at(j));
                    assert(!self.wake@.contains(j));
                    assert(false);
                }
            }
        }
    }

    /// The test hook for the transient publication gap: performs a wake's
    /// flag transition and the queue-head swap, but stalls before storing
    /// the forward link — the state a consumer observes as `Inconsistent`.
    /// Returns whether an enqueue was begun at all: with the flag already
    /// set the wake is a no-op, exactly as in `notify`.
    pub fn notify_stall(&mut self, id: u64) -> (r: bool)
        requires
            old(self).wf(),
            id != 0,
            id < old(self).slot_count(),
            old(self).is_live(id as int),
            !old(self).stall_active(),
        ensures
            final(self).wf(),
            r == !old(self).queued_at(id as int),
            !r ==> *final(self) == *old(self),
            r ==> final(self).stall_active(),
            r ==> final(self).stalled_id() == id as int,
            r ==> final(self).wake_ids() == old(self).wake_ids().push(id as int),
            r ==> final(self).wake_signal() == old(self).wake_signal(),
            r ==> final(self).task_count() == old(self).task_count(),
            r ==> final(self).slot_count() == old(self).slot_count(),
            r ==> final(self).is_closed() == old(self).is_closed(),
            r ==> final(self).inner_ref_count() == old(self).inner_ref_count(),
    {
        let n_slots = self.nodes.len();
        let i = id as usize;
        proof {
            assert(n_slots as nat == self.nodes@.len());
            assert(i as nat == id as nat);
        }
        if self.queued_of(i) {
            return false;
        }
        proof {
            assert(old(self).node_ok(id as int));
            assert(old(self).in_all_at(id as int));
            assert(!old(self).wake@.contains(id as int));
            assert(old(self).wake@.contains(old(self).wake@.last()));
        }
        let _ = self.set_queued(i, true);
        // The first enqueue step: null the node's own link.
        self.set_link(i, None);
        let ghost mid = *self;
        // The second: swap the queue head.  The third, storing the forward
        // link of the previous head, is left to `finish_notify`.
        let prevh = self.head_wake;
        self.head_wake = i;
        self.stalled = Some(Stall { prev: prevh, node: i });
        proof {
            self.stall_idx@ = old(self).wake@.len() - 1;
            self.wake@ = self.wake@.push(id as int);
            let q = self.wake@;
            let oq = old(self).wake@;
            assert(q.last() == id as int);
            assert forall|k: int| 0 <= k < q.len() implies self.is_live(#[trigger] q[k]) by {
                if k < q.len() - 1 {
                    assert(oq[k] == q[k]);
                    assert(old(self).is_live(q[k]));
                    assert(mid.nodes@[q[k]] == self.nodes@[q[k]]);
                }
            }
            assert forall|k: int, l: int| 0 <= k < l < q.len() implies q[k] != q[l] by {
                if l < q.len() - 1 {
                    assert(oq[k] == q[k] && oq[l] == q[l]);
                } else {
                    assert(oq.contains(q[k]));
                }
            }
            assert forall|k: int| 0 <= k < q.len() - 1 implies #[trigger] self.chain_link_ok(
                k,
            ) by {
                if k < q.len() - 2 {
                    assert(old(self).chain_link_ok(k));
                    assert(oq.contains(oq[k]));
                    assert(oq[k] != id as int);
                    assert(self.nodes@[oq[k]] == mid.nodes@[oq[k]]);
                    assert(mid.next_at(oq[k]) == old(self).next_at(oq[k]));
                } else {
                    // the break itself: the previous head's link is null
                    assert(q[k] == prevh as int);
                    assert(oq[k] != id as int);
                    assert(self.next_at(prevh as int) == old(self).next_at(prevh as int));
                }
            }
            assert(self.next_at(q.last()) is None);
            assert(q.contains(0) ==> q[0] == 0) by {
                if q.contains(0) {
                    let k = choose|k: int| 0 <= k < q.len() && q[k] == 0;
                    assert(k < q.len() - 1);
                    assert(oq[k] == 0);
                    assert(oq.contains(0));
                }
            }
            assert forall|j: int|
                1 <= j < self.nodes@.len() && self.is_live(j) implies #[trigger] self.node_ok(
                j,
            ) by {
                assert(self.wake@.contains(j) ==> old(self).wake@.contains(j) || j == id as int)
                    by {
                    if self.wake@.contains(j) {
                        let k = choose|k: int| 0 <= k < q.len() && q[k] == j;
                        if k < q.len() - 1 {
                            assert(oq[k] == j);
                        }
                    }
                }
                assert(old(self).wake@.contains(j) ==> self.wake@.contains(j)) by {
                    if old(self).wake@.contains(j) {
                        let k = choose|k: int| 0 <= k < oq.len() && oq[k] == j;
                        assert(q[k] == j);
                    }
                }
                if j == id as int {
                    assert(self.in_all_at(j));
                    assert(self.refs_at(j) == old(self).refs_at(j));
                    assert(self.handle_refs_at(j) == old(self).handle_refs_at(j));
                    assert(old(self).node_ok(j));
                } else {
                    assert(self.nodes@[j] == mid.nodes@[j]);
                    assert(old(self).is_live(j));
                    assert(old(self).node_ok(j));
                }
            }
            assert forall|j: int|
                1 <= j < self.nodes@.len() && self.is_live(j) implies #[trigger] self
                .queued_in_wake(j) by {
                if j == id as int {
                    assert(self.wake@.contains(j));
                } else {
                    assert(self.nodes@[j] == mid.nodes@[j]);
                    assert(old(self).is_live(j));
                    assert(old(self).queued_in_wake(j));
                    assert(old(self).wake@.contains(j) ==> self.wake@.contains(j)) by {
                        if old(self).wake@.contains(j) {
                            let k = choose|k: int| 0 <= k < oq.len() && oq[k] == j;
                            assert(q[k] == j);
                        }
                    }
                }
            }
            assert(self.nodes@[0] == mid.nodes@[0]);
            assert(mid.nodes@[0] == old(self).nodes@[0]);
            assert(self.wf_except(-1));
        }
        true
    }

    /// Completes a stalled enqueue: the forward link of the previous head is
    /// published, and the parent parker then wakes the consumer.
    pub fn finish_notify(&mut self)
        requires
            old(self).wf(),
            old(self).stall_active(),
        ensures
            final(self).wf(),
            !final(self).stall_active(),
            final(self).wake_ids() == old(self).wake_ids(),
            final(self).wake_signal(),
            final(self).task_count() == old(self).task_count(),
            final(self).slot_count() == old(self).slot_count(),
            final(self).is_closed() == old(self).is_closed(),
            final(self).inner_ref_count() == old(self).inner_ref_count(),
    {
        let (p, nd) = match self.stalled {
            Some(s) => (s.prev, s.node),
            None => (0usize, 0usize),
        };
        proof {
            let q = self.wake@;
            assert(q[self.stall_idx@] == p as int);
            assert(q.contains(q[self.stall_idx@]));
        }
        // The delayed third step of the enqueue.
        self.set_link(p, Some(nd));
        let ghost mid = *self;
        self.stalled = None;
        // Notify the parent now that the enqueue is complete.
        self.woken = true;
        proof {
            let q = self.wake@;
            let gi = old(self).stall_idx@;
            assert forall|k: int| 0 <= k < q.len() implies self.is_live(#[trigger] q[k]) by {
                assert(old(self).is_live(q[k]));
                if q[k] != p as int {
                    assert(self.nodes@[q[k]] == old(self).nodes@[q[k]]);
                }
            }
            assert forall|k: int| 0 <= k < q.len() - 1 implies #[trigger] self.chain_link_ok(
                k,
            ) by {
                assert(old(self).chain_link_ok(k));
                assert(q.contains(q[k]));
                if k != gi {
                    assert(q[k] != p as int);
                    assert(self.nodes@[q[k]] == old(self).nodes@[q[k]]);
                } else {
                    assert(self.next_at(p as int) == Some(nd));
                }
            }
            assert(self.next_at(q.last()) is None) by {
                assert(q.last() != p as int);
                assert(self.nodes@[q.last()] == old(self).nodes@[q.last()]);
                assert(old(self).next_at(q.last()) is None);
            }
            assert forall|j: int|
                1 <= j < self.nodes@.len() && self.is_live(j) implies #[trigger] self.node_ok(
                j,
            ) by {
                assert(old(self).is_live(j));
                assert(old(self).node_ok(j));
                if j != p as int {
                    assert(self.nodes@[j] == old(self).nodes@[j]);
                }
            }
            assert forall|j: int|
                1 <= j < self.nodes@.len() && self.is_live(j) implies #[trigger] self
                .queued_in_wake(j) by {
                assert(old(self).is_live(j));
                assert(old(self).node_ok(j));
                assert(old(self).queued_in_wake(j));
                if j != p as int {
                    assert(self.nodes@[j] == old(self).nodes@[j]);
                }
            }
            assert(self.nodes@[0] == old(self).nodes@[0] || p == 0);
            assert(self.wf_except(-1));
        }
    }

    /// The number of tasks contained by the queue: all in-flight tasks,
    /// ready or not.
    pub fn len(&self) -> (r: usize)
        ensures
            r == self.task_count(),
    {
        self.len
    }

    /// Whether the queue contains no tasks.
    pub fn is_empty(&self) -> (r: bool)
        ensures
            r == (self.task_count() == 0),
    {
        self.len == 0
    }

    /// How many node identifiers have been handed out, the sentinel's
    /// included: one per push, never reused.
    pub fn slots(&self) -> (r: usize)
        ensures
            r == self.slot_count(),
    {
        self.nodes.len()
    }

    /// The number of node allocations currently alive, the sentinel not
    /// counted.
    pub closed spec fn live_node_count(self) -> nat {
        (live_seq(self.nodes@) - 1) as nat
    }

    /// Counts the nodes still allocated, the sentinel aside: what a leak
    /// check sees after tasks complete, handles drop and the queue closes.
    pub fn live_nodes(&self) -> (r: usize)
        requires
            self.wf(),
        ensures
            r as nat == self.live_node_count(),
    {
        let total = self.nodes.len();
        let mut acc: usize = 0;
        let mut i: usize = 0;
        proof {
            assert(self.nodes@.subrange(0, 0) =~= Seq::<Slot<V>>::empty());
        }
        while i < total
            invariant
                i <= total,
                total == self.nodes@.len(),
                acc <= i,
                acc as nat == live_seq(self.nodes@.subrange(0, i as int)),
                self.wf(),
            decreases total - i,
        {
            let live = match &self.nodes[i] {
                Slot::Used(n) => true,
                Slot::Free => false,
            };
            proof {
                let pre = self.nodes@.subrange(0, i as int);
                let post = self.nodes@.subrange(0, i as int + 1);
                assert(post.drop_last() =~= pre);
                assert(post.last() == self.nodes@[i as int]);
            }
            if live {
                acc = acc + 1;
            }
            i = i + 1;
        }
        proof {
            assert(self.nodes@.subrange(0, total as int) =~= self.nodes@);
            assert(self.is_live(0));
            lemma_live_pos(self.nodes@, 0);
        }
        acc - 1
    }

    /// Whether a wake signal for the consumer is pending: set by the parent
    /// parker when a wake arrives or when the consumer asks to retry, and
    /// taken back at the start of every `poll_next`.
    pub fn wake_signalled(&self) -> (r: bool)
        ensures
            r == self.wake_signal(),
    {
        self.woken
    }
}

proof fn lemma_live_pos<V>(s: Seq<Slot<V>>, i: int)
    requires
        0 <= i < s.len(),
        s[i] is Used,
    ensures
        live_seq(s) >= 1,
    decreases s.len(),
{
    if i < s.len() - 1 {
        lemma_live_pos(s.drop_last(), i);
    }
}

} // verus!
