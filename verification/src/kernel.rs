//! The scheduler core: tasks, ready queues, the timer queue and the
//! priority-ceiling mask, tied together by one index-conservation invariant.
//!
//! Each software task owns a fixed pool of payload slots.  A slot index is,
//! at every instant, in exactly one place: the task's free queue, the ready
//! queue of the task's priority level, or the timer queue.  Spawning moves an
//! index from the free queue to a ready or timer queue; dispatching and
//! cancellation move it back.  The invariant [`Kernel::wf`] states this
//! discipline and every operation preserves it; capacity exhaustion, payload
//! preservation and the dispatch order all follow from it.
//!
//! Concurrency is interrupt-driven preemption on a single core, modelled by
//! the ceiling mask: code at priority `p` may run only while `p` exceeds the
//! mask, and a critical section raises the mask to the accessed resource's
//! ceiling.  The kernel is the process-wide state that the real system keeps
//! in statics guarded by that masking; callers hand it around explicitly.

use vstd::prelude::*;

use crate::fifo::Fifo;
use crate::pool::SlotPool;
use crate::seqs::lemma_no_dup_drop_first;
use crate::seqs::lemma_no_dup_insert;
use crate::seqs::lemma_no_dup_push;
use crate::seqs::lemma_no_dup_remove;
use crate::time::Duration;
use crate::time::Instant;
use crate::timer::NotReady;
use crate::timer::TimerQueue;
use crate::timer::has_marker;

verus! {

/// Static description of one software task: its fixed priority (larger is
/// higher; level 0 is the idle level, so task priorities start at 1) and the
/// maximum number of pending activations it may have.
#[derive(Clone, Copy, PartialEq, Eq, Structural, Debug)]
pub struct TaskDesc {
    pub priority: u8,
    pub capacity: usize,
}

impl TaskDesc {
    /// A task of priority `priority` with `capacity` payload slots.
    pub fn new(priority: u8, capacity: usize) -> (r: TaskDesc)
        ensures
            r.priority == priority,
            r.capacity == capacity,
    {
        TaskDesc { priority, capacity }
    }
}

/// One pending activation in a ready queue: the task's tag and the slot its
/// payload sits in.
#[derive(Clone, Copy, PartialEq, Eq, Structural, Debug)]
pub struct Activation {
    pub task: usize,
    pub index: usize,
}

/// The capability returned by a deferred spawn: names the pending activation
/// by its marker, and is consumed by cancellation or reschedule.
pub struct SpawnHandle {
    marker: u64,
}

impl SpawnHandle {
    /// The marker the schedule call stamped on the activation.
    pub closed spec fn marker(&self) -> u64 {
        self.marker
    }
}

/// Token recording the mask a critical section must restore on exit.
pub struct CeilingGuard {
    prev: u8,
}

impl CeilingGuard {
    /// The mask in force when the section was entered.
    pub closed spec fn prev(&self) -> u8 {
        self.prev
    }
}

/// The ceiling of a resource: the highest priority among the tasks that
/// access it (0 if nothing does, in which case no lock is ever needed).
pub fn compute_ceiling(priorities: &Vec<u8>) -> (r: u8)
    ensures
        forall|j: int| 0 <= j < priorities@.len() ==> #[trigger] priorities@[j] <= r,
        priorities@.len() == 0 ==> r == 0,
        priorities@.len() > 0 ==> priorities@.contains(r),
{
    let mut r: u8 = 0;
    let mut k: usize = 0;
    while k < priorities.len()
        invariant
            k <= priorities@.len(),
            forall|j: int| 0 <= j < k ==> #[trigger] priorities@[j] <= r,
            k == 0 ==> r == 0,
            k > 0 ==> priorities@.contains(r),
        decreases priorities@.len() - k,
    {
        if priorities[k] > r {
            r = priorities[k];
        }
        proof {
            if priorities@.contains(r) || priorities@[k as int] == r {
                assert(exists|j: int| 0 <= j < priorities@.len() && priorities@[j] == r);
            }
        }
        k = k + 1;
    }
    r
}

/// The slot indices that entries of task `t` hold in a ready queue, in queue
/// order.
pub open spec fn ready_indices(s: Seq<Activation>, t: int) -> Seq<usize>
    decreases s.len(),
{
    if s.len() == 0 {
        Seq::empty()
    } else {
        let rest = ready_indices(s.drop_last(), t);
        if s.last().task == t {
            rest.push(s.last().index)
        } else {
            rest
        }
    }
}

/// The slot indices that entries of task `t` hold in the timer queue, in
/// queue order.
pub open spec fn timer_indices(s: Seq<NotReady>, t: int) -> Seq<usize>
    decreases s.len(),
{
    if s.len() == 0 {
        Seq::empty()
    } else {
        let rest = timer_indices(s.drop_last(), t);
        if s.last().task == t {
            rest.push(s.last().index)
        } else {
            rest
        }
    }
}

proof fn lemma_ready_indices_push(s: Seq<Activation>, e: Activation, t: int)
    ensures
        ready_indices(s.push(e), t) == if e.task == t {
            ready_indices(s, t).push(e.index)
        } else {
            ready_indices(s, t)
        },
{
    assert(s.push(e).drop_last() =~= s);
    assert(s.push(e).last() == e);
}

proof fn lemma_ready_indices_concat(a: Seq<Activation>, b: Seq<Activation>, t: int)
    ensures
        ready_indices(a + b, t) == ready_indices(a, t) + ready_indices(b, t),
    decreases b.len(),
{
    if b.len() == 0 {
        assert(a + b =~= a);
        assert(ready_indices(a, t) + ready_indices(b, t) =~= ready_indices(a, t));
    } else {
        lemma_ready_indices_concat(a, b.drop_last(), t);
        assert((a + b).drop_last() =~= a + b.drop_last());
        assert((a + b).last() == b.last());
        if b.last().task == t {
            assert(ready_indices(a, t) + ready_indices(b, t) =~= (ready_indices(a, t)
                + ready_indices(b.drop_last(), t)).push(b.last().index));
        }
    }
}

proof fn lemma_timer_indices_concat(a: Seq<NotReady>, b: Seq<NotReady>, t: int)
    ensures
        timer_indices(a + b, t) == timer_indices(a, t) + timer_indices(b, t),
    decreases b.len(),
{
    if b.len() == 0 {
        assert(a + b =~= a);
        assert(timer_indices(a, t) + timer_indices(b, t) =~= timer_indices(a, t));
    } else {
        lemma_timer_indices_concat(a, b.drop_last(), t);
        assert((a + b).drop_last() =~= a + b.drop_last());
        assert((a + b).last() == b.last());
        if b.last().task == t {
            assert(timer_indices(a, t) + timer_indices(b, t) =~= (timer_indices(a, t)
                + timer_indices(b.drop_last(), t)).push(b.last().index));
        }
    }
}

/// Splitting a ready queue at its front element splits its per-task indices.
proof fn lemma_ready_indices_first(s: Seq<Activation>, t: int)
    requires
        s.len() > 0,
    ensures
        ready_indices(s, t) == if s[0].task == t {
            seq![s[0].index] + ready_indices(s.drop_first(), t)
        } else {
            ready_indices(s.drop_first(), t)
        },
{
    assert(s =~= seq![s[0]] + s.drop_first());
    lemma_ready_indices_concat(seq![s[0]], s.drop_first(), t);
    assert(seq![s[0]].drop_last() =~= Seq::<Activation>::empty());
    assert(ready_indices(Seq::<Activation>::empty(), t) == Seq::<usize>::empty());
    if s[0].task == t {
        assert(ready_indices(seq![s[0]], t) =~= seq![s[0].index]);
    } else {
        assert(ready_indices(seq![s[0]], t) =~= Seq::<usize>::empty());
        assert(Seq::<usize>::empty() + ready_indices(s.drop_first(), t) =~= ready_indices(
            s.drop_first(),
            t,
        ));
    }
}

/// Splitting the timer queue at its front element splits its per-task
/// indices.
proof fn lemma_timer_indices_first(s: Seq<NotReady>, t: int)
    requires
        s.len() > 0,
    ensures
        timer_indices(s, t) == if s[0].task == t {
            seq![s[0].index] + timer_indices(s.drop_first(), t)
        } else {
            timer_indices(s.drop_first(), t)
        },
{
    assert(s =~= seq![s[0]] + s.drop_first());
    lemma_timer_indices_concat(seq![s[0]], s.drop_first(), t);
    assert(seq![s[0]].drop_last() =~= Seq::<NotReady>::empty());
    assert(timer_indices(Seq::<NotReady>::empty(), t) == Seq::<usize>::empty());
    if s[0].task == t {
        assert(timer_indices(seq![s[0]], t) =~= seq![s[0].index]);
    } else {
        assert(timer_indices(seq![s[0]], t) =~= Seq::<usize>::empty());
        assert(Seq::<usize>::empty() + timer_indices(s.drop_first(), t) =~= timer_indices(
            s.drop_first(),
            t,
        ));
    }
}

/// Inserting a timer entry splits the per-task indices around the insertion
/// point.
proof fn lemma_timer_indices_insert(s: Seq<NotReady>, e: NotReady, p: int, t: int)
    requires
        0 <= p <= s.len(),
    ensures
        timer_indices(s, t) == timer_indices(s.take(p), t) + timer_indices(s.skip(p), t),
        timer_indices(s.insert(p, e), t) == timer_indices(s.take(p), t) + (if e.task == t {
            seq![e.index]
        } else {
            Seq::<usize>::empty()
        }) + timer_indices(s.skip(p), t),
{
    assert(s =~= s.take(p) + s.skip(p));
    lemma_timer_indices_concat(s.take(p), s.skip(p), t);
    assert(s.insert(p, e) =~= s.take(p) + (seq![e] + s.skip(p)));
    lemma_timer_indices_concat(s.take(p), seq![e] + s.skip(p), t);
    lemma_timer_indices_first(seq![e] + s.skip(p), t);
    assert((seq![e] + s.skip(p))[0] == e);
    assert((seq![e] + s.skip(p)).drop_first() =~= s.skip(p));
    if e.task == t {
        assert(timer_indices(s.take(p), t) + (seq![e.index] + timer_indices(s.skip(p), t))
            =~= timer_indices(s.take(p), t) + seq![e.index] + timer_indices(s.skip(p), t));
    } else {
        assert(timer_indices(s.take(p), t) + Seq::<usize>::empty() + timer_indices(s.skip(p), t)
            =~= timer_indices(s.take(p), t) + timer_indices(s.skip(p), t));
    }
}

/// Removing a timer entry splits the per-task indices around the removal
/// point.
proof fn lemma_timer_indices_remove(s: Seq<NotReady>, j: int, t: int)
    requires
        0 <= j < s.len(),
    ensures
        timer_indices(s, t) == timer_indices(s.take(j), t) + (if s[j].task == t {
            seq![s[j].index]
        } else {
            Seq::<usize>::empty()
        }) + timer_indices(s.skip(j + 1), t),
        timer_indices(s.remove(j), t) == timer_indices(s.take(j), t) + timer_indices(
            s.skip(j + 1),
            t,
        ),
{
    assert(s.remove(j) =~= s.take(j) + s.skip(j + 1));
    lemma_timer_indices_concat(s.take(j), s.skip(j + 1), t);
    assert(s =~= s.take(j) + (seq![s[j]] + s.skip(j + 1)));
    lemma_timer_indices_concat(s.take(j), seq![s[j]] + s.skip(j + 1), t);
    lemma_timer_indices_first(seq![s[j]] + s.skip(j + 1), t);
    assert((seq![s[j]] + s.skip(j + 1))[0] == s[j]);
    assert((seq![s[j]] + s.skip(j + 1)).drop_first() =~= s.skip(j + 1));
    if s[j].task == t {
        assert(timer_indices(s.take(j), t) + (seq![s[j].index] + timer_indices(s.skip(j + 1), t))
            =~= timer_indices(s.take(j), t) + seq![s[j].index] + timer_indices(s.skip(j + 1), t));
    } else {
        assert(timer_indices(s.take(j), t) + Seq::<usize>::empty() + timer_indices(
            s.skip(j + 1),
            t,
        ) =~= timer_indices(s.take(j), t) + timer_indices(s.skip(j + 1), t));
    }
}

/// A ready-queue entry's slot index appears among its task's indices.
proof fn lemma_ready_indices_mem(s: Seq<Activation>, t: int, j: int)
    requires
        0 <= j < s.len(),
        s[j].task == t,
    ensures
        ready_indices(s, t).contains(s[j].index),
    decreases s.len(),
{
    if j == s.len() - 1 {
        let idxs = ready_indices(s, t);
        assert(idxs[idxs.len() - 1] == s[j].index);
    } else {
        lemma_ready_indices_mem(s.drop_last(), t, j);
        assert(s.drop_last()[j] == s[j]);
        let rest = ready_indices(s.drop_last(), t);
        let k = choose|k: int| 0 <= k < rest.len() && rest[k] == s[j].index;
        assert(ready_indices(s, t)[k] == s[j].index);
    }
}

/// A timer entry's slot index appears among its task's indices.
proof fn lemma_timer_indices_mem(s: Seq<NotReady>, t: int, j: int)
    requires
        0 <= j < s.len(),
        s[j].task == t,
    ensures
        timer_indices(s, t).contains(s[j].index),
    decreases s.len(),
{
    if j == s.len() - 1 {
        let idxs = timer_indices(s, t);
        assert(idxs[idxs.len() - 1] == s[j].index);
    } else {
        lemma_timer_indices_mem(s.drop_last(), t, j);
        assert(s.drop_last()[j] == s[j]);
        let rest = timer_indices(s.drop_last(), t);
        let k = choose|k: int| 0 <= k < rest.len() && rest[k] == s[j].index;
        assert(timer_indices(s, t)[k] == s[j].index);
    }
}

/// Every index among a task's ready indices comes from some entry of that
/// task.
proof fn lemma_ready_indices_src(s: Seq<Activation>, t: int, x: usize)
    requires
        ready_indices(s, t).contains(x),
    ensures
        exists|j: int| 0 <= j < s.len() && (#[trigger] s[j]).task == t && s[j].index == x,
    decreases s.len(),
{
    if s.len() > 0 {
        let idxs = ready_indices(s, t);
        let rest = ready_indices(s.drop_last(), t);
        if s.last().task == t && x == s.last().index {
            assert(s[s.len() - 1].task == t && s[s.len() - 1].index == x);
        } else {
            assert(rest.contains(x)) by {
                let k = choose|k: int| 0 <= k < idxs.len() && idxs[k] == x;
                if s.last().task == t {
                    assert(k < idxs.len() - 1);
                    assert(rest[k] == x);
                } else {
                    assert(rest[k] == x);
                }
            }
            lemma_ready_indices_src(s.drop_last(), t, x);
            let j = choose|j: int|
                0 <= j < s.drop_last().len() && (#[trigger] s.drop_last()[j]).task == t
                    && s.drop_last()[j].index == x;
            assert(s[j].task == t && s[j].index == x);
        }
    }
}

/// Every index among a task's timer indices comes from some entry of that
/// task.
proof fn lemma_timer_indices_src(s: Seq<NotReady>, t: int, x: usize)
    requires
        timer_indices(s, t).contains(x),
    ensures
        exists|j: int| 0 <= j < s.len() && (#[trigger] s[j]).task == t && s[j].index == x,
    decreases s.len(),
{
    if s.len() > 0 {
        let idxs = timer_indices(s, t);
        let rest = timer_indices(s.drop_last(), t);
        if s.last().task == t && x == s.last().index {
            assert(s[s.len() - 1].task == t && s[s.len() - 1].index == x);
        } else {
            assert(rest.contains(x)) by {
                let k = choose|k: int| 0 <= k < idxs.len() && idxs[k] == x;
                if s.last().task == t {
                    assert(k < idxs.len() - 1);
                    assert(rest[k] == x);
                } else {
                    assert(rest[k] == x);
                }
            }
            lemma_timer_indices_src(s.drop_last(), t, x);
            let j = choose|j: int|
                0 <= j < s.drop_last().len() && (#[trigger] s.drop_last()[j]).task == t
                    && s.drop_last()[j].index == x;
            assert(s[j].task == t && s[j].index == x);
        }
    }
}

/// The number of leading timer entries due at `now`.  In a queue ordered by
/// firing time the due entries are exactly a prefix.
pub open spec fn n_due(s: Seq<NotReady>, now: Instant) -> nat
    decreases s.len(),
{
    if s.len() == 0 {
        0
    } else if s[0].instant.ticks > now.ticks {
        0
    } else {
        1 + n_due(s.drop_first(), now)
    }
}

/// If the first `k` entries are due and the one after them is not (or the
/// queue ends there), then exactly `k` entries are due.
proof fn lemma_n_due_split(s: Seq<NotReady>, now: Instant, k: int)
    requires
        0 <= k <= s.len(),
        forall|j: int| 0 <= j < k ==> (#[trigger] s[j]).instant.ticks <= now.ticks,
        k == s.len() || s[k].instant.ticks > now.ticks,
    ensures
        n_due(s, now) == k,
    decreases k,
{
    if k == 0 {
    } else {
        assert(s[0].instant.ticks <= now.ticks);
        let r = s.drop_first();
        assert forall|j: int| 0 <= j < k - 1 implies (#[trigger] r[j]).instant.ticks
            <= now.ticks by {
            assert(r[j] == s[j + 1]);
        }
        if k < s.len() {
            assert(r[k - 1] == s[k]);
        }
        lemma_n_due_split(r, now, k - 1);
    }
}

/// Two distinct queued entries of the same task hold distinct slot indices,
/// provided the task's index projection has no duplicates.
proof fn lemma_ready_indices_distinct(s: Seq<Activation>, t: int, a: int, b: int)
    requires
        ready_indices(s, t).no_duplicates(),
        0 <= a < b < s.len(),
        s[a].task == t,
        s[b].task == t,
    ensures
        s[a].index != s[b].index,
    decreases s.len(),
{
    let idxs = ready_indices(s, t);
    let rest = ready_indices(s.drop_last(), t);
    if b == s.len() - 1 {
        lemma_ready_indices_mem(s.drop_last(), t, a);
        assert(s.drop_last()[a] == s[a]);
        if s[a].index == s[b].index {
            let k = choose|k: int| 0 <= k < rest.len() && rest[k] == s[a].index;
            assert(idxs[k] == idxs[idxs.len() - 1]);
            assert(false);
        }
    } else {
        assert(rest.no_duplicates()) by {
            assert forall|x: int, y: int|
                0 <= x < rest.len() && 0 <= y < rest.len() && x != y implies rest[x] != rest[y] by {
                assert(idxs[x] == rest[x]);
                assert(idxs[y] == rest[y]);
            }
        }
        lemma_ready_indices_distinct(s.drop_last(), t, a, b);
        assert(s.drop_last()[a] == s[a]);
        assert(s.drop_last()[b] == s[b]);
    }
}

/// The scheduler core.  `P` is the payload type carried from a spawn to the
/// task body it activates.
pub struct Kernel<P> {
    tasks: Vec<TaskDesc>,
    pools: Vec<SlotPool<P>>,
    ready: Vec<Fifo<Activation>>,
    timer: TimerQueue,
    next_marker: u64,
    mask: u8,
    clock: Option<Instant>,
    compare: Option<Instant>,
}

impl<P: Copy> Kernel<P> {
    /// The number of software tasks.
    pub closed spec fn n_tasks(&self) -> nat {
        self.tasks@.len()
    }

    /// The number of priority levels, the idle level 0 included.
    pub closed spec fn n_levels(&self) -> nat {
        self.ready@.len()
    }

    /// The declared priority of task `t`.
    pub closed spec fn task_priority(&self, t: int) -> u8 {
        self.tasks@[t].priority
    }

    /// The declared capacity of task `t`.
    pub closed spec fn task_capacity(&self, t: int) -> nat {
        self.tasks@[t].capacity as nat
    }

    /// The ready queue of priority level `l`, front (next dispatched) first.
    pub closed spec fn ready_at(&self, l: int) -> Seq<Activation> {
        self.ready@[l]@
    }

    /// The timer queue, next activation due first.
    pub closed spec fn timer_view(&self) -> Seq<NotReady> {
        self.timer@
    }

    /// The payload slots of task `t`: `Some` where a payload is pending.
    pub closed spec fn slots(&self, t: int) -> Seq<Option<P>> {
        self.pools@[t].slot_view()
    }

    /// The free queue of task `t`: its vacant slot indices, next reserved
    /// first.
    pub closed spec fn free_list(&self, t: int) -> Seq<usize> {
        self.pools@[t].free_list()
    }

    /// The number of vacant payload slots of task `t`.
    pub open spec fn free_len(&self, t: int) -> nat {
        self.free_list(t).len()
    }

    /// The number of pending (occupied) payload slots of task `t`.
    pub open spec fn n_pending(&self, t: int) -> nat {
        crate::pool::count_occupied(self.slots(t))
    }

    /// The next vacant slot a reservation for task `t` would take.
    pub open spec fn free_head(&self, t: int) -> usize {
        self.free_list(t)[0]
    }

    /// True if slot `i` of task `t` holds a pending payload.
    pub open spec fn occupied(&self, t: int, i: int) -> bool {
        0 <= i < self.slots(t).len() && self.slots(t)[i] is Some
    }

    /// The payload pending in slot `i` of task `t`.
    pub open spec fn payload_at(&self, t: int, i: int) -> P
        recommends
            self.occupied(t, i),
    {
        self.slots(t)[i]->0
    }

    /// The current ceiling mask: only priorities above it may run.
    pub closed spec fn mask(&self) -> u8 {
        self.mask
    }

    /// True once the monotonic clock has been handed to the runtime.
    pub closed spec fn clock_started(&self) -> bool {
        self.clock is Some
    }

    /// The clock's current reading.
    pub closed spec fn now_spec(&self) -> Instant
        recommends
            self.clock_started(),
    {
        self.clock->0
    }

    /// The marker the next schedule call will stamp.  The counter is 64
    /// bits wide: a narrower, wrapping counter could let a fresh marker
    /// collide with a very old, still-pending activation and make a cancel
    /// or reschedule target the wrong entry.  At this width exhaustion lies
    /// beyond any feasible schedule sequence, so the scheduling operations
    /// simply require headroom instead of wrapping, and markers in flight
    /// are always distinct.
    pub closed spec fn next_marker(&self) -> u64 {
        self.next_marker
    }

    /// The armed compare value: the instant of the next timer-queue wakeup,
    /// or `None` when nothing is deferred.
    pub closed spec fn compare_spec(&self) -> Option<Instant> {
        self.compare
    }

    /// True if level `l` has work and the mask admits it: a pended
    /// dispatcher at `l` would run now.
    pub open spec fn eligible(&self, l: int) -> bool {
        &&& 0 <= l < self.n_levels()
        &&& (self.mask() as int) < l
        &&& self.ready_at(l).len() > 0
    }

    /// What a well-formed ready-queue entry at level `l` satisfies: a real
    /// task, of that very priority, whose named slot is occupied.
    pub closed spec fn act_ok(&self, l: int, e: Activation) -> bool {
        &&& (e.task as int) < self.n_tasks()
        &&& (self.tasks@[e.task as int].priority as int) == l
        &&& self.pools@[e.task as int].occupied(e.index as int)
    }

    /// What a well-formed timer entry satisfies: a real task, an occupied
    /// slot, a marker older than the next one to be stamped.
    pub closed spec fn nr_ok(&self, e: NotReady) -> bool {
        &&& (e.task as int) < self.n_tasks()
        &&& self.pools@[e.task as int].occupied(e.index as int)
        &&& e.marker < self.next_marker
    }

    /// The slot indices task `t` has pending in its level's ready queue.
    pub closed spec fn rq_idx(&self, t: int) -> Seq<usize> {
        ready_indices(self.ready_at(self.tasks@[t].priority as int), t)
    }

    /// The slot indices task `t` has pending in the timer queue.
    pub closed spec fn tq_idx(&self, t: int) -> Seq<usize> {
        timer_indices(self.timer@, t)
    }

    /// No slot index of task `t` is queued twice.
    pub closed spec fn distinct_pending(&self, t: int) -> bool {
        &&& self.rq_idx(t).no_duplicates()
        &&& self.tq_idx(t).no_duplicates()
        &&& self.rq_idx(t).disjoint(self.tq_idx(t))
    }

    /// The clock's state as the contracts speak of it: unchanged clocks
    /// agree on having started and on their reading.
    pub open spec fn same_clock(&self, pre: Kernel<P>) -> bool {
        &&& self.clock_started() == pre.clock_started()
        &&& pre.clock_started() ==> self.now_spec() == pre.now_spec()
    }

    /// The static layout itself is untouched: the very same task table,
    /// pool count and level count.
    pub closed spec fn same_layout(&self, pre: Kernel<P>) -> bool {
        &&& self.tasks == pre.tasks
        &&& self.pools@.len() == pre.pools@.len()
        &&& self.ready@.len() == pre.ready@.len()
    }

    /// Same task set: as many tasks, with the same priorities and
    /// capacities.
    pub open spec fn same_tasks(&self, pre: Kernel<P>) -> bool {
        &&& self.n_tasks() == pre.n_tasks()
        &&& forall|t: int|
            0 <= t < pre.n_tasks() ==> #[trigger] self.task_priority(t) == pre.task_priority(t)
        &&& forall|t: int|
            0 <= t < pre.n_tasks() ==> #[trigger] self.task_capacity(t) == pre.task_capacity(t)
    }

    /// Same tasks, pool contents and queue contents.
    pub open spec fn same_queues(&self, pre: Kernel<P>) -> bool {
        &&& self.same_tasks(pre)
        &&& forall|t: int| 0 <= t < pre.n_tasks() ==> #[trigger] self.slots(t) == pre.slots(t)
        &&& forall|t: int|
            0 <= t < pre.n_tasks() ==> #[trigger] self.free_list(t) == pre.free_list(t)
        &&& self.n_levels() == pre.n_levels()
        &&& forall|l: int|
            0 <= l < pre.n_levels() ==> #[trigger] self.ready_at(l) == pre.ready_at(l)
        &&& self.timer_view() == pre.timer_view()
    }

    /// True if nothing observable changed from `pre` to `self`: same tasks,
    /// same slots and free queues, same ready and timer queues, same mask,
    /// clock, compare value and marker counter.
    pub open spec fn unchanged_views(&self, pre: Kernel<P>) -> bool {
        &&& self.same_queues(pre)
        &&& self.next_marker() == pre.next_marker()
        &&& self.mask() == pre.mask()
        &&& self.same_clock(pre)
        &&& self.compare_spec() == pre.compare_spec()
    }

    /// True if `self` differs from `pre` at most in the ceiling mask.
    pub open spec fn unchanged_but_mask(&self, pre: Kernel<P>) -> bool {
        &&& self.same_queues(pre)
        &&& self.next_marker() == pre.next_marker()
        &&& self.same_clock(pre)
        &&& self.compare_spec() == pre.compare_spec()
    }

    /// True if `self` differs from `pre` at most in the clock reading.
    pub open spec fn unchanged_but_clock(&self, pre: Kernel<P>) -> bool {
        &&& self.same_queues(pre)
        &&& self.next_marker() == pre.next_marker()
        &&& self.mask() == pre.mask()
        &&& self.compare_spec() == pre.compare_spec()
    }

    /// The kernel's invariant.  Beyond each component's own well-formedness:
    /// every queued activation names a real task of the queue's own priority
    /// level and an occupied slot; no slot index is queued twice; every
    /// queued marker is older than the counter; and the armed compare value
    /// is the head of the timer queue.
    pub closed spec fn wf(&self) -> bool {
        &&& self.pools@.len() == self.tasks@.len()
        &&& 1 <= self.ready@.len() <= 256
        &&& forall|t: int|
            0 <= t < self.tasks@.len() ==> {
                &&& 1 <= (#[trigger] self.tasks@[t]).priority
                &&& (self.tasks@[t].priority as int) < self.ready@.len()
                &&& self.pools@[t].wf()
                &&& self.pools@[t].capacity() == self.tasks@[t].capacity
            }
        &&& forall|l: int, j: int|
            0 <= l < self.ready@.len() && 0 <= j < self.ready_at(l).len() ==> self.act_ok(
                l,
                #[trigger] self.ready_at(l)[j],
            )
        &&& self.timer.wf()
        &&& forall|j: int|
            0 <= j < self.timer@.len() ==> self.nr_ok(#[trigger] self.timer@[j])
        &&& forall|t: int| 0 <= t < self.tasks@.len() ==> self.distinct_pending(t)
        &&& self.timer@.len() == 0 ==> self.compare is None
        &&& self.timer@.len() > 0 ==> self.compare == Some(self.timer@[0].instant)
    }

    /// The invariant is a property of the views alone: a kernel whose queues
    /// and pools show the same contents, with the same marker counter and
    /// compare value, is well-formed too.  The mask and the clock do not
    /// enter the invariant at all.
    proof fn lemma_wf_frame(a: Kernel<P>, b: Kernel<P>)
        requires
            a.wf(),
            b.same_queues(a),
            b.pools@.len() == a.pools@.len(),
            b.next_marker >= a.next_marker,
            b.compare == a.compare,
        ensures
            b.wf(),
    {
        assert(b.tasks@.len() == a.tasks@.len());
        assert forall|t: int| 0 <= t < b.tasks@.len() implies {
            &&& 1 <= (#[trigger] b.tasks@[t]).priority
            &&& (b.tasks@[t].priority as int) < b.ready@.len()
            &&& b.pools@[t].wf()
            &&& b.pools@[t].capacity() == b.tasks@[t].capacity
        } by {
            assert(1 <= a.tasks@[t].priority);
            assert(b.task_priority(t) == a.task_priority(t));
            assert(b.task_capacity(t) == a.task_capacity(t));
            assert(b.slots(t) =~= a.slots(t));
            assert(b.free_list(t) =~= a.free_list(t));
            a.pools@[t].lemma_wf_from_views(&b.pools@[t]);
        }
        assert forall|l: int, j: int|
            0 <= l < b.ready@.len() && 0 <= j < b.ready_at(l).len() implies b.act_ok(
            l,
            #[trigger] b.ready_at(l)[j],
        ) by {
            assert(b.ready_at(l) == a.ready_at(l));
            assert(a.act_ok(l, a.ready_at(l)[j]));
            let t = a.ready_at(l)[j].task as int;
            assert(b.task_priority(t) == a.task_priority(t));
            assert(b.slots(t) == a.slots(t));
        }
        assert forall|j: int| 0 <= j < b.timer@.len() implies b.nr_ok(
            #[trigger] b.timer@[j],
        ) by {
            assert(a.nr_ok(a.timer@[j]));
            assert(b.slots(a.timer@[j].task as int) == a.slots(a.timer@[j].task as int));
        }
        assert forall|t: int| 0 <= t < b.tasks@.len() implies b.distinct_pending(t) by {
            assert(a.distinct_pending(t));
            assert(b.task_priority(t) == a.task_priority(t));
            assert(b.ready_at(b.tasks@[t].priority as int) == a.ready_at(
                a.tasks@[t].priority as int,
            ));
            assert(b.rq_idx(t) == a.rq_idx(t));
            assert(b.tq_idx(t) == a.tq_idx(t));
        }
    }

    /// A kernel for the given task set, with `levels` priority levels above
    /// the idle level.  All slots start vacant, all queues empty, the mask
    /// at the idle level, the clock not yet started.
    pub fn new(tasks: Vec<TaskDesc>, levels: u8) -> (r: Kernel<P>)
        requires
            forall|t: int|
                0 <= t < tasks@.len() ==> 1 <= (#[trigger] tasks@[t]).priority <= levels,
        ensures
            r.wf(),
            r.n_tasks() == tasks@.len(),
            r.n_levels() == levels + 1,
            forall|t: int|
                0 <= t < tasks@.len() ==> #[trigger] r.task_priority(t) == tasks@[t].priority,
            forall|t: int|
                0 <= t < tasks@.len() ==> #[trigger] r.task_capacity(t) == tasks@[t].capacity,
            forall|t: int|
                0 <= t < tasks@.len() ==> #[trigger] r.free_len(t) == tasks@[t].capacity,
            forall|t: int| 0 <= t < tasks@.len() ==> #[trigger] r.n_pending(t) == 0,
            forall|l: int| 0 <= l < r.n_levels() ==> (#[trigger] r.ready_at(l)).len() == 0,
            r.timer_view().len() == 0,
            r.mask() == 0,
            !r.clock_started(),
            r.next_marker() == 0,
            r.compare_spec() is None,
    {
        let mut pools: Vec<SlotPool<P>> = Vec::new();
        let mut k: usize = 0;
        while k < tasks.len()
            invariant
                k <= tasks@.len(),
                pools@.len() == k,
                forall|t: int|
                    0 <= t < k ==> (#[trigger] pools@[t]).wf() && pools@[t].capacity()
                        == tasks@[t].capacity && pools@[t].n_occupied() == 0 && pools@[t].n_free()
                        == tasks@[t].capacity,
            decreases tasks@.len() - k,
        {
            pools.push(SlotPool::new(tasks[k].capacity));
            k = k + 1;
        }
        let mut ready: Vec<Fifo<Activation>> = Vec::new();
        let n_levels: usize = levels as usize + 1;
        let mut l: usize = 0;
        while l < n_levels
            invariant
                l <= n_levels,
                ready@.len() == l,
                forall|j: int| 0 <= j < l ==> (#[trigger] ready@[j])@.len() == 0,
            decreases n_levels - l,
        {
            ready.push(Fifo::new());
            l = l + 1;
        }
        let r = Kernel {
            tasks,
            pools,
            ready,
            timer: TimerQueue::new(),
            next_marker: 0,
            mask: 0,
            clock: None,
            compare: None,
        };
        proof {
            assert forall|t: int| 0 <= t < r.tasks@.len() implies r.distinct_pending(t) by {
                assert(r.ready_at(r.tasks@[t].priority as int).len() == 0);
                assert(r.rq_idx(t) =~= Seq::<usize>::empty());
                assert(r.tq_idx(t) =~= Seq::<usize>::empty());
            }
        }
        r
    }

    /// Hands the monotonic clock to the runtime at reading `at`.
    pub fn start_clock(&mut self, at: Instant)
        requires
            !old(self).clock_started(),
        ensures
            final(self).clock_started(),
            final(self).now_spec() == at,
            final(self).unchanged_but_clock(*old(self)),
            old(self).wf() ==> final(self).wf(),
    {
        self.clock = Some(at);
        proof {
            if old(self).wf() {
                Self::lemma_wf_frame(*old(self), *self);
            }
        }
    }

    /// The clock's current reading.  Using the clock before it is handed to
    /// the runtime is a programming error the caller must rule out.
    pub fn now(&self) -> (r: Instant)
        requires
            self.clock_started(),
        ensures
            r == self.now_spec(),
    {
        self.clock.unwrap()
    }

    /// The compare value currently armed on the clock: the instant of the
    /// next timer-queue wakeup, or `None` while nothing is deferred.
    pub fn next_compare(&self) -> (r: Option<Instant>)
        ensures
            r == self.compare_spec(),
    {
        self.compare
    }

    /// The ceiling mask currently in force; what a resource access inside a
    /// critical section hands to [`crate::resource::Resource::borrow`].
    pub fn current_mask(&self) -> (r: u8)
        ensures
            r == self.mask(),
    {
        self.mask
    }

    /// True if priority `p` exceeds the current mask: an interrupt of
    /// priority `p` arriving now would preempt immediately.
    pub fn can_preempt(&self, p: u8) -> (r: bool)
        ensures
            r == (p > self.mask()),
    {
        p > self.mask
    }

    /// Enters a critical section on a resource with the given ceiling:
    /// raises the mask so that no task of priority at or below the ceiling
    /// can run, and returns the token that restores the previous mask.
    /// Raising to a ceiling at or below the current mask extends the section
    /// as a no-op.
    pub fn lock(&mut self, ceiling: u8) -> (g: CeilingGuard)
        ensures
            g.prev() == old(self).mask(),
            final(self).mask() == if ceiling > old(self).mask() {
                ceiling
            } else {
                old(self).mask()
            },
            final(self).unchanged_but_mask(*old(self)),
            old(self).wf() ==> final(self).wf(),
    {
        let g = CeilingGuard { prev: self.mask };
        if ceiling > self.mask {
            self.mask = ceiling;
        }
        proof {
            if old(self).wf() {
                Self::lemma_wf_frame(*old(self), *self);
            }
        }
        g
    }

    /// Leaves a critical section: restores the mask the matching `lock`
    /// recorded, unconditionally.
    pub fn unlock(&mut self, g: CeilingGuard)
        ensures
            final(self).mask() == g.prev(),
            final(self).unchanged_but_mask(*old(self)),
            old(self).wf() ==> final(self).wf(),
    {
        self.mask = g.prev;
        proof {
            if old(self).wf() {
                Self::lemma_wf_frame(*old(self), *self);
            }
        }
    }

    /// The effect of a successful immediate spawn of `task` with `payload`:
    /// the head free slot `i` of the task's pool now holds the payload, the
    /// activation `(task, i)` sits at the back of the task's priority-level
    /// ready queue, and nothing else changed.
    pub open spec fn spawned(&self, pre: Kernel<P>, task: usize, payload: P) -> bool {
        let t = task as int;
        let l = pre.task_priority(t) as int;
        let i = pre.free_head(t);
        &&& pre.free_len(t) > 0
        &&& self.same_tasks(pre)
        &&& self.n_levels() == pre.n_levels()
        &&& self.ready_at(l) == pre.ready_at(l).push(Activation { task, index: i })
        &&& forall|l2: int|
            0 <= l2 < pre.n_levels() && l2 != l ==> #[trigger] self.ready_at(l2) == pre.ready_at(
                l2,
            )
        &&& self.slots(t) == pre.slots(t).update(i as int, Some(payload))
        &&& self.free_list(t) == pre.free_list(t).drop_first()
        &&& forall|t2: int|
            0 <= t2 < pre.n_tasks() && t2 != t ==> #[trigger] self.slots(t2) == pre.slots(t2)
        &&& forall|t2: int|
            0 <= t2 < pre.n_tasks() && t2 != t ==> #[trigger] self.free_list(t2)
                == pre.free_list(t2)
        &&& self.timer_view() == pre.timer_view()
        &&& self.next_marker() == pre.next_marker()
        &&& self.mask() == pre.mask()
        &&& self.same_clock(pre)
        &&& self.compare_spec() == pre.compare_spec()
    }

    /// The effect of dispatching the head activation of level `level`: its
    /// entry left the ready queue, its payload `r.1` was read out of its
    /// slot, the slot went back to the free queue, and nothing else changed.
    /// The task body itself runs in the caller, after this returns.
    pub open spec fn dispatched(&self, pre: Kernel<P>, level: usize, r: (usize, P)) -> bool {
        let l = level as int;
        let e = pre.ready_at(l)[0];
        let t = e.task as int;
        &&& pre.ready_at(l).len() > 0
        &&& r.0 == e.task
        &&& r.1 == pre.payload_at(t, e.index as int)
        &&& self.same_tasks(pre)
        &&& self.n_levels() == pre.n_levels()
        &&& self.ready_at(l) == pre.ready_at(l).drop_first()
        &&& forall|l2: int|
            0 <= l2 < pre.n_levels() && l2 != l ==> #[trigger] self.ready_at(l2) == pre.ready_at(
                l2,
            )
        &&& self.slots(t) == pre.slots(t).update(e.index as int, None)
        &&& self.free_list(t) == pre.free_list(t).push(e.index)
        &&& forall|t2: int|
            0 <= t2 < pre.n_tasks() && t2 != t ==> #[trigger] self.slots(t2) == pre.slots(t2)
        &&& forall|t2: int|
            0 <= t2 < pre.n_tasks() && t2 != t ==> #[trigger] self.free_list(t2)
                == pre.free_list(t2)
        &&& self.timer_view() == pre.timer_view()
        &&& self.next_marker() == pre.next_marker()
        &&& self.mask() == pre.mask()
        &&& self.same_clock(pre)
        &&& self.compare_spec() == pre.compare_spec()
    }

    /// Spawns `task` immediately: reserves a payload slot and enqueues the
    /// activation at the back of the task's priority-level ready queue,
    /// where that level's dispatcher (pended by the spawn) will drain it.
    /// Fails, handing the payload back unconsumed, exactly when the task
    /// already has `capacity` pending activations.
    pub fn spawn(&mut self, task: usize, payload: P) -> (r: Result<(), P>)
        requires
            old(self).wf(),
            (task as int) < old(self).n_tasks(),
        ensures
            final(self).wf(),
            final(self).same_layout(*old(self)),
            r is Err <==> old(self).free_len(task as int) == 0,
            r is Err ==> r->Err_0 == payload && final(self).unchanged_views(*old(self)),
            r is Ok ==> final(self).spawned(*old(self), task, payload),
            r is Ok ==> final(self).n_pending(task as int) == old(self).n_pending(task as int)
                + 1 && final(self).free_len(task as int) + 1 == old(self).free_len(task as int)
                && final(self).ready_at(old(self).task_priority(task as int) as int).len()
                == old(self).ready_at(old(self).task_priority(task as int) as int).len() + 1,
    {
        let prio = self.tasks[task].priority;
        match self.pools[task].try_reserve(payload) {
            None => {
                proof {
                    Self::lemma_wf_frame(*old(self), *self);
                }
                Err(payload)
            },
            Some(i) => {
                let e = Activation { task, index: i };
                let l = prio as usize;
                self.ready[l].enqueue(e);
                proof {
                    self.lemma_spawn_wf(*old(self), task, payload, i);
                }
                Ok(())
            },
        }
    }

    /// Re-establishes the invariant after a reservation in `task`'s pool and
    /// an enqueue of the fresh activation at the task's level.
    proof fn lemma_spawn_wf(&self, pre: Kernel<P>, task: usize, payload: P, i: usize)
        requires
            pre.wf(),
            (task as int) < pre.n_tasks(),
            pre.free_len(task as int) > 0,
            i == pre.free_head(task as int),
            (i as int) < pre.pools@[task as int].slot_view().len(),
            !pre.occupied(task as int, i as int),
            self.tasks == pre.tasks,
            self.ready@.len() == pre.ready@.len(),
            (self.ready@[pre.tasks@[task as int].priority as int])@ == pre.ready@[pre.tasks@[
                task as int].priority as int]@.push(Activation { task, index: i }),
            forall|l2: int|
                0 <= l2 < pre.ready@.len() && l2 != pre.tasks@[task as int].priority as int
                    ==> (#[trigger] self.ready@[l2]) == pre.ready@[l2],
            self.pools@.len() == pre.pools@.len(),
            self.pools@[task as int].slot_view() == pre.pools@[task as int].slot_view().update(
                i as int,
                Some(payload),
            ),
            self.pools@[task as int].free_list() == pre.pools@[task as int].free_list()
                .drop_first(),
            self.pools@[task as int].wf(),
            forall|t2: int|
                0 <= t2 < pre.pools@.len() && t2 != task as int ==> (#[trigger] self.pools@[t2])
                    == pre.pools@[t2],
            self.timer == pre.timer,
            self.next_marker == pre.next_marker,
            self.compare == pre.compare,
        ensures
            self.wf(),
    {
        let t = task as int;
        let l = pre.tasks@[t].priority as int;
        let e = Activation { task, index: i };
        assert forall|t2: int| 0 <= t2 < self.tasks@.len() implies {
            &&& 1 <= (#[trigger] self.tasks@[t2]).priority
            &&& (self.tasks@[t2].priority as int) < self.ready@.len()
            &&& self.pools@[t2].wf()
            &&& self.pools@[t2].capacity() == self.tasks@[t2].capacity
        } by {
            assert(1 <= pre.tasks@[t2].priority);
            if t2 != t {
                assert(self.pools@[t2] == pre.pools@[t2]);
            }
        }
        // The fresh index is pending nowhere: a queued index of `task` is
        // occupied, and `i` was vacant.
        assert(!pre.rq_idx(t).contains(i)) by {
            if pre.rq_idx(t).contains(i) {
                lemma_ready_indices_src(pre.ready_at(l), t, i);
                let j = choose|j: int|
                    0 <= j < pre.ready_at(l).len() && (#[trigger] pre.ready_at(l)[j]).task == t
                        && pre.ready_at(l)[j].index == i;
                assert(pre.act_ok(l, pre.ready_at(l)[j]));
            }
        }
        assert(!pre.tq_idx(t).contains(i)) by {
            if pre.tq_idx(t).contains(i) {
                lemma_timer_indices_src(pre.timer@, t, i);
                let j = choose|j: int|
                    0 <= j < pre.timer@.len() && (#[trigger] pre.timer@[j]).task == t
                        && pre.timer@[j].index == i;
                assert(pre.nr_ok(pre.timer@[j]));
            }
        }
        assert forall|l2: int, j: int|
            0 <= l2 < self.ready@.len() && 0 <= j < self.ready_at(l2).len() implies self.act_ok(
            l2,
            #[trigger] self.ready_at(l2)[j],
        ) by {
            if l2 == l && j == pre.ready_at(l).len() {
                assert(self.ready_at(l)[j] == e);
            } else {
                if l2 != l {
                    assert(self.ready@[l2] == pre.ready@[l2]);
                }
                let e2 = pre.ready_at(l2)[j];
                assert(pre.act_ok(l2, e2));
                assert(self.ready_at(l2)[j] == e2);
                if e2.task != task {
                    assert(self.pools@[e2.task as int] == pre.pools@[e2.task as int]);
                }
            }
        }
        assert forall|j: int| 0 <= j < self.timer@.len() implies self.nr_ok(
            #[trigger] self.timer@[j],
        ) by {
            let e2 = pre.timer@[j];
            assert(pre.nr_ok(e2));
            if e2.task != task {
                assert(self.pools@[e2.task as int] == pre.pools@[e2.task as int]);
            }
        }
        assert forall|t2: int| 0 <= t2 < self.tasks@.len() implies self.distinct_pending(t2) by {
            assert(pre.distinct_pending(t2));
            let l2 = pre.tasks@[t2].priority as int;
            assert(self.tq_idx(t2) == pre.tq_idx(t2));
            if l2 == l {
                lemma_ready_indices_push(pre.ready_at(l), e, t2);
                assert(self.ready_at(l) == pre.ready_at(l).push(e));
                if t2 == t {
                    assert(self.rq_idx(t2) == pre.rq_idx(t).push(i));
                    lemma_no_dup_push(pre.rq_idx(t), i);
                    assert forall|a: int, b: int|
                        0 <= a < self.rq_idx(t2).len() && 0 <= b < self.tq_idx(t2).len() implies
                        self.rq_idx(t2)[a] != self.tq_idx(t2)[b] by {
                        if a < pre.rq_idx(t).len() {
                            assert(pre.rq_idx(t)[a] != pre.tq_idx(t)[b]);
                        } else {
                            assert(self.rq_idx(t2)[a] == i);
                            if self.tq_idx(t2)[b] == i {
                                assert(pre.tq_idx(t).contains(i));
                            }
                        }
                    }
                } else {
                    assert(self.rq_idx(t2) == pre.rq_idx(t2));
                }
            } else {
                assert(self.ready@[l2] == pre.ready@[l2]);
                assert(self.rq_idx(t2) == pre.rq_idx(t2));
            }
        }
    }

    /// The effect of a successful deferred spawn of `task` with `payload`
    /// for `instant`: the head free slot `i` now holds the payload and the
    /// timer queue gained, at its place in firing order, an entry carrying
    /// the freshly stamped marker — the handle's marker.  The ready queues
    /// are untouched; the marker counter advanced; the compare interrupt is
    /// armed for the head of the queue.
    pub open spec fn scheduled(
        &self,
        pre: Kernel<P>,
        task: usize,
        instant: Instant,
        payload: P,
        h: SpawnHandle,
    ) -> bool {
        let t = task as int;
        let i = pre.free_head(t);
        let nr = NotReady { instant, marker: pre.next_marker(), task, index: i };
        &&& pre.free_len(t) > 0
        &&& h.marker() == pre.next_marker()
        &&& self.same_tasks(pre)
        &&& self.n_levels() == pre.n_levels()
        &&& forall|l: int|
            0 <= l < pre.n_levels() ==> #[trigger] self.ready_at(l) == pre.ready_at(l)
        &&& self.slots(t) == pre.slots(t).update(i as int, Some(payload))
        &&& self.free_list(t) == pre.free_list(t).drop_first()
        &&& forall|t2: int|
            0 <= t2 < pre.n_tasks() && t2 != t ==> #[trigger] self.slots(t2) == pre.slots(t2)
        &&& forall|t2: int|
            0 <= t2 < pre.n_tasks() && t2 != t ==> #[trigger] self.free_list(t2)
                == pre.free_list(t2)
        &&& exists|p: int|
            0 <= p <= pre.timer_view().len() && self.timer_view() == #[trigger] pre.timer_view()
                .insert(p, nr)
        &&& has_marker(self.timer_view(), pre.next_marker())
        &&& self.next_marker() == pre.next_marker() + 1
        &&& self.mask() == pre.mask()
        &&& self.same_clock(pre)
        &&& self.compare_spec() == Some(self.timer_view()[0].instant)
    }

    /// Spawns `task` deferred to `instant`: reserves a payload slot as an
    /// immediate spawn would, but parks the activation in the timer queue;
    /// the clock's compare interrupt will move it to the ready queue when
    /// the instant arrives.  Returns the handle that can cancel or
    /// reschedule the activation while it is still parked.  Fails, handing
    /// the payload back, exactly when the task's capacity is exhausted.
    pub fn spawn_at(&mut self, task: usize, instant: Instant, payload: P) -> (r: Result<
        SpawnHandle,
        P,
    >)
        requires
            old(self).wf(),
            (task as int) < old(self).n_tasks(),
            old(self).next_marker() < u64::MAX,
        ensures
            final(self).wf(),
            final(self).same_layout(*old(self)),
            r is Err <==> old(self).free_len(task as int) == 0,
            r is Err ==> r->Err_0 == payload && final(self).unchanged_views(*old(self)),
            r is Ok ==> final(self).scheduled(*old(self), task, instant, payload, r->Ok_0),
    {
        proof {
            assert(1 <= self.tasks@[task as int].priority);
        }
        match self.pools[task].try_reserve(payload) {
            None => {
                proof {
                    Self::lemma_wf_frame(*old(self), *self);
                }
                Err(payload)
            },
            Some(i) => {
                let m = self.next_marker;
                self.next_marker = m + 1;
                let nr = NotReady { instant, marker: m, task, index: i };
                proof {
                    assert(!has_marker(self.timer@, m)) by {
                        if has_marker(self.timer@, m) {
                            let j = choose|j: int|
                                0 <= j < self.timer@.len() && (#[trigger] self.timer@[j]).marker
                                    == m;
                            assert(old(self).nr_ok(old(self).timer@[j]));
                        }
                    }
                }
                let pos = self.timer.enqueue(nr);
                let new_head = self.timer.head();
                self.compare = match new_head {
                    Some(h) => Some(h.instant),
                    None => None,
                };
                proof {
                    self.lemma_schedule_wf(*old(self), task, instant, payload, i, pos as int);
                    assert(self.timer_view() == old(self).timer_view().insert(pos as int, nr));
                    assert(self.timer_view()[pos as int].marker == m);
                }
                Ok(SpawnHandle { marker: m })
            },
        }
    }

    /// Re-establishes the invariant after a reservation in `task`'s pool
    /// and a timer-queue insertion of the fresh entry.
    proof fn lemma_schedule_wf(
        &self,
        pre: Kernel<P>,
        task: usize,
        instant: Instant,
        payload: P,
        i: usize,
        pos: int,
    )
        requires
            pre.wf(),
            (task as int) < pre.n_tasks(),
            pre.free_len(task as int) > 0,
            i == pre.free_head(task as int),
            (i as int) < pre.pools@[task as int].slot_view().len(),
            !pre.occupied(task as int, i as int),
            pre.next_marker < u64::MAX,
            self.tasks == pre.tasks,
            self.ready == pre.ready,
            self.pools@.len() == pre.pools@.len(),
            self.pools@[task as int].slot_view() == pre.pools@[task as int].slot_view().update(
                i as int,
                Some(payload),
            ),
            self.pools@[task as int].free_list() == pre.pools@[task as int].free_list()
                .drop_first(),
            self.pools@[task as int].wf(),
            forall|t2: int|
                0 <= t2 < pre.pools@.len() && t2 != task as int ==> (#[trigger] self.pools@[t2])
                    == pre.pools@[t2],
            0 <= pos <= pre.timer@.len(),
            self.timer@ == pre.timer@.insert(
                pos,
                NotReady { instant, marker: pre.next_marker, task, index: i },
            ),
            self.timer.wf(),
            self.next_marker == pre.next_marker + 1,
            self.mask == pre.mask,
            self.clock == pre.clock,
            self.compare == Some(self.timer@[0].instant),
        ensures
            self.wf(),
    {
        let t = task as int;
        let nr = NotReady { instant, marker: pre.next_marker, task, index: i };
        assert forall|t2: int| 0 <= t2 < self.tasks@.len() implies {
            &&& 1 <= (#[trigger] self.tasks@[t2]).priority
            &&& (self.tasks@[t2].priority as int) < self.ready@.len()
            &&& self.pools@[t2].wf()
            &&& self.pools@[t2].capacity() == self.tasks@[t2].capacity
        } by {
            assert(1 <= pre.tasks@[t2].priority);
        }
        // The fresh index is pending nowhere, since queued indices are
        // occupied and it was vacant.
        assert(!pre.rq_idx(t).contains(i)) by {
            if pre.rq_idx(t).contains(i) {
                let l = pre.tasks@[t].priority as int;
                lemma_ready_indices_src(pre.ready_at(l), t, i);
                let j = choose|j: int|
                    0 <= j < pre.ready_at(l).len() && (#[trigger] pre.ready_at(l)[j]).task == t
                        && pre.ready_at(l)[j].index == i;
                assert(pre.act_ok(l, pre.ready_at(l)[j]));
            }
        }
        assert(!pre.tq_idx(t).contains(i)) by {
            if pre.tq_idx(t).contains(i) {
                lemma_timer_indices_src(pre.timer@, t, i);
                let j = choose|j: int|
                    0 <= j < pre.timer@.len() && (#[trigger] pre.timer@[j]).task == t
                        && pre.timer@[j].index == i;
                assert(pre.nr_ok(pre.timer@[j]));
            }
        }
        assert forall|l2: int, j: int|
            0 <= l2 < self.ready@.len() && 0 <= j < self.ready_at(l2).len() implies self.act_ok(
            l2,
            #[trigger] self.ready_at(l2)[j],
        ) by {
            let e2 = pre.ready_at(l2)[j];
            assert(pre.act_ok(l2, e2));
            assert(self.ready_at(l2)[j] == e2);
            if e2.task != task {
                assert(self.pools@[e2.task as int].slot_view() == pre.pools@[e2.task
                    as int].slot_view());
            }
        }
        assert forall|j: int| 0 <= j < self.timer@.len() implies self.nr_ok(
            #[trigger] self.timer@[j],
        ) by {
            if j == pos {
                assert(self.timer@[j] == nr);
            } else {
                let j0 = if j < pos {
                    j
                } else {
                    j - 1
                };
                assert(self.timer@[j] == pre.timer@[j0]);
                assert(pre.nr_ok(pre.timer@[j0]));
                if pre.timer@[j0].task != task {
                    assert(self.pools@[pre.timer@[j0].task as int].slot_view() == pre.pools@[
                    pre.timer@[j0].task as int].slot_view());
                }
            }
        }
        assert forall|t2: int| 0 <= t2 < self.tasks@.len() implies self.distinct_pending(t2) by {
            assert(pre.distinct_pending(t2));
            let l2 = pre.tasks@[t2].priority as int;
            assert(self.ready_at(l2) == pre.ready_at(l2));
            assert(self.rq_idx(t2) == pre.rq_idx(t2));
            lemma_timer_indices_insert(pre.timer@, nr, pos, t2);
            let fore = timer_indices(pre.timer@.take(pos), t2);
            let aft = timer_indices(pre.timer@.skip(pos), t2);
            if t2 == t {
                assert(pre.tq_idx(t) == fore + aft);
                assert(self.tq_idx(t) == fore + seq![i] + aft);
                assert(self.tq_idx(t) =~= (fore + aft).insert(fore.len() as int, i));
                lemma_no_dup_insert(fore + aft, i, fore.len() as int);
                assert forall|a: int, b: int|
                    0 <= a < self.rq_idx(t2).len() && 0 <= b < self.tq_idx(t2).len() implies
                    self.rq_idx(t2)[a] != self.tq_idx(t2)[b] by {
                    if b < fore.len() {
                        assert(self.tq_idx(t)[b] == pre.tq_idx(t)[b]);
                        assert(pre.rq_idx(t)[a] != pre.tq_idx(t)[b]);
                    } else if b == fore.len() {
                        assert(self.tq_idx(t)[b] == i);
                        if pre.rq_idx(t)[a] == i {
                            assert(pre.rq_idx(t).contains(i));
                        }
                    } else {
                        assert(self.tq_idx(t)[b] == pre.tq_idx(t)[b - 1]);
                        assert(pre.rq_idx(t)[a] != pre.tq_idx(t)[b - 1]);
                    }
                }
            } else {
                assert(self.tq_idx(t2) =~= fore + aft);
                assert(pre.tq_idx(t2) == fore + aft);
            }
        }
    }

    /// The baseline a relative deferred spawn measures from: the clock's
    /// reading once it has started, the counter's zero point before.
    pub open spec fn baseline(&self) -> u64 {
        if self.clock_started() {
            self.now_spec().ticks
        } else {
            0
        }
    }

    /// Spawns `task` deferred by `duration` from now — or from the
    /// counter's zero point if the clock has not been handed over yet, so a
    /// deferred spawn made during initialization measures from startup.
    pub fn spawn_after(&mut self, task: usize, duration: Duration, payload: P) -> (r: Result<
        SpawnHandle,
        P,
    >)
        requires
            old(self).wf(),
            (task as int) < old(self).n_tasks(),
            old(self).next_marker() < u64::MAX,
            old(self).baseline() + duration.ticks <= u64::MAX,
        ensures
            final(self).wf(),
            final(self).same_layout(*old(self)),
            r is Err <==> old(self).free_len(task as int) == 0,
            r is Err ==> r->Err_0 == payload && final(self).unchanged_views(*old(self)),
            r is Ok ==> final(self).scheduled(
                *old(self),
                task,
                Instant { ticks: (old(self).baseline() + duration.ticks) as u64 },
                payload,
                r->Ok_0,
            ),
    {
        let base = match self.clock {
            Some(n) => n,
            None => Instant::zero(),
        };
        let instant = base.plus(duration);
        self.spawn_at(task, instant, payload)
    }

    /// The effect of cancelling the pending deferred activation that the
    /// timer queue held at position `j`: the entry is gone, its payload `p`
    /// was read back out of its slot, and the slot returned to the task's
    /// free queue; ready queues, marker counter, mask and clock untouched;
    /// the compare value follows the new head.
    pub open spec fn canceled_at(&self, pre: Kernel<P>, j: int, p: P) -> bool {
        let e = pre.timer_view()[j];
        let t = e.task as int;
        &&& 0 <= j < pre.timer_view().len()
        &&& p == pre.payload_at(t, e.index as int)
        &&& self.same_tasks(pre)
        &&& self.n_levels() == pre.n_levels()
        &&& forall|l: int|
            0 <= l < pre.n_levels() ==> #[trigger] self.ready_at(l) == pre.ready_at(l)
        &&& self.slots(t) == pre.slots(t).update(e.index as int, None)
        &&& self.free_list(t) == pre.free_list(t).push(e.index)
        &&& forall|t2: int|
            0 <= t2 < pre.n_tasks() && t2 != t ==> #[trigger] self.slots(t2) == pre.slots(t2)
        &&& forall|t2: int|
            0 <= t2 < pre.n_tasks() && t2 != t ==> #[trigger] self.free_list(t2)
                == pre.free_list(t2)
        &&& self.timer_view() == pre.timer_view().remove(j)
        &&& self.next_marker() == pre.next_marker()
        &&& self.mask() == pre.mask()
        &&& self.same_clock(pre)
        &&& self.compare_spec() == (if self.timer_view().len() == 0 {
            None
        } else {
            Some(self.timer_view()[0].instant)
        })
    }

    /// Cancels the deferred activation the handle names, consuming the
    /// handle.  Before the activation has fired this returns the original
    /// payload and frees its slot; once it has fired (or was already
    /// canceled) the marker is no longer queued and this reports not-found,
    /// changing nothing.
    pub fn cancel(&mut self, h: SpawnHandle) -> (r: Result<P, ()>)
        requires
            old(self).wf(),
        ensures
            final(self).wf(),
            final(self).same_layout(*old(self)),
            r is Err <==> !has_marker(old(self).timer_view(), h.marker()),
            r is Err ==> final(self).unchanged_views(*old(self)),
            r is Ok ==> exists|j: int|
                0 <= j < old(self).timer_view().len() && (#[trigger] old(self).timer_view()[
                j]).marker == h.marker() && final(self).canceled_at(*old(self), j, r->Ok_0),
    {
        match self.timer.cancel_marker(h.marker) {
            None => {
                proof {
                    Self::lemma_wf_frame(*old(self), *self);
                }
                Err(())
            },
            Some(e) => {
                let ghost j = choose|j: int|
                    0 <= j < old(self).timer@.len() && old(self).timer@[j] == e && self.timer@
                        == old(self).timer@.remove(j);
                proof {
                    assert(old(self).nr_ok(old(self).timer@[j]));
                    assert(1 <= old(self).tasks@[e.task as int].priority);
                }
                let p = self.pools[e.task].take(e.index);
                let new_head = self.timer.head();
                self.compare = match new_head {
                    Some(h2) => Some(h2.instant),
                    None => None,
                };
                proof {
                    self.lemma_cancel_wf(*old(self), j);
                    assert(old(self).timer_view()[j].marker == h.marker());
                }
                Ok(p)
            },
        }
    }

    /// Re-establishes the invariant after the timer entry at `j` was
    /// removed and its slot taken back.
    proof fn lemma_cancel_wf(&self, pre: Kernel<P>, j: int)
        requires
            pre.wf(),
            0 <= j < pre.timer@.len(),
            self.tasks == pre.tasks,
            self.ready == pre.ready,
            self.pools@.len() == pre.pools@.len(),
            self.pools@[pre.timer@[j].task as int].slot_view() == pre.pools@[pre.timer@[j].task
                as int].slot_view().update(pre.timer@[j].index as int, None),
            self.pools@[pre.timer@[j].task as int].free_list() == pre.pools@[pre.timer@[j].task
                as int].free_list().push(pre.timer@[j].index),
            self.pools@[pre.timer@[j].task as int].wf(),
            forall|t2: int|
                0 <= t2 < pre.pools@.len() && t2 != pre.timer@[j].task as int ==> (
                #[trigger] self.pools@[t2]) == pre.pools@[t2],
            self.timer@ == pre.timer@.remove(j),
            self.timer.wf(),
            self.next_marker == pre.next_marker,
            self.compare == (if self.timer@.len() == 0 {
                None
            } else {
                Some(self.timer@[0].instant)
            }),
        ensures
            self.wf(),
    {
        let e = pre.timer@[j];
        let t = e.task as int;
        let i = e.index;
        assert(pre.nr_ok(e));
        assert forall|t2: int| 0 <= t2 < self.tasks@.len() implies {
            &&& 1 <= (#[trigger] self.tasks@[t2]).priority
            &&& (self.tasks@[t2].priority as int) < self.ready@.len()
            &&& self.pools@[t2].wf()
            &&& self.pools@[t2].capacity() == self.tasks@[t2].capacity
        } by {
            assert(1 <= pre.tasks@[t2].priority);
            if t2 != t {
                assert(self.pools@[t2] == pre.pools@[t2]);
            }
        }
        // Position of the canceled index among the task's pending indices.
        lemma_timer_indices_remove(pre.timer@, j, t);
        let fore = timer_indices(pre.timer@.take(j), t);
        let aft = timer_indices(pre.timer@.skip(j + 1), t);
        let q = fore.len() as int;
        assert(pre.tq_idx(t) == fore + seq![i] + aft);
        assert(self.tq_idx(t) == fore + aft);
        assert(pre.tq_idx(t)[q] == i);
        assert(pre.distinct_pending(t));
        assert(!self.tq_idx(t).contains(i)) by {
            if self.tq_idx(t).contains(i) {
                let k = choose|k: int| 0 <= k < self.tq_idx(t).len() && self.tq_idx(t)[k] == i;
                let k0 = if k < q {
                    k
                } else {
                    k + 1
                };
                assert(pre.tq_idx(t)[k0] == i);
            }
        }
        assert(!pre.rq_idx(t).contains(i)) by {
            if pre.rq_idx(t).contains(i) {
                let k = choose|k: int| 0 <= k < pre.rq_idx(t).len() && pre.rq_idx(t)[k] == i;
                assert(pre.rq_idx(t)[k] != pre.tq_idx(t)[q]);
            }
        }
        assert forall|l2: int, j2: int|
            0 <= l2 < self.ready@.len() && 0 <= j2 < self.ready_at(l2).len() implies self.act_ok(
            l2,
            #[trigger] self.ready_at(l2)[j2],
        ) by {
            let e2 = pre.ready_at(l2)[j2];
            assert(pre.act_ok(l2, e2));
            assert(self.ready_at(l2)[j2] == e2);
            if e2.task == e.task {
                lemma_ready_indices_mem(pre.ready_at(l2), t, j2);
                assert(e2.index != i);
            } else {
                assert(self.pools@[e2.task as int] == pre.pools@[e2.task as int]);
            }
        }
        assert forall|j2: int| 0 <= j2 < self.timer@.len() implies self.nr_ok(
            #[trigger] self.timer@[j2],
        ) by {
            let j0 = if j2 < j {
                j2
            } else {
                j2 + 1
            };
            let e2 = pre.timer@[j0];
            assert(pre.nr_ok(e2));
            assert(self.timer@[j2] == e2);
            if e2.task == e.task {
                lemma_timer_indices_mem(self.timer@, t, j2);
                assert(e2.index != i);
            } else {
                assert(self.pools@[e2.task as int] == pre.pools@[e2.task as int]);
            }
        }
        assert forall|t2: int| 0 <= t2 < self.tasks@.len() implies self.distinct_pending(t2) by {
            assert(pre.distinct_pending(t2));
            let l2 = pre.tasks@[t2].priority as int;
            assert(self.ready_at(l2) == pre.ready_at(l2));
            assert(self.rq_idx(t2) == pre.rq_idx(t2));
            lemma_timer_indices_remove(pre.timer@, j, t2);
            if t2 == t {
                assert(self.tq_idx(t) =~= pre.tq_idx(t).remove(q));
                lemma_no_dup_remove(pre.tq_idx(t), q);
                assert forall|a: int, b: int|
                    0 <= a < self.rq_idx(t2).len() && 0 <= b < self.tq_idx(t2).len() implies
                    self.rq_idx(t2)[a] != self.tq_idx(t2)[b] by {
                    let b0 = if b < q {
                        b
                    } else {
                        b + 1
                    };
                    assert(self.tq_idx(t)[b] == pre.tq_idx(t)[b0]);
                    assert(pre.rq_idx(t)[a] != pre.tq_idx(t)[b0]);
                }
            } else {
                assert(self.tq_idx(t2) =~= timer_indices(pre.timer@.take(j), t2) + timer_indices(
                    pre.timer@.skip(j + 1),
                    t2,
                ));
                assert(pre.tq_idx(t2) == self.tq_idx(t2));
            }
        }
    }

    /// True if `self` differs from `pre` only in the marker counter, which
    /// advanced by one.
    pub open spec fn unchanged_but_marker(&self, pre: Kernel<P>) -> bool {
        &&& self.same_queues(pre)
        &&& self.next_marker() == pre.next_marker() + 1
        &&& self.mask() == pre.mask()
        &&& self.same_clock(pre)
        &&& self.compare_spec() == pre.compare_spec()
    }

    /// The effect of rescheduling the deferred activation the timer queue
    /// held at position `j` to `instant`: the entry moved to its new place
    /// in firing order under the freshly stamped marker, keeping its task,
    /// slot and payload; the old marker no longer names anything.
    pub open spec fn rescheduled_at(&self, pre: Kernel<P>, j: int, instant: Instant) -> bool {
        let e = pre.timer_view()[j];
        let nr = NotReady { instant, marker: pre.next_marker(), task: e.task, index: e.index };
        &&& 0 <= j < pre.timer_view().len()
        &&& self.same_tasks(pre)
        &&& self.n_levels() == pre.n_levels()
        &&& forall|l: int|
            0 <= l < pre.n_levels() ==> #[trigger] self.ready_at(l) == pre.ready_at(l)
        &&& forall|t2: int| 0 <= t2 < pre.n_tasks() ==> #[trigger] self.slots(t2) == pre.slots(t2)
        &&& forall|t2: int|
            0 <= t2 < pre.n_tasks() ==> #[trigger] self.free_list(t2) == pre.free_list(t2)
        &&& exists|p: int|
            0 <= p <= pre.timer_view().remove(j).len() && self.timer_view()
                == #[trigger] pre.timer_view().remove(j).insert(p, nr)
        &&& has_marker(self.timer_view(), pre.next_marker())
        &&& !has_marker(self.timer_view(), e.marker)
        &&& self.next_marker() == pre.next_marker() + 1
        &&& self.mask() == pre.mask()
        &&& self.same_clock(pre)
        &&& self.compare_spec() == Some(self.timer_view()[0].instant)
    }

    /// Moves the pending deferred activation the handle names to a new
    /// instant, keeping its slot and payload, and hands back a fresh handle
    /// for it; the timer queue's firing order reflects the new instant at
    /// once.  Fails, changing nothing but the marker counter, if the
    /// activation has already fired or been canceled.  The counter advances
    /// in either case.
    pub fn reschedule_at(&mut self, h: SpawnHandle, instant: Instant) -> (r: Result<
        SpawnHandle,
        (),
    >)
        requires
            old(self).wf(),
            old(self).next_marker() < u64::MAX,
        ensures
            final(self).wf(),
            final(self).same_layout(*old(self)),
            final(self).next_marker() == old(self).next_marker() + 1,
            r is Err <==> !has_marker(old(self).timer_view(), h.marker()),
            r is Err ==> final(self).unchanged_but_marker(*old(self)),
            r is Ok ==> r->Ok_0.marker() == old(self).next_marker() && exists|j: int|
                0 <= j < old(self).timer_view().len() && (#[trigger] old(self).timer_view()[
                j]).marker == h.marker() && final(self).rescheduled_at(*old(self), j, instant),
    {
        let m = self.next_marker;
        self.next_marker = m + 1;
        match self.timer.cancel_marker(h.marker) {
            None => {
                proof {
                    Self::lemma_wf_frame(*old(self), *self);
                }
                Err(())
            },
            Some(e) => {
                let ghost j = choose|j: int|
                    0 <= j < old(self).timer@.len() && old(self).timer@[j] == e && self.timer@
                        == old(self).timer@.remove(j);
                let nr = NotReady { instant, marker: m, task: e.task, index: e.index };
                proof {
                    assert(!has_marker(self.timer@, m)) by {
                        if has_marker(self.timer@, m) {
                            let k = choose|k: int|
                                0 <= k < self.timer@.len() && (#[trigger] self.timer@[k]).marker
                                    == m;
                            let k0 = if k < j {
                                k
                            } else {
                                k + 1
                            };
                            assert(old(self).timer@[k0] == self.timer@[k]);
                            assert(old(self).nr_ok(old(self).timer@[k0]));
                        }
                    }
                }
                let pos = self.timer.enqueue(nr);
                let new_head = self.timer.head();
                self.compare = match new_head {
                    Some(h2) => Some(h2.instant),
                    None => None,
                };
                proof {
                    self.lemma_reschedule_wf(*old(self), j, instant, pos as int);
                    assert(old(self).timer_view()[j].marker == h.marker());
                    assert(self.timer@ == old(self).timer@.remove(j).insert(pos as int, nr));
                    assert(self.timer@[pos as int].marker == m);
                    assert(!has_marker(self.timer@, e.marker)) by {
                        assert(e.marker < m);
                        if has_marker(self.timer@, e.marker) {
                            let k = choose|k: int|
                                0 <= k < self.timer@.len() && (#[trigger] self.timer@[k]).marker
                                    == e.marker;
                            let k1 = if k < pos {
                                k
                            } else {
                                k - 1
                            };
                            assert(old(self).timer@.remove(j)[k1] == self.timer@[k]);
                            let k0 = if k1 < j {
                                k1
                            } else {
                                k1 + 1
                            };
                            assert(old(self).timer@[k0] == self.timer@[k]);
                            assert(k0 != j);
                            assert(old(self).timer.wf());
                        }
                    }
                }
                Ok(SpawnHandle { marker: m })
            },
        }
    }

    /// Re-establishes the invariant after the timer entry at `j` moved to a
    /// new instant under a fresh marker.
    proof fn lemma_reschedule_wf(&self, pre: Kernel<P>, j: int, instant: Instant, pos: int)
        requires
            pre.wf(),
            0 <= j < pre.timer@.len(),
            pre.next_marker < u64::MAX,
            self.tasks == pre.tasks,
            self.ready == pre.ready,
            self.pools == pre.pools,
            0 <= pos <= pre.timer@.remove(j).len(),
            self.timer@ == pre.timer@.remove(j).insert(
                pos,
                NotReady {
                    instant,
                    marker: pre.next_marker,
                    task: pre.timer@[j].task,
                    index: pre.timer@[j].index,
                },
            ),
            self.timer.wf(),
            self.next_marker == pre.next_marker + 1,
            self.mask == pre.mask,
            self.clock == pre.clock,
            self.compare == Some(self.timer@[0].instant),
        ensures
            self.wf(),
    {
        let e = pre.timer@[j];
        let t = e.task as int;
        let i = e.index;
        let nr = NotReady { instant, marker: pre.next_marker, task: e.task, index: i };
        let mid = pre.timer@.remove(j);
        assert(pre.nr_ok(e));
        assert forall|t2: int| 0 <= t2 < self.tasks@.len() implies {
            &&& 1 <= (#[trigger] self.tasks@[t2]).priority
            &&& (self.tasks@[t2].priority as int) < self.ready@.len()
            &&& self.pools@[t2].wf()
            &&& self.pools@[t2].capacity() == self.tasks@[t2].capacity
        } by {
            assert(1 <= pre.tasks@[t2].priority);
        }
        assert forall|l2: int, j2: int|
            0 <= l2 < self.ready@.len() && 0 <= j2 < self.ready_at(l2).len() implies self.act_ok(
            l2,
            #[trigger] self.ready_at(l2)[j2],
        ) by {
            assert(pre.act_ok(l2, pre.ready_at(l2)[j2]));
            assert(self.ready_at(l2)[j2] == pre.ready_at(l2)[j2]);
        }
        assert forall|j2: int| 0 <= j2 < self.timer@.len() implies self.nr_ok(
            #[trigger] self.timer@[j2],
        ) by {
            if j2 == pos {
                assert(self.timer@[j2] == nr);
            } else {
                let k1 = if j2 < pos {
                    j2
                } else {
                    j2 - 1
                };
                assert(self.timer@[j2] == mid[k1]);
                let k0 = if k1 < j {
                    k1
                } else {
                    k1 + 1
                };
                assert(mid[k1] == pre.timer@[k0]);
                assert(pre.nr_ok(pre.timer@[k0]));
            }
        }
        assert forall|t2: int| 0 <= t2 < self.tasks@.len() implies self.distinct_pending(t2) by {
            assert(pre.distinct_pending(t2));
            let l2 = pre.tasks@[t2].priority as int;
            assert(self.ready_at(l2) == pre.ready_at(l2));
            assert(self.rq_idx(t2) == pre.rq_idx(t2));
            lemma_timer_indices_remove(pre.timer@, j, t2);
            let fore = timer_indices(pre.timer@.take(j), t2);
            let aft = timer_indices(pre.timer@.skip(j + 1), t2);
            let q = fore.len() as int;
            lemma_timer_indices_insert(mid, nr, pos, t2);
            let g1 = timer_indices(mid.take(pos), t2);
            let g2 = timer_indices(mid.skip(pos), t2);
            if t2 == t {
                assert(pre.tq_idx(t) == fore + seq![i] + aft);
                assert(timer_indices(mid, t) == fore + aft);
                assert(timer_indices(mid, t) == g1 + g2);
                assert(self.tq_idx(t) == g1 + seq![i] + g2);
                assert(pre.tq_idx(t)[q] == i);
                assert((fore + aft) =~= pre.tq_idx(t).remove(q));
                lemma_no_dup_remove(pre.tq_idx(t), q);
                assert(!(fore + aft).contains(i)) by {
                    if (fore + aft).contains(i) {
                        let k = choose|k: int| 0 <= k < (fore + aft).len() && (fore + aft)[k] == i;
                        let k0 = if k < q {
                            k
                        } else {
                            k + 1
                        };
                        assert(pre.tq_idx(t)[k0] == i);
                    }
                }
                assert(self.tq_idx(t) =~= (g1 + g2).insert(g1.len() as int, i));
                lemma_no_dup_insert(g1 + g2, i, g1.len() as int);
                assert forall|a: int, b: int|
                    0 <= a < self.rq_idx(t2).len() && 0 <= b < self.tq_idx(t2).len() implies
                    self.rq_idx(t2)[a] != self.tq_idx(t2)[b] by {
                    if b == g1.len() {
                        assert(self.tq_idx(t)[b] == i);
                        assert(pre.rq_idx(t)[a] != pre.tq_idx(t)[q]);
                    } else {
                        let k = if b < g1.len() {
                            b
                        } else {
                            b - 1
                        };
                        assert(self.tq_idx(t)[b] == (g1 + g2)[k]);
                        let k0 = if k < q {
                            k
                        } else {
                            k + 1
                        };
                        assert((fore + aft)[k] == pre.tq_idx(t)[k0]);
                        assert(pre.rq_idx(t)[a] != pre.tq_idx(t)[k0]);
                    }
                }
            } else {
                assert(pre.tq_idx(t2) == fore + aft);
                assert(timer_indices(mid, t2) == fore + aft);
                assert(timer_indices(mid, t2) == g1 + g2);
                assert(self.tq_idx(t2) =~= g1 + g2);
                assert(self.tq_idx(t2) == pre.tq_idx(t2));
            }
        }
    }

    /// Moves the pending deferred activation the handle names to the
    /// instant `duration` after now.  The clock must have started: a
    /// relative reschedule needs a current reading.
    pub fn reschedule_after(&mut self, h: SpawnHandle, duration: Duration) -> (r: Result<
        SpawnHandle,
        (),
    >)
        requires
            old(self).wf(),
            old(self).next_marker() < u64::MAX,
            old(self).clock_started(),
            old(self).now_spec().ticks + duration.ticks <= u64::MAX,
        ensures
            final(self).wf(),
            final(self).same_layout(*old(self)),
            final(self).next_marker() == old(self).next_marker() + 1,
            r is Err <==> !has_marker(old(self).timer_view(), h.marker()),
            r is Err ==> final(self).unchanged_but_marker(*old(self)),
            r is Ok ==> r->Ok_0.marker() == old(self).next_marker() && exists|j: int|
                0 <= j < old(self).timer_view().len() && (#[trigger] old(self).timer_view()[
                j]).marker == h.marker() && final(self).rescheduled_at(
                    *old(self),
                    j,
                    Instant { ticks: (old(self).now_spec().ticks + duration.ticks) as u64 },
                ),
    {
        let at = self.now().plus(duration);
        self.reschedule_at(h, at)
    }

    /// One step of the dispatcher of priority level `level`: drains the
    /// front activation of that level's ready queue, reads its payload out
    /// and returns the slot to the task's free queue before the body runs,
    /// so the slot can be reused while it executes.  Returns the task tag
    /// and payload for the caller to run, or `None`, leaving everything
    /// unchanged, when the queue is drained.  The dispatcher runs with its
    /// level's interrupt active, so the mask must lie below its level.
    pub fn dispatch_one(&mut self, level: usize) -> (r: Option<(usize, P)>)
        requires
            old(self).wf(),
            (level as int) < old(self).n_levels(),
            (old(self).mask() as int) < level as int,
        ensures
            final(self).wf(),
            final(self).same_layout(*old(self)),
            r is None <==> old(self).ready_at(level as int).len() == 0,
            r is None ==> final(self).unchanged_views(*old(self)),
            r is Some ==> final(self).dispatched(*old(self), level, r->0),
            r is Some ==> final(self).free_len((r->0).0 as int) == old(self).free_len(
                (r->0).0 as int,
            ) + 1 && final(self).n_pending((r->0).0 as int) + 1 == old(self).n_pending(
                (r->0).0 as int,
            ),
    {
        match self.ready[level].dequeue() {
            None => {
                proof {
                    Self::lemma_wf_frame(*old(self), *self);
                }
                None
            },
            Some(e) => {
                proof {
                    assert(old(self).act_ok(level as int, old(self).ready_at(level as int)[0]));
                }
                let p = self.pools[e.task].take(e.index);
                proof {
                    self.lemma_dispatch_wf(*old(self), level);
                }
                Some((e.task, p))
            },
        }
    }

    /// Re-establishes the invariant after the head activation of `level`
    /// left the ready queue and its slot was taken back.
    proof fn lemma_dispatch_wf(&self, pre: Kernel<P>, level: usize)
        requires
            pre.wf(),
            (level as int) < pre.n_levels(),
            pre.ready_at(level as int).len() > 0,
            self.tasks == pre.tasks,
            self.ready@.len() == pre.ready@.len(),
            (self.ready@[level as int])@ == pre.ready@[level as int]@.drop_first(),
            forall|l2: int|
                0 <= l2 < pre.ready@.len() && l2 != level as int ==> (
                #[trigger] self.ready@[l2]) == pre.ready@[l2],
            self.pools@.len() == pre.pools@.len(),
            self.pools@[pre.ready_at(level as int)[0].task as int].slot_view() == pre.pools@[
            pre.ready_at(level as int)[0].task as int].slot_view().update(
                pre.ready_at(level as int)[0].index as int,
                None,
            ),
            self.pools@[pre.ready_at(level as int)[0].task as int].free_list() == pre.pools@[
            pre.ready_at(level as int)[0].task as int].free_list().push(
                pre.ready_at(level as int)[0].index,
            ),
            self.pools@[pre.ready_at(level as int)[0].task as int].wf(),
            forall|t2: int|
                0 <= t2 < pre.pools@.len() && t2 != pre.ready_at(level as int)[0].task as int
                    ==> (#[trigger] self.pools@[t2]) == pre.pools@[t2],
            self.timer == pre.timer,
            self.next_marker == pre.next_marker,
            self.compare == pre.compare,
        ensures
            self.wf(),
    {
        let l = level as int;
        let e = pre.ready_at(l)[0];
        let t = e.task as int;
        let i = e.index;
        assert(pre.act_ok(l, e));
        assert forall|t2: int| 0 <= t2 < self.tasks@.len() implies {
            &&& 1 <= (#[trigger] self.tasks@[t2]).priority
            &&& (self.tasks@[t2].priority as int) < self.ready@.len()
            &&& self.pools@[t2].wf()
            &&& self.pools@[t2].capacity() == self.tasks@[t2].capacity
        } by {
            assert(1 <= pre.tasks@[t2].priority);
            if t2 != t {
                assert(self.pools@[t2] == pre.pools@[t2]);
            }
        }
        // The head's slot index sits at the front of the task's pending
        // indices; every other pending index of the task differs from it.
        lemma_ready_indices_first(pre.ready_at(l), t);
        assert(pre.rq_idx(t) == seq![i] + self.rq_idx(t));
        assert(pre.rq_idx(t)[0] == i);
        assert(!self.rq_idx(t).contains(i)) by {
            if self.rq_idx(t).contains(i) {
                let k = choose|k: int| 0 <= k < self.rq_idx(t).len() && self.rq_idx(t)[k] == i;
                assert(pre.rq_idx(t)[k + 1] == i);
                assert(pre.distinct_pending(t));
            }
        }
        assert(!self.tq_idx(t).contains(i)) by {
            if self.tq_idx(t).contains(i) {
                let k = choose|k: int| 0 <= k < self.tq_idx(t).len() && self.tq_idx(t)[k] == i;
                assert(pre.distinct_pending(t));
                assert(pre.rq_idx(t)[0] != pre.tq_idx(t)[k]);
            }
        }
        assert forall|l2: int, j: int|
            0 <= l2 < self.ready@.len() && 0 <= j < self.ready_at(l2).len() implies self.act_ok(
            l2,
            #[trigger] self.ready_at(l2)[j],
        ) by {
            if l2 == l {
                let e2 = pre.ready_at(l)[j + 1];
                assert(pre.act_ok(l, e2));
                assert(self.ready_at(l)[j] == e2);
                if e2.task == e.task {
                    lemma_ready_indices_mem(self.ready_at(l), t, j);
                    assert(e2.index != i);
                } else {
                    assert(self.pools@[e2.task as int] == pre.pools@[e2.task as int]);
                }
            } else {
                assert(self.ready@[l2] == pre.ready@[l2]);
                let e2 = pre.ready_at(l2)[j];
                assert(pre.act_ok(l2, e2));
                assert(self.ready_at(l2)[j] == e2);
                assert(e2.task != e.task);
                assert(self.pools@[e2.task as int] == pre.pools@[e2.task as int]);
            }
        }
        assert forall|j: int| 0 <= j < self.timer@.len() implies self.nr_ok(
            #[trigger] self.timer@[j],
        ) by {
            let e2 = pre.timer@[j];
            assert(pre.nr_ok(e2));
            if e2.task == e.task {
                lemma_timer_indices_mem(self.timer@, t, j);
                assert(self.tq_idx(t) == pre.tq_idx(t));
                assert(e2.index != i);
            } else {
                assert(self.pools@[e2.task as int] == pre.pools@[e2.task as int]);
            }
        }
        assert forall|t2: int| 0 <= t2 < self.tasks@.len() implies self.distinct_pending(t2) by {
            assert(pre.distinct_pending(t2));
            let l2 = pre.tasks@[t2].priority as int;
            assert(self.tq_idx(t2) == pre.tq_idx(t2));
            if l2 == l {
                lemma_ready_indices_first(pre.ready_at(l), t2);
                if t2 == t {
                    assert(self.rq_idx(t2) =~= pre.rq_idx(t).drop_first());
                    lemma_no_dup_drop_first(pre.rq_idx(t));
                    assert forall|a: int, b: int|
                        0 <= a < self.rq_idx(t2).len() && 0 <= b < self.tq_idx(t2).len() implies
                        self.rq_idx(t2)[a] != self.tq_idx(t2)[b] by {
                        assert(pre.rq_idx(t)[a + 1] != pre.tq_idx(t)[b]);
                    }
                } else {
                    assert(self.rq_idx(t2) == pre.rq_idx(t2));
                }
            } else {
                assert(self.ready_at(l2) == pre.ready_at(l2));
                assert(self.rq_idx(t2) == pre.rq_idx(t2));
            }
        }
    }

    /// The activations that the timer entries `s` at priority level `l`
    /// turn into when they fire, under this kernel's task set, in queue
    /// order.
    pub open spec fn arrivals(&self, s: Seq<NotReady>, l: int) -> Seq<Activation>
        decreases s.len(),
    {
        if s.len() == 0 {
            Seq::empty()
        } else {
            let rest = self.arrivals(s.drop_last(), l);
            if (self.task_priority(s.last().task as int) as int) == l {
                rest.push(Activation { task: s.last().task, index: s.last().index })
            } else {
                rest
            }
        }
    }

    /// Two kernels with the same task table agree on which activations a
    /// batch of timer entries turns into.
    proof fn lemma_arrivals_agree(a: Kernel<P>, b: Kernel<P>, s: Seq<NotReady>, l: int)
        requires
            a.tasks == b.tasks,
        ensures
            a.arrivals(s, l) == b.arrivals(s, l),
        decreases s.len(),
    {
        if s.len() > 0 {
            Self::lemma_arrivals_agree(a, b, s.drop_last(), l);
        }
    }

    proof fn lemma_arrivals_push(&self, s: Seq<NotReady>, e: NotReady, l: int)
        ensures
            self.arrivals(s.push(e), l) == if (self.task_priority(e.task as int) as int) == l {
                self.arrivals(s, l).push(Activation { task: e.task, index: e.index })
            } else {
                self.arrivals(s, l)
            },
    {
        assert(s.push(e).drop_last() =~= s);
        assert(s.push(e).last() == e);
    }

    /// Advances the clock to `now` and services the compare interrupt:
    /// every deferred activation whose instant has arrived moves, in firing
    /// order, from the timer queue to the ready queue of its task's
    /// priority level, pending that level's dispatcher; the compare value
    /// is re-armed for the next pending entry, or disarmed.
    pub fn advance_to(&mut self, now: Instant)
        requires
            old(self).wf(),
            old(self).clock_started(),
            old(self).now_spec().ticks <= now.ticks,
        ensures
            final(self).wf(),
            final(self).same_layout(*old(self)),
            final(self).clock_started() && final(self).now_spec() == now,
            final(self).timer_view() == old(self).timer_view().skip(
                n_due(old(self).timer_view(), now) as int,
            ),
            forall|l: int|
                0 <= l < old(self).n_levels() ==> final(self).ready_at(l) == old(self).ready_at(l)
                    + old(self).arrivals(
                    old(self).timer_view().take(n_due(old(self).timer_view(), now) as int),
                    l,
                ),
            forall|t: int, i: int|
                final(self).occupied(t, i) == old(self).occupied(t, i) && final(self).payload_at(
                    t,
                    i,
                ) == old(self).payload_at(t, i),
            forall|t: int| final(self).free_len(t) == old(self).free_len(t),
            final(self).mask() == old(self).mask(),
            final(self).next_marker() == old(self).next_marker(),
            final(self).n_levels() == old(self).n_levels(),
            final(self).n_tasks() == old(self).n_tasks(),
    {
        self.clock = Some(now);
        proof {
            Self::lemma_wf_frame(*old(self), *self);
        }
        let ghost pre = *self;
        let ghost mut k: int = 0;
        while self.timer.head_due(now)
            invariant
                self.wf(),
                pre.wf(),
                self.tasks == pre.tasks,
                self.pools == pre.pools,
                self.next_marker == pre.next_marker,
                self.mask == pre.mask,
                self.clock == pre.clock,
                0 <= k <= pre.timer@.len(),
                self.timer@ == pre.timer@.skip(k),
                forall|j: int| 0 <= j < k ==> (#[trigger] pre.timer@[j]).instant.ticks <= now.ticks,
                self.ready@.len() == pre.ready@.len(),
                forall|l: int|
                    0 <= l < pre.ready@.len() ==> (#[trigger] self.ready@[l])@ == pre.ready@[l]@
                        + pre.arrivals(pre.timer@.take(k), l),
            decreases self.timer@.len(),
        {
            let ghost cur = *self;
            let e_opt = self.timer.pop_due(now);
            let e = e_opt.unwrap();
            proof {
                assert(e == cur.timer@[0]);
                assert(cur.nr_ok(e));
                assert(1 <= cur.tasks@[e.task as int].priority);
            }
            let l = self.tasks[e.task].priority as usize;
            self.ready[l].enqueue(Activation { task: e.task, index: e.index });
            let new_head = self.timer.head();
            self.compare = match new_head {
                Some(h2) => Some(h2.instant),
                None => None,
            };
            proof {
                self.lemma_service_wf(cur, (e.task, e.index));
                assert(pre.timer@.skip(k)[0] == pre.timer@[k]);
                assert(cur.timer@.drop_first() =~= pre.timer@.skip(k + 1));
                assert(pre.timer@.take(k + 1) =~= pre.timer@.take(k).push(pre.timer@[k]));
                assert forall|l2: int| 0 <= l2 < pre.ready@.len() implies (
                #[trigger] self.ready@[l2])@ == pre.ready@[l2]@ + pre.arrivals(
                    pre.timer@.take(k + 1),
                    l2,
                ) by {
                    pre.lemma_arrivals_push(pre.timer@.take(k), pre.timer@[k], l2);
                    if l2 == l as int {
                        assert(self.ready@[l2]@ == cur.ready@[l2]@.push(
                            Activation { task: e.task, index: e.index },
                        ));
                        assert(pre.ready@[l2]@ + pre.arrivals(pre.timer@.take(k + 1), l2)
                            =~= (pre.ready@[l2]@ + pre.arrivals(pre.timer@.take(k), l2)).push(
                            Activation { task: e.task, index: e.index },
                        ));
                    } else {
                        assert(self.ready@[l2]@ == cur.ready@[l2]@);
                    }
                }
                k = k + 1;
            }
        }
        proof {
            assert(self.timer@ == pre.timer@.skip(k));
            if k < pre.timer@.len() {
                assert(pre.timer@.skip(k)[0] == pre.timer@[k]);
            }
            lemma_n_due_split(pre.timer@, now, k);
            assert(pre.timer@ == old(self).timer@);
            assert forall|l: int| 0 <= l < old(self).n_levels() implies self.ready_at(l) == old(
                self,
            ).ready_at(l) + old(self).arrivals(
                old(self).timer_view().take(n_due(old(self).timer_view(), now) as int),
                l,
            ) by {
                assert(self.ready@[l]@ == pre.ready@[l]@ + pre.arrivals(pre.timer@.take(k), l));
                Self::lemma_arrivals_agree(pre, *old(self), pre.timer@.take(k), l);
            }
        }
    }

    /// Re-establishes the invariant after the due head of the timer queue
    /// moved to its priority level's ready queue; `ti` is its task and slot
    /// index.
    proof fn lemma_service_wf(&self, cur: Kernel<P>, ti: (usize, usize))
        requires
            cur.wf(),
            cur.timer@.len() > 0,
            ti.0 == cur.timer@[0].task,
            ti.1 == cur.timer@[0].index,
            self.tasks == cur.tasks,
            self.pools == cur.pools,
            self.timer@ == cur.timer@.drop_first(),
            self.timer.wf(),
            self.ready@.len() == cur.ready@.len(),
            self.ready_at(cur.tasks@[ti.0 as int].priority as int) == cur.ready_at(
                cur.tasks@[ti.0 as int].priority as int,
            ).push(Activation { task: ti.0, index: ti.1 }),
            forall|l2: int|
                0 <= l2 < cur.ready@.len() && l2 != cur.tasks@[ti.0 as int].priority as int ==> (
                #[trigger] self.ready@[l2])@ == cur.ready@[l2]@,
            self.next_marker == cur.next_marker,
            self.mask == cur.mask,
            self.clock == cur.clock,
            self.compare == (if self.timer@.len() == 0 {
                None
            } else {
                Some(self.timer@[0].instant)
            }),
        ensures
            self.wf(),
    {
        let e = cur.timer@[0];
        let t = e.task as int;
        let i = e.index;
        let le = cur.tasks@[t].priority as int;
        let act = Activation { task: e.task, index: i };
        assert(cur.nr_ok(e));
        assert forall|t2: int| 0 <= t2 < self.tasks@.len() implies {
            &&& 1 <= (#[trigger] self.tasks@[t2]).priority
            &&& (self.tasks@[t2].priority as int) < self.ready@.len()
            &&& self.pools@[t2].wf()
            &&& self.pools@[t2].capacity() == self.tasks@[t2].capacity
        } by {
            assert(1 <= cur.tasks@[t2].priority);
        }
        assert(cur.distinct_pending(t));
        lemma_timer_indices_first(cur.timer@, t);
        assert(cur.tq_idx(t) == seq![i] + self.tq_idx(t));
        assert(cur.tq_idx(t)[0] == i);
        assert(!cur.rq_idx(t).contains(i)) by {
            if cur.rq_idx(t).contains(i) {
                let a = choose|a: int| 0 <= a < cur.rq_idx(t).len() && cur.rq_idx(t)[a] == i;
                assert(cur.rq_idx(t)[a] != cur.tq_idx(t)[0]);
            }
        }
        assert(!self.tq_idx(t).contains(i)) by {
            if self.tq_idx(t).contains(i) {
                let b = choose|b: int| 0 <= b < self.tq_idx(t).len() && self.tq_idx(t)[b] == i;
                assert(cur.tq_idx(t)[b + 1] == i);
            }
        }
        assert forall|l2: int, j: int|
            0 <= l2 < self.ready@.len() && 0 <= j < self.ready_at(l2).len() implies self.act_ok(
            l2,
            #[trigger] self.ready_at(l2)[j],
        ) by {
            if l2 == le && j == cur.ready_at(le).len() {
                assert(self.ready_at(l2)[j] == act);
            } else {
                assert(self.ready_at(l2)[j] == cur.ready_at(l2)[j]);
                assert(cur.act_ok(l2, cur.ready_at(l2)[j]));
            }
        }
        assert forall|j: int| 0 <= j < self.timer@.len() implies self.nr_ok(
            #[trigger] self.timer@[j],
        ) by {
            assert(self.timer@[j] == cur.timer@[j + 1]);
            assert(cur.nr_ok(cur.timer@[j + 1]));
        }
        assert forall|t2: int| 0 <= t2 < self.tasks@.len() implies self.distinct_pending(t2) by {
            assert(cur.distinct_pending(t2));
            let l2 = cur.tasks@[t2].priority as int;
            lemma_timer_indices_first(cur.timer@, t2);
            if t2 == t {
                assert(self.rq_idx(t) == cur.rq_idx(t).push(i)) by {
                    lemma_ready_indices_push(cur.ready_at(le), act, t);
                }
                lemma_no_dup_push(cur.rq_idx(t), i);
                assert(self.tq_idx(t).no_duplicates()) by {
                    assert forall|a: int, b: int|
                        0 <= a < b < self.tq_idx(t).len() implies self.tq_idx(t)[a] != self.tq_idx(
                        t,
                    )[b] by {
                        assert(cur.tq_idx(t)[a + 1] != cur.tq_idx(t)[b + 1]);
                    }
                }
                assert forall|a: int, b: int|
                    0 <= a < self.rq_idx(t).len() && 0 <= b < self.tq_idx(t).len() implies
                    self.rq_idx(t)[a] != self.tq_idx(t)[b] by {
                    assert(self.tq_idx(t)[b] == cur.tq_idx(t)[b + 1]);
                    if a < cur.rq_idx(t).len() {
                        assert(cur.rq_idx(t)[a] != cur.tq_idx(t)[b + 1]);
                    } else {
                        assert(self.rq_idx(t)[a] == i);
                        assert(cur.tq_idx(t)[0] != cur.tq_idx(t)[b + 1]);
                    }
                }
            } else {
                if l2 == le {
                    lemma_ready_indices_push(cur.ready_at(le), act, t2);
                    assert(self.rq_idx(t2) == cur.rq_idx(t2));
                } else {
                    assert(self.ready_at(l2) == cur.ready_at(l2));
                    assert(self.rq_idx(t2) == cur.rq_idx(t2));
                }
                assert(self.tq_idx(t2) == cur.tq_idx(t2));
                assert forall|a: int, b: int|
                    0 <= a < self.rq_idx(t2).len() && 0 <= b < self.tq_idx(t2).len() implies
                    self.rq_idx(t2)[a] != self.tq_idx(t2)[b] by {
                    assert(cur.rq_idx(t2)[a] != cur.tq_idx(t2)[b]);
                }
            }
        }
    }

    /// What the dispatcher of level `l` will execute if it drains now: for
    /// each queued activation, in queue order — which is spawn order — the
    /// task's tag and the payload pending in its slot.
    pub open spec fn level_payloads(&self, l: int) -> Seq<(usize, P)> {
        Seq::new(
            self.ready_at(l).len(),
            |j: int|
                (
                    self.ready_at(l)[j].task,
                    self.payload_at(
                        self.ready_at(l)[j].task as int,
                        self.ready_at(l)[j].index as int,
                    ),
                ),
        )
    }

    /// The dispatcher of priority level `level`: drains the level's ready
    /// queue until it reports empty, never blocking and never waiting.  The
    /// result lists what the caller must now execute: exactly the queued
    /// activations' tags and payloads, in the order they were spawned —
    /// activations spawned to one level run first-in first-out.
    pub fn drain(&mut self, level: usize) -> (r: Vec<(usize, P)>)
        requires
            old(self).wf(),
            (level as int) < old(self).n_levels(),
            (old(self).mask() as int) < level as int,
        ensures
            final(self).wf(),
            final(self).same_layout(*old(self)),
            r@ == old(self).level_payloads(level as int),
            final(self).ready_at(level as int).len() == 0,
            forall|l2: int|
                0 <= l2 < old(self).n_levels() && l2 != level as int ==> final(self).ready_at(l2)
                    == old(self).ready_at(l2),
            final(self).timer_view() == old(self).timer_view(),
            final(self).mask() == old(self).mask(),
            final(self).next_marker() == old(self).next_marker(),
            final(self).n_levels() == old(self).n_levels(),
            final(self).n_tasks() == old(self).n_tasks(),
            forall|t: int|
                0 <= t < old(self).n_tasks() ==> final(self).free_len(t) == old(self).free_len(t)
                    + ready_indices(old(self).ready_at(level as int), t).len(),
    {
        let ghost pre = *old(self);
        let ghost lv = level as int;
        let mut out: Vec<(usize, P)> = Vec::new();
        while !self.ready[level].is_empty()
            invariant
                self.wf(),
                pre.wf(),
                lv == level as int,
                0 <= lv < pre.n_levels(),
                (pre.mask() as int) < lv,
                self.n_levels() == pre.n_levels(),
                self.n_tasks() == pre.n_tasks(),
                self.tasks == pre.tasks,
                self.mask() == pre.mask(),
                self.next_marker() == pre.next_marker(),
                self.timer_view() == pre.timer_view(),
                self.clock == pre.clock,
                self.compare == pre.compare,
                out@.len() <= pre.ready_at(lv).len(),
                self.ready_at(lv) == pre.ready_at(lv).skip(out@.len() as int),
                forall|l2: int|
                    0 <= l2 < pre.n_levels() && l2 != lv ==> (#[trigger] self.ready_at(l2))
                        == pre.ready_at(l2),
                out@ == pre.level_payloads(lv).take(out@.len() as int),
                forall|j: int|
                    out@.len() <= j < pre.ready_at(lv).len() ==> {
                        let ej = #[trigger] pre.ready_at(lv)[j];
                        self.payload_at(ej.task as int, ej.index as int) == pre.payload_at(
                            ej.task as int,
                            ej.index as int,
                        )
                    },
                forall|t: int|
                    0 <= t < pre.n_tasks() ==> #[trigger] self.free_len(t) == pre.free_len(t)
                        + ready_indices(pre.ready_at(lv).take(out@.len() as int), t).len(),
            decreases self.ready_at(lv).len(),
        {
            let ghost cur = *self;
            let ghost k = out@.len() as int;
            let x_opt = self.dispatch_one(level);
            match x_opt {
                Some(v) => {
                    proof {
                        let e = cur.ready_at(lv)[0];
                        assert(e == pre.ready_at(lv)[k]);
                        assert(v.0 == e.task && v.1 == cur.payload_at(
                            e.task as int,
                            e.index as int,
                        ));
                        assert(pre.level_payloads(lv)[k] == (
                            e.task,
                            pre.payload_at(e.task as int, e.index as int),
                        ));
                        assert(self.ready_at(lv) =~= pre.ready_at(lv).skip(k + 1));
                        assert(out@.push(v) =~= pre.level_payloads(lv).take(k + 1));
                        assert(cur.act_ok(lv, e));
                        assert(cur.distinct_pending(e.task as int));
                        assert forall|j: int| k + 1 <= j < pre.ready_at(lv).len() implies {
                            let ej = #[trigger] pre.ready_at(lv)[j];
                            self.payload_at(ej.task as int, ej.index as int) == pre.payload_at(
                                ej.task as int,
                                ej.index as int,
                            )
                        } by {
                            let ej = pre.ready_at(lv)[j];
                            assert(cur.ready_at(lv)[j - k] == ej);
                            assert(cur.act_ok(lv, cur.ready_at(lv)[j - k]));
                            if ej.task == e.task {
                                lemma_ready_indices_distinct(
                                    cur.ready_at(lv),
                                    e.task as int,
                                    0,
                                    j - k,
                                );
                                assert(ej.index != e.index);
                            } else {
                                assert(self.slots(ej.task as int) =~= cur.slots(
                                    ej.task as int,
                                ));
                            }
                        }
                        assert(pre.ready_at(lv).take(k + 1) =~= pre.ready_at(lv).take(k).push(e));
                        assert forall|t: int| 0 <= t < pre.n_tasks() implies
                            #[trigger] self.free_len(t) == pre.free_len(t) + ready_indices(
                            pre.ready_at(lv).take(k + 1),
                            t,
                        ).len() by {
                            lemma_ready_indices_push(pre.ready_at(lv).take(k), e, t);
                            assert(cur.free_len(t) == pre.free_len(t) + ready_indices(
                                pre.ready_at(lv).take(k),
                                t,
                            ).len());
                            if t != e.task as int {
                                assert(self.slots(t) =~= cur.slots(t));
                                assert(self.free_list(t) =~= cur.free_list(t));
                            }
                        }
                        assert forall|l2: int|
                            0 <= l2 < pre.n_levels() && l2 != lv implies #[trigger] self.ready_at(
                            l2,
                        ) == pre.ready_at(l2) by {
                            assert(self.ready_at(l2) =~= cur.ready_at(l2));
                            assert(cur.ready_at(l2) == pre.ready_at(l2));
                        }
                    }
                    out.push(v);
                },
                None => {
                    proof {
                        assert(false);
                    }
                },
            }
        }
        proof {
            assert(out@.len() == pre.ready_at(lv).len());
            assert(pre.level_payloads(lv).take(out@.len() as int) =~= pre.level_payloads(lv));
            assert forall|t: int| 0 <= t < pre.n_tasks() implies #[trigger] self.free_len(t)
                == pre.free_len(t) + ready_indices(pre.ready_at(lv), t).len() by {
                assert(pre.ready_at(lv).take(out@.len() as int) =~= pre.ready_at(lv));
            }
        }
        out
    }

    /// The priority level the hardware would run next: the highest level
    /// with pending work that the mask admits, or `None` when every pended
    /// dispatcher is masked or empty.
    pub fn next_eligible(&self) -> (r: Option<usize>)
        requires
            self.wf(),
        ensures
            r is None ==> forall|l: int| 0 <= l < self.n_levels() ==> !self.eligible(l),
            r is Some ==> self.eligible(r->0 as int) && forall|l: int|
                (r->0 as int) < l < self.n_levels() ==> !self.eligible(l),
    {
        let mut l: usize = self.ready.len();
        while l > 0
            invariant
                l <= self.ready@.len(),
                forall|l2: int| l <= l2 < self.ready@.len() ==> !self.eligible(l2),
            decreases l,
        {
            l = l - 1;
            let empty = self.ready[l].is_empty();
            if (self.mask as usize) < l && !empty {
                return Some(l);
            }
            proof {
                assert(!self.eligible(l as int));
            }
        }
        None
    }

    /// Dispatch order is spawn order.  Two activations spawned one after
    /// the other to the same priority level stand at the back of that
    /// level's dispatch list in exactly that order, behind everything
    /// spawned before them — and `drain` executes the dispatch list front
    /// to back.
    pub proof fn lemma_fifo_spawn_order(
        pre: Kernel<P>,
        mid: Kernel<P>,
        fin: Kernel<P>,
        t1: usize,
        p1: P,
        t2: usize,
        p2: P,
    )
        requires
            pre.wf(),
            mid.wf(),
            fin.wf(),
            (t1 as int) < pre.n_tasks(),
            (t2 as int) < pre.n_tasks(),
            pre.task_priority(t1 as int) == pre.task_priority(t2 as int),
            mid.spawned(pre, t1, p1),
            fin.spawned(mid, t2, p2),
        ensures
            ({
                let l = pre.task_priority(t1 as int) as int;
                fin.level_payloads(l) == pre.level_payloads(l).push((t1, p1)).push((t2, p2))
            }),
    {
        let l = pre.task_priority(t1 as int) as int;
        let i1 = pre.free_head(t1 as int);
        let i2 = mid.free_head(t2 as int);
        let e1 = Activation { task: t1, index: i1 };
        let e2 = Activation { task: t2, index: i2 };
        assert(1 <= pre.tasks@[t1 as int].priority);
        assert(1 <= pre.tasks@[t2 as int].priority);
        assert(1 <= mid.tasks@[t1 as int].priority);
        assert(1 <= mid.tasks@[t2 as int].priority);
        pre.pools@[t1 as int].lemma_free_head_vacant();
        mid.pools@[t2 as int].lemma_free_head_vacant();
        assert(mid.ready_at(l) == pre.ready_at(l).push(e1));
        assert(fin.ready_at(l) == mid.ready_at(l).push(e2));
        assert(mid.payload_at(t1 as int, i1 as int) == p1);
        if t2 == t1 {
            // The second reservation took a slot that was still vacant,
            // while the first payload's slot was already occupied.
            assert(mid.pools@[t1 as int].occupied(i1 as int));
            assert(i2 != i1);
        } else {
            assert(fin.slots(t1 as int) =~= mid.slots(t1 as int));
        }
        assert(fin.payload_at(t1 as int, i1 as int) == p1);
        assert(fin.payload_at(t2 as int, i2 as int) == p2);
        assert forall|j: int| 0 <= j < pre.ready_at(l).len() implies {
            let ej = #[trigger] pre.ready_at(l)[j];
            fin.payload_at(ej.task as int, ej.index as int) == pre.payload_at(
                ej.task as int,
                ej.index as int,
            )
        } by {
            let ej = pre.ready_at(l)[j];
            assert(pre.act_ok(l, ej));
            if ej.task == t1 {
                assert(!pre.occupied(t1 as int, i1 as int));
                assert(ej.index != i1);
            } else {
                assert(mid.slots(ej.task as int) =~= pre.slots(ej.task as int));
            }
            assert(mid.act_ok(l, mid.ready_at(l)[j]));
            if ej.task == t2 {
                assert(!mid.occupied(t2 as int, i2 as int));
                assert(ej.index != i2);
            } else {
                assert(fin.slots(ej.task as int) =~= mid.slots(ej.task as int));
            }
        }
        assert(fin.level_payloads(l) =~= pre.level_payloads(l).push((t1, p1)).push((t2, p2)));
    }

    /// Basic consequences of the invariant that callers build on: each
    /// task's slot array matches its declared capacity, and the next free
    /// index names a real, vacant slot.
    pub proof fn lemma_slot_bounds(&self, t: int)
        requires
            self.wf(),
            0 <= t < self.n_tasks(),
        ensures
            self.slots(t).len() == self.task_capacity(t),
            self.free_len(t) > 0 ==> (self.free_head(t) as int) < self.task_capacity(t)
                && !self.occupied(t, self.free_head(t) as int),
    {
        assert(1 <= self.tasks@[t].priority);
        if self.free_len(t) > 0 {
            self.pools@[t].lemma_free_head_vacant();
        }
    }

    /// A spawn finds no free slot exactly when the task's whole declared
    /// capacity is pending — capacity exhaustion is the only way to fail,
    /// and draining one activation makes room for exactly one spawn.
    pub proof fn lemma_capacity_exhaustion(&self, t: int)
        requires
            self.wf(),
            0 <= t < self.n_tasks(),
        ensures
            self.free_len(t) == 0 <==> self.n_pending(t) == self.task_capacity(t),
    {
        assert(1 <= self.tasks@[t].priority);
        self.pools@[t].lemma_exhaustion();
    }

    /// While the mask sits at or above a ceiling, no level at or below that
    /// ceiling is eligible to run: the ceiling protocol's mutual exclusion.
    pub proof fn lemma_ceiling_blocks(&self, c: u8)
        requires
            self.mask() >= c,
        ensures
            forall|l: int| 0 <= l <= c ==> !self.eligible(l),
    {
    }

    /// An activation pending at a level above the mask is eligible at once,
    /// while everything at or below the mask stays blocked: a spawn to a
    /// strictly higher priority preempts the running body immediately, and
    /// the preempted level resumes only afterwards.
    pub proof fn lemma_preemption(&self, l: int)
        requires
            0 <= l < self.n_levels(),
            self.ready_at(l).len() > 0,
            l > self.mask(),
        ensures
            self.eligible(l),
            forall|l2: int| 0 <= l2 <= self.mask() ==> !self.eligible(l2),
    {
    }
}

} // verus!
