//! The timer queue: deferred activations in firing order.
//!
//! Entries are kept totally ordered by target instant and, for equal
//! instants, by marker — the sequence number a schedule call stamped on the
//! activation — so the firing order of simultaneous activations is their
//! schedule order and the head is always the next activation due.  Markers
//! are the stable handles of cancellation and reschedule: slot indices are
//! reused as soon as they are freed, markers never are.

use vstd::prelude::*;

use crate::time::Instant;

verus! {

/// A deferred activation that is not yet due: the instant it is due at, the
/// marker stamped at schedule time, and the task and payload slot it will
/// make ready.
#[derive(Clone, Copy, PartialEq, Eq, Structural, Debug)]
pub struct NotReady {
    pub instant: Instant,
    pub marker: u64,
    pub task: usize,
    pub index: usize,
}

/// The firing order: earlier instant first, ties resolved by marker.
pub open spec fn nr_le(a: NotReady, b: NotReady) -> bool {
    ||| a.instant.ticks < b.instant.ticks
    ||| (a.instant.ticks == b.instant.ticks && a.marker <= b.marker)
}

/// True if `s` is ordered by [`nr_le`].
pub open spec fn sorted_by_deadline(s: Seq<NotReady>) -> bool {
    forall|i: int, j: int| 0 <= i < j < s.len() ==> nr_le(#[trigger] s[i], #[trigger] s[j])
}

/// True if no two entries of `s` carry the same marker.
pub open spec fn distinct_markers(s: Seq<NotReady>) -> bool {
    forall|i: int, j: int|
        0 <= i < j < s.len() ==> (#[trigger] s[i]).marker != (#[trigger] s[j]).marker
}

/// True if some entry of `s` carries marker `m`.
pub open spec fn has_marker(s: Seq<NotReady>, m: u64) -> bool {
    exists|j: int| 0 <= j < s.len() && (#[trigger] s[j]).marker == m
}

/// The time-ordered queue of deferred activations, viewed in specifications
/// as its sequence of entries in firing order.
pub struct TimerQueue {
    entries: Vec<NotReady>,
}

impl TimerQueue {
    /// The queued entries, next due first.
    pub closed spec fn view(&self) -> Seq<NotReady> {
        self.entries@
    }

    /// The queue's invariant: entries in firing order, markers unique.
    pub open spec fn wf(&self) -> bool {
        sorted_by_deadline(self@) && distinct_markers(self@)
    }

    /// An empty queue.
    pub fn new() -> (r: TimerQueue)
        ensures
            r@ == Seq::<NotReady>::empty(),
            r.wf(),
    {
        TimerQueue { entries: Vec::new() }
    }

    /// The number of pending deferred activations.
    pub fn len(&self) -> (r: usize)
        ensures
            r == self@.len(),
    {
        self.entries.len()
    }

    /// The next activation due, if any; the clock's compare interrupt is
    /// armed for this entry's instant.
    pub fn head(&self) -> (r: Option<NotReady>)
        ensures
            r is None <==> self@.len() == 0,
            r is Some ==> r->0 == self@[0],
    {
        if self.entries.len() == 0 {
            None
        } else {
            Some(self.entries[0])
        }
    }

    /// True if an entry is queued and due at `now`.
    pub fn head_due(&self, now: Instant) -> (r: bool)
        ensures
            r == (self@.len() > 0 && self@[0].instant.ticks <= now.ticks),
    {
        if self.entries.len() == 0 {
            false
        } else {
            self.entries[0].instant.ticks <= now.ticks
        }
    }

    /// True if `a` fires no later than `b`.
    fn nr_before(a: &NotReady, b: &NotReady) -> (r: bool)
        ensures
            r == nr_le(*a, *b),
    {
        if a.instant.ticks < b.instant.ticks {
            true
        } else {
            a.instant.ticks == b.instant.ticks && a.marker <= b.marker
        }
    }

    /// Inserts `nr` at its place in firing order, behind every queued entry
    /// that fires no later than it; returns that position.
    pub fn enqueue(&mut self, nr: NotReady) -> (pos: usize)
        requires
            old(self).wf(),
            !has_marker(old(self)@, nr.marker),
        ensures
            final(self).wf(),
            pos <= old(self)@.len(),
            final(self)@ == old(self)@.insert(pos as int, nr),
            forall|j: int| 0 <= j < pos ==> nr_le(#[trigger] old(self)@[j], nr),
            forall|j: int| pos <= j < old(self)@.len() ==> nr_le(nr, #[trigger] old(self)@[j]),
    {
        let mut p: usize = 0;
        while p < self.entries.len() && Self::nr_before(&self.entries[p], &nr)
            invariant
                *self == *old(self),
                p <= self.entries@.len(),
                forall|j: int| 0 <= j < p ==> nr_le(#[trigger] self.entries@[j], nr),
            decreases self.entries@.len() - p,
        {
            p = p + 1;
        }
        proof {
            let s = self.entries@;
            assert forall|j: int| p <= j < s.len() implies nr_le(nr, #[trigger] s[j]) by {
                assert(!nr_le(s[p as int], nr));
                if j > p {
                    assert(nr_le(s[p as int], s[j]));
                }
            }
        }
        self.entries.insert(p, nr);
        proof {
            let pre = old(self)@;
            let t = self.entries@;
            assert forall|i: int, j: int| 0 <= i < j < t.len() implies nr_le(
                #[trigger] t[i],
                #[trigger] t[j],
            ) && t[i].marker != t[j].marker by {
                let i0 = if i < p {
                    i
                } else {
                    i - 1
                };
                let j0 = if j < p {
                    j
                } else {
                    j - 1
                };
                if i != p {
                    assert(t[i] == pre[i0]);
                }
                if j != p {
                    assert(t[j] == pre[j0]);
                }
            }
        }
        p
    }

    /// Removes and returns the head entry if it is due at `now`; leaves the
    /// queue unchanged if it is empty or its head still lies in the future.
    pub fn pop_due(&mut self, now: Instant) -> (r: Option<NotReady>)
        requires
            old(self).wf(),
        ensures
            final(self).wf(),
            r is None <==> (old(self)@.len() == 0 || old(self)@[0].instant.ticks > now.ticks),
            r is None ==> final(self)@ == old(self)@,
            r is Some ==> r->0 == old(self)@[0] && final(self)@ == old(self)@.drop_first(),
    {
        if self.entries.len() == 0 {
            return None;
        }
        if self.entries[0].instant.ticks > now.ticks {
            return None;
        }
        let e = self.entries.remove(0);
        proof {
            let pre = old(self)@;
            let t = self.entries@;
            assert(t =~= pre.drop_first());
            assert forall|i: int, j: int| 0 <= i < j < t.len() implies nr_le(
                #[trigger] t[i],
                #[trigger] t[j],
            ) by {
                assert(t[i] == pre[i + 1]);
                assert(t[j] == pre[j + 1]);
            }
            assert forall|i: int, j: int| 0 <= i < j < t.len() implies (#[trigger] t[i]).marker
                != (#[trigger] t[j]).marker by {
                assert(t[i] == pre[i + 1]);
                assert(t[j] == pre[j + 1]);
            }
        }
        Some(e)
    }

    /// The position of the entry carrying marker `m`, if it is still queued.
    fn find_marker(&self, m: u64) -> (r: Option<usize>)
        ensures
            r is None <==> !has_marker(self@, m),
            r is Some ==> r->0 < self@.len() && self@[r->0 as int].marker == m,
    {
        let mut k: usize = 0;
        while k < self.entries.len()
            invariant
                k <= self.entries@.len(),
                forall|j: int| 0 <= j < k ==> (#[trigger] self.entries@[j]).marker != m,
            decreases self.entries@.len() - k,
        {
            if self.entries[k].marker == m {
                return Some(k);
            }
            k = k + 1;
        }
        None
    }

    /// Removes and returns the entry carrying marker `m`, by linear scan;
    /// `None`, with the queue unchanged, if that activation has already
    /// fired or been canceled.
    pub fn cancel_marker(&mut self, m: u64) -> (r: Option<NotReady>)
        requires
            old(self).wf(),
        ensures
            final(self).wf(),
            r is None <==> !has_marker(old(self)@, m),
            r is None ==> final(self)@ == old(self)@,
            r is Some ==> r->0.marker == m && exists|j: int|
                0 <= j < old(self)@.len() && old(self)@[j] == r->0 && final(self)@ == old(
                    self,
                )@.remove(j),
    {
        match self.find_marker(m) {
            None => None,
            Some(j) => {
                let e = self.entries.remove(j);
                proof {
                    let pre = old(self)@;
                    let t = self.entries@;
                    assert forall|a: int, b: int| 0 <= a < b < t.len() implies nr_le(
                        #[trigger] t[a],
                        #[trigger] t[b],
                    ) && t[a].marker != t[b].marker by {
                        let a0 = if a < j {
                            a
                        } else {
                            a + 1
                        };
                        let b0 = if b < j {
                            b
                        } else {
                            b + 1
                        };
                        assert(t[a] == pre[a0]);
                        assert(t[b] == pre[b0]);
                    }
                    assert(pre[j as int] == e && final(self)@ == pre.remove(j as int));
                }
                Some(e)
            },
        }
    }

    /// Once an activation has fired — the queue's first `k` entries were
    /// drained — its marker names nothing any more: markers are unique, so
    /// a cancel or reschedule through a stale handle reports not-found
    /// rather than touching another activation.
    pub proof fn lemma_fired_marker_gone(s: Seq<NotReady>, k: int, j: int)
        requires
            distinct_markers(s),
            0 <= j < k <= s.len(),
        ensures
            !has_marker(s.skip(k), s[j].marker),
    {
        let rest = s.skip(k);
        assert forall|b: int| 0 <= b < rest.len() implies (#[trigger] rest[b]).marker
            != s[j].marker by {
            assert(rest[b] == s[b + k]);
        }
    }

    /// The head entry fires no later than anything else queued: the order of
    /// the queue is the firing order.
    pub proof fn lemma_head_earliest(&self)
        requires
            self.wf(),
            self@.len() > 0,
        ensures
            forall|j: int| 0 <= j < self@.len() ==> nr_le(self@[0], #[trigger] self@[j]),
    {
        assert forall|j: int| 0 <= j < self@.len() implies nr_le(self@[0], #[trigger] self@[j]) by {
            if j > 0 {
                assert(nr_le(self@[0], self@[j]));
            }
        }
    }
}

} // verus!
