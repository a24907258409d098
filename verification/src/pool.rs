//! Fixed-capacity payload slot pools.
//!
//! Each software task owns a pool of `capacity` payload slots together with a
//! free queue of currently vacant slot indices.  A spawn reserves the front
//! free index and writes the payload; the dispatcher (or a cancellation)
//! reads the payload back and returns the index to the free queue.  The
//! pool's invariant keeps the free queue and the slots' occupied/vacant
//! states in exact agreement, so a reservation fails precisely when every
//! slot is occupied.

use vstd::prelude::*;

use crate::fifo::Fifo;

verus! {

/// The number of occupied slots in `s`.
pub open spec fn count_occupied<P>(s: Seq<Option<P>>) -> nat
    decreases s.len(),
{
    if s.len() == 0 {
        0
    } else {
        count_occupied(s.drop_last()) + if s.last() is Some {
            1nat
        } else {
            0nat
        }
    }
}

/// Appending a slot changes the occupied count by one exactly when the slot
/// is occupied.
proof fn lemma_count_occupied_push<P>(s: Seq<Option<P>>, x: Option<P>)
    ensures
        count_occupied(s.push(x)) == count_occupied(s) + if x is Some {
            1nat
        } else {
            0nat
        },
{
    assert(s.push(x).drop_last() =~= s);
    assert(s.push(x).last() == x);
}

/// Overwriting one slot changes the occupied count by the difference of the
/// old and new states of that slot.
proof fn lemma_count_occupied_update<P>(s: Seq<Option<P>>, i: int, x: Option<P>)
    requires
        0 <= i < s.len(),
    ensures
        count_occupied(s.update(i, x)) + (if s[i] is Some {
            1nat
        } else {
            0nat
        }) == count_occupied(s) + if x is Some {
            1nat
        } else {
            0nat
        },
    decreases s.len(),
{
    let t = s.update(i, x);
    if i == s.len() - 1 {
        assert(t.drop_last() =~= s.drop_last());
        assert(t.last() == x);
    } else {
        assert(t.drop_last() =~= s.drop_last().update(i, x));
        assert(t.last() == s.last());
        lemma_count_occupied_update(s.drop_last(), i, x);
    }
}

/// A fixed pool of payload slots with a first-in-first-out queue of the
/// vacant slot indices.
pub struct SlotPool<P> {
    slots: Vec<Option<P>>,
    free: Fifo<usize>,
}

impl<P: Copy> SlotPool<P> {
    /// The slots themselves: `Some` where a pending payload is stored.
    pub closed spec fn slot_view(&self) -> Seq<Option<P>> {
        self.slots@
    }

    /// The number of slots; fixed at construction.
    pub open spec fn capacity(&self) -> nat {
        self.slot_view().len()
    }

    /// The queue of vacant indices, front (next to be reserved) first.
    pub closed spec fn free_list(&self) -> Seq<usize> {
        self.free@
    }

    /// The number of vacant slots.
    pub open spec fn n_free(&self) -> nat {
        self.free_list().len()
    }

    /// The number of occupied slots.
    pub open spec fn n_occupied(&self) -> nat {
        count_occupied(self.slot_view())
    }

    /// True if slot `i` holds a pending payload.
    pub open spec fn occupied(&self, i: int) -> bool {
        0 <= i < self.slot_view().len() && self.slot_view()[i] is Some
    }

    /// The payload stored in slot `i`.
    pub open spec fn payload(&self, i: int) -> P
        recommends
            self.occupied(i),
    {
        self.slot_view()[i]->0
    }

    /// The pool's invariant: the free queue holds vacant indices only, each
    /// at most once, and its length is exactly the number of vacant slots —
    /// so it lists every vacant slot, and reservation fails only at full
    /// occupancy.
    pub closed spec fn wf(&self) -> bool {
        &&& forall|j: int|
            0 <= j < self.free@.len() ==> (#[trigger] self.free@[j] as int) < self.capacity()
                && self.slots@[self.free@[j] as int] is None
        &&& self.free@.no_duplicates()
        &&& self.free@.len() + count_occupied(self.slots@) == self.capacity()
    }

    /// A pool of `capacity` vacant slots, the free queue holding the indices
    /// in increasing order.
    pub fn new(capacity: usize) -> (r: SlotPool<P>)
        ensures
            r.wf(),
            r.capacity() == capacity,
            r.n_occupied() == 0,
            r.free_list() == Seq::new(capacity as nat, |i: int| i as usize),
    {
        let mut slots: Vec<Option<P>> = Vec::new();
        let mut free: Fifo<usize> = Fifo::new();
        let mut k: usize = 0;
        while k < capacity
            invariant
                k <= capacity,
                slots@.len() == k,
                forall|i: int| 0 <= i < slots@.len() ==> slots@[i] is None,
                count_occupied(slots@) == 0,
                free@ =~= Seq::new(k as nat, |i: int| i as usize),
            decreases capacity - k,
        {
            let ghost prev = slots@;
            slots.push(None);
            free.enqueue(k);
            proof {
                lemma_count_occupied_push(prev, None::<P>);
                assert(free@ =~= Seq::new((k + 1) as nat, |i: int| i as usize));
            }
            k = k + 1;
        }
        let r = SlotPool { slots, free };
        proof {
            assert forall|j: int| 0 <= j < r.free@.len() implies (#[trigger] r.free@[j] as int)
                < r.capacity() && r.slots@[r.free@[j] as int] is None by {
                assert(r.free@[j] == j as usize);
            }
            assert forall|a: int, b: int|
                0 <= a < r.free@.len() && 0 <= b < r.free@.len() && a != b implies r.free@[a]
                != r.free@[b] by {
                assert(r.free@[a] == a as usize);
                assert(r.free@[b] == b as usize);
            }
        }
        r
    }

    /// Reserves the front vacant slot for payload `p`; fails, leaving the
    /// pool unchanged, exactly when every slot is occupied.
    pub fn try_reserve(&mut self, p: P) -> (r: Option<usize>)
        requires
            old(self).wf(),
        ensures
            final(self).wf(),
            final(self).capacity() == old(self).capacity(),
            r is None <==> old(self).n_free() == 0,
            r is None ==> final(self).slot_view() == old(self).slot_view()
                && final(self).free_list() == old(self).free_list(),
            r is Some ==> {
                let i = r->0;
                &&& i == old(self).free_list()[0]
                &&& i < old(self).capacity()
                &&& !old(self).occupied(i as int)
                &&& final(self).slot_view() == old(self).slot_view().update(i as int, Some(p))
                &&& final(self).free_list() == old(self).free_list().drop_first()
                &&& final(self).n_occupied() == old(self).n_occupied() + 1
            },
    {
        match self.free.dequeue() {
            None => None,
            Some(i) => {
                proof {
                    lemma_count_occupied_update(self.slots@, i as int, Some(p));
                }
                self.slots[i] = Some(p);
                proof {
                    let pre = old(self);
                    crate::seqs::lemma_no_dup_drop_first(pre.free@);
                    assert forall|j: int| 0 <= j < self.free@.len() implies (
                    #[trigger] self.free@[j] as int) < self.capacity()
                        && self.slots@[self.free@[j] as int] is None by {
                        assert(self.free@[j] == pre.free@[j + 1]);
                        assert(pre.free@[j + 1] != pre.free@[0]);
                    }
                }
                Some(i)
            },
        }
    }

    /// Reads the payload out of occupied slot `i`, marks the slot vacant and
    /// returns the index to the back of the free queue.
    pub fn take(&mut self, i: usize) -> (r: P)
        requires
            old(self).wf(),
            old(self).occupied(i as int),
        ensures
            final(self).wf(),
            final(self).capacity() == old(self).capacity(),
            r == old(self).payload(i as int),
            final(self).slot_view() == old(self).slot_view().update(i as int, None),
            final(self).free_list() == old(self).free_list().push(i),
            final(self).n_occupied() + 1 == old(self).n_occupied(),
    {
        let p = self.slots[i].unwrap();
        proof {
            lemma_count_occupied_update(self.slots@, i as int, None::<P>);
            assert(!self.free@.contains(i)) by {
                if self.free@.contains(i) {
                    let k = choose|k: int| 0 <= k < self.free@.len() && self.free@[k] == i;
                    assert(self.slots@[self.free@[k] as int] is None);
                }
            }
            crate::seqs::lemma_no_dup_push(self.free@, i);
        }
        self.slots[i] = None;
        self.free.enqueue(i);
        proof {
            let pre = old(self);
            assert forall|j: int| 0 <= j < self.free@.len() implies (
            #[trigger] self.free@[j] as int) < self.capacity()
                && self.slots@[self.free@[j] as int] is None by {
                if j < pre.free@.len() {
                    assert(self.free@[j] == pre.free@[j]);
                    assert(pre.slots@[pre.free@[j] as int] is None);
                } else {
                    assert(self.free@[j] == i);
                }
            }
        }
        p
    }

    /// The next index a reservation would take is a real, vacant slot.
    pub proof fn lemma_free_head_vacant(&self)
        requires
            self.wf(),
            self.n_free() > 0,
        ensures
            (self.free_list()[0] as int) < self.capacity(),
            !self.occupied(self.free_list()[0] as int),
    {
    }

    /// The invariant is a property of the two views alone, so a pool with
    /// the same views is well-formed too.
    pub proof fn lemma_wf_from_views(&self, other: &SlotPool<P>)
        requires
            self.wf(),
            other.slot_view() == self.slot_view(),
            other.free_list() == self.free_list(),
        ensures
            other.wf(),
    {
    }

    /// A reservation fails exactly when the pool's whole capacity is pending:
    /// the free queue is empty precisely when every slot is occupied.
    pub proof fn lemma_exhaustion(&self)
        requires
            self.wf(),
        ensures
            self.n_free() == 0 <==> self.n_occupied() == self.capacity(),
    {
    }
}

} // verus!
