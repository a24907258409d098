//! Shared resources guarded by the priority-ceiling protocol.
//!
//! A resource carries the ceiling computed statically from the priorities of
//! every task that accesses it.  Access demands that the current ceiling
//! mask sit at or above that ceiling — the discipline that gives mutual
//! exclusion without blocking: while the mask is raised, no task of priority
//! at or below the ceiling can run, so no access can be interleaved with
//! one.  Callers raise the mask with [`crate::kernel::Kernel::lock`] and
//! hand the mask in; the requirement is checked statically, not at run
//! time.

use vstd::prelude::*;

verus! {

/// A piece of shared state with its statically computed ceiling: the
/// highest priority among the tasks that access it.
pub struct Resource<T> {
    ceiling: u8,
    value: T,
}

impl<T> Resource<T> {
    /// The ceiling; fixed at construction.
    pub closed spec fn ceiling(&self) -> u8 {
        self.ceiling
    }

    /// The stored state.
    pub closed spec fn value_spec(&self) -> T {
        self.value
    }

    /// A resource with the given ceiling, before scheduling starts.
    pub fn new(ceiling: u8, value: T) -> (r: Resource<T>)
        ensures
            r.ceiling() == ceiling,
            r.value_spec() == value,
    {
        Resource { ceiling, value }
    }

    /// The ceiling, readable without holding the lock (it never changes).
    pub fn ceiling_value(&self) -> (r: u8)
        ensures
            r == self.ceiling(),
    {
        self.ceiling
    }

    /// Borrows the state; only inside a critical section whose mask holds
    /// the ceiling.
    pub fn borrow(&self, mask: u8) -> (r: &T)
        requires
            mask >= self.ceiling(),
        ensures
            *r == self.value_spec(),
    {
        &self.value
    }

    /// Replaces the state, returning the previous value; only inside a
    /// critical section whose mask holds the ceiling.
    pub fn replace(&mut self, mask: u8, value: T) -> (r: T)
        requires
            mask >= old(self).ceiling(),
        ensures
            r == old(self).value_spec(),
            final(self).value_spec() == value,
            final(self).ceiling() == old(self).ceiling(),
    {
        let mut v = value;
        core::mem::swap(&mut self.value, &mut v);
        v
    }
}

} // verus!
