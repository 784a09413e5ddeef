//! The admission controller's counting gate: a bounded budget of
//! simultaneously active connections, acquired on accept and released
//! exactly once when a connection reaches its terminal state. The counter
//! itself is verified here; concurrent callers serialize access to it with
//! whatever lock they use around the whole gate.

use vstd::prelude::*;

verus! {

/// A counting gate over a fixed budget.
#[derive(Debug)]
pub struct AdmissionGate {
    active: usize,
    capacity: usize,
}

impl AdmissionGate {
    /// How many permits are currently held.
    pub closed spec fn active(&self) -> usize {
        self.active
    }

    /// The fixed admission budget.
    pub closed spec fn capacity(&self) -> usize {
        self.capacity
    }

    /// Never are more permits out than the budget allows.
    pub open spec fn wf(&self) -> bool {
        self.active() <= self.capacity()
    }

    /// A fresh gate with the given budget and no permit held.
    pub fn new(capacity: usize) -> (g: Self)
        ensures
            g.capacity() == capacity,
            g.active() == 0,
            g.wf(),
    {
        AdmissionGate { active: 0, capacity }
    }

    /// Takes one permit if the budget allows it. Succeeds exactly when a
    /// permit is free; a gate at its budget (in particular one of budget
    /// zero) refuses, and the refused connection is answered
    /// `Service Unavailable` without any read from it.
    pub fn try_acquire(&mut self) -> (ok: bool)
        ensures
            final(self).capacity() == old(self).capacity(),
            ok == (old(self).active() < old(self).capacity()),
            ok ==> final(self).active() == old(self).active() + 1,
            !ok ==> final(self).active() == old(self).active(),
            old(self).wf() ==> final(self).wf(),
    {
        if self.active < self.capacity {
            self.active = self.active + 1;
            true
        } else {
            false
        }
    }

    /// Gives one held permit back. Every terminal path of a connection calls
    /// this exactly once for the permit it acquired.
    pub fn release(&mut self)
        requires
            old(self).active() > 0,
        ensures
            final(self).capacity() == old(self).capacity(),
            final(self).active() == old(self).active() - 1,
            old(self).wf() ==> final(self).wf(),
    {
        self.active = self.active - 1;
    }
}

} // verus!
