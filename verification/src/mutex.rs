//! Mutual exclusion by interrupt masking.
//!
//! On a single core the only source of contention is interrupt reentrancy, so
//! exclusive access is granted by masking the processor's global interrupt
//! line for the span of the critical section.  The line itself is a hardware
//! register; this module models it as an explicit [`IrqState`] value that the
//! board layer mirrors onto the real mask instructions after each change.
//!
//! Acquisition hands the protected value out by ownership together with a
//! guard that records the interrupt-enable state found at acquisition;
//! release restores exactly that saved state rather than unconditionally
//! re-enabling, so critical sections over distinct mutexes nest safely.
//! Acquiring the same mutex from within its own critical section is excluded
//! by precondition: the value is already out on loan.

use vstd::prelude::*;

verus! {

/// Model of the processor's global interrupt-enable line.
///
/// The kernel core manipulates this value; the board layer applies each
/// change with the architecture's interrupt mask instructions.
pub struct IrqState {
    pub enabled: bool,
}

impl IrqState {
    /// The line as the core comes out of reset, with interrupts enabled.
    pub fn new() -> (r: IrqState)
        ensures
            r.enabled,
    {
        IrqState { enabled: true }
    }
}

/// Token held for the span of a critical section; it records the state of the
/// interrupt line at acquisition so that release can restore it exactly.
pub struct MutexGuard {
    pub prior_enabled: bool,
}

impl MutexGuard {
    /// A guard remembering that the interrupt line was `prior_enabled` when
    /// the critical section was entered.
    pub fn new(prior_enabled: bool) -> (r: MutexGuard)
        ensures
            r.prior_enabled == prior_enabled,
    {
        MutexGuard { prior_enabled }
    }
}

/// Wraps a value and grants exclusive access to it under a masked interrupt
/// line.  While a critical section is open the value is out on loan and the
/// mutex holds nothing.
pub struct Mutex<T> {
    inner: Option<T>,
}

impl<T> Mutex<T> {
    /// The wrapped value, or `None` while a critical section is open.
    pub closed spec fn contents(&self) -> Option<T> {
        self.inner
    }

    /// A mutex is at rest when no critical section is open on it.
    pub open spec fn at_rest(&self) -> bool {
        self.contents() is Some
    }

    /// A new mutex wrapping `inner`, at rest.
    pub fn new(inner: T) -> (r: Mutex<T>)
        ensures
            r.contents() == Some(inner),
    {
        Mutex { inner: Some(inner) }
    }

    /// Opens a critical section: masks the interrupt line, hands the wrapped
    /// value out by ownership, and returns a guard recording the line's prior
    /// state.  Cannot fail; it must not be called again on the same mutex
    /// before [`Mutex::unlock`], which the precondition enforces.
    pub fn lock(&mut self, irq: &mut IrqState) -> (r: (T, MutexGuard))
        requires
            old(self).at_rest(),
        ensures
            Some(r.0) == old(self).contents(),
            r.1.prior_enabled == old(irq).enabled,
            !final(irq).enabled,
            final(self).contents() is None,
    {
        let prior = irq.enabled;
        irq.enabled = false;
        let value = self.inner.take().unwrap();
        (value, MutexGuard::new(prior))
    }

    /// Closes a critical section: puts a value back under the mutex and
    /// restores the interrupt line to the state saved in the guard.
    pub fn unlock(&mut self, irq: &mut IrqState, value: T, guard: MutexGuard)
        ensures
            final(self).contents() == Some(value),
            final(irq).enabled == guard.prior_enabled,
    {
        self.inner = Some(value);
        irq.enabled = guard.prior_enabled;
    }
}

} // verus!
