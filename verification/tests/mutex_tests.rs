use kernel::mutex::{IrqState, Mutex, MutexGuard};

#[test]
fn irq_state_starts_enabled() {
    let irq = IrqState::new();
    assert!(irq.enabled);
}

#[test]
fn guard_records_prior_state() {
    let guard = MutexGuard::new(true);
    assert!(guard.prior_enabled);
    let guard = MutexGuard::new(false);
    assert!(!guard.prior_enabled);
}

#[test]
fn lock_masks_and_unlock_restores() {
    let mut irq = IrqState::new();
    let mut mutex = Mutex::new(42u32);

    let (value, guard) = mutex.lock(&mut irq);
    assert_eq!(value, 42);
    assert!(!irq.enabled);
    assert!(guard.prior_enabled);

    mutex.unlock(&mut irq, value + 1, guard);
    assert!(irq.enabled);

    let (value, guard) = mutex.lock(&mut irq);
    assert_eq!(value, 43);
    mutex.unlock(&mut irq, value, guard);
}

#[test]
fn nested_critical_sections_restore_saved_state() {
    // the guard restores the state found at acquisition, not simply
    // "enabled", so sections over two mutexes nest safely
    let mut irq = IrqState::new();
    let mut outer = Mutex::new(1u8);
    let mut inner = Mutex::new(2u8);

    let (outer_value, outer_guard) = outer.lock(&mut irq);
    assert!(!irq.enabled);

    let (inner_value, inner_guard) = inner.lock(&mut irq);
    assert!(!irq.enabled);
    assert!(!inner_guard.prior_enabled);
    inner.unlock(&mut irq, inner_value, inner_guard);

    // still inside the outer section: interrupts stay masked
    assert!(!irq.enabled);

    outer.unlock(&mut irq, outer_value, outer_guard);
    assert!(irq.enabled);
}
