//! Verified core of a minimal round-robin real-time kernel.
//!
//! The crate provides the three primitives a small task-based embedded runtime
//! needs: a first-fit segment-list allocator over a flat address range
//! ([`allocator`]), task control blocks with downward-growing stacks, a FIFO
//! ready queue and a round-robin scheduler ([`task`] and [`syscalls`]), and an
//! interrupt-masking mutual-exclusion primitive ([`mutex`]).
//!
//! Board-specific concerns — the context-switch trap handler, timer wiring,
//! and the actual interrupt mask instructions — live outside this crate.  The
//! library models the state they act on (addresses, stack bytes, the global
//! interrupt-enable line) as explicit values, so that every decision the
//! kernel core makes is stated in a contract and proved.

pub mod allocator;
pub mod mutex;
pub mod syscalls;
pub mod task;
