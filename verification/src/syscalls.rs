//! Kernel-side service implementations and the trap-boundary contract.
//!
//! Task creation builds the initial register frame a task needs so that the
//! context-switch trap can resume it as if it had been preempted mid-run.
//! The frame layout is an ABI contract with the trap handler's restore
//! sequence and must match it word for word: fourteen 32-bit words on top of
//! the stack — the argument word where the calling convention expects the
//! first function argument, twelve zero-filled general-purpose registers,
//! and the task's entry address in the slot restored into the link register.
//! [`initial_task_stack`] writes that table down once; the stack builder is
//! proved against it, and the trap-level collaborator must agree with it.

use vstd::prelude::*;

use crate::task::{Queue, TaskTCB, STACK_SIZE};

verus! {

/// Size in bytes of a task's initial register frame: fourteen 32-bit words —
/// the argument register, twelve zeroed general-purpose registers, and the
/// resume address.
pub const TASK_FRAME_BYTES: usize = 56;

/// Services an application can request from the kernel.  The trap dispatcher
/// matches on the numeric identifier encoded next to the supervisor-call
/// instruction; [`SysCallID::id`] fixes that number.
#[derive(Clone, Copy, PartialEq, Eq, Structural, Debug)]
#[allow(non_camel_case_types)]
pub enum SysCallID {
    CREATE_TASK_ID,
}

impl SysCallID {
    /// The numeric identifier of the service, as the trap dispatcher sees it.
    pub fn id(&self) -> (r: u8)
        ensures
            *self == SysCallID::CREATE_TASK_ID ==> r == 1,
    {
        match *self {
            SysCallID::CREATE_TASK_ID => 1,
        }
    }
}

/// The stack of a freshly created task, byte for byte, lowest offset first:
/// zeros up to the saved stack pointer, then the argument word (restored into
/// the first-argument register), twelve zeroed register words, and the entry
/// address (restored into the link register) at the stack's high end.  Words
/// are little-endian, as the target stores registers.
pub open spec fn initial_task_stack(code: u32, args: u32) -> Seq<u8> {
    Seq::new((STACK_SIZE - TASK_FRAME_BYTES) as nat, |k: int| 0u8)
        + vstd::bytes::spec_u32_to_le_bytes(args) + Seq::new(48nat, |k: int| 0u8)
        + vstd::bytes::spec_u32_to_le_bytes(code)
}

/// A control block exactly as task creation leaves it: well formed, carrying
/// the requested priority, its saved stack pointer one frame below the
/// stack's high end, and the initial register frame on top of the stack.
pub open spec fn is_initial_task(t: TaskTCB, code: u32, args: u32, priority: usize) -> bool {
    &&& t.wf()
    &&& t.priority == priority
    &&& t.stp == STACK_SIZE - TASK_FRAME_BYTES
    &&& t.stack@ == initial_task_stack(code, args)
}

/// `n` zero bytes.
fn zero_bytes(n: usize) -> (r: Vec<u8>)
    ensures
        r@ == Seq::new(n as nat, |k: int| 0u8),
{
    let mut bytes: Vec<u8> = Vec::new();
    let mut k: usize = 0;
    while k < n
        invariant
            k <= n,
            bytes@.len() == k,
            forall|j: int| 0 <= j < k ==> bytes@[j] == 0u8,
        decreases n - k,
    {
        bytes.push(0u8);
        k = k + 1;
    }
    proof {
        assert(bytes@ =~= Seq::new(n as nat, |k: int| 0u8));
    }
    bytes
}

/// Creates a task and appends it to the ready queue: builds the control
/// block, pushes the entry address (resume slot), twelve zeroed registers,
/// and the argument word onto its empty stack — in the reverse of the order
/// the trap handler pops them — and enqueues the block at the tail.
///
/// `code` is the address of the first instruction the task will execute and
/// `args` the opaque argument word handed to it in the first-argument
/// register.  The `priority` is stored on the block and not consulted by the
/// scheduler.
pub fn kcreate_task(queue: &mut Queue, code: u32, args: u32, priority: usize)
    ensures
        final(queue)@.len() == old(queue)@.len() + 1,
        final(queue)@ == old(queue)@.push(final(queue)@.last()),
        is_initial_task(final(queue)@.last(), code, args, priority),
{
    let mut tcb = TaskTCB::new(priority);
    // the resume address goes in first: it sits at the stack's high end and
    // is the last word the trap handler pops, into the link register
    tcb.push_word(code);
    // registers r1 through r12 are zero-filled: twelve 4-byte words
    let zeros = zero_bytes(48);
    tcb.stack_push(zeros.as_slice());
    // the argument word ends on top, where the trap handler pops the
    // first-argument register from
    tcb.push_word(args);
    proof {
        vstd::bytes::lemma_auto_spec_u32_to_from_le_bytes();
        assert(tcb.stack@ =~= initial_task_stack(code, args));
    }
    queue.enqueue(tcb);
}

} // verus!
