//! Task control blocks, the FIFO ready queue, and the round-robin scheduler.
//!
//! A task control block owns a fixed-size stack that grows downward from the
//! buffer's high end.  On the target the saved stack pointer is an address
//! into that buffer; the verified model keeps it as an offset from the
//! buffer's base, so `stp` always lies between [`TaskTCB::stack_start`] and
//! [`TaskTCB::stack_end`] and every byte it reaches is in bounds.
//!
//! The ready queue hands tasks out strictly first-in first-out; the
//! scheduler dequeues the head, makes it the running task, and re-enqueues a
//! previously running task at the tail, so every dispatched task eventually
//! cycles back.

use vstd::prelude::*;

use crate::mutex::{IrqState, Mutex, MutexGuard};

verus! {

/// Size in bytes of the stack owned by every task.
pub const STACK_SIZE: usize = 4096;

/// Highest priority value a task may carry.  The field is stored on the
/// control block but the scheduler does not consult it: scheduling is pure
/// FIFO round-robin, and priorities are reserved data for future use.
pub const MAX_PRIORITY: u8 = 10;

/// One schedulable unit of execution: its saved stack pointer (as an offset
/// into its own stack buffer), its inert priority, and the stack itself.
pub struct TaskTCB {
    /// Saved stack pointer: the offset of the stack's live top.  The stack
    /// grows downward, so pushes decrement it; it never goes below zero.
    pub stp: usize,
    /// Priority of the task; stored, never consulted by the scheduler.
    pub priority: usize,
    /// The task's stack buffer, always exactly [`STACK_SIZE`] bytes.
    pub stack: Vec<u8>,
}

impl TaskTCB {
    /// The control block's invariant: the buffer has its fixed size and the
    /// saved stack pointer stays within it.
    pub open spec fn wf(&self) -> bool {
        &&& self.stack@.len() == STACK_SIZE
        &&& self.stp <= STACK_SIZE
    }

    /// A fresh control block: zero-filled stack, saved stack pointer at the
    /// buffer's high end.
    pub fn new(priority: usize) -> (r: TaskTCB)
        ensures
            r.wf(),
            r.priority == priority,
            r.stp == STACK_SIZE,
            r.stack@ == Seq::new(STACK_SIZE as nat, |k: int| 0u8),
    {
        let mut stack: Vec<u8> = Vec::new();
        let mut n: usize = 0;
        while n < STACK_SIZE
            invariant
                n <= STACK_SIZE,
                stack@.len() == n,
                forall|k: int| 0 <= k < n ==> stack@[k] == 0u8,
            decreases STACK_SIZE - n,
        {
            stack.push(0u8);
            n = n + 1;
        }
        proof {
            assert(stack@ =~= Seq::new(STACK_SIZE as nat, |k: int| 0u8));
        }
        TaskTCB { stp: STACK_SIZE, priority, stack }
    }

    /// Lowest valid stack offset: the base of the buffer.
    pub fn stack_start(&self) -> (r: usize)
        ensures
            r == 0,
    {
        0
    }

    /// One past the highest stack offset: where the saved stack pointer of a
    /// task with an empty stack points.
    pub fn stack_end(&self) -> (r: usize)
        ensures
            r == STACK_SIZE,
    {
        STACK_SIZE
    }

    /// Pushes `src` onto the task's stack: decrements the saved stack pointer
    /// by exactly `src.len()` and copies the bytes to the new top.  Every
    /// other byte of the stack is untouched.  Pushing more than the remaining
    /// capacity would drive the pointer below the buffer's base and is
    /// excluded by precondition; on the target it halts execution.
    pub fn stack_push(&mut self, src: &[u8])
        requires
            old(self).wf(),
            src@.len() <= old(self).stp,
        ensures
            final(self).wf(),
            final(self).priority == old(self).priority,
            final(self).stp == old(self).stp - src@.len(),
            final(self).stack@ == old(self).stack@.subrange(0, final(self).stp as int) + src@
                + old(self).stack@.subrange(old(self).stp as int, STACK_SIZE as int),
    {
        let len = src.len();
        let new_stp = self.stp - len;
        let mut k: usize = 0;
        while k < len
            invariant
                self.wf(),
                self.priority == old(self).priority,
                self.stp == old(self).stp,
                k <= len,
                len == src@.len(),
                len <= self.stp,
                new_stp == self.stp - len,
                forall|j: int| 0 <= j < new_stp ==> self.stack@[j] == old(self).stack@[j],
                forall|j: int| 0 <= j < k ==> self.stack@[new_stp + j] == src@[j],
                forall|j: int|
                    new_stp + k <= j < STACK_SIZE ==> self.stack@[j] == old(self).stack@[j],
            decreases len - k,
        {
            self.stack[new_stp + k] = src[k];
            k = k + 1;
        }
        self.stp = new_stp;
        proof {
            assert(self.stack@ =~= old(self).stack@.subrange(0, new_stp as int) + src@ + old(
                self,
            ).stack@.subrange(old(self).stp as int, STACK_SIZE as int));
        }
    }

    /// Pushes one 32-bit machine word, in the little-endian byte order the
    /// target uses for its registers on the stack.
    pub fn push_word(&mut self, word: u32)
        requires
            old(self).wf(),
            4 <= old(self).stp,
        ensures
            final(self).wf(),
            final(self).priority == old(self).priority,
            final(self).stp == old(self).stp - 4,
            final(self).stack@ == old(self).stack@.subrange(0, final(self).stp as int)
                + vstd::bytes::spec_u32_to_le_bytes(word) + old(self).stack@.subrange(
                old(self).stp as int,
                STACK_SIZE as int,
            ),
    {
        let bytes = vstd::bytes::u32_to_le_bytes(word);
        self.stack_push(bytes.as_slice());
    }
}

/// The FIFO ready queue: tasks enter at the tail by ownership transfer and
/// leave at the head in the order they arrived.
pub struct Queue {
    tasks: Vec<TaskTCB>,
}

impl View for Queue {
    type V = Seq<TaskTCB>;

    closed spec fn view(&self) -> Seq<TaskTCB> {
        self.tasks@
    }
}

impl Queue {
    /// An empty queue.
    pub fn new() -> (r: Queue)
        ensures
            r@.len() == 0,
    {
        Queue { tasks: Vec::new() }
    }

    /// Whether the queue holds no task.
    pub fn empty(&self) -> (r: bool)
        ensures
            r <==> self@.len() == 0,
    {
        self.tasks.len() == 0
    }

    /// The queued tasks in dispatch order, for read-only traversal.
    pub fn iter(&self) -> (r: &Vec<TaskTCB>)
        ensures
            r@ == self@,
    {
        &self.tasks
    }

    /// Appends a task at the tail; ownership transfers into the queue.
    pub fn enqueue(&mut self, block: TaskTCB)
        ensures
            final(self)@ == old(self)@.push(block),
    {
        self.tasks.push(block);
    }

    /// Removes and returns the head — the oldest task — or `None` when the
    /// queue is empty, which leaves it untouched.
    pub fn dequeue(&mut self) -> (r: Option<TaskTCB>)
        ensures
            old(self)@.len() == 0 ==> r is None && final(self)@ == old(self)@,
            old(self)@.len() > 0 ==> r == Some(old(self)@[0]) && final(self)@ == old(self)@.skip(
                1,
            ),
    {
        if self.tasks.len() == 0 {
            None
        } else {
            let t = self.tasks.remove(0);
            proof {
                assert(old(self)@.remove(0) =~= old(self)@.skip(1));
            }
            Some(t)
        }
    }

    /// Number of tasks waiting in the queue.
    pub fn count_tasks(&self) -> (r: usize)
        ensures
            r == self@.len(),
    {
        self.tasks.len()
    }

    /// One round-robin step over the queue alone: the head moves to the
    /// tail, everything else shifts up one place.  An empty queue stays
    /// empty.
    pub fn schedule(&mut self)
        ensures
            old(self)@.len() == 0 ==> final(self)@ == old(self)@,
            old(self)@.len() > 0 ==> final(self)@ == old(self)@.skip(1).push(old(self)@[0]),
    {
        let head = self.dequeue();
        match head {
            Some(task) => self.enqueue(task),
            None => {},
        }
    }
}

/// Round-robin dispatch: when the ready queue is non-empty its head becomes
/// the running task and the previously running task, if any, is re-enqueued
/// at the tail, so every dispatched task eventually cycles back; when the
/// queue is empty the running task simply continues.  Returns whether a task
/// is running afterwards.  The `priority` field is not consulted: scheduling
/// is pure FIFO round-robin.  No allocation, no blocking: callable from trap
/// context.
pub fn schedule(queue: &mut Queue, running: &mut Option<TaskTCB>) -> (r: bool)
    ensures
        old(queue)@.len() > 0 ==> ({
            &&& *final(running) == Some(old(queue)@[0])
            &&& final(queue)@ == match *old(running) {
                Some(prev) => old(queue)@.skip(1).push(prev),
                None => old(queue)@.skip(1),
            }
        }),
        old(queue)@.len() == 0 ==> final(queue)@ == old(queue)@ && *final(running) == *old(
            running,
        ),
        r == ((*final(running)) is Some),
{
    if !queue.empty() {
        let next = queue.dequeue().unwrap();
        let prev = running.take();
        *running = Some(next);
        match prev {
            Some(task) => queue.enqueue(task),
            None => {},
        }
        true
    } else {
        running.is_some()
    }
}

/// The queue contents after enqueuing every task of `ts`, in order, onto `q`.
pub open spec fn enqueue_all(q: Seq<TaskTCB>, ts: Seq<TaskTCB>) -> Seq<TaskTCB>
    decreases ts.len(),
{
    if ts.len() == 0 {
        q
    } else {
        enqueue_all(q.push(ts[0]), ts.skip(1))
    }
}

/// A run of enqueues appends the enqueued tasks, in order, after whatever was
/// queued before.
proof fn lemma_enqueue_all_append(q: Seq<TaskTCB>, ts: Seq<TaskTCB>)
    ensures
        enqueue_all(q, ts) == q + ts,
    decreases ts.len(),
{
    if ts.len() == 0 {
        assert(q + ts =~= q);
    } else {
        lemma_enqueue_all_append(q.push(ts[0]), ts.skip(1));
        assert(q.push(ts[0]) + ts.skip(1) =~= q + ts);
    }
}

/// FIFO law: a run of enqueues appends the tasks in order, so N enqueues on
/// an empty queue followed by N dequeues hand the tasks back in enqueue
/// order — before the k-th dequeue the queue holds the tasks from the k-th
/// on, the k-th dequeue returns exactly the k-th task, and the count drops
/// by one at each step.
pub proof fn lemma_queue_fifo(ts: Seq<TaskTCB>)
    ensures
        forall|q: Seq<TaskTCB>| #[trigger] enqueue_all(q, ts) == q + ts,
        enqueue_all(Seq::<TaskTCB>::empty(), ts) == ts,
        forall|k: int|
            0 <= k < ts.len() ==> (#[trigger] ts.skip(k))[0] == ts[k] && ts.skip(k).skip(1)
                == ts.skip(k + 1) && ts.skip(k).len() == ts.len() - k,
{
    assert forall|q: Seq<TaskTCB>| #[trigger] enqueue_all(q, ts) == q + ts by {
        lemma_enqueue_all_append(q, ts);
    }
    assert(Seq::<TaskTCB>::empty() + ts =~= ts);
    assert forall|k: int| 0 <= k < ts.len() implies (#[trigger] ts.skip(k))[0] == ts[k]
        && ts.skip(k).skip(1) == ts.skip(k + 1) && ts.skip(k).len() == ts.len() - k by {
        assert(ts.skip(k).skip(1) =~= ts.skip(k + 1));
    }
}

/// The ready queue behind an interrupt-masking mutex, as the kernel holds
/// it: both task-level code and the timer interrupt reach the queue, so
/// every access runs inside a critical section, and each call below restores
/// the interrupt line to the state it found.
pub struct LockedQueue {
    mux: Mutex<Queue>,
}

impl View for LockedQueue {
    type V = Seq<TaskTCB>;

    open spec fn view(&self) -> Seq<TaskTCB> {
        self.contents()->0@
    }
}

impl LockedQueue {
    /// The wrapped queue, or `None` while some caller holds it.
    pub closed spec fn contents(&self) -> Option<Queue> {
        self.mux.contents()
    }

    /// No critical section is open on the queue.
    pub open spec fn wf(&self) -> bool {
        self.contents() is Some
    }

    /// A new locked queue around an empty [`Queue`].
    pub fn new() -> (r: LockedQueue)
        ensures
            r.wf(),
            r@.len() == 0,
    {
        LockedQueue { mux: Mutex::new(Queue::new()) }
    }

    /// Appends a task at the tail, under the interrupt mask.
    pub fn enqueue(&mut self, irq: &mut IrqState, block: TaskTCB)
        requires
            old(self).wf(),
        ensures
            final(self).wf(),
            final(self)@ == old(self)@.push(block),
            final(irq).enabled == old(irq).enabled,
    {
        let (mut queue, guard) = self.mux.lock(irq);
        queue.enqueue(block);
        self.mux.unlock(irq, queue, guard);
    }

    /// Removes and returns the head, under the interrupt mask.
    pub fn dequeue(&mut self, irq: &mut IrqState) -> (r: Option<TaskTCB>)
        requires
            old(self).wf(),
        ensures
            final(self).wf(),
            old(self)@.len() == 0 ==> r is None && final(self)@ == old(self)@,
            old(self)@.len() > 0 ==> r == Some(old(self)@[0]) && final(self)@ == old(self)@.skip(
                1,
            ),
            final(irq).enabled == old(irq).enabled,
    {
        let (mut queue, guard) = self.mux.lock(irq);
        let r = queue.dequeue();
        self.mux.unlock(irq, queue, guard);
        r
    }

    /// Whether the queue holds no task, read under the interrupt mask.
    pub fn empty(&mut self, irq: &mut IrqState) -> (r: bool)
        requires
            old(self).wf(),
        ensures
            final(self).wf(),
            final(self)@ == old(self)@,
            r <==> old(self)@.len() == 0,
            final(irq).enabled == old(irq).enabled,
    {
        let (queue, guard) = self.mux.lock(irq);
        let r = queue.empty();
        self.mux.unlock(irq, queue, guard);
        r
    }

    /// Number of waiting tasks, read under the interrupt mask.
    pub fn count_tasks(&mut self, irq: &mut IrqState) -> (r: usize)
        requires
            old(self).wf(),
        ensures
            final(self).wf(),
            final(self)@ == old(self)@,
            r == old(self)@.len(),
            final(irq).enabled == old(irq).enabled,
    {
        let (queue, guard) = self.mux.lock(irq);
        let r = queue.count_tasks();
        self.mux.unlock(irq, queue, guard);
        r
    }
}

} // verus!
