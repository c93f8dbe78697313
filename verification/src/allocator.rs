//! First-fit segment-list allocator over a flat address range.
//!
//! On the target, free blocks carry their metadata in place: each starts with
//! a header holding the block's size and a link to the next free block, so the
//! free list lives inside the managed memory itself.  The verified model keeps
//! the same list as an address-ordered sequence of `(start, size)` pairs over
//! the managed range; `start` values are addresses in the region handed to
//! [`Heap::init`], and the header constant bounds the smallest block the
//! allocator will track, exactly as the in-place layout forces it to.

use vstd::prelude::*;

use crate::mutex::{IrqState, Mutex, MutexGuard};

verus! {

/// Size in bytes of the in-place header at the start of each free block: one
/// machine word for the block size and one for the link to the next free
/// segment, on a 32-bit core.
pub const HEAP_SEG_HEADER_SIZE: usize = 8;

/// One free block of memory: `start` is its address within the managed region
/// and `size` the whole extent of the block in bytes.
#[derive(Clone, Copy, PartialEq, Eq, Structural, Debug)]
pub struct HeapSegment {
    pub start: usize,
    pub size: usize,
}

/// Address one past the last byte of a segment.
pub open spec fn seg_end(s: HeapSegment) -> int {
    s.start + s.size
}

impl HeapSegment {
    /// A segment of `size` bytes with its header at `start_address`.
    pub fn new(start_address: usize, size: usize) -> (r: HeapSegment)
        ensures
            r == (HeapSegment { start: start_address, size }),
    {
        HeapSegment { start: start_address, size }
    }

    /// The address of the block's first byte, where its header lives.
    pub fn start_address(&self) -> (r: usize)
        ensures
            r == self.start,
    {
        self.start
    }

    /// The address one past the block's last byte.
    pub fn end_address(&self) -> (r: usize)
        requires
            seg_end(*self) <= usize::MAX,
        ensures
            r == seg_end(*self),
    {
        self.start + self.size
    }
}

/// The free list is well formed: every block is larger than the header it
/// carries, ends within the address space, and the blocks are disjoint and
/// sorted by ascending start address.
pub open spec fn segs_wf(segs: Seq<HeapSegment>) -> bool {
    &&& forall|i: int| 0 <= i < segs.len() ==> (#[trigger] segs[i]).size > HEAP_SEG_HEADER_SIZE
    &&& forall|i: int| 0 <= i < segs.len() ==> seg_end(#[trigger] segs[i]) <= usize::MAX
    &&& forall|i: int| 0 <= i < segs.len() - 1 ==> seg_end(#[trigger] segs[i]) <= segs[i + 1].start
}

/// No two consecutive free blocks touch: a compaction pass would change
/// nothing on such a list.
pub open spec fn coalesced(segs: Seq<HeapSegment>) -> bool {
    forall|i: int| 0 <= i < segs.len() - 1 ==> seg_end(#[trigger] segs[i]) != segs[i + 1].start
}

/// Total number of free bytes on the list.
pub open spec fn total_free(segs: Seq<HeapSegment>) -> int
    decreases segs.len(),
{
    if segs.len() == 0 {
        0
    } else {
        segs[0].size + total_free(segs.skip(1))
    }
}

/// The list after inserting `seg` at its address-sorted position.
pub open spec fn insert_free(segs: Seq<HeapSegment>, seg: HeapSegment) -> Seq<HeapSegment>
    decreases segs.len(),
{
    if segs.len() == 0 {
        seq![seg]
    } else if seg.start < segs[0].start {
        seq![seg] + segs
    } else {
        seq![segs[0]] + insert_free(segs.skip(1), seg)
    }
}

/// Two touching blocks merged into one, the second block's header overhead
/// absorbed into the combined extent.
pub open spec fn merge_segs(a: HeapSegment, b: HeapSegment) -> HeapSegment {
    HeapSegment { start: a.start, size: (a.size + b.size) as usize }
}

/// The list after one full coalescing pass: whenever a block ends exactly
/// where its successor starts the two are merged, without advancing past the
/// merged block, so runs of three or more touching blocks collapse in one
/// pass.
pub open spec fn compact(segs: Seq<HeapSegment>) -> Seq<HeapSegment>
    decreases segs.len(),
{
    if segs.len() <= 1 {
        segs
    } else if seg_end(segs[0]) == segs[1].start {
        compact(seq![merge_segs(segs[0], segs[1])] + segs.skip(2))
    } else {
        seq![segs[0]] + compact(segs.skip(1))
    }
}

/// Index of the first block large enough for a request of `size` bytes, or
/// `-1` when no block qualifies.
pub open spec fn first_fit(segs: Seq<HeapSegment>, size: usize) -> int
    decreases segs.len(),
{
    if segs.len() == 0 {
        -1
    } else if segs[0].size >= size {
        0
    } else if first_fit(segs.skip(1), size) == -1 {
        -1
    } else {
        first_fit(segs.skip(1), size) + 1
    }
}

/// The free list after allocating `size` bytes from the block at index `i`:
/// the block is trimmed when the tail left over could still carry a header,
/// and removed whole otherwise; an allocation taken from mid-list is followed
/// by a compaction pass.
pub open spec fn alloc_at(segs: Seq<HeapSegment>, i: int, size: usize) -> Seq<HeapSegment>
    recommends
        0 <= i < segs.len(),
        segs[i].size >= size,
{
    let trimmed = if segs[i].size - size > HEAP_SEG_HEADER_SIZE {
        segs.update(
            i,
            HeapSegment {
                start: (segs[i].start + size) as usize,
                size: (segs[i].size - size) as usize,
            },
        )
    } else {
        segs.remove(i)
    };
    if i == 0 {
        trimmed
    } else {
        compact(trimmed)
    }
}

/// The heap: owner of the free list, kept sorted by ascending start address.
pub struct Heap {
    segments: Vec<HeapSegment>,
}

impl View for Heap {
    type V = Seq<HeapSegment>;

    closed spec fn view(&self) -> Seq<HeapSegment> {
        self.segments@
    }
}

impl Heap {
    /// The heap's invariant: its free list is well formed.
    pub open spec fn wf(&self) -> bool {
        segs_wf(self@)
    }

    /// An empty heap, tracking no memory yet.
    pub fn new() -> (r: Heap)
        ensures
            r.wf(),
            r@.len() == 0,
    {
        Heap { segments: Vec::new() }
    }

    /// Establishes the whole region `[start_address, start_address + size)` as
    /// one free segment.  To be called once, before any allocation.
    pub fn init(&mut self, start_address: usize, size: usize)
        requires
            old(self).wf(),
            old(self)@.len() == 0,
            size > HEAP_SEG_HEADER_SIZE,
            start_address + size <= usize::MAX,
        ensures
            final(self).wf(),
            final(self)@ == seq![HeapSegment { start: start_address, size }],
            total_free(final(self)@) == size,
    {
        self.add_free_segment(start_address, size);
        proof {
            assert(self@ =~= seq![HeapSegment { start: start_address, size }]);
            reveal_with_fuel(total_free, 2);
            assert(self@.skip(1) =~= Seq::<HeapSegment>::empty());
        }
    }

    /// The free segments in address order, for read-only traversal.
    pub fn iter(&self) -> (r: &Vec<HeapSegment>)
        ensures
            r@ == self@,
    {
        &self.segments
    }

    /// Inserts the block `[address, address + size)` into the free list at its
    /// address-sorted position.  The block must be larger than its header and
    /// must not overlap memory the heap already tracks as free.
    pub fn add_free_segment(&mut self, address: usize, size: usize)
        requires
            old(self).wf(),
            size > HEAP_SEG_HEADER_SIZE,
            address + size <= usize::MAX,
            forall|i: int|
                0 <= i < old(self)@.len() ==> seg_end(#[trigger] old(self)@[i]) <= address
                    || address + size <= old(self)@[i].start,
        ensures
            final(self).wf(),
            final(self)@ == insert_free(old(self)@, HeapSegment { start: address, size }),
            final(self)@.len() == old(self)@.len() + 1,
            total_free(final(self)@) == total_free(old(self)@) + size,
    {
        let seg = HeapSegment { start: address, size };
        let ghost segs0 = self@;
        let mut j: usize = 0;
        while j < self.segments.len() && self.segments[j].start < address
            invariant
                self@ == segs0,
                j <= segs0.len(),
                forall|k: int| 0 <= k < j ==> (#[trigger] segs0[k]).start < address,
            decreases segs0.len() - j,
        {
            j = j + 1;
        }
        proof {
            if j < segs0.len() {
                // equal start addresses would contradict disjointness
                assert(segs0[j as int].start != address);
            }
            lemma_insert_free_at(segs0, seg, j as int);
        }
        self.segments.insert(j, seg);
        proof {
            lemma_insert_sorted_wf(segs0, seg, j as int);
            lemma_total_free_insert(segs0, seg, j as int);
        }
    }

    /// Allocates a block of `size` bytes and returns its start address, or
    /// `None` when the request is not larger than the segment header (too
    /// small to manage safely) or no free block is large enough.
    ///
    /// Scans the address-ordered list for the first block of at least `size`
    /// bytes (first fit).  The chosen block is trimmed when the tail left
    /// over could still carry a header — the tail stays on the list in the
    /// block's place — and is handed out whole otherwise.  An allocation
    /// taken from mid-list is followed by a coalescing pass, a cheap safety
    /// net that is redundant while the invariants hold.  A successful
    /// allocation removes exactly the requested bytes from the free total
    /// when its block is split or fits exactly, and never more than the
    /// request plus one header's worth.
    pub fn allocate_segment(&mut self, size: usize) -> (r: Option<usize>)
        requires
            old(self).wf(),
        ensures
            final(self).wf(),
            r is None <==> (size <= HEAP_SEG_HEADER_SIZE || first_fit(old(self)@, size) == -1),
            r is None ==> final(self)@ == old(self)@,
            r is Some ==> ({
                let i = first_fit(old(self)@, size);
                &&& 0 <= i < old(self)@.len()
                &&& old(self)@[i].size >= size
                &&& forall|j: int| 0 <= j < i ==> (#[trigger] old(self)@[j]).size < size
                &&& r == Some(old(self)@[i].start)
                &&& final(self)@ == alloc_at(old(self)@, i, size)
            }),
            r is Some ==> total_free(old(self)@) - size - HEAP_SEG_HEADER_SIZE <= total_free(
                final(self)@,
            ) <= total_free(old(self)@) - size,
            r is Some && ({
                let i = first_fit(old(self)@, size);
                old(self)@[i].size == size || old(self)@[i].size - size > HEAP_SEG_HEADER_SIZE
            }) ==> total_free(final(self)@) == total_free(old(self)@) - size,
    {
        if size <= HEAP_SEG_HEADER_SIZE {
            return None;
        }
        let ghost segs0 = self@;
        let n = self.segments.len();
        let mut i: usize = 0;
        while i < n && self.segments[i].size < size
            invariant
                self@ == segs0,
                n == segs0.len(),
                i <= n,
                forall|j: int| 0 <= j < i ==> (#[trigger] segs0[j]).size < size,
            decreases n - i,
        {
            i = i + 1;
        }
        proof {
            lemma_first_fit_props(segs0, size);
        }
        if i == n {
            proof {
                assert(first_fit(segs0, size) == -1) by {
                    if first_fit(segs0, size) != -1 {
                        assert(segs0[first_fit(segs0, size)].size < size);
                    }
                }
            }
            return None;
        }
        proof {
            assert(first_fit(segs0, size) == i) by {
                let f = first_fit(segs0, size);
                if f == -1 {
                    assert(segs0[i as int].size < size);
                } else if f < i {
                    assert(segs0[f].size < size);
                } else if f > i {
                    assert(segs0[i as int].size < size);
                }
            }
        }
        let seg = self.segments[i];
        proof {
            assert(seg_end(segs0[i as int]) <= usize::MAX);
        }
        if seg.size - size > HEAP_SEG_HEADER_SIZE {
            let tail = HeapSegment { start: seg.start + size, size: seg.size - size };
            self.segments[i] = tail;
            proof {
                lemma_alloc_update_wf(segs0, i as int, size);
                lemma_total_free_update(segs0, i as int, tail);
            }
        } else {
            self.segments.remove(i);
            proof {
                lemma_remove_wf(segs0, i as int);
                lemma_total_free_remove(segs0, i as int);
            }
        }
        if i != 0 {
            self.compaction();
        }
        Some(seg.start)
    }

    /// Returns the block `[start_address, start_address + size)` to the free
    /// list at its address-sorted position and merges it with any touching
    /// neighbours.  The block must be larger than its header — freeing less
    /// would corrupt the in-place metadata — and must not overlap memory the
    /// heap already tracks as free.  Freeing adds exactly `size` bytes back
    /// to the free total.
    pub fn free_segment(&mut self, start_address: usize, size: usize)
        requires
            old(self).wf(),
            size > HEAP_SEG_HEADER_SIZE,
            start_address + size <= usize::MAX,
            forall|i: int|
                0 <= i < old(self)@.len() ==> seg_end(#[trigger] old(self)@[i]) <= start_address
                    || start_address + size <= old(self)@[i].start,
        ensures
            final(self).wf(),
            final(self)@ == compact(
                insert_free(old(self)@, HeapSegment { start: start_address, size }),
            ),
            coalesced(final(self)@),
            total_free(final(self)@) == total_free(old(self)@) + size,
    {
        self.add_free_segment(start_address, size);
        self.compaction();
    }

    /// Total number of free bytes currently on the list.
    pub fn available_space(&self) -> (r: usize)
        requires
            self.wf(),
        ensures
            r == total_free(self@),
    {
        proof {
            lemma_total_free_bound(self@);
        }
        let mut total: usize = 0;
        let mut i: usize = 0;
        while i < self.segments.len()
            invariant
                self.wf(),
                i <= self@.len(),
                total == total_free(self@.take(i as int)),
                total_free(self@) <= usize::MAX,
            decreases self@.len() - i,
        {
            proof {
                lemma_total_free_take_step(self@, i as int);
                lemma_total_free_split(self@, i as int + 1);
                lemma_total_free_nonneg(self@.skip(i as int + 1));
            }
            total = total + self.segments[i].size;
            i = i + 1;
        }
        proof {
            assert(self@.take(self@.len() as int) =~= self@);
        }
        total
    }

    /// Number of free segments on the list.
    pub fn count_segments(&self) -> (r: usize)
        ensures
            r == self@.len(),
    {
        self.segments.len()
    }

    /// Walks the sorted free list and merges every block that ends exactly
    /// where its successor starts; the cursor stays on a merged block, so runs
    /// of three or more touching blocks collapse in a single pass.  The number
    /// of free bytes is unchanged; afterwards no two free blocks touch.
    #[verifier::rlimit(40)]
    pub fn compaction(&mut self)
        requires
            old(self).wf(),
        ensures
            final(self).wf(),
            final(self)@ == compact(old(self)@),
            coalesced(final(self)@),
            total_free(final(self)@) == total_free(old(self)@),
            final(self)@.len() <= old(self)@.len(),
    {
        let ghost orig = self@;
        proof {
            lemma_compact_props(orig);
            assert(orig.take(0) =~= Seq::<HeapSegment>::empty());
            assert(orig.skip(0) =~= orig);
            assert(Seq::<HeapSegment>::empty() + compact(orig) =~= compact(orig));
        }
        let mut i: usize = 0;
        while self.segments.len() > 0 && i < self.segments.len() - 1
            invariant
                segs_wf(self@),
                i <= self@.len(),
                self@.take(i as int) + compact(self@.skip(i as int)) == compact(orig),
            decreases self@.len() - i,
        {
            let cur = self.segments[i];
            let nxt = self.segments[i + 1];
            let ghost v = self@;
            proof {
                assert(seg_end(v[i as int]) <= usize::MAX);
                assert(seg_end(v[i as int + 1]) <= usize::MAX);
                assert(seg_end(v[i as int]) <= v[i as int + 1].start);
            }
            if cur.start + cur.size == nxt.start {
                let merged = HeapSegment { start: cur.start, size: cur.size + nxt.size };
                self.segments[i] = merged;
                self.segments.remove(i + 1);
                proof {
                    lemma_compact_exec_merge(v, i as int);
                }
            } else {
                proof {
                    lemma_compact_exec_advance(v, i as int);
                }
                i = i + 1;
            }
        }
        proof {
            let v = self@;
            assert(v.skip(i as int).len() <= 1);
            assert(compact(v.skip(i as int)) == v.skip(i as int));
            assert(v.take(i as int) + v.skip(i as int) =~= v);
        }
    }
}

/// The heap behind an interrupt-masking mutex, as the kernel holds it: both
/// task-level code and the timer interrupt that drives context switches reach
/// the allocator, so every access runs inside a critical section.
pub struct LockedHeap {
    heap: Mutex<Heap>,
}

impl LockedHeap {
    /// The wrapped heap, or `None` while some caller holds it.
    pub closed spec fn contents(&self) -> Option<Heap> {
        self.heap.contents()
    }

    /// No critical section is open and the heap inside is well formed.
    pub open spec fn wf(&self) -> bool {
        &&& self.contents() is Some
        &&& self.contents()->0.wf()
    }

    /// A new locked heap around an empty [`Heap`].
    pub fn new() -> (r: LockedHeap)
        ensures
            r.wf(),
            r.contents()->0@.len() == 0,
    {
        LockedHeap { heap: Mutex::new(Heap::new()) }
    }

    /// Opens a critical section on the heap: masks the interrupt line and
    /// hands the heap out together with the guard that [`LockedHeap::unlock`]
    /// needs to restore the line.
    pub fn lock(&mut self, irq: &mut IrqState) -> (r: (Heap, MutexGuard))
        requires
            old(self).contents() is Some,
        ensures
            Some(r.0) == old(self).contents(),
            r.1.prior_enabled == old(irq).enabled,
            !final(irq).enabled,
            final(self).contents() is None,
    {
        self.heap.lock(irq)
    }

    /// Closes the critical section: puts the heap back and restores the
    /// interrupt line to the state saved in the guard.
    pub fn unlock(&mut self, irq: &mut IrqState, heap: Heap, guard: MutexGuard)
        ensures
            final(self).contents() == Some(heap),
            final(irq).enabled == guard.prior_enabled,
    {
        self.heap.unlock(irq, heap, guard)
    }

    /// The standard allocate entry point of the kernel's memory provider:
    /// first-fit allocation under the interrupt mask, `None` instead of an
    /// address when the request cannot be served.  The interrupt line leaves
    /// as it came.
    pub fn allocate_segment(&mut self, irq: &mut IrqState, size: usize) -> (r: Option<usize>)
        requires
            old(self).wf(),
        ensures
            final(self).wf(),
            ({
                let segs = old(self).contents()->0@;
                &&& (r is None <==> (size <= HEAP_SEG_HEADER_SIZE || first_fit(segs, size) == -1))
                &&& (r is None ==> final(self).contents()->0@ == segs)
                &&& (r is Some ==> ({
                    let i = first_fit(segs, size);
                    &&& 0 <= i < segs.len()
                    &&& r == Some(segs[i].start)
                    &&& final(self).contents()->0@ == alloc_at(segs, i, size)
                }))
            }),
            final(irq).enabled == old(irq).enabled,
    {
        let (mut heap, guard) = self.heap.lock(irq);
        let r = heap.allocate_segment(size);
        self.heap.unlock(irq, heap, guard);
        r
    }

    /// The matching free entry point: returns the block to the free list and
    /// coalesces, under the interrupt mask.  The block must be larger than
    /// its header and disjoint from everything already free.
    pub fn free_segment(&mut self, irq: &mut IrqState, start_address: usize, size: usize)
        requires
            old(self).wf(),
            size > HEAP_SEG_HEADER_SIZE,
            start_address + size <= usize::MAX,
            forall|i: int|
                0 <= i < old(self).contents()->0@.len() ==> seg_end(
                    #[trigger] old(self).contents()->0@[i],
                ) <= start_address || start_address + size <= old(self).contents()->0@[i].start,
        ensures
            final(self).wf(),
            final(self).contents()->0@ == compact(
                insert_free(
                    old(self).contents()->0@,
                    HeapSegment { start: start_address, size },
                ),
            ),
            total_free(final(self).contents()->0@) == total_free(old(self).contents()->0@)
                + size,
            final(irq).enabled == old(irq).enabled,
    {
        let (mut heap, guard) = self.heap.lock(irq);
        heap.free_segment(start_address, size);
        self.heap.unlock(irq, heap, guard);
    }

    /// Establishes the managed region under the mask: locks the heap, makes
    /// `[start_address, start_address + size)` its one free segment, and
    /// restores the interrupt line.
    pub fn init(&mut self, irq: &mut IrqState, start_address: usize, size: usize)
        requires
            old(self).wf(),
            old(self).contents()->0@.len() == 0,
            size > HEAP_SEG_HEADER_SIZE,
            start_address + size <= usize::MAX,
        ensures
            final(self).wf(),
            final(self).contents()->0@ == seq![HeapSegment { start: start_address, size }],
            total_free(final(self).contents()->0@) == size,
            final(irq).enabled == old(irq).enabled,
    {
        let (mut heap, guard) = self.heap.lock(irq);
        heap.init(start_address, size);
        self.heap.unlock(irq, heap, guard);
    }
}

/// What the first-fit index means: `-1` exactly when no block is large
/// enough, and otherwise the position of the first block that is, with every
/// earlier block too small.
pub proof fn lemma_first_fit_props(segs: Seq<HeapSegment>, size: usize)
    ensures
        first_fit(segs, size) == -1 ==> forall|j: int|
            0 <= j < segs.len() ==> (#[trigger] segs[j]).size < size,
        first_fit(segs, size) != -1 ==> ({
            let i = first_fit(segs, size);
            &&& 0 <= i < segs.len()
            &&& segs[i].size >= size
            &&& forall|j: int| 0 <= j < i ==> (#[trigger] segs[j]).size < size
        }),
    decreases segs.len(),
{
    if segs.len() == 0 {
    } else if segs[0].size >= size {
    } else {
        let rest = segs.skip(1);
        lemma_first_fit_props(rest, size);
        if first_fit(rest, size) == -1 {
            assert forall|j: int| 0 <= j < segs.len() implies (#[trigger] segs[j]).size < size by {
                if j > 0 {
                    assert(rest[j - 1] == segs[j]);
                }
            }
        } else {
            let f = first_fit(rest, size);
            assert(segs[f + 1] == rest[f]);
            assert forall|j: int| 0 <= j < f + 1 implies (#[trigger] segs[j]).size < size by {
                if j > 0 {
                    assert(rest[j - 1] == segs[j]);
                }
            }
        }
    }
}

/// Trimming the allocated head off a block keeps the list well formed: the
/// tail occupies the back of the same extent.
proof fn lemma_alloc_update_wf(segs: Seq<HeapSegment>, i: int, size: usize)
    requires
        segs_wf(segs),
        0 <= i < segs.len(),
        size <= segs[i].size,
        segs[i].size - size > HEAP_SEG_HEADER_SIZE,
    ensures
        segs_wf(
            segs.update(
                i,
                HeapSegment {
                    start: (segs[i].start + size) as usize,
                    size: (segs[i].size - size) as usize,
                },
            ),
        ),
{
    assert(seg_end(segs[i]) <= usize::MAX);
    let tail = HeapSegment {
        start: (segs[i].start + size) as usize,
        size: (segs[i].size - size) as usize,
    };
    let w = segs.update(i, tail);
    assert(seg_end(tail) == seg_end(segs[i]));
    assert forall|k: int| 0 <= k < w.len() implies (#[trigger] w[k]).size > HEAP_SEG_HEADER_SIZE
        && seg_end(w[k]) <= usize::MAX by {
        if k != i {
            assert(w[k] == segs[k]);
        }
    }
    assert forall|k: int| 0 <= k < w.len() - 1 implies seg_end(#[trigger] w[k]) <= w[k
        + 1].start by {
        assert(w[k] == if k == i { tail } else { segs[k] });
        assert(w[k + 1] == if k + 1 == i { tail } else { segs[k + 1] });
        assert(seg_end(segs[k]) <= segs[k + 1].start);
    }
}

/// Detaching one block keeps the list well formed.
proof fn lemma_remove_wf(segs: Seq<HeapSegment>, i: int)
    requires
        segs_wf(segs),
        0 <= i < segs.len(),
    ensures
        segs_wf(segs.remove(i)),
{
    let w = segs.remove(i);
    assert forall|k: int| 0 <= k < w.len() implies (#[trigger] w[k]).size > HEAP_SEG_HEADER_SIZE
        && seg_end(w[k]) <= usize::MAX by {
        assert(w[k] == if k < i { segs[k] } else { segs[k + 1] });
    }
    assert forall|k: int| 0 <= k < w.len() - 1 implies seg_end(#[trigger] w[k]) <= w[k
        + 1].start by {
        if k + 1 < i {
            assert(w[k] == segs[k] && w[k + 1] == segs[k + 1]);
        } else if k + 1 == i {
            // the removed block bridges the gap: its start lies between
            assert(w[k] == segs[k] && w[k + 1] == segs[k + 1 + 1]);
            assert(seg_end(segs[k]) <= segs[i].start);
            assert(segs[i].start <= seg_end(segs[i]));
            assert(seg_end(segs[i]) <= segs[i + 1].start);
        } else {
            assert(w[k] == segs[k + 1] && w[k + 1] == segs[k + 2]);
        }
    }
}

/// Replacing one block changes the total by the difference in size.
proof fn lemma_total_free_update(segs: Seq<HeapSegment>, i: int, x: HeapSegment)
    requires
        0 <= i < segs.len(),
    ensures
        total_free(segs.update(i, x)) == total_free(segs) - segs[i].size + x.size,
    decreases i,
{
    if i == 0 {
        assert(segs.update(0, x).skip(1) =~= segs.skip(1));
    } else {
        lemma_total_free_update(segs.skip(1), i - 1, x);
        assert(segs.update(i, x).skip(1) =~= segs.skip(1).update(i - 1, x));
        assert(segs.update(i, x)[0] == segs[0]);
    }
}

/// Detaching one block removes exactly its size from the total.
proof fn lemma_total_free_remove(segs: Seq<HeapSegment>, i: int)
    requires
        0 <= i < segs.len(),
    ensures
        total_free(segs.remove(i)) == total_free(segs) - segs[i].size,
    decreases i,
{
    if i == 0 {
        assert(segs.remove(0) =~= segs.skip(1));
    } else {
        lemma_total_free_remove(segs.skip(1), i - 1);
        assert(segs.remove(i).skip(1) =~= segs.skip(1).remove(i - 1));
        assert(segs.remove(i)[0] == segs[0]);
    }
}

/// On a well-formed list the blocks are ordered globally, not just pairwise:
/// any earlier block ends at or before any later block starts.
pub proof fn lemma_segs_ordered(segs: Seq<HeapSegment>)
    requires
        segs_wf(segs),
    ensures
        forall|k: int, l: int|
            0 <= k < l < segs.len() ==> seg_end(#[trigger] segs[k]) <= (#[trigger] segs[l]).start,
    decreases segs.len(),
{
    if segs.len() > 1 {
        let rest = segs.skip(1);
        lemma_segs_wf_skip(segs, 1);
        lemma_segs_ordered(rest);
        assert forall|k: int, l: int|
            0 <= k < l < segs.len() implies seg_end(#[trigger] segs[k]) <= (
        #[trigger] segs[l]).start by {
            if k == 0 {
                assert(seg_end(segs[0]) <= segs[1].start);
                if l > 1 {
                    assert(rest[0] == segs[1] && rest[l - 1] == segs[l]);
                    assert(seg_end(rest[0]) <= rest[l - 1].start);
                    assert(segs[1].start <= seg_end(segs[1]));
                }
            } else {
                assert(rest[k - 1] == segs[k] && rest[l - 1] == segs[l]);
                assert(seg_end(rest[k - 1]) <= rest[l - 1].start);
            }
        }
    }
}

/// One in-place merge of two touching blocks leaves the list well formed and
/// commutes with the specification-level pass on the unvisited suffix.
proof fn lemma_compact_exec_merge(v: Seq<HeapSegment>, i: int)
    requires
        segs_wf(v),
        0 <= i,
        i + 1 < v.len(),
        seg_end(v[i]) == v[i + 1].start,
    ensures
        ({
            let w = v.update(i, merge_segs(v[i], v[i + 1])).remove(i + 1);
            &&& segs_wf(w)
            &&& w.len() == v.len() - 1
            &&& w.take(i) == v.take(i)
            &&& compact(w.skip(i)) == compact(v.skip(i))
        }),
{
    let merged = merge_segs(v[i], v[i + 1]);
    let w = v.update(i, merged).remove(i + 1);
    assert(seg_end(v[i + 1]) <= usize::MAX);
    assert(w.take(i) =~= v.take(i));
    assert(w.skip(i) =~= seq![merged] + v.skip(i + 2));
    assert(v.skip(i).skip(2) =~= v.skip(i + 2));
    assert(v.skip(i)[0] == v[i] && v.skip(i)[1] == v[i + 1]);
    assert(compact(v.skip(i)) == compact(w.skip(i)));
    assert forall|k: int| 0 <= k < w.len() implies (#[trigger] w[k]).size > HEAP_SEG_HEADER_SIZE
        && seg_end(w[k]) <= usize::MAX by {
        if k < i {
            assert(w[k] == v[k]);
        } else if k == i {
            assert(w[k] == merged);
        } else {
            assert(w[k] == v[k + 1]);
        }
    }
    assert forall|k: int| 0 <= k < w.len() - 1 implies seg_end(#[trigger] w[k]) <= w[k
        + 1].start by {
        if k + 1 < i {
            assert(w[k] == v[k] && w[k + 1] == v[k + 1]);
        } else if k + 1 == i {
            assert(w[k] == v[k] && w[k + 1] == merged);
        } else if k == i {
            assert(w[k] == merged && w[k + 1] == v[k + 2]);
            assert(seg_end(v[k + 1]) <= v[k + 2].start);
        } else {
            assert(w[k] == v[k + 1] && w[k + 1] == v[k + 2]);
        }
    }
}

/// Stepping the cursor past a settled block keeps the pass's running
/// decomposition intact.
proof fn lemma_compact_exec_advance(v: Seq<HeapSegment>, i: int)
    requires
        0 <= i,
        i + 1 < v.len(),
        seg_end(v[i]) != v[i + 1].start,
    ensures
        v.take(i + 1) + compact(v.skip(i + 1)) == v.take(i) + compact(v.skip(i)),
{
    assert(v.skip(i)[0] == v[i] && v.skip(i)[1] == v[i + 1]);
    assert(compact(v.skip(i)) == seq![v[i]] + compact(v.skip(i + 1))) by {
        assert(v.skip(i).skip(1) =~= v.skip(i + 1));
    }
    assert(v.take(i + 1) =~= v.take(i) + seq![v[i]]);
    assert(v.take(i + 1) + compact(v.skip(i + 1)) =~= v.take(i) + compact(v.skip(i)));
}

/// Everything [`compact`] guarantees on a well-formed list: the result is
/// well formed, holds the same number of free bytes, has no two touching
/// blocks left, is no longer than the input, and keeps the first block's
/// start address.
#[verifier::rlimit(100)]
#[verifier::spinoff_prover]
pub proof fn lemma_compact_props(segs: Seq<HeapSegment>)
    requires
        segs_wf(segs),
    ensures
        segs_wf(compact(segs)),
        total_free(compact(segs)) == total_free(segs),
        coalesced(compact(segs)),
        compact(segs).len() <= segs.len(),
        segs.len() > 0 ==> 1 <= compact(segs).len() && compact(segs)[0].start == segs[0].start,
        segs.len() == 0 ==> compact(segs).len() == 0,
    decreases segs.len(),
{
    if segs.len() <= 1 {
    } else if seg_end(segs[0]) == segs[1].start {
        let m = merge_segs(segs[0], segs[1]);
        let s2 = seq![m] + segs.skip(2);
        assert(seg_end(segs[1]) <= usize::MAX);
        assert(segs[0].size + segs[1].size <= usize::MAX);
        assert(seg_end(m) == seg_end(segs[1]));
        assert forall|k: int| 0 <= k < s2.len() implies (#[trigger] s2[k]).size
            > HEAP_SEG_HEADER_SIZE && seg_end(s2[k]) <= usize::MAX by {
            if k > 0 {
                assert(s2[k] == segs[k + 1]);
            }
        }
        assert forall|k: int| 0 <= k < s2.len() - 1 implies seg_end(#[trigger] s2[k]) <= s2[k
            + 1].start by {
            if k == 0 {
                assert(s2[1] == segs[2]);
                assert(seg_end(segs[1]) <= segs[2].start);
            } else {
                assert(s2[k] == segs[k + 1] && s2[k + 1] == segs[k + 2]);
            }
        }
        lemma_compact_props(s2);
        assert(compact(segs) == compact(s2));
        assert(s2.skip(1) =~= segs.skip(2));
        assert(segs.skip(1).skip(1) =~= segs.skip(2));
        assert(segs.skip(1)[0] == segs[1]);
        assert(total_free(s2) == m.size + total_free(segs.skip(2)));
        assert(total_free(segs.skip(1)) == segs[1].size + total_free(segs.skip(2)));
        assert(total_free(segs) == segs[0].size + total_free(segs.skip(1)));
        assert(total_free(s2) == total_free(segs));
    } else {
        let rest = segs.skip(1);
        lemma_segs_wf_skip(segs, 1);
        lemma_compact_props(rest);
        let c = seq![segs[0]] + compact(rest);
        assert(compact(segs) == c);
        assert(c.skip(1) =~= compact(rest));
        assert(c[0] == segs[0]);
        assert(total_free(c) == segs[0].size + total_free(compact(rest)));
        assert(total_free(segs) == segs[0].size + total_free(rest));
        assert forall|k: int| 0 <= k < c.len() implies (#[trigger] c[k]).size
            > HEAP_SEG_HEADER_SIZE && seg_end(c[k]) <= usize::MAX by {
            if k > 0 {
                assert(c[k] == compact(rest)[k - 1]);
            }
        }
        assert forall|k: int| 0 <= k < c.len() - 1 implies seg_end(#[trigger] c[k]) <= c[k
            + 1].start && seg_end(c[k]) != c[k + 1].start by {
            if k == 0 {
                assert(c[1] == compact(rest)[0]);
                assert(compact(rest)[0].start == segs[1].start);
            } else {
                assert(c[k] == compact(rest)[k - 1] && c[k + 1] == compact(rest)[k]);
            }
        }
    }
}

/// A pass over a list on which no two blocks touch changes nothing.
pub proof fn lemma_compact_coalesced_identity(segs: Seq<HeapSegment>)
    requires
        coalesced(segs),
    ensures
        compact(segs) == segs,
    decreases segs.len(),
{
    if segs.len() <= 1 {
    } else {
        let rest = segs.skip(1);
        assert forall|k: int| 0 <= k < rest.len() - 1 implies seg_end(#[trigger] rest[k])
            != rest[k + 1].start by {
            assert(rest[k] == segs[k + 1] && rest[k + 1] == segs[k + 2]);
        }
        lemma_compact_coalesced_identity(rest);
        assert(compact(segs) =~= segs);
    }
}

/// Coalescing is idempotent: a second pass right after a first one changes
/// neither the list nor, in particular, its segment count.
pub proof fn lemma_compaction_idempotent(segs: Seq<HeapSegment>)
    requires
        segs_wf(segs),
    ensures
        compact(compact(segs)) == compact(segs),
{
    lemma_compact_props(segs);
    lemma_compact_coalesced_identity(compact(segs));
}

/// Coalescing never changes the number of free bytes, only how they are
/// divided into segments.
pub proof fn lemma_compaction_preserves_space(segs: Seq<HeapSegment>)
    requires
        segs_wf(segs),
    ensures
        total_free(compact(segs)) == total_free(segs),
{
    lemma_compact_props(segs);
}

/// Two freed blocks covering a contiguous range count as two segments before
/// a coalescing pass and as one afterwards.
pub proof fn lemma_compact_adjacent_pair(a: HeapSegment, b: HeapSegment)
    requires
        seg_end(a) == b.start,
    ensures
        compact(seq![a, b]).len() == 1,
        compact(seq![a, b]) == seq![merge_segs(a, b)],
{
    let s = seq![a, b];
    let m = merge_segs(a, b);
    assert(s.skip(2) =~= Seq::<HeapSegment>::empty());
    assert(seq![m] + s.skip(2) =~= seq![m]);
    assert(compact(seq![m]) == seq![m]);
}

/// A pass over a list whose only touching pair sits at position `p` merges
/// exactly that pair and leaves everything else in place.
proof fn lemma_compact_merge_at(s: Seq<HeapSegment>, p: int)
    requires
        0 <= p < s.len() - 1,
        seg_end(s[p]) == s[p + 1].start,
        seg_end(s[p + 1]) <= usize::MAX,
        forall|k: int|
            0 <= k < s.len() - 1 && k != p ==> seg_end(#[trigger] s[k]) != s[k + 1].start,
    ensures
        compact(s) == s.take(p) + seq![merge_segs(s[p], s[p + 1])] + s.skip(p + 2),
    decreases p,
{
    let m = merge_segs(s[p], s[p + 1]);
    assert(s[p].size + s[p + 1].size <= usize::MAX);
    if p == 0 {
        let t = seq![m] + s.skip(2);
        assert(compact(s) == compact(t));
        assert forall|k: int| 0 <= k < t.len() - 1 implies seg_end(#[trigger] t[k]) != t[k
            + 1].start by {
            if k == 0 {
                assert(t[1] == s[2]);
                assert(seg_end(m) == seg_end(s[1]));
            } else {
                assert(t[k] == s[k + 1] && t[k + 1] == s[k + 2]);
            }
        }
        lemma_compact_coalesced_identity(t);
        assert(s.take(0) + seq![m] + s.skip(2) =~= t);
    } else {
        let rest = s.skip(1);
        assert(seg_end(s[0]) != s[1].start);
        assert(compact(s) == seq![s[0]] + compact(rest));
        assert(rest[p - 1] == s[p] && rest[p] == s[p + 1]);
        assert forall|k: int|
            0 <= k < rest.len() - 1 && k != p - 1 implies seg_end(#[trigger] rest[k]) != rest[k
            + 1].start by {
            assert(rest[k] == s[k + 1] && rest[k + 1] == s[k + 2]);
        }
        lemma_compact_merge_at(rest, p - 1);
        assert(seq![s[0]] + (rest.take(p - 1) + seq![m] + rest.skip(p + 1)) =~= s.take(p)
            + seq![m] + s.skip(p + 2));
    }
}

/// Round trip: on a fully coalesced heap, allocating a block and then freeing
/// it at the same address and size restores the segment count; when the
/// allocation split its block or fit it exactly, it restores the whole free
/// list.
pub proof fn lemma_allocate_free_round_trip(segs: Seq<HeapSegment>, size: usize)
    requires
        segs_wf(segs),
        coalesced(segs),
        size > HEAP_SEG_HEADER_SIZE,
        first_fit(segs, size) != -1,
    ensures
        ({
            let i = first_fit(segs, size);
            let freed = HeapSegment { start: segs[i].start, size };
            let restored = compact(insert_free(alloc_at(segs, i, size), freed));
            &&& restored.len() == segs.len()
            &&& (segs[i].size == size || segs[i].size - size > HEAP_SEG_HEADER_SIZE) ==> restored
                == segs
        }),
{
    lemma_first_fit_props(segs, size);
    let i = first_fit(segs, size);
    if segs[i].size - size > HEAP_SEG_HEADER_SIZE {
        lemma_round_trip_split(segs, size, i);
    } else {
        lemma_round_trip_whole(segs, size, i);
    }
}

/// The tail left by a split: the back of the block at `i`, behind the `size`
/// bytes handed out.
spec fn split_tail(segs: Seq<HeapSegment>, i: int, size: usize) -> HeapSegment {
    HeapSegment { start: (segs[i].start + size) as usize, size: (segs[i].size - size) as usize }
}

/// A split taken from a coalesced list leaves a coalesced list, so the
/// compaction pass after a mid-list allocation changes nothing.
proof fn lemma_round_trip_split_alloc(segs: Seq<HeapSegment>, size: usize, i: int)
    requires
        segs_wf(segs),
        coalesced(segs),
        size > HEAP_SEG_HEADER_SIZE,
        0 <= i < segs.len(),
        segs[i].size >= size,
        segs[i].size - size > HEAP_SEG_HEADER_SIZE,
    ensures
        alloc_at(segs, i, size) == segs.update(i, split_tail(segs, i, size)),
{
    let tail = split_tail(segs, i, size);
    let trimmed = segs.update(i, tail);
    assert(seg_end(segs[i]) <= usize::MAX);
    assert forall|k: int| 0 <= k < trimmed.len() - 1 implies seg_end(#[trigger] trimmed[k])
        != trimmed[k + 1].start by {
        if k + 1 == i {
            assert(trimmed[k] == segs[k]);
            assert(seg_end(segs[k]) <= segs[i].start);
        } else if k == i {
            assert(trimmed[k + 1] == segs[k + 1]);
            assert(seg_end(tail) == seg_end(segs[i]));
        } else {
            assert(trimmed[k] == segs[k] && trimmed[k + 1] == segs[k + 1]);
        }
    }
    lemma_compact_coalesced_identity(trimmed);
}

/// Freeing the split-off head puts it back right before the tail.
proof fn lemma_round_trip_split_insert(segs: Seq<HeapSegment>, size: usize, i: int)
    requires
        segs_wf(segs),
        size > HEAP_SEG_HEADER_SIZE,
        0 <= i < segs.len(),
        segs[i].size >= size,
        segs[i].size - size > HEAP_SEG_HEADER_SIZE,
    ensures
        ({
            let trimmed = segs.update(i, split_tail(segs, i, size));
            let freed = HeapSegment { start: segs[i].start, size };
            insert_free(trimmed, freed) == trimmed.insert(i, freed)
        }),
{
    let trimmed = segs.update(i, split_tail(segs, i, size));
    let freed = HeapSegment { start: segs[i].start, size };
    assert forall|k: int| 0 <= k < i implies (#[trigger] trimmed[k]).start < freed.start by {
        lemma_segs_ordered(segs);
        assert(trimmed[k] == segs[k]);
        assert(seg_end(segs[k]) <= segs[i].start);
        assert(segs[k].start < seg_end(segs[k]));
    }
    assert(seg_end(segs[i]) <= usize::MAX);
    assert(trimmed[i] == split_tail(segs, i, size));
    lemma_insert_free_at(trimmed, freed, i);
}

/// After freeing the split-off head, the head and the tail are the one
/// touching pair on the list.
proof fn lemma_round_trip_split_touch(segs: Seq<HeapSegment>, size: usize, i: int)
    requires
        segs_wf(segs),
        coalesced(segs),
        size > HEAP_SEG_HEADER_SIZE,
        0 <= i < segs.len(),
        segs[i].size >= size,
        segs[i].size - size > HEAP_SEG_HEADER_SIZE,
    ensures
        ({
            let tail = split_tail(segs, i, size);
            let inserted = segs.update(i, tail).insert(
                i,
                HeapSegment { start: segs[i].start, size },
            );
            forall|k: int|
                0 <= k < inserted.len() - 1 && k != i ==> seg_end(#[trigger] inserted[k])
                    != inserted[k + 1].start
        }),
{
    let s = segs[i];
    let freed = HeapSegment { start: s.start, size };
    let tail = split_tail(segs, i, size);
    let inserted = segs.update(i, tail).insert(i, freed);
    assert(seg_end(s) <= usize::MAX);
    assert forall|k: int|
        0 <= k < inserted.len() - 1 && k != i implies seg_end(#[trigger] inserted[k]) != inserted[k
        + 1].start by {
        if k + 1 < i {
            assert(inserted[k] == segs[k] && inserted[k + 1] == segs[k + 1]);
        } else if k + 1 == i {
            assert(inserted[k] == segs[k] && inserted[k + 1] == freed);
            assert(seg_end(segs[k]) != segs[i].start);
        } else if k == i + 1 {
            assert(inserted[k] == tail && inserted[k + 1] == segs[i + 1]);
            assert(seg_end(tail) == seg_end(s));
        } else {
            assert(inserted[k] == segs[k - 1] && inserted[k + 1] == segs[k]);
        }
    }
}

/// Coalescing a list that differs from `segs` only in having the block at `i`
/// split in two yields `segs` back.
proof fn lemma_merge_back(segs: Seq<HeapSegment>, i: int, freed: HeapSegment, tail: HeapSegment)
    requires
        0 <= i < segs.len(),
        merge_segs(freed, tail) == segs[i],
        freed.start == segs[i].start,
        seg_end(freed) == tail.start,
        seg_end(tail) <= usize::MAX,
        ({
            let inserted = segs.update(i, tail).insert(i, freed);
            forall|k: int|
                0 <= k < inserted.len() - 1 && k != i ==> seg_end(#[trigger] inserted[k])
                    != inserted[k + 1].start
        }),
    ensures
        compact(segs.update(i, tail).insert(i, freed)) == segs,
{
    let inserted = segs.update(i, tail).insert(i, freed);
    assert(inserted[i] == freed && inserted[i + 1] == tail);
    lemma_compact_merge_at(inserted, i);
    assert(inserted.take(i) =~= segs.take(i));
    assert(inserted.skip(i + 2) =~= segs.skip(i + 1));
    assert(inserted.take(i) + seq![segs[i]] + inserted.skip(i + 2) =~= segs);
}

/// Round trip through a split: the freed head and the tail left on the list
/// coalesce back into exactly the block the allocation took from.
proof fn lemma_round_trip_split(segs: Seq<HeapSegment>, size: usize, i: int)
    requires
        segs_wf(segs),
        coalesced(segs),
        size > HEAP_SEG_HEADER_SIZE,
        0 <= i < segs.len(),
        segs[i].size >= size,
        segs[i].size - size > HEAP_SEG_HEADER_SIZE,
    ensures
        compact(
            insert_free(alloc_at(segs, i, size), HeapSegment { start: segs[i].start, size }),
        ) == segs,
{
    let s = segs[i];
    let freed = HeapSegment { start: s.start, size };
    let tail = split_tail(segs, i, size);
    assert(seg_end(s) <= usize::MAX);
    lemma_round_trip_split_alloc(segs, size, i);
    lemma_round_trip_split_insert(segs, size, i);
    lemma_round_trip_split_touch(segs, size, i);
    assert(merge_segs(freed, tail) == s);
    lemma_merge_back(segs, i, freed, tail);
}

/// Detaching a block whole from a coalesced list leaves a coalesced list, so
/// the compaction pass after a mid-list allocation changes nothing.
proof fn lemma_round_trip_whole_alloc(segs: Seq<HeapSegment>, size: usize, i: int)
    requires
        segs_wf(segs),
        coalesced(segs),
        0 <= i < segs.len(),
        segs[i].size >= size,
        segs[i].size - size <= HEAP_SEG_HEADER_SIZE,
    ensures
        alloc_at(segs, i, size) == segs.remove(i),
{
    let trimmed = segs.remove(i);
    if i != 0 {
        assert forall|k: int| 0 <= k < trimmed.len() - 1 implies seg_end(#[trigger] trimmed[k])
            != trimmed[k + 1].start by {
            if k + 1 == i {
                assert(trimmed[k] == segs[k] && trimmed[k + 1] == segs[i + 1]);
                assert(seg_end(segs[k]) <= segs[i].start);
                assert(segs[i].start < seg_end(segs[i]));
                assert(seg_end(segs[i]) <= segs[i + 1].start);
            } else if k + 1 < i {
                assert(trimmed[k] == segs[k] && trimmed[k + 1] == segs[k + 1]);
            } else {
                assert(trimmed[k] == segs[k + 1] && trimmed[k + 1] == segs[k + 2]);
            }
        }
        lemma_compact_coalesced_identity(trimmed);
    }
}

/// Freeing a block that went out whole puts its bytes back in the block's
/// old place on the list.
proof fn lemma_round_trip_whole_insert(segs: Seq<HeapSegment>, size: usize, i: int)
    requires
        segs_wf(segs),
        size > 0,
        0 <= i < segs.len(),
        segs[i].size >= size,
    ensures
        ({
            let freed = HeapSegment { start: segs[i].start, size };
            insert_free(segs.remove(i), freed) == segs.remove(i).insert(i, freed)
        }),
{
    let s = segs[i];
    let freed = HeapSegment { start: s.start, size };
    let trimmed = segs.remove(i);
    assert forall|k: int| 0 <= k < i implies (#[trigger] trimmed[k]).start < freed.start by {
        lemma_segs_ordered(segs);
        assert(trimmed[k] == segs[k]);
        assert(seg_end(segs[k]) <= segs[i].start);
        assert(segs[k].start < seg_end(segs[k]));
    }
    if i < trimmed.len() {
        assert(trimmed[i] == segs[i + 1]);
        assert(seg_end(s) <= segs[i + 1].start);
    }
    lemma_insert_free_at(trimmed, freed, i);
}

/// The list after freeing a whole-block allocation has no touching pair: the
/// freed block ends at or inside its old extent, short of the next block.
proof fn lemma_round_trip_whole_coalesced(segs: Seq<HeapSegment>, size: usize, i: int)
    requires
        segs_wf(segs),
        coalesced(segs),
        size > 0,
        0 <= i < segs.len(),
        segs[i].size >= size,
    ensures
        coalesced(segs.remove(i).insert(i, HeapSegment { start: segs[i].start, size })),
{
    let s = segs[i];
    let freed = HeapSegment { start: s.start, size };
    let inserted = segs.remove(i).insert(i, freed);
    assert(seg_end(s) <= usize::MAX);
    assert forall|k: int| 0 <= k < inserted.len() - 1 implies seg_end(#[trigger] inserted[k])
        != inserted[k + 1].start by {
        if k + 1 < i {
            assert(inserted[k] == segs[k] && inserted[k + 1] == segs[k + 1]);
        } else if k + 1 == i {
            assert(inserted[k] == segs[k] && inserted[k + 1] == freed);
            assert(seg_end(segs[k]) <= segs[i].start && seg_end(segs[k]) != segs[i].start);
        } else if k == i {
            assert(inserted[k] == freed && inserted[k + 1] == segs[i + 1]);
            assert(seg_end(freed) <= seg_end(s));
            assert(size < s.size ==> seg_end(freed) < seg_end(s));
            assert(seg_end(s) <= segs[i + 1].start);
            if size == s.size {
                assert(seg_end(freed) != segs[i + 1].start);
            }
        } else {
            assert(inserted[k] == segs[k] && inserted[k + 1] == segs[k + 1]);
        }
    }
}

/// Round trip without a split: the block went out whole, and freeing puts a
/// block back in the same place — the very same block when the fit was exact.
proof fn lemma_round_trip_whole(segs: Seq<HeapSegment>, size: usize, i: int)
    requires
        segs_wf(segs),
        coalesced(segs),
        size > HEAP_SEG_HEADER_SIZE,
        0 <= i < segs.len(),
        segs[i].size >= size,
        segs[i].size - size <= HEAP_SEG_HEADER_SIZE,
    ensures
        ({
            let freed = HeapSegment { start: segs[i].start, size };
            let restored = compact(insert_free(alloc_at(segs, i, size), freed));
            &&& restored.len() == segs.len()
            &&& segs[i].size == size ==> restored == segs
        }),
{
    let s = segs[i];
    let freed = HeapSegment { start: s.start, size };
    let inserted = segs.remove(i).insert(i, freed);
    lemma_round_trip_whole_alloc(segs, size, i);
    lemma_round_trip_whole_insert(segs, size, i);
    lemma_round_trip_whole_coalesced(segs, size, i);
    lemma_compact_coalesced_identity(inserted);
    if s.size == size {
        assert(freed == s);
        assert(inserted =~= segs);
    }
}

/// The running total over a prefix grows by exactly the next block's size.
proof fn lemma_total_free_take_step(segs: Seq<HeapSegment>, i: int)
    requires
        0 <= i < segs.len(),
    ensures
        total_free(segs.take(i + 1)) == total_free(segs.take(i)) + segs[i].size,
    decreases i,
{
    if i == 0 {
        assert(segs.take(0) =~= Seq::<HeapSegment>::empty());
        assert(segs.take(1).skip(1) =~= Seq::<HeapSegment>::empty());
    } else {
        lemma_total_free_take_step(segs.skip(1), i - 1);
        assert(segs.take(i + 1).skip(1) =~= segs.skip(1).take(i));
        assert(segs.take(i).skip(1) =~= segs.skip(1).take(i - 1));
    }
}

/// The total over a list splits at any cut point.
pub proof fn lemma_total_free_split(segs: Seq<HeapSegment>, k: int)
    requires
        0 <= k <= segs.len(),
    ensures
        total_free(segs) == total_free(segs.take(k)) + total_free(segs.skip(k)),
    decreases k,
{
    if k == 0 {
        assert(segs.take(0) =~= Seq::<HeapSegment>::empty());
        assert(segs.skip(0) =~= segs);
    } else {
        lemma_total_free_split(segs.skip(1), k - 1);
        assert(segs.take(k).skip(1) =~= segs.skip(1).take(k - 1));
        assert(segs.skip(k) =~= segs.skip(1).skip(k - 1));
    }
}

/// Block sizes are unsigned, so the total is never negative.
pub proof fn lemma_total_free_nonneg(segs: Seq<HeapSegment>)
    ensures
        total_free(segs) >= 0,
    decreases segs.len(),
{
    if segs.len() > 0 {
        lemma_total_free_nonneg(segs.skip(1));
    }
}

/// On a well-formed list the free bytes all fit between the first block's
/// start and the last block's end, so the total fits in a machine word.
pub proof fn lemma_total_free_bound(segs: Seq<HeapSegment>)
    requires
        segs_wf(segs),
    ensures
        segs.len() > 0 ==> segs[0].start + total_free(segs) <= seg_end(segs.last()),
        total_free(segs) <= usize::MAX,
    decreases segs.len(),
{
    if segs.len() == 0 {
    } else {
        let rest = segs.skip(1);
        lemma_segs_wf_skip(segs, 1);
        lemma_total_free_bound(rest);
        if segs.len() == 1 {
            assert(rest =~= Seq::<HeapSegment>::empty());
        } else {
            assert(rest.last() == segs.last());
            assert(rest[0] == segs[1]);
            assert(seg_end(segs[0]) <= segs[1].start);
        }
    }
}

/// Dropping a prefix of a well-formed list leaves a well-formed list.
pub proof fn lemma_segs_wf_skip(segs: Seq<HeapSegment>, k: int)
    requires
        segs_wf(segs),
        0 <= k <= segs.len(),
    ensures
        segs_wf(segs.skip(k)),
{
    let rest = segs.skip(k);
    assert forall|i: int| 0 <= i < rest.len() implies (#[trigger] rest[i]).size
        > HEAP_SEG_HEADER_SIZE && seg_end(rest[i]) <= usize::MAX by {
        assert(rest[i] == segs[i + k]);
    }
    assert forall|i: int| 0 <= i < rest.len() - 1 implies seg_end(#[trigger] rest[i]) <= rest[i
        + 1].start by {
        assert(rest[i] == segs[i + k]);
        assert(rest[i + 1] == segs[i + k + 1]);
    }
}

/// When every block before position `j` starts below `seg` and the block at
/// `j` (if any) starts above it, the sorted insertion lands exactly at `j`.
proof fn lemma_insert_free_at(segs: Seq<HeapSegment>, seg: HeapSegment, j: int)
    requires
        0 <= j <= segs.len(),
        forall|k: int| 0 <= k < j ==> (#[trigger] segs[k]).start < seg.start,
        j < segs.len() ==> seg.start < segs[j].start,
    ensures
        insert_free(segs, seg) == segs.insert(j, seg),
    decreases segs.len(),
{
    if segs.len() == 0 {
        assert(insert_free(segs, seg) =~= segs.insert(0, seg));
    } else if seg.start < segs[0].start {
        assert(j == 0);
        assert(insert_free(segs, seg) =~= segs.insert(0, seg));
    } else {
        assert(j >= 1) by {
            if j == 0 {
                assert(seg.start < segs[0].start);
            }
        }
        let rest = segs.skip(1);
        assert forall|k: int| 0 <= k < j - 1 implies (#[trigger] rest[k]).start < seg.start by {
            assert(rest[k] == segs[k + 1]);
        }
        if j - 1 < rest.len() {
            assert(rest[j - 1] == segs[j]);
        }
        lemma_insert_free_at(rest, seg, j - 1);
        assert(insert_free(segs, seg) =~= segs.insert(j, seg));
    }
}

/// Inserting a disjoint block at its sorted position preserves the free
/// list's invariant.
proof fn lemma_insert_sorted_wf(segs: Seq<HeapSegment>, seg: HeapSegment, j: int)
    requires
        segs_wf(segs),
        0 <= j <= segs.len(),
        seg.size > HEAP_SEG_HEADER_SIZE,
        seg_end(seg) <= usize::MAX,
        forall|i: int|
            0 <= i < segs.len() ==> seg_end(#[trigger] segs[i]) <= seg.start
                || seg_end(seg) <= segs[i].start,
        forall|k: int| 0 <= k < j ==> (#[trigger] segs[k]).start < seg.start,
        j < segs.len() ==> seg.start < segs[j].start,
    ensures
        segs_wf(segs.insert(j, seg)),
{
    let out = segs.insert(j, seg);
    assert forall|i: int| 0 <= i < out.len() implies (#[trigger] out[i]).size
        > HEAP_SEG_HEADER_SIZE && seg_end(out[i]) <= usize::MAX by {
        if i < j {
            assert(out[i] == segs[i]);
        } else if i == j {
            assert(out[i] == seg);
        } else {
            assert(out[i] == segs[i - 1]);
        }
    }
    assert forall|i: int| 0 <= i < out.len() - 1 implies seg_end(#[trigger] out[i]) <= out[i
        + 1].start by {
        if i + 1 < j {
            assert(out[i] == segs[i]);
            assert(out[i + 1] == segs[i + 1]);
        } else if i + 1 == j {
            // segs[i] starts below seg and is disjoint from it, so it ends at
            // or below seg's start
            assert(out[i] == segs[i]);
            assert(out[i + 1] == seg);
            assert(seg_end(segs[i]) <= seg.start || seg_end(seg) <= segs[i].start);
            assert(seg.start < seg_end(seg));
        } else if i == j {
            assert(out[i] == seg);
            assert(out[i + 1] == segs[i]);
            assert(seg_end(segs[i]) <= seg.start || seg_end(seg) <= segs[i].start);
            assert(segs[i].start < seg_end(segs[i]));
        } else {
            assert(out[i] == segs[i - 1]);
            assert(out[i + 1] == segs[i]);
        }
    }
}

/// Inserting a block anywhere adds exactly its size to the total.
proof fn lemma_total_free_insert(segs: Seq<HeapSegment>, seg: HeapSegment, j: int)
    requires
        0 <= j <= segs.len(),
    ensures
        total_free(segs.insert(j, seg)) == total_free(segs) + seg.size,
    decreases j,
{
    if j == 0 {
        assert(segs.insert(0, seg).skip(1) =~= segs);
    } else {
        lemma_total_free_insert(segs.skip(1), seg, j - 1);
        assert(segs.insert(j, seg).skip(1) =~= segs.skip(1).insert(j - 1, seg));
        assert(segs.insert(j, seg)[0] == segs[0]);
    }
}

} // verus!
