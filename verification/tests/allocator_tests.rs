use kernel::allocator::{Heap, HeapSegment, LockedHeap, HEAP_SEG_HEADER_SIZE};
use kernel::mutex::IrqState;

// A model address for the start of the managed region.
const BASE: usize = 0x1000;

#[test]
fn heap_init_test() {
    let mut heap = Heap::new();
    heap.init(BASE, 1024);
    assert_eq!(heap.available_space(), 1024);
    assert_eq!(heap.count_segments(), 1);
}

#[test]
fn count_segments_test() {
    let mut heap = Heap::new();
    for i in 0..50 {
        heap.add_free_segment(BASE + 20 * i, 20);
        assert_eq!(heap.count_segments(), i + 1);
    }
    assert_eq!(heap.available_space(), 1000);
}

#[test]
fn available_space_test() {
    let mut heap = Heap::new();
    heap.init(BASE, 1024);
    for i in 0..50 {
        assert!(heap.allocate_segment(20).is_some());
        assert_eq!(heap.available_space(), 1024 - (i + 1) * 20);
    }
}

#[test]
fn heap_compaction_test() {
    let mut heap = Heap::new();

    heap.add_free_segment(BASE, 128);
    assert_eq!(heap.count_segments(), 1);

    heap.add_free_segment(BASE + 128, 128);
    assert_eq!(heap.count_segments(), 2);
    assert_eq!(heap.available_space(), 256);

    heap.compaction();
    assert_eq!(heap.count_segments(), 1);
    // compaction changes how the bytes are divided, never how many there are
    assert_eq!(heap.available_space(), 256);
}

#[test]
fn compaction_is_idempotent() {
    let mut heap = Heap::new();
    heap.add_free_segment(BASE, 64);
    heap.add_free_segment(BASE + 64, 64);
    heap.add_free_segment(BASE + 256, 64);

    heap.compaction();
    let once = heap.count_segments();
    let space = heap.available_space();
    heap.compaction();
    assert_eq!(heap.count_segments(), once);
    assert_eq!(heap.available_space(), space);
    assert_eq!(once, 2);
}

#[test]
fn compaction_merges_three_way() {
    let mut heap = Heap::new();
    heap.add_free_segment(BASE, 32);
    heap.add_free_segment(BASE + 32, 32);
    heap.add_free_segment(BASE + 64, 32);
    assert_eq!(heap.count_segments(), 3);
    heap.compaction();
    assert_eq!(heap.count_segments(), 1);
    assert_eq!(heap.available_space(), 96);
}

#[test]
fn test_allocate_segment() {
    let mut heap = Heap::new();

    heap.add_free_segment(BASE, 1024);
    assert_eq!(heap.count_segments(), 1);

    let mut ptr1 = heap.allocate_segment(128).unwrap();
    assert_eq!(ptr1, BASE);
    assert_eq!(heap.count_segments(), 1);
    let ptr2 = heap.allocate_segment(128).unwrap();
    assert_eq!(ptr2, BASE + 128);
    assert_eq!(heap.count_segments(), 1);

    // now the first block is freed
    heap.free_segment(ptr1, 128);
    assert_eq!(heap.count_segments(), 2);

    // the first block is allocated again, reusing its slot, and then the
    // second one is freed
    ptr1 = heap.allocate_segment(128).unwrap();
    assert_eq!(ptr1, BASE);
    heap.free_segment(ptr2, 128);
    assert_eq!(heap.count_segments(), 1);
    heap.free_segment(ptr1, 128);
    assert_eq!(heap.count_segments(), 1);
    assert_eq!(heap.available_space(), 1024);
}

#[test]
fn empty_heap_reports_nothing() {
    let mut heap = Heap::new();
    assert_eq!(heap.count_segments(), 0);
    assert_eq!(heap.available_space(), 0);
    heap.compaction();
    assert_eq!(heap.count_segments(), 0);
}

#[test]
fn allocate_rejects_small_requests() {
    let mut heap = Heap::new();
    heap.init(BASE, 1024);
    // a request not exceeding the header size is rejected
    assert_eq!(heap.allocate_segment(0), None);
    assert_eq!(heap.allocate_segment(HEAP_SEG_HEADER_SIZE), None);
    assert_eq!(heap.available_space(), 1024);
    assert!(heap.allocate_segment(HEAP_SEG_HEADER_SIZE + 1).is_some());
}

#[test]
fn allocate_exhausted_returns_none() {
    let mut heap = Heap::new();
    assert_eq!(heap.allocate_segment(16), None);

    heap.init(BASE, 64);
    assert_eq!(heap.allocate_segment(65), None);
    assert_eq!(heap.count_segments(), 1);
    assert_eq!(heap.allocate_segment(64), Some(BASE));
    assert_eq!(heap.count_segments(), 0);
}

#[test]
fn allocate_hands_out_whole_block_when_tail_too_small() {
    let mut heap = Heap::new();
    heap.init(BASE, 137);
    // the 7-byte tail could not carry a header, so the block goes out whole
    assert_eq!(heap.allocate_segment(130), Some(BASE));
    assert_eq!(heap.count_segments(), 0);
    assert_eq!(heap.available_space(), 0);
}

#[test]
fn allocate_free_round_trip() {
    let mut heap = Heap::new();
    heap.init(BASE, 1024);
    let ptr = heap.allocate_segment(100).unwrap();
    assert_eq!(heap.count_segments(), 1);
    heap.free_segment(ptr, 100);
    assert_eq!(heap.count_segments(), 1);
    assert_eq!(heap.available_space(), 1024);
    let segs = heap.iter();
    assert_eq!(segs.len(), 1);
    assert_eq!(segs[0].start_address(), BASE);
}

#[test]
fn allocate_is_first_fit() {
    let mut heap = Heap::new();
    heap.add_free_segment(BASE, 32);
    heap.add_free_segment(BASE + 100, 64);
    heap.add_free_segment(BASE + 200, 64);
    // the first large-enough block in address order wins
    assert_eq!(heap.allocate_segment(48), Some(BASE + 100));
    assert_eq!(heap.allocate_segment(16), Some(BASE));
}

#[test]
fn segment_addresses() {
    let seg = HeapSegment::new(BASE, 128);
    assert_eq!(seg.start_address(), BASE);
    assert_eq!(seg.end_address(), BASE + 128);
}

#[test]
fn heap_iter_lists_segments_in_address_order() {
    let mut heap = Heap::new();
    heap.add_free_segment(BASE + 500, 20);
    heap.add_free_segment(BASE, 20);
    heap.add_free_segment(BASE + 100, 20);
    let starts: Vec<usize> = heap.iter().iter().map(|s| s.start_address()).collect();
    assert_eq!(starts, vec![BASE, BASE + 100, BASE + 500]);
}

#[test]
fn locked_heap_allocate_and_free() {
    let mut irq = IrqState::new();
    let mut heap = LockedHeap::new();
    heap.init(&mut irq, BASE, 1024);

    let ptr = heap.allocate_segment(&mut irq, 64).unwrap();
    assert_eq!(ptr, BASE);
    assert!(irq.enabled);
    assert_eq!(heap.allocate_segment(&mut irq, 4096), None);

    heap.free_segment(&mut irq, ptr, 64);
    assert!(irq.enabled);
    let (h, guard) = heap.lock(&mut irq);
    assert_eq!(h.available_space(), 1024);
    assert_eq!(h.count_segments(), 1);
    heap.unlock(&mut irq, h, guard);
    assert!(irq.enabled);
}

#[test]
fn locked_heap_masks_and_restores_interrupts() {
    let mut irq = IrqState::new();
    assert!(irq.enabled);

    let mut locked = LockedHeap::new();
    locked.init(&mut irq, BASE, 1024);
    assert!(irq.enabled);

    let (mut heap, guard) = locked.lock(&mut irq);
    assert!(!irq.enabled);
    assert!(guard.prior_enabled);
    assert_eq!(heap.available_space(), 1024);
    let ptr = heap.allocate_segment(64);
    assert_eq!(ptr, Some(BASE));
    locked.unlock(&mut irq, heap, guard);
    assert!(irq.enabled);
}
