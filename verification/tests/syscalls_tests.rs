use kernel::syscalls::{kcreate_task, SysCallID, TASK_FRAME_BYTES};
use kernel::task::{Queue, STACK_SIZE};

// The model entry address of the task's first instruction.
const TASK_ENTRY: u32 = 0x0800_0040;
// The opaque argument word handed to the task.
const ARGS_PTR: u32 = 123;

fn word_at(stack: &[u8], offset: usize) -> u32 {
    u32::from_le_bytes([stack[offset], stack[offset + 1], stack[offset + 2], stack[offset + 3]])
}

#[test]
fn test_create_task() {
    let mut queue = Queue::new();
    kcreate_task(&mut queue, TASK_ENTRY, ARGS_PTR, 0);
    assert_eq!(queue.count_tasks(), 1);

    let created_task = queue.dequeue().unwrap();
    assert_eq!(created_task.priority, 0);

    // the saved stack pointer sits one frame below the stack's high end
    let stack_top = created_task.stp;
    assert_eq!(stack_top, STACK_SIZE - TASK_FRAME_BYTES);
    assert_eq!(TASK_FRAME_BYTES, 14 * 4);

    // first we should find the task's argument word
    assert_eq!(word_at(&created_task.stack, stack_top), ARGS_PTR);

    // the following 12 words (registers r1-r12) should be zero-filled
    for i in 1..13 {
        assert_eq!(word_at(&created_task.stack, stack_top + 4 * i), 0);
    }

    // then we should find the entry address, bound for the link register
    assert_eq!(word_at(&created_task.stack, stack_top + 4 * 13), TASK_ENTRY);

    // everything below the frame is still zero
    assert!(created_task.stack[..stack_top].iter().all(|b| *b == 0));
}

#[test]
fn created_tasks_queue_in_order() {
    let mut queue = Queue::new();
    kcreate_task(&mut queue, TASK_ENTRY, 1, 5);
    kcreate_task(&mut queue, TASK_ENTRY, 2, 6);
    assert_eq!(queue.count_tasks(), 2);
    let first = queue.dequeue().unwrap();
    let second = queue.dequeue().unwrap();
    assert_eq!(first.priority, 5);
    assert_eq!(second.priority, 6);
    assert_eq!(word_at(&first.stack, first.stp), 1);
    assert_eq!(word_at(&second.stack, second.stp), 2);
}

#[test]
fn create_task_service_id() {
    assert_eq!(SysCallID::CREATE_TASK_ID.id(), 1);
}
