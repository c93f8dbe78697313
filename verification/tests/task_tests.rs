use kernel::mutex::IrqState;
use kernel::task::{schedule, LockedQueue, Queue, TaskTCB, STACK_SIZE};

#[test]
fn test_queue_empty() {
    let mut queue = Queue::new();
    assert_eq!(queue.empty(), true);
    assert_eq!(queue.count_tasks(), 0);
    assert_eq!(queue.dequeue().map(|t| t.priority), None);
}

#[test]
fn test_enqueue() {
    let mut queue = Queue::new();

    for i in 0..5 {
        let new_task = TaskTCB::new(i);
        queue.enqueue(new_task);
        assert_eq!(queue.count_tasks(), i + 1);
    }
}

#[test]
fn test_dequeue() {
    let mut queue = Queue::new();

    for i in 0..5 {
        let new_task = TaskTCB::new(i);
        queue.enqueue(new_task);
        assert_eq!(queue.count_tasks(), i + 1);
    }

    // dequeue order equals enqueue order, and the count tracks each step
    for i in 0..5 {
        let task = queue.dequeue().unwrap();
        assert_eq!(task.priority, i);
        assert_eq!(queue.count_tasks(), 5 - i - 1);
    }
    assert!(queue.empty());
}

#[test]
fn test_stack_push() {
    let mut task_tcb = TaskTCB::new(0);
    let buff: [u8; 5] = [1, 2, 3, 4, 5];
    let stp_old = task_tcb.stp;

    task_tcb.stack_push(&buff);

    let base = task_tcb.stp;
    for i in 0..5 {
        assert_eq!(task_tcb.stack[base + i], buff[i]);
    }

    // pushing K bytes moves the saved stack pointer down by exactly K
    assert_eq!(stp_old, task_tcb.stp + 5);
}

#[test]
fn stack_push_leaves_other_bytes_alone() {
    let mut task_tcb = TaskTCB::new(0);
    task_tcb.stack_push(&[0xaa, 0xbb]);
    task_tcb.stack_push(&[0x11]);
    assert_eq!(task_tcb.stp, STACK_SIZE - 3);
    assert_eq!(task_tcb.stack[STACK_SIZE - 3], 0x11);
    assert_eq!(task_tcb.stack[STACK_SIZE - 2], 0xaa);
    assert_eq!(task_tcb.stack[STACK_SIZE - 1], 0xbb);
    assert_eq!(task_tcb.stack[STACK_SIZE - 4], 0);
}

#[test]
fn test_stack_start() {
    let task_tcb = TaskTCB::new(0);
    assert_eq!(task_tcb.stack_start(), 0);
}

#[test]
fn test_stack_end() {
    let task_tcb = TaskTCB::new(0);
    assert_eq!(task_tcb.stack_end(), STACK_SIZE);
}

#[test]
fn new_task_stack_is_zeroed() {
    let task_tcb = TaskTCB::new(7);
    assert_eq!(task_tcb.priority, 7);
    assert_eq!(task_tcb.stp, STACK_SIZE);
    assert_eq!(task_tcb.stack.len(), STACK_SIZE);
    assert!(task_tcb.stack.iter().all(|b| *b == 0));
}

#[test]
fn queue_schedule_rotates_head_to_tail() {
    let mut queue = Queue::new();
    for i in 0..3 {
        queue.enqueue(TaskTCB::new(i));
    }
    queue.schedule();
    let order: Vec<usize> = queue.iter().iter().map(|t| t.priority).collect();
    assert_eq!(order, vec![1, 2, 0]);

    let mut empty_queue = Queue::new();
    empty_queue.schedule();
    assert!(empty_queue.empty());
}

#[test]
fn schedule_round_robin_with_running_slot() {
    let mut queue = Queue::new();
    queue.enqueue(TaskTCB::new(0));
    queue.enqueue(TaskTCB::new(1));
    let mut running: Option<TaskTCB> = None;

    // first dispatch: the head runs, nothing to re-enqueue
    assert!(schedule(&mut queue, &mut running));
    assert_eq!(running.as_ref().map(|t| t.priority), Some(0));
    assert_eq!(queue.count_tasks(), 1);

    // second dispatch: the previously running task cycles to the tail
    assert!(schedule(&mut queue, &mut running));
    assert_eq!(running.as_ref().map(|t| t.priority), Some(1));
    assert_eq!(queue.count_tasks(), 1);
    assert_eq!(queue.iter()[0].priority, 0);

    // and comes back on the third dispatch
    assert!(schedule(&mut queue, &mut running));
    assert_eq!(running.as_ref().map(|t| t.priority), Some(0));
}

#[test]
fn schedule_on_empty_queue_keeps_running_task() {
    let mut queue = Queue::new();
    let mut running: Option<TaskTCB> = None;
    assert!(!schedule(&mut queue, &mut running));
    assert!(running.is_none());

    running = Some(TaskTCB::new(3));
    assert!(schedule(&mut queue, &mut running));
    assert_eq!(running.as_ref().map(|t| t.priority), Some(3));
    assert!(queue.empty());
}

#[test]
fn locked_queue_is_fifo_and_restores_interrupts() {
    let mut irq = IrqState::new();
    let mut queue = LockedQueue::new();
    assert!(queue.empty(&mut irq));

    for i in 0..4 {
        queue.enqueue(&mut irq, TaskTCB::new(i));
        assert!(irq.enabled);
        assert_eq!(queue.count_tasks(&mut irq), i + 1);
    }
    for i in 0..4 {
        let task = queue.dequeue(&mut irq).unwrap();
        assert_eq!(task.priority, i);
        assert!(irq.enabled);
    }
    assert!(queue.dequeue(&mut irq).is_none());
}
