use mi7::shared_slot::{FetchOutcome, SlotError, SlotPipe, SlotState, TokioIPCError};
use mi7::shared_ring::{LockOutcome, RingQueue, RingSlot, SlotState as RingState};
use mi7::worker::take_task;

#[test]
fn take_task_reads_a_fetched_slot() {
    let mut pipe = SlotPipe::new(2, 16);
    let i = pipe.hold().unwrap();
    pipe.set_slot_state(i, SlotState::INPROGRESS).unwrap();
    pipe.write(i, b"job").unwrap();
    assert_eq!(pipe.fetch(), FetchOutcome::Claimed(i));
    assert_eq!(take_task(&mut pipe, i), Ok((1, b"job".to_vec())));
    assert_eq!(pipe.get_slot_state(i), Ok(SlotState::INPROGRESS));
    assert_eq!(take_task(&mut pipe, 7), Err(SlotError::IndexOutOfBounds));
}

#[test]
fn ipc_error_texts() {
    assert_eq!(TokioIPCError::ShmOpenFailed(-2).message(), "Shared memory open failed with code: -2");
    assert_eq!(TokioIPCError::QueueFull.message(), "Queue is full");
    assert_eq!(TokioIPCError::SlotNotReady.message(), "Slot is not ready");
}

#[test]
fn ring_queue_parts_round_trip() {
    let mut q = RingQueue::new(3, 2);
    q.push(LockOutcome::Acquired, &[5, 6]).unwrap();
    let (head, tail, seq, size, slots) = q.into_parts();
    assert_eq!((head, tail, seq, size), (0, 1, 2, 2));
    assert_eq!(slots[0].state, RingState::FULL);
    let mut q = RingQueue::from_parts(head, tail, seq, size, slots).unwrap();
    assert_eq!(q.pop(LockOutcome::Acquired), Some((1, vec![5, 6])));
    let bad = vec![RingSlot { state: RingState::EMPTY, request_id: 0, data: vec![0; 3] }];
    assert!(RingQueue::from_parts(0, 0, 1, 2, bad).is_none());
    assert!(RingQueue::from_parts(0, 0, 1, 2, Vec::new()).is_none());
}

#[test]
fn half_written_slots_are_cleared_when_the_owner_died() {
    let slots = vec![
        RingSlot { state: RingState::INPROGRESS, request_id: 4, data: vec![1, 1] },
        RingSlot { state: RingState::EMPTY, request_id: 0, data: vec![0, 0] },
    ];
    let mut q = RingQueue::from_parts(0, 0, 5, 2, slots).unwrap();
    assert_eq!(q.push(LockOutcome::Acquired, &[9]), Err("队列已满"));
    assert_eq!(q.push(LockOutcome::OwnerDied, &[9]), Ok(5));
    assert_eq!(q.pop(LockOutcome::Acquired), Some((5, vec![9, 1])));
}
