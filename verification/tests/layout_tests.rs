use mi7::ipc::QueueHeader;
use mi7::shared_ring::{LockOutcome, RingQueue, RingSlot, RING_HEADER_SIZE};
use mi7::shared_slot::{PipeHeader, Slot, SlotPipe, SlotState, PIPE_HEADER_SIZE};

#[test]
fn queue_header_bytes_round_trip() {
    let h = QueueHeader { capacity: 7, head: 3, tail: 0x0102_0304, message_count: 2, lock: 1 };
    let b = h.to_bytes();
    assert_eq!(b.len(), 20);
    assert_eq!(&b[8..12], &[4, 3, 2, 1]);
    let back = QueueHeader::from_bytes(&b);
    assert_eq!((back.capacity, back.head, back.tail, back.message_count, back.lock), (7, 3, 0x0102_0304, 2, 1));
}

#[test]
fn slot_pipe_bytes_round_trip() {
    let mut pipe = SlotPipe::new(2, 8);
    let i = pipe.hold().unwrap();
    pipe.set_slot_state(i, SlotState::INPROGRESS).unwrap();
    pipe.write(i, b"abc").unwrap();
    let header = pipe.header_bytes();
    assert_eq!(header.len(), PIPE_HEADER_SIZE);
    let h = PipeHeader::from_bytes(&header);
    assert_eq!((h.slot_size, h.capacity, h.write_pointer, h.read_pointer, h.seq), (8, 2, 1, 0, 2));
    assert!(h.begin);
    let slots: Vec<Slot> = (0..2).map(|k| Slot::from_bytes(&pipe.slot(k).to_bytes())).collect();
    let mut back = SlotPipe::assemble(h, slots).unwrap();
    assert_eq!(back.slot(0).data_size, 3);
    back.set_slot_state(0, SlotState::INPROGRESS).unwrap();
    assert_eq!(back.read(0), Ok((1, b"abc".to_vec())));
}

#[test]
fn slot_pipe_assembly_refuses_disagreeing_parts() {
    let pipe = SlotPipe::new(2, 8);
    let h = PipeHeader::from_bytes(&pipe.header_bytes());
    assert!(SlotPipe::assemble(h, vec![Slot::from_bytes(&pipe.slot(0).to_bytes())]).is_none());
}

#[test]
fn ring_bytes_round_trip() {
    let mut q = RingQueue::new(2, 4);
    q.push(LockOutcome::Acquired, &[1, 2, 3]).unwrap();
    let header = q.header_bytes();
    assert_eq!(header.len(), RING_HEADER_SIZE);
    let slots: Vec<RingSlot> = (0..2).map(|k| RingSlot::from_bytes(&q.slot(k).to_bytes()).unwrap()).collect();
    let mut back = RingQueue::assemble(&header, 4, slots).unwrap();
    assert_eq!(back.pop(LockOutcome::Acquired), Some((1, vec![1, 2, 3, 0])));
    let mut bad = q.slot(0).to_bytes();
    bad[0] = 9;
    assert!(RingSlot::from_bytes(&bad).is_none());
}

#[test]
fn shared_memory_object_names_start_with_a_slash() {
    assert_eq!(mi7::layout::shm_object_name("pipe"), "/pipe");
    assert_eq!(mi7::layout::shm_object_name("/pipe"), "/pipe");
    assert_eq!(mi7::layout::shm_object_name(""), "/");
    assert_eq!(mi7::layout::shm_object_name("a/b"), "/a/b");
}
