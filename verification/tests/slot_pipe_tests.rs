use mi7::shared_slot::{FetchOutcome, SlotError, SlotPipe, SlotState};

#[test]
fn hold_claims_empty_slots_in_ring_order() {
    let mut pipe = SlotPipe::new(3, 16);
    assert_eq!(pipe.hold(), Some(0));
    assert_eq!(pipe.hold(), Some(1));
    assert_eq!(pipe.write_pointer(), 2);
    assert_eq!(pipe.hold(), Some(2));
    assert_eq!(pipe.write_pointer(), 0);
    assert_eq!(pipe.hold(), None);
    assert_eq!(pipe.get_slot_state(1), Ok(SlotState::WRITING));
}

#[test]
fn write_then_read_gives_payload_back() {
    let mut pipe = SlotPipe::new(4, 32);
    let index = pipe.hold().unwrap();
    assert_eq!(pipe.write(index, b"ping"), Err(SlotError::NotReadyForWriting));
    pipe.set_slot_state(index, SlotState::INPROGRESS).unwrap();
    let id = pipe.write(index, b"hello").unwrap();
    assert_eq!(id, 1);
    assert_eq!(pipe.seq(), 2);
    assert!(pipe.begin());
    assert_eq!(pipe.fetch(), FetchOutcome::Claimed(index));
    assert_eq!(pipe.get_slot_state(index), Ok(SlotState::READING));
    assert_eq!(pipe.read(index), Err(SlotError::NotReadyForReading));
    pipe.set_slot_state(index, SlotState::INPROGRESS).unwrap();
    let (rid, payload) = pipe.read(index).unwrap();
    assert_eq!(rid, 1);
    assert_eq!(payload, b"hello".to_vec());
    pipe.finish_read(index, true);
    assert_eq!(pipe.get_slot_state(index), Ok(SlotState::EMPTY));
    assert_eq!(pipe.slot(index).data_size, 0);
    assert_eq!(pipe.fetch(), FetchOutcome::Drained);
    assert!(!pipe.begin());
    assert_eq!(pipe.fetch(), FetchOutcome::Wait);
}

#[test]
fn write_errors() {
    let mut pipe = SlotPipe::new(2, 4);
    assert_eq!(pipe.write(2, b"a"), Err(SlotError::IndexOutOfBounds));
    pipe.set_slot_state(0, SlotState::INPROGRESS).unwrap();
    assert_eq!(pipe.write(0, b"abcde"), Err(SlotError::TooLarge));
    assert_eq!(pipe.write(0, b"abcd"), Ok(1));
    assert_eq!(pipe.set_slot_state(5, SlotState::EMPTY), Err(SlotError::IndexOutOfBounds));
    assert_eq!(pipe.get_slot_state(9), Err(SlotError::IndexOutOfBounds));
    assert_eq!(SlotError::UnknownState(7).message(), "Unknown slot state: 7");
    assert_eq!(SlotError::TooLarge.message(), "Serialized data too large for slot");
}

#[test]
fn corrupted_checksum_empties_the_slot() {
    let mut slots = Vec::new();
    for state in [2u32, 0u32] {
        slots.push(mi7::shared_slot::Slot {
            state,
            request_id: 9,
            data_size: 2,
            checksum: 12345,
            data: vec![1, 2, 0, 0],
        });
    }
    let mut pipe = SlotPipe::from_parts(4, 0, 0, 10, true, 0, slots);
    assert_eq!(pipe.read(0), Err(SlotError::ChecksumMismatch));
    assert_eq!(pipe.get_slot_state(0), Ok(SlotState::EMPTY));
}

#[test]
fn unknown_state_words() {
    let slots = vec![mi7::shared_slot::Slot {
        state: 7,
        request_id: 0,
        data_size: 0,
        checksum: 0,
        data: vec![0; 8],
    }];
    let pipe = SlotPipe::from_parts(8, 0, 0, 1, false, 0, slots);
    assert_eq!(pipe.get_slot_state(0), Err(SlotError::UnknownState(7)));
    let status = pipe.status();
    assert_eq!(status.empty_count, 0);
    assert_eq!(status.used_count, 1);
}

#[test]
fn next_slot_by_state_skips_current() {
    let mut pipe = SlotPipe::new(4, 8);
    pipe.set_slot_state(0, SlotState::READY).unwrap();
    pipe.set_slot_state(2, SlotState::READY).unwrap();
    assert_eq!(pipe.next_ready(0), Some(2));
    assert_eq!(pipe.next_ready(2), Some(0));
    assert_eq!(pipe.next_empty(0), Some(1));
    pipe.set_slot_state(1, SlotState::READY).unwrap();
    pipe.set_slot_state(3, SlotState::READY).unwrap();
    assert_eq!(pipe.next_empty(3), None);
    assert_eq!(pipe.next_slot_by_state(3, SlotState::READING), None);
}

#[test]
fn status_counts_states() {
    let mut pipe = SlotPipe::new(5, 8);
    pipe.hold();
    pipe.set_slot_state(3, SlotState::READY).unwrap();
    pipe.set_slot_state(4, SlotState::READING).unwrap();
    let st = pipe.status();
    assert_eq!(st.capacity, 5);
    assert_eq!(st.slot_size, 8);
    assert_eq!(st.write_pointer, 1);
    assert_eq!(st.empty_count, 2);
    assert_eq!(st.writing_count, 1);
    assert_eq!(st.ready_count, 1);
    assert_eq!(st.reading_count, 1);
    assert_eq!(st.in_progress_count, 0);
    assert_eq!(st.used_count, 3);
}

#[test]
fn fetch_takes_ready_slots_from_read_pointer() {
    let mut pipe = SlotPipe::new(3, 8);
    for i in 0..3 {
        pipe.set_slot_state(i, SlotState::INPROGRESS).unwrap();
        pipe.write(i, &[i as u8]).unwrap();
    }
    assert_eq!(pipe.fetch(), FetchOutcome::Claimed(0));
    assert_eq!(pipe.fetch(), FetchOutcome::Claimed(1));
    assert_eq!(pipe.read_pointer(), 2);
    assert_eq!(pipe.fetch(), FetchOutcome::Claimed(2));
    assert_eq!(pipe.fetch(), FetchOutcome::Drained);
}
