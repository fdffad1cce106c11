use mi7::shared_box::{
    BoxConfig, BoxMetadata, BoxSize, BoxState, LockStep, MailboxError, MailboxHeader,
    SharedMailbox, SharedMemoryMailbox,
};

#[test]
fn test_mailbox_creation() {
    let mailbox = SharedMailbox::new(BoxConfig::default()).unwrap();
    let stats = mailbox.get_stats();

    assert_eq!(stats.empty_count, stats.total_count);
    assert_eq!(stats.writing_count, 0);
    assert_eq!(stats.full_count, 0);
    assert_eq!(stats.reading_count, 0);
}

#[test]
fn test_box_allocation() {
    let mut mailbox = SharedMailbox::new(BoxConfig::default()).unwrap();
    let _lock = mailbox.lock().unwrap();

    let box_id = mailbox.get_empty_box(BoxSize::Size1M).unwrap();
    assert!(box_id > 0);

    let metadata = mailbox.find_box_by_id(box_id).unwrap();
    assert_eq!(metadata.get_state(), BoxState::Writing);
}

#[test]
fn test_data_write_read() {
    let mut mailbox = SharedMailbox::new(BoxConfig::default()).unwrap();
    let _lock = mailbox.lock().unwrap();

    let box_id = mailbox.get_empty_box(BoxSize::Size1M).unwrap();
    let test_data = b"Hello, Mailbox!";
    mailbox.write_data(box_id, test_data).unwrap();

    mailbox.start_reading(box_id).unwrap();
    let read_data = mailbox.read_data(box_id).unwrap();

    assert_eq!(read_data, test_data);

    mailbox.finish_reading(box_id).unwrap();

    let metadata = mailbox.find_box_by_id(box_id).unwrap();
    assert_eq!(metadata.get_state(), BoxState::Empty);
}

#[test]
fn default_layout_sizes_and_ids() {
    let config = BoxConfig::default_config();
    assert_eq!(config.total_count(), 18);
    assert_eq!(config.get_count(BoxSize::Size2M), 5);
    assert_eq!(config.get_count(BoxSize::Size100M), 0);
    assert_eq!(
        config.configured_sizes(),
        vec![BoxSize::Size1M, BoxSize::Size2M, BoxSize::Size5M, BoxSize::Size10M]
    );
    // 20 + 18 * 20 + 40 MiB = 41943420, rounded up to whole pages.
    assert_eq!(SharedMailbox::calculate_memory_size(&config), 41947136);
    assert_eq!(SharedMemoryMailbox::calculate_memory_size(&config), 41943420);
    let mailbox = SharedMailbox::new(config).unwrap();
    let first = mailbox.find_box_by_id(1).unwrap();
    assert_eq!(first.get_size(), BoxSize::Size1M);
    assert_eq!(first.get_data_offset(), 380);
    let eleventh = mailbox.find_box_by_id(11).unwrap();
    assert_eq!(eleventh.get_size(), BoxSize::Size2M);
    assert_eq!(eleventh.get_data_offset(), 380 + 10 * 1048576);
    assert_eq!(mailbox.find_box_by_id(19).unwrap_err(), MailboxError::BoxNotFound(19));
    let stats = mailbox.get_stats();
    assert_eq!(stats.total_count, 18);
    assert_eq!(
        stats.size_counts,
        vec![
            (BoxSize::Size1M, 10),
            (BoxSize::Size2M, 5),
            (BoxSize::Size5M, 2),
            (BoxSize::Size10M, 1)
        ]
    );
}

#[test]
fn set_count_keeps_place_and_chains() {
    let mut config = BoxConfig::new();
    config.set_count(BoxSize::Size3M, 2).set_count(BoxSize::Size1M, 1);
    config.set_count(BoxSize::Size3M, 4);
    assert_eq!(config.configured_sizes(), vec![BoxSize::Size3M, BoxSize::Size1M]);
    assert_eq!(config.get_count(BoxSize::Size3M), 4);
    assert_eq!(config.total_count(), 5);
}

#[test]
fn mailbox_errors() {
    let mut config = BoxConfig::new();
    config.set_count(BoxSize::Size1M, 1).set_count(BoxSize::Size4M, 0);
    let mut mailbox = SharedMailbox::new(config).unwrap();
    assert_eq!(
        mailbox.get_empty_box(BoxSize::Size4M),
        Err(MailboxError::InvalidBoxSize(BoxSize::Size4M))
    );
    assert_eq!(mailbox.get_empty_box(BoxSize::Size1M), Ok(1));
    assert_eq!(
        mailbox.get_empty_box(BoxSize::Size1M),
        Err(MailboxError::NoEmptyBox(BoxSize::Size1M))
    );
    let too_big = vec![0u8; 1048577];
    assert_eq!(
        mailbox.write_data(1, &too_big),
        Err(MailboxError::DataTooLarge(1048577, 1048576))
    );
    assert_eq!(mailbox.start_reading(1), Err(MailboxError::NotFull(1)));
    assert_eq!(mailbox.read_data(1), Err(MailboxError::NotReading(1)));
    assert_eq!(mailbox.finish_reading(1), Err(MailboxError::NotReading(1)));
    assert_eq!(mailbox.write_data(7, b"x"), Err(MailboxError::BoxNotFound(7)));
    mailbox.write_data(1, b"x").unwrap();
    assert_eq!(mailbox.write_data(1, b"y"), Err(MailboxError::NotWriting(1)));
    assert_eq!(MailboxError::NotWriting(1).message(), "Box 1 is not in writing state");
    assert_eq!(MailboxError::DataTooLarge(3, 2).message(), "Data too large: 3 > 2");
    assert_eq!(
        MailboxError::InvalidBoxSize(BoxSize::Size4M).message(),
        "Invalid box size: Size4M"
    );
}

#[test]
fn lock_is_exclusive_until_unlocked() {
    let mut mailbox = SharedMailbox::new_with_default().unwrap();
    let lock = mailbox.lock().unwrap();
    assert_eq!(mailbox.lock().unwrap_err(), MailboxError::LockTimeout);
    assert_eq!(mailbox.lock_step(5), LockStep::Yield(6));
    assert_eq!(mailbox.lock_step(999), LockStep::Sleep(1000));
    assert_eq!(mailbox.lock_step(100000), LockStep::GiveUp);
    mailbox.unlock(lock);
    assert_eq!(mailbox.lock_step(0), LockStep::Acquired);
}

#[test]
fn shared_memory_mailbox_attach_rebuilds_index() {
    let mut config = BoxConfig::new();
    config.set_count(BoxSize::Size2M, 1).set_count(BoxSize::Size1M, 2);
    let mut created = SharedMemoryMailbox::create(&config);
    let id = created.get_empty_box(BoxSize::Size1M).unwrap();
    assert_eq!(id, 2);
    created.write_data(id, b"abc").unwrap();

    let boxes = vec![
        BoxMetadata::new(1, BoxSize::Size2M, 80),
        BoxMetadata { id: 2, state: 2, size: 1, data_length: 3, data_ptr: 2097232 },
        BoxMetadata::new(3, BoxSize::Size1M, 3145808),
    ];
    let contents = vec![Vec::new(), b"abc".to_vec(), Vec::new()];
    let mut attached =
        SharedMemoryMailbox::attach(4194384 + 80, MailboxHeader::new(3), boxes, contents);
    let stats = attached.get_stats();
    assert_eq!(stats.total_count, 3);
    assert_eq!(stats.full_count, 1);
    assert_eq!(stats.empty_count, 2);
    assert_eq!(stats.size_counts, vec![(BoxSize::Size2M, 1), (BoxSize::Size1M, 2)]);
    attached.start_reading(2).unwrap();
    assert_eq!(attached.read_data(2).unwrap(), b"abc".to_vec());
    attached.finish_reading(2).unwrap();
    assert_eq!(attached.get_empty_box(BoxSize::Size1M), Ok(2));
}

#[test]
fn header_ids_and_validity() {
    let mut h = MailboxHeader::new(4);
    assert!(h.is_valid());
    assert_eq!(h.get_total_boxes(), 4);
    assert_eq!(h.next_id(), 1);
    assert_eq!(h.next_id(), 2);
    assert!(h.try_lock());
    assert!(!h.try_lock());
    h.unlock();
    assert!(h.try_lock());
    h.magic = 0;
    assert!(!h.is_valid());
}

#[test]
fn box_sizes_and_states() {
    assert_eq!(BoxSize::Size50M.bytes(), 52428800);
    assert_eq!(BoxSize::all_sizes().len(), 13);
    assert_eq!(BoxSize::from_mb(20), BoxSize::Size20M);
    assert_eq!(BoxSize::from_mb(11), BoxSize::Size1M);
    assert_eq!(BoxState::from_code(3), BoxState::Reading);
    assert_eq!(BoxState::from_code(9), BoxState::Empty);
    let mut m = BoxMetadata::new(5, BoxSize::Size7M, 100);
    assert_eq!(m.get_id(), 5);
    assert_eq!(m.get_size(), BoxSize::Size7M);
    m.set_state(BoxState::Full);
    m.set_data_length(12);
    assert_eq!(m.get_state(), BoxState::Full);
    assert_eq!(m.get_data_length(), 12);
    assert_eq!(m.get_data_offset(), 100);
}

#[test]
fn configurations_that_fit() {
    assert!(BoxConfig::default_config().fits());
    let mut huge = BoxConfig::new();
    huge.set_count(BoxSize::Size100M, usize::MAX / 2);
    assert!(!huge.fits());
}

#[test]
fn mailbox_bytes_round_trip() {
    let h = mi7::shared_box::MailboxHeader::new(3);
    let back = mi7::shared_box::MailboxHeader::from_bytes(&h.to_bytes());
    assert_eq!((back.magic, back.version, back.total_boxes, back.lock, back.next_box_id),
        (h.magic, h.version, h.total_boxes, h.lock, h.next_box_id));
    let m = mi7::shared_box::BoxMetadata::new(7, BoxSize::Size2M, 380);
    let bytes = m.to_bytes();
    assert_eq!(bytes.len(), 20);
    let back = mi7::shared_box::BoxMetadata::from_bytes(&bytes);
    assert_eq!((back.id, back.state, back.size, back.data_length, back.data_ptr),
        (m.id, m.state, m.size, m.data_length, m.data_ptr));
}

#[test]
fn header_ids_run_upward_from_one() {
    let mut h = MailboxHeader::new(2);
    let ids: Vec<u32> = (0..5).map(|_| h.next_id()).collect();
    assert_eq!(ids, vec![1, 2, 3, 4, 5]);
    assert_eq!(h.next_box_id, 6);
}
