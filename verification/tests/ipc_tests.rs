use mi7::ipc::{
    after_lock_attempt, random, try_receive_outcome, DataStorageType, LargeDataManager, Message, MessageRing,
    QueueHeader, SharedMemoryError,
};

#[test]
fn random_follows_the_generator() {
    let mut seed: u64 = 1;
    let a = random(&mut seed);
    assert_eq!(a, 1103515245u64 + 12345);
    assert_eq!(seed, a);
    let b = random(&mut seed);
    assert_eq!(b, a.wrapping_mul(1103515245).wrapping_add(12345));
    let mut big: u64 = u64::MAX;
    let c = random(&mut big);
    assert_eq!(c, u64::MAX.wrapping_mul(1103515245).wrapping_add(12345));
}

#[test]
fn message_takes_next_id() {
    let mut seed: u64 = 1;
    let m = Message::with_timestamp("hé".to_string(), vec![1, 2], &mut seed, 77);
    assert_eq!(m.id, 1103515245u64 + 12345);
    assert_eq!(m.data, "hé".as_bytes().to_vec());
    assert_eq!(m.timestamp, 77);
    let n = Message::new("x".to_string(), vec![], &mut seed);
    assert_eq!(n.id, m.id.wrapping_mul(1103515245).wrapping_add(12345));
    assert!(n.timestamp > 0);
}

#[test]
fn large_data_paths() {
    let mgr = LargeDataManager::new("/tmp/base".to_string());
    let r = mgr.store_reference(42, 1000);
    assert_eq!(r.id, "large_data_42");
    assert_eq!(r.size, 1000);
    match &r.storage_type {
        DataStorageType::File(p) => assert_eq!(p, "/tmp/base/large_data_42"),
        _ => panic!("expected a file"),
    }
    assert_eq!(mgr.load_path(&r).unwrap(), "/tmp/base/large_data_42");
    let shm = mi7::ipc::LargeDataReference {
        id: "x".to_string(),
        size: 1,
        storage_type: DataStorageType::SharedMemory,
    };
    match mgr.load_path(&shm) {
        Err(SharedMemoryError::AccessFailed(m)) => assert_eq!(m, "SharedMemory storage not implemented"),
        _ => panic!("expected an access error"),
    }
}

#[test]
fn header_starts_empty() {
    let h = QueueHeader::new(8);
    assert_eq!((h.capacity, h.head, h.tail, h.message_count, h.lock), (8, 0, 0, 0, 0));
}

#[test]
fn ring_is_first_in_first_out() {
    let mut q = MessageRing::new(3);
    assert!(q.is_empty());
    assert!(matches!(q.receive_frame(), Err(SharedMemoryError::QueueEmpty)));
    q.send_frame(b"one").unwrap();
    q.send_frame(b"two").unwrap();
    q.send_frame(b"three").unwrap();
    assert!(matches!(q.send_frame(b"four"), Err(SharedMemoryError::QueueFull)));
    assert_eq!(q.receive_frame().unwrap(), b"one".to_vec());
    q.commit_receive();
    q.send_frame(b"four").unwrap();
    let s = q.status();
    assert_eq!((s.capacity, s.message_count, s.head, s.tail), (3, 3, 1, 1));
    for want in [&b"two"[..], &b"three"[..], &b"four"[..]] {
        assert_eq!(q.receive_frame().unwrap(), want.to_vec());
        q.commit_receive();
    }
    assert!(q.is_empty());
}

#[test]
fn ring_refuses_oversized_and_flags_overlong() {
    let mut q = MessageRing::new(2);
    let big = vec![7u8; 4097];
    assert!(matches!(q.send_frame(&big), Err(SharedMemoryError::InvalidSize)));
    let full = vec![9u8; 4096];
    q.send_frame(&full).unwrap();
    match q.receive_frame() {
        Err(SharedMemoryError::CorruptedData(m)) => assert_eq!(m, "消息长度无效"),
        _ => panic!("expected corrupted data"),
    }
}

#[test]
fn ring_with_no_capacity_is_always_full() {
    let mut q = MessageRing::new(0);
    assert!(matches!(q.send_frame(b"x"), Err(SharedMemoryError::QueueFull)));
    assert!(matches!(q.receive_frame(), Err(SharedMemoryError::QueueEmpty)));
}

#[test]
fn ring_parts_round_trip() {
    let mut q = MessageRing::new(2);
    q.send_frame(b"abc").unwrap();
    let (h, region) = q.into_parts();
    assert_eq!(&region[0..7], &[3, 0, 0, 0, b'a', b'b', b'c']);
    let q2 = MessageRing::from_parts(h, region).unwrap();
    assert_eq!(q2.receive_frame().unwrap(), b"abc".to_vec());
    let bad = QueueHeader { capacity: 2, head: 0, tail: 1, message_count: 0, lock: 0 };
    assert!(MessageRing::from_parts(bad, vec![0; 2 * 4096 + 4]).is_none());
}

#[test]
fn try_receive_answers() {
    assert!(matches!(try_receive_outcome::<u8>(Ok(3)), Ok(Some(3))));
    assert!(matches!(try_receive_outcome::<u8>(Err(SharedMemoryError::QueueEmpty)), Ok(None)));
    assert!(matches!(try_receive_outcome::<u8>(Err(SharedMemoryError::InvalidSize)), Err(SharedMemoryError::InvalidSize)));
}

#[test]
fn shared_memory_error_messages() {
    assert_eq!(SharedMemoryError::QueueFull.message(), "队列已满");
    assert_eq!(SharedMemoryError::CreationFailed("x".to_string()).message(), "创建失败: x");
    assert!(SharedMemoryError::QueueEmpty.is_queue_empty());
    assert!(!SharedMemoryError::QueueEmpty.is_queue_full());
}

#[test]
fn lock_attempts_give_up_after_the_limit() {
    assert!(matches!(after_lock_attempt(true, 5), Ok(None)));
    assert!(matches!(after_lock_attempt(false, 0), Ok(Some(1))));
    assert!(matches!(after_lock_attempt(false, 9999), Ok(Some(10000))));
    match after_lock_attempt(false, 10000) {
        Err(SharedMemoryError::LockFailed(m)) => assert_eq!(m, "获取锁超时"),
        _ => panic!("expected a lock failure"),
    }
}
