use mi7::shared_ring::{LockOutcome, RingQueue};

#[test]
fn push_and_pop_in_order() {
    let mut q = RingQueue::new(2, 4);
    assert_eq!(q.push(LockOutcome::Acquired, &[1, 2]), Ok(1));
    assert_eq!(q.push(LockOutcome::Acquired, &[3, 4, 5, 6, 7]), Ok(2));
    assert_eq!(q.push(LockOutcome::Acquired, &[8]), Err("队列已满"));
    assert_eq!(q.pop(LockOutcome::Acquired), Some((1, vec![1, 2, 0, 0])));
    assert_eq!(q.pop(LockOutcome::Acquired), Some((2, vec![3, 4, 5, 6])));
    assert_eq!(q.pop(LockOutcome::Acquired), None);
}

#[test]
fn stale_bytes_stay_behind_a_short_message() {
    let mut q = RingQueue::new(1, 4);
    q.push(LockOutcome::Acquired, &[9, 9, 9, 9]).unwrap();
    q.pop(LockOutcome::Acquired).unwrap();
    q.push(LockOutcome::Acquired, &[1]).unwrap();
    assert_eq!(q.pop(LockOutcome::Acquired), Some((2, vec![1, 9, 9, 9])));
}

#[test]
fn failed_locks_change_nothing() {
    let mut q = RingQueue::new(2, 2);
    assert_eq!(q.push(LockOutcome::Failed, &[1]), Err("Failed to lock tail mutex"));
    assert_eq!(q.pop(LockOutcome::Failed), None);
    assert_eq!(q.push(LockOutcome::OwnerDied, &[1]), Ok(1));
    assert_eq!(q.pop(LockOutcome::OwnerDied), Some((1, vec![1, 0])));
}

#[test]
fn message_count_follows_pushes_and_pops() {
    let mut q = RingQueue::new(3, 4);
    assert_eq!(q.message_count(), 0);
    q.push(LockOutcome::Acquired, &[1]).unwrap();
    q.push(LockOutcome::Acquired, &[2]).unwrap();
    assert_eq!(q.message_count(), 2);
    q.pop(LockOutcome::Acquired).unwrap();
    assert_eq!(q.message_count(), 1);
    assert!(q.push(LockOutcome::Failed, &[3]).is_err());
    assert_eq!(q.message_count(), 1);
}
