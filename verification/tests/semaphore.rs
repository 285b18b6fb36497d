use mea::semaphore::Semaphore;

#[test]
fn no_permits() {
    // this should not panic
    Semaphore::new(0);
}

#[test]
fn try_acquire() {
    let mut sem = Semaphore::new(1);
    {
        let p1 = sem.try_acquire(1);
        assert!(p1.is_some());
        let p2 = sem.try_acquire(1);
        assert!(p2.is_none());
        sem.release_permit(p1.unwrap());
    }
    let p3 = sem.try_acquire(1);
    assert!(p3.is_some());
}

#[test]
fn forget() {
    let mut sem = Semaphore::new(1);
    {
        let p = sem.try_acquire(1).unwrap();
        assert_eq!(sem.available_permits(), 0);
        p.forget();
        assert_eq!(sem.available_permits(), 0);
    }
    assert_eq!(sem.available_permits(), 0);
    assert!(sem.try_acquire(1).is_none());
}

#[test]
fn add_max_amount_permits() {
    let mut s = Semaphore::new(0);
    s.release(u32::MAX);
    assert_eq!(s.available_permits(), u32::MAX);
}

#[test]
fn no_panic_at_max_permits() {
    let _ = Semaphore::new(u32::MAX);
    let mut s = Semaphore::new(u32::MAX - 1);
    s.release(1);
}

#[test]
fn try_acquire_concurrently() {
    let mut s = Semaphore::new(1);
    let p1 = s.try_acquire(1).unwrap();
    assert_eq!(s.available_permits(), 0);
    let p2 = s.try_acquire(1);
    assert!(p2.is_none());
    assert_eq!(s.available_permits(), 0);
    s.release_permit(p1);
    assert_eq!(s.available_permits(), 1);
}

#[test]
fn acquire() {
    let mut sem = Semaphore::new(1);
    let p1 = sem.try_acquire(1).unwrap();
    let mut fut = sem.acquire(1);
    assert!(sem.poll_acquire(&mut fut, 7).is_none());
    let woken = sem.release_permit(p1);
    assert_eq!(woken, vec![7]);
    let p2 = sem.poll_acquire(&mut fut, 7);
    assert_eq!(p2.map(|p| p.permits()), Some(1));
    assert_eq!(sem.available_permits(), 0);
}

#[test]
fn add_permits() {
    let mut sem = Semaphore::new(0);
    let mut fut = sem.acquire(1);
    assert!(sem.poll_acquire(&mut fut, 3).is_none());
    assert_eq!(sem.release(1), vec![3]);
    assert!(sem.poll_acquire(&mut fut, 3).is_some());
}

#[test]
fn release_serves_waiters_in_order() {
    let mut sem = Semaphore::new(0);
    let mut a = sem.acquire(2);
    let mut b = sem.acquire(1);
    let mut c = sem.acquire(3);
    assert!(sem.poll_acquire(&mut a, 1).is_none());
    assert!(sem.poll_acquire(&mut b, 2).is_none());
    assert!(sem.poll_acquire(&mut c, 3).is_none());
    // 2 permits serve the first waiter only; the second must wait its turn.
    assert_eq!(sem.release(2), vec![1]);
    assert_eq!(sem.available_permits(), 0);
    // 2 more: the second is served (1), the third gets 1 of its 3.
    assert_eq!(sem.release(2), vec![2]);
    assert_eq!(sem.available_permits(), 0);
    // 2 more complete the third; nothing is left over.
    assert_eq!(sem.release(2), vec![3]);
    assert_eq!(sem.available_permits(), 0);
    assert!(sem.poll_acquire(&mut a, 1).is_some());
    assert!(sem.poll_acquire(&mut b, 2).is_some());
    assert!(sem.poll_acquire(&mut c, 3).is_some());
}

#[test]
fn release_leftover_becomes_available() {
    let mut sem = Semaphore::new(0);
    let mut a = sem.acquire(2);
    assert!(sem.poll_acquire(&mut a, 1).is_none());
    assert_eq!(sem.release(5), vec![1]);
    assert_eq!(sem.available_permits(), 3);
}

#[test]
fn cancel_returns_partial_grant() {
    let mut sem = Semaphore::new(1);
    let mut a = sem.acquire(3);
    // takes the one available permit and waits for two more
    assert!(sem.poll_acquire(&mut a, 1).is_none());
    assert_eq!(sem.available_permits(), 0);
    let mut b = sem.acquire(1);
    assert!(sem.poll_acquire(&mut b, 2).is_none());
    // dropping the first future hands its permit on to the next waiter
    let woken = sem.cancel_acquire(&mut a);
    assert_eq!(woken, vec![2]);
    assert!(sem.poll_acquire(&mut b, 2).is_some());
    assert_eq!(sem.available_permits(), 0);
}

#[test]
fn forget_takes_available_only() {
    let mut sem = Semaphore::new(5);
    assert_eq!(sem.forget(2), 2);
    assert_eq!(sem.available_permits(), 3);
    assert_eq!(sem.forget(10), 3);
    assert_eq!(sem.available_permits(), 0);
    assert_eq!(sem.forget(0), 0);
}

#[test]
fn three_permits_taken_one_and_two() {
    let mut semaphore = Semaphore::new(3);
    let mut a = semaphore.acquire(1);
    let _a_permit = semaphore.poll_acquire(&mut a, 1).unwrap();
    let mut b = semaphore.acquire(2);
    let _two_permits = semaphore.poll_acquire(&mut b, 2).unwrap();

    assert_eq!(semaphore.available_permits(), 0);

    let permit_attempt = semaphore.try_acquire(1);
    assert!(permit_attempt.is_none());
}
