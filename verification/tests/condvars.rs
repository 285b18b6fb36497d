use mea::condvar;
use mea::primitives::condvar::Condvar;
use mea::primitives::mutex::Mutex;

#[test]
fn notify_all() {
    let mut m = Mutex::new(0u32);
    let mut c = Condvar::new();

    // ten tasks lock, see a zero count and wait
    let mut waits = Vec::new();
    for task in 1..=10u64 {
        let mut fut = m.lock();
        let guard = m.poll_lock(&mut fut, task).unwrap();
        assert_eq!(*guard.get(), 0);
        let mut w = c.wait(guard);
        let (ready, guard) = c.poll_notify(&mut w, task);
        assert!(!ready);
        m.unlock(guard.unwrap());
        waits.push((task, w));
    }

    {
        let mut fut = m.lock();
        let mut count = m.poll_lock(&mut fut, 0).unwrap();
        *count.get_mut() += 1;
        let mut woken = c.notify_all();
        woken.sort();
        assert_eq!(woken, (1..=10).collect::<Vec<u64>>());
        m.unlock(count);
    }

    for (task, mut w) in waits {
        let (ready, _) = c.poll_notify(&mut w, task);
        assert!(ready);
        let mut fut = m.lock();
        let mut count = m.poll_lock(&mut fut, task).unwrap();
        assert!(*count.get() != 0);
        *count.get_mut() += 1;
        m.unlock(count);
    }
    let mut fut = m.lock();
    let count = m.poll_lock(&mut fut, 0).unwrap();
    assert_eq!(11, *count.get());
}

#[test]
fn notify_one_wakes_the_earliest_waiter() {
    let mut c = Condvar::new();
    let mut w1 = c.wait(());
    let mut w2 = c.wait(());
    assert!(!c.poll_notify(&mut w1, 1).0);
    assert!(!c.poll_notify(&mut w2, 2).0);
    assert_eq!(c.notify_one(), Some(1));
    assert!(c.poll_notify(&mut w1, 1).0);
    assert!(!c.poll_notify(&mut w2, 2).0);
    assert_eq!(c.notify_one(), Some(2));
    assert_eq!(c.notify_one(), None);
}

#[test]
fn cancelled_notified_wait_passes_the_notification_on() {
    let mut c = Condvar::new();
    let mut w1 = c.wait(());
    let mut w2 = c.wait(());
    assert!(!c.poll_notify(&mut w1, 1).0);
    assert!(!c.poll_notify(&mut w2, 2).0);
    assert_eq!(c.notify_one(), Some(1));
    assert_eq!(c.cancel_notify(w1), Some(2));
    assert!(c.poll_notify(&mut w2, 2).0);
}

#[test]
fn fifo_condvar_wakes_in_queue_order() {
    let mut c = condvar::Condvar::new();
    let mut a = c.wait(());
    let mut b = c.wait(());
    let mut d = c.wait(());
    assert!(!c.poll_notify(&mut a, 1).0);
    assert!(!c.poll_notify(&mut b, 2).0);
    assert!(!c.poll_notify(&mut d, 3).0);
    assert_eq!(c.notify_one(), Some(1));
    assert!(c.poll_notify(&mut a, 1).0);
    // cancelling a queued waiter takes it out of line
    c.cancel_notify(b);
    assert_eq!(c.notify_all(), vec![3]);
    assert!(c.poll_notify(&mut d, 3).0);
}
