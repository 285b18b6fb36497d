use mea::wait_group::{MaybeTimedOut, WaitGroup as WeakWaitGroup};
use mea::waitgroup::WaitGroup;

#[test]
fn tests_test_wait_group_drop() {
    let mut wg = WaitGroup::new();
    for _i in 0..100 {
        wg.clone_handle();
    }
    let (mut fut, _) = wg.into_future();
    assert!(!wg.poll_wait(&mut fut, 0));
    let mut woken = Vec::new();
    for _i in 0..100 {
        woken.extend(wg.drop_handle());
    }
    assert_eq!(woken, vec![0]);
    assert!(wg.poll_wait(&mut fut, 0));
}

#[test]
fn tests_test_wait_group_await() {
    let mut wg = WaitGroup::new();
    let mut futures = Vec::new();
    for i in 0..100u64 {
        wg.clone_handle();
        let (mut f, woken) = wg.into_future();
        assert!(woken.is_empty());
        assert!(!wg.poll_wait(&mut f, i + 1));
        futures.push((i + 1, f));
    }
    let (mut fut, mut woken) = wg.into_future();
    assert!(wg.poll_wait(&mut fut, 0));
    woken.sort();
    assert_eq!(woken, (1..=100).collect::<Vec<u64>>());
    for (task, mut f) in futures {
        assert!(wg.poll_wait(&mut f, task));
    }
}

#[test]
fn tests_test_wait_group_timeout() {
    let mut wg = WaitGroup::new();
    wg.clone_handle();
    let (mut fut, _) = wg.into_future();
    // a handle is still alive, so the wait does not complete
    assert!(!wg.poll_wait(&mut fut, 1));
    assert!(!wg.poll_wait(&mut fut, 1));
}

#[test]
fn waitgroup_test_wait_group_drop() {
    let mut wg = WeakWaitGroup::new();
    for _i in 0..100 {
        wg.clone_handle();
    }
    let (mut fut, _) = wg.wait();
    assert!(!wg.poll(&mut fut, 0));
    let mut woken = Vec::new();
    for _i in 0..100 {
        woken.extend(wg.drop_handle());
    }
    assert_eq!(woken, vec![0]);
    assert!(wg.poll(&mut fut, 0));
}

#[test]
fn waitgroup_test_wait_group_await() {
    let mut wg = WeakWaitGroup::new();
    let mut futures = Vec::new();
    for i in 0..100u64 {
        wg.clone_handle();
        let (mut f, woken) = wg.wait();
        assert!(woken.is_empty());
        assert!(!wg.poll(&mut f, i + 1));
        futures.push((i + 1, f));
    }
    let (mut fut, mut woken) = wg.wait();
    assert!(wg.poll(&mut fut, 0));
    woken.sort();
    assert_eq!(woken, (1..=100).collect::<Vec<u64>>());
    for (task, mut f) in futures {
        assert!(wg.poll(&mut f, task));
    }
}

#[test]
fn waitgroup_test_wait_group_timeout() {
    let mut wg = WeakWaitGroup::new();
    wg.clone_handle();
    let (mut fut, _) = wg.wait_timeout(());
    assert_eq!(wg.poll_timeout(&mut fut, None::<()>, 1), None);
    let out = wg.poll_timeout(&mut fut, Some(()), 1);
    assert_eq!(out, Some(MaybeTimedOut::TimedOut(())));
}

#[test]
fn wait_with_timeout_completes_when_handles_are_gone() {
    let mut wg = WeakWaitGroup::new();
    wg.clone_handle();
    let (mut fut, _) = wg.wait_timeout(5u8);
    assert_eq!(wg.poll_timeout(&mut fut, None::<u8>, 1), None);
    assert_eq!(wg.drop_handle(), vec![1]);
    assert_eq!(*fut.timer(), 5);
    assert_eq!(wg.poll_timeout(&mut fut, None::<u8>, 1), Some(MaybeTimedOut::Completed));
}
