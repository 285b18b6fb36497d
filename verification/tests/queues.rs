use mea::countdown::CountdownState;
use mea::lock_queue::{LockQueueSyncer, Node, WAITING};
use mea::slots::WaitNode;
use mea::wait_list::WaitList;
use mea::wait_queue::WaitQueueSync;
use mea::waiters::Waiters;
use mea::waitset::WaitSet;
use mea::wakerset::WakerSet;

#[test]
fn wait_queue_wakes_waiters_in_order_once_zero() {
    let mut q = WaitQueueSync::new(2);
    assert_eq!(q.state(), 2);
    assert_eq!(q.acquire_shared_on_state_is_zero(1), (false, None));
    assert_eq!(q.acquire_shared_on_state_is_zero(2), (false, None));
    // a release that does not reach zero wakes nobody
    assert_eq!(q.release_shared_by_one(), None);
    assert_eq!(q.state(), 1);
    // the release that reaches zero wakes the oldest waiter
    assert_eq!(q.release_shared_by_one(), Some(1));
    assert_eq!(q.state(), 0);
    // a successful acquire passes the wake-up on to the next waiter
    assert_eq!(q.acquire_shared_on_state_is_zero(1), (true, Some(2)));
    assert_eq!(q.acquire_shared_on_state_is_zero(2), (true, None));
    // releasing a zero counter does nothing
    assert_eq!(q.release_shared_by_n(5), None);
    assert_eq!(q.state(), 0);
}

#[test]
fn wait_queue_release_by_n_saturates() {
    let mut q = WaitQueueSync::new(3);
    assert_eq!(q.acquire_shared(9), (None, None));
    assert_eq!(q.release_shared_by_n(10), Some(9));
    assert_eq!(q.state(), 0);
    assert_eq!(q.cas_state(1, 4), Err(0));
    assert_eq!(q.cas_state(0, 4), Ok(()));
    assert_eq!(q.state(), 4);
}

#[test]
fn lock_queue_acquire_and_release() {
    let mut s = LockQueueSyncer::new(0);
    // free while the counter is zero; an acquire sets it to one
    let try_acquire = |state: u32, _arg: u32| -> (i8, u32) {
        if state == 0 {
            (0, 1)
        } else {
            (-1, state)
        }
    };
    assert!(s.acquire_shared(1, 0, try_acquire));
    assert_eq!(s.state(), 1);
    // the next two wait in line
    assert!(!s.acquire_shared(2, 0, try_acquire));
    assert!(!s.acquire_shared(3, 0, try_acquire));
    assert_eq!(s.state(), 1);
    // a release that frees the counter signals the first waiter only
    let release = |_state: u32, _arg: u32| -> (u32, bool) { (0, true) };
    assert_eq!(s.release_shared(0, release), (true, Some(2)));
    assert_eq!(s.state(), 0);
    // signalled once: a second release finds its WAITING bit cleared
    assert_eq!(s.release_shared(0, release), (true, None));
    // a release that lets nobody through signals nobody
    let keep = |state: u32, _arg: u32| -> (u32, bool) { (state, false) };
    assert_eq!(s.release_shared(0, keep), (false, None));
    assert_eq!(s.cas_state(0, 7), Ok(()));
    assert_eq!(s.cas_state(0, 8), Err(7));
}

#[test]
fn lock_queue_first_waiter_becomes_head() {
    let mut s = LockQueueSyncer::new(0);
    // the first two tries fail and the third succeeds: the waiter, first in
    // line, acquires and becomes the head, leaving nobody waiting
    let tries = std::cell::Cell::new(0);
    let try_acquire = |_state: u32, _arg: u32| -> (i8, u32) {
        tries.set(tries.get() + 1);
        if tries.get() >= 3 {
            (1, 5)
        } else {
            (-1, 0)
        }
    };
    assert!(s.acquire_shared(1, 0, &try_acquire));
    assert_eq!(s.state(), 5);
    assert_eq!(tries.get(), 3);
    let release = |_state: u32, _arg: u32| -> (u32, bool) { (0, true) };
    assert_eq!(s.release_shared(0, release), (true, None));
}

#[test]
fn lock_queue_nodes() {
    let mut n = Node::new(true, 4);
    assert!(n.is_shared());
    assert_eq!(n.status(), 0);
    n.set_status(WAITING);
    assert_eq!(n.fetch_unset_status(WAITING), WAITING);
    assert_eq!(n.status(), 0);
    assert_eq!(n.wake(), Some(4));
    n.set_waker(5);
    assert_eq!(n.wake(), Some(5));
    n.unset_waker();
    assert_eq!(n.wake(), None);
    n.set_next(Some(3));
    n.set_prev(Some(1));
    assert_eq!(n.next(), Some(3));
    assert_eq!(n.prev(), Some(1));
    let h = Node::new_head();
    assert!(!h.is_shared());
    assert_eq!(h.wake(), None);
}

#[test]
fn countdown_state_counts_down_and_wakes() {
    let mut c = CountdownState::new(2);
    let mut idx = None;
    c.register_waker(&mut idx, 11);
    assert!(idx.is_some());
    assert_eq!(c.spin_wait(3), Err(2));
    assert!(!c.decrement(1));
    assert!(c.decrement(5));
    assert_eq!(c.state(), 0);
    assert_eq!(c.spin_wait(0), Ok(()));
    assert_eq!(c.wake_all(), vec![11]);
    c.increment();
    assert_eq!(c.state(), 1);
    assert_eq!(c.cas_state(1, 0), Ok(()));
    assert_eq!(c.cas_state(1, 0), Err(0));
}

#[test]
fn waiters_reuse_freed_slots() {
    let mut w = Waiters::new();
    let mut a = None;
    let mut b = None;
    w.upsert(&mut a, 1);
    w.upsert(&mut b, 2);
    assert_ne!(a, b);
    // upserting again replaces the task in place
    let before = a;
    w.upsert(&mut a, 3);
    assert_eq!(a, before);
    w.remove(&mut b);
    assert_eq!(b, None);
    let mut c = None;
    w.upsert(&mut c, 4);
    let mut woken = w.wake_all();
    woken.sort();
    assert_eq!(woken, vec![3, 4]);
    assert!(w.wake_all().is_empty());
}

#[test]
fn wait_set_wakes_every_registered_task() {
    let mut s = WaitSet::with_capacity(4);
    let mut a = None;
    let mut b = None;
    s.register_waker(&mut a, 1);
    s.register_waker(&mut b, 2);
    s.register_waker(&mut a, 3);
    let mut woken = s.wake_all();
    woken.sort();
    assert_eq!(woken, vec![2, 3]);
    let mut plain = WaitSet::new();
    assert!(plain.wake_all().is_empty());
}

#[test]
fn waker_set_notifies_least_key_first() {
    let mut s = WakerSet::new();
    let k1 = s.insert(1);
    let k2 = s.insert(2);
    assert!(!s.remove_if_notified(k1, 1));
    assert_eq!(s.notify_one(), Some(1));
    assert!(s.remove_if_notified(k1, 1));
    let (any, woken) = s.notify_all();
    assert!(any);
    assert_eq!(woken, vec![2]);
    assert_eq!(s.notify_one(), None);
    assert_eq!(s.cancel(k2), None);
}

#[test]
fn wait_list_links_tail_and_head() {
    let mut l = WaitList::new();
    assert!(l.is_empty());
    let mut a = None;
    let mut b = None;
    l.register_waiter_to_tail(&mut a, WaitNode { permits: 1, waker: Some(1) });
    l.registry_waiter_to_head(&mut b, WaitNode { permits: 2, waker: Some(2) });
    assert_eq!(l.first(), b);
    let bk = b.unwrap();
    assert!(l.is_linked(bk));
    assert_eq!(l.get_stat(bk).permits, 2);
    l.set_stat(bk, WaitNode { permits: 5, waker: None });
    assert_eq!(l.get_stat(bk).permits, 5);
    assert!(l.remove_waiter(bk));
    assert!(!l.is_linked(bk));
    // removing a waiter that is no longer linked only reports it
    assert!(!l.remove_waiter(bk));
    l.free_waiter(bk);
    assert_eq!(l.first(), a);
    assert!(!l.is_empty());
    assert_eq!(l.remove_first_waiter(), a);
    assert!(l.is_empty());
    assert_eq!(l.remove_first_waiter(), None);
}

#[test]
fn waiters_reuse_the_last_freed_key_first() {
    let mut w = Waiters::new();
    let (mut a, mut b, mut c, mut d, mut e, mut f) = (None, None, None, None, None, None);
    w.upsert(&mut a, 7);
    w.upsert(&mut b, 7);
    w.upsert(&mut c, 7);
    w.remove(&mut a);
    w.remove(&mut b);
    w.upsert(&mut d, 7);
    w.upsert(&mut e, 7);
    w.upsert(&mut f, 7);
    assert_eq!((a, b, c, d, e, f), (None, None, Some(2), Some(1), Some(0), Some(3)));
    w.wake_all();
    let mut g = None;
    w.upsert(&mut g, 8);
    assert_eq!(g, Some(0));
}
