use mea::channel::{bounded, unbounded, RecvWait, SendPoll, SendWait, TryRecvError, TrySendError};
use mea::mpsc;

#[test]
fn test_unbounded() {
    let (tx, rx, mut shared) = unbounded::<u32>();

    let mut senders = Vec::new();
    for _ in 0..100 {
        senders.push(tx.clone(&mut shared));
    }
    tx.drop(&mut shared);
    for (i, s) in senders.into_iter().enumerate() {
        let mut st = SendWait::new();
        let (r, _) = s.poll_send(&mut shared, i as u32, &mut st, i as u64);
        assert_eq!(r, SendPoll::Ready(Ok(())));
        s.drop(&mut shared);
    }

    let mut sum = 0;
    let mut st = RecvWait::new();
    loop {
        let (r, _) = rx.poll_recv(&mut shared, &mut st, 1000);
        match r {
            Some(Ok(i)) => sum += i,
            Some(Err(_)) => break,
            None => panic!("a disconnected channel never makes a receive wait"),
        }
    }
    assert_eq!(sum, 4950);
}

#[test]
fn try_recv_unbounded() {
    for num in 0..100u32 {
        let (tx, rx, mut shared) = unbounded();

        for i in 0..num {
            tx.try_send(&mut shared, i).0.unwrap();
        }

        for i in 0..num {
            assert_eq!(rx.try_recv(&mut shared).0, Ok(i));
        }

        assert_eq!(rx.try_recv(&mut shared).0, Err(TryRecvError::Empty));
        tx.drop(&mut shared);
        assert_eq!(rx.try_recv(&mut shared).0, Err(TryRecvError::Disconnected));
    }
}

#[test]
fn try_recv_close_while_empty_unbounded() {
    let (tx, rx, mut shared) = unbounded::<()>();

    assert_eq!(Err(TryRecvError::Empty), rx.try_recv(&mut shared).0);
    tx.drop(&mut shared);
    assert_eq!(Err(TryRecvError::Disconnected), rx.try_recv(&mut shared).0);
}

#[test]
fn try_send_recv_bounded() {
    for num in 1..101usize {
        let (tx, rx, mut shared) = bounded(num);

        for i in 0..num {
            tx.try_send(&mut shared, i).0.unwrap();
        }

        assert_eq!(tx.try_send(&mut shared, num).0, Err(TrySendError::Full(num)));

        for i in 0..num {
            assert_eq!(rx.try_recv(&mut shared).0, Ok(i));
        }

        assert_eq!(rx.try_recv(&mut shared).0, Err(TryRecvError::Empty));
        tx.drop(&mut shared);
        assert_eq!(rx.try_recv(&mut shared).0, Err(TryRecvError::Disconnected));
    }
}

#[test]
fn try_send_after_close_bounded() {
    let (tx, rx, mut shared) = bounded(1);

    tx.try_send(&mut shared, 1).0.unwrap();
    rx.drop(&mut shared);

    assert_eq!(tx.try_send(&mut shared, 3).0, Err(TrySendError::Disconnected(3)));
}

#[test]
fn bounded_send_waits_for_room() {
    let (tx, rx, mut shared) = bounded(1);
    let mut a = SendWait::new();
    assert_eq!(tx.poll_send(&mut shared, 1, &mut a, 1).0, SendPoll::Ready(Ok(())));
    let mut b = SendWait::new();
    assert_eq!(tx.poll_send(&mut shared, 2, &mut b, 2).0, SendPoll::Pending(2));
    // receiving makes room and wakes the waiting sender
    let (r, woken) = rx.try_recv(&mut shared);
    assert_eq!(r, Ok(1));
    assert_eq!(woken, vec![2]);
    assert_eq!(tx.poll_send(&mut shared, 2, &mut b, 2).0, SendPoll::Ready(Ok(())));
    assert_eq!(rx.try_recv(&mut shared).0, Ok(2));
}

#[test]
fn receive_waits_for_a_value() {
    let (tx, rx, mut shared) = unbounded();
    let mut st = RecvWait::new();
    assert!(rx.poll_recv(&mut shared, &mut st, 4).0.is_none());
    let (r, woken) = tx.try_send(&mut shared, "x");
    assert_eq!(r, Ok(()));
    assert_eq!(woken, vec![4]);
    assert_eq!(rx.poll_recv(&mut shared, &mut st, 4).0, Some(Ok("x")));
}

#[test]
fn disconnect_wakes_waiting_receiver() {
    let (tx, rx, mut shared) = unbounded::<u8>();
    let mut st = RecvWait::new();
    assert!(rx.poll_recv(&mut shared, &mut st, 6).0.is_none());
    assert_eq!(tx.drop(&mut shared), vec![6]);
    assert!(matches!(rx.poll_recv(&mut shared, &mut st, 6).0, Some(Err(_))));
}

#[test]
fn send_after_every_receiver_is_gone_fails() {
    let (tx, rx, mut shared) = bounded(4);
    rx.drop(&mut shared);
    let mut st = SendWait::new();
    match tx.poll_send(&mut shared, 5, &mut st, 1).0 {
        SendPoll::Ready(Err(e)) => assert_eq!(e.0, 5),
        _ => panic!("expected the value back"),
    }
}

#[test]
fn test_unbounded_sum() {
    let (tx, mut rx, mut state) = mpsc::unbounded();
    let mut senders = Vec::new();
    for _ in 0..100 {
        senders.push(tx.clone(&mut state));
    }
    tx.drop(&mut state);
    for (i, s) in senders.into_iter().enumerate() {
        s.send(&mut state, i);
        s.drop(&mut state);
    }
    let mut sum = 0;
    while let Some(Some(i)) = rx.poll_recv(&mut state, 1) {
        sum += i;
    }
    assert_eq!(sum, 4950);
}

#[test]
fn send_recv_unbounded() {
    let (tx, mut rx, mut state) = mpsc::unbounded::<i32>();

    tx.send(&mut state, 1);
    tx.send(&mut state, 2);

    assert_eq!(rx.poll_recv(&mut state, 1), Some(Some(1)));
    assert_eq!(rx.poll_recv(&mut state, 1), Some(Some(2)));

    tx.drop(&mut state);

    assert_eq!(rx.poll_recv(&mut state, 1), Some(None));
}

#[test]
fn mpsc_receiver_is_woken_by_send() {
    let (tx, mut rx, mut state) = mpsc::unbounded();
    assert_eq!(rx.poll_recv(&mut state, 3), None);
    assert_eq!(tx.send(&mut state, 10), Some(3));
    assert_eq!(tx.send(&mut state, 11), None);
    assert_eq!(rx.poll_recv(&mut state, 3), Some(Some(10)));
    assert_eq!(rx.poll_recv(&mut state, 3), Some(Some(11)));
    assert_eq!(rx.poll_recv(&mut state, 3), None);
    // the last sender's drop wakes the waiting receiver, which sees the end
    assert_eq!(tx.drop(&mut state), Some(3));
    assert_eq!(rx.poll_recv(&mut state, 3), Some(None));
}

#[test]
fn cancelled_notified_receive_passes_the_notification_on() {
    let (tx, rx, mut shared) = unbounded::<u8>();
    let rx2 = rx.clone(&mut shared);
    let mut a = RecvWait::new();
    let mut b = RecvWait::new();
    assert!(rx.poll_recv(&mut shared, &mut a, 1).0.is_none());
    assert!(rx2.poll_recv(&mut shared, &mut b, 2).0.is_none());
    assert_eq!(tx.try_send(&mut shared, 9).1, vec![1]);
    // the notified receive is dropped: the other one is woken instead
    assert_eq!(rx.cancel_recv(&mut shared, a), Some(2));
    assert_eq!(rx2.poll_recv(&mut shared, &mut b, 2).0, Some(Ok(9)));
    // dropping a receive that never waited wakes nobody
    assert_eq!(rx.cancel_recv(&mut shared, RecvWait::new()), None);
}

#[test]
fn last_receiver_drop_wakes_every_waiting_sender() {
    let (tx, rx, mut shared) = bounded::<u8>(1);
    let tx2 = tx.clone(&mut shared);
    assert_eq!(tx.try_send(&mut shared, 1).0, Ok(()));
    let mut a = SendWait::new();
    let mut b = SendWait::new();
    assert!(matches!(tx.poll_send(&mut shared, 2, &mut a, 7).0, SendPoll::Pending(2)));
    assert!(matches!(tx2.poll_send(&mut shared, 3, &mut b, 8).0, SendPoll::Pending(3)));
    let woken = rx.drop(&mut shared);
    assert_eq!(woken.len(), 2);
    assert!(woken.contains(&7) && woken.contains(&8));
    assert!(matches!(tx.poll_send(&mut shared, 2, &mut a, 7).0, SendPoll::Ready(Err(_))));
}
