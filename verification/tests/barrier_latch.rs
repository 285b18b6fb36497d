use mea::barrier::Barrier;
use mea::latch::Latch;

#[test]
fn zero_does_not_block() {
    let mut b = Barrier::new(0);
    {
        let mut f = b.wait();
        let (leader, _) = b.poll_wait(&mut f, 1);
        assert_eq!(leader, Some(true));
    }
    {
        let mut f = b.wait();
        let (leader, _) = b.poll_wait(&mut f, 1);
        assert_eq!(leader, Some(true));
    }
}

#[test]
fn single() {
    let mut b = Barrier::new(1);
    for _ in 0..3 {
        let mut f = b.wait();
        let (leader, woken) = b.poll_wait(&mut f, 1);
        assert_eq!(leader, Some(true));
        assert!(woken.is_empty());
    }
}

#[test]
fn tango() {
    let mut b = Barrier::new(2);

    let mut f1 = b.wait();
    assert_eq!(b.poll_wait(&mut f1, 1).0, None);

    let mut f2 = b.wait();
    let (f2_leader, woken) = b.poll_wait(&mut f2, 2);
    assert_eq!(woken, vec![1]);
    let (f1_leader, _) = b.poll_wait(&mut f1, 1);
    let f2_leader = f2_leader.unwrap();
    let f1_leader = f1_leader.unwrap();

    assert!(f1_leader || f2_leader);
    assert!(!(f1_leader && f2_leader));
}

#[test]
fn lots() {
    let mut b = Barrier::new(100);

    for _ in 0..10 {
        let mut wait = Vec::new();
        for t in 0..99u64 {
            let mut f = b.wait();
            assert_eq!(b.poll_wait(&mut f, t).0, None);
            wait.push((t, f));
        }

        for (t, f) in &mut wait {
            assert_eq!(b.poll_wait(f, *t).0, None);
        }

        // pass the barrier
        let mut f = b.wait();
        let (leader, woken) = b.poll_wait(&mut f, 99);
        assert_eq!(woken.len(), 99);
        let mut found_leader = leader.unwrap();
        for (t, mut f) in wait {
            let leader = b.poll_wait(&mut f, t).0.unwrap();
            if leader {
                assert!(!found_leader);
                found_leader = true;
            }
        }
        assert!(found_leader);
    }
}

#[test]
fn latch_counts_down_to_zero_and_wakes_waiters() {
    let mut latch = Latch::new(2);
    assert_eq!(latch.try_wait(), Err(2));
    let mut w = latch.wait();
    assert!(!latch.poll_wait(&mut w, 5));
    assert!(latch.count_down().is_empty());
    assert_eq!(latch.count(), 1);
    assert_eq!(latch.count_down(), vec![5]);
    assert_eq!(latch.count(), 0);
    assert!(latch.poll_wait(&mut w, 5));
    assert_eq!(latch.try_wait(), Ok(()));
    // counting down at zero has no effect
    assert!(latch.count_down().is_empty());
    assert_eq!(latch.count(), 0);
}

#[test]
fn latch_arrive_saturates() {
    let mut latch = Latch::new(3);
    assert!(latch.arrive(0).is_empty());
    assert_eq!(latch.count(), 3);
    let mut w = latch.wait();
    assert!(!latch.poll_wait(&mut w, 8));
    assert_eq!(latch.arrive(10), vec![8]);
    assert_eq!(latch.count(), 0);
    assert!(latch.arrive(1).is_empty());
}
