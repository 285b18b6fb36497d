use mea::mutex::{MappedMutexGuard, Mutex, MutexGuard};
use mea::rwlock::{MappedRwLockReadGuard, MappedRwLockWriteGuard, RwLock, RwLockReadGuard, RwLockWriteGuard};

#[test]
fn test_try_lock_never_blocks() {
    // try_lock and try_lock_owned never block, even under contention
    let mut mutex = Mutex::new(9);
    let _guard = mutex.try_lock().unwrap();

    let result = mutex.try_lock();
    assert!(result.is_none());

    let result = mutex.try_lock_owned();
    assert!(result.is_none());
}

#[test]
fn test_test_get_mut_provides_exclusive_access() {
    // get_mut provides direct access when we have exclusive ownership
    let mut mutex = Mutex::new(11);

    let data = mutex.get_mut();
    *data = 100;

    assert_eq!(*mutex.get_mut(), 100);

    let inner = mutex.into_inner();
    assert_eq!(inner, 100);

    // the same holds of a reader-writer lock
    let mut rwlock = RwLock::new(100);

    let data = rwlock.get_mut();
    *data = 200;

    assert_eq!(*rwlock.get_mut(), 200);

    let inner = rwlock.into_inner();
    assert_eq!(inner, 200);
}

#[test]
fn test_try_read_write_never_blocks() {
    let mut rwlock = RwLock::new(42);

    let r1 = rwlock.try_read().unwrap();
    let r2 = rwlock.try_read().unwrap();
    assert_eq!(*rwlock.read_value(), 42);

    assert!(rwlock.try_write().is_none());

    rwlock.release_read(r1);
    rwlock.release_read(r2);

    let w = rwlock.try_write().unwrap();
    assert_eq!(*rwlock.read_value(), 42);

    assert!(rwlock.try_read().is_none());
    assert!(rwlock.try_read_owned().is_none());
    rwlock.release_write(w);
}

#[test]
fn test_with_max_readers() {
    let mut rwlock = RwLock::with_max_readers(10, 2);

    let r1 = rwlock.try_read().unwrap();
    let r2 = rwlock.try_read().unwrap();
    assert_eq!(*rwlock.read_value(), 10);
    assert_eq!(*rwlock.read_value(), 10);

    assert!(rwlock.try_read().is_none());

    assert!(rwlock.try_write().is_none());

    rwlock.release_read(r1);

    let r3 = rwlock.try_read().unwrap();
    assert_eq!(*rwlock.read_value(), 10);

    assert!(rwlock.try_read().is_none());

    rwlock.release_read(r2);
    rwlock.release_read(r3);

    let w = rwlock.try_write().unwrap();
    *rwlock.write_value() = 20;
    rwlock.release_write(w);

    let _r = rwlock.try_read().unwrap();
    assert_eq!(*rwlock.read_value(), 20);
}

#[test]
fn mutex_guard_owns_the_value_until_unlock() {
    let mut mutex = Mutex::new(5);
    let mut guard = mutex.try_lock().unwrap();
    *guard.get_mut() += 1;
    assert_eq!(*guard.get(), 6);
    assert!(mutex.try_lock().is_none());
    let woken = mutex.unlock(guard);
    assert!(woken.is_empty());
    assert_eq!(mutex.into_inner(), 6);
}

#[test]
fn mutex_waiter_is_woken_by_unlock() {
    let mut mutex = Mutex::new(String::from("a"));
    let guard = mutex.try_lock().unwrap();
    let mut fut = mutex.lock();
    assert!(mutex.poll_lock(&mut fut, 42).is_none());
    assert_eq!(mutex.unlock(guard), vec![42]);
    let mut g2 = mutex.poll_lock(&mut fut, 42).unwrap();
    g2.get_mut().push('b');
    mutex.unlock(g2);
    assert_eq!(mutex.into_inner(), "ab");
}

#[test]
fn mutex_waiters_are_served_in_order() {
    let mut mutex = Mutex::new(0u32);
    let guard = mutex.try_lock().unwrap();
    let mut a = mutex.lock();
    let mut b = mutex.lock_owned();
    assert!(mutex.poll_lock(&mut a, 1).is_none());
    assert!(mutex.poll_lock_owned(&mut b, 2).is_none());
    assert_eq!(mutex.unlock(guard), vec![1]);
    // the second waiter is still behind the first
    assert!(mutex.poll_lock_owned(&mut b, 2).is_none());
    let ga = mutex.poll_lock(&mut a, 1).unwrap();
    assert_eq!(mutex.unlock(ga), vec![2]);
    let gb = mutex.poll_lock_owned(&mut b, 2).unwrap();
    assert_eq!(*gb.get(), 0);
    mutex.unlock_owned(gb);
}

#[test]
fn mutex_cancelled_waiter_passes_the_lock_on() {
    let mut mutex = Mutex::new(1);
    let guard = mutex.try_lock().unwrap();
    let mut a = mutex.lock();
    let mut b = mutex.lock();
    assert!(mutex.poll_lock(&mut a, 1).is_none());
    assert!(mutex.poll_lock(&mut b, 2).is_none());
    assert_eq!(mutex.unlock(guard), vec![1]);
    // a was handed the lock but is dropped before it sees it
    assert_eq!(mutex.cancel_lock(&mut a), vec![2]);
    assert!(mutex.poll_lock(&mut b, 2).is_some());
}

#[test]
fn rwlock_writer_waits_for_readers() {
    let mut rwlock = RwLock::with_max_readers(0u8, 3);
    let r1 = rwlock.try_read().unwrap();
    let r2 = rwlock.try_read_owned().unwrap();
    let mut w = rwlock.write();
    assert!(rwlock.poll_write(&mut w, 9).is_none());
    // a reader arriving after a queued writer waits behind it
    let mut r3 = rwlock.read();
    assert!(rwlock.poll_read(&mut r3, 10).is_none());
    assert!(rwlock.release_read(r1).is_empty());
    assert_eq!(rwlock.release_read_owned(r2), vec![9]);
    let wg = rwlock.poll_write(&mut w, 9).unwrap();
    *rwlock.write_value() = 7;
    assert_eq!(rwlock.release_write(wg), vec![10]);
    let rg = rwlock.poll_read(&mut r3, 10).unwrap();
    assert_eq!(*rwlock.read_value(), 7);
    rwlock.release_read(rg);
}

#[test]
fn unlock_with_no_waiter_frees_the_lock() {
    let mut mutex = Mutex::new(1u8);
    let g = mutex.try_lock().unwrap();
    assert!(mutex.try_lock().is_none());
    assert!(mutex.unlock(g).is_empty());
    let g = mutex.try_lock().unwrap();
    assert_eq!(*g.get(), 1);
    mutex.unlock(g);
}

#[test]
fn write_release_with_no_waiter_frees_every_permit() {
    let mut rwlock = RwLock::with_max_readers(3u8, 2);
    let w = rwlock.try_write().unwrap();
    assert!(rwlock.try_read().is_none());
    assert!(rwlock.release_write(w).is_empty());
    let r1 = rwlock.try_read().unwrap();
    let r2 = rwlock.try_read().unwrap();
    assert!(rwlock.try_read().is_none());
    rwlock.release_read(r1);
    rwlock.release_read(r2);
    assert!(rwlock.try_write().is_some());
}

#[test]
fn test_guard_map_preserves_lock() {
    let data = (99i32, vec![1, 2, 3]);
    let mut mutex = Mutex::new(data);

    let guard = mutex.try_lock().unwrap();
    let mut mapped_guard = MutexGuard::map(guard, |data: &mut (i32, Vec<i32>)| &mut data.0);

    assert!(mutex.try_lock().is_none());

    *mapped_guard.get_mut() = 100;

    // after handing it back, the mutex is available
    mutex.unlock_mapped(mapped_guard);
    let guard = mutex.try_lock().unwrap();
    assert_eq!(guard.get().0, 100);
}

#[test]
fn test_mapped_guard_holds_lock() {
    let mut mutex = Mutex::new((10, 20));

    let guard = mutex.try_lock().unwrap();
    let mut mapped_guard = MutexGuard::map(guard, |data: &mut (i32, i32)| &mut data.0);

    assert!(mutex.try_lock().is_none(), "Lock should be held by the mapped guard");

    assert_eq!(*mapped_guard.get_mut(), 10);

    mutex.unlock_mapped(mapped_guard);

    assert!(
        mutex.try_lock().is_some(),
        "Lock should be released after mapped guard is dropped"
    );
}

#[test]
fn test_guard_filter_map_failure() {
    let data: Vec<i32> = vec![];
    let mut mutex = Mutex::new(data);
    let guard = mutex.try_lock().unwrap();

    let result = MutexGuard::try_map(guard, |vec: &mut Vec<i32>| vec.get_mut(0));
    assert!(result.is_err());

    if let Err(mut guard_back) = result {
        guard_back.get_mut().push(100);
        assert_eq!(*guard_back.get(), vec![100]);
    } else {
        panic!("Expected Err, but got Ok");
    }
}

#[test]
fn guard_filter_map_success_reads_the_component() {
    let mut mutex = Mutex::new(vec![5, 6]);
    let guard = mutex.try_lock().unwrap();
    let result = MutexGuard::try_map(guard, |vec: &mut Vec<i32>| vec.get_mut(1));
    let mut mapped = match result {
        Ok(g) => g,
        Err(_) => panic!("expected a component"),
    };
    *mapped.try_get_mut().unwrap() = 60;
    mutex.unlock_mapped(mapped);
    assert_eq!(mutex.into_inner(), vec![5, 60]);
}

#[test]
fn write_owned_succeeds_once_the_reader_is_gone() {
    let mut lock = RwLock::new(1);
    let v = lock.try_read().unwrap();
    assert!(lock.try_write_owned().is_none());
    lock.release_read(v);
    let w = lock.try_write_owned().unwrap();
    *lock.write_value() = 2;
    assert_eq!(*lock.read_value(), 2);
    lock.release_write_owned(w);
}

#[test]
fn try_lock_succeeds_again_after_unlock() {
    let mut m = Mutex::new(0u8);
    let g = m.try_lock().unwrap();
    m.unlock(g);
    assert!(m.try_lock().is_some());
}

#[test]
fn owned_futures_queue_like_the_borrowed_ones() {
    let mut rwlock = RwLock::with_max_readers(5u8, 2);
    let r = rwlock.try_read().unwrap();
    let mut w = rwlock.write_owned();
    assert!(rwlock.poll_write_owned(&mut w, 1).is_none());
    let mut r2 = rwlock.read_owned();
    assert!(rwlock.poll_read_owned(&mut r2, 2).is_none());
    assert_eq!(rwlock.release_read(r), vec![1]);
    let wg = rwlock.poll_write_owned(&mut w, 1).unwrap();
    assert_eq!(rwlock.release_write_owned(wg), vec![2]);
    let rg = rwlock.poll_read_owned(&mut r2, 2).unwrap();
    assert_eq!(*rwlock.read_value(), 5);
    assert!(rwlock.release_read_owned(rg).is_empty());
}

#[test]
fn test_multiple_map_operations() {
    // Test multiple consecutive map operations
    let data = vec![vec![1, 2], vec![3, 4]];
    let mut mutex = Mutex::new(data);

    let guard = mutex.try_lock().unwrap();
    let first_vec = MutexGuard::map(guard, |data: &mut Vec<Vec<i32>>| &mut data[0]);
    let mut first_element = MappedMutexGuard::map(first_vec, |vec: &mut Vec<i32>| &mut vec[0]);

    *first_element.get_mut() = 100;
    mutex.unlock_mapped(first_element);

    let guard = mutex.try_lock().unwrap();
    assert_eq!(guard.get()[0][0], 100);
    assert_eq!(guard.get()[0][1], 2);
    assert_eq!(guard.get()[1][0], 3);
    mutex.unlock(guard);
}

#[test]
fn mapped_guard_try_map_keeps_the_guard_on_failure() {
    let mut mutex = Mutex::new((7u8, Vec::<u8>::new()));
    let guard = mutex.try_lock().unwrap();
    let list = MutexGuard::map(guard, |d: &mut (u8, Vec<u8>)| &mut d.1);
    let back = match MappedMutexGuard::try_map(list, |v: &mut Vec<u8>| v.get_mut(0)) {
        Ok(_) => panic!("an empty list has no first element"),
        Err(g) => g,
    };
    let mut back = back;
    back.get_mut().push(4);
    let mut first = match MappedMutexGuard::try_map(back, |v: &mut Vec<u8>| v.get_mut(0)) {
        Ok(g) => g,
        Err(_) => panic!("the list now has a first element"),
    };
    *first.try_get_mut().unwrap() = 9;
    mutex.unlock_mapped(first);
    let guard = mutex.try_lock().unwrap();
    assert_eq!(*guard.get(), (7, vec![9]));
    mutex.unlock(guard);
}

#[test]
fn mapped_read_guard_maps_again() {
    let mut rwlock = RwLock::new((1u8, (2u8, 3u8)));
    let g = rwlock.try_read().unwrap();
    let inner = RwLockReadGuard::map(g, |v: &(u8, (u8, u8))| &v.1);
    let last = MappedRwLockReadGuard::map(inner, |p: &(u8, u8)| &p.1);
    assert_eq!(*rwlock.read_mapped(&last), 3);
    assert!(rwlock.release_read_mapped(last).is_empty());
    let g = rwlock.try_read().unwrap();
    let inner = RwLockReadGuard::map(g, |v: &(u8, (u8, u8))| &v.1);
    let none = MappedRwLockReadGuard::filter_map(inner, &rwlock, |p: &(u8, u8)| {
        if p.0 > 5 {
            Some(&p.1)
        } else {
            None
        }
    });
    let inner = match none {
        Ok(_) => panic!("2 is not above 5"),
        Err(g) => g,
    };
    assert_eq!(*rwlock.read_mapped(&inner), (2, 3));
    rwlock.release_read_mapped(inner);
}

#[test]
fn mapped_write_guard_maps_again() {
    let mut rwlock = RwLock::new((1u8, vec![2u8, 3]));
    let w = rwlock.try_write().unwrap();
    let list = RwLockWriteGuard::map(w, |v: &mut (u8, Vec<u8>)| &mut v.1);
    let second = MappedRwLockWriteGuard::map(list, |l: &mut Vec<u8>| &mut l[1]);
    *rwlock.write_mapped(&second) = 30;
    assert!(rwlock.release_write_mapped(second).is_empty());
    let w = rwlock.try_write().unwrap();
    let list = RwLockWriteGuard::map(w, |v: &mut (u8, Vec<u8>)| &mut v.1);
    let far = MappedRwLockWriteGuard::try_map(list, &mut rwlock, |l: &mut Vec<u8>| l.get_mut(5));
    let list = match far {
        Ok(_) => panic!("the list has two elements"),
        Err(g) => g,
    };
    assert_eq!(*rwlock.write_mapped(&list), vec![2, 30]);
    rwlock.release_write_mapped(list);
}
