//! An async mutex for protecting shared data, as a state machine.
//!
//! The mutex is a semaphore of one permit and the protected value. Locking
//! hands the value to the guard; unlocking hands it back. While a guard is
//! out the mutex holds no value, so there is never more than one guard.
//! Waiting lockers queue first-in first-out (`lock`, then `poll_lock`).
use vstd::prelude::*;
use crate::sem_core;
use crate::sem_core::Acquire;
use crate::sums::seq_sum;
use crate::projection::{chain_mut, chain_mut_opt};

verus! {

/// An async mutex for protecting shared data.
pub struct Mutex<T> {
    s: sem_core::Semaphore,
    c: Option<T>,
}

/// Exclusive access to the value of a locked `Mutex`; hand it back with
/// `Mutex::unlock`.
pub struct MutexGuard<T> {
    data: T,
}

/// A guard obtained through the owned lock methods; hand it back with
/// `Mutex::unlock_owned`.
pub struct OwnedMutexGuard<T> {
    data: T,
}

/// A guard that gives access to a component of the locked value, chosen by
/// the projection `f`; hand it back with `Mutex::unlock_mapped`.
pub struct MappedMutexGuard<T, F> {
    data: T,
    f: F,
}

impl<T> MutexGuard<T> {
    pub closed spec fn value(self) -> T {
        self.data
    }

    /// The locked value.
    pub fn get(&self) -> (r: &T)
        ensures
            *r == self.value(),
    {
        &self.data
    }

    /// The locked value, for writing.
    pub fn get_mut(&mut self) -> (r: &mut T)
        ensures
            *r == old(self).value(),
            final(self).value() == *final(r),
    {
        &mut self.data
    }

    /// Makes a guard for a component of the locked value. The lock stays held:
    /// the new guard carries it.
    pub fn map<U, F>(orig: Self, f: F) -> (r: MappedMutexGuard<T, F>) where
        F: Fn(&mut T) -> &mut U,

        ensures
            r.value() == orig.value(),
            r.projection() == f,
    {
        MappedMutexGuard { data: orig.data, f }
    }

    /// Attempts to make a guard for a component of the locked value. Where `f`
    /// gives no component, a guard of the whole value comes back. Either way
    /// the lock stays held: a guard carries it.
    pub fn try_map<U, F>(orig: Self, f: F) -> (r: Result<MappedMutexGuard<T, F>, Self>) where
        F: Fn(&mut T) -> Option<&mut U>,

        requires
            forall|x: &mut T| #[trigger] f.requires((x,)),
        ensures
            r matches Ok(g) ==> g.projection() == f,
            exists|x: &mut T, o: Option<&mut U>|
                *x == orig.value() && #[trigger] f.ensures((x,), o) && (o is Some <==> r is Ok)
                    && (match r {
                    Ok(g) => g.value() == *final(x),
                    Err(g) => g.value() == *final(x),
                }),
    {
        let mut data = orig.data;
        let some = f(&mut data).is_some();
        if some {
            Ok(MappedMutexGuard { data, f })
        } else {
            Err(MutexGuard { data })
        }
    }
}

impl<T> OwnedMutexGuard<T> {
    pub closed spec fn value(self) -> T {
        self.data
    }

    /// The locked value.
    pub fn get(&self) -> (r: &T)
        ensures
            *r == self.value(),
    {
        &self.data
    }

    /// The locked value, for writing.
    pub fn get_mut(&mut self) -> (r: &mut T)
        ensures
            *r == old(self).value(),
            final(self).value() == *final(r),
    {
        &mut self.data
    }
}

impl<T, F> MappedMutexGuard<T, F> {
    pub closed spec fn value(self) -> T {
        self.data
    }

    pub closed spec fn projection(self) -> F {
        self.f
    }

    /// The component of the locked value that the projection picks, for
    /// reading and writing.
    pub fn get_mut<U>(&mut self) -> (r: &mut U) where F: Fn(&mut T) -> &mut U
        requires
            forall|x: &mut T| #[trigger] old(self).projection().requires((x,)),
        ensures
            final(self).projection() == old(self).projection(),
            exists|x: &mut T|
                *x == old(self).value() && #[trigger] old(self).projection().ensures((x,), r)
                    && final(self).value() == *final(x),
    {
        let MappedMutexGuard { data, f } = self;
        proof {
            assert(*f == old(self).projection());
        }
        f(data)
    }

    /// The component of the locked value that a partial projection picks,
    /// where it picks one, for reading and writing.
    pub fn try_get_mut<U>(&mut self) -> (r: Option<&mut U>) where F: Fn(&mut T) -> Option<&mut U>
        requires
            forall|x: &mut T| #[trigger] old(self).projection().requires((x,)),
        ensures
            final(self).projection() == old(self).projection(),
            exists|x: &mut T|
                *x == old(self).value() && #[trigger] old(self).projection().ensures((x,), r)
                    && final(self).value() == *final(x),
    {
        let MappedMutexGuard { data, f } = self;
        proof {
            assert(*f == old(self).projection());
        }
        f(data)
    }
}

impl<T, F> MappedMutexGuard<T, F> {
    /// Makes a guard for a component of the component this guard picks. The
    /// lock stays held: the new guard carries it.
    pub fn map<U: 'static, V, H>(orig: Self, h: H) -> (r: MappedMutexGuard<T, impl Fn(&mut T) -> &mut V>) where
        F: Fn(&mut T) -> &mut U,
        H: Fn(&mut U) -> &mut V,

        requires
            forall|t: &mut T| #[trigger] orig.projection().requires((t,)),
            forall|u: &mut U| #[trigger] h.requires((u,)),
        ensures
            r.value() == orig.value(),
            forall|t: &mut T| #[trigger] r.projection().requires((t,)),
            forall|t: &mut T, v: &mut V| #[trigger]
                r.projection().ensures((t,), v) ==> exists|x: &mut T, u: &mut U, y: &mut U|
                    *x == *t && *final(x) == *final(t) && orig.projection().ensures((x,), u) && *y
                        == *u && *final(y) == *final(u) && h.ensures((y,), v),
    {
        proof {
            assert(orig.f == orig.projection());
        }
        let MappedMutexGuard { data, f } = orig;
        MappedMutexGuard { data, f: chain_mut(f, h) }
    }

    /// Attempts to make a guard for a component of the component this guard
    /// picks. Where `h` gives none, the guard passed in comes back. Either
    /// way the lock stays held: a guard carries it.
    pub fn try_map<U: 'static, V, H>(orig: Self, h: H) -> (r: Result<
        MappedMutexGuard<T, impl Fn(&mut T) -> Option<&mut V>>,
        Self,
    >) where
        F: Fn(&mut T) -> &mut U,
        H: Fn(&mut U) -> Option<&mut V>,

        requires
            forall|t: &mut T| #[trigger] orig.projection().requires((t,)),
            forall|u: &mut U| #[trigger] h.requires((u,)),
        ensures
            r matches Ok(g) ==> (forall|t: &mut T| #[trigger] g.projection().requires((t,)))
                && forall|t: &mut T, v: Option<&mut V>| #[trigger]
                g.projection().ensures((t,), v) ==> exists|x: &mut T, u: &mut U, y: &mut U|
                    *x == *t && *final(x) == *final(t) && orig.projection().ensures((x,), u) && *y
                        == *u && *final(y) == *final(u) && h.ensures((y,), v),
            r matches Err(g) ==> g.projection() == orig.projection(),
            exists|x: &mut T, u: &mut U, y: &mut U, o: Option<&mut V>|
                #![trigger orig.projection().ensures((x,), u), h.ensures((y,), o)]
                *x == orig.value() && orig.projection().ensures((x,), u) && *y == *u && *final(y)
                    == *final(u) && h.ensures((y,), o) && (o is Some <==> r is Ok) && (match r {
                    Ok(g) => g.value() == *final(x),
                    Err(g) => g.value() == *final(x),
                }),
    {
        proof {
            assert(orig.f == orig.projection());
        }
        let MappedMutexGuard { mut data, f } = orig;
        let some = h(f(&mut data)).is_some();
        if some {
            Ok(MappedMutexGuard { data, f: chain_mut_opt(f, h) })
        } else {
            Err(MappedMutexGuard { data, f })
        }
    }
}


impl<T> Mutex<T> {
    /// The semaphore of one permit that orders the lockers.
    pub closed spec fn inner(self) -> sem_core::Semaphore {
        self.s
    }

    /// The protected value while no guard is out; `None` while one is.
    pub closed spec fn data(self) -> Option<T> {
        self.c
    }

    pub open spec fn is_locked(self) -> bool {
        self.data().is_none()
    }

    /// Well-formedness: the one permit is either with the value, unlocked, or
    /// with the guard that holds it.
    pub closed spec fn wf(self) -> bool {
        &&& self.s.wf()
        &&& self.s.supply() == (if self.c.is_some() {
            1int
        } else {
            0
        })
    }

    /// Mutual exclusion: while a guard is out nothing more can be taken, and
    /// while none is out the value is there for whoever takes the permit.
    pub proof fn lemma_exclusive(self)
        requires
            self.wf(),
        ensures
            self.is_locked() ==> self.inner().supply() == 0 && self.inner().permits() == 0,
            !self.is_locked() ==> self.inner().supply() == 1,
            self.inner().permits() <= 1,
    {
        self.s.lemma_supply_bounds();
    }

    /// A mutex that nobody holds and nobody waits on, not even a locker that
    /// was handed the lock and has yet to take it, has its permit available:
    /// `try_lock` succeeds.
    pub proof fn lemma_unlocked_grants(self)
        requires
            self.wf(),
            !self.is_locked(),
            self.inner().order().len() == 0,
            self.inner().detached().len() == 0,
        ensures
            self.inner().permits() == 1,
    {
        assert(seq_sum(self.inner().order(), self.inner().granted_fn()) == 0);
        assert(seq_sum(self.inner().detached(), self.inner().granted_fn()) == 0);
    }

    /// Unlocking a mutex that nobody waits for leaves its one permit
    /// available and wakes nobody, so the next `try_lock` succeeds.
    pub proof fn lemma_unlock_frees(self, after: Self, woken: Seq<u64>)
        requires
            self.wf(),
            self.is_locked(),
            self.inner().order().len() == 0,
            self.inner().released(after.inner(), 1, woken),
        ensures
            after.inner().permits() == 1,
            woken.len() == 0,
    {
        self.lemma_exclusive();
        self.inner().lemma_release_to_empty_queue(after.inner(), 1, woken);
    }

    /// A free permit means nobody is queued and nobody holds the lock.
    pub proof fn lemma_free_permit_no_queue(self)
        requires
            self.wf(),
            self.inner().permits() >= 1,
        ensures
            self.inner().order().len() == 0,
            !self.is_locked(),
    {
        self.lemma_exclusive();
        if self.inner().order().len() > 0 {
            self.inner().lemma_queue_means_no_permits();
        }
    }

    /// Unlocking hands the permit to the first queued locker if there is one,
    /// and otherwise makes it available, so that `try_lock` succeeds again
    /// exactly when nobody was queued.
    pub proof fn lemma_unlock_then_try_lock(self, after: Self, woken: Seq<u64>)
        requires
            self.wf(),
            self.is_locked(),
            self.inner().released(after.inner(), 1, woken),
        ensures
            self.inner().order().len() == 0 ==> after.inner().permits() == 1 && woken.len() == 0,
            self.inner().order().len() > 0 ==> after.inner().permits() == 0,
    {
        self.lemma_exclusive();
        let s = self.inner();
        let o = s.order();
        if o.len() > 0 {
            s.lemma_waiter_states(o[0]);
            assert(o.contains(o[0]));
            if s.remaining(o[0]) == 1 {
                if o.len() > 1 {
                    s.lemma_waiter_states(o[1]);
                    assert(o.contains(o[1]));
                }
                assert(s.served_from(1, 0) == 0);
                assert(s.rem_from(1, 0) == 0);
                assert(s.served_from(0, 1) == 1);
                assert(s.rem_from(0, 1) == 0);
            } else {
                assert(s.served_from(0, 1) == 0);
            }
        } else {
            self.lemma_unlock_frees(after, woken);
        }
    }

    /// Locking with `try_lock` and unlocking again, while nobody else holds
    /// or waits, leaves the permit available and wakes nobody.
    pub proof fn lemma_lock_unlock_round_trip(m0: Self, m1: Self, m2: Self, woken: Seq<u64>)
        requires
            m0.wf(),
            !m0.is_locked(),
            m0.inner().order().len() == 0,
            m0.inner().detached().len() == 0,
            m1.inner().same_waiters(m0.inner()),
            m1.inner().permits() == m0.inner().permits() - 1,
            m1.inner().released(m2.inner(), 1, woken),
        ensures
            m2.inner().permits() == 1,
            woken.len() == 0,
    {
        m0.lemma_unlocked_grants();
        assert(m1.inner().order().len() == 0);
        assert(m1.inner().served_from(0, 1) == 0);
        assert(m1.inner().rem_from(0, 1) == 1);
    }

    /// Creates a new mutex in an unlocked state ready for use.
    pub fn new(t: T) -> (m: Self)
        ensures
            m.wf(),
            m.data() == Some(t),
            m.inner().order().len() == 0,
            m.inner().detached().len() == 0,
            m.inner().permits() == 1,
    {
        Mutex { s: sem_core::Semaphore::new(1), c: Some(t) }
    }

    /// Consumes the mutex, returning the underlying data.
    pub fn into_inner(self) -> (t: T)
        requires
            self.wf(),
            !self.is_locked(),
        ensures
            Some(t) == self.data(),
    {
        self.c.unwrap()
    }

    /// Returns a mutable reference to the underlying data.
    pub fn get_mut(&mut self) -> (r: &mut T)
        requires
            old(self).wf(),
            !old(self).is_locked(),
        ensures
            Some(*r) == old(self).data(),
            final(self).data() == Some(*final(r)),
            final(self).inner() == old(self).inner(),
            final(self).wf(),
    {
        self.c.as_mut().unwrap()
    }

    fn take_permit(&mut self) -> (r: bool)
        requires
            old(self).wf(),
        ensures
            r == (old(self).inner().permits() >= 1),
            r ==> final(self).inner().supply() == 0 && old(self).data().is_some(),
            r ==> final(self).inner().permits() == old(self).inner().permits() - 1,
            final(self).inner().wf(),
            final(self).inner().same_waiters(old(self).inner()),
            !r ==> final(self).inner() == old(self).inner(),
            final(self).data() == old(self).data(),
    {
        proof {
            self.lemma_exclusive();
        }
        self.s.try_acquire(1)
    }

    /// Attempts to acquire the lock: succeeds exactly when the permit is
    /// available, which it never is while a guard is out.
    pub fn try_lock(&mut self) -> (r: Option<MutexGuard<T>>)
        requires
            old(self).wf(),
        ensures
            final(self).wf(),
            r.is_some() == (old(self).inner().permits() >= 1),
            old(self).is_locked() ==> r.is_none(),
            r matches Some(g) ==> Some(g.value()) == old(self).data() && final(self).is_locked(),
            r.is_none() ==> *final(self) == *old(self),
            r.is_some() ==> final(self).inner().same_waiters(old(self).inner())
                && final(self).inner().permits() == old(self).inner().permits() - 1,
    {
        if self.take_permit() {
            Some(MutexGuard { data: self.c.take().unwrap() })
        } else {
            None
        }
    }

    /// Attempts to acquire the lock, giving an owned guard.
    pub fn try_lock_owned(&mut self) -> (r: Option<OwnedMutexGuard<T>>)
        requires
            old(self).wf(),
        ensures
            final(self).wf(),
            r.is_some() == (old(self).inner().permits() >= 1),
            old(self).is_locked() ==> r.is_none(),
            r matches Some(g) ==> Some(g.value()) == old(self).data() && final(self).is_locked(),
            r.is_none() ==> *final(self) == *old(self),
            r.is_some() ==> final(self).inner().same_waiters(old(self).inner())
                && final(self).inner().permits() == old(self).inner().permits() - 1,
    {
        if self.take_permit() {
            Some(OwnedMutexGuard { data: self.c.take().unwrap() })
        } else {
            None
        }
    }

    /// The state of a lock future; drive it with `poll_lock`.
    pub fn lock(&self) -> (fut: Acquire)
        ensures
            fut.needed() == 1,
            fut.index().is_none(),
            !fut.is_done(),
    {
        Acquire::new(1)
    }

    /// The state of an owned lock future; drive it with `poll_lock_owned`.
    pub fn lock_owned(&self) -> (fut: Acquire)
        ensures
            fut.needed() == 1,
            fut.index().is_none(),
            !fut.is_done(),
    {
        Acquire::new(1)
    }

    fn poll_permit(&mut self, fut: &mut Acquire, task: u64) -> (ready: bool)
        requires
            old(self).wf(),
            old(self).inner().tracks(*old(fut)),
            old(fut).needed() == 1,
            !old(fut).is_done(),
        ensures
            final(self).inner().wf(),
            final(self).inner().tracks(*final(fut)),
            final(fut).needed() == 1,
            ready == final(fut).is_done(),
            ready ==> final(self).inner().supply() == 0 && old(self).data().is_some(),
            !ready ==> final(self).inner().supply() == old(self).inner().supply(),
            final(self).data() == old(self).data(),
            old(self).is_locked() ==> !ready,
            old(self).inner().polled(final(self).inner(), *old(fut), *final(fut), task, ready),
    {
        proof {
            self.lemma_exclusive();
            self.s.lemma_supply_bounds();
        }
        let r = self.s.poll(fut, task);
        proof {
            self.s.lemma_supply_bounds();
        }
        r
    }

    /// One poll of a lock future by task `task`: the guard once the future
    /// has the permit. Lockers are served in the order they queued.
    pub fn poll_lock(&mut self, fut: &mut Acquire, task: u64) -> (r: Option<MutexGuard<T>>)
        requires
            old(self).wf(),
            old(self).inner().tracks(*old(fut)),
            old(fut).needed() == 1,
            !old(fut).is_done(),
        ensures
            final(self).wf(),
            final(self).inner().tracks(*final(fut)),
            final(fut).needed() == 1,
            r.is_some() == final(fut).is_done(),
            old(self).is_locked() ==> r.is_none(),
            r matches Some(g) ==> Some(g.value()) == old(self).data() && final(self).is_locked(),
            r.is_none() ==> final(self).data() == old(self).data(),
            old(self).inner().polled(final(self).inner(), *old(fut), *final(fut), task, r.is_some()),
    {
        if self.poll_permit(fut, task) {
            Some(MutexGuard { data: self.c.take().unwrap() })
        } else {
            None
        }
    }

    /// One poll of an owned lock future by task `task`.
    pub fn poll_lock_owned(&mut self, fut: &mut Acquire, task: u64) -> (r: Option<OwnedMutexGuard<T>>)
        requires
            old(self).wf(),
            old(self).inner().tracks(*old(fut)),
            old(fut).needed() == 1,
            !old(fut).is_done(),
        ensures
            final(self).wf(),
            final(self).inner().tracks(*final(fut)),
            final(fut).needed() == 1,
            r.is_some() == final(fut).is_done(),
            old(self).is_locked() ==> r.is_none(),
            r matches Some(g) ==> Some(g.value()) == old(self).data() && final(self).is_locked(),
            r.is_none() ==> final(self).data() == old(self).data(),
            old(self).inner().polled(final(self).inner(), *old(fut), *final(fut), task, r.is_some()),
    {
        if self.poll_permit(fut, task) {
            Some(OwnedMutexGuard { data: self.c.take().unwrap() })
        } else {
            None
        }
    }

    /// Drops a lock future: it loses its place in the queue, and a permit it
    /// had been given goes to the next locker. Returns the tasks to wake.
    pub fn cancel_lock(&mut self, fut: &mut Acquire) -> (woken: Vec<u64>)
        requires
            old(self).wf(),
            old(self).inner().tracks(*old(fut)),
            old(fut).needed() == 1,
        ensures
            final(self).wf(),
            final(fut).index().is_none(),
            final(self).data() == old(self).data(),
            old(self).inner().cancelled(final(self).inner(), *old(fut), woken@),
    {
        proof {
            self.lemma_exclusive();
            if let Some(k) = fut.index() {
                self.s.lemma_granted_le_supply(k);
            }
        }
        self.s.cancel(fut)
    }

    fn give_back(&mut self, data: T) -> (woken: Vec<u64>)
        requires
            old(self).wf(),
            old(self).is_locked(),
        ensures
            final(self).wf(),
            final(self).data() == Some(data),
            final(self).inner().supply() == 1,
            old(self).inner().released(final(self).inner(), 1, woken@),
    {
        proof {
            self.lemma_exclusive();
        }
        self.c = Some(data);
        self.s.release(1)
    }

    /// Unlocks the mutex by handing its guard back. The permit goes to the
    /// first queued locker, if any. Returns the tasks to wake.
    pub fn unlock(&mut self, guard: MutexGuard<T>) -> (woken: Vec<u64>)
        requires
            old(self).wf(),
            old(self).is_locked(),
        ensures
            final(self).wf(),
            final(self).data() == Some(guard.value()),
            !final(self).is_locked(),
            old(self).inner().released(final(self).inner(), 1, woken@),
    {
        self.give_back(guard.data)
    }

    /// Unlocks the mutex by handing an owned guard back.
    pub fn unlock_owned(&mut self, guard: OwnedMutexGuard<T>) -> (woken: Vec<u64>)
        requires
            old(self).wf(),
            old(self).is_locked(),
        ensures
            final(self).wf(),
            final(self).data() == Some(guard.value()),
            !final(self).is_locked(),
            old(self).inner().released(final(self).inner(), 1, woken@),
    {
        self.give_back(guard.data)
    }

    /// Unlocks the mutex by handing a mapped guard back.
    pub fn unlock_mapped<F>(&mut self, guard: MappedMutexGuard<T, F>) -> (woken: Vec<u64>)
        requires
            old(self).wf(),
            old(self).is_locked(),
        ensures
            final(self).wf(),
            final(self).data() == Some(guard.value()),
            !final(self).is_locked(),
            old(self).inner().released(final(self).inner(), 1, woken@),
    {
        self.give_back(guard.data)
    }
}

impl<T: Default> Default for Mutex<T> {
    /// An unlocked mutex holding `T`'s default value.
    fn default() -> (m: Self)
        ensures
            m.wf(),
            m.data().is_some(),
            m.inner().order().len() == 0,
    {
        Mutex::new(T::default())
    }
}

} // verus!
