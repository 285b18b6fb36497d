//! A counting semaphore that controls access to a set of resources.
//!
//! A semaphore holds a number of permits. `try_acquire` takes permits if
//! enough are available; an acquire future (`acquire`, then `poll_acquire`)
//! waits in a first-in first-out queue until they are. Permits come back with
//! `release`, or when a `SemaphorePermit` is handed back with
//! `release_permit`; `SemaphorePermit::forget` keeps them out for good.
use vstd::prelude::*;
use crate::sem_core;
use crate::sem_core::Acquire;

verus! {

/// An async counting semaphore, as a state machine.
pub struct Semaphore {
    s: sem_core::Semaphore,
}

/// Permits taken from a `Semaphore`. Handing it back with
/// `Semaphore::release_permit` returns the permits; `forget` does not.
#[derive(Debug)]
pub struct SemaphorePermit {
    permits: u32,
}

impl SemaphorePermit {
    pub closed spec fn count(self) -> nat {
        self.permits as nat
    }

    /// Forgets the permit without releasing it back to the semaphore.
    pub fn forget(self) {
    }

    /// Returns the number of permits this permit holds.
    pub fn permits(&self) -> (r: u32)
        ensures
            r == self.count(),
    {
        self.permits
    }
}

impl Semaphore {
    /// The underlying semaphore with its wait queue.
    pub closed spec fn inner(self) -> sem_core::Semaphore {
        self.s
    }

    pub open spec fn wf(self) -> bool {
        self.inner().wf()
    }

    /// The number of available permits.
    pub open spec fn available(self) -> nat {
        self.inner().permits()
    }

    /// Creates a new semaphore with the given number of permits.
    pub fn new(permits: u32) -> (s: Self)
        ensures
            s.wf(),
            s.available() == permits,
            s.inner().order().len() == 0,
            s.inner().detached().len() == 0,
            s.inner().supply() == permits,
    {
        Semaphore { s: sem_core::Semaphore::new(permits) }
    }

    /// Returns the current number of permits available.
    pub fn available_permits(&self) -> (r: u32)
        ensures
            r == self.available(),
    {
        self.s.available_permits()
    }

    /// Reduces the semaphore's permits by a maximum of `n`. Returns the
    /// number of permits that were actually removed.
    pub fn forget(&mut self, n: u32) -> (r: u32)
        requires
            old(self).wf(),
        ensures
            final(self).wf(),
            r == (if n <= old(self).available() {
                n as int
            } else {
                old(self).available() as int
            }),
            final(self).available() == old(self).available() - r,
            final(self).inner().same_waiters(old(self).inner()),
            final(self).inner().supply() == old(self).inner().supply() - r,
    {
        self.s.forget(n)
    }

    /// Attempts to acquire `permits` permits without waiting: succeeds exactly
    /// when that many are available.
    pub fn try_acquire(&mut self, permits: u32) -> (r: Option<SemaphorePermit>)
        requires
            old(self).wf(),
        ensures
            final(self).wf(),
            r.is_some() == (old(self).available() >= permits),
            r matches Some(p) ==> p.count() == permits,
            final(self).available() == (if r.is_some() {
                old(self).available() - permits
            } else {
                old(self).available() as int
            }),
            final(self).inner().same_waiters(old(self).inner()),
            final(self).inner().supply() == old(self).inner().supply() - (if r.is_some() {
                permits as int
            } else {
                0
            }),
    {
        if self.s.try_acquire(permits) {
            Some(SemaphorePermit { permits })
        } else {
            None
        }
    }

    /// Adds `permits` new permits to the semaphore: queued acquirers are
    /// served first, in order, and the rest become available. Returns the
    /// tasks to wake.
    ///
    /// Adding permits beyond `u32::MAX` panics; `requires` leaves it out.
    pub fn release(&mut self, permits: u32) -> (woken: Vec<u64>)
        requires
            old(self).wf(),
            old(self).available() + permits <= u32::MAX,
        ensures
            final(self).wf(),
            old(self).inner().released(final(self).inner(), permits as int, woken@),
            old(self).inner().order().len() == 0 ==> final(self).available() == old(self).available()
                + permits && woken@.len() == 0,
    {
        let w = self.s.release(permits);
        proof {
            if old(self).inner().order().len() == 0 {
                assert(old(self).inner().served_from(0, permits as int) == 0);
                assert(old(self).inner().rem_from(0, permits as int) == permits);
            }
        }
        w
    }

    /// Hands a permit back: its permits are released as by `release`.
    pub fn release_permit(&mut self, permit: SemaphorePermit) -> (woken: Vec<u64>)
        requires
            old(self).wf(),
            old(self).available() + permit.count() <= u32::MAX,
        ensures
            final(self).wf(),
            old(self).inner().released(final(self).inner(), permit.count() as int, woken@),
            old(self).inner().order().len() == 0 ==> final(self).available() == old(self).available()
                + permit.count() && woken@.len() == 0,
    {
        let w = self.s.release(permit.permits);
        proof {
            if old(self).inner().order().len() == 0 {
                assert(old(self).inner().served_from(0, permit.count() as int) == 0);
                assert(old(self).inner().rem_from(0, permit.count() as int) == permit.count());
            }
        }
        w
    }

    /// The state of a future that acquires `permits` permits; drive it with
    /// `poll_acquire`.
    pub fn acquire(&self, permits: u32) -> (fut: Acquire)
        ensures
            fut.needed() == permits,
            fut.index().is_none(),
            !fut.is_done(),
    {
        Acquire::new(permits)
    }

    /// Polls an acquire future on behalf of task `task`: returns the permit
    /// once the future has all the permits it asked for.
    pub fn poll_acquire(&mut self, fut: &mut Acquire, task: u64) -> (r: Option<SemaphorePermit>)
        requires
            old(self).wf(),
            old(self).inner().tracks(*old(fut)),
            !old(fut).is_done(),
        ensures
            final(self).wf(),
            final(self).inner().tracks(*final(fut)),
            r.is_some() == final(fut).is_done(),
            r matches Some(p) ==> p.count() == old(fut).needed(),
            final(self).inner().supply() == old(self).inner().supply() - (if r.is_some() {
                old(fut).needed() as int
            } else {
                0
            }),
            old(fut).index() is None ==> (r.is_some() == (old(self).available()
                >= old(fut).needed())),
            old(self).inner().polled(final(self).inner(), *old(fut), *final(fut), task, r.is_some()),
    {
        if self.s.poll(fut, task) {
            Some(SemaphorePermit { permits: fut.permits() })
        } else {
            None
        }
    }

    /// Drops an acquire future: it loses its place in the queue and the
    /// permits it had been given go back. Returns the tasks to wake.
    pub fn cancel_acquire(&mut self, fut: &mut Acquire) -> (woken: Vec<u64>)
        requires
            old(self).wf(),
            old(self).inner().tracks(*old(fut)),
            old(fut).index() matches Some(k) ==> old(self).available() + (old(fut).needed()
                - old(self).inner().remaining(k)) <= u32::MAX,
        ensures
            final(self).wf(),
            final(fut).index().is_none(),
            final(self).inner().supply() == old(self).inner().supply(),
            old(self).inner().cancelled(final(self).inner(), *old(fut), woken@),
    {
        self.s.cancel(fut)
    }
}

} // verus!
