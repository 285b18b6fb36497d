//! A reader-writer lock, as a state machine.
//!
//! The lock is a semaphore of `max_readers` permits: a reader takes one, a
//! writer takes them all. Guards are tokens; the protected value stays in the
//! lock and is read through `read_value` (with a read or write guard out) and
//! written through `write_value` (with the write guard out). Waiting lockers
//! queue first-in first-out, readers and writers alike, so a queued writer is
//! not starved by later readers.
use vstd::prelude::*;
use crate::sem_core;
use crate::sem_core::Acquire;
use crate::sums::seq_sum;
use crate::projection::{chain_ref, chain_ref_opt, chain_mut, chain_mut_opt, chains_ref, chains_ref_opt};

verus! {

/// The default bound on concurrent readers.
pub const MAX_READS: u32 = 536870911u32;

/// A reader-writer lock.
pub struct RwLock<T> {
    s: sem_core::Semaphore,
    c: T,
    max_readers: u32,
    readers: Ghost<nat>,
    writer: Ghost<bool>,
}

/// Shared read access; hand it back with `RwLock::release_read`.
#[derive(Debug)]
pub struct RwLockReadGuard {
    permits_acquired: u32,
}

/// Shared read access through the owned methods; hand it back with
/// `RwLock::release_read_owned`.
#[derive(Debug)]
pub struct OwnedRwLockReadGuard {
    permits_acquired: u32,
}

/// Exclusive write access; hand it back with `RwLock::release_write`.
#[derive(Debug)]
pub struct RwLockWriteGuard {
    permits_acquired: u32,
}

/// Exclusive write access through the owned methods; hand it back with
/// `RwLock::release_write_owned`.
#[derive(Debug)]
pub struct OwnedRwLockWriteGuard {
    permits_acquired: u32,
}

/// Shared read access to a component chosen by the projection `f`.
pub struct MappedRwLockReadGuard<F> {
    f: F,
    permits_acquired: u32,
}

/// Shared read access to a component, through the owned methods.
pub struct OwnedMappedRwLockReadGuard<F> {
    f: F,
    permits_acquired: u32,
}

/// Exclusive write access to a component chosen by the projection `f`.
pub struct MappedRwLockWriteGuard<F> {
    f: F,
    permits_acquired: u32,
}

/// Exclusive write access to a component, through the owned methods.
pub struct OwnedMappedRwLockWriteGuard<F> {
    f: F,
    permits_acquired: u32,
}

impl RwLockReadGuard {
    pub closed spec fn permits(self) -> nat {
        self.permits_acquired as nat
    }

    /// Makes a guard for a component of the read value; the read access moves
    /// to the new guard.
    pub fn map<T, U, F>(orig: Self, f: F) -> (r: MappedRwLockReadGuard<F>) where F: Fn(&T) -> &U
        ensures
            r.projection() == f,
            r.permits() == orig.permits(),
    {
        MappedRwLockReadGuard::new(f, orig.permits_acquired)
    }

    /// Attempts to make a guard for a component of the value of `lock`; where
    /// `f` gives none, the guard passed in comes back.
    pub fn try_map<T, U, F>(orig: Self, lock: &RwLock<T>, f: F) -> (r: Result<
        MappedRwLockReadGuard<F>,
        Self,
    >) where F: Fn(&T) -> Option<&U>
        requires
            f.requires((&lock.value(),)),
        ensures
            r matches Ok(g) ==> g.projection() == f && g.permits() == orig.permits()
                && exists|u: Option<&U>| f.ensures((&lock.value(),), u) && u.is_some(),
            r matches Err(g) ==> g == orig && exists|u: Option<&U>| f.ensures((&lock.value(),), u)
                && u.is_none(),
    {
        let some = f(&lock.c).is_some();
        if some {
            Ok(MappedRwLockReadGuard::new(f, orig.permits_acquired))
        } else {
            Err(orig)
        }
    }
}

impl OwnedRwLockReadGuard {
    pub closed spec fn permits(self) -> nat {
        self.permits_acquired as nat
    }

    /// Makes a guard for a component of the read value.
    pub fn map<T, U, F>(orig: Self, f: F) -> (r: OwnedMappedRwLockReadGuard<F>) where F: Fn(&T) -> &U
        ensures
            r.projection() == f,
            r.permits() == orig.permits(),
    {
        OwnedMappedRwLockReadGuard::new(f, orig.permits_acquired)
    }

    /// Attempts to make a guard for a component of the value of `lock`; where
    /// `f` gives none, the guard passed in comes back.
    pub fn filter_map<T, U, F>(orig: Self, lock: &RwLock<T>, f: F) -> (r: Result<
        OwnedMappedRwLockReadGuard<F>,
        Self,
    >) where F: Fn(&T) -> Option<&U>
        requires
            f.requires((&lock.value(),)),
        ensures
            r matches Ok(g) ==> g.projection() == f && g.permits() == orig.permits(),
            r matches Err(g) ==> g == orig,
            exists|u: Option<&U>| f.ensures((&lock.value(),), u) && (u is Some <==> r is Ok),
    {
        let some = f(&lock.c).is_some();
        if some {
            Ok(OwnedMappedRwLockReadGuard::new(f, orig.permits_acquired))
        } else {
            Err(orig)
        }
    }
}

impl RwLockWriteGuard {
    pub closed spec fn permits(self) -> nat {
        self.permits_acquired as nat
    }

    /// Makes a guard for a component of the written value; the write access
    /// moves to the new guard.
    pub fn map<T, U, F>(orig: Self, f: F) -> (r: MappedRwLockWriteGuard<F>) where F: Fn(&mut T) -> &mut U
        ensures
            r.projection() == f,
            r.permits() == orig.permits(),
    {
        MappedRwLockWriteGuard::new(f, orig.permits_acquired)
    }

    /// Attempts to make a guard for a component of the value of `lock`; where
    /// `f` gives none, the guard passed in comes back.
    pub fn try_map<T, U, F>(orig: Self, lock: &mut RwLock<T>, f: F) -> (r: Result<
        MappedRwLockWriteGuard<F>,
        Self,
    >) where F: Fn(&mut T) -> Option<&mut U>
        requires
            forall|x: &mut T| #[trigger] f.requires((x,)),
        ensures
            r matches Ok(g) ==> g.projection() == f && g.permits() == orig.permits(),
            r matches Err(g) ==> g == orig,
            exists|x: &mut T, o: Option<&mut U>|
                #![trigger f.ensures((x,), o)]
                *x == old(lock).value() && f.ensures((x,), o) && (o is Some <==> r is Ok)
                    && final(lock).value() == *final(x),
            final(lock).inner() == old(lock).inner(),
            final(lock).max_readers() == old(lock).max_readers(),
            final(lock).readers() == old(lock).readers(),
            final(lock).has_writer() == old(lock).has_writer(),
    {
        let some = f(&mut lock.c).is_some();
        if some {
            Ok(MappedRwLockWriteGuard::new(f, orig.permits_acquired))
        } else {
            Err(orig)
        }
    }
}

impl OwnedRwLockWriteGuard {
    pub closed spec fn permits(self) -> nat {
        self.permits_acquired as nat
    }

    /// Makes a guard for a component of the written value.
    pub fn map<T, U, F>(orig: Self, f: F) -> (r: OwnedMappedRwLockWriteGuard<F>) where F: Fn(&mut T) -> &mut U
        ensures
            r.projection() == f,
            r.permits() == orig.permits(),
    {
        OwnedMappedRwLockWriteGuard::new(f, orig.permits_acquired)
    }
}

impl<F> MappedRwLockReadGuard<F> {
    pub closed spec fn projection(self) -> F {
        self.f
    }

    pub closed spec fn permits(self) -> nat {
        self.permits_acquired as nat
    }

    pub(crate) fn new(f: F, permits_acquired: u32) -> (r: Self)
        ensures
            r.projection() == f,
            r.permits() == permits_acquired,
    {
        MappedRwLockReadGuard { f, permits_acquired }
    }

    /// Makes a guard for a component of the component this guard reads; the
    /// read access moves to the new guard.
    pub fn map<T, U: 'static, V, H>(orig: Self, h: H) -> (r: MappedRwLockReadGuard<impl Fn(&T) -> &V>) where
        F: Fn(&T) -> &U,
        H: Fn(&U) -> &V,

        requires
            forall|t: &T| #[trigger] orig.projection().requires((t,)),
            forall|u: &U| #[trigger] h.requires((u,)),
        ensures
            chains_ref(r.projection(), orig.projection(), h),
            r.permits() == orig.permits(),
    {
        proof {
            assert(orig.f == orig.projection());
        }
        let MappedRwLockReadGuard { f, permits_acquired } = orig;
        MappedRwLockReadGuard::new(chain_ref(f, h), permits_acquired)
    }

    /// Attempts to make a guard for a component of the component this guard
    /// reads in `lock`; where `h` gives none, the guard passed in comes back.
    pub fn filter_map<T, U: 'static, V, H>(orig: Self, lock: &RwLock<T>, h: H) -> (r: Result<
        MappedRwLockReadGuard<impl Fn(&T) -> Option<&V>>,
        Self,
    >) where
        F: Fn(&T) -> &U,
        H: Fn(&U) -> Option<&V>,

        requires
            forall|t: &T| #[trigger] orig.projection().requires((t,)),
            forall|u: &U| #[trigger] h.requires((u,)),
        ensures
            r matches Ok(g) ==> chains_ref_opt(g.projection(), orig.projection(), h) && g.permits()
                == orig.permits(),
            r matches Err(g) ==> g == orig,
            exists|u: &U, o: Option<&V>|
                #![trigger orig.projection().ensures((&lock.value(),), u), h.ensures((u,), o)]
                orig.projection().ensures((&lock.value(),), u) && h.ensures((u,), o) && (o is Some
                    <==> r is Ok),
    {
        proof {
            assert(orig.f == orig.projection());
        }
        let u = (orig.f)(&lock.c);
        let o = h(u);
        proof {
            assert(orig.projection().ensures((&lock.value(),), u));
        }
        let some = o.is_some();
        if some {
            let MappedRwLockReadGuard { f, permits_acquired } = orig;
            Ok(MappedRwLockReadGuard::new(chain_ref_opt(f, h), permits_acquired))
        } else {
            Err(orig)
        }
    }
}

impl<F> OwnedMappedRwLockReadGuard<F> {
    pub closed spec fn projection(self) -> F {
        self.f
    }

    pub closed spec fn permits(self) -> nat {
        self.permits_acquired as nat
    }

    pub(crate) fn new(f: F, permits_acquired: u32) -> (r: Self)
        ensures
            r.projection() == f,
            r.permits() == permits_acquired,
    {
        OwnedMappedRwLockReadGuard { f, permits_acquired }
    }

    /// Makes a guard for a component of the component this guard reads; the
    /// read access moves to the new guard.
    pub fn map<T, U: 'static, V, H>(orig: Self, h: H) -> (r: OwnedMappedRwLockReadGuard<impl Fn(&T) -> &V>) where
        F: Fn(&T) -> &U,
        H: Fn(&U) -> &V,

        requires
            forall|t: &T| #[trigger] orig.projection().requires((t,)),
            forall|u: &U| #[trigger] h.requires((u,)),
        ensures
            chains_ref(r.projection(), orig.projection(), h),
            r.permits() == orig.permits(),
    {
        proof {
            assert(orig.f == orig.projection());
        }
        let OwnedMappedRwLockReadGuard { f, permits_acquired } = orig;
        OwnedMappedRwLockReadGuard::new(chain_ref(f, h), permits_acquired)
    }

    /// Attempts to make a guard for a component of the component this guard
    /// reads in `lock`; where `h` gives none, the guard passed in comes back.
    pub fn filter_map<T, U: 'static, V, H>(orig: Self, lock: &RwLock<T>, h: H) -> (r: Result<
        OwnedMappedRwLockReadGuard<impl Fn(&T) -> Option<&V>>,
        Self,
    >) where
        F: Fn(&T) -> &U,
        H: Fn(&U) -> Option<&V>,

        requires
            forall|t: &T| #[trigger] orig.projection().requires((t,)),
            forall|u: &U| #[trigger] h.requires((u,)),
        ensures
            r matches Ok(g) ==> chains_ref_opt(g.projection(), orig.projection(), h) && g.permits()
                == orig.permits(),
            r matches Err(g) ==> g == orig,
            exists|u: &U, o: Option<&V>|
                #![trigger orig.projection().ensures((&lock.value(),), u), h.ensures((u,), o)]
                orig.projection().ensures((&lock.value(),), u) && h.ensures((u,), o) && (o is Some
                    <==> r is Ok),
    {
        proof {
            assert(orig.f == orig.projection());
        }
        let u = (orig.f)(&lock.c);
        let o = h(u);
        proof {
            assert(orig.projection().ensures((&lock.value(),), u));
        }
        let some = o.is_some();
        if some {
            let OwnedMappedRwLockReadGuard { f, permits_acquired } = orig;
            Ok(OwnedMappedRwLockReadGuard::new(chain_ref_opt(f, h), permits_acquired))
        } else {
            Err(orig)
        }
    }
}

impl<F> MappedRwLockWriteGuard<F> {
    pub closed spec fn projection(self) -> F {
        self.f
    }

    pub closed spec fn permits(self) -> nat {
        self.permits_acquired as nat
    }

    pub(crate) fn new(f: F, permits_acquired: u32) -> (r: Self)
        ensures
            r.projection() == f,
            r.permits() == permits_acquired,
    {
        MappedRwLockWriteGuard { f, permits_acquired }
    }

    /// Makes a guard for a component of the component this guard writes; the
    /// write access moves to the new guard.
    pub fn map<T, U: 'static, V, H>(orig: Self, h: H) -> (r: MappedRwLockWriteGuard<impl Fn(&mut T) -> &mut V>) where
        F: Fn(&mut T) -> &mut U,
        H: Fn(&mut U) -> &mut V,

        requires
            forall|t: &mut T| #[trigger] orig.projection().requires((t,)),
            forall|u: &mut U| #[trigger] h.requires((u,)),
        ensures
            forall|t: &mut T| #[trigger] r.projection().requires((t,)),
            forall|t: &mut T, v: &mut V| #[trigger]
                r.projection().ensures((t,), v) ==> exists|x: &mut T, u: &mut U, y: &mut U|
                    *x == *t && *final(x) == *final(t) && orig.projection().ensures((x,), u) && *y
                        == *u && *final(y) == *final(u) && h.ensures((y,), v),
            r.permits() == orig.permits(),
    {
        proof {
            assert(orig.f == orig.projection());
        }
        let MappedRwLockWriteGuard { f, permits_acquired } = orig;
        MappedRwLockWriteGuard::new(chain_mut(f, h), permits_acquired)
    }

    /// Attempts to make a guard for a component of the component this guard
    /// writes in `lock`; where `h` gives none, the guard passed in comes back.
    pub fn try_map<T, U: 'static, V, H>(orig: Self, lock: &mut RwLock<T>, h: H) -> (r: Result<
        MappedRwLockWriteGuard<impl Fn(&mut T) -> Option<&mut V>>,
        Self,
    >) where
        F: Fn(&mut T) -> &mut U,
        H: Fn(&mut U) -> Option<&mut V>,

        requires
            forall|t: &mut T| #[trigger] orig.projection().requires((t,)),
            forall|u: &mut U| #[trigger] h.requires((u,)),
        ensures
            r matches Ok(g) ==> g.permits() == orig.permits() && (forall|t: &mut T| #[trigger]
                g.projection().requires((t,))) && forall|t: &mut T, v: Option<&mut V>| #[trigger]
                g.projection().ensures((t,), v) ==> exists|x: &mut T, u: &mut U, y: &mut U|
                    *x == *t && *final(x) == *final(t) && orig.projection().ensures((x,), u) && *y
                        == *u && *final(y) == *final(u) && h.ensures((y,), v),
            r matches Err(g) ==> g == orig,
            exists|x: &mut T, u: &mut U, y: &mut U, o: Option<&mut V>|
                #![trigger orig.projection().ensures((x,), u), h.ensures((y,), o)]
                *x == old(lock).value() && orig.projection().ensures((x,), u) && *y == *u
                    && *final(y) == *final(u) && h.ensures((y,), o) && (o is Some <==> r is Ok)
                    && final(lock).value() == *final(x),
            final(lock).inner() == old(lock).inner(),
            final(lock).max_readers() == old(lock).max_readers(),
            final(lock).readers() == old(lock).readers(),
            final(lock).has_writer() == old(lock).has_writer(),
    {
        proof {
            assert(orig.f == orig.projection());
        }
        let some = h((orig.f)(&mut lock.c)).is_some();
        if some {
            let MappedRwLockWriteGuard { f, permits_acquired } = orig;
            Ok(MappedRwLockWriteGuard::new(chain_mut_opt(f, h), permits_acquired))
        } else {
            Err(orig)
        }
    }
}

impl<F> OwnedMappedRwLockWriteGuard<F> {
    pub closed spec fn projection(self) -> F {
        self.f
    }

    pub closed spec fn permits(self) -> nat {
        self.permits_acquired as nat
    }

    pub(crate) fn new(f: F, permits_acquired: u32) -> (r: Self)
        ensures
            r.projection() == f,
            r.permits() == permits_acquired,
    {
        OwnedMappedRwLockWriteGuard { f, permits_acquired }
    }

    /// Makes a guard for a component of the component this guard writes; the
    /// write access moves to the new guard.
    pub fn map<T, U: 'static, V, H>(orig: Self, h: H) -> (r: OwnedMappedRwLockWriteGuard<impl Fn(&mut T) -> &mut V>) where
        F: Fn(&mut T) -> &mut U,
        H: Fn(&mut U) -> &mut V,

        requires
            forall|t: &mut T| #[trigger] orig.projection().requires((t,)),
            forall|u: &mut U| #[trigger] h.requires((u,)),
        ensures
            forall|t: &mut T| #[trigger] r.projection().requires((t,)),
            forall|t: &mut T, v: &mut V| #[trigger]
                r.projection().ensures((t,), v) ==> exists|x: &mut T, u: &mut U, y: &mut U|
                    *x == *t && *final(x) == *final(t) && orig.projection().ensures((x,), u) && *y
                        == *u && *final(y) == *final(u) && h.ensures((y,), v),
            r.permits() == orig.permits(),
    {
        proof {
            assert(orig.f == orig.projection());
        }
        let OwnedMappedRwLockWriteGuard { f, permits_acquired } = orig;
        OwnedMappedRwLockWriteGuard::new(chain_mut(f, h), permits_acquired)
    }

    /// Attempts to make a guard for a component of the component this guard
    /// writes in `lock`; where `h` gives none, the guard passed in comes back.
    pub fn filter_map<T, U: 'static, V, H>(orig: Self, lock: &mut RwLock<T>, h: H) -> (r: Result<
        OwnedMappedRwLockWriteGuard<impl Fn(&mut T) -> Option<&mut V>>,
        Self,
    >) where
        F: Fn(&mut T) -> &mut U,
        H: Fn(&mut U) -> Option<&mut V>,

        requires
            forall|t: &mut T| #[trigger] orig.projection().requires((t,)),
            forall|u: &mut U| #[trigger] h.requires((u,)),
        ensures
            r matches Ok(g) ==> g.permits() == orig.permits() && (forall|t: &mut T| #[trigger]
                g.projection().requires((t,))) && forall|t: &mut T, v: Option<&mut V>| #[trigger]
                g.projection().ensures((t,), v) ==> exists|x: &mut T, u: &mut U, y: &mut U|
                    *x == *t && *final(x) == *final(t) && orig.projection().ensures((x,), u) && *y
                        == *u && *final(y) == *final(u) && h.ensures((y,), v),
            r matches Err(g) ==> g == orig,
            exists|x: &mut T, u: &mut U, y: &mut U, o: Option<&mut V>|
                #![trigger orig.projection().ensures((x,), u), h.ensures((y,), o)]
                *x == old(lock).value() && orig.projection().ensures((x,), u) && *y == *u
                    && *final(y) == *final(u) && h.ensures((y,), o) && (o is Some <==> r is Ok)
                    && final(lock).value() == *final(x),
            final(lock).inner() == old(lock).inner(),
            final(lock).max_readers() == old(lock).max_readers(),
            final(lock).readers() == old(lock).readers(),
            final(lock).has_writer() == old(lock).has_writer(),
    {
        proof {
            assert(orig.f == orig.projection());
        }
        let some = h((orig.f)(&mut lock.c)).is_some();
        if some {
            let OwnedMappedRwLockWriteGuard { f, permits_acquired } = orig;
            Ok(OwnedMappedRwLockWriteGuard::new(chain_mut_opt(f, h), permits_acquired))
        } else {
            Err(orig)
        }
    }

    /// Turns the write access into read access: all permits but one go back
    /// to `lock`, and the reader guard reads through `g`. Returns the guard and
    /// the tasks to wake.
    pub fn downgrade<T, G>(self, lock: &mut RwLock<T>, g: G) -> (r: (
        OwnedMappedRwLockReadGuard<G>,
        Vec<u64>,
    ))
        requires
            old(lock).wf(),
            old(lock).has_writer(),
            self.permits() == old(lock).max_readers(),
        ensures
            final(lock).wf(),
            !final(lock).has_writer(),
            final(lock).readers() == 1,
            r.0.projection() == g,
            r.0.permits() == 1,
            final(lock).value() == old(lock).value(),
            final(lock).max_readers() == old(lock).max_readers(),
            old(lock).inner().released(final(lock).inner(), old(lock).max_readers() - 1, r.1@),
    {
        let woken = lock.downgrade_permits();
        (OwnedMappedRwLockReadGuard::new(g, 1), woken)
    }
}

impl<T> RwLock<T> {
    pub closed spec fn inner(self) -> sem_core::Semaphore {
        self.s
    }

    pub closed spec fn value(self) -> T {
        self.c
    }

    pub closed spec fn max_readers(self) -> nat {
        self.max_readers as nat
    }

    /// The number of read guards out.
    pub closed spec fn readers(self) -> nat {
        self.readers@
    }

    /// Whether the write guard is out.
    pub closed spec fn has_writer(self) -> bool {
        self.writer@
    }

    /// Well-formedness: every permit is available, granted to a queued locker,
    /// or held by a guard: one per reader, all of them for the writer.
    pub closed spec fn wf(self) -> bool {
        &&& self.s.wf()
        &&& self.max_readers >= 1
        &&& self.s.supply() + self.readers@ + (if self.writer@ {
            self.max_readers as int
        } else {
            0
        }) == self.max_readers
    }

    /// A writer excludes readers, and readers never exceed `max_readers`.
    pub proof fn lemma_exclusion(self)
        requires
            self.wf(),
        ensures
            self.has_writer() ==> self.readers() == 0 && self.inner().supply() == 0,
            self.readers() <= self.max_readers(),
            self.inner().permits() + self.readers() <= self.max_readers(),
            self.has_writer() ==> self.inner().permits() == 0,
    {
        self.s.lemma_supply_bounds();
    }

    /// A lock that nobody holds and nobody waits on, not even a locker that
    /// was handed permits and has yet to take them, has every permit
    /// available: `try_write` succeeds, and so do `max_readers` `try_read`s.
    pub proof fn lemma_unheld_grants(self)
        requires
            self.wf(),
            self.readers() == 0,
            !self.has_writer(),
            self.inner().order().len() == 0,
            self.inner().detached().len() == 0,
        ensures
            self.inner().permits() == self.max_readers(),
    {
        assert(seq_sum(self.inner().order(), self.inner().granted_fn()) == 0);
        assert(seq_sum(self.inner().detached(), self.inner().granted_fn()) == 0);
    }

    /// Releasing the writer while nobody waits makes every permit available
    /// again and wakes nobody: then as many as `max_readers` readers, or a
    /// writer, can take the lock at once.
    pub proof fn lemma_write_release_frees(self, after: Self, woken: Seq<u64>)
        requires
            self.wf(),
            self.has_writer(),
            self.inner().order().len() == 0,
            self.inner().released(after.inner(), self.max_readers() as int, woken),
        ensures
            after.inner().permits() == self.max_readers(),
            woken.len() == 0,
    {
        self.lemma_exclusion();
        self.inner().lemma_release_to_empty_queue(after.inner(), self.max_readers() as int, woken);
    }

    /// Creates a lock with the default bound on concurrent readers.
    pub fn new(t: T) -> (l: Self)
        ensures
            l.wf(),
            l.value() == t,
            l.max_readers() == MAX_READS,
            l.readers() == 0,
            !l.has_writer(),
            l.inner().order().len() == 0,
            l.inner().detached().len() == 0,
            l.inner().permits() == MAX_READS,
    {
        Self::with_max_readers(t, MAX_READS)
    }

    /// Creates a lock that admits at most `max_readers` concurrent readers.
    pub fn with_max_readers(t: T, max_readers: u32) -> (l: Self)
        requires
            max_readers >= 1,
        ensures
            l.wf(),
            l.value() == t,
            l.max_readers() == max_readers,
            l.readers() == 0,
            !l.has_writer(),
            l.inner().order().len() == 0,
            l.inner().detached().len() == 0,
            l.inner().permits() == max_readers,
    {
        RwLock {
            s: sem_core::Semaphore::new(max_readers),
            c: t,
            max_readers,
            readers: Ghost(0),
            writer: Ghost(false),
        }
    }

    /// Consumes the lock, returning the underlying data.
    pub fn into_inner(self) -> (t: T)
        requires
            self.wf(),
            self.readers() == 0,
            !self.has_writer(),
        ensures
            t == self.value(),
    {
        self.c
    }

    /// Returns a mutable reference to the underlying data.
    pub fn get_mut(&mut self) -> (r: &mut T)
        requires
            old(self).wf(),
            old(self).readers() == 0,
            !old(self).has_writer(),
        ensures
            *r == old(self).value(),
            final(self).value() == *final(r),
            final(self).inner() == old(self).inner(),
            final(self).readers() == 0,
            !final(self).has_writer(),
            final(self).max_readers() == old(self).max_readers(),
            final(self).wf(),
    {
        &mut self.c
    }

    /// The protected value, read with a guard out.
    pub fn read_value(&self) -> (r: &T)
        requires
            self.wf(),
            self.readers() > 0 || self.has_writer(),
        ensures
            *r == self.value(),
    {
        &self.c
    }

    /// The protected value, written with the write guard out.
    pub fn write_value(&mut self) -> (r: &mut T)
        requires
            old(self).wf(),
            old(self).has_writer(),
        ensures
            *r == old(self).value(),
            final(self).value() == *final(r),
            final(self).inner() == old(self).inner(),
            final(self).readers() == old(self).readers(),
            final(self).has_writer(),
            final(self).max_readers() == old(self).max_readers(),
            final(self).wf(),
    {
        &mut self.c
    }

    /// The component that a mapped read guard picks.
    pub fn read_mapped<'a, U, F>(&'a self, g: &MappedRwLockReadGuard<F>) -> (r: &'a U) where
        F: Fn(&T) -> &U,

        requires
            self.wf(),
            self.readers() > 0,
            g.projection().requires((&self.value(),)),
        ensures
            g.projection().ensures((&self.value(),), r),
    {
        (g.f)(&self.c)
    }

    /// The component that a mapped write guard picks.
    pub fn write_mapped<'a, U, F>(&'a mut self, g: &MappedRwLockWriteGuard<F>) -> (r: &'a mut U) where
        F: Fn(&mut T) -> &mut U,

        requires
            old(self).wf(),
            old(self).has_writer(),
            forall|x: &mut T| #[trigger] g.projection().requires((x,)),
        ensures
            exists|x: &mut T|
                *x == old(self).value() && #[trigger] g.projection().ensures((x,), r)
                    && final(self).value() == *final(x),
            final(self).inner() == old(self).inner(),
            final(self).readers() == old(self).readers(),
            final(self).has_writer(),
            final(self).max_readers() == old(self).max_readers(),
            final(self).wf(),
    {
        let RwLock { c, .. } = self;
        proof {
            assert(g.f == g.projection());
        }
        (g.f)(c)
    }

    fn take_read(&mut self) -> (r: bool)
        requires
            old(self).wf(),
        ensures
            final(self).wf(),
            r == (old(self).inner().permits() >= 1),
            old(self).has_writer() ==> !r,
            final(self).readers() == old(self).readers() + (if r {
                1int
            } else {
                0
            }),
            final(self).has_writer() == old(self).has_writer(),
            final(self).value() == old(self).value(),
            final(self).max_readers() == old(self).max_readers(),
            final(self).inner().same_waiters(old(self).inner()),
            final(self).inner().permits() == old(self).inner().permits() - (if r {
                1int
            } else {
                0
            }),
    {
        proof {
            self.lemma_exclusion();
        }
        let r = self.s.try_acquire(1);
        if r {
            proof {
                self.readers@ = self.readers@ + 1;
            }
        }
        r
    }

    fn take_write(&mut self) -> (r: bool)
        requires
            old(self).wf(),
        ensures
            final(self).wf(),
            r == (old(self).inner().permits() >= old(self).max_readers()),
            old(self).has_writer() || old(self).readers() > 0 ==> !r,
            r ==> final(self).has_writer() && final(self).readers() == 0,
            !r ==> final(self).has_writer() == old(self).has_writer() && final(self).readers()
                == old(self).readers(),
            final(self).value() == old(self).value(),
            final(self).max_readers() == old(self).max_readers(),
            final(self).inner().same_waiters(old(self).inner()),
            final(self).inner().permits() == old(self).inner().permits() - (if r {
                old(self).max_readers() as int
            } else {
                0
            }),
    {
        proof {
            self.lemma_exclusion();
        }
        let r = self.s.try_acquire(self.max_readers);
        if r {
            proof {
                self.s.lemma_supply_bounds();
                self.writer@ = true;
            }
        }
        r
    }

    /// Attempts to take shared read access: succeeds exactly when a permit is
    /// available, never while the writer holds the lock.
    pub fn try_read(&mut self) -> (r: Option<RwLockReadGuard>)
        requires
            old(self).wf(),
        ensures
            final(self).wf(),
            r.is_some() == (old(self).inner().permits() >= 1),
            old(self).has_writer() ==> r.is_none(),
            final(self).readers() == old(self).readers() + (if r.is_some() {
                1int
            } else {
                0
            }),
            final(self).has_writer() == old(self).has_writer(),
            final(self).value() == old(self).value(),
            final(self).max_readers() == old(self).max_readers(),
            r matches Some(g) ==> g.permits() == 1,
            final(self).inner().same_waiters(old(self).inner()),
            final(self).inner().permits() == old(self).inner().permits() - (if r.is_some() {
                1int
            } else {
                0
            }),
    {
        if self.take_read() {
            Some(RwLockReadGuard { permits_acquired: 1 })
        } else {
            None
        }
    }

    /// Attempts to take shared read access, giving an owned guard.
    pub fn try_read_owned(&mut self) -> (r: Option<OwnedRwLockReadGuard>)
        requires
            old(self).wf(),
        ensures
            final(self).wf(),
            r.is_some() == (old(self).inner().permits() >= 1),
            old(self).has_writer() ==> r.is_none(),
            final(self).readers() == old(self).readers() + (if r.is_some() {
                1int
            } else {
                0
            }),
            final(self).has_writer() == old(self).has_writer(),
            final(self).value() == old(self).value(),
            final(self).max_readers() == old(self).max_readers(),
            r matches Some(g) ==> g.permits() == 1,
            final(self).inner().same_waiters(old(self).inner()),
            final(self).inner().permits() == old(self).inner().permits() - (if r.is_some() {
                1int
            } else {
                0
            }),
    {
        if self.take_read() {
            Some(OwnedRwLockReadGuard { permits_acquired: 1 })
        } else {
            None
        }
    }

    /// Attempts to take exclusive write access: succeeds exactly when all
    /// permits are available, never while a reader or the writer holds it.
    pub fn try_write(&mut self) -> (r: Option<RwLockWriteGuard>)
        requires
            old(self).wf(),
        ensures
            final(self).wf(),
            r.is_some() == (old(self).inner().permits() >= old(self).max_readers()),
            old(self).has_writer() || old(self).readers() > 0 ==> r.is_none(),
            r is Some ==> final(self).has_writer() && final(self).readers() == 0,
            r is None ==> final(self).has_writer() == old(self).has_writer()
                && final(self).readers() == old(self).readers(),
            final(self).value() == old(self).value(),
            final(self).max_readers() == old(self).max_readers(),
            r matches Some(g) ==> g.permits() == old(self).max_readers(),
            final(self).inner().same_waiters(old(self).inner()),
            final(self).inner().permits() == old(self).inner().permits() - (if r.is_some() {
                old(self).max_readers() as int
            } else {
                0
            }),
    {
        if self.take_write() {
            Some(RwLockWriteGuard { permits_acquired: self.max_readers })
        } else {
            None
        }
    }

    /// Attempts to take exclusive write access, giving an owned guard.
    pub fn try_write_owned(&mut self) -> (r: Option<OwnedRwLockWriteGuard>)
        requires
            old(self).wf(),
        ensures
            final(self).wf(),
            r.is_some() == (old(self).inner().permits() >= old(self).max_readers()),
            old(self).has_writer() || old(self).readers() > 0 ==> r.is_none(),
            r is Some ==> final(self).has_writer() && final(self).readers() == 0,
            r is None ==> final(self).has_writer() == old(self).has_writer()
                && final(self).readers() == old(self).readers(),
            final(self).value() == old(self).value(),
            final(self).max_readers() == old(self).max_readers(),
            r matches Some(g) ==> g.permits() == old(self).max_readers(),
            final(self).inner().same_waiters(old(self).inner()),
            final(self).inner().permits() == old(self).inner().permits() - (if r.is_some() {
                old(self).max_readers() as int
            } else {
                0
            }),
    {
        if self.take_write() {
            Some(OwnedRwLockWriteGuard { permits_acquired: self.max_readers })
        } else {
            None
        }
    }

    /// The state of a read future; drive it with `poll_read`.
    pub fn read(&self) -> (fut: Acquire)
        ensures
            fut.needed() == 1,
            fut.index().is_none(),
            !fut.is_done(),
    {
        Acquire::new(1)
    }

    /// The state of a write future; drive it with `poll_write`.
    pub fn write(&self) -> (fut: Acquire)
        ensures
            fut.needed() == self.max_readers(),
            fut.index().is_none(),
            !fut.is_done(),
    {
        Acquire::new(self.max_readers)
    }

    /// One poll of a read future by task `task`: the guard once the future
    /// has its permit.
    pub fn poll_read(&mut self, fut: &mut Acquire, task: u64) -> (r: Option<RwLockReadGuard>)
        requires
            old(self).wf(),
            old(self).inner().tracks(*old(fut)),
            old(fut).needed() == 1,
            !old(fut).is_done(),
        ensures
            final(self).wf(),
            final(self).inner().tracks(*final(fut)),
            r.is_some() == final(fut).is_done(),
            old(self).has_writer() ==> r.is_none(),
            final(self).readers() == old(self).readers() + (if r.is_some() {
                1int
            } else {
                0
            }),
            final(self).has_writer() == old(self).has_writer(),
            final(self).value() == old(self).value(),
            final(self).max_readers() == old(self).max_readers(),
            old(self).inner().polled(final(self).inner(), *old(fut), *final(fut), task, r.is_some()),
    {
        proof {
            self.lemma_exclusion();
        }
        let ready = self.s.poll(fut, task);
        proof {
            self.s.lemma_supply_bounds();
        }
        if ready {
            proof {
                self.readers@ = self.readers@ + 1;
            }
            Some(RwLockReadGuard { permits_acquired: 1 })
        } else {
            None
        }
    }

    /// One poll of a write future by task `task`: the guard once the future
    /// has all permits.
    pub fn poll_write(&mut self, fut: &mut Acquire, task: u64) -> (r: Option<RwLockWriteGuard>)
        requires
            old(self).wf(),
            old(self).inner().tracks(*old(fut)),
            old(fut).needed() == old(self).max_readers(),
            !old(fut).is_done(),
        ensures
            final(self).wf(),
            final(self).inner().tracks(*final(fut)),
            r.is_some() == final(fut).is_done(),
            old(self).has_writer() || old(self).readers() > 0 ==> r.is_none(),
            r is Some ==> final(self).has_writer() && final(self).readers() == 0,
            r is None ==> final(self).has_writer() == old(self).has_writer()
                && final(self).readers() == old(self).readers(),
            final(self).value() == old(self).value(),
            final(self).max_readers() == old(self).max_readers(),
            old(self).inner().polled(final(self).inner(), *old(fut), *final(fut), task, r.is_some()),
    {
        proof {
            self.lemma_exclusion();
        }
        if self.s.poll(fut, task) {
            proof {
                self.s.lemma_supply_bounds();
                self.writer@ = true;
            }
            Some(RwLockWriteGuard { permits_acquired: self.max_readers })
        } else {
            None
        }
    }

    /// The state of a read future that gives an owned guard; drive it with
    /// `poll_read_owned`.
    pub fn read_owned(&self) -> (fut: Acquire)
        ensures
            fut.needed() == 1,
            fut.index().is_none(),
            !fut.is_done(),
    {
        Acquire::new(1)
    }

    /// The state of a write future that gives an owned guard; drive it with
    /// `poll_write_owned`.
    pub fn write_owned(&self) -> (fut: Acquire)
        ensures
            fut.needed() == self.max_readers(),
            fut.index().is_none(),
            !fut.is_done(),
    {
        Acquire::new(self.max_readers)
    }

    /// One poll of an owned read future by task `task`: the owned guard once
    /// the future has its permit.
    pub fn poll_read_owned(&mut self, fut: &mut Acquire, task: u64) -> (r: Option<OwnedRwLockReadGuard>)
        requires
            old(self).wf(),
            old(self).inner().tracks(*old(fut)),
            old(fut).needed() == 1,
            !old(fut).is_done(),
        ensures
            final(self).wf(),
            final(self).inner().tracks(*final(fut)),
            r.is_some() == final(fut).is_done(),
            old(self).has_writer() ==> r.is_none(),
            final(self).readers() == old(self).readers() + (if r.is_some() {
                1int
            } else {
                0
            }),
            final(self).has_writer() == old(self).has_writer(),
            final(self).value() == old(self).value(),
            final(self).max_readers() == old(self).max_readers(),
            old(self).inner().polled(final(self).inner(), *old(fut), *final(fut), task, r.is_some()),
            r matches Some(g) ==> g.permits() == 1,
    {
        match self.poll_read(fut, task) {
            Some(_) => Some(OwnedRwLockReadGuard { permits_acquired: 1 }),
            None => None,
        }
    }

    /// One poll of an owned write future by task `task`: the owned guard once
    /// the future has all permits.
    pub fn poll_write_owned(&mut self, fut: &mut Acquire, task: u64) -> (r: Option<OwnedRwLockWriteGuard>)
        requires
            old(self).wf(),
            old(self).inner().tracks(*old(fut)),
            old(fut).needed() == old(self).max_readers(),
            !old(fut).is_done(),
        ensures
            final(self).wf(),
            final(self).inner().tracks(*final(fut)),
            r.is_some() == final(fut).is_done(),
            old(self).has_writer() || old(self).readers() > 0 ==> r.is_none(),
            r is Some ==> final(self).has_writer() && final(self).readers() == 0,
            r is None ==> final(self).has_writer() == old(self).has_writer()
                && final(self).readers() == old(self).readers(),
            final(self).value() == old(self).value(),
            final(self).max_readers() == old(self).max_readers(),
            old(self).inner().polled(final(self).inner(), *old(fut), *final(fut), task, r.is_some()),
            r matches Some(g) ==> g.permits() == old(self).max_readers(),
    {
        match self.poll_write(fut, task) {
            Some(_) => Some(OwnedRwLockWriteGuard { permits_acquired: self.max_readers }),
            None => None,
        }
    }

    /// Drops a read or write future: it loses its place in the queue and the
    /// permits it had been given go back. Returns the tasks to wake.
    pub fn cancel(&mut self, fut: &mut Acquire) -> (woken: Vec<u64>)
        requires
            old(self).wf(),
            old(self).inner().tracks(*old(fut)),
        ensures
            final(self).wf(),
            final(fut).index().is_none(),
            final(self).readers() == old(self).readers(),
            final(self).has_writer() == old(self).has_writer(),
            final(self).value() == old(self).value(),
            old(self).inner().cancelled(final(self).inner(), *old(fut), woken@),
    {
        proof {
            self.lemma_exclusion();
            if let Some(k) = fut.index() {
                self.s.lemma_granted_le_supply(k);
            }
        }
        self.s.cancel(fut)
    }

    fn give_back_read(&mut self) -> (woken: Vec<u64>)
        requires
            old(self).wf(),
            old(self).readers() > 0,
        ensures
            final(self).wf(),
            final(self).readers() == old(self).readers() - 1,
            final(self).has_writer() == old(self).has_writer(),
            final(self).value() == old(self).value(),
            final(self).max_readers() == old(self).max_readers(),
            old(self).inner().released(final(self).inner(), 1, woken@),
    {
        proof {
            self.lemma_exclusion();
            self.readers@ = (self.readers@ - 1) as nat;
        }
        self.s.release(1)
    }

    fn give_back_write(&mut self) -> (woken: Vec<u64>)
        requires
            old(self).wf(),
            old(self).has_writer(),
        ensures
            final(self).wf(),
            final(self).readers() == 0,
            !final(self).has_writer(),
            final(self).value() == old(self).value(),
            final(self).max_readers() == old(self).max_readers(),
            old(self).inner().released(final(self).inner(), old(self).max_readers() as int, woken@),
    {
        proof {
            self.lemma_exclusion();
            self.writer@ = false;
        }
        self.s.release(self.max_readers)
    }

    fn downgrade_permits(&mut self) -> (woken: Vec<u64>)
        requires
            old(self).wf(),
            old(self).has_writer(),
        ensures
            final(self).wf(),
            !final(self).has_writer(),
            final(self).readers() == 1,
            final(self).value() == old(self).value(),
            final(self).max_readers() == old(self).max_readers(),
            old(self).inner().released(final(self).inner(), old(self).max_readers() - 1, woken@),
    {
        proof {
            self.lemma_exclusion();
            self.writer@ = false;
            self.readers@ = 1;
        }
        self.s.release(self.max_readers - 1)
    }

    /// Hands a read guard back. Returns the tasks to wake.
    pub fn release_read(&mut self, guard: RwLockReadGuard) -> (woken: Vec<u64>)
        requires
            old(self).wf(),
            old(self).readers() > 0,
        ensures
            final(self).wf(),
            final(self).readers() == old(self).readers() - 1,
            final(self).has_writer() == old(self).has_writer(),
            final(self).value() == old(self).value(),
            final(self).max_readers() == old(self).max_readers(),
            old(self).inner().released(final(self).inner(), 1, woken@),
    {
        self.give_back_read()
    }

    /// Hands an owned read guard back.
    pub fn release_read_owned(&mut self, guard: OwnedRwLockReadGuard) -> (woken: Vec<u64>)
        requires
            old(self).wf(),
            old(self).readers() > 0,
        ensures
            final(self).wf(),
            final(self).readers() == old(self).readers() - 1,
            final(self).has_writer() == old(self).has_writer(),
            final(self).value() == old(self).value(),
            final(self).max_readers() == old(self).max_readers(),
            old(self).inner().released(final(self).inner(), 1, woken@),
    {
        self.give_back_read()
    }

    /// Hands a mapped read guard back.
    pub fn release_read_mapped<F>(&mut self, guard: MappedRwLockReadGuard<F>) -> (woken: Vec<u64>)
        requires
            old(self).wf(),
            old(self).readers() > 0,
        ensures
            final(self).wf(),
            final(self).readers() == old(self).readers() - 1,
            final(self).has_writer() == old(self).has_writer(),
            final(self).value() == old(self).value(),
            final(self).max_readers() == old(self).max_readers(),
            old(self).inner().released(final(self).inner(), 1, woken@),
    {
        self.give_back_read()
    }

    /// Hands an owned mapped read guard back.
    pub fn release_read_owned_mapped<F>(&mut self, guard: OwnedMappedRwLockReadGuard<F>) -> (woken:
        Vec<u64>)
        requires
            old(self).wf(),
            old(self).readers() > 0,
        ensures
            final(self).wf(),
            final(self).readers() == old(self).readers() - 1,
            final(self).has_writer() == old(self).has_writer(),
            final(self).value() == old(self).value(),
            final(self).max_readers() == old(self).max_readers(),
            old(self).inner().released(final(self).inner(), 1, woken@),
    {
        self.give_back_read()
    }

    /// Hands the write guard back. Returns the tasks to wake.
    pub fn release_write(&mut self, guard: RwLockWriteGuard) -> (woken: Vec<u64>)
        requires
            old(self).wf(),
            old(self).has_writer(),
        ensures
            final(self).wf(),
            final(self).readers() == 0,
            !final(self).has_writer(),
            final(self).value() == old(self).value(),
            final(self).max_readers() == old(self).max_readers(),
            old(self).inner().released(final(self).inner(), old(self).max_readers() as int, woken@),
    {
        self.give_back_write()
    }

    /// Hands the owned write guard back.
    pub fn release_write_owned(&mut self, guard: OwnedRwLockWriteGuard) -> (woken: Vec<u64>)
        requires
            old(self).wf(),
            old(self).has_writer(),
        ensures
            final(self).wf(),
            final(self).readers() == 0,
            !final(self).has_writer(),
            final(self).value() == old(self).value(),
            final(self).max_readers() == old(self).max_readers(),
            old(self).inner().released(final(self).inner(), old(self).max_readers() as int, woken@),
    {
        self.give_back_write()
    }

    /// Hands a mapped write guard back.
    pub fn release_write_mapped<F>(&mut self, guard: MappedRwLockWriteGuard<F>) -> (woken: Vec<u64>)
        requires
            old(self).wf(),
            old(self).has_writer(),
        ensures
            final(self).wf(),
            final(self).readers() == 0,
            !final(self).has_writer(),
            final(self).value() == old(self).value(),
            final(self).max_readers() == old(self).max_readers(),
            old(self).inner().released(final(self).inner(), old(self).max_readers() as int, woken@),
    {
        self.give_back_write()
    }

    /// Hands an owned mapped write guard back.
    pub fn release_write_owned_mapped<F>(&mut self, guard: OwnedMappedRwLockWriteGuard<F>) -> (woken:
        Vec<u64>)
        requires
            old(self).wf(),
            old(self).has_writer(),
        ensures
            final(self).wf(),
            final(self).readers() == 0,
            !final(self).has_writer(),
            final(self).value() == old(self).value(),
            final(self).max_readers() == old(self).max_readers(),
            old(self).inner().released(final(self).inner(), old(self).max_readers() as int, woken@),
    {
        self.give_back_write()
    }
}

} // verus!
