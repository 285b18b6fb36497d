//! A condition variable whose waiters are kept in a notification set.
//!
//! A wait first releases the caller's guard and registers the task; a later
//! poll completes once a notification reached it. Cancelling a notified wait
//! passes the notification on.
use vstd::prelude::*;
use crate::wakerset::{WakerSet, notified_least};

verus! {

/// A condition variable.
pub struct Condvar {
    wakers: WakerSet,
}

/// The state of a wait on a `Condvar`, holding the caller's guard `G` until
/// the first poll releases it.
pub struct AwaitNotify<G> {
    guard: Option<G>,
    key: Option<usize>,
}

impl<G> AwaitNotify<G> {
    pub closed spec fn holds_guard(self) -> bool {
        self.guard.is_some()
    }

    pub closed spec fn key(self) -> Option<usize> {
        self.key
    }
}

impl Condvar {
    pub closed spec fn set(self) -> WakerSet {
        self.wakers
    }

    pub open spec fn wf(self) -> bool {
        self.set().wf()
    }

    /// A wait of this condition variable: once registered, its key names an
    /// entry.
    pub open spec fn tracks<G>(self, fut: AwaitNotify<G>) -> bool {
        &&& fut.holds_guard() ==> fut.key().is_none()
        &&& fut.key() matches Some(k) ==> self.set().entries().dom().contains(k)
    }

    /// Creates a new condition variable.
    pub fn new() -> (c: Self)
        ensures
            c.wf(),
            c.set().entries().dom().is_empty(),
            c.set().notifiable() == 0,
    {
        Condvar { wakers: WakerSet::new() }
    }

    /// Wakes up one blocked task: the one registered under the least key
    /// among those not yet notified. Returns it, if there was one.
    pub fn notify_one(&mut self) -> (r: Option<u64>)
        requires
            old(self).wf(),
        ensures
            final(self).wf(),
            r.is_some() == (old(self).set().notifiable() > 0),
            final(self).set().entries().dom() == old(self).set().entries().dom(),
            final(self).set().notifiable() == old(self).set().notifiable() - (if r.is_some() {
                1int
            } else {
                0
            }),
            notified_least(old(self).set().entries(), final(self).set().entries(), r),
    {
        let r = self.wakers.notify_one();
        proof {
            if r.is_none() {
            } else {
                let w = r.unwrap();
                let k = choose|k: usize|
                    #![trigger old(self).set().entries()[k]]
                    old(self).set().entries().dom().contains(k)
                        && old(self).set().entries()[k] == Some(w)
                        && self.set().entries() == old(self).set().entries().insert(k, None)
                        && forall|k2: usize|
                        k2 < k && #[trigger] old(self).set().entries().dom().contains(k2)
                            ==> old(self).set().entries()[k2].is_none();
                assert(self.set().entries().dom() =~= old(self).set().entries().dom());
            }
        }
        r
    }

    /// Wakes up all blocked tasks. Returns them.
    pub fn notify_all(&mut self) -> (woken: Vec<u64>)
        requires
            old(self).wf(),
        ensures
            final(self).wf(),
            final(self).set().notifiable() == 0,
            final(self).set().entries().dom() == old(self).set().entries().dom(),
            woken@.to_set() == crate::wakerset::notifiable_tasks(old(self).set().entries()),
            woken@.len() == old(self).set().notifiable(),
            crate::wakerset::notified_all(old(self).set().entries(), final(self).set().entries(), woken@),
    {
        let (_, woken) = self.wakers.notify_all();
        woken
    }

    /// The state of a wait that holds `guard` until its first poll.
    pub fn wait<G>(&self, guard: G) -> (fut: AwaitNotify<G>)
        ensures
            fut.holds_guard(),
            fut.key().is_none(),
    {
        AwaitNotify { guard: Some(guard), key: None }
    }

    /// One poll of a wait by task `task`. The first poll registers the task
    /// and hands the guard back for the caller to release; a later poll is
    /// ready once a notification reached the task. Returns readiness and the
    /// guard to release, if any.
    pub fn poll_notify<G>(&mut self, fut: &mut AwaitNotify<G>, task: u64) -> (r: (bool, Option<G>))
        requires
            old(self).wf(),
            old(self).tracks(*old(fut)),
            old(self).set().notifiable() < usize::MAX,
        ensures
            final(self).wf(),
            final(self).tracks(*final(fut)),
            !final(fut).holds_guard(),
            old(fut).holds_guard() ==> !r.0 && r.1.is_some() && final(fut).key().is_some()
                && final(self).set().notifiable() == old(self).set().notifiable() + 1
                && !old(self).set().entries().dom().contains(final(fut).key().unwrap())
                && final(self).set().entries() == old(self).set().entries().insert(
                final(fut).key().unwrap(),
                Some(task),
            ),
            !old(fut).holds_guard() && r.0 ==> final(fut).key().is_none(),
            !old(fut).holds_guard() && old(fut).key() is Some && !r.0 ==> final(self).set().entries()
                == old(self).set().entries().insert(old(fut).key().unwrap(), Some(task)),
            !old(fut).holds_guard() ==> r.1.is_none()
                && final(self).set().notifiable() == old(self).set().notifiable(),
            !old(fut).holds_guard() && !r.0 ==> final(fut).key() == old(fut).key()
                && final(self).set().entries().dom() == old(self).set().entries().dom(),
            !old(fut).holds_guard() && old(fut).key().is_none() ==> r.0,
            !old(fut).holds_guard() && old(fut).key() is Some
                ==> r.0 == old(self).set().entries()[old(fut).key().unwrap()].is_none(),
            !old(fut).holds_guard() && old(fut).key() is None ==> *final(self) == *old(self),
            !old(fut).holds_guard() && old(fut).key() is Some && r.0 ==> final(self).set().entries()
                == old(self).set().entries().remove(old(fut).key().unwrap()),
    {
        match fut.guard.take() {
            Some(g) => {
                let key = self.wakers.insert(task);
                fut.key = Some(key);
                (false, Some(g))
            },
            None => {
                match fut.key {
                    Some(key) => {
                        if self.wakers.remove_if_notified(key, task) {
                            fut.key = None;
                            (true, None)
                        } else {
                            (false, None)
                        }
                    },
                    None => (true, None),
                }
            },
        }
    }

    /// Drops a wait: its entry goes, and a notification it had received passes
    /// to another blocked task. Returns the task woken instead, if any.
    pub fn cancel_notify<G>(&mut self, fut: AwaitNotify<G>) -> (r: Option<u64>)
        requires
            old(self).wf(),
            old(self).tracks(fut),
        ensures
            final(self).wf(),
            fut.key() is None ==> r.is_none() && *final(self) == *old(self),
            fut.key() matches Some(k) ==> {
                &&& old(self).set().entries()[k] is Some ==> r.is_none() && final(self).set().entries()
                    == old(self).set().entries().remove(k)
                &&& old(self).set().entries()[k] is None ==> notified_least(
                    old(self).set().entries().remove(k),
                    final(self).set().entries(),
                    r,
                )
            },
            final(self).set().notifiable() <= old(self).set().notifiable(),
    {
        match fut.key {
            Some(key) => self.wakers.cancel(key),
            None => None,
        }
    }
}

impl Default for Condvar {
    /// A new condition variable, as `new` makes.
    fn default() -> (c: Self)
        ensures
            c.wf(),
            c.set().entries().dom().is_empty(),
            c.set().notifiable() == 0,
    {
        Condvar::new()
    }
}

} // verus!
