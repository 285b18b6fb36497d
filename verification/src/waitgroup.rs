//! A wait group: waits for a set of worker handles to be dropped.
//!
//! The group's counter is the number of live handles. Cloning a handle adds
//! one, dropping one takes one away, and turning a handle into a wait future
//! drops it. A wait completes once no handle is left.
use vstd::prelude::*;
use crate::countdown::CountdownState;
use crate::countdown::in_key_order;

verus! {

/// The shared state of a group of worker handles.
pub struct WaitGroup {
    state: CountdownState,
}

/// The state of a wait future; drive it with `WaitGroup::poll_wait`.
#[derive(Debug)]
pub struct Wait {
    idx: Option<usize>,
}

impl Wait {
    pub closed spec fn index(self) -> Option<usize> {
        self.idx
    }
}

impl WaitGroup {
    /// The number of live handles.
    pub closed spec fn handles(self) -> nat {
        self.state.count()
    }

    /// The waiting tasks by key.
    pub closed spec fn waiting(self) -> Map<usize, u64> {
        self.state.waiting()
    }

    pub open spec fn tracks(self, fut: Wait) -> bool {
        fut.index() matches Some(k) ==> self.handles() == 0 || self.waiting().dom().contains(k)
    }

    /// Creates a new group with one handle.
    pub fn new() -> (wg: Self)
        ensures
            wg.handles() == 1,
            wg.waiting().dom().is_empty(),
    {
        WaitGroup { state: CountdownState::new(1) }
    }

    /// Creates a new worker handle: the counter goes up by one (it stays at
    /// `u32::MAX` there).
    pub fn clone_handle(&mut self)
        ensures
            final(self).handles() == (if old(self).handles() == u32::MAX {
                old(self).handles() as int
            } else {
                old(self).handles() + 1int
            }),
            final(self).waiting() == old(self).waiting(),
    {
        self.state.increment();
    }

    /// Drops a worker handle: the counter goes down by one, and the last
    /// handle wakes every waiting task. Returns the tasks to wake.
    pub fn drop_handle(&mut self) -> (woken: Vec<u64>)
        ensures
            final(self).handles() == (if old(self).handles() == 0 {
                0
            } else {
                old(self).handles() - 1
            }),
            old(self).handles() == 1 ==> woken@.to_set() == old(self).waiting().values() && woken@.len() == old(self).waiting().dom().len()
                && in_key_order(old(self).waiting(), woken@)
                && final(self).waiting().dom().is_empty(),
            old(self).handles() != 1 ==> woken@.len() == 0
                && final(self).waiting() == old(self).waiting(),
    {
        if self.state.decrement(1) {
            self.state.wake_all()
        } else {
            Vec::new()
        }
    }

    /// Turns a handle into a wait future: the handle is dropped, and the
    /// future completes once no handle is left. Returns the future and the
    /// tasks to wake.
    pub fn into_future(&mut self) -> (r: (Wait, Vec<u64>))
        ensures
            r.0.index().is_none(),
            final(self).handles() == (if old(self).handles() == 0 {
                0
            } else {
                old(self).handles() - 1
            }),
            old(self).handles() == 1 ==> r.1@.to_set() == old(self).waiting().values() && r.1@.len() == old(self).waiting().dom().len()
                && in_key_order(old(self).waiting(), r.1@)
                && final(self).waiting().dom().is_empty(),
            old(self).handles() != 1 ==> r.1@.len() == 0
                && final(self).waiting() == old(self).waiting(),
    {
        let woken = self.drop_handle();
        (Wait { idx: None }, woken)
    }

    /// One poll of a wait future by task `task`: ready exactly when no handle
    /// is left; otherwise `task` is registered to be woken.
    pub fn poll_wait(&mut self, fut: &mut Wait, task: u64) -> (ready: bool)
        requires
            old(self).tracks(*old(fut)),
        ensures
            ready == (old(self).handles() == 0),
            final(self).handles() == old(self).handles(),
            final(self).tracks(*final(fut)),
            ready ==> final(self).waiting() == old(self).waiting(),
            !ready ==> final(fut).index().is_some()
                && final(self).waiting() == old(self).waiting().insert(final(fut).index().unwrap(), task),
            old(fut).index() matches Some(k) ==> final(fut).index() == Some(k),
    {
        if self.state.spin_wait(16).is_err() {
            self.state.register_waker(&mut fut.idx, task);
            if self.state.spin_wait(0).is_err() {
                return false;
            }
        }
        true
    }
}

impl Default for WaitGroup {
    /// A new group with one handle, as `new` makes.
    fn default() -> (wg: Self)
        ensures
            wg.handles() == 1,
            wg.waiting().dom().is_empty(),
    {
        WaitGroup::new()
    }
}

} // verus!
