//! A latch: tasks wait until its count reaches zero.
//!
//! The count starts at a given value and only goes down (`count_down`,
//! `arrive`); once it is zero every waiting task is woken, and every later
//! wait completes at once.
use vstd::prelude::*;
use crate::countdown::CountdownState;
use crate::countdown::in_key_order;

verus! {

/// A synchronization primitive that lets tasks wait for a count to reach zero.
pub struct Latch {
    state: CountdownState,
}

/// The state of a future returned by `Latch::wait`; drive it with
/// `Latch::poll_wait`.
#[derive(Debug)]
pub struct LatchWait {
    idx: Option<usize>,
}

impl LatchWait {
    pub closed spec fn index(self) -> Option<usize> {
        self.idx
    }
}

impl Latch {
    /// The current count.
    pub closed spec fn count_view(self) -> nat {
        self.state.count()
    }

    /// The waiting tasks by key.
    pub closed spec fn waiting(self) -> Map<usize, u64> {
        self.state.waiting()
    }

    /// `fut` is a future of this latch: once registered, its key is a waiting
    /// task's.
    pub open spec fn tracks(self, fut: LatchWait) -> bool {
        fut.index() matches Some(k) ==> self.count_view() == 0 || self.waiting().dom().contains(k)
    }

    /// Creates a new latch initialized with the given count.
    pub fn new(count: u32) -> (l: Self)
        ensures
            l.count_view() == count,
            l.waiting().dom().is_empty(),
    {
        Latch { state: CountdownState::new(count) }
    }

    /// Returns the current count.
    pub fn count(&self) -> (r: u32)
        ensures
            r == self.count_view(),
    {
        self.state.state()
    }

    /// Decrements the count by one, waking all waiting tasks if it reaches
    /// zero. At zero it has no effect. Returns the tasks to wake.
    pub fn count_down(&mut self) -> (woken: Vec<u64>)
        ensures
            final(self).count_view() == (if old(self).count_view() == 0 {
                0
            } else {
                old(self).count_view() - 1
            }),
            old(self).count_view() == 1 ==> woken@.to_set() == old(self).waiting().values() && woken@.len() == old(self).waiting().dom().len()
                && in_key_order(old(self).waiting(), woken@)
                && final(self).waiting().dom().is_empty(),
            old(self).count_view() != 1 ==> woken@.len() == 0
                && final(self).waiting() == old(self).waiting(),
    {
        if self.state.decrement(1) {
            self.state.wake_all()
        } else {
            Vec::new()
        }
    }

    /// Decrements the count by `n`, not below zero, waking all waiting tasks if
    /// it reaches zero. Nothing happens if `n` is zero or the count already is.
    /// Returns the tasks to wake.
    pub fn arrive(&mut self, n: u32) -> (woken: Vec<u64>)
        ensures
            final(self).count_view() == (if old(self).count_view() <= n {
                0
            } else {
                old(self).count_view() - n
            }),
            (n != 0 && 0 < old(self).count_view() <= n) ==> woken@.to_set() == old(self).waiting().values() && woken@.len() == old(self).waiting().dom().len()
                && in_key_order(old(self).waiting(), woken@) && final(self).waiting().dom().is_empty(),
            !(n != 0 && 0 < old(self).count_view() <= n) ==> woken@.len() == 0
                && final(self).waiting() == old(self).waiting(),
    {
        if n != 0 && self.state.decrement(n) {
            self.state.wake_all()
        } else {
            Vec::new()
        }
    }

    /// Returns `Ok(())` if the count is zero, otherwise `Err(count)`.
    pub fn try_wait(&self) -> (r: Result<(), u32>)
        ensures
            self.count_view() == 0 ==> r is Ok,
            self.count_view() != 0 ==> r == Err::<(), u32>(self.count_view() as u32),
    {
        self.state.spin_wait(0)
    }

    /// The state of a future that completes when the count reaches zero.
    pub fn wait(&self) -> (fut: LatchWait)
        ensures
            fut.index().is_none(),
    {
        LatchWait { idx: None }
    }

    /// One poll of a wait future by task `task`: ready exactly when the count
    /// is zero; otherwise `task` is registered to be woken.
    pub fn poll_wait(&mut self, fut: &mut LatchWait, task: u64) -> (ready: bool)
        requires
            old(self).tracks(*old(fut)),
        ensures
            ready == (old(self).count_view() == 0),
            final(self).count_view() == old(self).count_view(),
            final(self).tracks(*final(fut)),
            ready ==> final(self).waiting() == old(self).waiting() && *final(fut) == *old(fut),
            !ready ==> final(fut).index().is_some()
                && final(self).waiting() == old(self).waiting().insert(final(fut).index().unwrap(), task),
            old(fut).index() matches Some(k) ==> final(fut).index() == Some(k),
    {
        if self.state.spin_wait(16).is_err() {
            self.state.register_waker(&mut fut.idx, task);
            if self.state.spin_wait(0).is_err() {
                return false;
            }
        }
        true
    }
}

} // verus!
