//! A wait group whose futures complete when the last handle of the group is
//! gone, with an optional timeout.
//!
//! The handles share the group; the futures only observe it. Once no handle
//! is left the group's waiting tasks are woken, and every future completes.
use vstd::prelude::*;
use crate::waiters::Waiters;

verus! {

/// The outcome of a wait with a timeout.
#[derive(Debug, PartialEq, Eq)]
pub enum MaybeTimedOut<T> {
    /// Every handle was dropped first.
    Completed,
    /// The timer fired first, with its output.
    TimedOut(T),
}

/// The shared state of a wait group: the number of live handles and the
/// waiting tasks.
pub struct WaitGroup {
    strong: usize,
    waiters: Waiters,
}

/// The state of a future that waits for every handle to be dropped.
#[derive(Debug)]
pub struct WaitGroupFuture {
    id: Option<usize>,
}

/// The state of a future that waits for every handle to be dropped, or for
/// its timer to fire.
pub struct WaitGroupTimeoutFuture<T> {
    id: Option<usize>,
    timer: T,
}

impl WaitGroupFuture {
    pub closed spec fn index(self) -> Option<usize> {
        self.id
    }
}

impl<T> WaitGroupTimeoutFuture<T> {
    pub closed spec fn index(self) -> Option<usize> {
        self.id
    }

    pub closed spec fn timer_of(self) -> T {
        self.timer
    }

    /// The timer, for the caller to poll.
    pub fn timer(&mut self) -> (r: &mut T)
        ensures
            final(self).index() == old(self).index(),
            *r == old(self).timer_of(),
            final(self).timer_of() == *final(r),
    {
        &mut self.timer
    }
}

impl WaitGroup {
    /// The number of live handles.
    pub closed spec fn handles(self) -> nat {
        self.strong as nat
    }

    /// The waiting tasks by key.
    pub closed spec fn waiting(self) -> Map<usize, u64> {
        self.waiters.occupied()
    }

    pub closed spec fn wf(self) -> bool {
        self.waiters.wf()
    }

    /// The waiting tasks in key order.
    pub closed spec fn in_key_order(self) -> Seq<u64> {
        self.waiters.in_key_order()
    }

    /// The number of slots of the waiting set, occupied or vacant.
    pub closed spec fn slots(self) -> nat {
        self.waiters.slots()
    }

    /// While a handle is live, a registered future's key names a waiting task.
    pub open spec fn tracks_index(self, id: Option<usize>) -> bool {
        id matches Some(k) ==> self.handles() == 0 || self.waiting().dom().contains(k)
    }

    /// `after` is this group once a handle was dropped, and `woken` the tasks
    /// the drop woke: the last handle wakes every waiting task, in key order;
    /// any other wakes nobody.
    pub open spec fn handle_dropped(self, after: Self, woken: Seq<u64>) -> bool {
        &&& after.handles() == self.handles() - 1
        &&& self.handles() == 1 ==> woken == self.in_key_order() && woken.to_set()
            == self.waiting().values() && after.waiting().dom().is_empty()
        &&& self.handles() > 1 ==> woken.len() == 0 && after.waiting() == self.waiting()
    }

    /// Cloning a handle and dropping a handle again leaves the group as it
    /// was: the same number of handles, the same waiting tasks, and nobody
    /// woken.
    pub proof fn lemma_clone_drop_round_trip(a: Self, b: Self, c: Self, woken: Seq<u64>)
        requires
            a.handles() >= 1,
            b.handles() == a.handles() + 1,
            b.waiting() == a.waiting(),
            b.handle_dropped(c, woken),
        ensures
            c.handles() == a.handles(),
            c.waiting() == a.waiting(),
            woken.len() == 0,
    {
    }

    /// Creates a group with one handle.
    pub fn new() -> (wg: Self)
        ensures
            wg.wf(),
            wg.handles() == 1,
            wg.waiting().dom().is_empty(),
            wg.slots() == 0,
    {
        WaitGroup { strong: 1, waiters: Waiters::new() }
    }

    /// Creates another handle.
    ///
    /// More than `isize::MAX` handles abort the process; `requires` leaves
    /// that out.
    pub fn clone_handle(&mut self)
        requires
            old(self).handles() < isize::MAX,
        ensures
            final(self).handles() == old(self).handles() + 1,
            final(self).waiting() == old(self).waiting(),
            final(self).wf() == old(self).wf(),
            final(self).slots() == old(self).slots(),
    {
        self.strong = self.strong + 1;
    }

    /// Drops a handle; dropping the last one wakes every waiting task.
    /// Returns the tasks to wake.
    pub fn drop_handle(&mut self) -> (woken: Vec<u64>)
        requires
            old(self).wf(),
            old(self).handles() > 0,
        ensures
            final(self).wf(),
            final(self).handles() == old(self).handles() - 1,
            old(self).handles() == 1 ==> woken@.to_set() == old(self).waiting().values()
                && final(self).waiting().dom().is_empty() && woken@ == old(self).in_key_order(),
            old(self).handles() > 1 ==> woken@.len() == 0
                && final(self).waiting() == old(self).waiting(),
            old(self).handles() == 1 ==> final(self).slots() == 0,
            old(self).handles() > 1 ==> final(self).slots() == old(self).slots(),
            old(self).handle_dropped(*final(self), woken@),
    {
        self.strong = self.strong - 1;
        if self.strong == 0 {
            self.waiters.wake_all()
        } else {
            Vec::new()
        }
    }

    /// Turns a handle into a wait future. Returns the future and the tasks to
    /// wake, as dropping the handle does.
    pub fn wait(&mut self) -> (r: (WaitGroupFuture, Vec<u64>))
        requires
            old(self).wf(),
            old(self).handles() > 0,
        ensures
            final(self).wf(),
            r.0.index().is_none(),
            final(self).handles() == old(self).handles() - 1,
            old(self).handles() == 1 ==> r.1@.to_set() == old(self).waiting().values() && r.1@
                == old(self).in_key_order(),
            old(self).handles() > 1 ==> r.1@.len() == 0
                && final(self).waiting() == old(self).waiting(),
            old(self).handles() == 1 ==> final(self).slots() == 0,
            old(self).handles() > 1 ==> final(self).slots() == old(self).slots(),
    {
        let woken = self.drop_handle();
        (WaitGroupFuture { id: None }, woken)
    }

    /// Turns a handle into a wait future with a timer. Returns the future and
    /// the tasks to wake, as dropping the handle does.
    pub fn wait_timeout<T>(&mut self, timer: T) -> (r: (WaitGroupTimeoutFuture<T>, Vec<u64>))
        requires
            old(self).wf(),
            old(self).handles() > 0,
        ensures
            final(self).wf(),
            r.0.index().is_none(),
            r.0.timer_of() == timer,
            final(self).handles() == old(self).handles() - 1,
            old(self).handles() == 1 ==> r.1@.to_set() == old(self).waiting().values() && r.1@
                == old(self).in_key_order(),
            old(self).handles() > 1 ==> r.1@.len() == 0
                && final(self).waiting() == old(self).waiting(),
            old(self).handles() == 1 ==> final(self).slots() == 0,
            old(self).handles() > 1 ==> final(self).slots() == old(self).slots(),
    {
        let woken = self.drop_handle();
        (WaitGroupTimeoutFuture { id: None, timer }, woken)
    }

    /// One poll of a wait future by task `task`: ready exactly when no handle
    /// is left; otherwise `task` is registered to be woken.
    pub fn poll(&mut self, fut: &mut WaitGroupFuture, task: u64) -> (ready: bool)
        requires
            old(self).wf(),
            old(self).tracks_index(old(fut).index()),
            old(self).slots() < usize::MAX,
        ensures
            final(self).wf(),
            ready == (old(self).handles() == 0),
            final(self).handles() == old(self).handles(),
            final(self).tracks_index(final(fut).index()),
            ready ==> final(self).waiting() == old(self).waiting(),
            !ready ==> final(fut).index().is_some()
                && final(self).waiting() == old(self).waiting().insert(final(fut).index().unwrap(), task),
            final(self).slots() <= old(self).slots() + 1,
            old(fut).index() matches Some(k) ==> final(fut).index() == Some(k),
    {
        if self.strong > 0 {
            self.register(&mut fut.id, task);
            false
        } else {
            true
        }
    }

    fn register(&mut self, id: &mut Option<usize>, task: u64)
        requires
            old(self).wf(),
            old(self).handles() > 0,
            old(self).tracks_index(*old(id)),
            old(self).slots() < usize::MAX,
        ensures
            final(self).wf(),
            final(self).handles() == old(self).handles(),
            final(id).is_some(),
            final(self).waiting() == old(self).waiting().insert(final(id).unwrap(), task),
            final(self).tracks_index(*final(id)),
            final(self).slots() <= old(self).slots() + 1,
            *old(id) matches Some(k) ==> *final(id) == Some(k),
    {
        self.waiters.upsert(id, task);
    }

    /// One poll of a wait future with a timer by task `task`, given what the
    /// timer's own poll gave (`Some(output)` once it fired). Completes when no
    /// handle is left; otherwise times out when the timer has fired, taking
    /// the task out; otherwise registers `task` to be woken.
    pub fn poll_timeout<T, O>(
        &mut self,
        fut: &mut WaitGroupTimeoutFuture<T>,
        timer: Option<O>,
        task: u64,
    ) -> (r: Option<MaybeTimedOut<O>>)
        requires
            old(self).wf(),
            old(self).tracks_index(old(fut).index()),
            old(self).slots() < usize::MAX,
        ensures
            final(self).wf(),
            final(self).handles() == old(self).handles(),
            final(self).tracks_index(final(fut).index()),
            old(self).handles() == 0 ==> r == Some(MaybeTimedOut::<O>::Completed),
            old(self).handles() > 0 && timer.is_some() ==> r == Some(
                MaybeTimedOut::TimedOut(timer.unwrap()),
            ) && final(fut).index().is_none(),
            old(self).handles() > 0 && timer.is_none() ==> r.is_none()
                && final(fut).index().is_some()
                && final(self).waiting() == old(self).waiting().insert(final(fut).index().unwrap(), task),
            final(self).slots() <= old(self).slots() + 1,
            old(self).handles() > 0 && timer.is_some() ==> final(self).slots() == old(self).slots()
                && (old(fut).index() matches Some(k) ==> final(self).waiting() == old(self).waiting().remove(k))
                && (old(fut).index() is None ==> final(self).waiting() == old(self).waiting()),
            old(self).handles() == 0 ==> final(self).waiting() == old(self).waiting()
                && final(self).slots() == old(self).slots(),
            !(old(self).handles() > 0 && timer.is_some()) ==> (old(fut).index() matches Some(k)
                ==> final(fut).index() == Some(k)),
    {
        if self.strong > 0 {
            match timer {
                Some(o) => {
                    self.waiters.remove(&mut fut.id);
                    Some(MaybeTimedOut::TimedOut(o))
                },
                None => {
                    self.register(&mut fut.id, task);
                    None
                },
            }
        } else {
            Some(MaybeTimedOut::Completed)
        }
    }
}

impl Default for WaitGroup {
    /// A new group with one handle, as `new` makes.
    fn default() -> (wg: Self)
        ensures
            wg.wf(),
            wg.handles() == 1,
            wg.waiting().dom().is_empty(),
    {
        WaitGroup::new()
    }
}

} // verus!
