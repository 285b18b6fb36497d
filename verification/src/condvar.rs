//! A condition variable whose waiters queue first-in first-out.
//!
//! A wait first releases the caller's guard and queues the task at the tail;
//! a notification takes waiters from the head and wakes them; a later poll of
//! a notified wait completes. A cancelled wait leaves the queue.
use vstd::prelude::*;
use crate::slots::WaitNode;
use crate::wait_list::WaitList;
use crate::sem_core::without;

verus! {

/// A condition variable.
pub struct Condvar {
    wakers: WaitList,
}

/// The state of a wait on a `Condvar`, holding the caller's guard `G` until
/// the first poll releases it.
pub struct AwaitNotify<G> {
    guard: Option<G>,
    key: Option<usize>,
}

impl<G> AwaitNotify<G> {
    pub closed spec fn holds_guard(self) -> bool {
        self.guard.is_some()
    }

    pub closed spec fn key(self) -> Option<usize> {
        self.key
    }
}

impl Condvar {
    /// The queued waiters, first to last.
    pub closed spec fn order(self) -> Seq<usize> {
        self.wakers.order()
    }

    /// The notified waiters whose wait has not yet seen it.
    pub closed spec fn notified(self) -> Seq<usize> {
        self.wakers.detached()
    }

    /// The task a queued waiter wakes.
    pub closed spec fn waker(self, k: usize) -> Option<u64> {
        self.wakers.stat(k).waker
    }

    /// Well-formedness: a queued waiter has a task to wake, a notified one has
    /// given it up.
    pub closed spec fn wf(self) -> bool {
        &&& self.wakers.wf()
        &&& forall|i: int|
            0 <= i < self.order().len() ==> #[trigger] self.waker(self.order()[i]).is_some()
        &&& forall|j: int|
            0 <= j < self.notified().len() ==> #[trigger] self.waker(self.notified()[j]).is_none()
    }

    /// A wait of this condition variable: once registered, its key names a
    /// queued or notified waiter.
    pub open spec fn tracks<G>(self, fut: AwaitNotify<G>) -> bool {
        &&& fut.holds_guard() ==> fut.key().is_none()
        &&& fut.key() matches Some(k) ==> self.order().contains(k) || self.notified().contains(k)
    }

    /// Creates a new condition variable.
    pub fn new() -> (c: Self)
        ensures
            c.wf(),
            c.order().len() == 0,
            c.notified().len() == 0,
    {
        Condvar { wakers: WaitList::new() }
    }

    fn take_first(&mut self) -> (r: Option<u64>)
        requires
            old(self).wf(),
        ensures
            final(self).wf(),
            old(self).order().len() == 0 ==> r.is_none() && *final(self) == *old(self),
            old(self).order().len() > 0 ==> {
                &&& r == old(self).waker(old(self).order()[0])
                &&& r.is_some()
                &&& final(self).order() == old(self).order().subrange(1, old(self).order().len() as int)
                &&& final(self).notified() == old(self).notified().push(old(self).order()[0])
                &&& forall|k: usize| k != old(self).order()[0] ==> #[trigger] final(self).waker(k) == old(self).waker(k)
            },
    {
        match self.wakers.first() {
            None => None,
            Some(k) => {
                proof {
                    assert(self.order()[0] == k);
                    assert(self.order().contains(k));
                    self.wakers.lemma_view_facts();
                }
                let node = self.wakers.get_stat(k);
                let ghost before = *self;
                self.wakers.set_stat(k, WaitNode { permits: node.permits, waker: None });
                self.wakers.remove_waiter(k);
                proof {
                    let o = before.order();
                    assert(o.index_of(k) == 0) by {
                        assert(o[0] == k);
                    }
                    o.remove_ensures(0);
                    assert(self.order() =~= o.subrange(1, o.len() as int));
                    assert forall|i: int| 0 <= i < self.order().len() implies #[trigger] self.waker(
                        self.order()[i],
                    ).is_some() by {
                        assert(self.order()[i] == o[i + 1]);
                        assert(o[i + 1] != k);
                        assert(before.waker(o[i + 1]).is_some());
                    }
                    assert forall|j: int| 0 <= j < self.notified().len() implies #[trigger] self.waker(
                        self.notified()[j],
                    ).is_none() by {
                        if j < before.notified().len() {
                            assert(before.notified()[j] != k);
                            assert(before.waker(before.notified()[j]).is_none());
                        } else {
                            assert(self.notified()[j] == k);
                        }
                    }
                }
                node.waker
            },
        }
    }

    /// Wakes up one blocked task: the first queued. Returns it, if any.
    pub fn notify_one(&mut self) -> (r: Option<u64>)
        requires
            old(self).wf(),
        ensures
            final(self).wf(),
            old(self).order().len() == 0 ==> r.is_none() && *final(self) == *old(self),
            old(self).order().len() > 0 ==> {
                &&& r == old(self).waker(old(self).order()[0])
                &&& final(self).order() == old(self).order().subrange(1, old(self).order().len() as int)
                &&& final(self).notified() == old(self).notified().push(old(self).order()[0])
                &&& final(self).waker(old(self).order()[0]).is_none()
                &&& forall|k: usize| k != old(self).order()[0] ==> #[trigger] final(self).waker(k) == old(self).waker(k)
            },
    {
        let r = self.take_first();
        proof {
            if old(self).order().len() > 0 {
                let j = old(self).notified().len() as int;
                assert(self.notified()[j] == old(self).order()[0]);
                assert(self.waker(self.notified()[j]).is_none());
            }
        }
        r
    }

    /// Wakes up all blocked tasks, first queued first. Returns them.
    pub fn notify_all(&mut self) -> (woken: Vec<u64>)
        requires
            old(self).wf(),
        ensures
            final(self).wf(),
            final(self).order().len() == 0,
            final(self).notified() == old(self).notified() + old(self).order(),
            woken@.len() == old(self).order().len(),
            forall|i: int|
                0 <= i < woken@.len() ==> Some(#[trigger] woken@[i]) == old(self).waker(
                    old(self).order()[i],
                ),
    {
        let mut woken: Vec<u64> = Vec::new();
        let ghost o = old(self).order();
        proof {
            assert(o.subrange(0, o.len() as int) =~= o);
            assert(old(self).notified() + o.subrange(0, 0) =~= old(self).notified());
            old(self).wakers.lemma_view_facts();
        }
        loop
            invariant
                self.wf(),
                o.no_duplicates(),
                woken@.len() <= o.len(),
                self.order() == o.subrange(woken@.len() as int, o.len() as int),
                self.notified() == old(self).notified() + o.subrange(0, woken@.len() as int),
                forall|i: int|
                    0 <= i < woken@.len() ==> Some(#[trigger] woken@[i]) == old(self).waker(o[i]),
                forall|i: int|
                    woken@.len() <= i < o.len() ==> #[trigger] self.waker(o[i]) == old(self).waker(o[i]),
            ensures
                self.wf(),
                self.order().len() == 0,
                woken@.len() == o.len(),
                self.notified() == old(self).notified() + o,
                forall|i: int|
                    0 <= i < woken@.len() ==> Some(#[trigger] woken@[i]) == old(self).waker(o[i]),
            decreases o.len() - woken@.len(),
        {
            let ghost before = *self;
            let ghost n: int = woken@.len() as int;
            match self.take_first() {
                Some(w) => {
                    woken.push(w);
                    proof {
                        assert(before.order()[0] == o[n as int]);
                        assert(self.order() =~= o.subrange(n + 1int, o.len() as int));
                        assert(self.notified() =~= old(self).notified() + o.subrange(0, n + 1int));
                        assert forall|i: int| n + 1 <= i < o.len() implies #[trigger] self.waker(o[i])
                            == old(self).waker(o[i]) by {
                            assert(o[i] != o[n as int]);
                        }
                    }
                },
                None => {
                    proof {
                        assert(o.subrange(0, n as int) =~= o) by {
                            assert(before.order().len() == 0);
                        }
                    }
                    break;
                },
            }
        }
        woken
    }
    /// The state of a wait that holds `guard` until its first poll.
    pub fn wait<G>(&self, guard: G) -> (fut: AwaitNotify<G>)
        ensures
            fut.holds_guard(),
            fut.key().is_none(),
    {
        AwaitNotify { guard: Some(guard), key: None }
    }

    /// One poll of a wait by task `task`. The first poll queues the task at
    /// the tail and hands the guard back for the caller to release; a later
    /// poll is ready once the waiter has been notified, and otherwise records
    /// `task` as the task to wake. Returns readiness and the guard to release.
    pub fn poll_notify<G>(&mut self, fut: &mut AwaitNotify<G>, task: u64) -> (r: (bool, Option<G>))
        requires
            old(self).wf(),
            old(self).tracks(*old(fut)),
        ensures
            final(self).wf(),
            final(self).tracks(*final(fut)),
            !final(fut).holds_guard(),
            old(fut).holds_guard() ==> !r.0 && r.1.is_some() && final(fut).key().is_some()
                && final(self).order() == old(self).order().push(final(fut).key().unwrap())
                && final(self).notified() == old(self).notified()
                && final(self).waker(final(fut).key().unwrap()) == Some(task),
            !old(fut).holds_guard() ==> r.1.is_none(),
            !old(fut).holds_guard() && old(fut).key().is_none() ==> r.0,
            !old(fut).holds_guard() && old(fut).key() is Some
                ==> r.0 == old(self).notified().contains(old(fut).key().unwrap()),
            !old(fut).holds_guard() && old(fut).key() is None ==> *final(self) == *old(self),
            !old(fut).holds_guard() && old(fut).key() is Some && !r.0 ==> {
                let k = old(fut).key().unwrap();
                &&& final(fut).key() == Some(k)
                &&& final(self).waker(k) == Some(task)
                &&& final(self).order() == old(self).order()
                &&& final(self).notified() == old(self).notified()
            },
            !old(fut).holds_guard() && old(fut).key() is Some && r.0 ==> {
                let k = old(fut).key().unwrap();
                &&& final(fut).key().is_none()
                &&& final(self).order() == old(self).order()
                &&& final(self).notified() == without(old(self).notified(), k)
            },
    {
        match fut.guard.take() {
            Some(g) => {
                let ghost before = *self;
                let mut key: Option<usize> = None;
                self.wakers.register_waiter_to_tail(&mut key, WaitNode { permits: 0, waker: Some(task) });
                proof {
                    let k = key.unwrap();
                    assert forall|i: int| 0 <= i < self.order().len() implies #[trigger] self.waker(
                        self.order()[i],
                    ).is_some() by {
                        if i < before.order().len() {
                            assert(before.order().contains(before.order()[i]));
                            assert(before.waker(before.order()[i]).is_some());
                        }
                    }
                    assert forall|j: int| 0 <= j < self.notified().len() implies #[trigger] self.waker(
                        self.notified()[j],
                    ).is_none() by {
                        assert(before.notified().contains(before.notified()[j]));
                        assert(before.waker(before.notified()[j]).is_none());
                    }
                    assert(self.order()[self.order().len() - 1] == k);
                }
                fut.key = key;
                (false, Some(g))
            },
            None => {
                match fut.key {
                    Some(idx) => {
                        proof {
                            self.wakers.lemma_view_facts();
                        }
                        let node = self.wakers.get_stat(idx);
                        match node.waker {
                            Some(w) => {
                                proof {
                                    self.lemma_waiting_is_queued(idx);
                                }
                                if w != task {
                                    let ghost before = *self;
                                    self.wakers.set_stat(idx, WaitNode { permits: node.permits, waker: Some(task) });
                                    proof {
                                        assert forall|i: int| 0 <= i < self.order().len() implies #[trigger] self.waker(
                                            self.order()[i],
                                        ).is_some() by {
                                            assert(before.waker(before.order()[i]).is_some());
                                        }
                                        assert forall|j: int| 0 <= j < self.notified().len() implies #[trigger] self.waker(
                                            self.notified()[j],
                                        ).is_none() by {
                                            assert(before.waker(before.notified()[j]).is_none());
                                            assert(before.notified()[j] != idx);
                                        }
                                    }
                                }
                                (false, None)
                            },
                            None => {
                                proof {
                                    self.lemma_notified_is_detached(idx);
                                }
                                let ghost before = *self;
                                self.wakers.free_waiter(idx);
                                fut.key = None;
                                proof {
                                    self.lemma_after_free(before, idx);
                                }
                                (true, None)
                            },
                        }
                    },
                    None => (true, None),
                }
            },
        }
    }

    proof fn lemma_waiting_is_queued(self, k: usize)
        requires
            self.wf(),
            self.order().contains(k) || self.notified().contains(k),
            self.waker(k).is_some(),
        ensures
            self.order().contains(k),
            !self.notified().contains(k),
    {
        self.wakers.lemma_view_facts();
        if self.notified().contains(k) {
            let j = choose|j: int| 0 <= j < self.notified().len() && self.notified()[j] == k;
            assert(self.waker(self.notified()[j]).is_none());
        }
    }

    proof fn lemma_notified_is_detached(self, k: usize)
        requires
            self.wf(),
            self.order().contains(k) || self.notified().contains(k),
            self.waker(k).is_none(),
        ensures
            self.notified().contains(k),
            !self.order().contains(k),
    {
        if self.order().contains(k) {
            let i = choose|i: int| 0 <= i < self.order().len() && self.order()[i] == k;
            assert(self.waker(self.order()[i]).is_some());
        }
    }

    proof fn lemma_after_free(self, before: Self, k: usize)
        requires
            before.wf(),
            before.notified().contains(k),
            self.wakers.wf(),
            self.order() == before.order(),
            self.notified() == before.notified().remove(before.notified().index_of(k)),
            forall|k2: usize| k2 != k ==> self.wakers.stat(k2) == before.wakers.stat(k2),
        ensures
            self.wf(),
            !self.notified().contains(k),
            !self.order().contains(k),
    {
        before.wakers.lemma_view_facts();
        let d = before.notified();
        let j0 = d.index_of(k);
        d.remove_ensures(j0);
        assert forall|i: int| 0 <= i < self.order().len() implies #[trigger] self.waker(
            self.order()[i],
        ).is_some() by {
            assert(before.waker(before.order()[i]).is_some());
            assert(before.order().contains(before.order()[i]));
            assert(before.order()[i] != k);
        }
        assert forall|j: int| 0 <= j < self.notified().len() implies #[trigger] self.waker(
            self.notified()[j],
        ).is_none() by {
            let j1 = if j < j0 { j } else { j + 1 };
            assert(self.notified()[j] == d[j1]);
            assert(before.waker(d[j1]).is_none());
            assert(d[j1] != k);
        }
        assert(!self.notified().contains(k)) by {
            if self.notified().contains(k) {
                let j = choose|j: int| 0 <= j < self.notified().len() && self.notified()[j] == k;
                let j1 = if j < j0 { j } else { j + 1 };
                assert(d[j1] == k);
            }
        }
    }

    /// Drops a wait: a queued waiter leaves the queue, a notified one is
    /// forgotten.
    pub fn cancel_notify<G>(&mut self, fut: AwaitNotify<G>)
        requires
            old(self).wf(),
            old(self).tracks(fut),
        ensures
            final(self).wf(),
            fut.key() is None ==> *final(self) == *old(self),
            fut.key() matches Some(k) ==> !final(self).order().contains(k)
                && !final(self).notified().contains(k)
                && final(self).order() == without(old(self).order(), k)
                && final(self).notified() == without(old(self).notified(), k),
    {
        if let Some(key) = fut.key {
            let ghost before = *self;
            let was_linked = self.wakers.remove_waiter(key);
            let ghost mid = *self;
            proof {
                before.wakers.lemma_view_facts();
                if was_linked {
                    assert(mid.notified()[before.notified().len() as int] == key);
                    let o = before.order();
                    let i = o.index_of(key);
                    o.remove_ensures(i);
                }
            }
            let node = self.wakers.get_stat(key);
            self.wakers.set_stat(key, WaitNode { permits: node.permits, waker: None });
            let ghost mid2 = *self;
            proof {
                assert forall|i: int| 0 <= i < mid2.order().len() implies #[trigger] mid2.waker(
                    mid2.order()[i],
                ).is_some() by {
                    let x = mid2.order()[i];
                    assert(x != key) by {
                        mid.wakers.lemma_view_facts();
                        assert(mid.notified().contains(key));
                    }
                    assert(before.order().contains(x)) by {
                        if was_linked {
                            let o = before.order();
                            let ii = o.index_of(key);
                            o.remove_ensures(ii);
                            let b = if i < ii { i } else { i + 1 };
                            assert(o[b] == x);
                        }
                    }
                    let b = choose|b: int| 0 <= b < before.order().len() && before.order()[b] == x;
                    assert(before.waker(before.order()[b]).is_some());
                }
                assert forall|j: int| 0 <= j < mid2.notified().len() implies #[trigger] mid2.waker(
                    mid2.notified()[j],
                ).is_none() by {
                    let x = mid2.notified()[j];
                    if x != key {
                        assert(before.notified().contains(x)) by {
                            if was_linked {
                                assert(j < before.notified().len());
                                assert(before.notified()[j] == x);
                            } else {
                                assert(before.notified()[j] == x);
                            }
                        }
                        let b = choose|b: int| 0 <= b < before.notified().len() && before.notified()[b] == x;
                        assert(before.waker(before.notified()[b]).is_none());
                    }
                }
                assert(mid2.notified().contains(key)) by {
                    if !was_linked {
                        mid2.lemma_notified_is_detached(key);
                    }
                }
            }
            self.wakers.free_waiter(key);
            proof {
                self.lemma_after_free(mid2, key);
                mid2.wakers.lemma_view_facts();
                if was_linked {
                    assert(!before.notified().contains(key));
                    assert(mid2.notified().index_of(key) == before.notified().len());
                    assert(mid2.notified().remove(before.notified().len() as int) =~= before.notified());
                }
            }
        }
    }
}

impl Default for Condvar {
    /// A new condition variable, as `new` makes.
    fn default() -> (c: Self)
        ensures
            c.wf(),
            c.order().len() == 0,
            c.notified().len() == 0,
    {
        Condvar::new()
    }
}

} // verus!
