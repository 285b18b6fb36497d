//! The counting semaphore that the locks are built on: a number of available
//! permits and a first-in first-out queue of waiters, each asking for a number
//! of permits and holding the task to wake once it has them all.
//!
//! Waiting is modelled as a state machine: `poll` is one poll of an acquire
//! future, `cancel` is that future being dropped, and `release` hands permits
//! to the queue. Tasks are named by `u64` ids; the functions return the ids of
//! the tasks to wake.
use vstd::prelude::*;
use crate::slots::WaitNode;
use crate::wait_list::WaitList;
use crate::sums::{
    seq_sum,
    lemma_sum_push,
    lemma_sum_remove,
    lemma_sum_congruent,
    lemma_sum_update,
    lemma_sum_nonneg,
    lemma_sum_elem_le,
};

verus! {

/// The state of one acquire future: how many permits it asks for, its place
/// in the wait queue once enqueued, and whether it has completed.
#[derive(Debug)]
pub struct Acquire {
    permits: u32,
    index: Option<usize>,
    done: bool,
}

impl Acquire {
    pub closed spec fn needed(self) -> nat {
        self.permits as nat
    }

    pub closed spec fn index(self) -> Option<usize> {
        self.index
    }

    pub closed spec fn is_done(self) -> bool {
        self.done
    }

    /// A future that asks for `permits` permits and has not been polled.
    pub fn new(permits: u32) -> (a: Acquire)
        ensures
            a.needed() == permits,
            a.index().is_none(),
            !a.is_done(),
    {
        Acquire { permits, index: None, done: false }
    }

    /// The number of permits this future asks for.
    pub fn permits(&self) -> (r: u32)
        ensures
            r == self.needed(),
    {
        self.permits
    }

    /// Whether this future has completed.
    pub fn done(&self) -> (r: bool)
        ensures
            r == self.is_done(),
    {
        self.done
    }
}

/// `s` without the element `k`.
pub open spec fn without(s: Seq<usize>, k: usize) -> Seq<usize> {
    if s.contains(k) {
        s.remove(s.index_of(k))
    } else {
        s
    }
}

/// A counting semaphore with a fair wait queue.
pub struct Semaphore {
    permits: u32,
    waiters: WaitList,
    /// What each registered waiter asked for in all.
    requested: Ghost<Map<usize, nat>>,
}

impl Semaphore {
    /// The number of available permits.
    pub closed spec fn permits(self) -> nat {
        self.permits as nat
    }

    /// The queued waiters, first to last.
    pub closed spec fn order(self) -> Seq<usize> {
        self.waiters.order()
    }

    /// The waiters that have been given all they asked for but whose future has
    /// not yet seen it.
    pub closed spec fn detached(self) -> Seq<usize> {
        self.waiters.detached()
    }

    pub open spec fn registered(self, k: usize) -> bool {
        self.order().contains(k) || self.detached().contains(k)
    }

    /// The permits that waiter `k` still waits for.
    pub closed spec fn remaining(self, k: usize) -> nat {
        self.waiters.stat(k).permits as nat
    }

    /// The task that waiter `k` wakes.
    pub closed spec fn waker(self, k: usize) -> Option<u64> {
        self.waiters.stat(k).waker
    }

    /// The permits that waiter `k` asked for in all.
    pub closed spec fn requested(self, k: usize) -> nat {
        self.requested@[k]
    }

    pub open spec fn granted_fn(self) -> spec_fn(usize) -> int {
        |k: usize| self.requested(k) - self.remaining(k)
    }

    /// The permits that are available or already handed to a waiter that has
    /// not completed: what acquisitions can still take.
    pub open spec fn supply(self) -> int {
        self.permits() + seq_sum(self.order(), self.granted_fn()) + seq_sum(
            self.detached(),
            self.granted_fn(),
        )
    }

    /// `acq` is a future of this semaphore: a completed one has left the
    /// queue, and an enqueued one names its own waiter.
    pub open spec fn tracks(self, acq: Acquire) -> bool {
        &&& acq.is_done() ==> acq.index().is_none()
        &&& acq.index() matches Some(k) ==> self.registered(k) && self.requested(k)
            == acq.needed()
    }

    /// Two states whose queues and waiters agree; only `permits` may differ.
    pub open spec fn same_waiters(self, other: Self) -> bool {
        &&& self.order() == other.order()
        &&& self.detached() == other.detached()
        &&& forall|k: usize|
            #![trigger other.remaining(k)]
            #![trigger other.waker(k)]
            #![trigger other.requested(k)]
            self.remaining(k) == other.remaining(k) && self.waker(k) == other.waker(k)
                && self.requested(k) == other.requested(k)
    }

    spec fn linked_ok(self, k: usize) -> bool {
        &&& 0 < self.remaining(k) <= self.requested(k) <= u32::MAX
        &&& self.waker(k).is_some()
    }

    spec fn detached_ok(self, k: usize) -> bool {
        &&& self.remaining(k) == 0
        &&& self.requested(k) <= u32::MAX
        &&& self.waker(k).is_none()
    }

    /// Well-formedness: a queued waiter still waits for something and has a
    /// task to wake; a served one waits for nothing; nobody queues while
    /// permits are available.
    pub closed spec fn wf(self) -> bool {
        &&& self.waiters.wf()
        &&& self.order().len() > 0 ==> self.permits == 0
        &&& forall|i: int| 0 <= i < self.order().len() ==> #[trigger] self.linked_ok(self.order()[i])
        &&& forall|j: int|
            0 <= j < self.detached().len() ==> #[trigger] self.detached_ok(self.detached()[j])
    }

    /// How many waiters, from position `t` of the queue on, a release of `rem`
    /// permits serves in full.
    pub open spec fn served_from(self, t: int, rem: int) -> int
        decreases self.order().len() - t,
    {
        if t < 0 || t >= self.order().len() {
            0
        } else if self.remaining(self.order()[t]) <= rem {
            1 + self.served_from(t + 1, rem - self.remaining(self.order()[t]))
        } else {
            0
        }
    }

    /// What is left of `rem` once the waiters that `served_from` counts are
    /// served.
    pub open spec fn rem_from(self, t: int, rem: int) -> int
        decreases self.order().len() - t,
    {
        if t < 0 || t >= self.order().len() {
            rem
        } else if self.remaining(self.order()[t]) <= rem {
            self.rem_from(t + 1, rem - self.remaining(self.order()[t]))
        } else {
            rem
        }
    }

    /// `after` is this semaphore once `n` permits were added and handed out
    /// as `release` does, and `woken` the tasks it woke: the waiters served
    /// in full, in queue order.
    pub open spec fn released(self, after: Self, n: int, woken: Seq<u64>) -> bool {
        let o = self.order();
        let c = self.served_from(0, n);
        let r = self.rem_from(0, n);
        &&& 0 <= c <= o.len()
        &&& 0 <= r <= n
        &&& after.order() == o.subrange(c, o.len() as int)
        &&& after.detached() == self.detached() + o.subrange(0, c)
        &&& woken.len() == c
        &&& forall|i: int| 0 <= i < c ==> #[trigger] woken[i] == self.waker(o[i]).unwrap()
        &&& forall|i: int|
            0 <= i < c ==> after.remaining(#[trigger] o[i]) == 0 && after.waker(o[i]).is_none()
        &&& c < o.len() ==> after.remaining(o[c]) == self.remaining(o[c]) - r && after.waker(o[c])
            == self.waker(o[c])
        &&& forall|i: int|
            c < i < o.len() ==> after.remaining(#[trigger] o[i]) == self.remaining(o[i])
                && after.waker(o[i]) == self.waker(o[i])
        &&& after.permits() == self.permits() + (if c == o.len() {
            r
        } else {
            0
        })
        &&& forall|k: usize| #[trigger]
            self.detached().contains(k) ==> after.remaining(k) == self.remaining(k) && after.waker(k)
                == self.waker(k)
        &&& forall|k: usize| #[trigger] after.requested(k) == self.requested(k)
        &&& after.supply() == self.supply() + n
    }

    /// `after` and `acq_after` are this semaphore and the future `acq` once
    /// task `task` polled it, and `ready` what the poll returned (see `poll`).
    pub open spec fn polled(
        self,
        after: Self,
        acq: Acquire,
        acq_after: Acquire,
        task: u64,
        ready: bool,
    ) -> bool {
        &&& (acq.is_done() ==> ready && after == self && acq_after == acq)
        &&& (!acq.is_done() && acq.index() is None ==> {
            &&& ready == (self.permits() >= acq.needed())
            &&& ready ==> after.permits() == self.permits() - acq.needed()
                && after.same_waiters(self)
            &&& !ready ==> {
                let k = acq_after.index().unwrap();
                &&& acq_after.index().is_some()
                &&& after.permits() == 0
                &&& after.order() == self.order().push(k)
                &&& after.detached() == self.detached()
                &&& !self.registered(k)
                &&& after.remaining(k) == acq.needed() - self.permits()
                &&& after.waker(k) == Some(task)
                &&& after.requested(k) == acq.needed()
            }
        })
        &&& (!acq.is_done() && acq.index() is Some ==> {
            let k = acq.index().unwrap();
            &&& ready == (self.remaining(k) == 0)
            &&& after.permits() == self.permits()
            &&& after.order() == self.order()
            &&& ready ==> acq_after.index().is_none() && after.detached() == self.detached().remove(self.detached().index_of(k))
            &&& !ready ==> acq_after.index() == Some(k) && after.detached() == self.detached()
                && after.waker(k) == Some(task) && after.remaining(k) == self.remaining(k)
        })
    }

    /// `mid` is this semaphore with waiter `k` gone from the queue and from
    /// the served waiters, everything else as it was.
    pub open spec fn unregistered(self, mid: Self, k: usize) -> bool {
        &&& mid.permits() == self.permits()
        &&& mid.order() == without(self.order(), k)
        &&& mid.detached() == without(self.detached(), k)
        &&& forall|j: usize|
            j != k ==> #[trigger] mid.remaining(j) == self.remaining(j) && mid.waker(j) == self.waker(
                j,
            ) && mid.requested(j) == self.requested(j)
    }

    /// `after` is this semaphore once the future `acq` was dropped, and
    /// `woken` the tasks that woke: an enqueued future leaves, and the permits
    /// it had been given are released as by `release`.
    pub open spec fn cancelled(self, after: Self, acq: Acquire, woken: Seq<u64>) -> bool {
        match acq.index() {
            None => after == self && woken.len() == 0,
            Some(k) => exists|mid: Self|
                self.unregistered(mid, k) && #[trigger] mid.released(
                    after,
                    acq.needed() - self.remaining(k),
                    woken,
                ),
        }
    }

    proof fn lemma_linked(self, i: int)
        requires
            self.wf(),
            0 <= i < self.order().len(),
        ensures
            self.linked_ok(self.order()[i]),
    {
    }

    proof fn lemma_detached(self, j: int)
        requires
            self.wf(),
            0 <= j < self.detached().len(),
        ensures
            self.detached_ok(self.detached()[j]),
    {
    }

    /// Each registered waiter has been granted a non-negative amount, so the
    /// supply is at least the available permits.
    pub proof fn lemma_supply_bounds(self)
        requires
            self.wf(),
        ensures
            seq_sum(self.order(), self.granted_fn()) >= 0,
            seq_sum(self.detached(), self.granted_fn()) >= 0,
            self.supply() >= self.permits(),
    {
        assert forall|i: int| 0 <= i < self.order().len() implies (#[trigger] self.granted_fn()(
            self.order()[i],
        )) >= 0 by {
            self.lemma_linked(i);
        }
        lemma_sum_nonneg(self.order(), self.granted_fn());
        assert forall|j: int| 0 <= j < self.detached().len() implies (#[trigger] self.granted_fn()(
            self.detached()[j],
        )) >= 0 by {
            self.lemma_detached(j);
        }
        lemma_sum_nonneg(self.detached(), self.granted_fn());
    }

    /// A registered waiter's grant is part of the supply.
    pub proof fn lemma_granted_le_supply(self, k: usize)
        requires
            self.wf(),
            self.registered(k),
        ensures
            self.permits() + (self.requested(k) - self.remaining(k)) <= self.supply(),
            self.remaining(k) <= self.requested(k),
    {
        self.lemma_supply_bounds();
        let f = self.granted_fn();
        if self.order().contains(k) {
            let i = choose|i: int| 0 <= i < self.order().len() && self.order()[i] == k;
            assert forall|j: int| 0 <= j < self.order().len() implies f(#[trigger] self.order()[j]) >= 0 by {
                self.lemma_linked(j);
            }
            lemma_sum_elem_le(self.order(), f, i);
            self.lemma_linked(i);
        } else {
            let i = choose|i: int| 0 <= i < self.detached().len() && self.detached()[i] == k;
            assert forall|j: int| 0 <= j < self.detached().len() implies f(#[trigger] self.detached()[j]) >= 0 by {
                self.lemma_detached(j);
            }
            lemma_sum_elem_le(self.detached(), f, i);
            self.lemma_detached(i);
        }
    }

    proof fn lemma_same_waiters_supply(self, other: Self)
        requires
            self.same_waiters(other),
        ensures
            self.supply() - self.permits() == other.supply() - other.permits(),
    {
        assert forall|i: int| 0 <= i < self.order().len() implies (#[trigger] self.granted_fn()(
            self.order()[i],
        )) == other.granted_fn()(self.order()[i]) by {
            let k = self.order()[i];
            assert(other.remaining(k) == self.remaining(k));
            assert(other.requested(k) == self.requested(k));
        }
        lemma_sum_congruent(self.order(), self.granted_fn(), other.granted_fn());
        assert forall|i: int| 0 <= i < self.detached().len() implies (#[trigger] self.granted_fn()(
            self.detached()[i],
        )) == other.granted_fn()(self.detached()[i]) by {
            let k = self.detached()[i];
            assert(other.remaining(k) == self.remaining(k));
            assert(other.requested(k) == self.requested(k));
        }
        lemma_sum_congruent(self.detached(), self.granted_fn(), other.granted_fn());
    }

    proof fn lemma_permits_only(self, before: Self)
        requires
            before.wf(),
            self.waiters == before.waiters,
            self.requested@ == before.requested@,
            self.order().len() > 0 ==> self.permits == 0,
        ensures
            self.wf(),
            self.same_waiters(before),
            self.supply() == before.supply() - before.permits() + self.permits(),
    {
        self.lemma_same_waiters_supply(before);
        assert forall|i: int| 0 <= i < self.order().len() implies #[trigger] self.linked_ok(
            self.order()[i],
        ) by {
            before.lemma_linked(i);
        }
        assert forall|j: int| 0 <= j < self.detached().len() implies #[trigger] self.detached_ok(
            self.detached()[j],
        ) by {
            before.lemma_detached(j);
        }
    }

    /// Creates a semaphore with `permits` available permits and no waiter.
    pub fn new(permits: u32) -> (s: Self)
        ensures
            s.wf(),
            s.permits() == permits,
            s.order() == Seq::<usize>::empty(),
            s.detached() == Seq::<usize>::empty(),
            s.supply() == permits,
    {
        let s = Semaphore { permits, waiters: WaitList::new(), requested: Ghost(Map::empty()) };
        proof {
            assert(seq_sum(s.order(), s.granted_fn()) == 0);
            assert(seq_sum(s.detached(), s.granted_fn()) == 0);
        }
        s
    }

    /// Returns the number of available permits.
    pub fn available_permits(&self) -> (r: u32)
        ensures
            r == self.permits(),
    {
        self.permits
    }

    /// Takes `n` permits if that many are available. Returns whether it did.
    pub fn try_acquire(&mut self, n: u32) -> (r: bool)
        requires
            old(self).wf(),
        ensures
            final(self).wf(),
            r == (old(self).permits() >= n),
            final(self).permits() == (if r {
                old(self).permits() - n
            } else {
                old(self).permits() as int
            }),
            final(self).same_waiters(*old(self)),
            final(self).supply() == old(self).supply() - (if r {
                n as int
            } else {
                0
            }),
            !r ==> *final(self) == *old(self),
    {
        if self.permits < n {
            return false;
        }
        self.permits = self.permits - n;
        proof {
            self.lemma_permits_only(*old(self));
        }
        true
    }

    /// Takes away up to `n` of the available permits. Returns how many it took.
    pub fn forget(&mut self, n: u32) -> (r: u32)
        requires
            old(self).wf(),
        ensures
            final(self).wf(),
            r == (if n <= old(self).permits() {
                n as int
            } else {
                old(self).permits() as int
            }),
            final(self).permits() == old(self).permits() - r,
            final(self).same_waiters(*old(self)),
            final(self).supply() == old(self).supply() - r,
    {
        if n == 0 {
            return 0;
        }
        let current = self.permits;
        let new = current.saturating_sub(n);
        self.permits = new;
        proof {
            self.lemma_permits_only(*old(self));
        }
        if n < current {
            n
        } else {
            current
        }
    }

    /// Adds `n` permits: they go to the queued waiters first to last, each
    /// served in full before the next gets any, and what no waiter needs
    /// becomes available. Returns the tasks of the waiters served in full,
    /// in queue order.
    ///
    /// Adding more permits than `u32::MAX` can hold panics in the caller's
    /// runtime; `requires` leaves that input out.
    pub fn release(&mut self, n: u32) -> (woken: Vec<u64>)
        requires
            old(self).wf(),
            old(self).permits() + n <= u32::MAX,
        ensures
            final(self).wf(),
            old(self).released(*final(self), n as int, woken@),
            final(self).supply() == old(self).supply() + n,
            ({
                let o = old(self).order();
                let c = old(self).served_from(0, n as int);
                let r = old(self).rem_from(0, n as int);
                &&& 0 <= c <= o.len()
                &&& 0 <= r <= n
                &&& final(self).order() == o.subrange(c, o.len() as int)
                &&& final(self).detached() == old(self).detached() + o.subrange(0, c)
                &&& woken@.len() == c
                &&& forall|i: int| 0 <= i < c ==> #[trigger] woken@[i] == old(self).waker(o[i]).unwrap()
                &&& forall|i: int|
                    0 <= i < c ==> final(self).remaining(#[trigger] o[i]) == 0
                        && final(self).waker(o[i]).is_none()
                &&& c < o.len() ==> final(self).remaining(o[c]) == old(self).remaining(o[c]) - r
                    && final(self).waker(o[c]) == old(self).waker(o[c])
                &&& forall|i: int|
                    c < i < o.len() ==> final(self).remaining(#[trigger] o[i]) == old(self).remaining(o[i]) && final(self).waker(o[i]) == old(self).waker(o[i])
                &&& final(self).permits() == old(self).permits() + (if c == o.len() {
                    r
                } else {
                    0
                })
            }),
            forall|k: usize| #[trigger]
                old(self).detached().contains(k) ==> final(self).remaining(k) == old(self).remaining(k) && final(self).waker(k) == old(self).waker(k),
            forall|k: usize| #[trigger] final(self).requested(k) == old(self).requested(k),
    {
        if n == 0 {
            proof {
                let o = old(self).order();
                if o.len() > 0 {
                    old(self).lemma_linked(0);
                }
                assert(o.subrange(0, o.len() as int) =~= o);
                assert(old(self).detached() + o.subrange(0, 0) =~= old(self).detached());
            }
            return Vec::new();
        }
        self.insert_permits(n)
    }

    fn insert_permits(&mut self, n: u32) -> (woken: Vec<u64>)
        requires
            old(self).wf(),
            old(self).permits() + n <= u32::MAX,
        ensures
            final(self).wf(),
            old(self).released(*final(self), n as int, woken@),
            final(self).supply() == old(self).supply() + n,
            ({
                let o = old(self).order();
                let c = old(self).served_from(0, n as int);
                let r = old(self).rem_from(0, n as int);
                &&& 0 <= c <= o.len()
                &&& 0 <= r <= n
                &&& final(self).order() == o.subrange(c, o.len() as int)
                &&& final(self).detached() == old(self).detached() + o.subrange(0, c)
                &&& woken@.len() == c
                &&& forall|i: int| 0 <= i < c ==> #[trigger] woken@[i] == old(self).waker(o[i]).unwrap()
                &&& forall|i: int|
                    0 <= i < c ==> final(self).remaining(#[trigger] o[i]) == 0
                        && final(self).waker(o[i]).is_none()
                &&& c < o.len() ==> final(self).remaining(o[c]) == old(self).remaining(o[c]) - r
                    && final(self).waker(o[c]) == old(self).waker(o[c])
                &&& forall|i: int|
                    c < i < o.len() ==> final(self).remaining(#[trigger] o[i]) == old(self).remaining(o[i]) && final(self).waker(o[i]) == old(self).waker(o[i])
                &&& final(self).permits() == old(self).permits() + (if c == o.len() {
                    r
                } else {
                    0
                })
            }),
            forall|k: usize| #[trigger]
                old(self).detached().contains(k) ==> final(self).remaining(k) == old(self).remaining(k) && final(self).waker(k) == old(self).waker(k),
            forall|k: usize| #[trigger] final(self).requested(k) == old(self).requested(k),
    {
        let ghost s0 = *self;
        let ghost o = s0.order();
        let ghost mut t: int = 0;
        let mut rem = n;
        let mut woken: Vec<u64> = Vec::new();
        proof {
            assert(o.subrange(0, o.len() as int) =~= o);
            assert(s0.detached() + o.subrange(0, 0) =~= s0.detached());
        }
        loop
            invariant_except_break
                forall|i: int|
                    t <= i < o.len() ==> self.remaining(#[trigger] o[i]) == s0.remaining(o[i])
                        && self.waker(o[i]) == s0.waker(o[i]),
                s0.served_from(0, n as int) == t + s0.served_from(t, rem as int),
                s0.rem_from(0, n as int) == s0.rem_from(t, rem as int),
            invariant
                self.wf(),
                s0.wf(),
                o == s0.order(),
                s0.permits() + n <= u32::MAX,
                0 <= t <= o.len(),
                rem <= n,
                self.permits == s0.permits,
                self.requested@ == s0.requested@,
                self.order() == o.subrange(t, o.len() as int),
                self.detached() == s0.detached() + o.subrange(0, t),
                woken@.len() == t,
                forall|i: int| 0 <= i < t ==> #[trigger] woken@[i] == s0.waker(o[i]).unwrap(),
                forall|i: int|
                    0 <= i < t ==> self.remaining(#[trigger] o[i]) == 0 && self.waker(o[i]).is_none(),
                forall|k: usize| #[trigger]
                    s0.detached().contains(k) ==> self.remaining(k) == s0.remaining(k) && self.waker(k)
                        == s0.waker(k),
                self.supply() + rem == s0.supply() + n,
            ensures
                self.wf(),
                self.permits == s0.permits,
                self.requested@ == s0.requested@,
                ({
                    let c = s0.served_from(0, n as int);
                    let r = s0.rem_from(0, n as int);
                    &&& 0 <= c <= o.len()
                    &&& 0 <= r <= n
                    &&& rem == (if c == o.len() {
                        r
                    } else {
                        0
                    })
                    &&& self.order() == o.subrange(c, o.len() as int)
                    &&& self.detached() == s0.detached() + o.subrange(0, c)
                    &&& woken@.len() == c
                    &&& forall|i: int| 0 <= i < c ==> #[trigger] woken@[i] == s0.waker(o[i]).unwrap()
                    &&& forall|i: int|
                        0 <= i < c ==> self.remaining(#[trigger] o[i]) == 0 && self.waker(
                            o[i],
                        ).is_none()
                    &&& c < o.len() ==> self.remaining(o[c]) == s0.remaining(o[c]) - r
                        && self.waker(o[c]) == s0.waker(o[c])
                    &&& forall|i: int|
                        c < i < o.len() ==> self.remaining(#[trigger] o[i]) == s0.remaining(o[i])
                            && self.waker(o[i]) == s0.waker(o[i])
                }),
                forall|k: usize| #[trigger]
                    s0.detached().contains(k) ==> self.remaining(k) == s0.remaining(k) && self.waker(k)
                        == s0.waker(k),
                self.supply() + rem == s0.supply() + n,
            decreases o.len() - t,
        {
            if rem == 0 {
                proof {
                    if t < o.len() {
                        s0.lemma_linked(t);
                    }
                }
                break;
            }
            let first = self.waiters.first();
            match first {
                None => {
                    proof {
                        assert(self.order().len() == 0);
                        assert(t == o.len());
                    }
                    break;
                },
                Some(k) => {
                    proof {
                        assert(self.order()[0] == o[t]);
                        assert(self.order().contains(k));
                        s0.lemma_linked(t);
                        self.lemma_linked(0);
                    }
                    let node = self.waiters.get_stat(k);
                    if node.permits <= rem {
                        let ghost before = *self;
                        rem = rem - node.permits;
                        self.waiters.set_stat(k, WaitNode { permits: 0, waker: None });
                        let ghost mid = *self;
                        self.waiters.remove_waiter(k);
                        woken.push(node.waker.unwrap());
                        proof {
                            self.lemma_serve_step(before, mid, k);
                            let ot = o.subrange(t, o.len() as int);
                            assert(before.order() == ot);
                            assert(ot.index_of(k) == 0) by {
                                assert(ot[0] == k);
                                assert(ot.no_duplicates()) by {
                                    before.lemma_order_no_dups();
                                }
                            }
                            assert(self.order() =~= o.subrange(t + 1, o.len() as int));
                            assert(self.detached() =~= s0.detached() + o.subrange(0, t + 1));
                            assert(!s0.detached().contains(k)) by {
                                assert(self.detached().no_duplicates()) by {
                                    self.lemma_detached_no_dups();
                                }
                                let dl = s0.detached().len();
                                if s0.detached().contains(k) {
                                    let j = choose|j: int| 0 <= j < dl && s0.detached()[j] == k;
                                    assert(self.detached()[j] == k);
                                    assert(self.detached()[dl + t] == k);
                                }
                            }
                            assert forall|i: int| 0 <= i < t + 1 implies self.remaining(#[trigger] o[i])
                                == 0 && self.waker(o[i]).is_none() by {
                                if i < t {
                                    assert(o[i] != k) by {
                                        s0.lemma_order_no_dups();
                                    }
                                }
                            }
                            assert forall|i: int| t + 1 <= i < o.len() implies self.remaining(
                                #[trigger] o[i],
                            ) == s0.remaining(o[i]) && self.waker(o[i]) == s0.waker(o[i]) by {
                                assert(o[i] != k) by {
                                    s0.lemma_order_no_dups();
                                }
                            }
                            assert forall|k2: usize| #[trigger]
                                s0.detached().contains(k2) implies self.remaining(k2) == s0.remaining(
                                k2,
                            ) && self.waker(k2) == s0.waker(k2) by {
                                assert(k2 != k);
                            }
                            t = t + 1;
                        }
                    } else {
                        let ghost before = *self;
                        self.waiters.set_stat(
                            k,
                            WaitNode { permits: node.permits - rem, waker: node.waker },
                        );
                        proof {
                            self.lemma_partial_step(before, k, rem as int);
                            assert forall|i: int| t < i < o.len() implies self.remaining(
                                #[trigger] o[i],
                            ) == s0.remaining(o[i]) && self.waker(o[i]) == s0.waker(o[i]) by {
                                assert(o[i] != k) by {
                                    s0.lemma_order_no_dups();
                                }
                            }
                            assert forall|i: int| 0 <= i < t implies self.remaining(#[trigger] o[i])
                                == 0 && self.waker(o[i]).is_none() by {
                                assert(o[i] != k) by {
                                    s0.lemma_order_no_dups();
                                }
                            }
                            assert forall|k2: usize| #[trigger]
                                s0.detached().contains(k2) implies self.remaining(k2) == s0.remaining(
                                k2,
                            ) && self.waker(k2) == s0.waker(k2) by {
                                if k2 == k {
                                    assert(before.detached().contains(k)) by {
                                        let j = choose|j: int|
                                            0 <= j < s0.detached().len() && s0.detached()[j] == k;
                                        assert(before.detached()[j] == k);
                                    }
                                    before.lemma_not_both(k);
                                }
                            }
                        }
                        rem = 0;
                        break;
                    }
                },
            }
        }
        let ghost after_loop = *self;
        if rem > 0 && self.waiters.is_empty() {
            self.permits = self.permits + rem;
            proof {
                self.lemma_permits_only(after_loop);
            }
        }
        woken
    }

    /// Every queued waiter still waits for at least one permit and has a
    /// task to wake; a waiter served in full waits for nothing and has given
    /// its task up (it was woken when it was served).
    pub proof fn lemma_waiter_states(self, k: usize)
        requires
            self.wf(),
        ensures
            self.order().contains(k) ==> 0 < self.remaining(k) <= self.requested(k)
                && self.waker(k).is_some(),
            self.detached().contains(k) ==> self.remaining(k) == 0 && self.waker(k).is_none(),
    {
        if self.order().contains(k) {
            let i = choose|i: int| 0 <= i < self.order().len() && self.order()[i] == k;
            self.lemma_linked(i);
        }
        if self.detached().contains(k) {
            let j = choose|j: int| 0 <= j < self.detached().len() && self.detached()[j] == k;
            self.lemma_detached(j);
        }
    }

    /// What the `c` queued waiters from position `t` on still need in all.
    pub open spec fn needs_from(self, t: int, c: int) -> int
        decreases c,
    {
        if c <= 0 {
            0
        } else {
            self.remaining(self.order()[t]) + self.needs_from(t + 1, c - 1)
        }
    }

    proof fn lemma_served_prefix(self, t: int, rem: int)
        requires
            0 <= t,
        ensures
            self.needs_from(t, self.served_from(t, rem)) + self.rem_from(t, rem) == rem,
            t + self.served_from(t, rem) < self.order().len() ==> self.remaining(
                self.order()[t + self.served_from(t, rem)],
            ) > self.rem_from(t, rem),
        decreases self.order().len() - t,
    {
        if t < self.order().len() && self.remaining(self.order()[t]) <= rem {
            let r = self.remaining(self.order()[t]);
            self.lemma_served_prefix(t + 1, rem - r);
            self.lemma_served_nonneg(t + 1, rem - r);
            assert(self.needs_from(t, 1 + self.served_from(t + 1, rem - r)) == r + self.needs_from(
                t + 1,
                self.served_from(t + 1, rem - r),
            ));
        }
    }

    /// A release of `n` permits serves the longest prefix of the queue whose
    /// needs add up to at most `n`: the served waiters need `n - r` in all,
    /// where `r` is what is left over, and the next waiter, if any, needs more
    /// than `r` and keeps its place with its need cut by `r`.
    pub proof fn lemma_release_prefix_sums(self, after: Self, n: int, woken: Seq<u64>)
        requires
            self.wf(),
            0 <= n,
            self.released(after, n, woken),
        ensures
            ({
                let o = self.order();
                let c = self.served_from(0, n);
                let r = self.rem_from(0, n);
                &&& self.needs_from(0, c) == n - r
                &&& c < o.len() ==> self.needs_from(0, c + 1) > n
                    && after.remaining(o[c]) == self.remaining(o[c]) - r
                    && after.order()[0] == o[c]
            }),
    {
        self.lemma_served_prefix(0, n);
        self.lemma_served_nonneg(0, n);
        let c = self.served_from(0, n);
        if c < self.order().len() {
            self.lemma_needs_split(0, c);
        }
    }

    proof fn lemma_needs_split(self, t: int, c: int)
        requires
            0 <= c,
        ensures
            self.needs_from(t, c + 1) == self.needs_from(t, c) + self.remaining(self.order()[t + c]),
        decreases c,
    {
        if c == 0 {
            assert(self.needs_from(t + 1, 0) == 0);
        } else {
            self.lemma_needs_split(t + 1, c - 1);
            assert((t + 1) + (c - 1) == t + c);
            assert((c - 1) + 1 == c);
            assert(self.needs_from(t + 1, c) == self.needs_from(t + 1, c - 1) + self.remaining(
                self.order()[t + c],
            ));
            assert(self.needs_from(t, c + 1) == self.remaining(self.order()[t]) + self.needs_from(
                t + 1,
                c,
            ));
            assert(self.needs_from(t, c) == self.remaining(self.order()[t]) + self.needs_from(
                t + 1,
                c - 1,
            ));
        }
    }

    /// Nobody queues while permits are available: a semaphore with a waiter
    /// in its queue has no available permit.
    pub proof fn lemma_queue_means_no_permits(self)
        requires
            self.wf(),
            self.order().len() > 0,
        ensures
            self.permits() == 0,
    {
    }

    /// With nobody queued, a release makes every released permit available
    /// and wakes nobody.
    pub proof fn lemma_release_to_empty_queue(self, after: Self, n: int, woken: Seq<u64>)
        requires
            self.wf(),
            self.order().len() == 0,
            0 <= n,
            self.released(after, n, woken),
        ensures
            after.permits() == self.permits() + n,
            woken.len() == 0,
            after.order().len() == 0,
    {
    }

    /// Permits taken by a successful `try_acquire` and handed back by
    /// `release` while nobody waits leave the available permits as they were.
    pub proof fn lemma_acquire_release_round_trip(
        self,
        mid: Self,
        after: Self,
        n: int,
        woken: Seq<u64>,
    )
        requires
            self.wf(),
            mid.wf(),
            self.order().len() == 0,
            0 <= n <= self.permits(),
            mid.permits() == self.permits() - n,
            mid.same_waiters(self),
            mid.released(after, n, woken),
        ensures
            after.permits() == self.permits(),
            woken.len() == 0,
            after.order() == self.order(),
    {
        mid.lemma_release_to_empty_queue(after, n, woken);
    }

    /// A release serves the queue first come, first served: a waiter is
    /// served only if every waiter ahead of it is, and the first waiter is
    /// served whenever the release covers what it still needs. A waiter that
    /// is served waits for nothing more.
    pub proof fn lemma_release_serves_prefix(self, after: Self, n: int, woken: Seq<u64>, i: int, j: int)
        requires
            self.wf(),
            self.released(after, n, woken),
            0 <= i < j < self.order().len(),
        ensures
            !after.order().contains(self.order()[j]) ==> !after.order().contains(self.order()[i])
                && after.remaining(self.order()[i]) == 0,
            self.remaining(self.order()[0]) <= n ==> !after.order().contains(self.order()[0])
                && after.remaining(self.order()[0]) == 0,
    {
        self.lemma_order_no_dups();
        let o = self.order();
        let c = self.served_from(0, n);
        if !after.order().contains(o[j]) {
            if j >= c {
                assert(after.order()[j - c] == o[j]);
            }
            if after.order().contains(o[i]) {
                let t = choose|t: int| 0 <= t < after.order().len() && after.order()[t] == o[i];
                assert(o[t + c] == o[i]);
            }
        }
        if self.remaining(o[0]) <= n {
            self.lemma_served_nonneg(1, n - self.remaining(o[0]));
            assert(c >= 1);
            if after.order().contains(o[0]) {
                let t = choose|t: int| 0 <= t < after.order().len() && after.order()[t] == o[0];
                assert(o[t + c] == o[0]);
            }
        }
    }

    proof fn lemma_served_nonneg(self, t: int, rem: int)
        ensures
            self.served_from(t, rem) >= 0,
        decreases self.order().len() - t,
    {
        if 0 <= t < self.order().len() && self.remaining(self.order()[t]) <= rem {
            self.lemma_served_nonneg(t + 1, rem - self.remaining(self.order()[t]));
        }
    }

    proof fn lemma_order_no_dups(self)
        requires
            self.wf(),
        ensures
            self.order().no_duplicates(),
    {
        self.waiters.lemma_view_facts();
    }

    proof fn lemma_detached_no_dups(self)
        requires
            self.wf(),
        ensures
            self.detached().no_duplicates(),
    {
        self.waiters.lemma_view_facts();
    }

    proof fn lemma_not_both(self, k: usize)
        requires
            self.wf(),
        ensures
            !(self.order().contains(k) && self.detached().contains(k)),
    {
        self.waiters.lemma_view_facts();
    }

    /// Serving the first waiter `k` in full: it leaves the queue, its grant
    /// grows by what it still waited for, and it is now detached.
    proof fn lemma_serve_step(self, before: Self, mid: Self, k: usize)
        requires
            before.wf(),
            before.order().len() > 0,
            before.order()[0] == k,
            mid.waiters.wf(),
            mid.permits == before.permits,
            mid.requested@ == before.requested@,
            mid.order() == before.order(),
            mid.detached() == before.detached(),
            mid.remaining(k) == 0,
            mid.waker(k).is_none(),
            forall|k2: usize| k2 != k ==> mid.waiters.stat(k2) == before.waiters.stat(k2),
            self.waiters.wf(),
            self.permits == mid.permits,
            self.requested@ == mid.requested@,
            self.order() == mid.order().remove(mid.order().index_of(k)),
            self.detached() == mid.detached().push(k),
            forall|k2: usize| self.waiters.stat(k2) == mid.waiters.stat(k2),
        ensures
            self.wf(),
            self.supply() == before.supply() + before.remaining(k),
            forall|k2: usize| k2 != k ==> self.remaining(k2) == before.remaining(k2) && self.waker(k2) == before.waker(k2),
            self.remaining(k) == 0,
            self.waker(k).is_none(),
    {
        before.lemma_order_no_dups();
        before.lemma_detached_no_dups();
        before.lemma_not_both(k);
        assert(before.order().contains(k));
        let ob = before.order();
        assert(ob.index_of(k) == 0) by {
            assert(ob[0] == k);
        }
        let fb = before.granted_fn();
        let fm = mid.granted_fn();
        assert forall|k2: usize| k2 != k implies #[trigger] fb(k2) == fm(k2) by {
            assert(mid.waiters.stat(k2) == before.waiters.stat(k2));
        }
        lemma_sum_update(ob, fb, fm, k);
        lemma_sum_update(before.detached(), fb, fm, k);
        lemma_sum_remove(ob, fm, 0);
        lemma_sum_push(before.detached(), fm, k);
        let fs = self.granted_fn();
        assert forall|i: int| 0 <= i < self.order().len() implies #[trigger] fs(self.order()[i]) == fm(
            self.order()[i],
        ) by {}
        lemma_sum_congruent(self.order(), fs, fm);
        assert forall|i: int| 0 <= i < self.detached().len() implies #[trigger] fs(
            self.detached()[i],
        ) == fm(self.detached()[i]) by {}
        lemma_sum_congruent(self.detached(), fs, fm);
        assert forall|i: int| 0 <= i < self.order().len() implies #[trigger] self.linked_ok(
            self.order()[i],
        ) by {
            assert(self.order()[i] == ob[i + 1]);
            before.lemma_linked(i + 1);
            assert(ob[i + 1] != k);
        }
        before.lemma_linked(0);
        assert forall|j: int| 0 <= j < self.detached().len() implies #[trigger] self.detached_ok(
            self.detached()[j],
        ) by {
            if j < before.detached().len() {
                before.lemma_detached(j);
                let x = before.detached()[j];
                assert(x != k);
                assert(self.waiters.stat(x) == mid.waiters.stat(x));
                assert(mid.waiters.stat(x) == before.waiters.stat(x));
            } else {
                assert(self.detached()[j] == k);
            }
        }
    }

    /// Serving the first waiter `k` in part: its grant grows by `rem`.
    proof fn lemma_partial_step(self, before: Self, k: usize, rem: int)
        requires
            before.wf(),
            before.order().len() > 0,
            before.order()[0] == k,
            0 < rem < before.remaining(k),
            self.waiters.wf(),
            self.permits == before.permits,
            self.requested@ == before.requested@,
            self.order() == before.order(),
            self.detached() == before.detached(),
            self.remaining(k) == before.remaining(k) - rem,
            self.waker(k) == before.waker(k),
            forall|k2: usize| k2 != k ==> self.waiters.stat(k2) == before.waiters.stat(k2),
        ensures
            self.wf(),
            self.supply() == before.supply() + rem,
    {
        before.lemma_order_no_dups();
        before.lemma_detached_no_dups();
        before.lemma_not_both(k);
        assert(before.order().contains(k));
        let fb = before.granted_fn();
        let fs = self.granted_fn();
        assert forall|k2: usize| k2 != k implies #[trigger] fb(k2) == fs(k2) by {
            assert(self.waiters.stat(k2) == before.waiters.stat(k2));
        }
        lemma_sum_update(before.order(), fb, fs, k);
        lemma_sum_update(before.detached(), fb, fs, k);
        assert forall|i: int| 0 <= i < self.order().len() implies #[trigger] self.linked_ok(
            self.order()[i],
        ) by {
            before.lemma_linked(i);
        }
        assert forall|j: int| 0 <= j < self.detached().len() implies #[trigger] self.detached_ok(
            self.detached()[j],
        ) by {
            before.lemma_detached(j);
            assert(before.detached()[j] != k);
        }
    }

    /// One poll of the acquire future `acq` by task `task`. Returns whether the
    /// future is ready: it has all the permits it asked for.
    ///
    /// A future that was not yet queued takes the permits at once if enough are
    /// available; otherwise it takes all that are available and queues at the
    /// tail for the rest. A queued future is ready once it has been served in
    /// full, and otherwise records `task` as the task to wake.
    pub fn poll(&mut self, acq: &mut Acquire, task: u64) -> (ready: bool)
        requires
            old(self).wf(),
            old(self).tracks(*old(acq)),
        ensures
            final(self).wf(),
            final(self).tracks(*final(acq)),
            final(acq).needed() == old(acq).needed(),
            ready == final(acq).is_done(),
            final(self).supply() == old(self).supply() - (if ready && !old(acq).is_done() {
                old(acq).needed() as int
            } else {
                0
            }),
            old(acq).is_done() ==> ready && *final(self) == *old(self) && *final(acq) == *old(acq),
            !old(acq).is_done() && old(acq).index() is None ==> {
                &&& ready == (old(self).permits() >= old(acq).needed())
                &&& ready ==> final(self).permits() == old(self).permits() - old(acq).needed()
                    && final(self).same_waiters(*old(self))
                &&& !ready ==> {
                    let k = final(acq).index().unwrap();
                    &&& final(acq).index().is_some()
                    &&& final(self).permits() == 0
                    &&& final(self).order() == old(self).order().push(k)
                    &&& final(self).detached() == old(self).detached()
                    &&& !old(self).registered(k)
                    &&& final(self).remaining(k) == old(acq).needed() - old(self).permits()
                    &&& final(self).waker(k) == Some(task)
                    &&& final(self).requested(k) == old(acq).needed()
                }
            },
            !old(acq).is_done() && old(acq).index() is Some ==> {
                let k = old(acq).index().unwrap();
                &&& ready == (old(self).remaining(k) == 0)
                &&& final(self).permits() == old(self).permits()
                &&& final(self).order() == old(self).order()
                &&& ready ==> final(acq).index().is_none() && final(self).detached() == old(self).detached().remove(old(self).detached().index_of(k))
                &&& !ready ==> final(acq).index() == Some(k) && final(self).detached() == old(self).detached() && final(self).waker(k) == Some(task) && final(self).remaining(k)
                    == old(self).remaining(k)
            },
            old(self).polled(*final(self), *old(acq), *final(acq), task, ready),
    {
        if acq.done {
            return true;
        }
        match acq.index {
            Some(idx) => {
                let node = self.waiters.get_stat(idx);
                if node.permits > 0 {
                    let update_waker = match node.waker {
                        Some(w) => w != task,
                        None => true,
                    };
                    if update_waker {
                        let ghost before = *self;
                        self.waiters.set_stat(idx, WaitNode { permits: node.permits, waker: Some(task) });
                        proof {
                            self.lemma_waker_step(before, idx);
                        }
                    }
                    proof {
                        assert(self.order() == old(self).order());
                        assert(self.registered(idx));
                        assert(self.tracks(*acq));
                    }
                    false
                } else {
                    let ghost before = *self;
                    proof {
                        before.lemma_not_both(idx);
                        if before.order().contains(idx) {
                            let i = choose|i: int| 0 <= i < before.order().len() && before.order()[i] == idx;
                            before.lemma_linked(i);
                        }
                    }
                    self.waiters.free_waiter(idx);
                    acq.index = None;
                    acq.done = true;
                    proof {
                        self.lemma_free_step(before, idx);
                    }
                    true
                }
            },
            None => {
                let needed = acq.permits;
                let current = self.permits;
                if current >= needed {
                    self.permits = current - needed;
                    acq.done = true;
                    proof {
                        self.lemma_permits_only(*old(self));
                    }
                    true
                } else {
                    let ghost before = *self;
                    self.permits = 0;
                    let mut index: Option<usize> = None;
                    self.waiters.register_waiter_to_tail(
                        &mut index,
                        WaitNode { permits: needed - current, waker: Some(task) },
                    );
                    proof {
                        let k = index.unwrap();
                        self.requested@ = self.requested@.insert(k, needed as nat);
                        self.lemma_enqueue_step(before, k, current as int);
                        assert(self.order()[self.order().len() - 1] == k);
                        assert(self.registered(k));
                    }
                    acq.index = index;
                    false
                }
            },
        }
    }

    proof fn lemma_waker_step(self, before: Self, k: usize)
        requires
            before.wf(),
            before.registered(k),
            before.remaining(k) > 0,
            self.waiters.wf(),
            self.permits == before.permits,
            self.requested@ == before.requested@,
            self.order() == before.order(),
            self.detached() == before.detached(),
            self.remaining(k) == before.remaining(k),
            self.waker(k).is_some(),
            forall|k2: usize| k2 != k ==> self.waiters.stat(k2) == before.waiters.stat(k2),
        ensures
            self.wf(),
            self.supply() == before.supply(),
    {
        let fb = before.granted_fn();
        let fs = self.granted_fn();
        assert forall|i: int| 0 <= i < self.order().len() implies #[trigger] fs(self.order()[i]) == fb(
            self.order()[i],
        ) by {
            let k2 = self.order()[i];
            if k2 != k {
                assert(self.waiters.stat(k2) == before.waiters.stat(k2));
            }
        }
        lemma_sum_congruent(self.order(), fs, fb);
        assert forall|i: int| 0 <= i < self.detached().len() implies #[trigger] fs(
            self.detached()[i],
        ) == fb(self.detached()[i]) by {
            let k2 = self.detached()[i];
            if k2 != k {
                assert(self.waiters.stat(k2) == before.waiters.stat(k2));
            }
        }
        lemma_sum_congruent(self.detached(), fs, fb);
        assert forall|i: int| 0 <= i < self.order().len() implies #[trigger] self.linked_ok(
            self.order()[i],
        ) by {
            before.lemma_linked(i);
        }
        assert forall|j: int| 0 <= j < self.detached().len() implies #[trigger] self.detached_ok(
            self.detached()[j],
        ) by {
            before.lemma_detached(j);
            let k2 = self.detached()[j];
            if k2 == k {
                assert(before.remaining(k) == 0);
            } else {
                assert(self.waiters.stat(k2) == before.waiters.stat(k2));
            }
        }
    }

    proof fn lemma_free_step(self, before: Self, k: usize)
        requires
            before.wf(),
            before.detached().contains(k),
            self.waiters.wf(),
            self.permits == before.permits,
            self.requested@ == before.requested@,
            self.order() == before.order(),
            self.detached() == before.detached().remove(before.detached().index_of(k)),
            forall|k2: usize| k2 != k ==> self.waiters.stat(k2) == before.waiters.stat(k2),
        ensures
            self.wf(),
            self.supply() == before.supply() - before.requested(k),
            !self.registered(k),
    {
        before.lemma_detached_no_dups();
        before.lemma_not_both(k);
        let d = before.detached();
        let j = d.index_of(k);
        assert(0 <= j < d.len() && d[j] == k);
        before.lemma_detached(j);
        lemma_sum_remove(d, before.granted_fn(), j);
        d.remove_ensures(j);
        let fb = before.granted_fn();
        let fs = self.granted_fn();
        assert forall|i: int| 0 <= i < self.order().len() implies #[trigger] fs(self.order()[i]) == fb(
            self.order()[i],
        ) by {
            let k2 = self.order()[i];
            assert(k2 != k);
            assert(self.waiters.stat(k2) == before.waiters.stat(k2));
        }
        lemma_sum_congruent(self.order(), fs, fb);
        assert forall|i: int| 0 <= i < self.detached().len() implies #[trigger] fs(
            self.detached()[i],
        ) == fb(self.detached()[i]) by {
            let i0 = if i < j { i } else { i + 1 };
            assert(self.detached()[i] == d[i0]);
            assert(d[i0] != k);
            assert(self.waiters.stat(d[i0]) == before.waiters.stat(d[i0]));
        }
        lemma_sum_congruent(self.detached(), fs, fb);
        assert forall|i: int| 0 <= i < self.order().len() implies #[trigger] self.linked_ok(
            self.order()[i],
        ) by {
            before.lemma_linked(i);
            assert(self.order()[i] != k);
            assert(self.waiters.stat(self.order()[i]) == before.waiters.stat(self.order()[i]));
        }
        assert forall|i: int| 0 <= i < self.detached().len() implies #[trigger] self.detached_ok(
            self.detached()[i],
        ) by {
            let i0 = if i < j { i } else { i + 1 };
            before.lemma_detached(i0);
            assert(d[i0] != k);
            assert(self.waiters.stat(d[i0]) == before.waiters.stat(d[i0]));
        }
        assert(!self.detached().contains(k)) by {
            if self.detached().contains(k) {
                let i = choose|i: int| 0 <= i < self.detached().len() && self.detached()[i] == k;
                let i0 = if i < j { i } else { i + 1 };
                assert(d[i0] == k);
            }
        }
    }

    proof fn lemma_enqueue_step(self, before: Self, k: usize, current: int)
        requires
            before.wf(),
            !before.registered(k),
            0 <= current < self.requested(k) <= u32::MAX,
            current == before.permits(),
            self.permits == 0,
            self.waiters.wf(),
            self.requested@ == before.requested@.insert(k, self.requested(k)),
            self.order() == before.order().push(k),
            self.detached() == before.detached(),
            self.remaining(k) == self.requested(k) - current,
            self.waker(k).is_some(),
            forall|k2: usize| before.registered(k2) ==> self.waiters.stat(k2) == before.waiters.stat(k2),
        ensures
            self.wf(),
            self.supply() == before.supply(),
    {
        let fb = before.granted_fn();
        let fs = self.granted_fn();
        assert forall|i: int| 0 <= i < before.order().len() implies #[trigger] fs(before.order()[i]) == fb(
            before.order()[i],
        ) by {
            let k2 = before.order()[i];
            assert(before.registered(k2));
            assert(k2 != k);
        }
        lemma_sum_congruent(before.order(), fs, fb);
        lemma_sum_push(before.order(), fs, k);
        assert forall|i: int| 0 <= i < before.detached().len() implies #[trigger] fs(
            before.detached()[i],
        ) == fb(before.detached()[i]) by {
            let k2 = before.detached()[i];
            assert(before.registered(k2));
            assert(k2 != k);
        }
        lemma_sum_congruent(before.detached(), fs, fb);
        assert forall|i: int| 0 <= i < self.order().len() implies #[trigger] self.linked_ok(
            self.order()[i],
        ) by {
            if i < before.order().len() {
                before.lemma_linked(i);
                let k2 = before.order()[i];
                assert(before.registered(k2));
                assert(k2 != k);
            }
        }
        assert forall|i: int| 0 <= i < self.detached().len() implies #[trigger] self.detached_ok(
            self.detached()[i],
        ) by {
            before.lemma_detached(i);
            let k2 = before.detached()[i];
            assert(before.registered(k2));
            assert(k2 != k);
        }
    }

    /// Drops the acquire future `acq`: a queued or served-but-unseen future
    /// leaves the queue, and the permits it had been granted go back through
    /// `release`. A future that completed or never queued changes nothing.
    /// Returns the tasks to wake.
    ///
    /// Handing back the granted permits would overflow `u32::MAX` only when
    /// the caller's runtime would panic; `requires` leaves that input out.
    pub fn cancel(&mut self, acq: &mut Acquire) -> (woken: Vec<u64>)
        requires
            old(self).wf(),
            old(self).tracks(*old(acq)),
            old(acq).index() matches Some(k) ==> old(self).permits() + (old(acq).needed()
                - old(self).remaining(k)) <= u32::MAX,
        ensures
            final(self).wf(),
            final(acq).index().is_none(),
            final(acq).is_done() == old(acq).is_done(),
            final(acq).needed() == old(acq).needed(),
            final(self).supply() == old(self).supply(),
            old(acq).index() matches Some(k) ==> !final(self).registered(k),
            old(acq).index() is None ==> *final(self) == *old(self) && woken@.len() == 0,
            old(self).cancelled(*final(self), *old(acq), woken@),
    {
        match acq.index {
            Some(index) => {
                let node = self.waiters.get_stat(index);
                proof {
                    self.lemma_granted_in_range(index);
                }
                let acquired = acq.permits - node.permits;
                let ghost s0 = *self;
                let was_linked = self.waiters.remove_waiter(index);
                let ghost s1 = *self;
                proof {
                    if was_linked {
                        assert(s1.detached()[s0.detached().len() as int] == index);
                    }
                }
                self.waiters.free_waiter(index);
                acq.index = None;
                proof {
                    self.lemma_unregister(s0, s1, index, was_linked);
                    s0.lemma_not_both(index);
                    s0.lemma_order_no_dups();
                    s0.lemma_detached_no_dups();
                    if was_linked {
                        assert(!s0.detached().contains(index));
                        assert(s1.detached().index_of(index) == s0.detached().len()) by {
                            s1.waiters.lemma_view_facts();
                        }
                        assert(s1.detached().remove(s0.detached().len() as int) =~= s0.detached());
                    }
                    assert(s0.unregistered(*self, index));
                }
                let ghost mid = *self;
                if acquired > 0 {
                    self.insert_permits(acquired)
                } else {
                    proof {
                        let o = mid.order();
                        if o.len() > 0 {
                            mid.lemma_linked(0);
                        }
                        assert(o.subrange(0, o.len() as int) =~= o);
                        assert(mid.detached() + o.subrange(0, 0) =~= mid.detached());
                        assert(mid.released(*self, 0, Seq::<u64>::empty()));
                    }
                    Vec::new()
                }
            },
            None => Vec::new(),
        }
    }

    proof fn lemma_granted_in_range(self, k: usize)
        requires
            self.wf(),
            self.registered(k),
        ensures
            self.remaining(k) <= self.requested(k) <= u32::MAX,
            self.order().contains(k) ==> self.permits() == 0,
    {
        if self.order().contains(k) {
            let i = choose|i: int| 0 <= i < self.order().len() && self.order()[i] == k;
            self.lemma_linked(i);
        } else {
            let j = choose|j: int| 0 <= j < self.detached().len() && self.detached()[j] == k;
            self.lemma_detached(j);
        }
    }

    /// Taking waiter `k` out of the queue and the slab removes its grant from
    /// the supply.
    proof fn lemma_unregister(self, s0: Self, s1: Self, k: usize, was_linked: bool)
        requires
            s0.wf(),
            s0.registered(k),
            s1.waiters.wf(),
            s1.permits == s0.permits,
            s1.requested@ == s0.requested@,
            was_linked == s0.order().contains(k),
            was_linked ==> s1.order() == s0.order().remove(s0.order().index_of(k)),
            was_linked ==> s1.detached() == s0.detached().push(k),
            !was_linked ==> s1.order() == s0.order() && s1.detached() == s0.detached(),
            forall|k2: usize| s1.waiters.stat(k2) == s0.waiters.stat(k2),
            s1.detached().contains(k),
            self.waiters.wf(),
            self.permits == s1.permits,
            self.requested@ == s1.requested@,
            self.order() == s1.order(),
            self.detached() == s1.detached().remove(s1.detached().index_of(k)),
            forall|k2: usize| k2 != k ==> self.waiters.stat(k2) == s1.waiters.stat(k2),
        ensures
            self.wf(),
            self.supply() == s0.supply() - (s0.requested(k) - s0.remaining(k)),
            !self.registered(k),
    {
        s0.lemma_order_no_dups();
        s0.lemma_detached_no_dups();
        s0.lemma_not_both(k);
        let f0 = s0.granted_fn();
        let fs = self.granted_fn();
        assert forall|k2: usize| k2 != k implies #[trigger] f0(k2) == fs(k2) by {
            assert(self.waiters.stat(k2) == s0.waiters.stat(k2));
        }
        if was_linked {
            let i = s0.order().index_of(k);
            assert(0 <= i < s0.order().len() && s0.order()[i] == k);
            lemma_sum_remove(s0.order(), f0, i);
            lemma_sum_push(s0.detached(), f0, k);
            s0.lemma_linked(i);
        }
        // s1 is well-formed as a semaphore except that k may be linked-shaped
        // while detached; the proof goes straight to the final state.
        let d1 = s1.detached();
        let j = d1.index_of(k);
        assert(0 <= j < d1.len() && d1[j] == k);
        lemma_sum_remove(d1, f0, j);
        d1.remove_ensures(j);
        assert(d1.no_duplicates()) by {
            s1.waiters.lemma_view_facts();
        }
        assert forall|a: int| 0 <= a < self.order().len() implies #[trigger] fs(self.order()[a]) == f0(
            self.order()[a],
        ) by {
            if was_linked {
                s0.order().remove_ensures(s0.order().index_of(k));
            }
            assert(self.order()[a] != k) by {
                s1.waiters.lemma_view_facts();
            }
        }
        lemma_sum_congruent(self.order(), fs, f0);
        assert forall|a: int| 0 <= a < self.detached().len() implies #[trigger] fs(
            self.detached()[a],
        ) == f0(self.detached()[a]) by {
            let a0 = if a < j { a } else { a + 1 };
            assert(self.detached()[a] == d1[a0]);
            assert(d1[a0] != k);
        }
        lemma_sum_congruent(self.detached(), fs, f0);
        if !was_linked {
            let jj = s0.detached().index_of(k);
            assert(0 <= jj < s0.detached().len() && s0.detached()[jj] == k);
            s0.lemma_detached(jj);
        }
        assert forall|a: int| 0 <= a < self.order().len() implies #[trigger] self.linked_ok(
            self.order()[a],
        ) by {
            let x = self.order()[a];
            assert(s1.order().contains(x));
            assert(s0.order().contains(x)) by {
                if was_linked {
                    let oi = s0.order().index_of(k);
                    s0.order().remove_ensures(oi);
                    let b = if a < oi { a } else { a + 1 };
                    assert(s0.order()[b] == x);
                }
            }
            let b = choose|b: int| 0 <= b < s0.order().len() && s0.order()[b] == x;
            s0.lemma_linked(b);
            assert(x != k) by {
                s1.waiters.lemma_view_facts();
            }
        }
        assert forall|a: int| 0 <= a < self.detached().len() implies #[trigger] self.detached_ok(
            self.detached()[a],
        ) by {
            let a0 = if a < j { a } else { a + 1 };
            let x = d1[a0];
            assert(self.detached()[a] == x);
            assert(x != k);
            assert(s0.detached().contains(x)) by {
                if was_linked {
                    assert(a0 < s0.detached().len());
                    assert(s0.detached()[a0] == x);
                } else {
                    assert(s0.detached()[a0] == x);
                }
            }
            let b = choose|b: int| 0 <= b < s0.detached().len() && s0.detached()[b] == x;
            s0.lemma_detached(b);
        }
        assert(!self.detached().contains(k)) by {
            if self.detached().contains(k) {
                let a = choose|a: int| 0 <= a < self.detached().len() && self.detached()[a] == k;
                let a0 = if a < j { a } else { a + 1 };
                assert(d1[a0] == k);
            }
        }
        assert(!self.order().contains(k)) by {
            s1.waiters.lemma_view_facts();
        }
        assert(self.order().len() > 0 ==> self.permits == 0) by {
            if self.order().len() > 0 {
                assert(s0.order().len() > 0);
            }
        }
    }
}

} // verus!
