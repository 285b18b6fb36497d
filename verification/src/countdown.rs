//! A counter that tasks wait on until it reaches zero, with the set of tasks
//! waiting on it kept in a slab.
use vstd::prelude::*;
use slab::Slab;
use crate::slots::{
    task_slots,
    task_slab_new,
    task_slab_insert,
    task_slab_index,
    task_slab_set,
    task_slab_is_empty,
    task_slab_keys,
};

verus! {

/// The counter of a latch or wait group, with its waiting tasks.
pub struct CountdownState {
    state: u32,
    waiters: Slab<u64>,
}

/// The tasks that `keys` name in `m`, in the order of `keys`.
pub open spec fn tasks_of(m: Map<usize, u64>, keys: Seq<usize>) -> Seq<u64> {
    keys.map_values(|k: usize| m[k])
}

/// `woken` lists the tasks of `m`, one per key, in ascending key order.
pub open spec fn in_key_order(m: Map<usize, u64>, woken: Seq<u64>) -> bool {
    exists|keys: Seq<usize>|
        #![trigger tasks_of(m, keys)]
        (forall|k: usize| #[trigger] keys.contains(k) <==> m.dom().contains(k))
            && (forall|i: int, j: int| 0 <= i < j < keys.len() ==> keys[i] < keys[j])
            && woken == tasks_of(m, keys)
}

impl CountdownState {
    /// The counter.
    pub closed spec fn count(self) -> nat {
        self.state as nat
    }

    /// The waiting tasks by key.
    pub closed spec fn waiting(self) -> Map<usize, u64> {
        task_slots(self.waiters)
    }

    /// Creates a counter at `count` with no waiting task.
    pub fn new(count: u32) -> (s: Self)
        ensures
            s.count() == count,
            s.waiting().dom().is_empty(),
    {
        CountdownState { state: count, waiters: task_slab_new() }
    }

    /// Reads the counter.
    pub fn state(&self) -> (r: u32)
        ensures
            r == self.count(),
    {
        self.state
    }

    /// Sets the counter to `new` if it is `current`; otherwise returns the
    /// counter as it is.
    pub fn cas_state(&mut self, current: u32, new: u32) -> (r: Result<(), u32>)
        ensures
            old(self).count() == current ==> r is Ok && final(self).count() == new,
            old(self).count() != current ==> r == Err::<(), u32>(old(self).count() as u32)
                && final(self).count() == old(self).count(),
            final(self).waiting() == old(self).waiting(),
    {
        if self.state == current {
            self.state = new;
            Ok(())
        } else {
            Err(self.state)
        }
    }

    /// Takes every waiting task out, in key order, and returns them to be
    /// woken.
    pub fn wake_all(&mut self) -> (woken: Vec<u64>)
        ensures
            final(self).count() == old(self).count(),
            final(self).waiting().dom().is_empty(),
            woken@.to_set() == old(self).waiting().values(),
            woken@.len() == old(self).waiting().dom().len(),
            old(self).waiting().dom().finite(),
            in_key_order(old(self).waiting(), woken@),
    {
        let mut woken: Vec<u64> = Vec::new();
        if !task_slab_is_empty(&self.waiters) {
            let keys = task_slab_keys(&self.waiters);
            let mut i: usize = 0;
            while i < keys.len()
                invariant
                    0 <= i <= keys@.len(),
                    forall|k: usize| #[trigger] keys@.contains(k) <==> self.waiting().dom().contains(k),
                    woken@ == tasks_of(self.waiting(), keys@.subrange(0, i as int)),
                decreases keys@.len() - i,
            {
                proof {
                    assert(keys@.contains(keys@[i as int]));
                }
                let t = task_slab_index(&self.waiters, keys[i]);
                woken.push(t);
                proof {
                    assert(keys@.subrange(0, i + 1) =~= keys@.subrange(0, i as int).push(keys@[i as int]));
                    assert(woken@ =~= tasks_of(self.waiting(), keys@.subrange(0, i + 1)));
                }
                i = i + 1;
            }
            proof {
                assert(keys@.subrange(0, keys@.len() as int) =~= keys@);
                lemma_keys_cover(self.waiting(), keys@);
                assert(woken@ == tasks_of(old(self).waiting(), keys@));
            }
            self.waiters = task_slab_new();
        } else {
            proof {
                assert(self.waiting().values() =~= Set::<u64>::empty()) by {
                    assert forall|v: u64| !self.waiting().values().contains(v) by {
                        if self.waiting().values().contains(v) {
                            let k = choose|k: usize| self.waiting().dom().contains(k) && self.waiting()[k] == v;
                        }
                    }
                }
                assert(woken@.to_set() =~= Set::<u64>::empty());
                let none = Seq::<usize>::empty();
                assert(woken@ =~= tasks_of(self.waiting(), none));
            }
        }
        woken
    }

    /// Registers task `task` to be woken when the counter reaches zero.
    ///
    /// `idx` must be `None` when the task is not registered, or `Some(key)`
    /// where `key` is what this method set it to before.
    pub fn register_waker(&mut self, idx: &mut Option<usize>, task: u64)
        requires
            *old(idx) matches Some(k) ==> old(self).waiting().dom().contains(k),
        ensures
            final(self).count() == old(self).count(),
            final(idx).is_some(),
            final(self).waiting() == old(self).waiting().insert(final(idx).unwrap(), task),
            *old(idx) matches Some(k) ==> *final(idx) == Some(k),
            old(idx).is_none() ==> !old(self).waiting().dom().contains(final(idx).unwrap()),
    {
        match *idx {
            None => {
                let key = task_slab_insert(&mut self.waiters, task);
                *idx = Some(key);
            },
            Some(key) => {
                if task_slab_index(&self.waiters, key) != task {
                    task_slab_set(&mut self.waiters, key, task);
                } else {
                    proof {
                        assert(self.waiting().insert(key, task) =~= self.waiting());
                    }
                }
            },
        }
    }

    /// Returns `Ok(())` if the counter is zero, otherwise `Err(s)` where `s` is
    /// the counter. Checks up to `n` times before the final reading.
    pub fn spin_wait(&self, n: usize) -> (r: Result<(), u32>)
        ensures
            self.count() == 0 ==> r is Ok,
            self.count() != 0 ==> r == Err::<(), u32>(self.count() as u32),
    {
        let mut i: usize = 0;
        while i < n
            invariant
                i <= n,
            decreases n - i,
        {
            if self.state() == 0 {
                return Ok(());
            }
            i = i + 1;
        }
        match self.state() {
            0 => Ok(()),
            s => Err(s),
        }
    }

    /// `after` is this state once `decrement(n)` returned `r`: the counter
    /// went down by `n`, not below zero, and `r` says whether this call
    /// brought it to zero.
    pub open spec fn decremented(self, after: Self, n: u32, r: bool) -> bool {
        &&& after.count() == (if self.count() <= n {
            0
        } else {
            self.count() - n
        })
        &&& r == (self.count() > 0 && self.count() <= n)
    }

    /// Of a run of decrements, at most one brings the counter to zero: after
    /// it the counter stays at zero and every later decrement returns
    /// `false`.
    pub proof fn lemma_one_decrement_reaches_zero(
        states: Seq<CountdownState>,
        ns: Seq<u32>,
        rs: Seq<bool>,
    )
        requires
            states.len() == rs.len() + 1,
            ns.len() == rs.len(),
            forall|i: int| 0 <= i < rs.len() ==> states[i].decremented(states[i + 1], ns[i], #[trigger] rs[i]),
        ensures
            forall|i: int, j: int| 0 <= i < j < rs.len() && rs[i] ==> !rs[j],
    {
        assert forall|i: int, j: int| 0 <= i < j < rs.len() && rs[i] implies !rs[j] by {
            Self::lemma_zero_stays(states, ns, rs, i, j);
            assert(states[j].decremented(states[j + 1], ns[j], rs[j]));
        }
    }

    proof fn lemma_zero_stays(states: Seq<CountdownState>, ns: Seq<u32>, rs: Seq<bool>, i: int, j: int)
        requires
            states.len() == rs.len() + 1,
            ns.len() == rs.len(),
            forall|i: int| 0 <= i < rs.len() ==> states[i].decremented(states[i + 1], ns[i], #[trigger] rs[i]),
            0 <= i < j <= rs.len(),
            rs[i],
        ensures
            states[j].count() == 0,
        decreases j - i,
    {
        assert(states[i].decremented(states[i + 1], ns[i], rs[i]));
        if j > i + 1 {
            Self::lemma_zero_stays(states, ns, rs, i, j - 1);
            assert(states[j - 1].decremented(states[j], ns[j - 1], rs[j - 1]));
        }
    }

    /// Decrements the counter by `n`, not below zero. Returns whether this
    /// call brought it to zero, in which case the caller wakes all waiters.
    pub fn decrement(&mut self, n: u32) -> (r: bool)
        ensures
            final(self).count() == (if old(self).count() <= n {
                0
            } else {
                old(self).count() - n
            }),
            r == (old(self).count() > 0 && old(self).count() <= n),
            final(self).waiting() == old(self).waiting(),
            old(self).decremented(*final(self), n, r),
    {
        let mut cnt = self.state();
        loop
            invariant
                cnt == self.state,
                self.state == old(self).state,
                self.waiters == old(self).waiters,
            decreases 0nat,
        {
            if cnt == 0 {
                return false;
            }
            let new_cnt = cnt.saturating_sub(n);
            match self.cas_state(cnt, new_cnt) {
                Ok(_) => {
                    return new_cnt == 0;
                },
                Err(x) => {
                    cnt = x;
                },
            }
        }
    }

    /// Increments the counter by one, not above `u32::MAX`.
    pub fn increment(&mut self)
        ensures
            final(self).count() == (if old(self).count() == u32::MAX {
                old(self).count() as int
            } else {
                old(self).count() + 1int
            }),
            final(self).waiting() == old(self).waiting(),
    {
        let mut cnt = self.state();
        loop
            invariant
                cnt == self.state,
                self.state == old(self).state,
                self.waiters == old(self).waiters,
            decreases 0nat,
        {
            let new_cnt = cnt.saturating_add(1);
            match self.cas_state(cnt, new_cnt) {
                Ok(_) => {
                    return;
                },
                Err(x) => {
                    cnt = x;
                },
            }
        }
    }
}

/// Keys that list each occupied key once give, as tasks, exactly the values
/// of the map, one per key.
pub proof fn lemma_keys_cover(m: Map<usize, u64>, keys: Seq<usize>)
    requires
        forall|k: usize| #[trigger] keys.contains(k) <==> m.dom().contains(k),
        forall|i: int, j: int| 0 <= i < j < keys.len() ==> keys[i] < keys[j],
    ensures
        tasks_of(m, keys).to_set() == m.values(),
        m.dom().finite(),
        tasks_of(m, keys).len() == m.dom().len(),
{
    let ts = tasks_of(m, keys);
    assert forall|v: u64| ts.to_set().contains(v) <==> m.values().contains(v) by {
        if ts.to_set().contains(v) {
            assert(ts.contains(v));
            let i = choose|i: int| 0 <= i < ts.len() && ts[i] == v;
            assert(keys.contains(keys[i]));
        }
        if m.values().contains(v) {
            let k = choose|k: usize| m.dom().contains(k) && m[k] == v;
            assert(keys.contains(k));
            let i = choose|i: int| 0 <= i < keys.len() && keys[i] == k;
            assert(ts[i] == v);
            assert(ts.contains(v));
        }
    }
    assert(ts.to_set() =~= m.values());
    assert(keys.no_duplicates()) by {
        assert forall|i: int, j: int| 0 <= i < keys.len() && 0 <= j < keys.len() && i != j implies keys[i]
            != keys[j] by {
            if i < j {
                assert(keys[i] < keys[j]);
            } else {
                assert(keys[j] < keys[i]);
            }
        }
    }
    assert(keys.to_set() =~= m.dom());
    keys.unique_seq_to_set();
}

} // verus!
