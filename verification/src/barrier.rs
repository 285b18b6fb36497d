//! A barrier: tasks wait until a given number of them have arrived.
//!
//! Each generation of the barrier lets `n` tasks through: the first `n - 1`
//! arrivals wait, and the `n`-th, the leader, releases them all and starts the
//! next generation.
use vstd::prelude::*;
use crate::waitset::WaitSet;
use crate::countdown::in_key_order;

verus! {

/// A barrier for `n` tasks at a time.
pub struct Barrier {
    n: u32,
    arrived: u32,
    generation: usize,
    waiters: WaitSet,
}

/// The state of a future returned by `Barrier::wait`; drive it with
/// `Barrier::poll_wait`.
#[derive(Debug)]
pub struct BarrierWait {
    idx: Option<usize>,
    generation: Option<usize>,
}

impl BarrierWait {
    pub closed spec fn index(self) -> Option<usize> {
        self.idx
    }

    /// The generation the future arrived in, once it has.
    pub closed spec fn arrived_in(self) -> Option<usize> {
        self.generation
    }
}

impl Barrier {
    pub closed spec fn size(self) -> nat {
        self.n as nat
    }

    /// How many tasks have arrived in the current generation.
    pub closed spec fn arrived(self) -> nat {
        self.arrived as nat
    }

    pub closed spec fn generation(self) -> nat {
        self.generation as nat
    }

    /// The waiting tasks by key.
    pub closed spec fn waiting(self) -> Map<usize, u64> {
        self.waiters.waiting()
    }

    pub closed spec fn wf(self) -> bool {
        &&& 1 <= self.n
        &&& self.arrived < self.n
    }

    /// `after` is this barrier once one more task arrived, and `leader` what
    /// that arrival's poll returned: the arrival that completes the
    /// generation leads and starts the next one; any earlier one waits.
    pub open spec fn arrival(self, after: Self, leader: Option<bool>) -> bool {
        &&& after.size() == self.size()
        &&& if self.arrived() + 1 == self.size() {
            leader == Some(true) && after.arrived() == 0 && after.generation() == self.generation()
                + 1
        } else {
            leader.is_none() && after.arrived() == self.arrived() + 1 && after.generation()
                == self.generation()
        }
    }

    /// In each generation exactly one task leads: of `size` successive
    /// arrivals at a barrier where nobody has arrived yet, only the last is
    /// the leader, every earlier one waits, and the generation advances once.
    pub proof fn lemma_one_leader_per_generation(states: Seq<Barrier>, leaders: Seq<Option<bool>>)
        requires
            states.len() == leaders.len() + 1,
            states[0].wf(),
            leaders.len() == states[0].size(),
            states[0].arrived() == 0,
            forall|i: int|
                0 <= i < leaders.len() ==> states[i].arrival(states[i + 1], #[trigger] leaders[i]),
        ensures
            forall|i: int| 0 <= i < leaders.len() ==> (leaders[i] == Some(true) <==> i == leaders.len() - 1),
            forall|i: int| 0 <= i < leaders.len() - 1 ==> leaders[i].is_none(),
            states[leaders.len() as int].generation() == states[0].generation() + 1,
            states[leaders.len() as int].arrived() == 0,
    {
        let n = leaders.len() as int;
        assert forall|j: int| 0 <= j < n implies #[trigger] states[j].arrived() == j
            && states[j].generation() == states[0].generation() && states[j].size() == n by {
            Self::lemma_arrivals_count(states, leaders, j);
        }
        assert(states[n - 1].arrival(states[n], leaders[n - 1]));
        assert forall|i: int| 0 <= i < n implies (leaders[i] == Some(true) <==> i == n - 1) by {
            assert(states[i].arrival(states[i + 1], leaders[i]));
        }
        assert forall|i: int| 0 <= i < n - 1 implies leaders[i].is_none() by {
            assert(states[i].arrival(states[i + 1], leaders[i]));
        }
    }

    proof fn lemma_arrivals_count(states: Seq<Barrier>, leaders: Seq<Option<bool>>, j: int)
        requires
            states.len() == leaders.len() + 1,
            leaders.len() == states[0].size(),
            states[0].arrived() == 0,
            forall|i: int|
                0 <= i < leaders.len() ==> states[i].arrival(states[i + 1], #[trigger] leaders[i]),
            0 <= j < leaders.len(),
        ensures
            states[j].arrived() == j,
            states[j].generation() == states[0].generation(),
            states[j].size() == leaders.len(),
        decreases j,
    {
        if j > 0 {
            Self::lemma_arrivals_count(states, leaders, j - 1);
            assert(states[j - 1].arrival(states[j], leaders[j - 1]));
        }
    }

    /// `fut` is a future of this barrier: it arrived in a past or the current
    /// generation, and while that is current its key is a waiting task's.
    pub open spec fn tracks(self, fut: BarrierWait) -> bool {
        &&& fut.arrived_in() matches Some(g) ==> g <= self.generation()
        &&& fut.arrived_in() is None ==> fut.index() is None
        &&& fut.index() matches Some(k) ==> (fut.arrived_in() == Some(self.generation() as usize)
            ==> self.waiting().dom().contains(k))
    }

    /// Creates a barrier for `n` tasks. A barrier for no task behaves as one
    /// for a single task: every wait passes at once.
    pub fn new(n: u32) -> (b: Self)
        ensures
            b.wf(),
            b.size() == (if n == 0 {
                1
            } else {
                n as nat
            }),
            b.arrived() == 0,
            b.generation() == 0,
            b.waiting().dom().is_empty(),
    {
        let n = if n > 1 {
            n
        } else {
            1
        };
        Barrier { n, arrived: 0, generation: 0, waiters: WaitSet::with_capacity(n as usize) }
    }

    /// The state of a future that waits at the barrier.
    pub fn wait(&self) -> (fut: BarrierWait)
        ensures
            fut.index().is_none(),
            fut.arrived_in().is_none(),
    {
        BarrierWait { idx: None, generation: None }
    }

    /// One poll of a wait future by task `task`. Once the future completes it
    /// returns `Some(true)` for the leader, the task that arrived last, and
    /// `Some(false)` for every other.
    ///
    /// The first poll arrives: the `n`-th arrival is the leader, releases the
    /// generation's waiters and completes at once; earlier ones wait. A waiting
    /// future completes, not as leader, once its generation has passed.
    ///
    /// A generation counter at `usize::MAX` cannot advance; `requires` leaves
    /// that out.
    pub fn poll_wait(&mut self, fut: &mut BarrierWait, task: u64) -> (r: (Option<bool>, Vec<u64>))
        requires
            old(self).wf(),
            old(self).tracks(*old(fut)),
            old(self).generation() < usize::MAX,
        ensures
            final(self).wf(),
            final(self).tracks(*final(fut)),
            final(self).size() == old(self).size(),
            old(fut).arrived_in() is None ==> old(self).arrival(*final(self), r.0),
            r.0.is_none() ==> (final(fut).index() matches Some(k) && final(self).waiting()
                == old(self).waiting().insert(k, task)),
            r.0 == Some(false) ==> final(self).waiting() == old(self).waiting(),
            old(fut).arrived_in() is None ==> {
                &&& (old(self).arrived() + 1 == old(self).size()) ==> r.0 == Some(true)
                    && final(self).arrived() == 0 && final(self).generation() == old(self).generation() + 1
                    && r.1@.to_set() == old(self).waiting().values() && r.1@.len() == old(self).waiting().dom().len()
                && in_key_order(old(self).waiting(), r.1@)
                    && final(self).waiting().dom().is_empty()
                &&& (old(self).arrived() + 1 != old(self).size()) ==> r.0.is_none()
                    && final(self).arrived() == old(self).arrived() + 1
                    && final(self).generation() == old(self).generation()
                    && final(fut).arrived_in() == Some(old(self).generation() as usize)
                    && r.1@.len() == 0
            },
            old(fut).arrived_in() matches Some(g) ==> {
                &&& r.0 == (if g < old(self).generation() {
                    Some(false)
                } else {
                    None::<bool>
                })
                &&& final(self).arrived() == old(self).arrived()
                &&& final(self).generation() == old(self).generation()
                &&& r.1@.len() == 0
            },
    {
        let generation = match fut.generation {
            Some(g) => g,
            None => {
                let generation = self.generation;
                self.arrived = self.arrived + 1;
                if self.arrived == self.n {
                    self.arrived = 0;
                    self.generation = self.generation + 1;
                    let woken = self.waiters.wake_all();
                    return (Some(true), woken);
                }
                fut.generation = Some(generation);
                generation
            },
        };
        if generation < self.generation {
            (Some(false), Vec::new())
        } else {
            self.waiters.register_waker(&mut fut.idx, task);
            (None, Vec::new())
        }
    }
}

} // verus!
