//! A set of waiting tasks kept in a vector, with the vacant slots threaded
//! into a free list so that keys are reused.
use vstd::prelude::*;

verus! {

/// A slot of `Waiters`: a waiting task, or a vacant slot naming the next
/// vacant one.
#[derive(Clone, Copy, Debug, PartialEq, Eq)]
pub enum Waiter {
    Occupied(u64),
    Vacant(usize),
}

/// The tasks of the occupied slots of `s`, in slot order.
pub open spec fn occupied_tasks(s: Seq<Waiter>) -> Seq<u64>
    decreases s.len(),
{
    if s.len() == 0 {
        Seq::empty()
    } else {
        occupied_tasks(s.drop_last()) + match s.last() {
            Waiter::Occupied(w) => seq![w],
            Waiter::Vacant(_) => Seq::empty(),
        }
    }
}

/// A set of waiting tasks with reusable keys.
pub struct Waiters {
    data: Vec<Waiter>,
    next: usize,
    /// The vacant slots in free-list order.
    free: Ghost<Seq<usize>>,
}

impl Waiters {
    /// The waiting tasks by key.
    pub closed spec fn occupied(self) -> Map<usize, u64> {
        Map::new(
            |k: usize| k < self.data@.len() && self.data@[k as int] is Occupied,
            |k: usize| self.data@[k as int]->Occupied_0,
        )
    }

    spec fn free_next(self, i: int) -> usize {
        if i + 1 < self.free@.len() {
            self.free@[i + 1]
        } else {
            self.data@.len() as usize
        }
    }

    /// Well-formedness: `next` heads a chain through every vacant slot, each
    /// naming the next, and the last naming the end of the vector.
    pub closed spec fn wf(self) -> bool {
        &&& self.free@.no_duplicates()
        &&& self.next == (if self.free@.len() == 0 {
            self.data@.len() as usize
        } else {
            self.free@[0]
        })
        &&& forall|i: int|
            0 <= i < self.free@.len() ==> #[trigger] self.free@[i] < self.data@.len()
                && self.data@[self.free@[i] as int] == Waiter::Vacant(self.free_next(i))
        &&& forall|j: int|
            0 <= j < self.data@.len() && #[trigger] self.data@[j] is Vacant ==> self.free@.contains(
                j as usize,
            )
    }

    /// The vacant keys, in the order new tasks will take them.
    pub closed spec fn free_list(self) -> Seq<usize> {
        self.free@
    }

    /// The key the next new task takes: the first vacant one, or else a
    /// fresh key at the end.
    pub open spec fn next_key(self) -> nat {
        if self.free_list().len() == 0 {
            self.slots()
        } else {
            self.free_list()[0] as nat
        }
    }

    /// The waiting tasks in key order.
    pub closed spec fn in_key_order(self) -> Seq<u64> {
        occupied_tasks(self.data@)
    }

    /// The number of slots, occupied or vacant.
    pub closed spec fn slots(self) -> nat {
        self.data@.len()
    }

    /// An empty set.
    pub fn new() -> (w: Self)
        ensures
            w.wf(),
            w.occupied().dom().is_empty(),
            w.slots() == 0,
            w.free_list() == Seq::<usize>::empty(),
    {
        let w = Waiters { data: Vec::new(), next: 0, free: Ghost(Seq::empty()) };
        proof {
            assert(w.occupied().dom() =~= Set::<usize>::empty());
        }
        w
    }

    /// Registers task `waker`: a new key where `id` is `None` (and sets `id`
    /// to it), or a replacement under the key `id` names.
    pub fn upsert(&mut self, id: &mut Option<usize>, waker: u64)
        requires
            old(self).wf(),
            *old(id) matches Some(k) ==> old(self).occupied().dom().contains(k),
            old(id).is_none() && old(self).free_list().len() == 0 ==> old(self).slots() < usize::MAX,
        ensures
            final(self).wf(),
            final(id).is_some(),
            final(self).occupied() == old(self).occupied().insert(final(id).unwrap(), waker),
            *old(id) matches Some(k) ==> *final(id) == Some(k),
            old(id).is_none() ==> !old(self).occupied().dom().contains(final(id).unwrap()),
            old(id).is_none() ==> final(id).unwrap() == old(self).next_key(),
            old(id).is_none() && old(self).free_list().len() == 0 ==> final(self).slots()
                == old(self).slots() + 1 && final(self).free_list() == old(self).free_list(),
            old(id).is_none() && old(self).free_list().len() > 0 ==> final(self).slots()
                == old(self).slots() && final(self).free_list() == old(self).free_list().drop_first(),
            old(id).is_some() ==> final(self).slots() == old(self).slots() && final(self).free_list()
                == old(self).free_list(),
    {
        match *id {
            Some(key) => {
                let cur = self.data[key];
                match cur {
                    Waiter::Occupied(w) => {
                        if w != waker {
                            self.data.set(key, Waiter::Occupied(waker));
                            proof {
                                self.lemma_set_occupied(*old(self), key, waker);
                            }
                        } else {
                            proof {
                                assert(self.occupied() =~= old(self).occupied().insert(key, waker));
                            }
                        }
                    },
                    Waiter::Vacant(_) => {
                        proof {
                            assert(false);
                        }
                    },
                }
            },
            None => {
                let key = self.next;
                if self.data.len() == key {
                    self.data.push(Waiter::Occupied(waker));
                    self.next = key + 1;
                    proof {
                        let o = *old(self);
                        assert(o.free@.len() == 0) by {
                            if o.free@.len() > 0 {
                                assert(o.free@[0] < o.data@.len());
                            }
                        }
                        assert forall|j: int|
                            0 <= j < self.data@.len() && #[trigger] self.data@[j] is Vacant implies self.free@.contains(
                            j as usize,
                        ) by {
                            if j < o.data@.len() {
                                assert(o.data@[j] is Vacant);
                            }
                        }
                        assert(self.occupied() =~= o.occupied().insert(key, waker));
                    }
                } else {
                    let ghost o = *self;
                    proof {
                        assert(o.free@.len() > 0);
                        assert(o.free@[0] == key);
                        assert(o.free@[0] < o.data@.len());
                    }
                    let cur = self.data[key];
                    match cur {
                        Waiter::Vacant(n) => {
                            self.data.set(key, Waiter::Occupied(waker));
                            self.next = n;
                            proof {
                                self.free@ = o.free@.skip(1);
                                self.lemma_pop_free(o, key, waker);
                            }
                        },
                        Waiter::Occupied(_) => {
                            proof {
                                assert(false);
                            }
                        },
                    }
                }
                *id = Some(key);
            },
        }
    }

    proof fn lemma_set_occupied(self, o: Self, key: usize, waker: u64)
        requires
            o.wf(),
            key < o.data@.len(),
            o.data@[key as int] is Occupied,
            self.data@ == o.data@.update(key as int, Waiter::Occupied(waker)),
            self.next == o.next,
            self.free@ == o.free@,
        ensures
            self.wf(),
            self.occupied() == o.occupied().insert(key, waker),
    {
        assert forall|i: int| 0 <= i < self.free@.len() implies #[trigger] self.free@[i] < self.data@.len()
            && self.data@[self.free@[i] as int] == Waiter::Vacant(self.free_next(i)) by {
            assert(o.free@[i] < o.data@.len());
            assert(o.free_next(i) == self.free_next(i));
        }
        assert forall|j: int|
            0 <= j < self.data@.len() && #[trigger] self.data@[j] is Vacant implies self.free@.contains(
            j as usize,
        ) by {
            assert(o.data@[j] is Vacant);
        }
        assert(self.occupied() =~= o.occupied().insert(key, waker));
    }

    #[verifier::rlimit(50)]
    proof fn lemma_pop_free(self, o: Self, key: usize, waker: u64)
        requires
            o.wf(),
            o.free@.len() > 0,
            o.free@[0] == key,
            key < o.data@.len(),
            o.data@.len() <= usize::MAX,
            self.data@ == o.data@.update(key as int, Waiter::Occupied(waker)),
            o.data@[key as int] == Waiter::Vacant(self.next),
            self.free@ == o.free@.skip(1),
        ensures
            self.wf(),
            self.occupied() == o.occupied().insert(key, waker),
    {
        let nf = self.free@;
        assert(o.free_next(0) == self.next);
        assert(nf.no_duplicates()) by {
            assert forall|a: int, b: int| 0 <= a < nf.len() && 0 <= b < nf.len() && a != b implies nf[a]
                != nf[b] by {
                assert(nf[a] == o.free@[a + 1]);
                assert(nf[b] == o.free@[b + 1]);
            }
        }
        assert forall|i: int| 0 <= i < nf.len() implies #[trigger] nf[i] < self.data@.len()
            && self.data@[nf[i] as int] == Waiter::Vacant(self.free_next(i)) by {
            assert(nf[i] == o.free@[i + 1]);
            assert(o.free@[i + 1] < o.data@.len());
            assert(o.free@[i + 1] != key);
            assert(self.free_next(i) == o.free_next(i + 1));
        }
        assert forall|j: int|
            0 <= j < self.data@.len() && #[trigger] self.data@[j] is Vacant implies nf.contains(j as usize) by {
            assert(j != key);
            assert((j as usize) as int == j);
            assert(o.data@[j] is Vacant);
            assert(o.free@.contains(j as usize));
            let i = choose|i: int| 0 <= i < o.free@.len() && o.free@[i] == j as usize;
            assert(o.free@[i] != key);
            assert(i != 0);
            assert(nf[i - 1] == j as usize);
        }
        assert(self.next == (if nf.len() == 0 {
            self.data@.len() as usize
        } else {
            nf[0]
        })) by {
            if nf.len() > 0 {
                assert(nf[0] == o.free@[1]);
            }
        }
        assert(self.occupied() =~= o.occupied().insert(key, waker));
    }

    /// Removes the task that `id` names, if any, and clears `id`. The slot
    /// becomes the head of the free list.
    pub fn remove(&mut self, id: &mut Option<usize>)
        requires
            old(self).wf(),
        ensures
            final(self).wf(),
            final(id).is_none(),
            *old(id) matches Some(k) ==> final(self).occupied() == old(self).occupied().remove(k),
            old(id).is_none() ==> final(self).occupied() == old(self).occupied(),
            final(self).slots() == old(self).slots(),
            *old(id) matches Some(k) ==> (old(self).occupied().dom().contains(k)
                ==> final(self).free_list() == seq![k] + old(self).free_list())
                && (!old(self).occupied().dom().contains(k) ==> final(self).free_list()
                == old(self).free_list()),
            old(id).is_none() ==> final(self).free_list() == old(self).free_list(),
    {
        let taken = id.take();
        if let Some(key) = taken {
            if key < self.data.len() {
                let cur = self.data[key];
                if let Waiter::Occupied(_) = cur {
                    let ghost o = *self;
                    self.data.set(key, Waiter::Vacant(self.next));
                    self.next = key;
                    proof {
                        self.free@ = seq![key].add(o.free@);
                        self.lemma_push_free(o, key);
                    }
                } else {
                    proof {
                        assert(self.occupied() =~= old(self).occupied().remove(key));
                    }
                }
            } else {
                proof {
                    assert(self.occupied() =~= old(self).occupied().remove(key));
                }
            }
        }
    }

    proof fn lemma_push_free(self, o: Self, key: usize)
        requires
            o.wf(),
            key < o.data@.len(),
            o.data@.len() <= usize::MAX,
            o.data@[key as int] is Occupied,
            self.data@ == o.data@.update(key as int, Waiter::Vacant(o.next)),
            self.next == key,
            self.free@ == seq![key].add(o.free@),
        ensures
            self.wf(),
            self.occupied() == o.occupied().remove(key),
    {
        let nf = self.free@;
        assert(!o.free@.contains(key)) by {
            if o.free@.contains(key) {
                let i = choose|i: int| 0 <= i < o.free@.len() && o.free@[i] == key;
                assert(o.data@[key as int] is Vacant);
            }
        }
        assert(nf.no_duplicates()) by {
            assert forall|a: int, b: int| 0 <= a < nf.len() && 0 <= b < nf.len() && a != b implies nf[a]
                != nf[b] by {
                if a == 0 {
                    assert(o.free@.contains(nf[b]));
                } else if b == 0 {
                    assert(o.free@.contains(nf[a]));
                } else {
                    assert(nf[a] == o.free@[a - 1]);
                    assert(nf[b] == o.free@[b - 1]);
                }
            }
        }
        assert forall|i: int| 0 <= i < nf.len() implies #[trigger] nf[i] < self.data@.len()
            && self.data@[nf[i] as int] == Waiter::Vacant(self.free_next(i)) by {
            if i == 0 {
                if o.free@.len() > 0 {
                    assert(self.free_next(0) == o.free@[0]);
                }
            } else {
                assert(nf[i] == o.free@[i - 1]);
                assert(o.free@[i - 1] < o.data@.len());
                assert(o.free@[i - 1] != key);
                assert(self.free_next(i) == o.free_next(i - 1));
            }
        }
        assert forall|j: int|
            0 <= j < self.data@.len() && #[trigger] self.data@[j] is Vacant implies nf.contains(j as usize) by {
            if j == key {
                assert(nf[0] == key);
            } else {
                assert(o.data@[j] is Vacant);
                let i = choose|i: int| 0 <= i < o.free@.len() && o.free@[i] == j as usize;
                assert(nf[i + 1] == j as usize);
            }
        }
        assert(self.occupied() =~= o.occupied().remove(key));
    }

    /// Empties the set and returns its tasks, in key order, to be woken.
    pub fn wake_all(&mut self) -> (woken: Vec<u64>)
        requires
            old(self).wf(),
        ensures
            final(self).wf(),
            final(self).occupied().dom().is_empty(),
            woken@.to_set() == old(self).occupied().values(),
            woken@ == old(self).in_key_order(),
            final(self).slots() == 0,
            final(self).free_list() == Seq::<usize>::empty(),
    {
        self.next = 0;
        let mut data: Vec<Waiter> = Vec::new();
        std::mem::swap(&mut data, &mut self.data);
        proof {
            self.free@ = Seq::empty();
        }
        let mut woken: Vec<u64> = Vec::new();
        let mut i: usize = 0;
        while i < data.len()
            invariant
                0 <= i <= data@.len(),
                data@ == old(self).data@,
                woken@ == occupied_tasks(data@.take(i as int)),
                forall|a: int| 0 <= a < woken@.len() ==> exists|j: int|
                    0 <= j < i && #[trigger] data@[j] == Waiter::Occupied(#[trigger] woken@[a]),
                forall|j: int|
                    0 <= j < i && (#[trigger] data@[j] is Occupied) ==> woken@.contains(
                        data@[j]->Occupied_0,
                    ),
            decreases data@.len() - i,
        {
            proof {
                assert(data@.take(i + 1).drop_last() =~= data@.take(i as int));
            }
            if let Waiter::Occupied(w) = data[i] {
                let ghost prev = woken@;
                woken.push(w);
                proof {
                    assert forall|a: int| 0 <= a < woken@.len() implies exists|j: int|
                        0 <= j < i + 1 && #[trigger] data@[j] == Waiter::Occupied(#[trigger] woken@[a]) by {
                        if a < prev.len() {
                            assert(woken@[a] == prev[a]);
                            let j = choose|j: int| 0 <= j < i && #[trigger] data@[j] == Waiter::Occupied(prev[a]);
                            assert(data@[j] == Waiter::Occupied(woken@[a]));
                        } else {
                            assert(data@[i as int] == Waiter::Occupied(woken@[a]));
                        }
                    }
                    assert forall|j: int|
                        0 <= j < i + 1 && (#[trigger] data@[j] is Occupied) implies woken@.contains(
                        data@[j]->Occupied_0,
                    ) by {
                        if j < i {
                            let x = data@[j]->Occupied_0;
                            assert(prev.contains(x));
                            let a = choose|a: int| 0 <= a < prev.len() && prev[a] == x;
                            assert(woken@[a] == x);
                        } else {
                            assert(woken@[prev.len() as int] == w);
                        }
                    }
                }
            }
            i = i + 1;
        }
        proof {
            let o = *old(self);
            assert forall|v: u64| woken@.to_set().contains(v) <==> o.occupied().values().contains(v) by {
                if woken@.contains(v) {
                    let a = choose|a: int| 0 <= a < woken@.len() && woken@[a] == v;
                    let j = choose|j: int| 0 <= j < data@.len() && #[trigger] data@[j] == Waiter::Occupied(woken@[a]);
                    assert(o.occupied().dom().contains(j as usize));
                    assert(o.occupied()[j as usize] == v);
                }
                if o.occupied().values().contains(v) {
                    let k = choose|k: usize| o.occupied().dom().contains(k) && o.occupied()[k] == v;
                    assert(data@[k as int] is Occupied);
                }
            }
            assert(woken@.to_set() =~= o.occupied().values());
            assert(self.occupied().dom() =~= Set::<usize>::empty());
            assert(data@.take(data@.len() as int) =~= data@);
        }
        woken
    }
}

} // verus!
