//! A set of blocked operations, each with the task to wake or, once notified,
//! nothing; with a count of those not yet notified.
use vstd::prelude::*;
use slab::Slab;
use crate::slots::{
    opt_task_slots,
    opt_slab_new,
    opt_slab_insert,
    opt_slab_index,
    opt_slab_set,
    opt_slab_remove,
    opt_slab_keys,
};

verus! {

/// The keys of the entries that still wait for a notification.
pub open spec fn notifiable_keys(m: Map<usize, Option<u64>>) -> Set<usize> {
    Set::new(|k: usize| m.dom().contains(k) && m[k] is Some)
}

/// The tasks that the entries still waiting for a notification will wake.
pub open spec fn notifiable_tasks(m: Map<usize, Option<u64>>) -> Set<u64> {
    Set::new(|w: u64| exists|k: usize| m.dom().contains(k) && m[k] == Some(w))
}

/// The tasks of the entries under `keys` that still wait, in the order of
/// `keys`.
pub open spec fn waiting_tasks(m: Map<usize, Option<u64>>, keys: Seq<usize>) -> Seq<u64>
    decreases keys.len(),
{
    if keys.len() == 0 {
        Seq::empty()
    } else {
        waiting_tasks(m, keys.drop_last()) + match m[keys.last()] {
            Some(w) => seq![w],
            None => Seq::empty(),
        }
    }
}

/// `keys` lists the keys of `m`, each once, in ascending order.
pub open spec fn ascending_keys(m: Map<usize, Option<u64>>, keys: Seq<usize>) -> bool {
    &&& forall|i: int, j: int| 0 <= i < j < keys.len() ==> keys[i] < keys[j]
    &&& forall|k: usize| #[trigger] keys.contains(k) <==> m.dom().contains(k)
}

/// `after` is `before` with every entry notified, and `woken` the tasks of
/// the entries that waited, in ascending key order: each such entry's task
/// exactly once (none where no entry waited).
pub open spec fn notified_all(
    before: Map<usize, Option<u64>>,
    after: Map<usize, Option<u64>>,
    woken: Seq<u64>,
) -> bool {
    &&& after.dom() == before.dom()
    &&& forall|k: usize| #[trigger] after.dom().contains(k) ==> after[k].is_none()
    &&& if notifiable_keys(before).is_empty() {
        woken.len() == 0
    } else {
        exists|keys: Seq<usize>|
            #![trigger waiting_tasks(before, keys)]
            ascending_keys(before, keys) && woken == waiting_tasks(before, keys)
    }
}

/// `after` is `before` with its waiting entry of least key notified and `r`
/// that entry's task; or, where no entry waits, `before` itself and no task.
pub open spec fn notified_least(
    before: Map<usize, Option<u64>>,
    after: Map<usize, Option<u64>>,
    r: Option<u64>,
) -> bool {
    match r {
        Some(w) => exists|k: usize|
            #![trigger before[k]]
            before.dom().contains(k) && before[k] == Some(w) && after == before.insert(k, None)
                && forall|k2: usize|
                k2 < k && #[trigger] before.dom().contains(k2) ==> before[k2].is_none(),
        None => after == before && notifiable_keys(before).len() == 0,
    }
}

proof fn lemma_waiting_tasks_contain(m: Map<usize, Option<u64>>, keys: Seq<usize>, k: usize)
    requires
        keys.contains(k),
        m[k] is Some,
    ensures
        waiting_tasks(m, keys).contains(m[k].unwrap()),
    decreases keys.len(),
{
    let w = m[k].unwrap();
    let prev = waiting_tasks(m, keys.drop_last());
    if keys.last() == k {
        assert(waiting_tasks(m, keys) == prev + seq![w]);
        assert(waiting_tasks(m, keys)[prev.len() as int] == w);
    } else {
        let i = choose|i: int| 0 <= i < keys.len() && keys[i] == k;
        assert(i < keys.len() - 1);
        assert(keys.drop_last()[i] == k);
        lemma_waiting_tasks_contain(m, keys.drop_last(), k);
        let j = choose|j: int| 0 <= j < prev.len() && prev[j] == w;
        assert(waiting_tasks(m, keys)[j] == w);
    }
}

/// Notifying one reaches a waiting entry: where entry `k` waits for `task`,
/// some task is woken; where no other entry waits, that is `task`, and entry
/// `k` is left notified.
pub proof fn lemma_notify_one_reaches(
    before: Map<usize, Option<u64>>,
    after: Map<usize, Option<u64>>,
    r: Option<u64>,
    k: usize,
    task: u64,
)
    requires
        before.dom().finite(),
        before.dom().contains(k),
        before[k] == Some(task),
        notified_least(before, after, r),
    ensures
        r.is_some(),
        (forall|k2: usize| #[trigger] before.dom().contains(k2) && k2 != k ==> before[k2].is_none())
            ==> r == Some(task) && after.dom().contains(k) && after[k].is_none(),
{
    let ok = notifiable_keys(before);
    assert(ok.subset_of(before.dom()));
    vstd::set_lib::lemma_set_subset_finite(before.dom(), ok);
    assert(ok.contains(k));
    if r.is_none() {
        vstd::set_lib::lemma_set_empty_equivalency_len(ok);
        assert(false);
    }
    if forall|k2: usize| #[trigger] before.dom().contains(k2) && k2 != k ==> before[k2].is_none() {
        let w = r.unwrap();
        let k0 = choose|k0: usize|
            #![trigger before[k0]]
            before.dom().contains(k0) && before[k0] == Some(w) && after == before.insert(k0, None)
                && forall|k2: usize|
                k2 < k0 && #[trigger] before.dom().contains(k2) ==> before[k2].is_none();
        assert(k0 == k);
    }
}

/// Notifying all reaches every waiting entry: where entry `k` waits for
/// `task`, `task` is among those woken and entry `k` is left notified.
pub proof fn lemma_notify_all_reaches(
    before: Map<usize, Option<u64>>,
    after: Map<usize, Option<u64>>,
    woken: Seq<u64>,
    k: usize,
    task: u64,
)
    requires
        before.dom().contains(k),
        before[k] == Some(task),
        notified_all(before, after, woken),
    ensures
        woken.contains(task),
        after.dom().contains(k),
        after[k].is_none(),
{
    assert(notifiable_keys(before).contains(k));
    assert(!notifiable_keys(before).is_empty());
    let keys = choose|keys: Seq<usize>|
        #![trigger waiting_tasks(before, keys)]
        ascending_keys(before, keys) && woken == waiting_tasks(before, keys);
    assert(keys.contains(k));
    lemma_waiting_tasks_contain(before, keys, k);
}

/// A set of blocked operations.
pub struct WakerSet {
    entries: Slab<Option<u64>>,
    notifiable: usize,
}

impl WakerSet {
    /// The entries by key: the task to wake, or `None` once notified.
    pub closed spec fn entries(self) -> Map<usize, Option<u64>> {
        opt_task_slots(self.entries)
    }

    /// The number of entries not yet notified.
    pub closed spec fn notifiable(self) -> nat {
        self.notifiable as nat
    }

    /// Well-formedness: the count is that of the entries not yet notified.
    pub closed spec fn wf(self) -> bool {
        &&& self.entries().dom().finite()
        &&& notifiable_keys(self.entries()).finite()
        &&& self.notifiable == notifiable_keys(self.entries()).len()
    }

    /// A well-formed set has finitely many entries.
    pub proof fn lemma_entries_finite(self)
        requires
            self.wf(),
        ensures
            self.entries().dom().finite(),
    {
    }

    proof fn lemma_finite(m: Map<usize, Option<u64>>)
        requires
            m.dom().finite(),
        ensures
            notifiable_keys(m).finite(),
    {
        assert(notifiable_keys(m).subset_of(m.dom()));
        vstd::set_lib::lemma_set_subset_finite(m.dom(), notifiable_keys(m));
    }

    /// An empty set.
    pub fn new() -> (s: Self)
        ensures
            s.wf(),
            s.entries().dom().is_empty(),
            s.notifiable() == 0,
    {
        let s = WakerSet { entries: opt_slab_new(), notifiable: 0 };
        proof {
            assert(notifiable_keys(s.entries()) =~= Set::<usize>::empty());
        }
        s
    }

    /// Inserts the task of a blocked operation and returns its key.
    pub fn insert(&mut self, task: u64) -> (key: usize)
        requires
            old(self).wf(),
            old(self).notifiable() < usize::MAX,
        ensures
            final(self).wf(),
            !old(self).entries().dom().contains(key),
            final(self).entries() == old(self).entries().insert(key, Some(task)),
            final(self).notifiable() == old(self).notifiable() + 1,
    {
        let key = opt_slab_insert(&mut self.entries, Some(task));
        self.notifiable = self.notifiable + 1;
        proof {
            let o = old(self).entries();
            assert(notifiable_keys(self.entries()) =~= notifiable_keys(o).insert(key));
            assert(!notifiable_keys(o).contains(key));
            Self::lemma_finite(self.entries());
        }
        key
    }

    /// If the entry under `key` was notified, removes it and returns `true`.
    /// Otherwise it now wakes `task`, and the result is `false`.
    pub fn remove_if_notified(&mut self, key: usize, task: u64) -> (r: bool)
        requires
            old(self).wf(),
            old(self).entries().dom().contains(key),
        ensures
            final(self).wf(),
            r == old(self).entries()[key].is_none(),
            r ==> final(self).entries() == old(self).entries().remove(key),
            !r ==> final(self).entries() == old(self).entries().insert(key, Some(task)),
            final(self).notifiable() == old(self).notifiable(),
    {
        let cur = opt_slab_index(&self.entries, key);
        match cur {
            None => {
                let _ = opt_slab_remove(&mut self.entries, key);
                proof {
                    let o = old(self).entries();
                    assert(notifiable_keys(self.entries()) =~= notifiable_keys(o));
                    Self::lemma_finite(self.entries());
                }
                true
            },
            Some(w) => {
                if w != task {
                    opt_slab_set(&mut self.entries, key, Some(task));
                    proof {
                        let o = old(self).entries();
                        assert(notifiable_keys(self.entries()) =~= notifiable_keys(o));
                    }
                } else {
                    proof {
                        assert(self.entries().insert(key, Some(task)) =~= self.entries());
                    }
                }
                false
            },
        }
    }

    fn take_entry(&mut self, key: usize, w: u64)
        requires
            old(self).wf(),
            old(self).entries().dom().contains(key),
            old(self).entries()[key] == Some(w),
        ensures
            final(self).wf(),
            final(self).entries() == old(self).entries().insert(key, None),
            final(self).notifiable() == old(self).notifiable() - 1,
    {
        proof {
            let o = old(self).entries();
            assert(notifiable_keys(o).contains(key));
        }
        opt_slab_set(&mut self.entries, key, None);
        self.notifiable = self.notifiable - 1;
        proof {
            let o = old(self).entries();
            assert(notifiable_keys(self.entries()) =~= notifiable_keys(o).remove(key));
            Self::lemma_finite(self.entries());
        }
    }

    /// Notifies every blocked operation: each entry that waits is marked
    /// notified and its task is returned to be woken. Returns whether any was.
    pub fn notify_all(&mut self) -> (r: (bool, Vec<u64>))
        requires
            old(self).wf(),
        ensures
            final(self).wf(),
            r.0 == (old(self).notifiable() > 0),
            final(self).entries().dom() == old(self).entries().dom(),
            forall|k: usize| #[trigger]
                final(self).entries().dom().contains(k) ==> final(self).entries()[k].is_none(),
            final(self).notifiable() == 0,
            r.1@.to_set() == notifiable_tasks(old(self).entries()),
            r.1@.len() == old(self).notifiable(),
            notified_all(old(self).entries(), final(self).entries(), r.1@),
    {
        let mut woken: Vec<u64> = Vec::new();
        if self.notifiable > 0 {
            let mut notified = false;
            let keys = opt_slab_keys(&self.entries);
            let mut i: usize = 0;
            let ghost o = old(self).entries();
            while i < keys.len()
                invariant
                    self.wf(),
                    0 <= i <= keys@.len(),
                    forall|k: usize| #[trigger] keys@.contains(k) <==> o.dom().contains(k),
                    forall|a: int, b: int| 0 <= a < b < keys@.len() ==> keys@[a] < keys@[b],
                    self.entries().dom() == o.dom(),
                    forall|a: int| 0 <= a < i ==> self.entries()[#[trigger] keys@[a]].is_none(),
                    forall|a: int| i <= a < keys@.len() ==> self.entries()[#[trigger] keys@[a]] == o[keys@[a]],
                    forall|w: u64| woken@.contains(w) <==> exists|a: int|
                        0 <= a < i && o[#[trigger] keys@[a]] == Some(w),
                    notified == (woken@.len() > 0),
                    woken@.len() + self.notifiable() == old(self).notifiable(),
                    woken@ == waiting_tasks(o, keys@.take(i as int)),
                decreases keys@.len() - i,
            {
                let key = keys[i];
                proof {
                    assert(keys@.contains(key));
                }
                let cur = opt_slab_index(&self.entries, key);
                let ghost prev = woken@;
                proof {
                    assert(keys@.take(i + 1).drop_last() =~= keys@.take(i as int));
                    assert(keys@.take(i + 1).last() == key);
                }
                if let Some(w) = cur {
                    self.take_entry(key, w);
                    woken.push(w);
                    notified = true;
                }
                proof {
                    assert forall|a: int, b: int| 0 <= a < keys@.len() && 0 <= b < keys@.len() && a != b implies keys@[a]
                        != keys@[b] by {
                        if a < b {
                            assert(keys@[a] < keys@[b]);
                        } else {
                            assert(keys@[b] < keys@[a]);
                        }
                    }
                    assert forall|w2: u64| woken@.contains(w2) <==> exists|a: int|
                        0 <= a < i + 1 && o[#[trigger] keys@[a]] == Some(w2) by {
                        if woken@.contains(w2) {
                            let j = choose|j: int| 0 <= j < woken@.len() && woken@[j] == w2;
                            if j < prev.len() {
                                assert(prev.contains(w2));
                            } else {
                                assert(o[keys@[i as int]] == Some(w2));
                            }
                        }
                        if exists|a: int| 0 <= a < i + 1 && o[#[trigger] keys@[a]] == Some(w2) {
                            let a = choose|a: int| 0 <= a < i + 1 && o[#[trigger] keys@[a]] == Some(w2);
                            if a < i {
                                assert(prev.contains(w2));
                                let j = choose|j: int| 0 <= j < prev.len() && prev[j] == w2;
                                assert(woken@[j] == w2);
                            } else {
                                assert(woken@[woken@.len() - 1] == w2);
                            }
                        }
                    }
                }
                i = i + 1;
            }
            proof {
                assert(notifiable_keys(self.entries()) =~= Set::<usize>::empty()) by {
                    assert forall|k: usize| !notifiable_keys(self.entries()).contains(k) by {
                        if self.entries().dom().contains(k) {
                            assert(o.dom().contains(k));
                            assert(keys@.contains(k));
                            let a = choose|a: int| 0 <= a < keys@.len() && keys@[a] == k;
                        }
                    }
                }
                assert forall|k: usize| #[trigger] self.entries().dom().contains(k) implies self.entries()[k].is_none() by {
                    assert(o.dom().contains(k));
                    assert(keys@.contains(k));
                    let a = choose|a: int| 0 <= a < keys@.len() && keys@[a] == k;
                }
                assert forall|w: u64| woken@.to_set().contains(w) <==> notifiable_tasks(o).contains(w) by {
                    if woken@.contains(w) {
                        let a = choose|a: int| 0 <= a < keys@.len() && o[#[trigger] keys@[a]] == Some(w);
                        assert(keys@.contains(keys@[a]));
                        assert(o.dom().contains(keys@[a]));
                    }
                    if notifiable_tasks(o).contains(w) {
                        let k = choose|k: usize| o.dom().contains(k) && o[k] == Some(w);
                        assert(keys@.contains(k));
                        let a = choose|a: int| 0 <= a < keys@.len() && keys@[a] == k;
                        assert(o[keys@[a]] == Some(w));
                    }
                }
                assert(woken@.to_set() =~= notifiable_tasks(o));
                assert(keys@.take(keys@.len() as int) =~= keys@);
                assert(ascending_keys(o, keys@));
                let ok = notifiable_keys(o);
                vstd::set_lib::lemma_set_empty_equivalency_len(ok);
                assert(!ok.is_empty());
            }
            (notified, woken)
        } else {
            proof {
                let o = self.entries();
                assert(notifiable_keys(o).len() == 0);
                assert(notifiable_keys(o) =~= Set::<usize>::empty()) by {
                    vstd::set_lib::lemma_set_empty_equivalency_len(notifiable_keys(o));
                }
                assert forall|k: usize| #[trigger] o.dom().contains(k) implies o[k].is_none() by {
                    assert(!notifiable_keys(o).contains(k));
                }
                assert(notifiable_tasks(o) =~= Set::<u64>::empty()) by {
                    assert forall|w: u64| !notifiable_tasks(o).contains(w) by {
                        if notifiable_tasks(o).contains(w) {
                            let k = choose|k: usize| o.dom().contains(k) && o[k] == Some(w);
                            assert(notifiable_keys(o).contains(k));
                        }
                    }
                }
                assert(woken@.to_set() =~= Set::<u64>::empty());
            }
            (false, woken)
        }
    }

    /// Notifies one blocked operation: the entry with the least key among
    /// those that wait. Returns its task, if there was one.
    pub fn notify_one(&mut self) -> (r: Option<u64>)
        requires
            old(self).wf(),
        ensures
            final(self).wf(),
            r.is_some() == (old(self).notifiable() > 0),
            r matches Some(w) ==> exists|k: usize|
                #![trigger old(self).entries()[k]]
                old(self).entries().dom().contains(k) && old(self).entries()[k] == Some(w)
                    && final(self).entries() == old(self).entries().insert(k, None)
                    && forall|k2: usize|
                        k2 < k && #[trigger] old(self).entries().dom().contains(k2)
                            ==> old(self).entries()[k2].is_none(),
            r.is_none() ==> final(self).entries() == old(self).entries(),
            notified_least(old(self).entries(), final(self).entries(), r),
            final(self).notifiable() == old(self).notifiable() - (if r.is_some() {
                1int
            } else {
                0
            }),
    {
        if self.notifiable > 0 {
            let keys = opt_slab_keys(&self.entries);
            let mut i: usize = 0;
            let ghost o = old(self).entries();
            while i < keys.len()
                invariant
                    *self == *old(self),
                    self.wf(),
                    self.notifiable > 0,
                    0 <= i <= keys@.len(),
                    forall|k: usize| #[trigger] keys@.contains(k) <==> o.dom().contains(k),
                    forall|a: int, b: int| 0 <= a < b < keys@.len() ==> keys@[a] < keys@[b],
                    o == self.entries(),
                    forall|a: int| 0 <= a < i ==> o[#[trigger] keys@[a]].is_none(),
                decreases keys@.len() - i,
            {
                let key = keys[i];
                proof {
                    assert(keys@.contains(key));
                }
                let cur = opt_slab_index(&self.entries, key);
                if let Some(w) = cur {
                    self.take_entry(key, w);
                    proof {
                        assert forall|k2: usize|
                            k2 < key && #[trigger] o.dom().contains(k2) implies o[k2].is_none() by {
                            assert(keys@.contains(k2));
                            let a = choose|a: int| 0 <= a < keys@.len() && keys@[a] == k2;
                            if a >= i {
                                if a > i {
                                    assert(keys@[i as int] < keys@[a]);
                                }
                            }
                        }
                        assert(o[key] == Some(w));
                    }
                    return Some(w);
                }
                i = i + 1;
            }
            proof {
                let ok = notifiable_keys(o);
                assert(ok.len() > 0);
                let k = ok.choose();
                assert(ok.contains(k)) by {
                    if !ok.contains(k) {
                        assert(ok =~= Set::<usize>::empty());
                    }
                }
                assert(keys@.contains(k));
                let a = choose|a: int| 0 <= a < keys@.len() && keys@[a] == k;
                assert(false);
            }
        }
        None
    }

    /// Removes the entry of a cancelled operation. Where that entry had
    /// already been notified, the notification passes to another operation
    /// (as `notify_one`); returns its task, if there was one.
    pub fn cancel(&mut self, key: usize) -> (r: Option<u64>)
        requires
            old(self).wf(),
            old(self).entries().dom().contains(key),
        ensures
            final(self).wf(),
            old(self).entries()[key] is Some ==> r.is_none()
                && final(self).entries() == old(self).entries().remove(key)
                && final(self).notifiable() == old(self).notifiable() - 1,
            old(self).entries()[key] is None ==> r.is_some() == (old(self).notifiable() > 0)
                && !final(self).entries().dom().contains(key)
                && notified_least(old(self).entries().remove(key), final(self).entries(), r),
            final(self).notifiable() <= old(self).notifiable(),
    {
        let removed = opt_slab_remove(&mut self.entries, key);
        match removed {
            Some(_) => {
                proof {
                    let o = old(self).entries();
                    assert(notifiable_keys(o).contains(key));
                    assert(notifiable_keys(self.entries()) =~= notifiable_keys(o).remove(key));
                    Self::lemma_finite(self.entries());
                }
                self.notifiable = self.notifiable - 1;
                None
            },
            None => {
                proof {
                    let o = old(self).entries();
                    assert(notifiable_keys(self.entries()) =~= notifiable_keys(o));
                    Self::lemma_finite(self.entries());
                }
                self.notify_one()
            },
        }
    }
}

} // verus!
