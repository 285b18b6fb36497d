//! A set of waiting tasks, kept in a slab.
use vstd::prelude::*;
use slab::Slab;
use crate::slots::{
    task_slots,
    task_slab_new,
    task_slab_with_capacity,
    task_slab_insert,
    task_slab_index,
    task_slab_set,
    task_slab_keys,
};
use crate::countdown::{tasks_of, lemma_keys_cover, in_key_order};

verus! {

/// A set of waiting tasks.
pub struct WaitSet {
    waiters: Slab<u64>,
}

impl WaitSet {
    /// The waiting tasks by key.
    pub closed spec fn waiting(self) -> Map<usize, u64> {
        task_slots(self.waiters)
    }

    /// Constructs a new, empty wait set.
    pub fn new() -> (s: Self)
        ensures
            s.waiting().dom().is_empty(),
    {
        WaitSet { waiters: task_slab_new() }
    }

    /// Constructs a new, empty wait set with room for `capacity` tasks.
    pub fn with_capacity(capacity: usize) -> (s: Self)
        ensures
            s.waiting().dom().is_empty(),
    {
        WaitSet { waiters: task_slab_with_capacity(capacity) }
    }

    /// Takes every waiting task out, in key order, and returns them to be
    /// woken.
    pub fn wake_all(&mut self) -> (woken: Vec<u64>)
        ensures
            final(self).waiting().dom().is_empty(),
            woken@.to_set() == old(self).waiting().values(),
            woken@.len() == old(self).waiting().dom().len(),
            old(self).waiting().dom().finite(),
            in_key_order(old(self).waiting(), woken@),
    {
        let keys = task_slab_keys(&self.waiters);
        let mut woken: Vec<u64> = Vec::new();
        let mut i: usize = 0;
        while i < keys.len()
            invariant
                0 <= i <= keys@.len(),
                forall|k: usize| #[trigger] keys@.contains(k) <==> self.waiting().dom().contains(k),
                woken@ == tasks_of(self.waiting(), keys@.subrange(0, i as int)),
            decreases keys@.len() - i,
        {
            proof {
                assert(keys@.contains(keys@[i as int]));
            }
            let t = task_slab_index(&self.waiters, keys[i]);
            woken.push(t);
            proof {
                assert(keys@.subrange(0, i + 1) =~= keys@.subrange(0, i as int).push(keys@[i as int]));
                assert(woken@ =~= tasks_of(self.waiting(), keys@.subrange(0, i + 1)));
            }
            i = i + 1;
        }
        proof {
            assert(keys@.subrange(0, keys@.len() as int) =~= keys@);
            lemma_keys_cover(self.waiting(), keys@);
            assert(woken@ == tasks_of(old(self).waiting(), keys@));
        }
        self.waiters = task_slab_new();
        woken
    }

    /// Registers task `task` in the wait set.
    ///
    /// `idx` must be `None` when the task is not registered, or `Some(key)`
    /// where `key` is what this method set it to before.
    pub fn register_waker(&mut self, idx: &mut Option<usize>, task: u64)
        requires
            *old(idx) matches Some(k) ==> old(self).waiting().dom().contains(k),
        ensures
            final(idx).is_some(),
            final(self).waiting() == old(self).waiting().insert(final(idx).unwrap(), task),
            *old(idx) matches Some(k) ==> *final(idx) == Some(k),
            old(idx).is_none() ==> !old(self).waiting().dom().contains(final(idx).unwrap()),
    {
        match *idx {
            None => {
                let key = task_slab_insert(&mut self.waiters, task);
                *idx = Some(key);
            },
            Some(key) => {
                if task_slab_index(&self.waiters, key) != task {
                    task_slab_set(&mut self.waiters, key, task);
                } else {
                    proof {
                        assert(self.waiting().insert(key, task) =~= self.waiting());
                    }
                }
            },
        }
    }
}

} // verus!
