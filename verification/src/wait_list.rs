//! A guarded doubly linked list of waiters, kept in a slab.
//!
//! The guard node's `next` is the first waiter and its `prev` the last. A
//! waiter that has been unlinked (served or cancelled) stays in the slab,
//! "detached", until its owner frees it.
use vstd::prelude::*;
use slab::Slab;
use crate::slots::{ListNode, WaitNode, list_slots, list_slab_new, list_slab_insert, list_slab_get, list_slab_index, list_slab_set, list_slab_remove};

verus! {

/// A guarded linked list of waiters, in registration order.
pub struct WaitList {
    guard: usize,
    nodes: Slab<ListNode>,
    /// The linked waiters, first to last.
    order: Ghost<Seq<usize>>,
    /// The waiters that were unlinked and are not yet freed.
    detached: Ghost<Seq<usize>>,
}

impl WaitList {
    pub closed spec fn slots(self) -> Map<usize, ListNode> {
        list_slots(self.nodes)
    }

    /// The keys of the linked waiters, first to last.
    pub closed spec fn order(self) -> Seq<usize> {
        self.order@
    }

    /// The keys of the waiters that were unlinked but not freed.
    pub closed spec fn detached(self) -> Seq<usize> {
        self.detached@
    }

    /// Whether `k` names a waiter of this list, linked or detached.
    pub open spec fn registered(self, k: usize) -> bool {
        self.order().contains(k) || self.detached().contains(k)
    }

    /// What the waiter under `k` records.
    pub closed spec fn stat(self, k: usize) -> WaitNode {
        self.slots()[k].stat.unwrap()
    }

    spec fn head_key(self) -> usize {
        if self.order@.len() == 0 {
            self.guard
        } else {
            self.order@[0]
        }
    }

    spec fn tail_key(self) -> usize {
        if self.order@.len() == 0 {
            self.guard
        } else {
            self.order@.last()
        }
    }

    spec fn prev_key(self, i: int) -> usize {
        if i == 0 {
            self.guard
        } else {
            self.order@[i - 1]
        }
    }

    spec fn next_key(self, i: int) -> usize {
        if i + 1 == self.order@.len() {
            self.guard
        } else {
            self.order@[i + 1]
        }
    }

    spec fn linked_ok(self, i: int) -> bool {
        let k = self.order@[i];
        let m = self.slots();
        &&& k != self.guard
        &&& m.dom().contains(k)
        &&& m[k].prev == self.prev_key(i)
        &&& m[k].next == self.next_key(i)
        &&& m[k].stat.is_some()
        &&& !self.detached@.contains(k)
    }

    spec fn detached_ok(self, j: int) -> bool {
        let k = self.detached@[j];
        let m = self.slots();
        &&& k != self.guard
        &&& m.dom().contains(k)
        &&& m[k].stat.is_some()
        &&& !(m.dom().contains(m[k].prev) && m[m[k].prev].next == k)
    }

    /// The list's well-formedness: the guard closes the ring of linked
    /// waiters, each linked waiter points at its neighbours, and no node
    /// points forward at a detached waiter through its `prev`.
    pub closed spec fn wf(self) -> bool {
        let m = self.slots();
        &&& m.dom().contains(self.guard)
        &&& m[self.guard].stat.is_none()
        &&& m[self.guard].next == self.head_key()
        &&& m[self.guard].prev == self.tail_key()
        &&& self.order@.no_duplicates()
        &&& self.detached@.no_duplicates()
        &&& forall|i: int| 0 <= i < self.order@.len() ==> #[trigger] self.linked_ok(i)
        &&& forall|j: int| 0 <= j < self.detached@.len() ==> #[trigger] self.detached_ok(j)
        &&& forall|k: usize| #[trigger]
            m.dom().contains(k) ==> k == self.guard || self.order@.contains(k)
                || self.detached@.contains(k)
    }

    /// Each waiter appears once, and never both linked and detached.
    pub proof fn lemma_view_facts(self)
        requires
            self.wf(),
        ensures
            self.order().no_duplicates(),
            self.detached().no_duplicates(),
            forall|k: usize| !(#[trigger] self.order().contains(k) && self.detached().contains(k)),
    {
        assert forall|k: usize| !(#[trigger] self.order().contains(k) && self.detached().contains(k)) by {
            if self.order().contains(k) {
                let i = choose|i: int| 0 <= i < self.order@.len() && self.order@[i] == k;
                self.lemma_linked(i);
            }
        }
    }

    proof fn lemma_linked(self, i: int)
        requires
            self.wf(),
            0 <= i < self.order@.len(),
        ensures
            self.linked_ok(i),
    {
    }

    proof fn lemma_detached(self, j: int)
        requires
            self.wf(),
            0 <= j < self.detached@.len(),
        ensures
            self.detached_ok(j),
    {
    }

    /// Creates a list holding only its guard.
    pub fn new() -> (list: Self)
        ensures
            list.wf(),
            list.order() == Seq::<usize>::empty(),
            list.detached() == Seq::<usize>::empty(),
    {
        let mut nodes = list_slab_new();
        let guard = list_slab_insert(&mut nodes, ListNode { prev: 0, next: 0, stat: None });
        list_slab_set(&mut nodes, guard, ListNode { prev: guard, next: guard, stat: None });
        let list = WaitList {
            guard,
            nodes,
            order: Ghost(Seq::empty()),
            detached: Ghost(Seq::empty()),
        };
        proof {
            assert forall|k: usize| #[trigger] list.slots().dom().contains(k) implies k
                == list.guard || list.order@.contains(k) || list.detached@.contains(k) by {}
        }
        list
    }

    /// Returns `true` if no waiter is linked.
    pub fn is_empty(&self) -> (r: bool)
        requires
            self.wf(),
        ensures
            r == (self.order().len() == 0),
    {
        let g = list_slab_index(&self.nodes, self.guard);
        proof {
            if self.order@.len() > 0 {
                self.lemma_linked(0);
            }
        }
        g.next == self.guard
    }

    /// The first linked waiter, if any.
    pub fn first(&self) -> (r: Option<usize>)
        requires
            self.wf(),
        ensures
            r == (if self.order().len() == 0 {
                None::<usize>
            } else {
                Some(self.order()[0])
            }),
    {
        let g = list_slab_index(&self.nodes, self.guard);
        proof {
            if self.order@.len() > 0 {
                self.lemma_linked(0);
            }
        }
        if g.next == self.guard {
            None
        } else {
            Some(g.next)
        }
    }

    /// What the waiter under `idx` records.
    pub fn get_stat(&self, idx: usize) -> (r: WaitNode)
        requires
            self.wf(),
            self.registered(idx),
        ensures
            r == self.stat(idx),
    {
        proof {
            self.lemma_registered_in_dom(idx);
        }
        let n = list_slab_index(&self.nodes, idx);
        n.stat.unwrap()
    }

    proof fn lemma_registered_in_dom(self, idx: usize)
        requires
            self.wf(),
            self.registered(idx),
        ensures
            self.slots().dom().contains(idx),
            self.slots()[idx].stat.is_some(),
            idx != self.guard,
    {
        if self.order@.contains(idx) {
            let i = choose|i: int| 0 <= i < self.order@.len() && self.order@[i] == idx;
            self.lemma_linked(i);
        } else {
            let j = choose|j: int| 0 <= j < self.detached@.len() && self.detached@[j] == idx;
            self.lemma_detached(j);
        }
    }

    /// Replaces what the waiter under `idx` records; the links do not change.
    pub fn set_stat(&mut self, idx: usize, stat: WaitNode)
        requires
            old(self).wf(),
            old(self).registered(idx),
        ensures
            final(self).wf(),
            final(self).order() == old(self).order(),
            final(self).detached() == old(self).detached(),
            final(self).stat(idx) == stat,
            forall|k: usize| k != idx ==> final(self).stat(k) == old(self).stat(k),
    {
        proof {
            self.lemma_registered_in_dom(idx);
        }
        let n = list_slab_index(&self.nodes, idx);
        list_slab_set(&mut self.nodes, idx, ListNode { prev: n.prev, next: n.next, stat: Some(stat) });
        proof {
            let o = *old(self);
            assert forall|i: int| 0 <= i < self.order@.len() implies #[trigger] self.linked_ok(i) by {
                o.lemma_linked(i);
            }
            assert forall|j: int| 0 <= j < self.detached@.len() implies #[trigger] self.detached_ok(j) by {
                o.lemma_detached(j);
            }
            assert forall|k: usize| #[trigger] self.slots().dom().contains(k) implies k
                == self.guard || self.order@.contains(k) || self.detached@.contains(k) by {
                assert(o.slots().dom().contains(k));
            }
        }
    }

    /// Registers a waiter at the tail of the list.
    ///
    /// `idx` must be `None`; it is set to the new waiter's key.
    pub fn register_waiter_to_tail(&mut self, idx: &mut Option<usize>, stat: WaitNode)
        requires
            old(self).wf(),
            old(idx).is_none(),
        ensures
            final(self).wf(),
            final(idx).is_some(),
            !old(self).registered(final(idx).unwrap()),
            final(self).order() == old(self).order().push(final(idx).unwrap()),
            final(self).detached() == old(self).detached(),
            final(self).stat(final(idx).unwrap()) == stat,
            forall|k: usize| old(self).registered(k) ==> final(self).stat(k) == old(self).stat(k),
    {
        let g = list_slab_index(&self.nodes, self.guard);
        let prev_tail = g.prev;
        proof {
            if self.order@.len() > 0 {
                self.lemma_linked(self.order@.len() - 1);
            }
        }
        let new_key = list_slab_insert(
            &mut self.nodes,
            ListNode { prev: prev_tail, next: self.guard, stat: Some(stat) },
        );
        let g1 = list_slab_index(&self.nodes, self.guard);
        list_slab_set(&mut self.nodes, self.guard, ListNode { prev: new_key, next: g1.next, stat: g1.stat });
        let t = list_slab_index(&self.nodes, prev_tail);
        list_slab_set(&mut self.nodes, prev_tail, ListNode { prev: t.prev, next: new_key, stat: t.stat });
        proof {
            let o = *old(self);
            self.order@ = o.order@.push(new_key);
            let n = o.order@.len();
            assert(!o.slots().dom().contains(new_key));
            assert(!o.registered(new_key)) by {
                if o.order@.contains(new_key) {
                    let i = choose|i: int| 0 <= i < n && o.order@[i] == new_key;
                    o.lemma_linked(i);
                }
                if o.detached@.contains(new_key) {
                    let j = choose|j: int| 0 <= j < o.detached@.len() && o.detached@[j] == new_key;
                    o.lemma_detached(j);
                }
            }
            assert(self.order@.no_duplicates()) by {
                assert forall|a: int, b: int|
                    0 <= a < self.order@.len() && 0 <= b < self.order@.len() && a != b implies
                    self.order@[a] != self.order@[b] by {
                    if a == n {
                        assert(o.order@.contains(o.order@[b]));
                    }
                    if b == n {
                        assert(o.order@.contains(o.order@[a]));
                    }
                }
            }
            assert forall|i: int| 0 <= i < self.order@.len() implies #[trigger] self.linked_ok(i) by {
                if i < n {
                    o.lemma_linked(i);
                    if i + 1 < n {
                        o.lemma_linked(i + 1);
                    }
                    assert(o.order@[i] != new_key);
                }
            }
            assert forall|j: int| 0 <= j < self.detached@.len() implies #[trigger] self.detached_ok(j) by {
                o.lemma_detached(j);
                let x = o.detached@[j];
                assert(x != new_key);
                if n > 0 {
                    o.lemma_linked(0);
                    assert(x != o.order@[0]);
                }
            }
            assert forall|k: usize| #[trigger] self.slots().dom().contains(k) implies k
                == self.guard || self.order@.contains(k) || self.detached@.contains(k) by {
                if k != new_key {
                    assert(o.slots().dom().contains(k));
                    if o.order@.contains(k) {
                        let i = choose|i: int| 0 <= i < n && o.order@[i] == k;
                        assert(self.order@[i] == k);
                    }
                } else {
                    assert(self.order@[n as int] == k);
                }
            }
        }
        *idx = Some(new_key);
    }

    /// Registers a waiter at the head of the list.
    ///
    /// `idx` must be `None`; it is set to the new waiter's key.
    pub fn registry_waiter_to_head(&mut self, idx: &mut Option<usize>, stat: WaitNode)
        requires
            old(self).wf(),
            old(idx).is_none(),
        ensures
            final(self).wf(),
            final(idx).is_some(),
            !old(self).registered(final(idx).unwrap()),
            final(self).order() == seq![final(idx).unwrap()] + old(self).order(),
            final(self).detached() == old(self).detached(),
            final(self).stat(final(idx).unwrap()) == stat,
            forall|k: usize| old(self).registered(k) ==> final(self).stat(k) == old(self).stat(k),
    {
        let g = list_slab_index(&self.nodes, self.guard);
        let prev_head = g.next;
        proof {
            if self.order@.len() > 0 {
                self.lemma_linked(0);
            }
        }
        let new_key = list_slab_insert(
            &mut self.nodes,
            ListNode { prev: self.guard, next: prev_head, stat: Some(stat) },
        );
        let g1 = list_slab_index(&self.nodes, self.guard);
        list_slab_set(&mut self.nodes, self.guard, ListNode { prev: g1.prev, next: new_key, stat: g1.stat });
        let h = list_slab_index(&self.nodes, prev_head);
        list_slab_set(&mut self.nodes, prev_head, ListNode { prev: new_key, next: h.next, stat: h.stat });
        proof {
            let o = *old(self);
            let ns = seq![new_key] + o.order@;
            self.order@ = ns;
            let n = o.order@.len();
            assert(!o.slots().dom().contains(new_key));
            assert(!o.registered(new_key)) by {
                if o.order@.contains(new_key) {
                    let i = choose|i: int| 0 <= i < n && o.order@[i] == new_key;
                    o.lemma_linked(i);
                }
                if o.detached@.contains(new_key) {
                    let j = choose|j: int| 0 <= j < o.detached@.len() && o.detached@[j] == new_key;
                    o.lemma_detached(j);
                }
            }
            assert forall|i: int| 0 <= i < n implies ns[i + 1] == o.order@[i] by {}
            assert(self.order@.no_duplicates()) by {
                assert forall|a: int, b: int|
                    0 <= a < ns.len() && 0 <= b < ns.len() && a != b implies ns[a] != ns[b] by {
                    if a == 0 {
                        assert(o.order@.contains(ns[b]));
                    } else if b == 0 {
                        assert(o.order@.contains(ns[a]));
                    } else {
                        assert(ns[a] == o.order@[a - 1]);
                        assert(ns[b] == o.order@[b - 1]);
                    }
                }
            }
            assert forall|i: int| 0 <= i < ns.len() implies #[trigger] self.linked_ok(i) by {
                if i > 0 {
                    o.lemma_linked(i - 1);
                    if i >= 2 {
                        o.lemma_linked(i - 2);
                    }
                    assert(o.order@[i - 1] != new_key);
                }
                if n > 0 {
                    o.lemma_linked(n - 1);
                }
            }
            assert forall|j: int| 0 <= j < self.detached@.len() implies #[trigger] self.detached_ok(j) by {
                o.lemma_detached(j);
                let x = o.detached@[j];
                assert(x != new_key);
            }
            assert forall|k: usize| #[trigger] self.slots().dom().contains(k) implies k
                == self.guard || self.order@.contains(k) || self.detached@.contains(k) by {
                if k != new_key {
                    assert(o.slots().dom().contains(k));
                    if o.order@.contains(k) {
                        let i = choose|i: int| 0 <= i < n && o.order@[i] == k;
                        assert(ns[i + 1] == k);
                    }
                } else {
                    assert(ns[0] == k);
                }
            }
        }
        *idx = Some(new_key);
    }

    /// Returns `true` if the waiter under `idx` is still linked.
    pub fn is_linked(&self, idx: usize) -> (r: bool)
        requires
            self.wf(),
            self.registered(idx),
        ensures
            r == self.order().contains(idx),
    {
        proof {
            self.lemma_registered_in_dom(idx);
        }
        let n = list_slab_index(&self.nodes, idx);
        let p = list_slab_get(&self.nodes, n.prev);
        proof {
            if self.order@.contains(idx) {
                let i = choose|i: int| 0 <= i < self.order@.len() && self.order@[i] == idx;
                self.lemma_linked(i);
                if i > 0 {
                    self.lemma_linked(i - 1);
                }
            } else {
                let j = choose|j: int| 0 <= j < self.detached@.len() && self.detached@[j] == idx;
                self.lemma_detached(j);
            }
        }
        match p {
            Some(pn) => pn.next == idx,
            None => false,
        }
    }

    /// Unlinks the waiter under `idx` if it is linked; a detached waiter is left
    /// as it is. Returns whether it was linked.
    pub fn remove_waiter(&mut self, idx: usize) -> (r: bool)
        requires
            old(self).wf(),
            old(self).registered(idx),
        ensures
            final(self).wf(),
            r == old(self).order().contains(idx),
            r ==> final(self).order() == old(self).order().remove(
                old(self).order().index_of(idx),
            ),
            r ==> final(self).detached() == old(self).detached().push(idx),
            !r ==> final(self).order() == old(self).order(),
            !r ==> final(self).detached() == old(self).detached(),
            forall|k: usize| final(self).stat(k) == old(self).stat(k),
    {
        let linked = self.is_linked(idx);
        if !linked {
            return false;
        }
        let ghost i = self.order@.index_of(idx);
        proof {
            self.lemma_linked(i);
            if i > 0 {
                self.lemma_linked(i - 1);
            }
            if i + 1 < self.order@.len() {
                self.lemma_linked(i + 1);
            }
        }
        let node = list_slab_index(&self.nodes, idx);
        let prev = node.prev;
        let next = node.next;
        let p = list_slab_index(&self.nodes, prev);
        list_slab_set(&mut self.nodes, prev, ListNode { prev: p.prev, next: next, stat: p.stat });
        let nx = list_slab_index(&self.nodes, next);
        list_slab_set(&mut self.nodes, next, ListNode { prev: prev, next: nx.next, stat: nx.stat });
        proof {
            let o = *old(self);
            let n = o.order@.len();
            let no = o.order@.remove(i);
            o.order@.remove_ensures(i);
            self.order@ = no;
            self.detached@ = o.detached@.push(idx);
            assert(no.no_duplicates()) by {
                assert forall|a: int, b: int|
                    0 <= a < no.len() && 0 <= b < no.len() && a != b implies no[a] != no[b] by {
                    let a0 = if a < i { a } else { a + 1 };
                    let b0 = if b < i { b } else { b + 1 };
                    assert(no[a] == o.order@[a0]);
                    assert(no[b] == o.order@[b0]);
                }
            }
            assert forall|c: int| 0 <= c < n && c != i implies o.order@[c] != idx by {}
            assert(self.detached@.no_duplicates()) by {
                assert forall|a: int, b: int|
                    0 <= a < self.detached@.len() && 0 <= b < self.detached@.len() && a != b
                    implies self.detached@[a] != self.detached@[b] by {
                    if a == o.detached@.len() {
                        assert(o.detached@.contains(self.detached@[b]));
                    }
                    if b == o.detached@.len() {
                        assert(o.detached@.contains(self.detached@[a]));
                    }
                }
            }
            assert forall|c: int| 0 <= c < no.len() implies #[trigger] self.linked_ok(c) by {
                let c0 = if c < i { c } else { c + 1 };
                o.lemma_linked(c0);
                if c0 > 0 {
                    o.lemma_linked(c0 - 1);
                }
                if c0 + 1 < n {
                    o.lemma_linked(c0 + 1);
                }
                if c >= 1 {
                    let c1 = if c - 1 < i { c - 1 } else { c };
                    assert(no[c - 1] == o.order@[c1]);
                }
                if c + 1 < no.len() {
                    let c2 = if c + 1 < i { c + 1 } else { c + 2 };
                    assert(no[c + 1] == o.order@[c2]);
                }
                assert(!o.detached@.contains(no[c]));
                assert(no[c] != idx);
            }
            assert forall|j: int| 0 <= j < self.detached@.len() implies #[trigger] self.detached_ok(j) by {
                if j < o.detached@.len() {
                    o.lemma_detached(j);
                    let x = o.detached@[j];
                    assert(x != idx);
                    if o.order@.contains(x) {
                        let c = choose|c: int| 0 <= c < n && o.order@[c] == x;
                        o.lemma_linked(c);
                    }
                    if n > 0 {
                        o.lemma_linked(0);
                    }
                } else {
                    assert(self.detached@[j] == idx);
                }
            }
            assert forall|k: usize| #[trigger] self.slots().dom().contains(k) implies k
                == self.guard || self.order@.contains(k) || self.detached@.contains(k) by {
                assert(o.slots().dom().contains(k));
                if k == idx {
                    assert(self.detached@[o.detached@.len() as int] == k);
                } else if o.order@.contains(k) {
                    let c = choose|c: int| 0 <= c < n && o.order@[c] == k;
                    let c1 = if c < i { c } else { c - 1 };
                    assert(no[c1] == k);
                } else if o.detached@.contains(k) {
                    let c = choose|c: int| 0 <= c < o.detached@.len() && o.detached@[c] == k;
                    assert(self.detached@[c] == k);
                }
            }
            if n > 1 {
                self.lemma_head_tail_facts(o, i);
            }
        }
        true
    }

    proof fn lemma_head_tail_facts(self, o: Self, i: int)
        requires
            0 <= i < o.order@.len(),
            o.order@.len() > 1,
            self.order@ == o.order@.remove(i),
        ensures
            self.order@.len() == o.order@.len() - 1,
            i > 0 ==> self.order@[0] == o.order@[0],
            i == 0 ==> self.order@[0] == o.order@[1],
            i + 1 < o.order@.len() ==> self.order@.last() == o.order@.last(),
            i + 1 == o.order@.len() ==> self.order@.last() == o.order@[i - 1],
    {
        o.order@.remove_ensures(i);
    }

    /// Unlinks the first waiter, if any, as `remove_waiter` does. Returns its
    /// key.
    pub fn remove_first_waiter(&mut self) -> (r: Option<usize>)
        requires
            old(self).wf(),
        ensures
            final(self).wf(),
            old(self).order().len() == 0 ==> r.is_none() && final(self).order() == old(self).order()
                && final(self).detached() == old(self).detached(),
            old(self).order().len() > 0 ==> r == Some(old(self).order()[0]) && final(self).order()
                == old(self).order().subrange(1, old(self).order().len() as int)
                && final(self).detached() == old(self).detached().push(old(self).order()[0]),
            forall|k: usize| final(self).stat(k) == old(self).stat(k),
    {
        match self.first() {
            Some(first) => {
                proof {
                    self.lemma_view_facts();
                    assert(self.order().contains(first));
                    assert(self.order().index_of(first) == 0);
                }
                self.remove_waiter(first);
                proof {
                    assert(old(self).order().remove(0) =~= old(self).order().subrange(
                        1,
                        old(self).order().len() as int,
                    ));
                }
                Some(first)
            },
            None => None,
        }
    }

    /// Frees a detached waiter, taking it out of the slab.
    pub fn free_waiter(&mut self, idx: usize)
        requires
            old(self).wf(),
            old(self).detached().contains(idx),
        ensures
            final(self).wf(),
            final(self).order() == old(self).order(),
            final(self).detached() == old(self).detached().remove(
                old(self).detached().index_of(idx),
            ),
            forall|k: usize| k != idx ==> final(self).stat(k) == old(self).stat(k),
    {
        proof {
            self.lemma_registered_in_dom(idx);
        }
        let _ = list_slab_remove(&mut self.nodes, idx);
        proof {
            let o = *old(self);
            let j0 = o.detached@.index_of(idx);
            let nd = o.detached@.remove(j0);
            o.detached@.remove_ensures(j0);
            self.detached@ = nd;
            assert forall|c: int| 0 <= c < o.detached@.len() && c != j0 implies o.detached@[c] != idx by {}
            assert(nd.no_duplicates()) by {
                assert forall|a: int, b: int|
                    0 <= a < nd.len() && 0 <= b < nd.len() && a != b implies nd[a] != nd[b] by {
                    let a0 = if a < j0 { a } else { a + 1 };
                    let b0 = if b < j0 { b } else { b + 1 };
                    assert(nd[a] == o.detached@[a0]);
                    assert(nd[b] == o.detached@[b0]);
                }
            }
            assert forall|i: int| 0 <= i < self.order@.len() implies #[trigger] self.linked_ok(i) by {
                o.lemma_linked(i);
                if i > 0 {
                    o.lemma_linked(i - 1);
                }
                if i + 1 < self.order@.len() {
                    o.lemma_linked(i + 1);
                }
                let k = o.order@[i];
                if nd.contains(k) {
                    let c = choose|c: int| 0 <= c < nd.len() && nd[c] == k;
                    let c0 = if c < j0 { c } else { c + 1 };
                    assert(o.detached@[c0] == k);
                }
            }
            assert forall|j: int| 0 <= j < nd.len() implies #[trigger] self.detached_ok(j) by {
                let j1 = if j < j0 { j } else { j + 1 };
                o.lemma_detached(j1);
                assert(nd[j] == o.detached@[j1]);
            }
            assert forall|k: usize| #[trigger] self.slots().dom().contains(k) implies k
                == self.guard || self.order@.contains(k) || self.detached@.contains(k) by {
                assert(o.slots().dom().contains(k));
                if o.detached@.contains(k) && k != idx {
                    let c = choose|c: int| 0 <= c < o.detached@.len() && o.detached@[c] == k;
                    let c1 = if c < j0 { c } else { c - 1 };
                    assert(nd[c1] == k);
                }
            }
        }
    }
}

} // verus!
