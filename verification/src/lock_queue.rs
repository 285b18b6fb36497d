//! A CLH-style queue of waiting tasks beside a counter.
//!
//! The queue is a doubly linked chain of nodes whose first node is a dummy
//! head; every other node is a waiter that records its mode (shared or
//! exclusive), a status (`WAITING` once it asked to be signalled) and the task
//! to wake. An acquire that cannot succeed at once appends a waiter at the
//! tail; a waiter that is first in line and then succeeds becomes the new head,
//! and the old head goes. A release that may let a waiter through signals the
//! first waiter. Nodes live in a `slab::Slab` and link to each other by key.
use vstd::prelude::*;
use slab::Slab;

verus! {

/// The status of a waiter that asked to be signalled.
pub const WAITING: i8 = 1;

/// The links, status and task of a node.
#[derive(Clone, Copy, Debug)]
pub struct NodeState {
    prev: Option<usize>,
    next: Option<usize>,
    status: i8,
    waker: Option<u64>,
}

/// A node of the queue, by the mode of the acquire that made it.
#[derive(Clone, Copy, Debug)]
pub enum Node {
    Exclusive(NodeState),
    Shared(NodeState),
}

/// What a slab of queue nodes holds: occupied key to node.
pub uninterp spec fn node_slots(s: Slab<Node>) -> Map<usize, Node>;

/// `Slab::new`: a slab with no occupied key.
#[verifier::external_body]
fn node_slab_new() -> (fresh: Slab<Node>)
    ensures
        node_slots(fresh).dom() == Set::<usize>::empty(),
{
    Slab::new()
}

/// `Slab::insert`: stores `v` under a key that was vacant, and returns that key.
/// (Running out of memory, where the slab's vector cannot grow, is not stated.)
#[verifier::external_body]
fn node_slab_insert(s: &mut Slab<Node>, v: Node) -> (key: usize)
    ensures
        !node_slots(*old(s)).dom().contains(key),
        node_slots(*final(s)) == node_slots(*old(s)).insert(key, v),
{
    s.insert(v)
}

/// `Index::index` of `Slab`: the value under an occupied `key` (it panics on a
/// vacant key, which `requires` leaves out).
#[verifier::external_body]
fn node_slab_index(s: &Slab<Node>, key: usize) -> (r: Node)
    requires
        node_slots(*s).dom().contains(key),
    ensures
        r == node_slots(*s)[key],
{
    s[key]
}

/// `IndexMut::index_mut` of `Slab`, assigned through: replaces the value under
/// an occupied `key`.
#[verifier::external_body]
fn node_slab_set(s: &mut Slab<Node>, key: usize, v: Node)
    requires
        node_slots(*old(s)).dom().contains(key),
    ensures
        node_slots(*final(s)) == node_slots(*old(s)).insert(key, v),
{
    s[key] = v;
}

/// `Slab::remove`: takes the value out of an occupied `key` (it panics on a
/// vacant key, which `requires` leaves out).
#[verifier::external_body]
fn node_slab_remove(s: &mut Slab<Node>, key: usize) -> (r: Node)
    requires
        node_slots(*old(s)).dom().contains(key),
    ensures
        r == node_slots(*old(s))[key],
        node_slots(*final(s)) == node_slots(*old(s)).remove(key),
{
    s.remove(key)
}

impl Node {
    pub closed spec fn inner(self) -> NodeState {
        match self {
            Node::Exclusive(s) => s,
            Node::Shared(s) => s,
        }
    }

    pub open spec fn shared(self) -> bool {
        self is Shared
    }

    pub closed spec fn prev_of(self) -> Option<usize> {
        self.inner().prev
    }

    pub closed spec fn next_of(self) -> Option<usize> {
        self.inner().next
    }

    pub closed spec fn status_of(self) -> i8 {
        self.inner().status
    }

    pub closed spec fn waker_of(self) -> Option<u64> {
        self.inner().waker
    }

    /// What a waiter shows of itself: its mode, its status and its task.
    pub open spec fn summary(self) -> (bool, i8, Option<u64>) {
        (self.shared(), self.status_of(), self.waker_of())
    }

    /// The same node with its state replaced by `s`.
    pub closed spec fn with_inner(self, s: NodeState) -> Node {
        match self {
            Node::Exclusive(_) => Node::Exclusive(s),
            Node::Shared(_) => Node::Shared(s),
        }
    }

    pub closed spec fn with_next(self, next: Option<usize>) -> Node {
        self.with_inner(NodeState { next: next, ..self.inner() })
    }

    pub closed spec fn with_prev(self, prev: Option<usize>) -> Node {
        self.with_inner(NodeState { prev: prev, ..self.inner() })
    }

    pub closed spec fn with_status(self, status: i8) -> Node {
        self.with_inner(NodeState { status: status, ..self.inner() })
    }

    pub closed spec fn with_waker(self, waker: Option<u64>) -> Node {
        self.with_inner(NodeState { waker: waker, ..self.inner() })
    }

    /// An unlinked node for task `task`, shared or exclusive.
    pub fn new(shared: bool, task: u64) -> (n: Node)
        ensures
            n.shared() == shared,
            n.prev_of().is_none(),
            n.next_of().is_none(),
            n.status_of() == 0,
            n.waker_of() == Some(task),
    {
        let node_state = NodeState { prev: None, next: None, status: 0, waker: Some(task) };
        if shared {
            Node::Shared(node_state)
        } else {
            Node::Exclusive(node_state)
        }
    }

    /// The dummy node that starts a queue: exclusive, with no task.
    pub fn new_head() -> (n: Node)
        ensures
            !n.shared(),
            n.prev_of().is_none(),
            n.next_of().is_none(),
            n.status_of() == 0,
            n.waker_of().is_none(),
    {
        Node::Exclusive(NodeState { prev: None, next: None, status: 0, waker: None })
    }

    pub fn is_shared(&self) -> (r: bool)
        ensures
            r == self.shared(),
    {
        match self {
            Node::Exclusive(_) => false,
            Node::Shared(_) => true,
        }
    }

    pub fn set_next(&mut self, next: Option<usize>)
        ensures
            *final(self) == old(self).with_next(next),
    {
        match self {
            Node::Exclusive(node) => node.next = next,
            Node::Shared(node) => node.next = next,
        }
    }

    pub fn next(&self) -> (r: Option<usize>)
        ensures
            r == self.next_of(),
    {
        match self {
            Node::Exclusive(node) => node.next,
            Node::Shared(node) => node.next,
        }
    }

    /// Clears the bits of `v` in the status; returns the status before.
    pub fn fetch_unset_status(&mut self, v: i8) -> (before: i8)
        ensures
            before == old(self).status_of(),
            *final(self) == old(self).with_status(old(self).status_of() & !v),
    {
        match self {
            Node::Exclusive(node) => node.fetch_unset_status(v),
            Node::Shared(node) => node.fetch_unset_status(v),
        }
    }

    pub fn set_status(&mut self, v: i8)
        ensures
            *final(self) == old(self).with_status(v),
    {
        match self {
            Node::Exclusive(node) => node.status = v,
            Node::Shared(node) => node.status = v,
        }
    }

    pub fn status(&self) -> (r: i8)
        ensures
            r == self.status_of(),
    {
        match self {
            Node::Exclusive(node) => node.status,
            Node::Shared(node) => node.status,
        }
    }

    /// Forgets the task: waking the node then wakes nothing.
    pub fn unset_waker(&mut self)
        ensures
            *final(self) == old(self).with_waker(None),
    {
        match self {
            Node::Exclusive(node) => node.waker = None,
            Node::Shared(node) => node.waker = None,
        }
    }

    /// Records `task` as the task to wake, unless it already is.
    pub fn set_waker(&mut self, task: u64)
        ensures
            *final(self) == old(self).with_waker(Some(task)),
    {
        match self {
            Node::Exclusive(node) => {
                let same = match node.waker {
                    Some(t) => t == task,
                    None => false,
                };
                if !same {
                    node.waker = Some(task);
                }
            },
            Node::Shared(node) => {
                let same = match node.waker {
                    Some(t) => t == task,
                    None => false,
                };
                if !same {
                    node.waker = Some(task);
                }
            },
        }
    }

    /// The task to wake, if any.
    pub fn wake(&self) -> (r: Option<u64>)
        ensures
            r == self.waker_of(),
    {
        match self {
            Node::Exclusive(node) => node.waker,
            Node::Shared(node) => node.waker,
        }
    }

    pub fn set_prev(&mut self, prev: Option<usize>)
        ensures
            *final(self) == old(self).with_prev(prev),
    {
        match self {
            Node::Exclusive(node) => node.prev = prev,
            Node::Shared(node) => node.prev = prev,
        }
    }

    pub fn prev(&self) -> (r: Option<usize>)
        ensures
            r == self.prev_of(),
    {
        match self {
            Node::Exclusive(node) => node.prev,
            Node::Shared(node) => node.prev,
        }
    }
}

impl NodeState {
    /// Clears the bits of `v` in the status; returns the status before.
    fn fetch_unset_status(&mut self, v: i8) -> (before: i8)
        ensures
            before == old(self).status,
            *final(self) == (NodeState { status: old(self).status & !v, ..*old(self) }),
    {
        let before = self.status;
        self.status = self.status & !v;
        before
    }
}

/// Node `k`, at position `i` of the chain `c`, is in the slab and linked to
/// its neighbours in the chain.
pub open spec fn linked_at(m: Map<usize, Node>, c: Seq<usize>, i: int, k: usize) -> bool {
    &&& m.dom().contains(k)
    &&& m[k].next_of() == (if i + 1 < c.len() {
        Some(c[i + 1])
    } else {
        None
    })
    &&& m[k].prev_of() == (if i > 0 {
        Some(c[i - 1])
    } else {
        None
    })
}

/// A counter and a CLH queue of the tasks waiting on it.
pub struct LockQueueSyncer {
    nodes: Slab<Node>,
    head: Option<usize>,
    tail: Option<usize>,
    state: u32,
    /// The keys of the queue's nodes from head to tail.
    chain: Ghost<Seq<usize>>,
}

impl LockQueueSyncer {
    pub closed spec fn count(self) -> u32 {
        self.state
    }

    closed spec fn slots(self) -> Map<usize, Node> {
        node_slots(self.nodes)
    }

    /// The queue is a chain from `head` to `tail` that uses every node of the
    /// slab once, linked both ways.
    pub closed spec fn wf(self) -> bool {
        let c = self.chain@;
        let m = self.slots();
        &&& c.no_duplicates()
        &&& forall|k: usize| m.dom().contains(k) ==> c.contains(k)
        &&& (c.len() == 0 <==> self.head.is_none())
        &&& (c.len() == 0 <==> self.tail.is_none())
        &&& c.len() > 0 ==> self.head == Some(c[0]) && self.tail == Some(c[c.len() - 1])
        &&& forall|i: int| 0 <= i < c.len() ==> linked_at(m, c, i, #[trigger] c[i])
    }

    /// The waiters behind the head, first in line first.
    pub closed spec fn waiting(self) -> Seq<(bool, i8, Option<u64>)> {
        let c = self.chain@;
        if c.len() == 0 {
            Seq::empty()
        } else {
            Seq::new((c.len() - 1) as nat, |i: int| self.slots()[c[i + 1]].summary())
        }
    }

    /// Creates a syncer whose counter is `state`, with an empty queue.
    pub fn new(state: u32) -> (s: Self)
        ensures
            s.wf(),
            s.count() == state,
            s.waiting() == Seq::<(bool, i8, Option<u64>)>::empty(),
    {
        LockQueueSyncer {
            nodes: node_slab_new(),
            head: None,
            tail: None,
            state,
            chain: Ghost(Seq::empty()),
        }
    }

    /// The counter.
    pub fn state(&self) -> (r: u32)
        ensures
            r == self.count(),
    {
        self.state
    }

    /// Sets the counter to `new` if it is `current`; otherwise fails with the
    /// counter it found.
    pub fn cas_state(&mut self, current: u32, new: u32) -> (r: Result<(), u32>)
        requires
            old(self).wf(),
        ensures
            final(self).wf(),
            old(self).count() == current ==> r == Ok::<(), u32>(()) && final(self).count() == new,
            old(self).count() != current ==> r == Err::<(), u32>(old(self).count())
                && final(self).count() == old(self).count(),
            final(self).waiting() == old(self).waiting(),
    {
        if self.state == current {
            self.state = new;
            Ok(())
        } else {
            Err(self.state)
        }
    }

    /// Sets `head` to `new` if it is `current`; returns whether it did.
    fn cas_head(&mut self, current: Option<usize>, new: Option<usize>) -> (r: bool)
        ensures
            r == (old(self).head == current),
            final(self).head == (if r {
                new
            } else {
                old(self).head
            }),
            final(self).nodes == old(self).nodes,
            final(self).tail == old(self).tail,
            final(self).state == old(self).state,
            final(self).chain == old(self).chain,
    {
        let same = match (self.head, current) {
            (None, None) => true,
            (Some(a), Some(b)) => a == b,
            _ => false,
        };
        if same {
            self.head = new;
        }
        same
    }

    /// Sets `tail` to `new` if it is `current`; returns whether it did.
    fn cas_tail(&mut self, current: Option<usize>, new: Option<usize>) -> (r: bool)
        ensures
            r == (old(self).tail == current),
            final(self).tail == (if r {
                new
            } else {
                old(self).tail
            }),
            final(self).nodes == old(self).nodes,
            final(self).head == old(self).head,
            final(self).state == old(self).state,
            final(self).chain == old(self).chain,
    {
        let same = match (self.tail, current) {
            (None, None) => true,
            (Some(a), Some(b)) => a == b,
            _ => false,
        };
        if same {
            self.tail = new;
        }
        same
    }

    /// The tail of the queue, after starting the queue with a dummy head if
    /// it had none.
    fn do_initialize_head(&mut self) -> (t: usize)
        requires
            old(self).wf(),
        ensures
            final(self).wf(),
            final(self).chain@.len() > 0,
            final(self).tail == Some(t),
            final(self).state == old(self).state,
            final(self).waiting() == old(self).waiting(),
            old(self).chain@.len() > 0 ==> *final(self) == *old(self),
    {
        match self.tail {
            Some(t) => t,
            None => {
                let new_head = node_slab_insert(&mut self.nodes, Node::new_head());
                let installed = self.cas_head(None, Some(new_head));
                assert(installed);
                self.tail = Some(new_head);
                self.chain = Ghost(Seq::empty().push(new_head));
                proof {
                    let c = self.chain@;
                    assert(linked_at(self.slots(), c, 0, c[0]));
                    assert forall|k: usize| self.slots().dom().contains(k) implies c.contains(k) by {
                        if k != new_head {
                            assert(old(self).chain@.len() == 0);
                            if old(self).slots().dom().contains(k) {
                                assert(old(self).chain@.contains(k));
                            }
                            assert(!old(self).slots().dom().contains(k));
                        } else {
                            assert(c[0] == k);
                        }
                    }
                    assert(self.waiting() =~= old(self).waiting());
                }
                new_head
            },
        }
    }

    /// Appends a waiter for `task` behind the tail; returns its key.
    fn enqueue(&mut self, shared: bool, task: u64) -> (key: usize)
        requires
            old(self).wf(),
            old(self).chain@.len() > 0,
        ensures
            final(self).wf(),
            final(self).chain@ == old(self).chain@.push(key),
            final(self).state == old(self).state,
            final(self).head == old(self).head,
            final(self).waiting() == old(self).waiting().push((shared, 0i8, Some(task))),
    {
        let tail = match self.tail {
            Some(t) => t,
            None => {
                proof {
                    assert(false);
                }
                0
            },
        };
        let ghost c = self.chain@;
        let mut node = Node::new(shared, task);
        node.set_waker(task);
        node.set_prev(Some(tail));
        let key = node_slab_insert(&mut self.nodes, node);
        let linked = self.cas_tail(Some(tail), Some(key));
        assert(linked);
        let mut t = node_slab_index(&self.nodes, tail);
        t.set_next(Some(key));
        node_slab_set(&mut self.nodes, tail, t);
        self.chain = Ghost(c.push(key));
        proof {
            let c2 = self.chain@;
            assert(c[c.len() - 1] == tail);
            assert(!c.contains(key));
            assert forall|i: int| 0 <= i < c2.len() implies linked_at(self.slots(), c2, i, #[trigger] c2[i]) by {
                if i < c.len() {
                    assert(c2[i] == c[i]);
                    assert(old(self).slots().dom().contains(c[i]));
                }
            }
            assert forall|k: usize| self.slots().dom().contains(k) implies c2.contains(k) by {
                if k == key {
                    assert(c2[c.len() as int] == k);
                } else {
                    assert(c.contains(k));
                    let j = choose|j: int| 0 <= j < c.len() && c[j] == k;
                    assert(c2[j] == k);
                }
            }
            assert(self.waiting() =~= old(self).waiting().push((shared, 0i8, Some(task))));
        }
        key
    }

    /// Signals the waiter behind the head `at` if it asked to be signalled:
    /// clears its `WAITING` bit and returns its task.
    fn signal_next_node(&mut self, at: usize) -> (woken: Option<u64>)
        requires
            old(self).wf(),
            old(self).head == Some(at),
        ensures
            final(self).wf(),
            final(self).chain == old(self).chain,
            final(self).head == old(self).head,
            final(self).state == old(self).state,
            ({
                let w = old(self).waiting();
                &&& w.len() > 0 && w[0].1 != 0 ==> woken == w[0].2 && final(self).waiting() == w.update(
                    0,
                    (w[0].0, w[0].1 & !WAITING, w[0].2),
                )
                &&& !(w.len() > 0 && w[0].1 != 0) ==> woken.is_none() && final(self).waiting() == w
            }),
    {
        let node = node_slab_index(&self.nodes, at);
        match node.next() {
            None => {
                proof {
                    assert(self.slots()[self.chain@[0]].next_of().is_none());
                }
                None
            },
            Some(next) => {
                proof {
                    assert(self.slots()[self.chain@[0]].next_of() == Some(next));
                    assert(self.chain@.contains(next));
                }
                let mut n = node_slab_index(&self.nodes, next);
                if n.status() != 0 {
                    self.unset_waiting(next, n);
                    n.wake()
                } else {
                    None
                }
            },
        }
    }

    /// Signals the waiter behind the head `at` as `signal_next_node` does, but
    /// only a shared one.
    fn signal_next_node_if_shared(&mut self, at: usize) -> (woken: Option<u64>)
        requires
            old(self).wf(),
            old(self).head == Some(at),
        ensures
            final(self).wf(),
            final(self).chain == old(self).chain,
            final(self).head == old(self).head,
            final(self).state == old(self).state,
            ({
                let w = old(self).waiting();
                &&& w.len() > 0 && w[0].0 && w[0].1 != 0 ==> woken == w[0].2 && final(self).waiting()
                    == w.update(0, (w[0].0, w[0].1 & !WAITING, w[0].2))
                &&& !(w.len() > 0 && w[0].0 && w[0].1 != 0) ==> woken.is_none() && final(self).waiting()
                    == w
            }),
    {
        let node = node_slab_index(&self.nodes, at);
        match node.next() {
            None => {
                proof {
                    assert(self.slots()[self.chain@[0]].next_of().is_none());
                }
                None
            },
            Some(next) => {
                proof {
                    assert(self.slots()[self.chain@[0]].next_of() == Some(next));
                    assert(self.chain@.contains(next));
                }
                let n = node_slab_index(&self.nodes, next);
                if n.is_shared() && n.status() != 0 {
                    self.unset_waiting(next, n);
                    n.wake()
                } else {
                    None
                }
            },
        }
    }

    /// Clears the `WAITING` bit of the first waiter, `n` under key `next`.
    fn unset_waiting(&mut self, next: usize, n: Node)
        requires
            old(self).wf(),
            old(self).chain@.len() > 1,
            old(self).chain@[1] == next,
            old(self).slots()[next] == n,
        ensures
            final(self).wf(),
            final(self).chain == old(self).chain,
            final(self).head == old(self).head,
            final(self).state == old(self).state,
            ({
                let w = old(self).waiting();
                final(self).waiting() == w.update(0, (w[0].0, w[0].1 & !WAITING, w[0].2))
            }),
    {
        let mut m = n;
        let _ = m.fetch_unset_status(WAITING);
        node_slab_set(&mut self.nodes, next, m);
        proof {
            let c = self.chain@;
            assert forall|i: int| 0 <= i < c.len() implies linked_at(self.slots(), c, i, #[trigger] c[i]) by {
                assert(old(self).slots().dom().contains(c[i]));
            }
            let w = old(self).waiting();
            assert(c[1] == next);
            assert forall|i: int| 1 < i < c.len() implies c[i] != next by {
                assert(c.no_duplicates());
            }
            assert(self.waiting() =~= w.update(0, (w[0].0, w[0].1 & !WAITING, w[0].2)));
        }
    }

    /// Makes the first waiter `key` the new head: its task and back link go,
    /// and the old head leaves the slab.
    fn become_head(&mut self, key: usize)
        requires
            old(self).wf(),
            old(self).chain@.len() == 2,
            old(self).chain@[1] == key,
        ensures
            final(self).wf(),
            final(self).chain@ == seq![key],
            final(self).head == Some(key),
            final(self).state == old(self).state,
            final(self).waiting() == Seq::<(bool, i8, Option<u64>)>::empty(),
    {
        let ghost c = self.chain@;
        let mut node = node_slab_index(&self.nodes, key);
        let prev = match node.prev() {
            Some(p) => p,
            None => {
                proof {
                    assert(false);
                }
                0
            },
        };
        node.unset_waker();
        node.set_prev(None);
        node_slab_set(&mut self.nodes, key, node);
        self.head = Some(key);
        let _ = node_slab_remove(&mut self.nodes, prev);
        self.chain = Ghost(Seq::empty().push(key));
        proof {
            assert(prev == c[0]);
            assert(c[0] != c[1]);
            assert forall|k: usize| self.slots().dom().contains(k) implies self.chain@.contains(k) by {
                assert(c.contains(k));
                let j = choose|j: int| 0 <= j < c.len() && c[j] == k;
                assert(j == 1);
                assert(self.chain@[0] == k);
            }
            assert(linked_at(self.slots(), self.chain@, 0, self.chain@[0]));
            assert(self.waiting() =~= Seq::<(bool, i8, Option<u64>)>::empty());
        }
    }

    /// Releases: `try_release` maps the counter and `arg` to the new counter
    /// and whether a waiter may now get through; if so, the first waiter is
    /// signalled. Returns that decision and the task woken.
    pub fn release_shared<F: FnOnce(u32, u32) -> (u32, bool)>(
        &mut self,
        arg: u32,
        try_release_shared: F,
    ) -> (r: (bool, Option<u64>))
        requires
            old(self).wf(),
            try_release_shared.requires((old(self).count(), arg)),
        ensures
            final(self).wf(),
            try_release_shared.ensures((old(self).count(), arg), (final(self).count(), r.0)),
            ({
                let w = old(self).waiting();
                &&& r.0 && w.len() > 0 && w[0].1 != 0 ==> r.1 == w[0].2 && final(self).waiting()
                    == w.update(0, (w[0].0, w[0].1 & !WAITING, w[0].2))
                &&& !(r.0 && w.len() > 0 && w[0].1 != 0) ==> r.1.is_none() && final(self).waiting()
                    == w
            }),
    {
        let (next_state, permit) = try_release_shared(self.state, arg);
        self.state = next_state;
        if permit {
            let woken = match self.head {
                Some(head) => self.signal_next_node(head),
                None => None,
            };
            (true, woken)
        } else {
            (false, None)
        }
    }

    /// Acquires in shared mode for `task`. `try_acquire_shared` maps the
    /// counter and `arg` to a result code and the counter after a successful
    /// acquire: a negative code fails, zero or more succeeds. On failure the
    /// task waits in the queue (see `do_acquire`). Returns whether it
    /// acquired.
    pub fn acquire_shared<F: Fn(u32, u32) -> (i8, u32)>(
        &mut self,
        task: u64,
        arg: u32,
        try_acquire_shared: F,
    ) -> (acquired: bool)
        requires
            old(self).wf(),
            forall|s: u32, a: u32| try_acquire_shared.requires((s, a)),
        ensures
            final(self).wf(),
            acquired ==> exists|c: i8|
                c >= 0 && #[trigger] try_acquire_shared.ensures(
                    (old(self).count(), arg),
                    (c, final(self).count()),
                ),
            acquired ==> final(self).waiting() == old(self).waiting(),
            !acquired ==> exists|c: i8, v: u32|
                c < 0 && #[trigger] try_acquire_shared.ensures((old(self).count(), arg), (c, v)),
            !acquired ==> final(self).count() == old(self).count() && final(self).waiting()
                == old(self).waiting().push((true, WAITING, Some(task))),
    {
        let (code, next_state) = try_acquire_shared(self.state, arg);
        assert(try_acquire_shared.ensures((old(self).count(), arg), (code, next_state)));
        if code >= 0 {
            self.state = next_state;
            assert(try_acquire_shared.ensures((old(self).count(), arg), (code, self.count())));
            true
        } else {
            self.do_acquire(task, arg, true, try_acquire_shared)
        }
    }

    /// The main acquire of `task`. It tries once; failing that, it starts the
    /// queue if there is none and appends a waiter for `task`. A waiter that
    /// is first in line tries again, and on success becomes the new head (and
    /// in shared mode signals a shared waiter behind it). Otherwise the waiter
    /// asks to be signalled and the acquire returns `false`.
    fn do_acquire<F: Fn(u32, u32) -> (i8, u32)>(
        &mut self,
        task: u64,
        arg: u32,
        shared: bool,
        try_acquire: F,
    ) -> (acquired: bool)
        requires
            old(self).wf(),
            forall|s: u32, a: u32| try_acquire.requires((s, a)),
        ensures
            final(self).wf(),
            acquired ==> exists|c: i8|
                c >= 0 && #[trigger] try_acquire.ensures(
                    (old(self).count(), arg),
                    (c, final(self).count()),
                ),
            acquired ==> final(self).waiting() == old(self).waiting(),
            !acquired ==> exists|c: i8, v: u32|
                c < 0 && #[trigger] try_acquire.ensures((old(self).count(), arg), (c, v)),
            !acquired ==> final(self).count() == old(self).count() && final(self).waiting()
                == old(self).waiting().push((shared, WAITING, Some(task))),
    {
        let (code, next_state) = try_acquire(self.state, arg);
        assert(try_acquire.ensures((old(self).count(), arg), (code, next_state)));
        if code >= 0 {
            self.state = next_state;
            assert(try_acquire.ensures((old(self).count(), arg), (code, self.count())));
            return true;
        }
        let tail = self.do_initialize_head();
        let first = match self.head {
            Some(h) => h == tail,
            None => false,
        };
        let key = self.enqueue(shared, task);
        if first {
            proof {
                assert(self.chain@.len() == 2);
            }
            let (code2, next_state2) = try_acquire(self.state, arg);
            assert(try_acquire.ensures((old(self).count(), arg), (code2, next_state2)));
            if code2 >= 0 {
                self.become_head(key);
                if shared {
                    let _ = self.signal_next_node_if_shared(key);
                }
                self.state = next_state2;
                assert(try_acquire.ensures((old(self).count(), arg), (code2, self.count())));
                return true;
            }
        }
        let ghost queued = self.waiting();
        proof {
            let c = self.chain@;
            assert(c[c.len() - 1] == key);
            assert(linked_at(self.slots(), c, c.len() - 1, c[c.len() - 1]));
            assert(queued[queued.len() - 1] == self.slots()[key].summary());
        }
        let mut node = node_slab_index(&self.nodes, key);
        if node.status() == 0 {
            node.set_status(WAITING);
            self.set_last(key, node);
            proof {
                assert(self.waiting() =~= old(self).waiting().push((shared, WAITING, Some(task))));
            }
        }
        false
    }

    /// Replaces the last waiter, `key`, by `n`, which differs from it only in
    /// its status.
    fn set_last(&mut self, key: usize, n: Node)
        requires
            old(self).wf(),
            old(self).chain@.len() > 1,
            old(self).chain@.last() == key,
            n == old(self).slots()[key].with_status(n.status_of()),
        ensures
            final(self).wf(),
            final(self).chain == old(self).chain,
            final(self).head == old(self).head,
            final(self).state == old(self).state,
            final(self).waiting() == old(self).waiting().update(
                old(self).waiting().len() - 1,
                n.summary(),
            ),
    {
        node_slab_set(&mut self.nodes, key, n);
        proof {
            let c = self.chain@;
            assert forall|i: int| 0 <= i < c.len() implies linked_at(self.slots(), c, i, #[trigger] c[i]) by {
                assert(old(self).slots().dom().contains(c[i]));
            }
            let w = old(self).waiting();
            assert forall|i: int| 0 <= i < c.len() - 1 implies c[i] != key by {
                assert(c[c.len() - 1] == key);
            }
            assert(self.waiting() =~= w.update(w.len() - 1, n.summary()));
        }
    }
}

} // verus!
