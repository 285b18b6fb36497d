//! The `slab` collections that the wait structures are built on.
//!
//! A slab is opaque to the proofs. Each slab instantiation used by this crate
//! gets a name for what it holds (a map from occupied key to value) and a
//! small wrapper per method, whose contract says what the method does to that
//! map.
use vstd::prelude::*;
use slab::Slab;

verus! {

/// A node of the guarded doubly linked list kept in a slab (see `wait_list`).
#[derive(Clone, Copy, Debug, PartialEq, Eq)]
pub struct ListNode {
    pub prev: usize,
    pub next: usize,
    pub stat: Option<WaitNode>,
}

/// What a waiter of a wait list records: the permits it still needs and the
/// task to wake once it is served.
#[derive(Clone, Copy, Debug, PartialEq, Eq)]
pub struct WaitNode {
    pub permits: u32,
    pub waker: Option<u64>,
}

#[verifier::external_type_specification]
#[verifier::external_body]
#[verifier::reject_recursive_types(T)]
pub struct ExSlab<T>(Slab<T>);

/// What a slab of list nodes holds: occupied key to node.
pub uninterp spec fn list_slots(s: Slab<ListNode>) -> Map<usize, ListNode>;

/// What a slab of task ids holds: occupied key to task id.
pub uninterp spec fn task_slots(s: Slab<u64>) -> Map<usize, u64>;

/// What a slab of optional task ids holds: occupied key to entry.
pub uninterp spec fn opt_task_slots(s: Slab<Option<u64>>) -> Map<usize, Option<u64>>;

// ---------------------------------------------------------------------------
// Slab<ListNode>

/// `Slab::new`: a slab with no occupied key.
#[verifier::external_body]
pub(crate) fn list_slab_new() -> (fresh: Slab<ListNode>)
    ensures
        list_slots(fresh).dom() == Set::<usize>::empty(),
{
    Slab::new()
}

/// `Slab::insert`: stores `v` under a key that was vacant, and returns that key.
/// (Running out of memory, where the slab's vector cannot grow, is not stated.)
/// Which vacant key is used (the head of the slab's free list) is not stated.
#[verifier::external_body]
pub(crate) fn list_slab_insert(s: &mut Slab<ListNode>, v: ListNode) -> (key: usize)
    ensures
        !list_slots(*old(s)).dom().contains(key),
        list_slots(*final(s)) == list_slots(*old(s)).insert(key, v),
{
    s.insert(v)
}

/// `Slab::get`: the value under `key`, or `None` where `key` is vacant.
#[verifier::external_body]
pub(crate) fn list_slab_get(s: &Slab<ListNode>, key: usize) -> (r: Option<ListNode>)
    ensures
        r == (if list_slots(*s).dom().contains(key) {
            Some(list_slots(*s)[key])
        } else {
            None::<ListNode>
        }),
{
    s.get(key).copied()
}

/// `Index::index` of `Slab`: the value under an occupied `key` (it panics on a
/// vacant key, which `requires` leaves out).
#[verifier::external_body]
pub(crate) fn list_slab_index(s: &Slab<ListNode>, key: usize) -> (r: ListNode)
    requires
        list_slots(*s).dom().contains(key),
    ensures
        r == list_slots(*s)[key],
{
    s[key]
}

/// `IndexMut::index_mut` of `Slab`, assigned through: replaces the value under
/// an occupied `key`.
#[verifier::external_body]
pub(crate) fn list_slab_set(s: &mut Slab<ListNode>, key: usize, v: ListNode)
    requires
        list_slots(*old(s)).dom().contains(key),
    ensures
        list_slots(*final(s)) == list_slots(*old(s)).insert(key, v),
{
    s[key] = v;
}

/// `Slab::remove`: takes the value out of an occupied `key` (it panics on a
/// vacant key, which `requires` leaves out).
#[verifier::external_body]
pub(crate) fn list_slab_remove(s: &mut Slab<ListNode>, key: usize) -> (r: ListNode)
    requires
        list_slots(*old(s)).dom().contains(key),
    ensures
        r == list_slots(*old(s))[key],
        list_slots(*final(s)) == list_slots(*old(s)).remove(key),
{
    s.remove(key)
}

// ---------------------------------------------------------------------------
// Slab<u64>

/// `Slab::new`: a slab with no occupied key.
#[verifier::external_body]
pub(crate) fn task_slab_new() -> (fresh: Slab<u64>)
    ensures
        task_slots(fresh).dom() == Set::<usize>::empty(),
{
    Slab::new()
}

/// `Slab::with_capacity`: a slab with no occupied key (the capacity it
/// reserves is not stated).
#[verifier::external_body]
pub(crate) fn task_slab_with_capacity(capacity: usize) -> (fresh: Slab<u64>)
    ensures
        task_slots(fresh).dom() == Set::<usize>::empty(),
{
    Slab::with_capacity(capacity)
}

/// `Slab::insert`: stores `v` under a key that was vacant, and returns that key.
/// (Running out of memory, where the slab's vector cannot grow, is not stated.)
#[verifier::external_body]
pub(crate) fn task_slab_insert(s: &mut Slab<u64>, v: u64) -> (key: usize)
    ensures
        !task_slots(*old(s)).dom().contains(key),
        task_slots(*final(s)) == task_slots(*old(s)).insert(key, v),
{
    s.insert(v)
}

/// `Index::index` of `Slab`: the value under an occupied `key`.
#[verifier::external_body]
pub(crate) fn task_slab_index(s: &Slab<u64>, key: usize) -> (r: u64)
    requires
        task_slots(*s).dom().contains(key),
    ensures
        r == task_slots(*s)[key],
{
    s[key]
}

/// `IndexMut::index_mut` of `Slab`, assigned through: replaces the value under
/// an occupied `key`.
#[verifier::external_body]
pub(crate) fn task_slab_set(s: &mut Slab<u64>, key: usize, v: u64)
    requires
        task_slots(*old(s)).dom().contains(key),
    ensures
        task_slots(*final(s)) == task_slots(*old(s)).insert(key, v),
{
    s[key] = v;
}

/// `Slab::is_empty`: whether no key is occupied.
#[verifier::external_body]
pub(crate) fn task_slab_is_empty(s: &Slab<u64>) -> (r: bool)
    ensures
        r == task_slots(*s).dom().is_empty(),
{
    s.is_empty()
}

/// `Slab::iter`, keeping the keys: the occupied keys in ascending order, each once.
#[verifier::external_body]
pub(crate) fn task_slab_keys(s: &Slab<u64>) -> (r: Vec<usize>)
    ensures
        forall|k: usize| #[trigger] r@.contains(k) <==> task_slots(*s).dom().contains(k),
        forall|i: int, j: int| 0 <= i < j < r@.len() ==> r@[i] < r@[j],
{
    s.iter().map(|(k, _)| k).collect()
}

// ---------------------------------------------------------------------------
// Slab<Option<u64>>

/// `Slab::new`: a slab with no occupied key.
#[verifier::external_body]
pub(crate) fn opt_slab_new() -> (fresh: Slab<Option<u64>>)
    ensures
        opt_task_slots(fresh).dom() == Set::<usize>::empty(),
{
    Slab::new()
}

/// `Slab::insert`: stores `v` under a key that was vacant, and returns that key.
/// (Running out of memory, where the slab's vector cannot grow, is not stated.)
#[verifier::external_body]
pub(crate) fn opt_slab_insert(s: &mut Slab<Option<u64>>, v: Option<u64>) -> (key: usize)
    ensures
        !opt_task_slots(*old(s)).dom().contains(key),
        opt_task_slots(*final(s)) == opt_task_slots(*old(s)).insert(key, v),
{
    s.insert(v)
}

/// `Index::index` of `Slab`: the value under an occupied `key`.
#[verifier::external_body]
pub(crate) fn opt_slab_index(s: &Slab<Option<u64>>, key: usize) -> (r: Option<u64>)
    requires
        opt_task_slots(*s).dom().contains(key),
    ensures
        r == opt_task_slots(*s)[key],
{
    s[key]
}

/// `IndexMut::index_mut` of `Slab`, assigned through: replaces the value under
/// an occupied `key`.
#[verifier::external_body]
pub(crate) fn opt_slab_set(s: &mut Slab<Option<u64>>, key: usize, v: Option<u64>)
    requires
        opt_task_slots(*old(s)).dom().contains(key),
    ensures
        opt_task_slots(*final(s)) == opt_task_slots(*old(s)).insert(key, v),
{
    s[key] = v;
}

/// `Slab::remove`: takes the value out of an occupied `key` (it panics on a
/// vacant key, which `requires` leaves out).
#[verifier::external_body]
pub(crate) fn opt_slab_remove(s: &mut Slab<Option<u64>>, key: usize) -> (r: Option<u64>)
    requires
        opt_task_slots(*old(s)).dom().contains(key),
    ensures
        r == opt_task_slots(*old(s))[key],
        opt_task_slots(*final(s)) == opt_task_slots(*old(s)).remove(key),
{
    s.remove(key)
}

/// `Slab::iter`, keeping the keys: the occupied keys in ascending order, each once.
#[verifier::external_body]
pub(crate) fn opt_slab_keys(s: &Slab<Option<u64>>) -> (r: Vec<usize>)
    ensures
        forall|k: usize| #[trigger] r@.contains(k) <==> opt_task_slots(*s).dom().contains(k),
        forall|i: int, j: int| 0 <= i < j < r@.len() ==> r@[i] < r@[j],
{
    s.iter().map(|(k, _)| k).collect()
}

} // verus!
