//! A counter with a first-in first-out queue of waiting tasks.
//!
//! Acquiring in shared mode succeeds while the counter is zero; a task that
//! cannot acquire is queued. Releasing counts down, and the release that
//! reaches zero wakes the oldest queued task; each successful shared acquire
//! wakes the next one in turn. The queue is a `crossbeam_queue::SegQueue` of
//! task ids.
use vstd::prelude::*;
use crossbeam_queue::SegQueue;

verus! {

#[verifier::external_type_specification]
#[verifier::external_body]
#[verifier::reject_recursive_types(T)]
pub struct ExSegQueue<T>(SegQueue<T>);

/// What a queue of task ids holds, oldest first.
pub uninterp spec fn queued_tasks(q: SegQueue<u64>) -> Seq<u64>;

/// `SegQueue::new`: an empty queue.
#[verifier::external_body]
fn task_queue_new() -> (q: SegQueue<u64>)
    ensures
        queued_tasks(q) == Seq::<u64>::empty(),
{
    SegQueue::new()
}

/// `SegQueue::push`: adds `task` at the tail. (The queue's internal index
/// grows with every push ever made; its overflow after about 2^63 pushes is
/// not stated.)
#[verifier::external_body]
fn task_queue_push(q: &mut SegQueue<u64>, task: u64)
    ensures
        queued_tasks(*final(q)) == queued_tasks(*old(q)).push(task),
{
    q.push(task)
}

/// `SegQueue::pop`: takes the head element, or `None` when the queue is empty.
#[verifier::external_body]
fn task_queue_pop(q: &mut SegQueue<u64>) -> (r: Option<u64>)
    ensures
        queued_tasks(*old(q)).len() == 0 ==> r.is_none() && queued_tasks(*final(q)) == queued_tasks(
            *old(q),
        ),
        queued_tasks(*old(q)).len() > 0 ==> r == Some(queued_tasks(*old(q))[0]) && queued_tasks(
            *final(q),
        ) == queued_tasks(*old(q)).drop_first(),
{
    q.pop()
}

/// The queue once its oldest task, if any, has been taken.
pub open spec fn after_signal(q: Seq<u64>) -> Seq<u64> {
    if q.len() > 0 {
        q.drop_first()
    } else {
        q
    }
}

/// The oldest task of the queue, if any.
pub open spec fn front(q: Seq<u64>) -> Option<u64> {
    if q.len() > 0 {
        Some(q[0])
    } else {
        None
    }
}

/// The counter after a release by `n`: a zero counter stays zero; any other
/// goes down by `n`, not below zero.
pub open spec fn released_count(count: u32, n: u32) -> u32 {
    if count <= n {
        0
    } else {
        (count - n) as u32
    }
}

/// A counter and the tasks that wait for it to reach zero.
pub struct WaitQueueSync {
    state: u32,
    waiters: SegQueue<u64>,
}

impl WaitQueueSync {
    pub closed spec fn count(self) -> u32 {
        self.state
    }

    /// The waiting tasks, oldest first.
    pub closed spec fn queue(self) -> Seq<u64> {
        queued_tasks(self.waiters)
    }

    /// Creates a synchronizer whose counter is `count`, with no waiting task.
    pub fn new(count: u32) -> (s: Self)
        ensures
            s.count() == count,
            s.queue() == Seq::<u64>::empty(),
    {
        WaitQueueSync { state: count, waiters: task_queue_new() }
    }

    /// The counter.
    pub fn state(&self) -> (r: u32)
        ensures
            r == self.count(),
    {
        self.state
    }

    /// Sets the counter to `new` if it is `current`; otherwise fails with the
    /// counter it found.
    pub fn cas_state(&mut self, current: u32, new: u32) -> (r: Result<(), u32>)
        ensures
            old(self).count() == current ==> r == Ok::<(), u32>(()) && final(self).count() == new,
            old(self).count() != current ==> r == Err::<(), u32>(old(self).count())
                && final(self).count() == old(self).count(),
            final(self).queue() == old(self).queue(),
    {
        if self.state == current {
            self.state = new;
            Ok(())
        } else {
            Err(self.state)
        }
    }

    /// Wakes the oldest waiting task: takes it off the queue and returns it.
    fn signal_next_node(&mut self) -> (woken: Option<u64>)
        ensures
            woken == front(old(self).queue()),
            final(self).queue() == after_signal(old(self).queue()),
            final(self).count() == old(self).count(),
    {
        task_queue_pop(&mut self.waiters)
    }

    /// Counts down by `n` unless the counter is already zero. Returns whether
    /// this release brought the counter to zero.
    fn try_release_by_n(&mut self, n: u32) -> (reached_zero: bool)
        ensures
            final(self).count() == released_count(old(self).count(), n),
            reached_zero == (old(self).count() > 0 && old(self).count() <= n),
            final(self).queue() == old(self).queue(),
    {
        let mut cnt = self.state();
        loop
            invariant
                cnt == self.count(),
                self.count() == old(self).count(),
                self.queue() == old(self).queue(),
            decreases cnt,
        {
            if cnt == 0 {
                return false;
            }
            let new_cnt = cnt.saturating_sub(n);
            match self.cas_state(cnt, new_cnt) {
                Ok(()) => {
                    return new_cnt == 0;
                },
                Err(x) => {
                    cnt = x;
                },
            }
        }
    }

    /// Releases by `n`: counts down, not below zero, and if this release
    /// brought the counter to zero, wakes the oldest waiting task. Returns the
    /// task woken.
    pub fn release_shared_by_n(&mut self, n: u32) -> (woken: Option<u64>)
        ensures
            final(self).count() == released_count(old(self).count(), n),
            old(self).count() > 0 && old(self).count() <= n ==> woken == front(old(self).queue())
                && final(self).queue() == after_signal(old(self).queue()),
            !(old(self).count() > 0 && old(self).count() <= n) ==> woken.is_none()
                && final(self).queue() == old(self).queue(),
    {
        if self.try_release_by_n(n) {
            self.signal_next_node()
        } else {
            None
        }
    }

    /// Releases by one.
    pub fn release_shared_by_one(&mut self) -> (woken: Option<u64>)
        ensures
            final(self).count() == released_count(old(self).count(), 1),
            old(self).count() == 1 ==> woken == front(old(self).queue()) && final(self).queue()
                == after_signal(old(self).queue()),
            old(self).count() != 1 ==> woken.is_none() && final(self).queue() == old(self).queue(),
    {
        self.release_shared_by_n(1)
    }

    /// The shared acquire attempt: it succeeds while the counter is zero.
    fn try_acquire_on_zero(&self) -> (r: Option<()>)
        ensures
            r.is_some() == (self.count() == 0),
    {
        if self.state() == 0 {
            Some(())
        } else {
            None
        }
    }

    /// Queues `task`, then checks once more: if the counter is zero, the
    /// acquire succeeds and the oldest queued task is woken. Returns the
    /// outcome and the task woken.
    fn do_acquire(&mut self, task: u64) -> (r: (Option<()>, Option<u64>))
        ensures
            final(self).count() == old(self).count(),
            old(self).count() == 0 ==> r.0.is_some() && r.1 == front(old(self).queue().push(task))
                && final(self).queue() == after_signal(old(self).queue().push(task)),
            old(self).count() != 0 ==> r.0.is_none() && r.1.is_none() && final(self).queue()
                == old(self).queue().push(task),
    {
        task_queue_push(&mut self.waiters, task);
        match self.try_acquire_on_zero() {
            Some(res) => {
                let woken = self.signal_next_node();
                (Some(res), woken)
            },
            None => (None, None),
        }
    }

    /// Acquires in shared mode for `task`: while the counter is zero this
    /// succeeds and passes the wake-up on to the oldest waiting task;
    /// otherwise `task` is queued. Returns the outcome and the task woken.
    pub fn acquire_shared(&mut self, task: u64) -> (r: (Option<()>, Option<u64>))
        ensures
            final(self).count() == old(self).count(),
            old(self).count() == 0 ==> r.0.is_some() && r.1 == front(old(self).queue())
                && final(self).queue() == after_signal(old(self).queue()),
            old(self).count() != 0 ==> r.0.is_none() && r.1.is_none() && final(self).queue()
                == old(self).queue().push(task),
    {
        match self.try_acquire_on_zero() {
            Some(res) => {
                let woken = self.signal_next_node();
                (Some(res), woken)
            },
            None => self.do_acquire(task),
        }
    }

    /// Whether the counter is zero; if not, `task` is queued. Returns that
    /// and the task woken.
    pub fn acquire_shared_on_state_is_zero(&mut self, task: u64) -> (r: (bool, Option<u64>))
        ensures
            final(self).count() == old(self).count(),
            r.0 == (old(self).count() == 0),
            old(self).count() == 0 ==> r.1 == front(old(self).queue()) && final(self).queue()
                == after_signal(old(self).queue()),
            old(self).count() != 0 ==> r.1.is_none() && final(self).queue() == old(self).queue().push(
                task,
            ),
    {
        let (result, woken) = self.acquire_shared(task);
        (result.is_some(), woken)
    }
}

} // verus!
