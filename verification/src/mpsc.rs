//! An unbounded multi-producer, single-consumer channel.
//!
//! Senders push onto a shared queue and wake the receiver's task if it is
//! waiting; the receiver takes values first in, first out, and registers its
//! task while the queue is empty. Once every sender is gone and the queue is
//! empty, a receive completes with nothing.
use vstd::prelude::*;
use std::collections::VecDeque;

verus! {

/// The state the senders and the receiver of an unbounded channel share.
pub struct UnboundedState<T> {
    buffer: VecDeque<T>,
    rx_task: Option<u64>,
    senders: usize,
}

/// The sending side of an unbounded channel.
#[derive(Debug)]
pub struct UnboundedSender {}

/// The receiving side of an unbounded channel.
#[derive(Debug)]
pub struct UnboundedReceiver {}

impl<T> UnboundedState<T> {
    /// The values sent and not yet received, oldest first.
    pub closed spec fn queue(self) -> Seq<T> {
        self.buffer@
    }

    /// The receiver's task while it waits.
    pub closed spec fn rx_task(self) -> Option<u64> {
        self.rx_task
    }

    /// The number of live senders.
    pub closed spec fn senders(self) -> nat {
        self.senders as nat
    }

    /// The number of live senders.
    pub fn sender_count(&self) -> (r: usize)
        ensures
            r == self.senders(),
    {
        self.senders
    }
}

/// Creates an unbounded channel: a sender, a receiver and their shared state.
pub fn unbounded<T>() -> (r: (UnboundedSender, UnboundedReceiver, UnboundedState<T>))
    ensures
        r.2.queue() == Seq::<T>::empty(),
        r.2.rx_task().is_none(),
        r.2.senders() == 1,
{
    (
        UnboundedSender {},
        UnboundedReceiver {},
        UnboundedState { buffer: VecDeque::new(), rx_task: None, senders: 1 },
    )
}

impl UnboundedSender {
    /// Sends `value`; it is queued after every value sent before. Returns the
    /// receiver's task to wake, if it was waiting.
    pub fn send<T>(&self, state: &mut UnboundedState<T>, value: T) -> (woken: Option<u64>)
        ensures
            final(state).queue() == old(state).queue().push(value),
            woken == old(state).rx_task(),
            final(state).rx_task().is_none(),
            final(state).senders() == old(state).senders(),
    {
        state.buffer.push_back(value);
        state.rx_task.take()
    }

    /// Creates another sender.
    ///
    /// Counting more senders than `usize::MAX` aborts the process; `requires`
    /// leaves that out.
    pub fn clone<T>(&self, state: &mut UnboundedState<T>) -> (s: UnboundedSender)
        requires
            old(state).senders() < usize::MAX,
        ensures
            final(state).senders() == old(state).senders() + 1,
            final(state).queue() == old(state).queue(),
            final(state).rx_task() == old(state).rx_task(),
    {
        state.senders = state.senders + 1;
        UnboundedSender {}
    }

    /// Drops this sender. When it was the last one, a waiting receiver is
    /// woken to see the channel closed. Returns the task to wake.
    pub fn drop<T>(self, state: &mut UnboundedState<T>) -> (woken: Option<u64>)
        requires
            old(state).senders() > 0,
        ensures
            final(state).senders() == old(state).senders() - 1,
            final(state).queue() == old(state).queue(),
            old(state).senders() == 1 ==> woken == old(state).rx_task() && final(state).rx_task().is_none(),
            old(state).senders() != 1 ==> woken.is_none() && final(state).rx_task() == old(state).rx_task(),
    {
        state.senders = state.senders - 1;
        if state.senders == 0 {
            state.rx_task.take()
        } else {
            None
        }
    }
}

impl UnboundedReceiver {
    /// One poll of a receive by task `task`: `Some(Some(v))` with the oldest
    /// value; `Some(None)` once the queue is empty and every sender is gone;
    /// otherwise `None`, with `task` registered to be woken by the next send
    /// or by the last sender's drop.
    pub fn poll_recv<T>(&mut self, state: &mut UnboundedState<T>, task: u64) -> (r: Option<
        Option<T>,
    >)
        ensures
            final(state).senders() == old(state).senders(),
            old(state).queue().len() > 0 ==> r == Some(Some(old(state).queue()[0]))
                && final(state).queue() == old(state).queue().subrange(1, old(state).queue().len() as int)
                && final(state).rx_task() == old(state).rx_task(),
            old(state).queue().len() == 0 && old(state).senders() == 0 ==> r == Some(None::<T>)
                && final(state).queue() == old(state).queue() && final(state).rx_task() == old(state).rx_task(),
            old(state).queue().len() == 0 && old(state).senders() > 0 ==> r.is_none()
                && final(state).queue() == old(state).queue() && final(state).rx_task() == Some(task),
    {
        if state.buffer.len() > 0 {
            let value = state.buffer.pop_front();
            Some(value)
        } else if state.senders == 0 {
            Some(None)
        } else {
            state.rx_task = Some(task);
            None
        }
    }
}

} // verus!
