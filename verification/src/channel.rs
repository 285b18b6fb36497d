//! A multi-producer, multi-consumer channel, bounded or not.
//!
//! Values are received in the order they were sent. A bounded channel refuses
//! a send while it holds `capacity` values; senders then wait on one
//! condition variable, receivers on another while the channel is empty. The
//! channel disconnects when the last sender or the last receiver goes.
use vstd::prelude::*;
use std::collections::VecDeque;
use crate::primitives::condvar::{AwaitNotify, Condvar};
use crate::wakerset::{notified_all, notified_least, lemma_notify_one_reaches, lemma_notify_all_reaches};

verus! {

/// The buffer of a channel and its bound.
pub struct Channel<T> {
    buffer: VecDeque<T>,
    capacity: Option<usize>,
}

impl<T> Channel<T> {
    /// The values in the channel, oldest first.
    pub closed spec fn items(self) -> Seq<T> {
        self.buffer@
    }

    pub closed spec fn bound(self) -> Option<usize> {
        self.capacity
    }

    pub open spec fn full(self) -> bool {
        self.bound() matches Some(cap) && self.items().len() >= cap
    }

    /// Whether the channel is bounded and holds as many values as it may.
    pub fn is_full(&self) -> (r: bool)
        ensures
            r == self.full(),
    {
        match self.capacity {
            Some(cap) => self.buffer.len() >= cap,
            None => false,
        }
    }

    /// Adds a value behind all others.
    pub fn push_back(&mut self, item: T)
        ensures
            final(self).items() == old(self).items().push(item),
            final(self).bound() == old(self).bound(),
    {
        self.buffer.push_back(item);
    }

    /// Takes the oldest value, if any.
    pub fn pop_front(&mut self) -> (r: Option<T>)
        ensures
            old(self).items().len() > 0 ==> r == Some(old(self).items()[0])
                && final(self).items() == old(self).items().subrange(1, old(self).items().len() as int),
            old(self).items().len() == 0 ==> r.is_none() && *final(self) == *old(self),
            final(self).bound() == old(self).bound(),
    {
        if self.buffer.len() == 0 {
            None
        } else {
            self.buffer.pop_front()
        }
    }
}

/// Why a value could not be sent at once: the channel was full, or every
/// receiver was gone. The value comes back.
#[derive(Debug, PartialEq, Eq)]
pub enum TrySendError<T> {
    Full(T),
    Disconnected(T),
}

/// Every receiver was gone; the value comes back.
#[derive(Debug, PartialEq, Eq)]
pub struct SendError<T>(pub T);

/// Why no value could be received at once.
#[derive(Debug, PartialEq, Eq, Clone, Copy)]
pub enum TryRecvError {
    /// The channel was empty.
    Empty,
    /// The channel was empty and every sender was gone.
    Disconnected,
}

/// The channel was empty and every sender was gone.
#[derive(Debug, PartialEq, Eq, Clone, Copy)]
pub struct RecvError(());

/// A handle that sends into a channel.
#[derive(Debug)]
pub struct Sender {}

/// A handle that receives from a channel.
#[derive(Debug)]
pub struct Receiver {}

/// The state that the handles of a channel share.
pub struct Shared<T> {
    channel: Channel<T>,
    sender_wait: Condvar,
    receiver_wait: Condvar,
    disconnected: bool,
    sender_cnt: usize,
    receiver_cnt: usize,
}

/// The state of a send that may have to wait.
pub struct SendWait {
    wait: Option<AwaitNotify<()>>,
}

/// The state of a receive that may have to wait.
pub struct RecvWait {
    wait: Option<AwaitNotify<()>>,
}

/// The outcome of one poll of a send: done, or not yet, with the value back.
#[derive(Debug, PartialEq, Eq)]
pub enum SendPoll<T> {
    Ready(Result<(), SendError<T>>),
    Pending(T),
}

impl SendWait {
    pub closed spec fn waiting(self) -> Option<AwaitNotify<()>> {
        self.wait
    }

    /// A send that has not waited yet.
    pub fn new() -> (s: Self)
        ensures
            s.waiting().is_none(),
    {
        SendWait { wait: None }
    }
}

impl RecvWait {
    pub closed spec fn waiting(self) -> Option<AwaitNotify<()>> {
        self.wait
    }

    /// A receive that has not waited yet.
    pub fn new() -> (s: Self)
        ensures
            s.waiting().is_none(),
    {
        RecvWait { wait: None }
    }
}

/// A condition-variable wait that has registered its task.
pub open spec fn registered_wait(cv: Condvar, w: Option<AwaitNotify<()>>) -> bool {
    w matches Some(f) ==> cv.tracks(f) && !f.holds_guard() && f.key().is_some()
}

/// The wait `w` is registered in `cv` under a key whose entry holds task
/// `task`, not yet notified: the next notification that reaches it wakes
/// `task`.
pub open spec fn waits_for(cv: Condvar, w: Option<AwaitNotify<()>>, task: u64) -> bool {
    &&& w matches Some(f)
    &&& w.unwrap().key() matches Some(k)
    &&& cv.set().entries().dom().contains(k)
    &&& cv.set().entries()[k] == Some(task)
}

/// Whether a registered wait has been notified.
pub open spec fn wait_notified(cv: Condvar, w: Option<AwaitNotify<()>>) -> bool {
    w matches Some(f) ==> cv.set().entries()[f.key().unwrap()].is_none()
}

/// `after` is the condition variable `before` once its earliest waiting task,
/// `r`, was notified; or, where none waits, `before` itself with `r` none.
pub open spec fn notified_one(before: Condvar, after: Condvar, r: Option<u64>) -> bool {
    notified_least(before.set().entries(), after.set().entries(), r)
}

/// `after` is the condition variable `before` with every waiting task
/// notified, and `woken` those tasks, each once, earliest registered first.
pub open spec fn notified_every(before: Condvar, after: Condvar, woken: Seq<u64>) -> bool {
    &&& notified_all(before.set().entries(), after.set().entries(), woken)
    &&& woken.len() == before.set().notifiable()
    &&& after.set().notifiable() == 0
}

/// The entries of `cv` once the wait `w`, if any, has left it.
pub open spec fn after_wait(cv: Condvar, w: Option<AwaitNotify<()>>) -> Map<usize, Option<u64>> {
    match w {
        Some(f) => cv.set().entries().remove(f.key().unwrap()),
        None => cv.set().entries(),
    }
}

/// The task, if any, as a sequence.
pub open spec fn task_seq(r: Option<u64>) -> Seq<u64> {
    match r {
        Some(w) => seq![w],
        None => Seq::empty(),
    }
}

impl<T> Shared<T> {
    pub closed spec fn channel(self) -> Channel<T> {
        self.channel
    }

    pub closed spec fn sender_wait(self) -> Condvar {
        self.sender_wait
    }

    pub closed spec fn receiver_wait(self) -> Condvar {
        self.receiver_wait
    }

    pub closed spec fn is_disconnected(self) -> bool {
        self.disconnected
    }

    pub closed spec fn senders(self) -> nat {
        self.sender_cnt as nat
    }

    pub closed spec fn receivers(self) -> nat {
        self.receiver_cnt as nat
    }

    pub open spec fn wf(self) -> bool {
        self.sender_wait().wf() && self.receiver_wait().wf()
    }

    /// `after` is `self` disconnected, with every waiting receiver and then
    /// every waiting sender woken: `woken` lists the receivers' tasks, then
    /// the senders'.
    pub open spec fn disconnected_into(self, after: Self, woken: Seq<u64>) -> bool {
        &&& after.is_disconnected()
        &&& after.channel() == self.channel()
        &&& exists|a: Seq<u64>, b: Seq<u64>|
            #![trigger notified_every(self.receiver_wait(), after.receiver_wait(), a), notified_every(self.sender_wait(), after.sender_wait(), b)]
            notified_every(self.receiver_wait(), after.receiver_wait(), a)
                && notified_every(self.sender_wait(), after.sender_wait(), b)
                && woken == a + b
    }

    /// There is room to register one more waiting task on each side.
    pub open spec fn room(self) -> bool {
        &&& self.sender_wait().set().notifiable() < usize::MAX
        &&& self.receiver_wait().set().notifiable() < usize::MAX
    }

    /// Creates the shared state of a channel with one sender and one
    /// receiver, bounded by `capacity` if it is `Some`.
    pub fn new(capacity: Option<usize>) -> (s: Self)
        ensures
            s.wf(),
            s.channel().items().len() == 0,
            s.channel().bound() == capacity,
            !s.is_disconnected(),
            s.senders() == 1,
            s.receivers() == 1,
            s.sender_wait().set().notifiable() == 0,
            s.receiver_wait().set().notifiable() == 0,
    {
        let cap = match capacity {
            Some(c) => c,
            None => 0,
        };
        Shared {
            channel: Channel { buffer: VecDeque::with_capacity(cap), capacity },
            sender_wait: Condvar::new(),
            receiver_wait: Condvar::new(),
            disconnected: false,
            sender_cnt: 1,
            receiver_cnt: 1,
        }
    }

    /// Marks the channel disconnected and wakes every waiting sender and
    /// receiver. Returns the tasks to wake: the waiting receivers', then the
    /// waiting senders'.
    pub fn disconnect(&mut self) -> (woken: Vec<u64>)
        requires
            old(self).wf(),
        ensures
            final(self).wf(),
            final(self).is_disconnected(),
            final(self).channel() == old(self).channel(),
            final(self).senders() == old(self).senders(),
            final(self).receivers() == old(self).receivers(),
            final(self).sender_wait().set().notifiable() == 0,
            final(self).receiver_wait().set().notifiable() == 0,
            old(self).disconnected_into(*final(self), woken@),
            woken@.len() == old(self).receiver_wait().set().notifiable() + old(
                self,
            ).sender_wait().set().notifiable(),
    {
        self.disconnected = true;
        let mut woken = self.receiver_wait.notify_all();
        let ghost a = woken@;
        let mut more = self.sender_wait.notify_all();
        let ghost b = more@;
        woken.append(&mut more);
        proof {
            assert(notified_every(old(self).receiver_wait(), self.receiver_wait(), a));
            assert(notified_every(old(self).sender_wait(), self.sender_wait(), b));
        }
        woken
    }

    /// Wakes one waiting receiver and one waiting sender, as a send does.
    fn notify_after_send(&mut self) -> (woken: Vec<u64>)
        requires
            old(self).wf(),
        ensures
            final(self).wf(),
            final(self).channel() == old(self).channel(),
            final(self).is_disconnected() == old(self).is_disconnected(),
            final(self).senders() == old(self).senders(),
            final(self).receivers() == old(self).receivers(),
            final(self).sender_wait().set().notifiable() <= old(self).sender_wait().set().notifiable(),
            final(self).receiver_wait().set().notifiable() <= old(self).receiver_wait().set().notifiable(),
            exists|r1: Option<u64>, r2: Option<u64>|
                #![trigger task_seq(r1), task_seq(r2)]
                notified_one(old(self).receiver_wait(), final(self).receiver_wait(), r1)
                    && notified_one(old(self).sender_wait(), final(self).sender_wait(), r2)
                    && woken@ == task_seq(r1) + task_seq(r2),
    {
        let mut woken: Vec<u64> = Vec::new();
        let r1 = self.receiver_wait.notify_one();
        if let Some(w) = r1 {
            woken.push(w);
        }
        let r2 = self.sender_wait.notify_one();
        if let Some(w) = r2 {
            woken.push(w);
        }
        proof {
            assert(woken@ =~= task_seq(r1) + task_seq(r2));
        }
        woken
    }

    /// Wakes one waiting sender, as a receive does.
    fn notify_after_recv(&mut self) -> (woken: Vec<u64>)
        requires
            old(self).wf(),
        ensures
            final(self).wf(),
            final(self).channel() == old(self).channel(),
            final(self).is_disconnected() == old(self).is_disconnected(),
            final(self).senders() == old(self).senders(),
            final(self).receivers() == old(self).receivers(),
            final(self).receiver_wait() == old(self).receiver_wait(),
            final(self).sender_wait().set().notifiable() <= old(self).sender_wait().set().notifiable(),
            exists|r1: Option<u64>|
                #![trigger task_seq(r1)]
                notified_one(old(self).sender_wait(), final(self).sender_wait(), r1) && woken@
                    == task_seq(r1),
    {
        let mut woken: Vec<u64> = Vec::new();
        let r1 = self.sender_wait.notify_one();
        if let Some(w) = r1 {
            woken.push(w);
        }
        proof {
            assert(woken@ =~= task_seq(r1));
        }
        woken
    }
}

/// Creates a channel with no bound: a sender, a receiver and their shared
/// state.
pub fn unbounded<T>() -> (r: (Sender, Receiver, Shared<T>))
    ensures
        r.2.wf(),
        r.2.channel().items().len() == 0,
        r.2.channel().bound().is_none(),
        !r.2.is_disconnected(),
        r.2.senders() == 1,
        r.2.receivers() == 1,
        r.2.sender_wait().set().notifiable() == 0,
        r.2.receiver_wait().set().notifiable() == 0,
{
    (Sender {}, Receiver {}, Shared::new(None))
}

/// Creates a channel that holds at most `capacity` values.
pub fn bounded<T>(capacity: usize) -> (r: (Sender, Receiver, Shared<T>))
    ensures
        r.2.wf(),
        r.2.channel().items().len() == 0,
        r.2.channel().bound() == Some(capacity),
        !r.2.is_disconnected(),
        r.2.senders() == 1,
        r.2.receivers() == 1,
        r.2.sender_wait().set().notifiable() == 0,
        r.2.receiver_wait().set().notifiable() == 0,
{
    (Sender {}, Receiver {}, Shared::new(Some(capacity)))
}

/// Polls the condition-variable wait `w` of a send or receive by task `task`:
/// `true` if there is none or it was notified (it is then gone), `false` if it
/// still waits.
fn wait_done(cv: &mut Condvar, w: &mut Option<AwaitNotify<()>>, task: u64) -> (done: bool)
    requires
        old(cv).wf(),
        registered_wait(*old(cv), *old(w)),
        old(cv).set().notifiable() < usize::MAX,
    ensures
        final(cv).wf(),
        done == (old(w).is_none() || wait_notified(*old(cv), *old(w))),
        done ==> final(w).is_none() && final(cv).set().entries() == after_wait(*old(cv), *old(w)),
        done ==> final(cv).wf(),
        !done ==> final(w).is_some() && registered_wait(*final(cv), *final(w)),
        !done ==> waits_for(*final(cv), *final(w), task),
        !done ==> final(w).unwrap().key() == old(w).unwrap().key() && final(cv).set().entries()
            == old(cv).set().entries().insert(old(w).unwrap().key().unwrap(), Some(task)),
        final(cv).set().notifiable() == old(cv).set().notifiable(),
{
    match w.take() {
        None => true,
        Some(mut f) => {
            let (ready, _) = cv.poll_notify(&mut f, task);
            if ready {
                true
            } else {
                *w = Some(f);
                false
            }
        },
    }
}

impl Sender {
    /// Creates another sender.
    pub fn clone<T>(&self, shared: &mut Shared<T>) -> (s: Sender)
        ensures
            final(shared).senders() == (if old(shared).senders() == usize::MAX { 0 } else { old(shared).senders() + 1 }),
            final(shared).channel() == old(shared).channel(),
            final(shared).is_disconnected() == old(shared).is_disconnected(),
            final(shared).receivers() == old(shared).receivers(),
            final(shared).sender_wait() == old(shared).sender_wait(),
            final(shared).receiver_wait() == old(shared).receiver_wait(),
    {
        shared.sender_cnt = shared.sender_cnt.wrapping_add(1);
        Sender {}
    }

    /// Drops this sender; the last one disconnects the channel. Returns the
    /// tasks to wake.
    pub fn drop<T>(self, shared: &mut Shared<T>) -> (woken: Vec<u64>)
        requires
            old(shared).wf(),
        ensures
            final(shared).wf(),
            final(shared).senders() == (if old(shared).senders() == 0 { usize::MAX as nat } else { (old(shared).senders() - 1) as nat }),
            old(shared).senders() == 1 ==> final(shared).is_disconnected(),
            old(shared).senders() != 1 ==> final(shared).is_disconnected() == old(shared).is_disconnected() && woken@.len() == 0
                && final(shared).sender_wait() == old(shared).sender_wait()
                && final(shared).receiver_wait() == old(shared).receiver_wait(),
            old(shared).senders() == 1 ==> old(shared).disconnected_into(*final(shared), woken@),
            final(shared).channel() == old(shared).channel(),
            final(shared).sender_wait().set().notifiable() <= old(shared).sender_wait().set().notifiable(),
            final(shared).receiver_wait().set().notifiable() <= old(shared).receiver_wait().set().notifiable(),
    {
        let prev = shared.sender_cnt;
        shared.sender_cnt = shared.sender_cnt.wrapping_sub(1);
        if prev == 1 {
            shared.disconnect()
        } else {
            Vec::new()
        }
    }

    /// Attempts to send `item` at once. Fails with the value back when every
    /// receiver is gone, or else when the channel is full. Returns the outcome
    /// and the tasks to wake.
    pub fn try_send<T>(&self, shared: &mut Shared<T>, item: T) -> (r: (
        Result<(), TrySendError<T>>,
        Vec<u64>,
    ))
        requires
            old(shared).wf(),
        ensures
            final(shared).wf(),
            old(shared).is_disconnected() ==> r.0 == Err::<(), TrySendError<T>>(
                TrySendError::Disconnected(item),
            ) && final(shared).channel() == old(shared).channel(),
            !old(shared).is_disconnected() && old(shared).channel().full() ==> r.0 == Err::<
                (),
                TrySendError<T>,
            >(TrySendError::Full(item)) && final(shared).channel() == old(shared).channel(),
            !old(shared).is_disconnected() && !old(shared).channel().full() ==> r.0 == Ok::<
                (),
                TrySendError<T>,
            >(()) && final(shared).channel().items() == old(shared).channel().items().push(item),
            final(shared).channel().bound() == old(shared).channel().bound(),
            final(shared).is_disconnected() == old(shared).is_disconnected(),
            old(shared).is_disconnected() || old(shared).channel().full() ==> r.1@.len() == 0,
            !old(shared).is_disconnected() && !old(shared).channel().full() ==> exists|
                r1: Option<u64>,
                r2: Option<u64>,
            |
                #![trigger task_seq(r1), task_seq(r2)]
                notified_one(old(shared).receiver_wait(), final(shared).receiver_wait(), r1)
                    && notified_one(old(shared).sender_wait(), final(shared).sender_wait(), r2)
                    && r.1@ == task_seq(r1) + task_seq(r2),
            final(shared).senders() == old(shared).senders(),
            final(shared).receivers() == old(shared).receivers(),
            final(shared).sender_wait().set().notifiable() <= old(shared).sender_wait().set().notifiable(),
            final(shared).receiver_wait().set().notifiable() <= old(shared).receiver_wait().set().notifiable(),
    {
        if shared.disconnected {
            return (Err(TrySendError::Disconnected(item)), Vec::new());
        }
        if shared.channel.is_full() {
            return (Err(TrySendError::Full(item)), Vec::new());
        }
        shared.channel.push_back(item);
        let woken = shared.notify_after_send();
        (Ok(()), woken)
    }

    /// One poll of a send of `item` by task `task`. A send that waits for room
    /// stays pending until notified. Once it does not wait, it fails with the
    /// value back if every receiver is gone, waits if the channel is full, and
    /// otherwise queues the value behind all others. Returns the outcome and
    /// the tasks to wake.
    pub fn poll_send<T>(&self, shared: &mut Shared<T>, item: T, st: &mut SendWait, task: u64) -> (r: (
        SendPoll<T>,
        Vec<u64>,
    ))
        requires
            old(shared).wf(),
            old(shared).room(),
            registered_wait(old(shared).sender_wait(), old(st).waiting()),
        ensures
            final(shared).wf(),
            registered_wait(final(shared).sender_wait(), final(st).waiting()),
            final(shared).channel().bound() == old(shared).channel().bound(),
            final(shared).is_disconnected() == old(shared).is_disconnected(),
            ({
                let free = old(st).waiting().is_none() || wait_notified(
                    old(shared).sender_wait(),
                    old(st).waiting(),
                );
                &&& !free ==> r.0 == SendPoll::Pending(item) && final(shared).channel() == old(shared).channel() && final(st).waiting().is_some()
                &&& free && old(shared).is_disconnected() ==> r.0 == SendPoll::<T>::Ready(
                    Err(SendError(item)),
                ) && final(shared).channel() == old(shared).channel()
                &&& free && !old(shared).is_disconnected() && old(shared).channel().full() ==> r.0
                    == SendPoll::Pending(item) && final(shared).channel() == old(shared).channel()
                    && final(st).waiting().is_some()
                &&& free && !old(shared).is_disconnected() && !old(shared).channel().full() ==> r.0
                    == SendPoll::<T>::Ready(Ok(())) && final(shared).channel().items() == old(shared).channel().items().push(item) && final(st).waiting().is_none()
                &&& !free ==> final(shared).sender_wait().set().entries() == old(
                    shared,
                ).sender_wait().set().entries().insert(
                    old(st).waiting().unwrap().key().unwrap(),
                    Some(task),
                )
                &&& free && r.0 is Pending ==> {
                    let k = final(st).waiting().unwrap().key().unwrap();
                    let base = after_wait(old(shared).sender_wait(), old(st).waiting());
                    &&& !base.dom().contains(k)
                    &&& final(shared).sender_wait().set().entries() == base.insert(k, Some(task))
                }
                &&& !(free && !old(shared).is_disconnected() && !old(shared).channel().full()) ==> r.1@.len() == 0
                &&& free && !old(shared).is_disconnected() && !old(shared).channel().full() ==> exists|
                    r1: Option<u64>,
                    r2: Option<u64>,
                |
                    #![trigger task_seq(r1), task_seq(r2)]
                    notified_one(old(shared).receiver_wait(), final(shared).receiver_wait(), r1)
                        && notified_least(
                        after_wait(old(shared).sender_wait(), old(st).waiting()),
                        final(shared).sender_wait().set().entries(),
                        r2,
                    ) && r.1@ == task_seq(r1) + task_seq(r2)
            }),
            final(shared).senders() == old(shared).senders(),
            final(shared).receivers() == old(shared).receivers(),
            final(shared).sender_wait().set().notifiable() <= old(shared).sender_wait().set().notifiable() + 1,
            final(shared).receiver_wait().set().notifiable() <= old(shared).receiver_wait().set().notifiable(),
            r.0 is Pending ==> waits_for(final(shared).sender_wait(), final(st).waiting(), task),
    {
        if !wait_done(&mut shared.sender_wait, &mut st.wait, task) {
            return (SendPoll::Pending(item), Vec::new());
        }
        if shared.disconnected {
            return (SendPoll::Ready(Err(SendError(item))), Vec::new());
        }
        if shared.channel.is_full() {
            let mut f = shared.sender_wait.wait(());
            let (_, _) = shared.sender_wait.poll_notify(&mut f, task);
            st.wait = Some(f);
            return (SendPoll::Pending(item), Vec::new());
        }
        shared.channel.push_back(item);
        let woken = shared.notify_after_send();
        (SendPoll::Ready(Ok(())), woken)
    }
}

impl Sender {
    /// Drops a send that may be waiting for room: its wait leaves the
    /// senders' condition variable, and a notification it had received
    /// passes to another waiting sender. Returns that sender's task.
    pub fn cancel_send<T>(&self, shared: &mut Shared<T>, st: SendWait) -> (woken: Option<u64>)
        requires
            old(shared).wf(),
            registered_wait(old(shared).sender_wait(), st.waiting()),
        ensures
            final(shared).wf(),
            final(shared).channel() == old(shared).channel(),
            final(shared).is_disconnected() == old(shared).is_disconnected(),
            final(shared).receiver_wait() == old(shared).receiver_wait(),
            st.waiting().is_none() ==> woken.is_none() && final(shared).sender_wait() == old(shared).sender_wait(),
            st.waiting() matches Some(f) ==> {
                let k = f.key().unwrap();
                let before = old(shared).sender_wait().set().entries();
                &&& before[k] is Some ==> woken.is_none() && final(shared).sender_wait().set().entries()
                    == before.remove(k)
                &&& before[k] is None ==> notified_least(
                    before.remove(k),
                    final(shared).sender_wait().set().entries(),
                    woken,
                )
            },
            final(shared).senders() == old(shared).senders(),
            final(shared).receivers() == old(shared).receivers(),
            final(shared).sender_wait().set().notifiable() <= old(shared).sender_wait().set().notifiable(),
    {
        match st.wait {
            Some(f) => shared.sender_wait.cancel_notify(f),
            None => None,
        }
    }
}

impl Receiver {
    /// Creates another receiver.
    pub fn clone<T>(&self, shared: &mut Shared<T>) -> (r: Receiver)
        ensures
            final(shared).receivers() == (if old(shared).receivers() == usize::MAX { 0 } else { old(shared).receivers() + 1 }),
            final(shared).channel() == old(shared).channel(),
            final(shared).is_disconnected() == old(shared).is_disconnected(),
            final(shared).senders() == old(shared).senders(),
            final(shared).sender_wait() == old(shared).sender_wait(),
            final(shared).receiver_wait() == old(shared).receiver_wait(),
    {
        shared.receiver_cnt = shared.receiver_cnt.wrapping_add(1);
        Receiver {}
    }

    /// Drops this receiver; the last one disconnects the channel. Returns the
    /// tasks to wake.
    pub fn drop<T>(self, shared: &mut Shared<T>) -> (woken: Vec<u64>)
        requires
            old(shared).wf(),
        ensures
            final(shared).wf(),
            final(shared).receivers() == (if old(shared).receivers() == 0 { usize::MAX as nat } else { (old(shared).receivers() - 1) as nat }),
            old(shared).receivers() == 1 ==> final(shared).is_disconnected(),
            old(shared).receivers() != 1 ==> final(shared).is_disconnected() == old(shared).is_disconnected() && woken@.len() == 0
                && final(shared).sender_wait() == old(shared).sender_wait()
                && final(shared).receiver_wait() == old(shared).receiver_wait(),
            old(shared).receivers() == 1 ==> old(shared).disconnected_into(*final(shared), woken@),
            final(shared).channel() == old(shared).channel(),
            final(shared).sender_wait().set().notifiable() <= old(shared).sender_wait().set().notifiable(),
            final(shared).receiver_wait().set().notifiable() <= old(shared).receiver_wait().set().notifiable(),
    {
        let prev = shared.receiver_cnt;
        shared.receiver_cnt = shared.receiver_cnt.wrapping_sub(1);
        if prev == 1 {
            shared.disconnect()
        } else {
            Vec::new()
        }
    }

    /// Attempts to receive at once: the oldest value; or, from an empty
    /// channel, `Disconnected` once every sender is gone and `Empty` before.
    /// Returns the outcome and the tasks to wake.
    pub fn try_recv<T>(&self, shared: &mut Shared<T>) -> (r: (Result<T, TryRecvError>, Vec<u64>))
        requires
            old(shared).wf(),
        ensures
            final(shared).wf(),
            old(shared).channel().items().len() > 0 ==> r.0 == Ok::<T, TryRecvError>(
                old(shared).channel().items()[0],
            ) && final(shared).channel().items() == old(shared).channel().items().subrange(
                1,
                old(shared).channel().items().len() as int,
            ),
            old(shared).channel().items().len() == 0 && old(shared).is_disconnected() ==> r.0
                == Err::<T, TryRecvError>(TryRecvError::Disconnected),
            old(shared).channel().items().len() == 0 && !old(shared).is_disconnected() ==> r.0
                == Err::<T, TryRecvError>(TryRecvError::Empty),
            old(shared).channel().items().len() == 0 ==> final(shared).channel() == old(shared).channel(),
            final(shared).channel().bound() == old(shared).channel().bound(),
            final(shared).is_disconnected() == old(shared).is_disconnected(),
            final(shared).receiver_wait() == old(shared).receiver_wait(),
            old(shared).channel().items().len() == 0 ==> r.1@.len() == 0,
            old(shared).channel().items().len() > 0 ==> exists|r1: Option<u64>|
                #![trigger task_seq(r1)]
                notified_one(old(shared).sender_wait(), final(shared).sender_wait(), r1) && r.1@
                    == task_seq(r1),
            final(shared).senders() == old(shared).senders(),
            final(shared).receivers() == old(shared).receivers(),
            final(shared).sender_wait().set().notifiable() <= old(shared).sender_wait().set().notifiable(),
    {
        match shared.channel.pop_front() {
            Some(item) => {
                let woken = shared.notify_after_recv();
                (Ok(item), woken)
            },
            None => {
                if shared.disconnected {
                    (Err(TryRecvError::Disconnected), Vec::new())
                } else {
                    (Err(TryRecvError::Empty), Vec::new())
                }
            },
        }
    }

    /// One poll of a receive by task `task`. A receive that waits for a value
    /// stays pending until notified. Once it does not wait, it takes the oldest
    /// value; from an empty channel it fails once every sender is gone and
    /// waits before. Returns the outcome (`None` while pending) and the tasks
    /// to wake.
    pub fn poll_recv<T>(&self, shared: &mut Shared<T>, st: &mut RecvWait, task: u64) -> (r: (
        Option<Result<T, RecvError>>,
        Vec<u64>,
    ))
        requires
            old(shared).wf(),
            old(shared).room(),
            registered_wait(old(shared).receiver_wait(), old(st).waiting()),
        ensures
            final(shared).wf(),
            registered_wait(final(shared).receiver_wait(), final(st).waiting()),
            final(shared).channel().bound() == old(shared).channel().bound(),
            final(shared).is_disconnected() == old(shared).is_disconnected(),
            ({
                let free = old(st).waiting().is_none() || wait_notified(
                    old(shared).receiver_wait(),
                    old(st).waiting(),
                );
                let items = old(shared).channel().items();
                &&& !free ==> r.0.is_none() && final(shared).channel() == old(shared).channel()
                &&& free && items.len() > 0 ==> r.0 == Some(Ok::<T, RecvError>(items[0]))
                    && final(shared).channel().items() == items.subrange(1, items.len() as int)
                    && final(st).waiting().is_none()
                &&& free && items.len() == 0 && old(shared).is_disconnected() ==> (r.0 matches Some(Err(_)))
                    && final(shared).channel() == old(shared).channel()
                &&& free && items.len() == 0 && !old(shared).is_disconnected() ==> r.0.is_none()
                    && final(shared).channel() == old(shared).channel() && final(st).waiting().is_some()
                &&& !free ==> final(shared).receiver_wait().set().entries() == old(
                    shared,
                ).receiver_wait().set().entries().insert(
                    old(st).waiting().unwrap().key().unwrap(),
                    Some(task),
                )
                &&& free && r.0.is_none() ==> {
                    let k = final(st).waiting().unwrap().key().unwrap();
                    let base = after_wait(old(shared).receiver_wait(), old(st).waiting());
                    &&& !base.dom().contains(k)
                    &&& final(shared).receiver_wait().set().entries() == base.insert(k, Some(task))
                }
                &&& !(free && items.len() > 0) ==> r.1@.len() == 0
                &&& free && items.len() > 0 ==> exists|r1: Option<u64>|
                    #![trigger task_seq(r1)]
                    notified_one(old(shared).sender_wait(), final(shared).sender_wait(), r1) && r.1@
                        == task_seq(r1)
            }),
            final(shared).senders() == old(shared).senders(),
            final(shared).receivers() == old(shared).receivers(),
            final(shared).sender_wait().set().notifiable() <= old(shared).sender_wait().set().notifiable(),
            final(shared).receiver_wait().set().notifiable() <= old(shared).receiver_wait().set().notifiable() + 1,
            r.0.is_none() ==> waits_for(final(shared).receiver_wait(), final(st).waiting(), task),
    {
        if !wait_done(&mut shared.receiver_wait, &mut st.wait, task) {
            return (None, Vec::new());
        }
        match shared.channel.pop_front() {
            Some(item) => {
                let woken = shared.notify_after_recv();
                (Some(Ok(item)), woken)
            },
            None => {
                if shared.disconnected {
                    return (Some(Err(RecvError(()))), Vec::new());
                }
                let mut f = shared.receiver_wait.wait(());
                let (_, _) = shared.receiver_wait.poll_notify(&mut f, task);
                st.wait = Some(f);
                (None, Vec::new())
            },
        }
    }
}

impl Receiver {
    /// Drops a receive that may be waiting for a value: its wait leaves the
    /// receivers' condition variable, and a notification it had received
    /// passes to another waiting receiver. Returns that receiver's task.
    pub fn cancel_recv<T>(&self, shared: &mut Shared<T>, st: RecvWait) -> (woken: Option<u64>)
        requires
            old(shared).wf(),
            registered_wait(old(shared).receiver_wait(), st.waiting()),
        ensures
            final(shared).wf(),
            final(shared).channel() == old(shared).channel(),
            final(shared).is_disconnected() == old(shared).is_disconnected(),
            final(shared).sender_wait() == old(shared).sender_wait(),
            st.waiting().is_none() ==> woken.is_none() && final(shared).receiver_wait() == old(shared).receiver_wait(),
            st.waiting() matches Some(f) ==> {
                let k = f.key().unwrap();
                let before = old(shared).receiver_wait().set().entries();
                &&& before[k] is Some ==> woken.is_none() && final(shared).receiver_wait().set().entries()
                    == before.remove(k)
                &&& before[k] is None ==> notified_least(
                    before.remove(k),
                    final(shared).receiver_wait().set().entries(),
                    woken,
                )
            },
            final(shared).senders() == old(shared).senders(),
            final(shared).receivers() == old(shared).receivers(),
            final(shared).receiver_wait().set().notifiable() <= old(shared).receiver_wait().set().notifiable(),
    {
        match st.wait {
            Some(f) => shared.receiver_wait.cancel_notify(f),
            None => None,
        }
    }
}


/// Every entry of `cv` but the one of the wait `w` has been notified: no other
/// task waits there.
pub open spec fn sole_waiter(cv: Condvar, w: Option<AwaitNotify<()>>) -> bool {
    forall|k: usize|
        #[trigger] cv.set().entries().dom().contains(k) && k != w.unwrap().key().unwrap()
            ==> cv.set().entries()[k].is_none()
}

/// A receive left pending by task `task` is woken by a send that notifies a
/// waiting receiver (as `try_send` and a successful `poll_send` do, with the
/// tasks `woken`): the send wakes some receiver; where no other receiver
/// waits, it wakes `task` first and leaves the wait notified, so the
/// receive's next poll goes on to take a value.
pub proof fn lemma_send_wakes_pending_receive<T>(
    before: Shared<T>,
    after: Shared<T>,
    w: Option<AwaitNotify<()>>,
    task: u64,
    woken: Seq<u64>,
)
    requires
        before.wf(),
        waits_for(before.receiver_wait(), w, task),
        exists|r1: Option<u64>, r2: Option<u64>|
            #![trigger task_seq(r1), task_seq(r2)]
            notified_one(before.receiver_wait(), after.receiver_wait(), r1) && woken == task_seq(r1)
                + task_seq(r2),
    ensures
        woken.len() >= 1,
        sole_waiter(before.receiver_wait(), w) ==> woken[0] == task && wait_notified(
            after.receiver_wait(),
            w,
        ),
{
    let (r1, r2) = choose|r1: Option<u64>, r2: Option<u64>|
        #![trigger task_seq(r1), task_seq(r2)]
        notified_one(before.receiver_wait(), after.receiver_wait(), r1) && woken == task_seq(r1)
            + task_seq(r2);
    let k = w.unwrap().key().unwrap();
    before.receiver_wait().set().lemma_entries_finite();
    lemma_notify_one_reaches(
        before.receiver_wait().set().entries(),
        after.receiver_wait().set().entries(),
        r1,
        k,
        task,
    );
    assert(woken[0] == r1.unwrap());
}

/// A send left pending by task `task` is woken by a receive that takes a
/// value (as `try_recv` and a successful `poll_recv` do, with the tasks
/// `woken`): the receive wakes one sender; where no other sender waits, that
/// is `task`, and its wait is left notified, so the send's next poll goes on
/// to queue its value.
pub proof fn lemma_receive_wakes_pending_send<T>(
    before: Shared<T>,
    after: Shared<T>,
    w: Option<AwaitNotify<()>>,
    task: u64,
    woken: Seq<u64>,
)
    requires
        before.wf(),
        waits_for(before.sender_wait(), w, task),
        exists|r1: Option<u64>|
            #![trigger task_seq(r1)]
            notified_one(before.sender_wait(), after.sender_wait(), r1) && woken == task_seq(r1),
    ensures
        woken.len() == 1,
        sole_waiter(before.sender_wait(), w) ==> woken == seq![task] && wait_notified(
            after.sender_wait(),
            w,
        ),
{
    let r1 = choose|r1: Option<u64>|
        #![trigger task_seq(r1)]
        notified_one(before.sender_wait(), after.sender_wait(), r1) && woken == task_seq(r1);
    let k = w.unwrap().key().unwrap();
    before.sender_wait().set().lemma_entries_finite();
    lemma_notify_one_reaches(
        before.sender_wait().set().entries(),
        after.sender_wait().set().entries(),
        r1,
        k,
        task,
    );
    if sole_waiter(before.sender_wait(), w) {
        assert(woken =~= seq![task]);
    }
}

/// A receive or send left pending by task `task` is woken when the channel
/// disconnects: `task` is among the tasks woken, and its wait is left
/// notified, so its next poll finishes.
pub proof fn lemma_disconnect_wakes_pending<T>(
    before: Shared<T>,
    after: Shared<T>,
    w: Option<AwaitNotify<()>>,
    task: u64,
    woken: Seq<u64>,
)
    requires
        waits_for(before.receiver_wait(), w, task) || waits_for(before.sender_wait(), w, task),
        before.disconnected_into(after, woken),
    ensures
        woken.contains(task),
        waits_for(before.receiver_wait(), w, task) ==> wait_notified(after.receiver_wait(), w),
        waits_for(before.sender_wait(), w, task) ==> wait_notified(after.sender_wait(), w),
{
    let (a, b) = choose|a: Seq<u64>, b: Seq<u64>|
        #![trigger notified_every(before.receiver_wait(), after.receiver_wait(), a), notified_every(before.sender_wait(), after.sender_wait(), b)]
        notified_every(before.receiver_wait(), after.receiver_wait(), a) && notified_every(
            before.sender_wait(),
            after.sender_wait(),
            b,
        ) && woken == a + b;
    let k = w.unwrap().key().unwrap();
    if waits_for(before.receiver_wait(), w, task) {
        lemma_notify_all_reaches(
            before.receiver_wait().set().entries(),
            after.receiver_wait().set().entries(),
            a,
            k,
            task,
        );
        let i = choose|i: int| 0 <= i < a.len() && a[i] == task;
        assert(woken[i] == task);
    }
    if waits_for(before.sender_wait(), w, task) {
        lemma_notify_all_reaches(
            before.sender_wait().set().entries(),
            after.sender_wait().set().entries(),
            b,
            k,
            task,
        );
        let i = choose|i: int| 0 <= i < b.len() && b[i] == task;
        assert(woken[a.len() + i] == task);
    }
}

} // verus!
