# mea

Runtime-agnostic synchronization primitives for async Rust, with their
logic verified by Verus.

Each primitive is a state machine in `src/`: a semaphore with a fair queue,
mutexes and reader-writer locks built on it, condition variables, latches,
barriers, wait groups, channels, and the wait lists and queues they share.
Tasks are named by `u64` ids. A future is a plain state value: polling it is
a call that takes the state and the task id, and every call returns the ids
of the tasks to wake. The contracts state what each call returns and how it
changes the state over mathematical views (sequences of queued waiters, maps
of waiting tasks, counts of permits). Where several tasks are woken at once,
the contracts fix the list: queue order for queued waiters, and ascending
order of their keys for waiters kept in a slab (which vacant key a slab hands
out is left open).
The proof functions state the laws that hold across calls, such as mutual
exclusion and the conservation of permits.

Layout:

- `src/`: the verified library.
  - `sem_core.rs`, `semaphore.rs`: the counting semaphore and its wait queue;
    `mutex.rs`, `rwlock.rs` build on it, and `projection.rs` chains the
    projections of their mapped guards.
  - `wait_list.rs`, `wakerset.rs`, `waiters.rs`, `waitset.rs`,
    `countdown.rs`: the waiter collections, kept in `slab::Slab`s or vectors
    (`slots.rs` holds the slab's trusted wrappers).
  - `condvar.rs`, `primitives/`, `latch.rs`, `barrier.rs`, `waitgroup.rs`,
    `wait_group.rs`, `channel.rs`, `mpsc.rs`: the primitives.
  - `wait_queue.rs` (over `crossbeam_queue::SegQueue`) and `lock_queue.rs`
    (a CLH queue in a slab): counters with queues of waiting tasks.
- `tests/`: tests that drive the state machines.
- `app/`: async handles that keep a state machine behind a
  `std::sync::Mutex` with the wakers of its tasks, and implement `Future` and
  `futures_core::Stream` on top of it.
