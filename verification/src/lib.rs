//! Runtime-agnostic synchronization primitives, as verified state machines.
pub mod slots;
pub mod wait_list;
pub mod sums;
pub mod sem_core;
pub mod semaphore;
pub mod mutex;
pub mod projection;
pub mod rwlock;
pub mod countdown;
pub mod latch;
pub mod waitgroup;
pub mod waitset;
pub mod barrier;
pub mod waiters;
pub mod wait_group;
pub mod wakerset;
pub mod primitives;
pub mod condvar;
pub mod mpsc;
pub mod channel;
pub mod wait_queue;
pub mod lock_queue;
