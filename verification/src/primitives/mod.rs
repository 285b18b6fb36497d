//! The primitives built on a condition variable whose waiters are kept in a
//! notification set.
pub mod condvar;
pub mod mutex;
