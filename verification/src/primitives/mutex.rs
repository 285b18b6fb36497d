//! The mutex these primitives share with the rest of the crate.
pub use crate::mutex::{Mutex, MutexGuard};
