//! Verified models of the canonical concurrency primitives: locks, atomics,
//! shared ownership, channels, deadlock avoidance, lock-free stacks and
//! safe memory reclamation.

pub mod arc;
pub mod atomics;
pub mod channels;
pub mod deadlocks;
pub mod epoch_gc;
pub mod hazard_pointers;
pub mod lock_free;
pub mod memory_ordering;
pub mod mutex;
pub mod rwlock;
mod text;
