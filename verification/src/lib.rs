//! Asynchronous locks built on a spin-and-wake protocol.
//!
//! Each lock here is the verified decision logic of an async lock: the state it
//! keeps, what an attempt to acquire it decides, and what releasing it does.
//! The futures and guards are plain tokens; every step takes the lock it acts on.

pub mod task;
pub mod ticket;
pub mod inner;
pub mod mutex;
pub mod mutex_ordered;
pub mod mutex_unordered;
pub mod rwlock;
pub mod rwlock_ordered;
