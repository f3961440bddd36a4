//! Transposition stores: verified key-value maps from canonical position
//! keys to cached search outcomes.

pub mod base;
pub mod in_memory;
pub mod in_momory;
pub mod no_lock;

pub use base::{StoreKey, DB};
pub use no_lock::NoLockDB;
