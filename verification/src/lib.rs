//! A bounded, time-limited cache.
//!
//! [`InnerLocalCache`] is the single-threaded engine: a key index over an
//! arena of entries that are threaded onto two lists at once, one in order of
//! use and one in order of insertion. [`LocalCache`] shares one engine between
//! threads behind an exclusive lock and stamps every operation with the
//! current Unix time.
pub mod cache;
pub mod clock;
pub mod engine;
pub mod index_list;
pub mod laws;
pub mod model;
pub mod seqs;
mod store;

pub use crate::cache::LocalCache;
pub use crate::engine::InnerLocalCache;
