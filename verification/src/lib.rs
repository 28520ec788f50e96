//! A rate limiter by key: sliding-window counters, the limiters that own
//! them, and the text protocol that serves them.
//!
//! The library keeps no clock. Every operation that depends on time takes
//! `now`, a reading in milliseconds of a clock that never runs backwards,
//! and the contracts say what happens for every reading.

pub mod collection;
pub mod config;
pub mod counter;
pub mod handlers;
pub mod maintenance;
pub mod ratelimit;

pub use crate::collection::RatelimitCollection;
pub use crate::config::{HandlersConfig, MCacheConfig};
pub use crate::ratelimit::{Ratelimit, RatelimitInvalidError};
