//! A single-threaded reactor and a family of lazy, pull-based byte streams.

pub mod error;
pub mod misc;
pub mod reactor;
pub mod stream;

pub use reactor::{Action, Disk, Event, Instant, Registration, Timer, UID};
