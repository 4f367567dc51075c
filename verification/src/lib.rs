//! A time-delayed message bus: values are handed in with the tick at which they
//! fall due and are handed out once the caller's clock has reached that tick.
//!
//! Messages that are not yet due wait in 32 buckets, each for a range of
//! remaining delays twice as wide as the one before. A tick looks at what was
//! handed in since the last one and at the buckets whose turn it is, so that
//! a message far from its delivery time is looked at rarely.

pub mod bus;
pub mod index;
pub mod laws;
pub mod message;
pub mod model;
mod progress;
mod rows;

pub use bus::Bus;
pub use index::buffer_index_for_time_offset;
pub use message::Message;
