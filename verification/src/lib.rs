//! A player rotation queue for arcade games.
//!
//! Players join a single waiting line; the queue yields the next player or
//! the next fixed-size group for a round, optionally cycling them back to
//! the end of the line.

pub mod laws;
pub mod queue;
pub mod render;
pub mod rotation;

pub use queue::Queue;
pub use queue::QueueError;
