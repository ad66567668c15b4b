//! The queue with blocks of varying length.
pub mod block;
pub mod heads;
pub mod queue;
pub mod slot;
pub mod stock;
pub mod util;
