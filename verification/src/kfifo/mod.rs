//! The single-producer shard queue and the channel built from shards.
pub mod attempt;
pub mod head;
pub mod lubq;
pub mod queue;
