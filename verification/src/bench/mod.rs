//! What the benchmarks compute around what they measure.
pub mod blocks;
pub mod crew;
pub mod hex;
pub mod incr;
pub mod increments;
pub mod numbers;
pub mod profile;
pub mod reload;
pub mod roles;
pub mod trial;
pub mod updater;
pub mod updates;
pub mod sweep;
pub mod uring;
