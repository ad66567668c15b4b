//! Block-structured unbounded queues and the tooling that measures them.
pub mod bench;
pub mod block;
pub mod cursor;
pub mod debug;
pub mod dynamic;
pub mod inner;
pub mod jni;
pub mod kfifo;
pub mod layout;
pub mod order;
pub mod packed;
pub mod page;
pub mod position;
pub mod queue;
pub mod sleepers;
pub mod sleepq;
pub mod slot;
pub mod tally;
pub mod text;
pub mod tooling;
