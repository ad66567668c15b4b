//! A log that a thread of its own writes, and what that thread decides.
pub mod config;
pub mod logger;
pub mod quiet;
pub mod wheel;

pub use crate::debug::logger::{
    clear_thread_label, elapsed_ns, flush, flush_to_dir, init, log_tagged, maybe_flush,
    prepare_log_dir, register, set_thread_label, shutdown, snapshot, take, thread_id, thread_label,
    write_to_dir, LogEntry, Logger, Registration, ThreadLog,
};
