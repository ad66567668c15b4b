//! The log of a process that keeps none: nothing is remembered, and every
//! question has the same answer.
use vstd::prelude::*;

use crate::debug::logger::LogEntry;

verus! {

/// The latest messages: there are none.
pub fn take() -> (entries: Vec<LogEntry>)
    ensures
        entries@ == Seq::<LogEntry>::empty(),
{
    Vec::new()
}

/// The latest messages: there are none.
pub fn snapshot() -> (entries: Vec<LogEntry>)
    ensures
        entries@ == Seq::<LogEntry>::empty(),
{
    Vec::new()
}

/// Threads are not told apart.
pub fn thread_id() -> (id: u64)
    ensures
        id == 0,
{
    0
}

/// Labels are not kept.
pub fn thread_label() -> (label: Option<String>)
    ensures
        label is None,
{
    None
}

/// The time is not kept.
pub fn elapsed_ns() -> (elapsed: u64)
    ensures
        elapsed == 0,
{
    0
}

/// The file of a log that is not written: none.
pub fn flush_to_dir() -> (path: String)
    ensures
        path@ == Seq::<char>::empty(),
{
    String::new()
}

} // verus!
