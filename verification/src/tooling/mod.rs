//! Command lines, labels and plans of the benchmark tools.
pub mod catalogue;
pub mod commands;
pub mod complete;
pub mod discovery;
pub mod rounds;
pub mod fleet;
pub mod options;
pub mod manifest;
pub mod paths;
pub mod plans;
pub mod remote;
pub mod runfile;
pub mod runs;
pub mod scenarios;
pub mod search;
pub mod shorthand;
pub mod winners;
