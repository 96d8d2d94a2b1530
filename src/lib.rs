//! A small build orchestrator's core: a dependency graph over the targets of a
//! manifest (with duplicate, dangling-reference and cycle detection), staleness
//! decisions over modification times, and the scheduling state machine that a
//! parallel executor runs.

pub mod backend;
pub mod config;
pub mod executor;
pub mod graph;
pub mod order;
pub mod paths;
pub mod staleness;
