//! Trigger execution engine: path-state store and diffing, dependency
//! ordering of triggers, environment gating, handler compilation and the
//! decisions of the task runner.
pub mod order;
pub mod depgraph;
pub mod engine;
pub mod format;
pub mod paths;
pub mod pathtimes;
pub mod store;
pub mod trigger;
