//! Runs a set of tasks that depend on one another.
//!
//! Tasks are numbered `0..n`; an edge `(subject, dependent)` says that
//! `dependent` may start only once `subject` has finished. The
//! [`DependencyGraph`] holds that structure, and a [`Schedule`] is one run
//! over it: it decides which tasks start, when, and how a failure spreads to
//! the tasks that depend on the failed one. The driver that actually executes
//! the tasks reports each outcome back to the schedule.

mod graph;
mod lists;
mod shared;
mod traits;

pub use graph::{DependencyGraph, Launch, Schedule, TaskFailed};
pub use shared::ExecOptions;
pub use traits::Executable;
