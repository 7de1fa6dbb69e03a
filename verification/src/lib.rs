//! A dependency-aware task scheduler.
//!
//! Tasks are registered one at a time with the names of the tasks they wait
//! for. Scheduling derives an execution order in which every task comes after
//! all of its dependencies, lays the tasks out back to back on one timeline,
//! and reports a dependency cycle instead of an order when no such order
//! exists.

pub mod degree;
pub mod graph;
mod index;
pub mod laws;
pub mod order;
pub mod scheduler;

pub use scheduler::ScheduleError;
pub use scheduler::Task;
pub use scheduler::TaskScheduler;
