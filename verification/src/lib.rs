//! A discrete-time simulator of CPU-scheduling policies over multiple
//! priority queues.
//!
//! A fixed set of tasks with known arrival times and processing costs is
//! driven by a logical clock that advances one unit per step. Each tick one
//! of several dispatch disciplines (first-come-first-served,
//! shortest-processing-time, round-robin, multilevel-feedback round-robin)
//! decides which task executes one unit of work and what happens to tasks
//! that do not finish.

pub mod bank;
pub mod policy;
pub mod sim;
pub mod task;

pub use crate::bank::QueueList;
pub use crate::bank::add_result;
pub use crate::bank::add_task;
pub use crate::bank::create_queue_list;
pub use crate::bank::dispatced_queue_id;
pub use crate::bank::dispatch_task;
pub use crate::policy::Algorithm;
pub use crate::sim::fetch_new_tasks;
pub use crate::sim::run_simulator;
pub use crate::task::State;
pub use crate::task::Task;
pub use crate::task::TaskResult;
