//! The unit of work (`Task`), its mutable execution state, and the
//! immutable record (`TaskResult`) derived from a task when it finishes.

use vstd::prelude::*;

verus! {

/// Execution state of a task. The state is advisory: it records how the
/// task last moved through the system but never influences a scheduling
/// decision.
#[derive(Debug, PartialEq, Eq, Structural, Clone, Copy)]
pub enum State {
    /// Dispatched on the immediately preceding tick.
    Execution,
    /// Not yet arrived.
    Waiting,
    /// Arrived or preempted, sitting in a queue.
    Executable,
}

/// The unit of work: fixed identity (`name`, `arrival`, `cost`, `priority`)
/// plus the execution state mutated as the simulation runs.
#[derive(Debug, PartialEq, Clone, Copy)]
pub struct Task {
    /// Immutable label, unique within a run.
    pub name: &'static str,
    /// Tick at which the task becomes eligible to enter a queue.
    pub arrival: u32,
    /// Total ticks of processing required.
    pub cost: u32,
    /// Ticks already executed; at most `cost` while the task is queued.
    pub processed: u32,
    /// Index into the queue bank at which the task first enters.
    pub priority: u32,
    /// Ticks executed since the task last (re-)entered its queue position;
    /// used only by round-robin policies.
    pub round: u32,
    /// Advisory execution state.
    pub state: State,
}

/// Record of a finished task: the identity fields copied from the source
/// task at the moment it finished, plus the finish tick and the turnaround.
#[derive(Debug, PartialEq, Clone, Copy)]
pub struct TaskResult {
    /// Label copied from the finished task.
    pub name: &'static str,
    /// Arrival tick copied from the finished task.
    pub arrive: u32,
    /// Processing cost copied from the finished task.
    pub cost: u32,
    /// Queue-bank index copied from the finished task.
    pub priority: u32,
    /// Tick at which the task's last unit of work completed.
    pub finish: u32,
    /// `finish - arrive`: total time spent in the system.
    pub turnaround: u32,
}

/// The identity of a task: the fields that never change while it moves
/// between the pending list, a queue, and the result list.
pub open spec fn task_key(t: Task) -> (Seq<char>, u32, u32, u32) {
    (t.name@, t.arrival, t.cost, t.priority)
}

/// The identity a result carries, matching [`task_key`] of its source task.
pub open spec fn result_key(r: TaskResult) -> (Seq<char>, u32, u32, u32) {
    (r.name@, r.arrive, r.cost, r.priority)
}

/// The result derived from `t` at finish tick `finish`.
pub open spec fn spec_result_of(t: Task, finish: int) -> TaskResult {
    TaskResult {
        name: t.name,
        arrive: t.arrival,
        cost: t.cost,
        priority: t.priority,
        finish: finish as u32,
        turnaround: (finish - t.arrival) as u32,
    }
}

/// The task after executing one unit of work: `processed` grows by one
/// and the state records that it was just running.
pub open spec fn exec_unit(t: Task) -> Task {
    Task { processed: (t.processed + 1) as u32, state: State::Execution, ..t }
}

impl Task {
    /// A fresh task: nothing processed, round counter zero, still waiting.
    pub fn new(name: &'static str, arrival: u32, cost: u32, priority: u32) -> (t: Task)
        ensures
            t == (Task {
                name,
                arrival,
                cost,
                processed: 0,
                priority,
                round: 0,
                state: State::Waiting,
            }),
    {
        Task { name, arrival, cost, processed: 0, round: 0, priority, state: State::Waiting }
    }
}

impl TaskResult {
    /// The record of `task` finishing at tick `finish`.
    ///
    /// `finish` must not precede the task's arrival, else the turnaround
    /// would be negative.
    pub fn new(task: Task, finish: u32) -> (r: TaskResult)
        requires
            task.arrival <= finish,
        ensures
            r == spec_result_of(task, finish as int),
    {
        TaskResult {
            name: task.name,
            arrive: task.arrival,
            cost: task.cost,
            priority: task.priority,
            finish,
            turnaround: finish - task.arrival,
        }
    }
}

} // verus!
