//! The closed set of scheduling disciplines and the insertion order each
//! one imposes on a queue.

use vstd::prelude::*;

use crate::task::Task;

verus! {

/// A scheduling discipline for one queue of the bank.
#[derive(Debug, Clone, Copy)]
pub enum Algorithm {
    /// First-come-first-served: tasks run in the order they entered.
    ArrivalOrder,
    /// Shortest processing time first: after each insertion a localized
    /// swap pass keeps the queue approximately cost-ascending.
    ProcessingTimeOrder,
    /// Fixed quantum; the flag selects multilevel feedback (demotion to the
    /// next queue level on timeout) instead of requeueing at the same level.
    RoundRobin(u32, bool),
}

/// One step of the shortest-processing-time swap pass: exchange positions
/// `i - 1` and `i` when the task at `i` costs strictly less.
pub open spec fn spt_swap_at(q: Seq<Task>, i: int) -> Seq<Task>
    recommends
        1 <= i < q.len(),
{
    if q[i].cost < q[i - 1].cost {
        q.update(i - 1, q[i]).update(i, q[i - 1])
    } else {
        q
    }
}

/// The swap pass applied at positions `i`, `i - 1`, ..., `2`, in that
/// order, moving a cheap task from the tail toward the head. The pass
/// deliberately never compares positions 0 and 1: a queue can therefore be
/// left not fully sorted, an asymmetry kept for compatibility.
pub open spec fn spt_pass_from(q: Seq<Task>, i: int) -> Seq<Task>
    decreases i,
{
    if i < 2 {
        q
    } else {
        spt_pass_from(spt_swap_at(q, i), i - 1)
    }
}

/// The queue after a shortest-processing-time insertion of `t`: append,
/// then run the swap pass from the new tail.
pub open spec fn spt_insert(q: Seq<Task>, t: Task) -> Seq<Task> {
    spt_pass_from(q.push(t), q.len() as int)
}

/// The queue after inserting `t` under `pol`: round-robin and
/// first-come-first-served append to the tail; shortest-processing-time
/// additionally runs its swap pass.
pub open spec fn queue_insert_spec(q: Seq<Task>, pol: Algorithm, t: Task) -> Seq<Task> {
    match pol {
        Algorithm::ArrivalOrder => q.push(t),
        Algorithm::ProcessingTimeOrder => spt_insert(q, t),
        Algorithm::RoundRobin(_, _) => q.push(t),
    }
}

} // verus!
