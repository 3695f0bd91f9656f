//! The queue bank — an ordered sequence of (queue, policy) pairs indexed by
//! priority level — and the dispatcher that advances it by one tick.

use std::collections::VecDeque;

use vstd::prelude::*;

use crate::policy::Algorithm;
use crate::policy::queue_insert_spec;
use crate::policy::spt_pass_from;
use crate::policy::spt_swap_at;
use crate::task::State;
use crate::task::Task;
use crate::task::TaskResult;
use crate::task::exec_unit;
use crate::task::spec_result_of;

verus! {

/// The queue bank: one FIFO double-ended queue per priority level, each
/// paired with the policy that governs it. Lower index means strictly
/// higher priority.
pub type QueueList = Vec<(VecDeque<Task>, Algorithm)>;

/// The queue contents of a bank, level by level.
pub open spec fn queues_of(ql: Seq<(VecDeque<Task>, Algorithm)>) -> Seq<Seq<Task>> {
    Seq::new(ql.len(), |i: int| ql[i].0@)
}

/// The policies of a bank, level by level.
pub open spec fn pols_of(ql: Seq<(VecDeque<Task>, Algorithm)>) -> Seq<Algorithm> {
    Seq::new(ql.len(), |i: int| ql[i].1)
}

/// `n` empty queues.
pub open spec fn empty_queues(n: nat) -> Seq<Seq<Task>> {
    Seq::new(n, |i: int| Seq::<Task>::empty())
}

/// The queues after `t` is inserted at its priority level under that
/// level's policy.
pub open spec fn bank_insert(qs: Seq<Seq<Task>>, pols: Seq<Algorithm>, t: Task) -> Seq<
    Seq<Task>,
> {
    qs.update(t.priority as int, queue_insert_spec(qs[t.priority as int], pols[t.priority as int], t))
}

/// The lowest index of a nonempty queue, if any: the priority arbitration
/// rule of the bank.
pub open spec fn first_nonempty(qs: Seq<Seq<Task>>) -> Option<int>
    decreases qs.len(),
{
    if qs.len() == 0 {
        None
    } else if qs[0].len() > 0 {
        Some(0)
    } else {
        match first_nonempty(qs.drop_first()) {
            None => None,
            Some(i) => Some(i + 1),
        }
    }
}

/// A queued task under `pol` keeps its processing incomplete, and its
/// round counter is live only under a round-robin policy and then strictly
/// below the quantum.
pub open spec fn task_slot_ok(t: Task, pol: Algorithm) -> bool {
    &&& t.processed < t.cost
    &&& (t.round == 0 || (match pol {
        Algorithm::RoundRobin(quantum, _) => t.round < quantum,
        _ => false,
    }))
}

/// Every task of one queue is in a valid slot for the queue's policy.
pub open spec fn queue_ok(q: Seq<Task>, pol: Algorithm) -> bool {
    forall|j: int| 0 <= j < q.len() ==> task_slot_ok(#[trigger] q[j], pol)
}

/// Every task of one queue has done at most `time - arrival` units of
/// work: a task cannot have executed before arriving, nor more than once
/// per tick.
pub open spec fn queue_time_ok(q: Seq<Task>, time: int) -> bool {
    forall|j: int| 0 <= j < q.len() ==> (#[trigger] q[j]).arrival + q[j].processed <= time
}

/// Well-formedness of a bank: as many policies as queues, and every queued
/// task is in a valid slot for its level's policy.
pub open spec fn bank_ok(qs: Seq<Seq<Task>>, pols: Seq<Algorithm>) -> bool {
    &&& qs.len() == pols.len()
    &&& forall|l: int| 0 <= l < qs.len() ==> queue_ok(#[trigger] qs[l], pols[l])
}

/// [`queue_time_ok`] at every level of a bank.
pub open spec fn time_ok(qs: Seq<Seq<Task>>, time: int) -> bool {
    forall|l: int| 0 <= l < qs.len() ==> queue_time_ok(#[trigger] qs[l], time)
}

/// The result list delta of one tick: empty, or the one finished task.
pub open spec fn opt_result_seq(o: Option<TaskResult>) -> Seq<TaskResult> {
    match o {
        None => Seq::empty(),
        Some(r) => seq![r],
    }
}

/// One tick of the dispatcher over the queue contents: select the
/// highest-priority nonempty queue, execute one unit of work at its head,
/// and either emit the finished task as a result or requeue it as the
/// level's policy demands.
pub open spec fn dispatch_step(qs: Seq<Seq<Task>>, pols: Seq<Algorithm>, time: int) -> (Seq<
    Seq<Task>,
>, Option<TaskResult>) {
    match first_nonempty(qs) {
        None => (qs, None),
        Some(id) => {
            let t = exec_unit(qs[id][0]);
            let rest = qs[id].drop_first();
            if t.cost <= t.processed {
                (qs.update(id, rest), Some(spec_result_of(t, time + 1)))
            } else {
                match pols[id] {
                    Algorithm::ArrivalOrder => (qs.update(id, seq![t] + rest), None),
                    Algorithm::ProcessingTimeOrder => (qs.update(id, seq![t] + rest), None),
                    Algorithm::RoundRobin(quantum, feedback) => {
                        let t2 = Task { round: (t.round + 1) as u32, ..t };
                        if t2.round >= quantum {
                            let t3 = Task { round: 0, state: State::Executable, ..t2 };
                            if feedback && id + 1 < qs.len() {
                                (qs.update(id, rest).update(id + 1, qs[id + 1].push(t3)), None)
                            } else {
                                (qs.update(id, rest.push(t3)), None)
                            }
                        } else {
                            (qs.update(id, seq![t2] + rest), None)
                        }
                    },
                }
            }
        },
    }
}

/// When a queue at index `i` is nonempty and all queues before it are
/// empty, `i` is the selected level.
pub proof fn lemma_first_nonempty_found(qs: Seq<Seq<Task>>, i: int)
    requires
        0 <= i < qs.len(),
        forall|j: int| 0 <= j < i ==> qs[j].len() == 0,
        qs[i].len() > 0,
    ensures
        first_nonempty(qs) == Some(i),
    decreases qs.len(),
{
    if i == 0 {
    } else {
        lemma_first_nonempty_found(qs.drop_first(), i - 1);
    }
}

/// When every queue is empty, no level is selected.
pub proof fn lemma_first_nonempty_none(qs: Seq<Seq<Task>>)
    requires
        forall|j: int| 0 <= j < qs.len() ==> qs[j].len() == 0,
    ensures
        first_nonempty(qs) is None,
    decreases qs.len(),
{
    if qs.len() > 0 {
        lemma_first_nonempty_none(qs.drop_first());
    }
}

/// What selection means: a selected level is in range, nonempty, and the
/// first such; no selection means every queue is empty.
pub proof fn lemma_first_nonempty_props(qs: Seq<Seq<Task>>)
    ensures
        match first_nonempty(qs) {
            Some(i) => 0 <= i < qs.len() && qs[i].len() > 0 && (forall|j: int|
                0 <= j < i ==> qs[j].len() == 0),
            None => forall|j: int| 0 <= j < qs.len() ==> qs[j].len() == 0,
        },
    decreases qs.len(),
{
    if qs.len() == 0 {
    } else if qs[0].len() > 0 {
    } else {
        let rest = qs.drop_first();
        lemma_first_nonempty_props(rest);
        match first_nonempty(rest) {
            Some(i) => {
                assert forall|j: int| 0 <= j < i + 1 implies qs[j].len() == 0 by {
                    if j >= 1 {
                        assert(qs[j] == rest[j - 1]);
                    }
                }
            },
            None => {
                assert forall|j: int| 0 <= j < qs.len() implies qs[j].len() == 0 by {
                    if j >= 1 {
                        assert(qs[j] == rest[j - 1]);
                    }
                }
            },
        }
    }
}

/// The policy stored at level `p`.
fn policy_at(queue_list: &QueueList, p: usize) -> (a: Algorithm)
    requires
        p < queue_list@.len(),
    ensures
        a == queue_list@[p as int].1,
{
    queue_list[p].1
}

/// A mutable borrow of the queue at level `p`; the bank afterwards holds
/// whatever the caller leaves in the borrow, under the unchanged policy.
fn queue_at(queue_list: &mut QueueList, p: usize) -> (q: &mut VecDeque<Task>)
    requires
        p < old(queue_list)@.len(),
    ensures
        *q == old(queue_list)@[p as int].0,
        final(queue_list)@ == old(queue_list)@.update(
            p as int,
            (*final(q), old(queue_list)@[p as int].1),
        ),
{
    &mut queue_list[p].0
}

/// A bank with one empty queue per given policy, in order.
pub fn create_queue_list(algorithm_list: Vec<Algorithm>) -> (r: QueueList)
    ensures
        r@.len() == algorithm_list@.len(),
        pols_of(r@) == algorithm_list@,
        queues_of(r@) == empty_queues(algorithm_list@.len()),
{
    let n = algorithm_list.len();
    let mut queue_list: QueueList = Vec::with_capacity(n);
    let mut i: usize = 0;
    while i < n
        invariant
            n == algorithm_list@.len(),
            i <= n,
            queue_list@.len() == i,
            forall|j: int|
                0 <= j < i ==> (#[trigger] queue_list@[j]).1 == algorithm_list@[j]
                    && queue_list@[j].0@ == Seq::<Task>::empty(),
        decreases n - i,
    {
        queue_list.push((VecDeque::new(), algorithm_list[i]));
        i = i + 1;
    }
    proof {
        assert(pols_of(queue_list@) =~= algorithm_list@);
        assert(queues_of(queue_list@) =~= empty_queues(algorithm_list@.len()));
    }
    queue_list
}

/// Exchange the queue entries at positions `i - 1` and `i`.
fn swap_adjacent(q: &mut VecDeque<Task>, i: usize)
    requires
        1 <= i < old(q)@.len(),
    ensures
        final(q)@ == old(q)@.update(i - 1, old(q)@[i as int]).update(i as int, old(q)@[i - 1]),
{
    let x = q.remove(i).unwrap();
    q.insert(i - 1, x);
    proof {
        assert(q@ =~= old(q)@.update(i - 1, old(q)@[i as int]).update(i as int, old(q)@[i - 1]));
    }
}

/// Insert `task` into the queue at its priority level, consistent with the
/// level's policy: append to the tail, then — only under
/// shortest-processing-time — run the swap pass toward the head.
pub fn add_task(queue_list: &mut QueueList, task: Task)
    requires
        (task.priority as int) < old(queue_list)@.len(),
    ensures
        final(queue_list)@.len() == old(queue_list)@.len(),
        pols_of(final(queue_list)@) == pols_of(old(queue_list)@),
        queues_of(final(queue_list)@) == bank_insert(
            queues_of(old(queue_list)@),
            pols_of(old(queue_list)@),
            task,
        ),
{
    let ghost qs0 = queues_of(old(queue_list)@);
    let ghost pols0 = pols_of(old(queue_list)@);
    let p = task.priority as usize;
    let algorithm = policy_at(queue_list, p);
    let queue = queue_at(queue_list, p);
    queue.push_back(task);
    match algorithm {
        Algorithm::ArrivalOrder => (),
        Algorithm::ProcessingTimeOrder => {
            let ghost q0 = queue@;
            let len = queue.len();
            let mut i: usize = len;
            while i > 2
                invariant
                    i <= len,
                    len == queue@.len(),
                    spt_pass_from(queue@, i - 1) == spt_pass_from(
                        q0,
                        len - 1,
                    ),
                decreases i,
            {
                i = i - 1;
                let ghost q_before = queue@;
                if queue[i].cost < queue[i - 1].cost {
                    swap_adjacent(queue, i);
                }
                proof {
                    assert(queue@ == spt_swap_at(q_before, i as int));
                    assert(spt_pass_from(q_before, i as int)
                        == spt_pass_from(queue@, i as int - 1));
                }
            }
            proof {
                assert(spt_pass_from(queue@, i - 1) == queue@);
            }
        },
        Algorithm::RoundRobin(..) => (),
    }
    proof {
        assert(queues_of(queue_list@) =~= bank_insert(qs0, pols0, task));
        assert(pols_of(queue_list@) =~= pols_of(old(queue_list)@));
    }
}

/// Append the record of `task`, finished on the tick that began at `time`,
/// to the result list; the finish tick is `time + 1`.
pub fn add_result(results: &mut Vec<TaskResult>, time: u32, task: Task)
    requires
        task.arrival <= time,
        time < u32::MAX,
    ensures
        final(results)@ == old(results)@.push(spec_result_of(task, time + 1)),
{
    let finish_time = time + 1;
    results.push(TaskResult::new(task, finish_time));
}

/// Pop the head task of a queue and execute one unit of its work.
///
/// Returns `None` when the queue is empty, else the task (now marked as
/// executing, with `processed` grown by one) and whether it finished.
fn dispatch(task_queue: &mut VecDeque<Task>) -> (r: Option<(Task, bool)>)
    requires
        old(task_queue)@.len() > 0 ==> old(task_queue)@[0].processed < old(task_queue)@[0].cost,
    ensures
        old(task_queue)@.len() == 0 ==> r is None && final(task_queue)@ == old(task_queue)@,
        old(task_queue)@.len() > 0 ==> {
            &&& final(task_queue)@ == old(task_queue)@.drop_first()
            &&& r == Some(
                (
                    exec_unit(old(task_queue)@[0]),
                    old(task_queue)@[0].cost <= old(task_queue)@[0].processed + 1,
                ),
            )
        },
{
    if let Some(mut task) = task_queue.pop_front() {
        task.state = State::Execution;
        task.processed = task.processed + 1;
        proof {
            assert(task_queue@ =~= old(task_queue)@.drop_first());
        }
        if task.cost <= task.processed {
            Some((task, true))
        } else {
            Some((task, false))
        }
    } else {
        None
    }
}

/// Advance the bank by one tick at `time`: execute one unit of work at the
/// head of the highest-priority nonempty queue, append the task to the
/// results when it finished, and otherwise requeue it as the level's
/// policy demands (continue at the head; on round-robin quantum expiry
/// requeue at the tail, or demote one level under feedback). An idle bank
/// is left unchanged.
pub fn dispatch_task(queue_list: &mut QueueList, time: u32, results: &mut Vec<TaskResult>)
    requires
        bank_ok(queues_of(old(queue_list)@), pols_of(old(queue_list)@)),
        time_ok(queues_of(old(queue_list)@), time as int),
        time < u32::MAX,
    ensures
        final(queue_list)@.len() == old(queue_list)@.len(),
        pols_of(final(queue_list)@) == pols_of(old(queue_list)@),
        queues_of(final(queue_list)@) == dispatch_step(
            queues_of(old(queue_list)@),
            pols_of(old(queue_list)@),
            time as int,
        ).0,
        final(results)@ == old(results)@ + opt_result_seq(
            dispatch_step(queues_of(old(queue_list)@), pols_of(old(queue_list)@), time as int).1,
        ),
{
    let ghost qs0 = queues_of(old(queue_list)@);
    let ghost pols0 = pols_of(old(queue_list)@);
    let ghost step = dispatch_step(qs0, pols0, time as int);
    if let Some(id) = dispatced_queue_id(queue_list) {
        proof {
            lemma_first_nonempty_props(qs0);
            assert(task_slot_ok(qs0[id as int][0], pols0[id as int]));
            assert(qs0[id as int][0].arrival + qs0[id as int][0].processed <= time);
        }
        let queue_list_len = queue_list.len();
        let algorithm = policy_at(queue_list, id);
        match algorithm {
            Algorithm::ArrivalOrder => {
                let queue = queue_at(queue_list, id);
                match dispatch(queue) {
                    Some((task, true)) => add_result(results, time, task),
                    Some((task, false)) => queue.push_front(task),
                    None => (),
                }
            },
            Algorithm::ProcessingTimeOrder => {
                let queue = queue_at(queue_list, id);
                match dispatch(queue) {
                    Some((task, true)) => add_result(results, time, task),
                    Some((task, false)) => queue.push_front(task),
                    None => (),
                }
            },
            Algorithm::RoundRobin(time_quantum, feedback) => {
                let queue = queue_at(queue_list, id);
                match dispatch(queue) {
                    Some((task, true)) => add_result(results, time, task),
                    Some((mut task, false)) => {
                        task.round = task.round + 1;
                        if task.round >= time_quantum {
                            task.round = 0;
                            task.state = State::Executable;
                            if feedback && id < queue_list_len - 1 {
                                let next_queue = queue_at(queue_list, id + 1);
                                next_queue.push_back(task);
                            } else {
                                queue.push_back(task);
                            }
                        } else {
                            queue.push_front(task);
                        }
                    },
                    None => (),
                }
            },
        }
    }
    proof {
        assert(queues_of(queue_list@) =~= step.0);
        assert(results@ =~= old(results)@ + opt_result_seq(step.1));
        assert(pols_of(queue_list@) =~= pols_of(old(queue_list)@));
    }
}

/// The lowest-index queue level holding at least one task, or `None` when
/// the bank is idle.
pub fn dispatced_queue_id(queue_list: &QueueList) -> (r: Option<usize>)
    ensures
        match r {
            Some(id) => id < queue_list@.len() && first_nonempty(queues_of(queue_list@)) == Some(
                id as int,
            ),
            None => first_nonempty(queues_of(queue_list@)) is None,
        },
{
    let ghost qs = queues_of(queue_list@);
    let n = queue_list.len();
    let mut i: usize = 0;
    while i < n
        invariant
            n == queue_list@.len(),
            i <= n,
            qs == queues_of(queue_list@),
            forall|j: int| 0 <= j < i ==> qs[j].len() == 0,
        decreases n - i,
    {
        if queue_list[i].0.len() > 0 {
            proof {
                lemma_first_nonempty_found(qs, i as int);
            }
            return Some(i);
        }
        i = i + 1;
    }
    proof {
        lemma_first_nonempty_none(qs);
    }
    None
}

} // verus!
