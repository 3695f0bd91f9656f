//! The simulation loop: the pending-arrivals list, the per-tick driver,
//! and the accounting (task conservation, remaining work, clock bounds)
//! that the loop's guarantees rest on.

use std::collections::VecDeque;

use vstd::multiset::Multiset;
use vstd::prelude::*;

use crate::bank::QueueList;
use crate::bank::add_task;
use crate::bank::bank_insert;
use crate::bank::bank_ok;
use crate::bank::dispatch_step;
use crate::bank::dispatch_task;
use crate::bank::empty_queues;
use crate::bank::first_nonempty;
use crate::bank::lemma_first_nonempty_props;
use crate::bank::opt_result_seq;
use crate::bank::pols_of;
use crate::bank::queue_ok;
use crate::bank::queue_time_ok;
use crate::bank::queues_of;
use crate::bank::task_slot_ok;
use crate::bank::time_ok;
use crate::policy::Algorithm;
use crate::policy::queue_insert_spec;
use crate::policy::spt_pass_from;
use crate::policy::spt_swap_at;
use crate::task::State;
use crate::task::Task;
use crate::task::TaskResult;
use crate::task::exec_unit;
use crate::task::result_key;
use crate::task::spec_result_of;
use crate::task::task_key;

verus! {

broadcast use {vstd::multiset::group_multiset_axioms, vstd::multiset::group_multiset_properties};

/// The identity record tasks and results are counted by.
pub type Key = (Seq<char>, u32, u32, u32);

/// The multiset of task identities in a queue or list.
pub open spec fn key_mset(q: Seq<Task>) -> Multiset<Key>
    decreases q.len(),
{
    if q.len() == 0 {
        Multiset::empty()
    } else {
        key_mset(q.drop_first()).insert(task_key(q[0]))
    }
}

/// The multiset of task identities a result list accounts for.
pub open spec fn rkey_mset(rs: Seq<TaskResult>) -> Multiset<Key>
    decreases rs.len(),
{
    if rs.len() == 0 {
        Multiset::empty()
    } else {
        rkey_mset(rs.drop_first()).insert(result_key(rs[0]))
    }
}

/// Units of work a task still owes.
pub open spec fn task_work(t: Task) -> int {
    if t.processed <= t.cost {
        t.cost - t.processed
    } else {
        0
    }
}

/// Units of work still owed by the tasks of one queue or list.
pub open spec fn work_q(q: Seq<Task>) -> int
    decreases q.len(),
{
    if q.len() == 0 {
        0
    } else {
        task_work(q[0]) + work_q(q.drop_first())
    }
}

/// The task identities held across a whole bank.
pub open spec fn key_mset_bank(qs: Seq<Seq<Task>>) -> Multiset<Key>
    decreases qs.len(),
{
    if qs.len() == 0 {
        Multiset::empty()
    } else {
        key_mset(qs[0]).add(key_mset_bank(qs.drop_first()))
    }
}

/// Units of work still owed across a whole bank.
pub open spec fn work_bank(qs: Seq<Seq<Task>>) -> int
    decreases qs.len(),
{
    if qs.len() == 0 {
        0
    } else {
        work_q(qs[0]) + work_bank(qs.drop_first())
    }
}

/// How many tasks a whole bank holds.
pub open spec fn queued_count(qs: Seq<Seq<Task>>) -> int
    decreases qs.len(),
{
    if qs.len() == 0 {
        0
    } else {
        qs[0].len() + queued_count(qs.drop_first())
    }
}

/// Appending a task adds exactly its identity and its owed work.
pub proof fn lemma_q_push(q: Seq<Task>, t: Task)
    ensures
        key_mset(q.push(t)) == key_mset(q).insert(task_key(t)),
        work_q(q.push(t)) == work_q(q) + task_work(t),
        q.push(t).len() == q.len() + 1,
    decreases q.len(),
{
    let s = q.push(t);
    assert(s[0] == if q.len() == 0 {
        t
    } else {
        q[0]
    });
    assert(key_mset(s) == key_mset(s.drop_first()).insert(task_key(s[0])));
    assert(work_q(s) == task_work(s[0]) + work_q(s.drop_first()));
    if q.len() == 0 {
        assert(s.drop_first() =~= Seq::<Task>::empty());
        assert(key_mset(Seq::<Task>::empty()) == Multiset::<Key>::empty());
        assert(work_q(Seq::<Task>::empty()) == 0);
        assert(key_mset(q) == Multiset::<Key>::empty());
        assert(work_q(q) == 0);
        assert(key_mset(s) =~= key_mset(q).insert(task_key(t)));
    } else {
        assert(s.drop_first() =~= q.drop_first().push(t));
        lemma_q_push(q.drop_first(), t);
        assert(key_mset(q) == key_mset(q.drop_first()).insert(task_key(q[0])));
        assert(work_q(q) == task_work(q[0]) + work_q(q.drop_first()));
        assert(key_mset(s) =~= key_mset(q).insert(task_key(t)));
    }
}

/// Replacing the task at `i` exchanges exactly its identity and its owed
/// work for those of the new task.
pub proof fn lemma_q_update(q: Seq<Task>, i: int, t: Task)
    requires
        0 <= i < q.len(),
    ensures
        key_mset(q.update(i, t)).insert(task_key(q[i])) == key_mset(q).insert(task_key(t)),
        work_q(q.update(i, t)) == work_q(q) - task_work(q[i]) + task_work(t),
        q.update(i, t).len() == q.len(),
    decreases i,
{
    let s = q.update(i, t);
    assert(key_mset(s) == key_mset(s.drop_first()).insert(task_key(s[0])));
    assert(work_q(s) == task_work(s[0]) + work_q(s.drop_first()));
    assert(key_mset(q) == key_mset(q.drop_first()).insert(task_key(q[0])));
    assert(work_q(q) == task_work(q[0]) + work_q(q.drop_first()));
    if i == 0 {
        assert(s.drop_first() =~= q.drop_first());
        assert(s[0] == t);
        assert(key_mset(s).insert(task_key(q[0])) =~= key_mset(q).insert(task_key(t)));
    } else {
        assert(s.drop_first() =~= q.drop_first().update(i - 1, t));
        assert(s[0] == q[0]);
        lemma_q_update(q.drop_first(), i - 1, t);
        assert(q.drop_first()[i - 1] == q[i]);
        let a = key_mset(s.drop_first()).insert(task_key(q[i]));
        assert(key_mset(s).insert(task_key(q[i])) =~= a.insert(task_key(q[0])));
        assert(a.insert(task_key(q[0])) == key_mset(q.drop_first()).insert(task_key(t)).insert(
            task_key(q[0]),
        ));
        assert(key_mset(q.drop_first()).insert(task_key(t)).insert(task_key(q[0])) =~= key_mset(
            q,
        ).insert(task_key(t)));
    }
}

/// Replacing the queue at level `i` exchanges exactly that queue's
/// identities, owed work, and task count.
pub proof fn lemma_bank_update(qs: Seq<Seq<Task>>, i: int, q2: Seq<Task>)
    requires
        0 <= i < qs.len(),
    ensures
        key_mset_bank(qs.update(i, q2)).add(key_mset(qs[i])) == key_mset_bank(qs).add(
            key_mset(q2),
        ),
        work_bank(qs.update(i, q2)) == work_bank(qs) - work_q(qs[i]) + work_q(q2),
        queued_count(qs.update(i, q2)) == queued_count(qs) - qs[i].len() + q2.len(),
        qs.update(i, q2).len() == qs.len(),
    decreases i,
{
    let s = qs.update(i, q2);
    assert(key_mset_bank(s) == key_mset(s[0]).add(key_mset_bank(s.drop_first())));
    assert(work_bank(s) == work_q(s[0]) + work_bank(s.drop_first()));
    assert(queued_count(s) == s[0].len() + queued_count(s.drop_first()));
    assert(key_mset_bank(qs) == key_mset(qs[0]).add(key_mset_bank(qs.drop_first())));
    assert(work_bank(qs) == work_q(qs[0]) + work_bank(qs.drop_first()));
    assert(queued_count(qs) == qs[0].len() + queued_count(qs.drop_first()));
    if i == 0 {
        assert(s.drop_first() =~= qs.drop_first());
        assert(s[0] == q2);
        assert(key_mset_bank(s).add(key_mset(qs[0])) =~= key_mset_bank(qs).add(key_mset(q2)));
    } else {
        assert(s.drop_first() =~= qs.drop_first().update(i - 1, q2));
        assert(s[0] == qs[0]);
        lemma_bank_update(qs.drop_first(), i - 1, q2);
        assert(qs.drop_first()[i - 1] == qs[i]);
        let a = key_mset_bank(s.drop_first()).add(key_mset(qs[i]));
        assert(key_mset_bank(s).add(key_mset(qs[i])) =~= key_mset(qs[0]).add(a));
        assert(key_mset(qs[0]).add(a) == key_mset(qs[0]).add(
            key_mset_bank(qs.drop_first()).add(key_mset(q2)),
        ));
        assert(key_mset(qs[0]).add(key_mset_bank(qs.drop_first()).add(key_mset(q2)))
            =~= key_mset_bank(qs).add(key_mset(q2)));
    }
}

/// Task counts are never negative, and a bank holds no task exactly when
/// all its queues are empty.
pub proof fn lemma_bank_counts(qs: Seq<Seq<Task>>)
    ensures
        queued_count(qs) >= 0,
        (queued_count(qs) == 0 <==> (forall|l: int| 0 <= l < qs.len() ==> qs[l].len() == 0)),
    decreases qs.len(),
{
    if qs.len() > 0 {
        let rest = qs.drop_first();
        lemma_bank_counts(rest);
        assert(queued_count(qs) == qs[0].len() + queued_count(rest));
        if queued_count(qs) == 0 {
            assert forall|l: int| 0 <= l < qs.len() implies qs[l].len() == 0 by {
                if l >= 1 {
                    assert(qs[l] == rest[l - 1]);
                }
            }
        }
        if forall|l: int| 0 <= l < qs.len() ==> qs[l].len() == 0 {
            assert(qs[0].len() == 0);
            assert forall|k: int| 0 <= k < rest.len() implies rest[k].len() == 0 by {
                assert(rest[k] == qs[k + 1]);
            }
            assert(queued_count(rest) == 0);
        }
    }
}

/// Work owed by a queue is never negative.
pub proof fn lemma_work_q_nonneg(q: Seq<Task>)
    ensures
        work_q(q) >= 0,
    decreases q.len(),
{
    if q.len() > 0 {
        lemma_work_q_nonneg(q.drop_first());
    }
}

/// Work owed by a bank is never negative.
pub proof fn lemma_work_bank_nonneg(qs: Seq<Seq<Task>>)
    ensures
        work_bank(qs) >= 0,
    decreases qs.len(),
{
    if qs.len() > 0 {
        lemma_work_q_nonneg(qs[0]);
        lemma_work_bank_nonneg(qs.drop_first());
    }
}

/// Appending a result adds exactly its identity.
pub proof fn lemma_r_push(rs: Seq<TaskResult>, r: TaskResult)
    ensures
        rkey_mset(rs.push(r)) == rkey_mset(rs).insert(result_key(r)),
    decreases rs.len(),
{
    let s = rs.push(r);
    assert(rkey_mset(s) == rkey_mset(s.drop_first()).insert(result_key(s[0])));
    if rs.len() == 0 {
        assert(s.drop_first() =~= Seq::<TaskResult>::empty());
        assert(rkey_mset(Seq::<TaskResult>::empty()) == Multiset::<Key>::empty());
        assert(rkey_mset(rs) == Multiset::<Key>::empty());
        assert(s[0] == r);
        assert(rkey_mset(s) =~= rkey_mset(rs).insert(result_key(r)));
    } else {
        assert(s.drop_first() =~= rs.drop_first().push(r));
        assert(s[0] == rs[0]);
        lemma_r_push(rs.drop_first(), r);
        assert(rkey_mset(rs) == rkey_mset(rs.drop_first()).insert(result_key(rs[0])));
        assert(rkey_mset(s) =~= rkey_mset(rs).insert(result_key(r)));
    }
}

/// Stable ascending insertion by arrival: `t` goes behind every task that
/// arrived no later than it.
pub open spec fn insert_sorted(t: Task, s: Seq<Task>) -> Seq<Task>
    decreases s.len(),
{
    if s.len() == 0 {
        seq![t]
    } else if s.last().arrival <= t.arrival {
        s.push(t)
    } else {
        insert_sorted(t, s.drop_last()).push(s.last())
    }
}

/// Stable sort by arrival, ascending; tasks with equal arrivals keep their
/// relative order.
pub open spec fn sort_by_arrival(s: Seq<Task>) -> Seq<Task>
    decreases s.len(),
{
    if s.len() == 0 {
        Seq::empty()
    } else {
        insert_sorted(s.last(), sort_by_arrival(s.drop_last()))
    }
}

/// Where the stable insertion lands: at the position `j` that splits the
/// tasks arriving no later than `t` from those arriving strictly later.
proof fn lemma_insert_sorted_at(t: Task, s: Seq<Task>, j: int)
    requires
        0 <= j <= s.len(),
        forall|k: int| j <= k < s.len() ==> s[k].arrival > t.arrival,
        j > 0 ==> s[j - 1].arrival <= t.arrival,
    ensures
        insert_sorted(t, s) == s.insert(j, t),
    decreases s.len(),
{
    if j == s.len() {
        if s.len() == 0 {
            assert(s.insert(0, t) =~= seq![t]);
        } else {
            assert(s.insert(j, t) =~= s.push(t));
        }
    } else {
        assert(s[s.len() - 1].arrival > t.arrival);
        let d = s.drop_last();
        lemma_insert_sorted_at(t, d, j);
        assert(insert_sorted(t, s) == insert_sorted(t, d).push(s.last()));
        assert(d.insert(j, t).push(s.last()) =~= s.insert(j, t));
    }
}

/// Stable insertion adds exactly one task: the length grows by one, the
/// identity and work accounts gain exactly `t`'s share, and every entry of
/// the result is `t` or one of the old entries.
proof fn lemma_insert_sorted_props(t: Task, s: Seq<Task>)
    ensures
        insert_sorted(t, s).len() == s.len() + 1,
        key_mset(insert_sorted(t, s)) == key_mset(s).insert(task_key(t)),
        work_q(insert_sorted(t, s)) == work_q(s) + task_work(t),
        forall|k: int|
            0 <= k < insert_sorted(t, s).len() ==> insert_sorted(t, s)[k] == t || s.contains(
                #[trigger] insert_sorted(t, s)[k],
            ),
    decreases s.len(),
{
    if s.len() == 0 {
        lemma_q_push(s, t);
        assert(s.push(t) =~= seq![t]);
    } else if s.last().arrival <= t.arrival {
        lemma_q_push(s, t);
    } else {
        let d = s.drop_last();
        lemma_insert_sorted_props(t, d);
        lemma_q_push(insert_sorted(t, d), s.last());
        lemma_q_push(d, s.last());
        assert(d.push(s.last()) =~= s);
        assert forall|k: int|
            0 <= k < insert_sorted(t, s).len() implies insert_sorted(t, s)[k] == t || s.contains(
            #[trigger] insert_sorted(t, s)[k],
        ) by {
            let r = insert_sorted(t, d).push(s.last());
            assert(insert_sorted(t, s) == r);
            if k == r.len() - 1 {
                assert(r[k] == s.last());
                assert(s.contains(s.last()));
            } else {
                assert(r[k] == insert_sorted(t, d)[k]);
                if insert_sorted(t, d)[k] == t {
                } else {
                    assert(d.contains(insert_sorted(t, d)[k]));
                    let m = choose|m: int| 0 <= m < d.len() && d[m] == insert_sorted(t, d)[k];
                    assert(s[m] == d[m]);
                }
            }
        }
    }
}

/// Sorting rearranges the list without changing its length, its identity
/// account, its work account, or the set of tasks it holds.
proof fn lemma_sort_props(s: Seq<Task>)
    ensures
        sort_by_arrival(s).len() == s.len(),
        key_mset(sort_by_arrival(s)) == key_mset(s),
        work_q(sort_by_arrival(s)) == work_q(s),
        forall|k: int|
            0 <= k < sort_by_arrival(s).len() ==> s.contains(#[trigger] sort_by_arrival(s)[k]),
    decreases s.len(),
{
    if s.len() > 0 {
        let d = s.drop_last();
        lemma_sort_props(d);
        lemma_insert_sorted_props(s.last(), sort_by_arrival(d));
        lemma_q_push(d, s.last());
        assert(d.push(s.last()) =~= s);
        assert forall|k: int|
            0 <= k < sort_by_arrival(s).len() implies s.contains(
            #[trigger] sort_by_arrival(s)[k],
        ) by {
            let e = sort_by_arrival(s)[k];
            if e == s.last() {
                assert(s.contains(s.last()));
            } else {
                assert(sort_by_arrival(d).contains(e));
                let m = choose|m: int| 0 <= m < sort_by_arrival(d).len() && sort_by_arrival(d)[m]
                    == e;
                assert(sort_by_arrival(d).contains(sort_by_arrival(d)[m]));
                assert(d.contains(sort_by_arrival(d)[m]));
                let m2 = choose|m2: int| 0 <= m2 < d.len() && d[m2] == e;
                assert(s[m2] == e);
            }
        }
    }
}

/// Reversal keeps the length, the identity account, and the work account.
proof fn lemma_reverse_props(s: Seq<Task>)
    ensures
        s.reverse().len() == s.len(),
        key_mset(s.reverse()) == key_mset(s),
        work_q(s.reverse()) == work_q(s),
    decreases s.len(),
{
    if s.len() > 0 {
        let d = s.drop_last();
        assert(s.reverse().drop_first() =~= d.reverse());
        lemma_reverse_props(d);
        assert(key_mset(s.reverse()) == key_mset(s.reverse().drop_first()).insert(
            task_key(s.reverse()[0]),
        ));
        assert(work_q(s.reverse()) == task_work(s.reverse()[0]) + work_q(
            s.reverse().drop_first(),
        ));
        assert(s.reverse()[0] == s.last());
        lemma_q_push(d, s.last());
        assert(d.push(s.last()) =~= s);
    }
}

/// Insert `t` into the pending list, keeping it sorted ascending by
/// arrival, behind every task that arrived no later.
fn insert_pending(v: &mut Vec<Task>, t: Task)
    ensures
        final(v)@ == insert_sorted(t, old(v)@),
{
    let mut j: usize = v.len();
    while j > 0 && v[j - 1].arrival > t.arrival
        invariant
            j <= v@.len(),
            v@ == old(v)@,
            forall|k: int| j <= k < v@.len() ==> v@[k].arrival > t.arrival,
        decreases j,
    {
        j = j - 1;
    }
    proof {
        lemma_insert_sorted_at(t, v@, j as int);
    }
    v.insert(j, t);
}

/// Sort the task list ascending by arrival; tasks with equal arrivals keep
/// their relative order.
fn sort_tasks(tasks: &mut Vec<Task>)
    ensures
        final(tasks)@ == sort_by_arrival(old(tasks)@),
{
    let mut out: Vec<Task> = Vec::new();
    let n = tasks.len();
    let mut i: usize = 0;
    while i < n
        invariant
            n == tasks@.len(),
            i <= n,
            tasks@ == old(tasks)@,
            out@ == sort_by_arrival(tasks@.take(i as int)),
        decreases n - i,
    {
        insert_pending(&mut out, tasks[i]);
        proof {
            assert(tasks@.take(i + 1).drop_last() =~= tasks@.take(i as int));
            assert(tasks@.take(i + 1).last() == tasks@[i as int]);
        }
        i = i + 1;
    }
    proof {
        assert(tasks@.take(n as int) =~= tasks@);
    }
    *tasks = out;
}

/// Reverse the task list in place.
fn reverse_tasks(tasks: &mut Vec<Task>)
    ensures
        final(tasks)@ == old(tasks)@.reverse(),
{
    let mut out: Vec<Task> = Vec::new();
    let n = tasks.len();
    let mut i: usize = n;
    while i > 0
        invariant
            n == tasks@.len(),
            i <= n,
            tasks@ == old(tasks)@,
            out@.len() == n - i,
            forall|k: int| 0 <= k < out@.len() ==> out@[k] == tasks@[n - 1 - k],
        decreases i,
    {
        i = i - 1;
        out.push(tasks[i]);
    }
    proof {
        assert(out@ =~= tasks@.reverse());
    }
    *tasks = out;
}

/// How many tasks at the tail of the pending list have arrived by `time`:
/// the walk from the tail stops at the first task still to come.
pub open spec fn ready_suffix_len(s: Seq<Task>, time: int) -> int
    decreases s.len(),
{
    if s.len() == 0 {
        0
    } else if s.last().arrival <= time {
        1 + ready_suffix_len(s.drop_last(), time)
    } else {
        0
    }
}

/// A task as it enters a queue: arrived, hence executable.
pub open spec fn mark_executable(t: Task) -> Task {
    Task { state: State::Executable, ..t }
}

/// The batch of tasks the pending list hands over: its last `k` entries,
/// from the tail inward, each marked executable.
pub open spec fn fetched_tasks(s: Seq<Task>, k: int) -> Seq<Task> {
    Seq::new(k as nat, |i: int| mark_executable(s[s.len() - 1 - i]))
}

/// The ready suffix never outgrows the list.
pub proof fn lemma_ready_suffix_bounds(s: Seq<Task>, time: int)
    ensures
        0 <= ready_suffix_len(s, time) <= s.len(),
    decreases s.len(),
{
    if s.len() > 0 && s.last().arrival <= time {
        lemma_ready_suffix_bounds(s.drop_last(), time);
    }
}

/// When the last `c` tasks have arrived by `time` and the task just before
/// them (if any) has not, the ready suffix is exactly those `c` tasks.
proof fn lemma_ready_suffix_eq(s: Seq<Task>, time: int, c: int)
    requires
        0 <= c <= s.len(),
        forall|i: int| s.len() - c <= i < s.len() ==> s[i].arrival <= time,
        c == s.len() || s[s.len() - c - 1].arrival > time,
    ensures
        ready_suffix_len(s, time) == c,
    decreases c,
{
    if c == 0 {
        if s.len() > 0 {
            assert(s.last().arrival > time);
        }
    } else {
        assert(s.last().arrival <= time);
        let d = s.drop_last();
        assert forall|i: int| d.len() - (c - 1) <= i < d.len() implies d[i].arrival <= time by {
            assert(d[i] == s[i]);
        }
        if c - 1 < d.len() {
            assert(d[d.len() - (c - 1) - 1] == s[s.len() - c - 1]);
        }
        lemma_ready_suffix_eq(d, time, c - 1);
    }
}

/// Move every pending task that has arrived by `time` out of the pending
/// list (which holds arrivals descending, so they sit at its tail) and
/// return them, marked executable, in arrival order; `None` when nothing
/// has arrived.
pub fn fetch_new_tasks(tasks: &mut Vec<Task>, time: u32) -> (r: Option<Vec<Task>>)
    ensures
        ({
            let k = ready_suffix_len(old(tasks)@, time as int);
            &&& final(tasks)@ == old(tasks)@.take(old(tasks)@.len() - k)
            &&& match r {
                None => k == 0,
                Some(new_tasks) => k > 0 && new_tasks@ == fetched_tasks(old(tasks)@, k),
            }
        }),
{
    let ghost orig = old(tasks)@;
    if tasks.is_empty() {
        proof {
            assert(orig.take(orig.len() - 0) =~= orig);
        }
        return None;
    }
    let mut new_tasks: Vec<Task> = Vec::new();
    while tasks.len() > 0 && tasks[tasks.len() - 1].arrival <= time
        invariant
            tasks@.len() + new_tasks@.len() == orig.len(),
            tasks@ == orig.take(tasks@.len() as int),
            new_tasks@ == fetched_tasks(orig, new_tasks@.len() as int),
            forall|i: int| tasks@.len() <= i < orig.len() ==> orig[i].arrival <= time,
        decreases tasks@.len(),
    {
        let mut task = tasks.pop().unwrap();
        task.state = State::Executable;
        new_tasks.push(task);
        proof {
            assert(tasks@ =~= orig.take(tasks@.len() as int));
            assert(new_tasks@ =~= fetched_tasks(orig, new_tasks@.len() as int));
        }
    }
    proof {
        let c = new_tasks@.len() as int;
        if tasks@.len() > 0 {
            assert(orig[orig.len() - c - 1].arrival > time);
        }
        lemma_ready_suffix_eq(orig, time as int, c);
    }
    if new_tasks.len() > 0 {
        Some(new_tasks)
    } else {
        None
    }
}

/// The whole simulation state between two ticks: tasks not yet arrived
/// (held with arrivals descending, so the earliest sits at the tail), the
/// queue bank, the results so far, and the clock.
pub struct SimSt {
    /// Tasks not yet handed to the bank, arrivals descending.
    pub pending: Seq<Task>,
    /// Queue contents, by priority level.
    pub queues: Seq<Seq<Task>>,
    /// Policies, by priority level.
    pub pols: Seq<Algorithm>,
    /// Finished tasks, in completion order.
    pub results: Seq<TaskResult>,
    /// The logical clock.
    pub time: int,
}

/// The queues after inserting each task of `ts`, in order, at its
/// priority level.
pub open spec fn insert_all(qs: Seq<Seq<Task>>, pols: Seq<Algorithm>, ts: Seq<Task>) -> Seq<
    Seq<Task>,
>
    decreases ts.len(),
{
    if ts.len() == 0 {
        qs
    } else {
        insert_all(bank_insert(qs, pols, ts[0]), pols, ts.drop_first())
    }
}

/// One tick of the simulation: hand every task arrived by `time` to the
/// bank, let the dispatcher execute one unit of work, and advance the
/// clock.
pub open spec fn tick_spec(s: SimSt) -> SimSt {
    let k = ready_suffix_len(s.pending, s.time);
    let arrived = fetched_tasks(s.pending, k);
    let pending2 = s.pending.take(s.pending.len() - k);
    let qs2 = insert_all(s.queues, s.pols, arrived);
    let step = dispatch_step(qs2, s.pols, s.time);
    SimSt {
        pending: pending2,
        queues: step.0,
        pols: s.pols,
        results: s.results + opt_result_seq(step.1),
        time: s.time + 1,
    }
}

/// The simulation is over when no task is pending or queued.
pub open spec fn sim_done(s: SimSt) -> bool {
    s.pending.len() == 0 && queued_count(s.queues) == 0
}

/// Units of work the whole simulation still owes.
pub open spec fn work_of(s: SimSt) -> int {
    work_q(s.pending) + work_bank(s.queues)
}

/// How long the clock still has to run before the next pending task (the
/// one at the tail) arrives; zero when nothing is pending or it is due.
pub open spec fn gap_of(s: SimSt) -> int {
    if s.pending.len() == 0 {
        0
    } else if s.pending.last().arrival - s.time >= 0 {
        s.pending.last().arrival - s.time
    } else {
        0
    }
}

/// The results the simulation returns when started from `s`: tick until
/// no task is pending or queued. Each tick either performs a unit of work
/// or brings the next arrival one step closer, which bounds the run; a
/// state in which a tick would do neither is malformed, and the run is
/// cut short as it could never finish.
pub open spec fn sim_from(s: SimSt) -> Seq<TaskResult>
    decreases work_of(s), gap_of(s),
{
    if sim_done(s) {
        s.results
    } else {
        let s2 = tick_spec(s);
        if (0 <= work_of(s2) && work_of(s2) < work_of(s)) || (work_of(s2) == work_of(s) && 0
            <= gap_of(s2) && gap_of(s2) < gap_of(s)) {
            sim_from(s2)
        } else {
            s.results
        }
    }
}

/// Where a whole run starts: tasks sorted by arrival (stable) and held
/// in reverse, an empty bank with the given policies, clock at zero.
pub open spec fn init_st(pols: Seq<Algorithm>, tasks: Seq<Task>) -> SimSt {
    SimSt {
        pending: sort_by_arrival(tasks).reverse(),
        queues: empty_queues(pols.len()),
        pols: pols,
        results: Seq::empty(),
        time: 0,
    }
}

/// The results of a whole run of the given policies over the given tasks.
pub open spec fn sim_spec(pols: Seq<Algorithm>, tasks: Seq<Task>) -> Seq<TaskResult> {
    sim_from(init_st(pols, tasks))
}

/// A task the bank has not seen yet: no work done, round counter clear,
/// at least one unit of cost, and a priority the bank can index.
pub open spec fn pending_task_ok(t: Task, nlevels: int) -> bool {
    &&& t.processed == 0
    &&& t.round == 0
    &&& t.cost >= 1
    &&& (t.priority as int) < nlevels
}

/// A sound result: the task finished no earlier than its arrival plus its
/// cost, and the turnaround is the time from arrival to finish.
pub open spec fn result_ok(r: TaskResult) -> bool {
    &&& r.arrive + r.cost <= r.finish
    &&& r.turnaround == r.finish - r.arrive
}

/// The simulation invariant: the bank is well formed and consistent with
/// the clock, every pending task is fresh and addressable, and every
/// result already emitted is sound.
pub open spec fn sim_inv(s: SimSt) -> bool {
    &&& bank_ok(s.queues, s.pols)
    &&& time_ok(s.queues, s.time)
    &&& forall|i: int|
        0 <= i < s.pending.len() ==> pending_task_ok(#[trigger] s.pending[i], s.queues.len() as int)
    &&& forall|i: int| 0 <= i < s.results.len() ==> result_ok(#[trigger] s.results[i])
}

/// Clock bounds: arrivals are capped by `a_cap`, outstanding work by
/// `c_cap`, and the clock by how much of that budget is already spent.
/// Together these keep the clock within machine range.
pub open spec fn sim_bounded(s: SimSt, a_cap: int, c_cap: int) -> bool {
    &&& 0 <= s.time
    &&& 0 <= a_cap
    &&& 0 <= c_cap
    &&& forall|i: int| 0 <= i < s.pending.len() ==> (#[trigger] s.pending[i]).arrival <= a_cap
    &&& work_of(s) <= c_cap
    &&& s.time + work_of(s) <= a_cap + c_cap
}

/// The largest arrival tick among the given tasks (zero when there are
/// none).
pub open spec fn arrival_cap(s: Seq<Task>) -> int
    decreases s.len(),
{
    if s.len() == 0 {
        0
    } else if (s[0].arrival as int) >= arrival_cap(s.drop_first()) {
        s[0].arrival as int
    } else {
        arrival_cap(s.drop_first())
    }
}

/// The total processing cost of the given tasks.
pub open spec fn cost_sum(s: Seq<Task>) -> int
    decreases s.len(),
{
    if s.len() == 0 {
        0
    } else {
        s[0].cost + cost_sum(s.drop_first())
    }
}

/// Every arrival is at most the cap, and the cap is never negative.
pub proof fn lemma_arrival_cap(s: Seq<Task>)
    ensures
        0 <= arrival_cap(s),
        forall|i: int| 0 <= i < s.len() ==> (#[trigger] s[i]).arrival <= arrival_cap(s),
    decreases s.len(),
{
    if s.len() > 0 {
        let rest = s.drop_first();
        lemma_arrival_cap(rest);
        assert forall|i: int| 0 <= i < s.len() implies (#[trigger] s[i]).arrival <= arrival_cap(
            s,
        ) by {
            if i >= 1 {
                assert(s[i] == rest[i - 1]);
            }
        }
    }
}

/// When no task has been worked on, the outstanding work is the total
/// cost, and it is never negative.
pub proof fn lemma_cost_sum(s: Seq<Task>)
    requires
        forall|i: int| 0 <= i < s.len() ==> (#[trigger] s[i]).processed == 0,
    ensures
        work_q(s) == cost_sum(s),
        0 <= cost_sum(s),
    decreases s.len(),
{
    if s.len() > 0 {
        let rest = s.drop_first();
        assert forall|i: int| 0 <= i < rest.len() implies (#[trigger] rest[i]).processed == 0 by {
            assert(rest[i] == s[i + 1]);
        }
        lemma_cost_sum(rest);
        assert(task_work(s[0]) == s[0].cost);
    }
}

/// An empty bank holds nothing: no identities, no work, no tasks; and it
/// is trivially well formed under any policies of the same length.
pub proof fn lemma_empty_bank(n: nat, pols: Seq<Algorithm>, time: int)
    ensures
        key_mset_bank(empty_queues(n)) == Multiset::<Key>::empty(),
        work_bank(empty_queues(n)) == 0,
        queued_count(empty_queues(n)) == 0,
        pols.len() == n ==> bank_ok(empty_queues(n), pols),
        time_ok(empty_queues(n), time),
    decreases n,
{
    let qs = empty_queues(n);
    if n > 0 {
        assert(qs.drop_first() =~= empty_queues((n - 1) as nat));
        lemma_empty_bank((n - 1) as nat, pols.drop_first(), time);
        assert(qs[0] =~= Seq::<Task>::empty());
        assert(key_mset(qs[0]) == Multiset::<Key>::empty());
        assert(key_mset_bank(qs) =~= Multiset::<Key>::empty());
    }
}

/// Splitting the pending list at its ready suffix splits its accounts:
/// the handed-over batch and the kept prefix together carry exactly the
/// identities, work, and count of the whole list.
proof fn lemma_pending_split(s: Seq<Task>, k: int)
    requires
        0 <= k <= s.len(),
    ensures
        fetched_tasks(s, k).len() == k,
        key_mset(s) == key_mset(s.take(s.len() - k)).add(key_mset(fetched_tasks(s, k))),
        work_q(s) == work_q(s.take(s.len() - k)) + work_q(fetched_tasks(s, k)),
    decreases k,
{
    if k == 0 {
        assert(s.take(s.len() - 0) =~= s);
        assert(fetched_tasks(s, 0) =~= Seq::<Task>::empty());
        assert(key_mset(fetched_tasks(s, 0)) == Multiset::<Key>::empty());
        assert(work_q(fetched_tasks(s, 0)) == 0);
        assert(key_mset(s) =~= key_mset(s).add(Multiset::<Key>::empty()));
    } else {
        lemma_pending_split(s, k - 1);
        let t = s[s.len() - k];
        assert(fetched_tasks(s, k) =~= fetched_tasks(s, k - 1).push(mark_executable(t)));
        assert(s.take(s.len() - (k - 1)) =~= s.take(s.len() - k).push(t));
        lemma_q_push(fetched_tasks(s, k - 1), mark_executable(t));
        lemma_q_push(s.take(s.len() - k), t);
        assert(task_key(mark_executable(t)) == task_key(t));
        assert(task_work(mark_executable(t)) == task_work(t));
        assert(key_mset(s.take(s.len() - k)).add(key_mset(fetched_tasks(s, k))) =~= key_mset(
            s.take(s.len() - (k - 1)),
        ).add(key_mset(fetched_tasks(s, k - 1))));
    }
}

/// Inserting one more task after a batch is the same as inserting the
/// extended batch.
proof fn lemma_insert_all_snoc(qs: Seq<Seq<Task>>, pols: Seq<Algorithm>, ts: Seq<Task>, t: Task)
    ensures
        insert_all(qs, pols, ts.push(t)) == bank_insert(insert_all(qs, pols, ts), pols, t),
    decreases ts.len(),
{
    assert(ts.push(t).len() == ts.len() + 1);
    if ts.len() == 0 {
        assert(ts.push(t)[0] == t);
        assert(ts.push(t).drop_first() =~= Seq::<Task>::empty());
        assert(insert_all(qs, pols, ts.push(t)) == insert_all(
            bank_insert(qs, pols, t),
            pols,
            Seq::<Task>::empty(),
        ));
        assert(insert_all(bank_insert(qs, pols, t), pols, Seq::<Task>::empty()) == bank_insert(
            qs,
            pols,
            t,
        ));
        assert(insert_all(qs, pols, ts) == qs);
    } else {
        assert(ts.push(t)[0] == ts[0]);
        assert(ts.push(t).drop_first() =~= ts.drop_first().push(t));
        assert(insert_all(qs, pols, ts.push(t)) == insert_all(
            bank_insert(qs, pols, ts[0]),
            pols,
            ts.drop_first().push(t),
        ));
        assert(insert_all(qs, pols, ts) == insert_all(
            bank_insert(qs, pols, ts[0]),
            pols,
            ts.drop_first(),
        ));
        lemma_insert_all_snoc(bank_insert(qs, pols, ts[0]), pols, ts.drop_first(), t);
    }
}

/// One step of the shortest-processing-time swap pass rearranges two
/// tasks: accounts and per-task facts survive.
proof fn lemma_spt_swap_props(q: Seq<Task>, i: int, pol: Algorithm, time: int)
    requires
        1 <= i < q.len(),
    ensures
        spt_swap_at(q, i).len() == q.len(),
        key_mset(spt_swap_at(q, i)) == key_mset(q),
        work_q(spt_swap_at(q, i)) == work_q(q),
        queue_ok(q, pol) ==> queue_ok(spt_swap_at(q, i), pol),
        queue_time_ok(q, time) ==> queue_time_ok(spt_swap_at(q, i), time),
{
    if q[i].cost < q[i - 1].cost {
        let m = q.update(i - 1, q[i]);
        let r = m.update(i, q[i - 1]);
        lemma_q_update(q, i - 1, q[i]);
        lemma_q_update(m, i, q[i - 1]);
        assert(m[i] == q[i]);
        let kb = task_key(q[i]);
        assert forall|x: Key| key_mset(r).count(x) == key_mset(q).count(x) by {
            assert(key_mset(r).insert(kb).count(x) == key_mset(q).insert(kb).count(x));
        }
        assert(key_mset(r) =~= key_mset(q));
        if queue_ok(q, pol) {
            assert forall|j: int| 0 <= j < r.len() implies task_slot_ok(#[trigger] r[j], pol) by {
                if j == i - 1 {
                    assert(r[j] == q[i]);
                } else if j == i {
                    assert(r[j] == q[i - 1]);
                } else {
                    assert(r[j] == q[j]);
                }
            }
        }
        if queue_time_ok(q, time) {
            assert forall|j: int|
                0 <= j < r.len() implies (#[trigger] r[j]).arrival + r[j].processed <= time by {
                if j == i - 1 {
                    assert(r[j] == q[i]);
                } else if j == i {
                    assert(r[j] == q[i - 1]);
                } else {
                    assert(r[j] == q[j]);
                }
            }
        }
    }
}

/// The whole swap pass is a permutation: accounts and per-task facts
/// survive it.
proof fn lemma_spt_pass_props(q: Seq<Task>, i: int, pol: Algorithm, time: int)
    requires
        i < q.len(),
    ensures
        spt_pass_from(q, i).len() == q.len(),
        key_mset(spt_pass_from(q, i)) == key_mset(q),
        work_q(spt_pass_from(q, i)) == work_q(q),
        queue_ok(q, pol) ==> queue_ok(spt_pass_from(q, i), pol),
        queue_time_ok(q, time) ==> queue_time_ok(spt_pass_from(q, i), time),
    decreases i,
{
    if i >= 2 {
        lemma_spt_swap_props(q, i, pol, time);
        lemma_spt_pass_props(spt_swap_at(q, i), i - 1, pol, time);
    }
}

/// Inserting a fresh task under any policy adds exactly that task to the
/// queue's accounts and keeps the queue well formed.
proof fn lemma_queue_insert_props(q: Seq<Task>, pol: Algorithm, t: Task, time: int)
    requires
        t.processed == 0,
        t.round == 0,
        t.cost >= 1,
        t.arrival <= time,
    ensures
        queue_insert_spec(q, pol, t).len() == q.len() + 1,
        key_mset(queue_insert_spec(q, pol, t)) == key_mset(q).insert(task_key(t)),
        work_q(queue_insert_spec(q, pol, t)) == work_q(q) + task_work(t),
        queue_ok(q, pol) ==> queue_ok(queue_insert_spec(q, pol, t), pol),
        queue_time_ok(q, time) ==> queue_time_ok(queue_insert_spec(q, pol, t), time),
{
    lemma_q_push(q, t);
    assert(task_slot_ok(t, pol));
    let s = q.push(t);
    if queue_ok(q, pol) {
        assert forall|j: int| 0 <= j < s.len() implies task_slot_ok(#[trigger] s[j], pol) by {
            if j < q.len() {
                assert(s[j] == q[j]);
            } else {
                assert(s[j] == t);
            }
        }
    }
    if queue_time_ok(q, time) {
        assert forall|j: int|
            0 <= j < s.len() implies (#[trigger] s[j]).arrival + s[j].processed <= time by {
            if j < q.len() {
                assert(s[j] == q[j]);
            } else {
                assert(s[j] == t);
            }
        }
    }
    match pol {
        Algorithm::ProcessingTimeOrder => {
            lemma_spt_pass_props(s, q.len() as int, pol, time);
        },
        _ => (),
    }
}

/// Handing one fresh task to the bank adds exactly that task to the
/// bank's accounts and keeps the bank well formed.
proof fn lemma_bank_insert_props(qs: Seq<Seq<Task>>, pols: Seq<Algorithm>, t: Task, time: int)
    requires
        bank_ok(qs, pols),
        time_ok(qs, time),
        (t.priority as int) < qs.len(),
        t.processed == 0,
        t.round == 0,
        t.cost >= 1,
        t.arrival <= time,
    ensures
        bank_insert(qs, pols, t).len() == qs.len(),
        bank_ok(bank_insert(qs, pols, t), pols),
        time_ok(bank_insert(qs, pols, t), time),
        key_mset_bank(bank_insert(qs, pols, t)) == key_mset_bank(qs).insert(task_key(t)),
        work_bank(bank_insert(qs, pols, t)) == work_bank(qs) + task_work(t),
        queued_count(bank_insert(qs, pols, t)) == queued_count(qs) + 1,
{
    let p = t.priority as int;
    let q2 = queue_insert_spec(qs[p], pols[p], t);
    let qs2 = bank_insert(qs, pols, t);
    lemma_queue_insert_props(qs[p], pols[p], t, time);
    lemma_bank_update(qs, p, q2);
    assert forall|x: Key|
        key_mset_bank(qs2).count(x) == key_mset_bank(qs).insert(task_key(t)).count(x) by {
        assert(key_mset_bank(qs2).add(key_mset(qs[p])).count(x) == key_mset_bank(qs).add(
            key_mset(q2),
        ).count(x));
        assert(key_mset(q2).count(x) == key_mset(qs[p]).insert(task_key(t)).count(x));
    }
    assert(key_mset_bank(qs2) =~= key_mset_bank(qs).insert(task_key(t)));
    assert forall|l: int| 0 <= l < qs2.len() implies queue_ok(#[trigger] qs2[l], pols[l]) by {
        if l == p {
            assert(qs2[l] == q2);
        } else {
            assert(qs2[l] == qs[l]);
        }
    }
    assert forall|l: int| 0 <= l < qs2.len() implies queue_time_ok(#[trigger] qs2[l], time) by {
        if l == p {
            assert(qs2[l] == q2);
        } else {
            assert(qs2[l] == qs[l]);
        }
    }
}

/// Handing a batch of fresh tasks to the bank adds exactly the batch to
/// the bank's accounts and keeps the bank well formed.
proof fn lemma_insert_all_props(qs: Seq<Seq<Task>>, pols: Seq<Algorithm>, ts: Seq<Task>, time: int)
    requires
        bank_ok(qs, pols),
        time_ok(qs, time),
        forall|i: int|
            0 <= i < ts.len() ==> {
                let t = #[trigger] ts[i];
                &&& t.processed == 0
                &&& t.round == 0
                &&& t.cost >= 1
                &&& (t.priority as int) < qs.len()
                &&& t.arrival <= time
            },
    ensures
        insert_all(qs, pols, ts).len() == qs.len(),
        bank_ok(insert_all(qs, pols, ts), pols),
        time_ok(insert_all(qs, pols, ts), time),
        key_mset_bank(insert_all(qs, pols, ts)) == key_mset_bank(qs).add(key_mset(ts)),
        work_bank(insert_all(qs, pols, ts)) == work_bank(qs) + work_q(ts),
        queued_count(insert_all(qs, pols, ts)) == queued_count(qs) + ts.len(),
    decreases ts.len(),
{
    if ts.len() == 0 {
        assert(key_mset(ts) == Multiset::<Key>::empty());
        assert(work_q(ts) == 0);
        assert(key_mset_bank(qs) =~= key_mset_bank(qs).add(Multiset::<Key>::empty()));
    } else {
        let rest = ts.drop_first();
        lemma_bank_insert_props(qs, pols, ts[0], time);
        let qs1 = bank_insert(qs, pols, ts[0]);
        assert forall|i: int|
            0 <= i < rest.len() implies {
            let t = #[trigger] rest[i];
            &&& t.processed == 0
            &&& t.round == 0
            &&& t.cost >= 1
            &&& (t.priority as int) < qs1.len()
            &&& t.arrival <= time
        } by {
            assert(rest[i] == ts[i + 1]);
        }
        lemma_insert_all_props(qs1, pols, rest, time);
        assert(key_mset(ts) == key_mset(rest).insert(task_key(ts[0])));
        assert(work_q(ts) == task_work(ts[0]) + work_q(rest));
        assert(key_mset_bank(qs).insert(task_key(ts[0])).add(key_mset(rest))
            =~= key_mset_bank(qs).add(key_mset(rest).insert(task_key(ts[0]))));
    }
}

/// Adding the same multiset to two multisets cannot hide a difference.
proof fn lemma_mset_add_cancel(a: Multiset<Key>, b: Multiset<Key>, m: Multiset<Key>)
    requires
        a.add(m) == b.add(m),
    ensures
        a == b,
{
    assert forall|x: Key| a.count(x) == b.count(x) by {
        assert(a.add(m).count(x) == a.count(x) + m.count(x));
        assert(b.add(m).count(x) == b.count(x) + m.count(x));
        assert(a.add(m).count(x) == b.add(m).count(x));
    }
    assert(a =~= b);
}

/// Dropping the head of a queue keeps its remaining tasks in valid slots.
proof fn lemma_rest_props(q: Seq<Task>, pol: Algorithm, time: int)
    requires
        q.len() > 0,
    ensures
        queue_ok(q, pol) ==> queue_ok(q.drop_first(), pol),
        queue_time_ok(q, time) ==> queue_time_ok(q.drop_first(), time),
        key_mset(q) == key_mset(q.drop_first()).insert(task_key(q[0])),
        work_q(q) == task_work(q[0]) + work_q(q.drop_first()),
{
    let rest = q.drop_first();
    assert(forall|j: int| 0 <= j < rest.len() ==> #[trigger] rest[j] == q[j + 1]);
}

/// Putting `t` back at the head of `rest` accounts for exactly `t`.
proof fn lemma_head_props(t: Task, rest: Seq<Task>)
    ensures
        (seq![t] + rest).len() == rest.len() + 1,
        key_mset(seq![t] + rest) == key_mset(rest).insert(task_key(t)),
        work_q(seq![t] + rest) == task_work(t) + work_q(rest),
{
    let s = seq![t] + rest;
    assert(s[0] == t);
    assert(s.drop_first() =~= rest);
    assert(key_mset(s) == key_mset(s.drop_first()).insert(task_key(s[0])));
    assert(work_q(s) == task_work(s[0]) + work_q(s.drop_first()));
}

/// Clock consistency is monotone in the clock.
proof fn lemma_time_ok_mono(qs: Seq<Seq<Task>>, t1: int, t2: int)
    requires
        time_ok(qs, t1),
        t1 <= t2,
    ensures
        time_ok(qs, t2),
{
    assert forall|l: int| 0 <= l < qs.len() implies queue_time_ok(#[trigger] qs[l], t2) by {
        assert(queue_time_ok(qs[l], t1));
        assert forall|j: int|
            0 <= j < qs[l].len() implies (#[trigger] qs[l][j]).arrival + qs[l][j].processed
            <= t2 by {
            assert(qs[l][j].arrival + qs[l][j].processed <= t1);
        }
    }
}

/// Putting a once-executed task back at the head of its queue performs
/// one unit of work and moves nothing else.
proof fn lemma_requeue_head(qs: Seq<Seq<Task>>, pols: Seq<Algorithm>, id: int, t2: Task, time: int)
    requires
        bank_ok(qs, pols),
        time_ok(qs, time),
        0 <= id < qs.len(),
        qs[id].len() > 0,
        task_key(t2) == task_key(qs[id][0]),
        task_work(t2) == task_work(qs[id][0]) - 1,
        task_slot_ok(t2, pols[id]),
        t2.arrival + t2.processed <= time + 1,
    ensures
        ({
            let qs2 = qs.update(id, seq![t2] + qs[id].drop_first());
            &&& qs2.len() == qs.len()
            &&& bank_ok(qs2, pols)
            &&& time_ok(qs2, time + 1)
            &&& key_mset_bank(qs2) == key_mset_bank(qs)
            &&& queued_count(qs2) == queued_count(qs)
            &&& work_bank(qs2) == work_bank(qs) - 1
        }),
{
    let q = qs[id];
    let front = q[0];
    let rest = q.drop_first();
    let q2 = seq![t2] + rest;
    let qs2 = qs.update(id, q2);
    lemma_rest_props(q, pols[id], time);
    lemma_head_props(t2, rest);
    lemma_bank_update(qs, id, q2);
    assert(key_mset(q) == key_mset(rest).insert(task_key(front)));
    assert(key_mset(q2) == key_mset(rest).insert(task_key(front)));
    lemma_mset_add_cancel(
        key_mset_bank(qs2),
        key_mset_bank(qs),
        key_mset(rest).insert(task_key(front)),
    );
    assert(queue_ok(q, pols[id]));
    assert forall|j: int| 0 <= j < q2.len() implies task_slot_ok(#[trigger] q2[j], pols[id]) by {
        if j == 0 {
            assert(q2[j] == t2);
        } else {
            assert(q2[j] == rest[j - 1]);
        }
    }
    assert(queue_time_ok(q, time));
    assert forall|j: int|
        0 <= j < q2.len() implies (#[trigger] q2[j]).arrival + q2[j].processed <= time + 1 by {
        if j == 0 {
            assert(q2[j] == t2);
        } else {
            assert(q2[j] == rest[j - 1]);
            assert(rest[j - 1] == q[j]);
        }
    }
    assert forall|l: int| 0 <= l < qs2.len() implies queue_ok(#[trigger] qs2[l], pols[l]) by {
        if l != id {
            assert(qs2[l] == qs[l]);
        }
    }
    lemma_time_ok_mono(qs, time, time + 1);
    assert forall|l: int| 0 <= l < qs2.len() implies queue_time_ok(#[trigger] qs2[l], time + 1) by {
        if l != id {
            assert(qs2[l] == qs[l]);
        }
    }
}

/// Putting a timed-out task back at the tail of its own queue performs
/// one unit of work and moves nothing else.
proof fn lemma_requeue_tail(qs: Seq<Seq<Task>>, pols: Seq<Algorithm>, id: int, t3: Task, time: int)
    requires
        bank_ok(qs, pols),
        time_ok(qs, time),
        0 <= id < qs.len(),
        qs[id].len() > 0,
        task_key(t3) == task_key(qs[id][0]),
        task_work(t3) == task_work(qs[id][0]) - 1,
        t3.processed < t3.cost,
        t3.round == 0,
        t3.arrival + t3.processed <= time + 1,
    ensures
        ({
            let qs2 = qs.update(id, qs[id].drop_first().push(t3));
            &&& qs2.len() == qs.len()
            &&& bank_ok(qs2, pols)
            &&& time_ok(qs2, time + 1)
            &&& key_mset_bank(qs2) == key_mset_bank(qs)
            &&& queued_count(qs2) == queued_count(qs)
            &&& work_bank(qs2) == work_bank(qs) - 1
        }),
{
    let q = qs[id];
    let front = q[0];
    let rest = q.drop_first();
    let q2 = rest.push(t3);
    let qs2 = qs.update(id, q2);
    lemma_rest_props(q, pols[id], time);
    lemma_q_push(rest, t3);
    lemma_bank_update(qs, id, q2);
    assert(key_mset(q) == key_mset(rest).insert(task_key(front)));
    assert(key_mset(q2) == key_mset(rest).insert(task_key(front)));
    lemma_mset_add_cancel(
        key_mset_bank(qs2),
        key_mset_bank(qs),
        key_mset(rest).insert(task_key(front)),
    );
    assert(queue_ok(q, pols[id]));
    assert(task_slot_ok(t3, pols[id]));
    assert forall|j: int| 0 <= j < q2.len() implies task_slot_ok(#[trigger] q2[j], pols[id]) by {
        if j < rest.len() {
            assert(q2[j] == rest[j]);
        } else {
            assert(q2[j] == t3);
        }
    }
    assert(queue_time_ok(q, time));
    assert forall|j: int|
        0 <= j < q2.len() implies (#[trigger] q2[j]).arrival + q2[j].processed <= time + 1 by {
        if j < rest.len() {
            assert(q2[j] == rest[j]);
            assert(rest[j] == q[j + 1]);
        } else {
            assert(q2[j] == t3);
        }
    }
    assert forall|l: int| 0 <= l < qs2.len() implies queue_ok(#[trigger] qs2[l], pols[l]) by {
        if l != id {
            assert(qs2[l] == qs[l]);
        }
    }
    lemma_time_ok_mono(qs, time, time + 1);
    assert forall|l: int| 0 <= l < qs2.len() implies queue_time_ok(#[trigger] qs2[l], time + 1) by {
        if l != id {
            assert(qs2[l] == qs[l]);
        }
    }
}

/// Demoting a timed-out task to the tail of the next queue level performs
/// one unit of work and moves nothing else.
proof fn lemma_demote(qs: Seq<Seq<Task>>, pols: Seq<Algorithm>, id: int, t3: Task, time: int)
    requires
        bank_ok(qs, pols),
        time_ok(qs, time),
        0 <= id,
        id + 1 < qs.len(),
        qs[id].len() > 0,
        task_key(t3) == task_key(qs[id][0]),
        task_work(t3) == task_work(qs[id][0]) - 1,
        t3.processed < t3.cost,
        t3.round == 0,
        t3.arrival + t3.processed <= time + 1,
    ensures
        ({
            let qs2 = qs.update(id, qs[id].drop_first()).update(id + 1, qs[id + 1].push(t3));
            &&& qs2.len() == qs.len()
            &&& bank_ok(qs2, pols)
            &&& time_ok(qs2, time + 1)
            &&& key_mset_bank(qs2) == key_mset_bank(qs)
            &&& queued_count(qs2) == queued_count(qs)
            &&& work_bank(qs2) == work_bank(qs) - 1
        }),
{
    let q = qs[id];
    let front = q[0];
    let rest = q.drop_first();
    let qs1 = qs.update(id, rest);
    let nq = qs[id + 1];
    let nq2 = nq.push(t3);
    let qs2 = qs1.update(id + 1, nq2);
    lemma_rest_props(q, pols[id], time);
    lemma_q_push(nq, t3);
    lemma_bank_update(qs, id, rest);
    assert(qs1[id + 1] == nq);
    lemma_bank_update(qs1, id + 1, nq2);
    assert(key_mset(q) == key_mset(rest).insert(task_key(front)));
    assert(key_mset_bank(qs1).insert(task_key(front)).add(key_mset(rest)) == key_mset_bank(
        qs,
    ).add(key_mset(rest))) by {
        assert(key_mset_bank(qs1).add(key_mset(q)) == key_mset_bank(qs).add(key_mset(rest)));
        assert(key_mset_bank(qs1).insert(task_key(front)).add(key_mset(rest))
            =~= key_mset_bank(qs1).add(key_mset(rest).insert(task_key(front))));
    }
    lemma_mset_add_cancel(
        key_mset_bank(qs1).insert(task_key(front)),
        key_mset_bank(qs),
        key_mset(rest),
    );
    assert(key_mset_bank(qs2).add(key_mset(nq)) == key_mset_bank(qs1).add(
        key_mset(nq).insert(task_key(front)),
    ));
    assert(key_mset_bank(qs2).add(key_mset(nq)) =~= key_mset_bank(qs1).insert(
        task_key(front),
    ).add(key_mset(nq)));
    lemma_mset_add_cancel(
        key_mset_bank(qs2),
        key_mset_bank(qs1).insert(task_key(front)),
        key_mset(nq),
    );
    assert(key_mset_bank(qs2) == key_mset_bank(qs));
    assert(queue_ok(q, pols[id]));
    assert(queue_ok(nq, pols[id + 1]));
    assert(task_slot_ok(t3, pols[id + 1]));
    assert forall|j: int| 0 <= j < nq2.len() implies task_slot_ok(
        #[trigger] nq2[j],
        pols[id + 1],
    ) by {
        if j < nq.len() {
            assert(nq2[j] == nq[j]);
        } else {
            assert(nq2[j] == t3);
        }
    }
    assert(queue_time_ok(nq, time));
    assert forall|j: int|
        0 <= j < nq2.len() implies (#[trigger] nq2[j]).arrival + nq2[j].processed <= time + 1 by {
        if j < nq.len() {
            assert(nq2[j] == nq[j]);
        } else {
            assert(nq2[j] == t3);
        }
    }
    assert forall|l: int| 0 <= l < qs2.len() implies queue_ok(#[trigger] qs2[l], pols[l]) by {
        if l == id {
            assert(qs2[l] == rest);
        } else if l == id + 1 {
            assert(qs2[l] == nq2);
        } else {
            assert(qs2[l] == qs[l]);
        }
    }
    lemma_time_ok_mono(qs, time, time + 1);
    assert forall|l: int| 0 <= l < qs2.len() implies queue_time_ok(#[trigger] qs2[l], time + 1) by {
        if l == id {
            assert(qs2[l] == rest);
            lemma_rest_props(q, pols[id], time + 1);
        } else if l == id + 1 {
            assert(qs2[l] == nq2);
        } else {
            assert(qs2[l] == qs[l]);
        }
    }
}

/// One dispatch tick: the bank stays well formed and consistent with the
/// advanced clock; exactly one unit of work is performed whenever any
/// task is queued; a finished task leaves the bank with a sound result
/// carrying its identity; an idle tick changes nothing.
proof fn lemma_dispatch_props(qs: Seq<Seq<Task>>, pols: Seq<Algorithm>, time: int)
    requires
        bank_ok(qs, pols),
        time_ok(qs, time),
        0 <= time < u32::MAX,
    ensures
        ({
            let step = dispatch_step(qs, pols, time);
            &&& step.0.len() == qs.len()
            &&& bank_ok(step.0, pols)
            &&& time_ok(step.0, time + 1)
            &&& match step.1 {
                None => {
                    &&& key_mset_bank(step.0) == key_mset_bank(qs)
                    &&& queued_count(step.0) == queued_count(qs)
                    &&& (first_nonempty(qs) is Some ==> work_bank(step.0) == work_bank(qs) - 1)
                    &&& (first_nonempty(qs) is None ==> step.0 == qs)
                },
                Some(r) => {
                    &&& result_ok(r)
                    &&& r.finish == time + 1
                    &&& key_mset_bank(step.0).insert(result_key(r)) == key_mset_bank(qs)
                    &&& queued_count(step.0) == queued_count(qs) - 1
                    &&& work_bank(step.0) == work_bank(qs) - 1
                },
            }
        }),
{
    lemma_first_nonempty_props(qs);
    let step = dispatch_step(qs, pols, time);
    match first_nonempty(qs) {
        None => {
            lemma_time_ok_mono(qs, time, time + 1);
        },
        Some(id) => {
            let q = qs[id];
            let front = q[0];
            let t = exec_unit(front);
            let rest = q.drop_first();
            assert(queue_ok(q, pols[id]));
            assert(task_slot_ok(front, pols[id]));
            assert(queue_time_ok(q, time));
            assert(front.arrival + front.processed <= time);
            lemma_rest_props(q, pols[id], time);
            lemma_time_ok_mono(qs, time, time + 1);
            assert(task_key(t) == task_key(front));
            assert(t.processed == front.processed + 1);
            if t.cost <= t.processed {
                let r = spec_result_of(t, time + 1);
                assert(t.processed == t.cost);
                assert(r.finish == time + 1);
                assert(r.arrive + r.cost <= r.finish);
                assert(r.turnaround == r.finish - r.arrive);
                assert(result_key(r) == task_key(front));
                lemma_bank_update(qs, id, rest);
                assert(task_work(front) == 1);
                assert(key_mset_bank(step.0).insert(result_key(r)).add(key_mset(rest))
                    == key_mset_bank(qs).add(key_mset(rest))) by {
                    assert(key_mset_bank(step.0).add(key_mset(q)) == key_mset_bank(qs).add(
                        key_mset(rest),
                    ));
                    assert(key_mset(q) == key_mset(rest).insert(task_key(front)));
                    assert(key_mset_bank(step.0).insert(result_key(r)).add(key_mset(rest))
                        =~= key_mset_bank(step.0).add(key_mset(rest).insert(task_key(front))));
                }
                lemma_mset_add_cancel(
                    key_mset_bank(step.0).insert(result_key(r)),
                    key_mset_bank(qs),
                    key_mset(rest),
                );
                assert forall|l: int| 0 <= l < step.0.len() implies queue_ok(
                    #[trigger] step.0[l],
                    pols[l],
                ) by {
                    if l == id {
                        assert(step.0[l] == rest);
                    } else {
                        assert(step.0[l] == qs[l]);
                    }
                }
                assert forall|l: int| 0 <= l < step.0.len() implies queue_time_ok(
                    #[trigger] step.0[l],
                    time + 1,
                ) by {
                    if l == id {
                        assert(step.0[l] == rest);
                        assert(queue_time_ok(qs[l], time + 1));
                        lemma_rest_props(q, pols[id], time + 1);
                    } else {
                        assert(step.0[l] == qs[l]);
                    }
                }
            } else {
                assert(t.arrival + t.processed <= time + 1);
                assert(task_work(t) == task_work(front) - 1);
                let pol = pols[id];
                match pol {
                    Algorithm::ArrivalOrder | Algorithm::ProcessingTimeOrder => {
                        assert(front.round == 0);
                        assert(task_slot_ok(t, pol));
                        lemma_requeue_head(qs, pols, id, t, time);
                    },
                    Algorithm::RoundRobin(quantum, feedback) => {
                        assert(front.round == 0 || front.round < quantum);
                        assert(t.round < u32::MAX);
                        let t2 = Task { round: (t.round + 1) as u32, ..t };
                        assert(t2.round == t.round + 1);
                        assert(task_key(t2) == task_key(front));
                        assert(task_work(t2) == task_work(front) - 1);
                        if t2.round >= quantum {
                            let t3 = Task { round: 0, state: State::Executable, ..t2 };
                            assert(task_key(t3) == task_key(front));
                            assert(task_work(t3) == task_work(front) - 1);
                            if feedback && id + 1 < qs.len() {
                                lemma_demote(qs, pols, id, t3, time);
                            } else {
                                lemma_requeue_tail(qs, pols, id, t3, time);
                            }
                        } else {
                            assert(task_slot_ok(t2, pol));
                            lemma_requeue_head(qs, pols, id, t2, time);
                        }
                    },
                }
            }
        },
    }
}

/// Every task of the ready suffix has indeed arrived.
proof fn lemma_ready_suffix_arrived(s: Seq<Task>, time: int)
    ensures
        forall|j: int|
            s.len() - ready_suffix_len(s, time) <= j < s.len() ==> (#[trigger] s[j]).arrival
                <= time,
    decreases s.len(),
{
    lemma_ready_suffix_bounds(s, time);
    if s.len() > 0 && s.last().arrival <= time {
        let d = s.drop_last();
        lemma_ready_suffix_arrived(d, time);
        lemma_ready_suffix_bounds(d, time);
        assert forall|j: int|
            s.len() - ready_suffix_len(s, time) <= j < s.len() implies (#[trigger] s[j]).arrival
            <= time by {
            if j < s.len() - 1 {
                assert(s[j] == d[j]);
            }
        }
    }
}

/// A bank of empty queues accounts for nothing.
proof fn lemma_bank_empty_mset(qs: Seq<Seq<Task>>)
    requires
        forall|l: int| 0 <= l < qs.len() ==> qs[l].len() == 0,
    ensures
        key_mset_bank(qs) == Multiset::<Key>::empty(),
        work_bank(qs) == 0,
    decreases qs.len(),
{
    if qs.len() > 0 {
        let rest = qs.drop_first();
        assert forall|l: int| 0 <= l < rest.len() implies rest[l].len() == 0 by {
            assert(rest[l] == qs[l + 1]);
        }
        lemma_bank_empty_mset(rest);
        assert(qs[0] =~= Seq::<Task>::empty());
        assert(key_mset(qs[0]) == Multiset::<Key>::empty());
        assert(work_q(qs[0]) == 0);
        assert(key_mset_bank(qs) =~= Multiset::<Key>::empty());
    }
}

/// The whole accounting of a state: which task identities it holds,
/// across the pending list, the bank, and the results.
pub open spec fn total_mset(s: SimSt) -> Multiset<Key> {
    key_mset(s.pending).add(key_mset_bank(s.queues)).add(rkey_mset(s.results))
}

/// How many tasks a state holds, pending, queued, or finished.
pub open spec fn total_count(s: SimSt) -> int {
    s.pending.len() + queued_count(s.queues) + s.results.len()
}

/// One simulation tick preserves the invariant and the clock bounds,
/// keeps every task accounted for, and strictly shrinks the termination
/// measure: either a unit of work is performed, or the next arrival comes
/// one tick closer.
proof fn lemma_tick_props(s: SimSt, a_cap: int, c_cap: int)
    requires
        sim_inv(s),
        sim_bounded(s, a_cap, c_cap),
        a_cap + c_cap < u32::MAX,
        !sim_done(s),
    ensures
        ({
            let s2 = tick_spec(s);
            &&& sim_inv(s2)
            &&& sim_bounded(s2, a_cap, c_cap)
            &&& s2.pols == s.pols
            &&& s2.queues.len() == s.queues.len()
            &&& s2.time == s.time + 1
            &&& total_mset(s2) == total_mset(s)
            &&& total_count(s2) == total_count(s)
            &&& bank_ok(
                insert_all(
                    s.queues,
                    s.pols,
                    fetched_tasks(s.pending, ready_suffix_len(s.pending, s.time)),
                ),
                s.pols,
            )
            &&& time_ok(
                insert_all(
                    s.queues,
                    s.pols,
                    fetched_tasks(s.pending, ready_suffix_len(s.pending, s.time)),
                ),
                s.time,
            )
            &&& ((0 <= work_of(s2) && work_of(s2) < work_of(s)) || (work_of(s2) == work_of(s)
                && 0 <= gap_of(s2) && gap_of(s2) < gap_of(s)))
        }),
{
    let k = ready_suffix_len(s.pending, s.time);
    lemma_ready_suffix_bounds(s.pending, s.time);
    lemma_ready_suffix_arrived(s.pending, s.time);
    let arrived = fetched_tasks(s.pending, k);
    let pending2 = s.pending.take(s.pending.len() - k);
    let qs2 = insert_all(s.queues, s.pols, arrived);
    let step = dispatch_step(qs2, s.pols, s.time);
    let s2 = tick_spec(s);
    lemma_pending_split(s.pending, k);
    assert forall|i: int| 0 <= i < pending2.len() implies pending_task_ok(
        #[trigger] pending2[i],
        s.queues.len() as int,
    ) && pending2[i].arrival <= a_cap by {
        assert(pending2[i] == s.pending[i]);
    }
    assert forall|i: int|
        0 <= i < arrived.len() implies {
        let t = #[trigger] arrived[i];
        &&& t.processed == 0
        &&& t.round == 0
        &&& t.cost >= 1
        &&& (t.priority as int) < s.queues.len()
        &&& t.arrival <= s.time
    } by {
        let src = s.pending[s.pending.len() - 1 - i];
        assert(arrived[i] == mark_executable(src));
        assert(pending_task_ok(src, s.queues.len() as int));
    }
    lemma_insert_all_props(s.queues, s.pols, arrived, s.time);
    lemma_work_q_nonneg(pending2);
    lemma_work_q_nonneg(arrived);
    lemma_work_q_nonneg(s.pending);
    lemma_work_bank_nonneg(s.queues);
    lemma_work_bank_nonneg(qs2);
    assert(0 <= s.time && s.time < u32::MAX);
    lemma_dispatch_props(qs2, s.pols, s.time);
    lemma_bank_counts(s.queues);
    lemma_bank_counts(qs2);
    lemma_bank_counts(step.0);
    lemma_first_nonempty_props(qs2);
    match step.1 {
        None => {
            assert(s2.results =~= s.results);
            assert(total_mset(s2) =~= total_mset(s));
            match first_nonempty(qs2) {
                Some(_) => {
                    assert(work_of(s2) == work_of(s) - 1);
                    lemma_work_bank_nonneg(step.0);
                },
                None => {
                    assert(queued_count(qs2) == 0);
                    assert(k == 0);
                    assert(queued_count(s.queues) == 0);
                    assert(s.pending.len() > 0);
                    assert(s.pending.last().arrival > s.time) by {
                        if s.pending.last().arrival <= s.time {
                            lemma_ready_suffix_bounds(s.pending.drop_last(), s.time);
                            assert(k == 1 + ready_suffix_len(s.pending.drop_last(), s.time));
                        }
                    }
                    assert(pending2 =~= s.pending);
                    assert(arrived =~= Seq::<Task>::empty());
                    assert(work_of(s2) == work_of(s));
                    assert(s.pending.last().arrival <= a_cap);
                    assert(gap_of(s2) == gap_of(s) - 1);
                },
            }
        },
        Some(r) => {
            assert(s2.results =~= s.results.push(r));
            lemma_r_push(s.results, r);
            assert forall|x: Key| total_mset(s2).count(x) == total_mset(s).count(x) by {
                assert(key_mset_bank(qs2).count(x) == key_mset_bank(step.0).insert(
                    result_key(r),
                ).count(x));
                assert(key_mset_bank(qs2).count(x) == key_mset_bank(s.queues).add(
                    key_mset(arrived),
                ).count(x));
                assert(key_mset(s.pending).count(x) == key_mset(pending2).add(
                    key_mset(arrived),
                ).count(x));
                assert(rkey_mset(s2.results).count(x) == rkey_mset(s.results).insert(
                    result_key(r),
                ).count(x));
            }
            assert(total_mset(s2) =~= total_mset(s));
            assert(work_of(s2) == work_of(s) - 1);
            lemma_work_bank_nonneg(step.0);
            assert forall|i: int| 0 <= i < s2.results.len() implies result_ok(
                #[trigger] s2.results[i],
            ) by {
                if i < s.results.len() {
                    assert(s2.results[i] == s.results[i]);
                } else {
                    assert(s2.results[i] == r);
                }
            }
        },
    }
}

/// While the simulation is not done, one tick does not change where it
/// will end up.
proof fn lemma_sim_from_unfold(s: SimSt, a_cap: int, c_cap: int)
    requires
        sim_inv(s),
        sim_bounded(s, a_cap, c_cap),
        a_cap + c_cap < u32::MAX,
        !sim_done(s),
    ensures
        sim_from(s) == sim_from(tick_spec(s)),
{
    lemma_tick_props(s, a_cap, c_cap);
}

/// What a whole run returns, from any sound state: one result for every
/// task the state still holds (and every result already emitted), each
/// task's identity accounted for exactly once, and every result sound —
/// finished no earlier than its arrival plus its cost.
pub proof fn lemma_sim_from_props(s: SimSt, a_cap: int, c_cap: int)
    requires
        sim_inv(s),
        sim_bounded(s, a_cap, c_cap),
        a_cap + c_cap < u32::MAX,
    ensures
        sim_from(s).len() == total_count(s),
        rkey_mset(sim_from(s)) == total_mset(s),
        forall|i: int| 0 <= i < sim_from(s).len() ==> result_ok(#[trigger] sim_from(s)[i]),
    decreases work_of(s), gap_of(s),
{
    if sim_done(s) {
        assert(sim_from(s) == s.results);
        lemma_bank_counts(s.queues);
        lemma_bank_empty_mset(s.queues);
        assert(key_mset(s.pending) == Multiset::<Key>::empty());
        assert(total_mset(s) =~= rkey_mset(s.results));
    } else {
        lemma_tick_props(s, a_cap, c_cap);
        let s2 = tick_spec(s);
        lemma_sim_from_props(s2, a_cap, c_cap);
        assert(sim_from(s) == sim_from(s2));
    }
}

/// A run's starting state is sound and bounded, and holds exactly the
/// input tasks.
proof fn lemma_initial_state(pols: Seq<Algorithm>, tasks: Seq<Task>)
    requires
        forall|i: int|
            0 <= i < tasks.len() ==> pending_task_ok(#[trigger] tasks[i], pols.len() as int),
        arrival_cap(tasks) + cost_sum(tasks) < u32::MAX,
    ensures
        sim_inv(init_st(pols, tasks)),
        sim_bounded(init_st(pols, tasks), arrival_cap(tasks), cost_sum(tasks)),
        total_count(init_st(pols, tasks)) == tasks.len(),
        total_mset(init_st(pols, tasks)) == key_mset(tasks),
{
    let st0 = init_st(pols, tasks);
    let a0 = arrival_cap(tasks);
    let c0 = cost_sum(tasks);
    lemma_arrival_cap(tasks);
    lemma_cost_sum(tasks);
    lemma_sort_props(tasks);
    lemma_reverse_props(sort_by_arrival(tasks));
    lemma_empty_bank(pols.len(), pols, 0);
    assert forall|i: int| 0 <= i < st0.pending.len() implies pending_task_ok(
        #[trigger] st0.pending[i],
        pols.len() as int,
    ) && st0.pending[i].arrival <= a0 && st0.pending[i].processed == 0 by {
        let sorted = sort_by_arrival(tasks);
        assert(st0.pending[i] == sorted[sorted.len() - 1 - i]);
        assert(tasks.contains(sorted[sorted.len() - 1 - i]));
        let m = choose|m: int| 0 <= m < tasks.len() && tasks[m] == sorted[sorted.len() - 1 - i];
        assert(pending_task_ok(tasks[m], pols.len() as int));
        assert(tasks[m].arrival <= a0);
    }
    lemma_cost_sum(st0.pending);
    assert(work_q(st0.pending) == work_q(tasks));
    lemma_bank_counts(st0.queues);
    assert(total_mset(st0) =~= key_mset(tasks));
}

/// Conservation: a run returns exactly one result per input task, and
/// the results carry exactly the identities — name, arrival, cost,
/// priority — of the input tasks, as a multiset.
pub proof fn lemma_conservation(pols: Seq<Algorithm>, tasks: Seq<Task>)
    requires
        forall|i: int|
            0 <= i < tasks.len() ==> pending_task_ok(#[trigger] tasks[i], pols.len() as int),
        arrival_cap(tasks) + cost_sum(tasks) < u32::MAX,
    ensures
        sim_spec(pols, tasks).len() == tasks.len(),
        rkey_mset(sim_spec(pols, tasks)) == key_mset(tasks),
{
    lemma_initial_state(pols, tasks);
    lemma_sim_from_props(init_st(pols, tasks), arrival_cap(tasks), cost_sum(tasks));
}

/// Monotonic time: no result of a run finishes before its arrival plus
/// its cost — a task cannot complete faster than the work it owes — and
/// its turnaround is exactly the time from arrival to finish.
pub proof fn lemma_monotonic_time(pols: Seq<Algorithm>, tasks: Seq<Task>)
    requires
        forall|i: int|
            0 <= i < tasks.len() ==> pending_task_ok(#[trigger] tasks[i], pols.len() as int),
        arrival_cap(tasks) + cost_sum(tasks) < u32::MAX,
    ensures
        forall|i: int|
            0 <= i < sim_spec(pols, tasks).len() ==> result_ok(#[trigger] sim_spec(pols, tasks)[i]),
{
    lemma_initial_state(pols, tasks);
    lemma_sim_from_props(init_st(pols, tasks), arrival_cap(tasks), cost_sum(tasks));
}

/// The simulation state the executable loop is in.
pub open spec fn st_of(
    pending: Seq<Task>,
    ql: Seq<(VecDeque<Task>, Algorithm)>,
    results: Seq<TaskResult>,
    time: int,
) -> SimSt {
    SimSt { pending, queues: queues_of(ql), pols: pols_of(ql), results, time }
}

/// Run the simulation to completion: drive the clock one tick at a time,
/// moving arrived tasks into the bank and dispatching one unit of work
/// per tick, until every task has finished. Returns the results in
/// completion order.
///
/// The returned sequence is a function of the policies and the task list
/// alone ([`sim_spec`]), so running the same configuration twice returns
/// identical results. Every input task yields exactly one result carrying
/// its identity, and no task finishes earlier than its arrival plus its
/// cost.
///
/// Tasks are taken up in arrival order; tasks sharing an arrival tick
/// enter their queues in the order they stand in the list.
///
/// Tasks must be fresh and aimed at an existing queue level of the fresh
/// bank, and the total simulated time (latest arrival plus total cost)
/// must fit the clock.
pub fn run_simulator(queue_list: QueueList, tasks: Vec<Task>) -> (results: Vec<TaskResult>)
    requires
        queues_of(queue_list@) == empty_queues(queue_list@.len()),
        forall|i: int|
            0 <= i < tasks@.len() ==> pending_task_ok(
                #[trigger] tasks@[i],
                queue_list@.len() as int,
            ),
        arrival_cap(tasks@) + cost_sum(tasks@) < u32::MAX,
    ensures
        results@ == sim_spec(pols_of(queue_list@), tasks@),
        results@.len() == tasks@.len(),
        rkey_mset(results@) == key_mset(tasks@),
        forall|i: int| 0 <= i < results@.len() ==> result_ok(#[trigger] results@[i]),
{
    let mut queue_list = queue_list;
    let mut tasks = tasks;
    let ghost pols0 = pols_of(queue_list@);
    let ghost n = queue_list@.len();
    let ghost tasks0 = tasks@;
    let ghost a0 = arrival_cap(tasks0);
    let ghost c0 = cost_sum(tasks0);
    proof {
        lemma_arrival_cap(tasks0);
        lemma_cost_sum(tasks0);
    }
    sort_tasks(&mut tasks);
    reverse_tasks(&mut tasks);
    let mut results: Vec<TaskResult> = Vec::new();
    let mut time: u32 = 0;
    let tasks_len = tasks.len();
    let ghost st0 = st_of(tasks@, queue_list@, results@, 0);
    let ghost target = sim_from(st0);
    proof {
        lemma_sort_props(tasks0);
        lemma_reverse_props(sort_by_arrival(tasks0));
        lemma_initial_state(pols0, tasks0);
        lemma_sim_from_props(init_st(pols0, tasks0), a0, c0);
        assert(queues_of(queue_list@) == empty_queues(n));
        assert(st0.pending == init_st(pols0, tasks0).pending);
        assert(st0.queues == init_st(pols0, tasks0).queues);
        assert(st0 == init_st(pols0, tasks0));
        assert(target == sim_spec(pols0, tasks0));
    }
    while results.len() < tasks_len
        invariant
            tasks_len == tasks0.len(),
            pols_of(queue_list@) == pols0,
            queue_list@.len() == pols0.len(),
            a0 == arrival_cap(tasks0),
            c0 == cost_sum(tasks0),
            a0 + c0 < u32::MAX,
            sim_inv(st_of(tasks@, queue_list@, results@, time as int)),
            sim_bounded(st_of(tasks@, queue_list@, results@, time as int), a0, c0),
            sim_from(st_of(tasks@, queue_list@, results@, time as int)) == target,
            total_count(st_of(tasks@, queue_list@, results@, time as int)) == tasks0.len(),
        decreases
            work_of(st_of(tasks@, queue_list@, results@, time as int)),
            gap_of(st_of(tasks@, queue_list@, results@, time as int)),
    {
        let ghost st_pre = st_of(tasks@, queue_list@, results@, time as int);
        let ghost k = ready_suffix_len(tasks@, time as int);
        let ghost arrived = fetched_tasks(tasks@, k);
        let ghost qs_pre = queues_of(queue_list@);
        proof {
            lemma_bank_counts(qs_pre);
            assert(!sim_done(st_pre));
            lemma_tick_props(st_pre, a0, c0);
            lemma_sim_from_unfold(st_pre, a0, c0);
            lemma_work_q_nonneg(st_pre.pending);
            lemma_work_bank_nonneg(st_pre.queues);
            assert(time < u32::MAX);
            lemma_ready_suffix_bounds(tasks@, time as int);
            lemma_ready_suffix_arrived(tasks@, time as int);
            assert forall|i: int|
                0 <= i < arrived.len() implies ((#[trigger] arrived[i]).priority as int)
                < queue_list@.len() by {
                let src = st_pre.pending[st_pre.pending.len() - 1 - i];
                assert(arrived[i] == mark_executable(src));
                assert(pending_task_ok(src, st_pre.queues.len() as int));
            }
        }
        match fetch_new_tasks(&mut tasks, time) {
            Some(new_tasks) => {
                let ghost batch = new_tasks@;
                proof {
                    assert(batch == arrived);
                }
                let mut j: usize = 0;
                while j < new_tasks.len()
                    invariant
                        j <= batch.len(),
                        new_tasks@ == batch,
                        pols_of(queue_list@) == pols0,
                        queue_list@.len() == pols0.len(),
                        forall|i: int|
                            0 <= i < batch.len() ==> ((#[trigger] batch[i]).priority as int)
                                < queue_list@.len(),
                        queues_of(queue_list@) == insert_all(qs_pre, pols0, batch.take(j as int)),
                    decreases batch.len() - j,
                {
                    proof {
                        lemma_insert_all_snoc(qs_pre, pols0, batch.take(j as int), batch[j as int]);
                        assert(batch.take(j as int).push(batch[j as int]) =~= batch.take(
                            j + 1,
                        ));
                    }
                    add_task(&mut queue_list, new_tasks[j]);
                    j = j + 1;
                }
                proof {
                    assert(batch.take(batch.len() as int) =~= batch);
                    assert(queues_of(queue_list@) == insert_all(qs_pre, pols0, arrived));
                }
            },
            None => {
                proof {
                    assert(k == 0);
                    assert(arrived =~= Seq::<Task>::empty());
                    assert(insert_all(qs_pre, pols0, arrived) == qs_pre);
                    assert(queues_of(queue_list@) == insert_all(qs_pre, pols0, arrived));
                }
            },
        }
        dispatch_task(&mut queue_list, time, &mut results);
        proof {
            let st_post = st_of(tasks@, queue_list@, results@, time as int + 1);
            let s2 = tick_spec(st_pre);
            assert(st_post.pending == s2.pending);
            assert(st_post.queues == s2.queues);
            assert(st_post.pols == s2.pols);
            assert(st_post.results == s2.results);
            assert(st_post == s2);
            lemma_work_q_nonneg(st_post.pending);
            lemma_work_bank_nonneg(st_post.queues);
        }
        time = time + 1;
    }
    proof {
        let st_end = st_of(tasks@, queue_list@, results@, time as int);
        lemma_bank_counts(st_end.queues);
        assert(tasks@.len() == 0 && queued_count(st_end.queues) == 0);
        assert(sim_done(st_end));
        assert(sim_from(st_end) == results@);
        assert(results@ == sim_spec(pols0, tasks0));
        assert(rkey_mset(results@) == total_mset(st0));
        assert(results@.len() == total_count(st0));
        assert forall|i: int| 0 <= i < results@.len() implies result_ok(
            #[trigger] results@[i],
        ) by {
            assert(results@[i] == sim_from(st0)[i]);
        }
    }
    results
}

} // verus!
