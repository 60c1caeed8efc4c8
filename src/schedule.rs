use vstd::prelude::*;

use crate::task::{copy_task, tasks_view, Task, TaskStatus, TaskView};

verus! {

/// A task handed to a waiter: which task, what to delete, and how many
/// milliseconds remain before its deadline.
#[derive(Debug)]
pub struct Wait {
    pub index: usize,
    pub file_path: String,
    pub remaining_ms: u64,
}

/// What a waiter observed for one task.
#[derive(Clone, Copy, Debug, PartialEq, Eq, Structural)]
pub struct Outcome {
    pub index: usize,
    pub status: TaskStatus,
}

/// A task after reconciliation at time `now`: a pending task whose deadline
/// is not after `now` has expired; every other task is unchanged.
pub open spec fn reconciled(t: TaskView, now: i64) -> TaskView {
    if t.status is Pending && t.delete_at <= now {
        TaskView { status: TaskStatus::Expired, ..t }
    } else {
        t
    }
}

/// A task that still waits for its deadline at time `now`.
pub open spec fn is_waiting(t: TaskView, now: i64) -> bool {
    t.status is Pending && t.delete_at > now
}

/// Classifies every task against `now`. Overdue pending tasks become
/// `Expired` in place; each pending task with a future deadline yields one
/// `Wait`, in the order of the tasks, carrying the time left until its
/// deadline. Tasks in a final status are neither changed nor handed out.
pub fn reconcile(tasks: &mut Vec<Task>, now: i64) -> (waits: Vec<Wait>)
    ensures
        final(tasks)@.len() == old(tasks)@.len(),
        forall|i: int|
            0 <= i < old(tasks)@.len() ==> #[trigger] final(tasks)@[i]@ == reconciled(
                old(tasks)@[i]@,
                now,
            ),
        forall|k: int|
            0 <= k < waits@.len() ==> {
                let w = #[trigger] waits@[k];
                let t = old(tasks)@[w.index as int]@;
                &&& w.index < old(tasks)@.len()
                &&& is_waiting(t, now)
                &&& w.file_path@ == t.file_path
                &&& w.remaining_ms == t.delete_at - now
            },
        forall|k1: int, k2: int|
            0 <= k1 < k2 < waits@.len() ==> #[trigger] waits@[k1].index < #[trigger] waits@[k2].index,
        forall|i: int|
            0 <= i < old(tasks)@.len() && #[trigger] is_waiting(old(tasks)@[i]@, now) ==> exists|
                k: int,
            |
                0 <= k < waits@.len() && #[trigger] waits@[k].index == i,
{
    let mut waits: Vec<Wait> = Vec::new();
    let mut i: usize = 0;
    while i < tasks.len()
        invariant
            i <= tasks@.len(),
            tasks@.len() == old(tasks)@.len(),
            forall|j: int| 0 <= j < i ==> #[trigger] tasks@[j]@ == reconciled(old(tasks)@[j]@, now),
            forall|j: int| i <= j < tasks@.len() ==> #[trigger] tasks@[j]@ == old(tasks)@[j]@,
            forall|k: int|
                0 <= k < waits@.len() ==> {
                    let w = #[trigger] waits@[k];
                    let t = old(tasks)@[w.index as int]@;
                    &&& w.index < i
                    &&& is_waiting(t, now)
                    &&& w.file_path@ == t.file_path
                    &&& w.remaining_ms == t.delete_at - now
                },
            forall|k1: int, k2: int|
                0 <= k1 < k2 < waits@.len() ==> #[trigger] waits@[k1].index < #[trigger] waits@[k2].index,
            forall|j: int|
                0 <= j < i && #[trigger] is_waiting(old(tasks)@[j]@, now) ==> exists|k: int|
                    0 <= k < waits@.len() && #[trigger] waits@[k].index == j,
        decreases tasks@.len() - i,
    {
        proof {
            assert(tasks@[i as int]@ == old(tasks)@[i as int]@);
        }
        if matches!(tasks[i].status, TaskStatus::Pending) {
            if tasks[i].delete_at <= now {
                let mut t = copy_task(&tasks[i]);
                t.status = TaskStatus::Expired;
                tasks.set(i, t);
            } else {
                let remaining = (tasks[i].delete_at as i128 - now as i128) as u64;
                let path = tasks[i].file_path.clone();
                let w = Wait { index: i, file_path: path, remaining_ms: remaining };
                let ghost before = waits@;
                waits.push(w);
                proof {
                    assert(path@ == old(tasks)@[i as int]@.file_path);
                    assert(waits@[before.len() as int] == w);
                    assert forall|k: int| 0 <= k < before.len() implies #[trigger] waits@[k]
                        == before[k] by {}
                    assert(waits@[before.len() as int].index == i);
                    assert forall|j: int|
                        0 <= j < i + 1 && #[trigger] is_waiting(old(tasks)@[j]@, now) implies exists|
                            k: int,
                        |
                            0 <= k < waits@.len() && #[trigger] waits@[k].index == j by {
                        if j < i {
                            let k = choose|k: int|
                                0 <= k < before.len() && #[trigger] before[k].index == j;
                            assert(waits@[k] == before[k]);
                        } else {
                            assert(waits@[before.len() as int].index == j);
                        }
                    }
                }
            }
        }
        i = i + 1;
    }
    waits
}

/// The status a task takes from one outcome, when it is the task at
/// position `i`: only a pending task moves, and only to a final status.
pub open spec fn step(st: TaskStatus, o: Outcome, i: int) -> TaskStatus {
    if o.index == i && st is Pending && !(o.status is Pending) {
        o.status
    } else {
        st
    }
}

/// The status of the task at position `i` after the outcomes `outs` were
/// applied in order to a task of status `st`.
pub open spec fn settle(st: TaskStatus, outs: Seq<Outcome>, i: int) -> TaskStatus
    decreases outs.len(),
{
    if outs.len() == 0 {
        st
    } else {
        step(settle(st, outs.drop_last(), i), outs.last(), i)
    }
}

/// Writes each recorded outcome into the task at its index. A task that is
/// no longer pending keeps its status; outcomes with an index past the end
/// are ignored. Nothing but statuses changes.
pub fn merge_outcomes(tasks: &mut Vec<Task>, outcomes: &Vec<Outcome>)
    ensures
        final(tasks)@.len() == old(tasks)@.len(),
        forall|i: int|
            0 <= i < old(tasks)@.len() ==> #[trigger] final(tasks)@[i]@ == (TaskView {
                status: settle(old(tasks)@[i]@.status, outcomes@, i),
                ..old(tasks)@[i]@
            }),
{
    let mut k: usize = 0;
    while k < outcomes.len()
        invariant
            k <= outcomes@.len(),
            tasks@.len() == old(tasks)@.len(),
            forall|i: int|
                0 <= i < old(tasks)@.len() ==> #[trigger] tasks@[i]@ == (TaskView {
                    status: settle(old(tasks)@[i]@.status, outcomes@.take(k as int), i),
                    ..old(tasks)@[i]@
                }),
        decreases outcomes@.len() - k,
    {
        let o = outcomes[k];
        let ghost prev = tasks@;
        proof {
            assert forall|i: int| 0 <= i < old(tasks)@.len() implies settle(
                old(tasks)@[i]@.status,
                outcomes@.take(k as int + 1),
                i,
            ) == step(settle(old(tasks)@[i]@.status, outcomes@.take(k as int), i), o, i) by {
                assert(outcomes@.take(k as int + 1).drop_last() =~= outcomes@.take(k as int));
            }
        }
        if o.index < tasks.len() && matches!(tasks[o.index].status, TaskStatus::Pending)
            && o.status.is_terminal() {
            let mut t = copy_task(&tasks[o.index]);
            t.status = o.status;
            tasks.set(o.index, t);
        }
        k = k + 1;
    }
    proof {
        assert(outcomes@.take(outcomes@.len() as int) =~= outcomes@);
    }
}

/// The outcome of a deletion attempt on the task at `index`: `Completed`
/// when the file was removed, `Failed` otherwise.
pub fn deletion_outcome(index: usize, deleted: bool) -> (r: Outcome)
    ensures
        r.index == index,
        r.status == (if deleted { TaskStatus::Completed } else { TaskStatus::Failed }),
{
    Outcome { index, status: if deleted { TaskStatus::Completed } else { TaskStatus::Failed } }
}

/// The outcomes recorded so far by the waiters of one run, in the order
/// they arrived.
pub struct OutcomeLog {
    pub entries: Vec<Outcome>,
}

impl OutcomeLog {
    /// An empty log.
    pub fn new() -> (r: OutcomeLog)
        ensures
            r.entries@.len() == 0,
    {
        OutcomeLog { entries: Vec::new() }
    }

    /// Appends one outcome; nothing recorded before is lost or changed.
    pub fn record(&mut self, o: Outcome)
        ensures
            final(self).entries@ == old(self).entries@.push(o),
    {
        self.entries.push(o);
    }

    /// Applies every recorded outcome to `tasks`, as `merge_outcomes` does.
    pub fn merge_into(&self, tasks: &mut Vec<Task>)
        ensures
            final(tasks)@.len() == old(tasks)@.len(),
            forall|i: int|
                0 <= i < old(tasks)@.len() ==> #[trigger] final(tasks)@[i]@ == (TaskView {
                    status: settle(old(tasks)@[i]@.status, self.entries@, i),
                    ..old(tasks)@[i]@
                }),
    {
        merge_outcomes(tasks, &self.entries);
    }
}

} // verus!

verus! {

/// The outcomes in `outs` that speak of the task at position `i`.
pub open spec fn outcomes_for(outs: Seq<Outcome>, i: int) -> Seq<Outcome> {
    outs.filter(|o: Outcome| o.index == i)
}

/// A task's final status depends only on the outcomes recorded for that
/// task, whatever the outcomes of other tasks are and wherever they fall
/// between its own.
pub proof fn lemma_settle_only_own(st: TaskStatus, outs: Seq<Outcome>, i: int)
    ensures
        settle(st, outs, i) == settle(st, outcomes_for(outs, i), i),
    decreases outs.len(),
{
    reveal(Seq::filter);
    if outs.len() > 0 {
        lemma_settle_only_own(st, outs.drop_last(), i);
        let sub = outcomes_for(outs.drop_last(), i);
        if outs.last().index == i {
            assert(outcomes_for(outs, i) == sub.push(outs.last()));
            assert(sub.push(outs.last()).drop_last() =~= sub);
        } else {
            assert(outcomes_for(outs, i) == sub);
        }
    }
}

/// The order in which waiters of different tasks recorded their outcomes
/// does not matter: two logs that hold the same outcomes for a task, in
/// the same order, give that task the same status.
pub proof fn lemma_merge_order_free(st: TaskStatus, a: Seq<Outcome>, b: Seq<Outcome>, i: int)
    requires
        outcomes_for(a, i) == outcomes_for(b, i),
    ensures
        settle(st, a, i) == settle(st, b, i),
{
    lemma_settle_only_own(st, a, i);
    lemma_settle_only_own(st, b, i);
}

/// A task in a final status keeps it, whatever outcomes are merged.
pub proof fn lemma_final_status_kept(st: TaskStatus, outs: Seq<Outcome>, i: int)
    requires
        !(st is Pending),
    ensures
        settle(st, outs, i) == st,
    decreases outs.len(),
{
    if outs.len() > 0 {
        lemma_final_status_kept(st, outs.drop_last(), i);
    }
}

/// A pending task with exactly one outcome for it takes that outcome's
/// final status; with none it stays pending.
pub proof fn lemma_single_outcome(outs: Seq<Outcome>, i: int)
    requires
        outcomes_for(outs, i).len() <= 1,
    ensures
        outcomes_for(outs, i).len() == 0 ==> settle(TaskStatus::Pending, outs, i)
            == TaskStatus::Pending,
        outcomes_for(outs, i).len() == 1 ==> settle(TaskStatus::Pending, outs, i) == step(
            TaskStatus::Pending,
            outcomes_for(outs, i)[0],
            i,
        ),
{
    lemma_settle_only_own(TaskStatus::Pending, outs, i);
    let own = outcomes_for(outs, i);
    if own.len() == 1 {
        assert(own.drop_last() =~= Seq::<Outcome>::empty());
        assert(settle(TaskStatus::Pending, own.drop_last(), i) == TaskStatus::Pending);
        assert(own.last() == own[0]);
    }
}

} // verus!
