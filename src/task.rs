use vstd::prelude::*;

verus! {

/// Where a task stands in its life. `Pending` is the only state a task
/// ever leaves; the other four are final.
#[derive(Clone, Copy, Debug, PartialEq, Eq, Structural)]
pub enum TaskStatus {
    Pending,
    Completed,
    Expired,
    Cancelled,
    Failed,
}

impl TaskStatus {
    /// Every status but `Pending` is final.
    pub fn is_terminal(&self) -> (r: bool)
        ensures
            r == !(*self is Pending),
    {
        !matches!(self, TaskStatus::Pending)
    }
}

/// One scheduled deletion. Times are milliseconds since the Unix epoch, UTC.
#[derive(Debug)]
pub struct Task {
    pub file_path: String,
    pub created_at: i64,
    pub delete_at: i64,
    pub status: TaskStatus,
}

/// The mathematical value of a task.
pub struct TaskView {
    pub file_path: Seq<char>,
    pub created_at: i64,
    pub delete_at: i64,
    pub status: TaskStatus,
}

impl View for Task {
    type V = TaskView;

    open spec fn view(&self) -> TaskView {
        TaskView {
            file_path: self.file_path@,
            created_at: self.created_at,
            delete_at: self.delete_at,
            status: self.status,
        }
    }
}

/// The views of a sequence of tasks.
pub open spec fn tasks_view(v: Seq<Task>) -> Seq<TaskView> {
    v.map_values(|t: Task| t@)
}

/// A copy of a task that keeps its view.
pub fn copy_task(t: &Task) -> (r: Task)
    ensures
        r@ == t@,
{
    Task {
        file_path: t.file_path.clone(),
        created_at: t.created_at,
        delete_at: t.delete_at,
        status: t.status,
    }
}

/// The first instant the store can write: 0000-01-01T00:00:00.000Z.
pub const MIN_WRITABLE_MS: i64 = -62167219200000;

/// The last instant the store can write: 9999-12-31T23:59:59.999Z.
pub const MAX_WRITABLE_MS: i64 = 253402300799999;

/// An instant whose year lies in 0..=9999, which RFC 3339 text can hold.
pub open spec fn writable_time(ms: int) -> bool {
    -62167219200000 <= ms <= 253402300799999
}

/// Whether `ms` is a writable instant.
pub fn is_writable_time(ms: i64) -> (r: bool)
    ensures
        r == writable_time(ms as int),
{
    MIN_WRITABLE_MS <= ms && ms <= MAX_WRITABLE_MS
}

/// Both times of every task are writable.
pub open spec fn all_times_writable(ts: Seq<TaskView>) -> bool {
    forall|i: int|
        0 <= i < ts.len() ==> writable_time(#[trigger] ts[i].delete_at as int) && writable_time(
            ts[i].created_at as int,
        )
}

/// How many tasks of `s` have status `st`.
pub open spec fn count_status(s: Seq<TaskView>, st: TaskStatus) -> nat
    decreases s.len(),
{
    if s.len() == 0 {
        0
    } else {
        count_status(s.drop_last(), st) + if s.last().status == st { 1nat } else { 0nat }
    }
}

proof fn lemma_count_bounded(s: Seq<TaskView>, st: TaskStatus)
    ensures
        count_status(s, st) <= s.len(),
    decreases s.len(),
{
    if s.len() > 0 {
        lemma_count_bounded(s.drop_last(), st);
    }
}

/// How many tasks stand in each status.
#[derive(Clone, Copy, Debug, PartialEq, Eq, Structural)]
pub struct StatusCounts {
    pub pending: usize,
    pub completed: usize,
    pub expired: usize,
    pub cancelled: usize,
    pub failed: usize,
}

/// Counts the tasks of each status.
pub fn summarize(tasks: &Vec<Task>) -> (r: StatusCounts)
    ensures
        r.pending == count_status(tasks_view(tasks@), TaskStatus::Pending),
        r.completed == count_status(tasks_view(tasks@), TaskStatus::Completed),
        r.expired == count_status(tasks_view(tasks@), TaskStatus::Expired),
        r.cancelled == count_status(tasks_view(tasks@), TaskStatus::Cancelled),
        r.failed == count_status(tasks_view(tasks@), TaskStatus::Failed),
{
    let mut r = StatusCounts { pending: 0, completed: 0, expired: 0, cancelled: 0, failed: 0 };
    let mut i: usize = 0;
    while i < tasks.len()
        invariant
            i <= tasks.len(),
            r.pending == count_status(tasks_view(tasks@.take(i as int)), TaskStatus::Pending),
            r.completed == count_status(tasks_view(tasks@.take(i as int)), TaskStatus::Completed),
            r.expired == count_status(tasks_view(tasks@.take(i as int)), TaskStatus::Expired),
            r.cancelled == count_status(tasks_view(tasks@.take(i as int)), TaskStatus::Cancelled),
            r.failed == count_status(tasks_view(tasks@.take(i as int)), TaskStatus::Failed),
        decreases tasks.len() - i,
    {
        let ghost prev = tasks_view(tasks@.take(i as int));
        let ghost next = tasks_view(tasks@.take(i as int + 1));
        proof {
            assert(next.drop_last() =~= prev);
            assert(next.last() == tasks@[i as int]@);
            lemma_count_bounded(prev, TaskStatus::Pending);
            lemma_count_bounded(prev, TaskStatus::Completed);
            lemma_count_bounded(prev, TaskStatus::Expired);
            lemma_count_bounded(prev, TaskStatus::Cancelled);
            lemma_count_bounded(prev, TaskStatus::Failed);
        }
        match tasks[i].status {
            TaskStatus::Pending => r.pending = r.pending + 1,
            TaskStatus::Completed => r.completed = r.completed + 1,
            TaskStatus::Expired => r.expired = r.expired + 1,
            TaskStatus::Cancelled => r.cancelled = r.cancelled + 1,
            TaskStatus::Failed => r.failed = r.failed + 1,
        }
        i = i + 1;
    }
    proof {
        assert(tasks@.take(tasks@.len() as int) =~= tasks@);
    }
    r
}

} // verus!

verus! {

/// The failures that end a run.
#[derive(Clone, Copy, Debug, PartialEq, Eq, Structural)]
pub enum SchedulerError {
    /// The command line named a file without a delay, or the reverse, or
    /// the delay puts the deadline out of range.
    UsageError,
    /// The persisted document exists but cannot be decoded.
    CorruptState,
    /// The task list could not be written.
    PersistenceFailure,
}

} // verus!
