use vstd::prelude::*;

use crate::task::{
    is_writable_time, tasks_view, writable_time, SchedulerError, Task, TaskStatus, TaskView,
    MAX_WRITABLE_MS,
};

verus! {

/// Milliseconds in one minute.
pub const MS_PER_MINUTE: i64 = 60000;

/// The deadline of a task requested at `now` with a delay of `minutes`.
pub open spec fn deadline(now: i64, minutes: u64) -> int {
    now + minutes * 60000
}

/// Whether the request's times, now and the deadline, can be stored.
pub open spec fn deadline_fits(now: i64, minutes: u64) -> bool {
    writable_time(now as int) && writable_time(deadline(now, minutes))
}

/// The task requested at `now`: pending, created now, due `minutes` later.
pub open spec fn requested_task(file_path: Seq<char>, minutes: u64, now: i64) -> TaskView {
    TaskView {
        file_path,
        created_at: now,
        delete_at: deadline(now, minutes) as i64,
        status: TaskStatus::Pending,
    }
}

/// Builds the task for a request made at `now`, or `None` when `now` or
/// the deadline lies outside the years the store can write.
pub fn new_task(file_path: String, minutes: u64, now: i64) -> (r: Option<Task>)
    ensures
        r is Some <==> deadline_fits(now, minutes),
        r matches Some(t) ==> t@ == requested_task(file_path@, minutes, now),
{
    if !is_writable_time(now) {
        return None;
    }
    let limit: u64 = ((MAX_WRITABLE_MS as i128 - now as i128) / (MS_PER_MINUTE as i128)) as u64;
    if minutes > limit {
        proof {
            assert(minutes * 60000 > MAX_WRITABLE_MS - now) by (nonlinear_arith)
                requires
                    minutes > (MAX_WRITABLE_MS - now) / 60000,
                    MAX_WRITABLE_MS - now >= 0,
            ;
        }
        None
    } else {
        proof {
            assert(minutes * 60000 <= MAX_WRITABLE_MS - now) by (nonlinear_arith)
                requires
                    minutes <= (MAX_WRITABLE_MS - now) / 60000,
                    MAX_WRITABLE_MS - now >= 0,
            ;
        }
        let delete_at = (now as i128 + (minutes as i128) * (MS_PER_MINUTE as i128)) as i64;
        Some(Task { file_path, created_at: now, delete_at, status: TaskStatus::Pending })
    }
}

/// Appends the task requested at `now` to `tasks`. Fails with `UsageError`,
/// leaving `tasks` as it was, when `now` or the deadline cannot be stored.
pub fn ingest(tasks: &mut Vec<Task>, file_path: String, minutes: u64, now: i64) -> (r: Result<
    (),
    SchedulerError,
>)
    ensures
        r is Ok <==> deadline_fits(now, minutes),
        r is Ok ==> tasks_view(final(tasks)@) == tasks_view(old(tasks)@).push(
            requested_task(file_path@, minutes, now),
        ),
        r is Err ==> r == Err::<(), SchedulerError>(SchedulerError::UsageError) && final(tasks)@
            == old(tasks)@,
{
    match new_task(file_path, minutes, now) {
        Some(t) => {
            tasks.push(t);
            proof {
                assert(tasks_view(tasks@) =~= tasks_view(old(tasks)@).push(
                    requested_task(file_path@, minutes, now),
                ));
            }
            Ok(())
        },
        None => Err(SchedulerError::UsageError),
    }
}

/// Reads the optional request of the command line: a file and a delay are
/// given together or not at all.
pub fn request_from_args(file_path: Option<String>, minutes: Option<u64>) -> (r: Result<
    Option<(String, u64)>,
    SchedulerError,
>)
    ensures
        (file_path is Some) != (minutes is Some) ==> r == Err::<Option<(String, u64)>, SchedulerError>(
            SchedulerError::UsageError,
        ),
        file_path is None && minutes is None ==> r matches Ok(None),
        file_path is Some && minutes is Some ==> (r matches Ok(Some((p, m))) && p@
            == file_path->0@ && m == minutes->0),
{
    match (file_path, minutes) {
        (Some(p), Some(m)) => Ok(Some((p, m))),
        (None, None) => Ok(None),
        _ => Err(SchedulerError::UsageError),
    }
}

} // verus!
