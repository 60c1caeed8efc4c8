use vstd::prelude::*;

use chrono::{DateTime, SecondsFormat, Utc};

use crate::codec::{
    decode_document, document_text, encode_document, holds_records, records_view, Record, RecordView,
};
use crate::schedule::{settle, OutcomeLog};
use crate::task::{
    all_times_writable, is_writable_time, tasks_view, writable_time, SchedulerError, Task, TaskView,
};

verus! {

/// The RFC 3339 text, in UTC with milliseconds and a `Z`, of the instant
/// `ms` milliseconds after the Unix epoch.
pub uninterp spec fn rfc3339_text(ms: i64) -> Seq<char>;

/// The instant, in milliseconds since the Unix epoch, that an RFC 3339
/// text names; `None` where the text is not RFC 3339.
pub uninterp spec fn rfc3339_millis(s: Seq<char>) -> Option<i64>;

/// Relies on chrono's `DateTime::<Utc>::from_timestamp_millis` and
/// `DateTime::to_rfc3339_opts(SecondsFormat::Millis, true)`: the text of an
/// instant, or `None` where chrono cannot represent it. For a year in
/// 0..=9999 chrono represents the instant, writes four year digits, and its
/// RFC 3339 parser reads the text back as the same millisecond.
#[verifier::external_body]
fn time_text(ms: i64) -> (r: Option<String>)
    ensures
        r matches Some(s) ==> s@ == rfc3339_text(ms),
        writable_time(ms as int) ==> r is Some,
        writable_time(ms as int) ==> rfc3339_millis(r->0@) == Some(ms),
{
    match DateTime::<Utc>::from_timestamp_millis(ms) {
        Some(d) => Some(d.to_rfc3339_opts(SecondsFormat::Millis, true)),
        None => None,
    }
}

/// Relies on chrono's `DateTime::parse_from_rfc3339` and
/// `DateTime::timestamp_millis`: the instant an RFC 3339 text names.
#[verifier::external_body]
fn parse_time(s: &str) -> (r: Option<i64>)
    ensures
        r == rfc3339_millis(s@),
{
    match DateTime::parse_from_rfc3339(s) {
        Ok(d) => Some(d.timestamp_millis()),
        Err(_) => None,
    }
}

/// A task as the document writes it.
pub open spec fn record_of(t: TaskView) -> RecordView {
    RecordView {
        file_path: t.file_path,
        delete_at: rfc3339_text(t.delete_at),
        created_at: rfc3339_text(t.created_at),
        status: t.status,
    }
}

/// The records of a sequence of tasks.
pub open spec fn records_of(ts: Seq<TaskView>) -> Seq<RecordView> {
    ts.map_values(|t: TaskView| record_of(t))
}

/// The task a record stands for, where both of its times can be read.
pub open spec fn task_of(r: RecordView) -> Option<TaskView> {
    match (rfc3339_millis(r.delete_at), rfc3339_millis(r.created_at)) {
        (Some(d), Some(c)) => Some(
            TaskView { file_path: r.file_path, created_at: c, delete_at: d, status: r.status },
        ),
        _ => None,
    }
}

/// `text` holds records that stand, one for one and in order, for the
/// tasks `ts`.
pub open spec fn loads_as(text: Seq<char>, ts: Seq<TaskView>) -> bool {
    exists|rs: Seq<RecordView>|
        #![trigger holds_records(text, rs)]
        holds_records(text, rs) && rs.len() == ts.len() && forall|k: int|
            0 <= k < rs.len() ==> task_of(#[trigger] rs[k]) == Some(ts[k])
}

/// The record of one task, whose times are writable.
fn record_from_task(t: &Task) -> (r: Option<Record>)
    ensures
        r matches Some(rec) ==> rec@ == record_of(t@),
        writable_time(t.delete_at as int) && writable_time(t.created_at as int) ==> (r matches Some(
            rec,
        ) && task_of(rec@) == Some(t@)),
{
    let deadline = time_text(t.delete_at)?;
    let created = time_text(t.created_at)?;
    Some(Record { file_path: t.file_path.clone(), delete_at: deadline, created_at: created, status: t.status })
}

/// The task of one record, or `None` where a time cannot be read.
fn task_from_record(r: &Record) -> (t: Option<Task>)
    ensures
        match t {
            Some(t) => task_of(r@) == Some(t@),
            None => task_of(r@) is None,
        },
{
    let deadline = parse_time(r.delete_at.as_str());
    let created = parse_time(r.created_at.as_str());
    match (deadline, created) {
        (Some(d), Some(c)) => Some(
            Task { file_path: r.file_path.clone(), created_at: c, delete_at: d, status: r.status },
        ),
        _ => None,
    }
}

/// The document that holds `tasks`, in their order. It is written exactly
/// when every time is writable, else the result is `PersistenceFailure`.
/// The text written loads back as the same tasks: `load_document` gives
/// exactly the tasks a text `loads_as`.
pub fn save_document(tasks: &Vec<Task>) -> (r: Result<String, SchedulerError>)
    ensures
        r is Ok <==> all_times_writable(tasks_view(tasks@)),
        r matches Ok(s) ==> s@ == document_text(records_of(tasks_view(tasks@))),
        r matches Ok(s) ==> loads_as(s@, tasks_view(tasks@)),
        r is Err ==> r == Err::<String, SchedulerError>(SchedulerError::PersistenceFailure),
{
    let ghost want = records_of(tasks_view(tasks@));
    let ghost ts = tasks_view(tasks@);
    let mut recs: Vec<Record> = Vec::new();
    let mut k: usize = 0;
    while k < tasks.len()
        invariant
            k <= tasks@.len(),
            want == records_of(tasks_view(tasks@)),
            ts == tasks_view(tasks@),
            records_view(recs@) == want.take(k as int),
            forall|j: int| 0 <= j < k ==> task_of(#[trigger] want[j]) == Some(ts[j]),
            forall|j: int|
                0 <= j < k ==> writable_time(#[trigger] ts[j].delete_at as int) && writable_time(
                    ts[j].created_at as int,
                ),
        decreases tasks@.len() - k,
    {
        if !is_writable_time(tasks[k].delete_at) || !is_writable_time(tasks[k].created_at) {
            proof {
                assert(!(writable_time(ts[k as int].delete_at as int) && writable_time(
                    ts[k as int].created_at as int,
                )));
            }
            return Err(SchedulerError::PersistenceFailure);
        }
        match record_from_task(&tasks[k]) {
            Some(rec) => {
                let ghost prev = records_view(recs@);
                recs.push(rec);
                assert(want[k as int] == record_of(tasks@[k as int]@));
                assert(records_view(recs@) =~= prev.push(rec@));
                assert(records_view(recs@) =~= want.take(k as int + 1));
            },
            None => {
                return Err(SchedulerError::PersistenceFailure);
            },
        }
        k = k + 1;
    }
    assert(want.take(tasks@.len() as int) =~= want);
    let out = encode_document(&recs);
    proof {
        assert(document_text(want) == out@);
        assert(holds_records(out@, want));
        assert(loads_as(out@, ts));
    }
    Ok(out)
}

/// Reads the task list from the stored document, `None` meaning that no
/// document exists yet. A missing document gives no tasks. A document, laid
/// out as `save_document` writes it or with any JSON white space between
/// its tokens, gives exactly the tasks it holds; any other text, or a time
/// that cannot be read, gives `CorruptState` and no tasks at all.
pub fn load_document(contents: Option<String>) -> (r: Result<Vec<Task>, SchedulerError>)
    ensures
        contents is None ==> (r matches Ok(v) && v@.len() == 0),
        contents matches Some(text) ==> (r matches Ok(v) ==> loads_as(text@, tasks_view(v@))),
        contents matches Some(text) ==> forall|ts: Seq<TaskView>| #[trigger]
            loads_as(text@, ts) ==> (r matches Ok(v) && tasks_view(v@) == ts),
        r is Err ==> r == Err::<Vec<Task>, SchedulerError>(SchedulerError::CorruptState),
{
    let text = match contents {
        None => {
            return Ok(Vec::new());
        },
        Some(text) => text,
    };
    let recs = match decode_document(text.as_str()) {
        Some(recs) => recs,
        None => {
            proof {
                assert forall|ts: Seq<TaskView>| !#[trigger] loads_as(text@, ts) by {
                    if loads_as(text@, ts) {
                        let rs = choose|rs: Seq<RecordView>| #![trigger holds_records(text@, rs)]
                            holds_records(text@, rs) && rs.len() == ts.len() && forall|k: int|
                                0 <= k < rs.len() ==> task_of(#[trigger] rs[k]) == Some(ts[k]);
                    }
                }
            }
            return Err(SchedulerError::CorruptState);
        },
    };
    let ghost rv = records_view(recs@);
    let mut out: Vec<Task> = Vec::new();
    let mut k: usize = 0;
    while k < recs.len()
        invariant
            k <= recs@.len(),
            contents == Some(text),
            rv == records_view(recs@),
            holds_records(text@, rv),
            out@.len() == k,
            forall|j: int| 0 <= j < k ==> task_of(rv[j]) == Some(#[trigger] out@[j]@),
            forall|rs: Seq<RecordView>| #[trigger] holds_records(text@, rs) ==> rs == rv,
        decreases recs@.len() - k,
    {
        match task_from_record(&recs[k]) {
            Some(t) => {
                out.push(t);
            },
            None => {
                proof {
                    assert forall|ts: Seq<TaskView>| !#[trigger] loads_as(text@, ts) by {
                        if loads_as(text@, ts) {
                            let rs = choose|rs: Seq<RecordView>| #![trigger holds_records(text@, rs)]
                                holds_records(text@, rs) && rs.len() == ts.len() && forall|j: int|
                                    0 <= j < rs.len() ==> task_of(#[trigger] rs[j]) == Some(ts[j]);
                            assert(rs == rv);
                            assert(task_of(rs[k as int]) == Some(ts[k as int]));
                        }
                    }
                }
                return Err(SchedulerError::CorruptState);
            },
        }
        k = k + 1;
    }
    proof {
        assert(rv.len() == tasks_view(out@).len());
        assert forall|j: int| 0 <= j < rv.len() implies task_of(#[trigger] rv[j]) == Some(
            tasks_view(out@)[j],
        ) by {
            assert(task_of(rv[j]) == Some(out@[j]@));
        }
        assert(loads_as(text@, tasks_view(out@)));
        assert forall|ts: Seq<TaskView>| #[trigger] loads_as(text@, ts) implies tasks_view(out@) == ts by {
            let rs = choose|rs: Seq<RecordView>| #![trigger holds_records(text@, rs)]
                holds_records(text@, rs) && rs.len() == ts.len() && forall|j: int|
                    0 <= j < rs.len() ==> task_of(#[trigger] rs[j]) == Some(ts[j]);
            assert(rs == rv);
            assert forall|j: int| 0 <= j < ts.len() implies tasks_view(out@)[j] == ts[j] by {
                assert(task_of(rv[j]) == Some(out@[j]@));
                assert(task_of(rs[j]) == Some(ts[j]));
            }
            assert(tasks_view(out@) =~= ts);
        }
    }
    Ok(out)
}

/// The shutdown step of a run: writes every outcome recorded so far into
/// `tasks`, then gives the document of the merged list to persist.
pub fn shutdown_document(tasks: &mut Vec<Task>, log: &OutcomeLog) -> (r: Result<String, SchedulerError>)
    ensures
        final(tasks)@.len() == old(tasks)@.len(),
        forall|i: int|
            0 <= i < old(tasks)@.len() ==> #[trigger] final(tasks)@[i]@ == (TaskView {
                status: settle(old(tasks)@[i]@.status, log.entries@, i),
                ..old(tasks)@[i]@
            }),
        r is Ok <==> all_times_writable(tasks_view(final(tasks)@)),
        r matches Ok(s) ==> s@ == document_text(records_of(tasks_view(final(tasks)@))),
        r matches Ok(s) ==> loads_as(s@, tasks_view(final(tasks)@)),
        r is Err ==> r == Err::<String, SchedulerError>(SchedulerError::PersistenceFailure),
{
    log.merge_into(tasks);
    save_document(tasks)
}

} // verus!
