use file_reaper::codec::{decode_document, encode_document, status_from_tag, status_tag_chars, Record};
use file_reaper::ingest::{ingest, new_task, request_from_args};
use file_reaper::schedule::{deletion_outcome, merge_outcomes, reconcile, Outcome, OutcomeLog};
use file_reaper::store::{load_document, save_document, shutdown_document};
use file_reaper::task::{summarize, SchedulerError, Task, TaskStatus};

const NOW: i64 = 1_700_000_000_000;

fn task(path: &str, delete_at: i64, status: TaskStatus) -> Task {
    Task { file_path: path.to_string(), created_at: NOW - 1000, delete_at, status }
}

fn record(path: &str, status: TaskStatus) -> Record {
    Record {
        file_path: path.to_string(),
        delete_at: "2024-01-02T03:04:05.006Z".to_string(),
        created_at: "2024-01-01T00:00:00.000Z".to_string(),
        status,
    }
}

#[test]
fn overdue_pending_task_expires_without_wait() {
    let mut tasks = vec![task("old.txt", NOW - 1, TaskStatus::Pending)];
    let waits = reconcile(&mut tasks, NOW);
    assert_eq!(tasks[0].status, TaskStatus::Expired);
    assert!(waits.is_empty());
}

#[test]
fn future_pending_task_gets_wait_with_remaining_time() {
    let mut tasks = vec![
        task("done.txt", NOW + 10, TaskStatus::Completed),
        task("later.txt", NOW + 90_000, TaskStatus::Pending),
    ];
    let waits = reconcile(&mut tasks, NOW);
    assert_eq!(waits.len(), 1);
    assert_eq!(waits[0].index, 1);
    assert_eq!(waits[0].file_path, "later.txt");
    assert_eq!(waits[0].remaining_ms, 90_000);
    assert_eq!(tasks[1].status, TaskStatus::Pending);
    assert_eq!(tasks[0].status, TaskStatus::Completed);
}

#[test]
fn deadline_exactly_now_expires() {
    let mut tasks = vec![task("edge.txt", NOW, TaskStatus::Pending)];
    let waits = reconcile(&mut tasks, NOW);
    assert_eq!(tasks[0].status, TaskStatus::Expired);
    assert!(waits.is_empty());
}

#[test]
fn extreme_deadline_remaining_fits() {
    let mut tasks = vec![task("far.txt", i64::MAX, TaskStatus::Pending)];
    let waits = reconcile(&mut tasks, i64::MIN);
    assert_eq!(waits[0].remaining_ms, u64::MAX);
}

#[test]
fn terminal_tasks_untouched_by_reconcile() {
    let mut tasks = vec![
        task("a", NOW - 5, TaskStatus::Failed),
        task("b", NOW - 5, TaskStatus::Cancelled),
        task("c", NOW + 5, TaskStatus::Expired),
    ];
    let waits = reconcile(&mut tasks, NOW);
    assert!(waits.is_empty());
    assert_eq!(tasks[0].status, TaskStatus::Failed);
    assert_eq!(tasks[1].status, TaskStatus::Cancelled);
    assert_eq!(tasks[2].status, TaskStatus::Expired);
}

#[test]
fn ingest_zero_delay_then_reconcile_expires() {
    let mut tasks: Vec<Task> = Vec::new();
    assert_eq!(ingest(&mut tasks, "a.txt".to_string(), 0, NOW), Ok(()));
    let waits = reconcile(&mut tasks, NOW);
    assert_eq!(tasks.len(), 1);
    assert_eq!(tasks[0].file_path, "a.txt");
    assert_eq!(tasks[0].status, TaskStatus::Expired);
    assert!(waits.is_empty());
}

#[test]
fn shutdown_before_deadline_keeps_pending() {
    let mut tasks: Vec<Task> = Vec::new();
    assert_eq!(ingest(&mut tasks, "b.txt".to_string(), 5, NOW), Ok(()));
    assert_eq!(tasks[0].delete_at, NOW + 300_000);
    let waits = reconcile(&mut tasks, NOW);
    assert_eq!(waits.len(), 1);
    assert_eq!(waits[0].remaining_ms, 300_000);
    let log = OutcomeLog::new();
    let doc = shutdown_document(&mut tasks, &log).unwrap();
    let loaded = load_document(Some(doc)).unwrap();
    assert_eq!(loaded.len(), 1);
    assert_eq!(loaded[0].file_path, "b.txt");
    assert_eq!(loaded[0].status, TaskStatus::Pending);
}

#[test]
fn two_due_tasks_complete_in_either_order() {
    for order in [[0usize, 1usize], [1usize, 0usize]] {
        let mut tasks = vec![
            task("x.txt", NOW + 1000, TaskStatus::Pending),
            task("y.txt", NOW + 1000, TaskStatus::Pending),
        ];
        let waits = reconcile(&mut tasks, NOW);
        assert_eq!(waits.len(), 2);
        assert_eq!(waits[0].remaining_ms, 1000);
        assert_eq!(waits[1].remaining_ms, 1000);
        let mut log = OutcomeLog::new();
        for k in order {
            log.record(deletion_outcome(waits[k].index, true));
        }
        let doc = shutdown_document(&mut tasks, &log).unwrap();
        let loaded = load_document(Some(doc)).unwrap();
        assert_eq!(loaded[0].status, TaskStatus::Completed);
        assert_eq!(loaded[1].status, TaskStatus::Completed);
    }
}

#[test]
fn failed_deletion_recorded_and_others_proceed() {
    let mut tasks = vec![
        task("missing.txt", NOW + 1000, TaskStatus::Pending),
        task("present.txt", NOW + 2000, TaskStatus::Pending),
    ];
    let waits = reconcile(&mut tasks, NOW);
    let mut log = OutcomeLog::new();
    log.record(deletion_outcome(waits[0].index, false));
    log.record(deletion_outcome(waits[1].index, true));
    let doc = shutdown_document(&mut tasks, &log).unwrap();
    let loaded = load_document(Some(doc)).unwrap();
    assert_eq!(loaded[0].status, TaskStatus::Failed);
    assert_eq!(loaded[1].status, TaskStatus::Completed);
}

#[test]
fn deletion_outcome_statuses() {
    assert_eq!(deletion_outcome(3, true), Outcome { index: 3, status: TaskStatus::Completed });
    assert_eq!(deletion_outcome(4, false), Outcome { index: 4, status: TaskStatus::Failed });
}

#[test]
fn merge_keeps_final_status_and_ignores_out_of_range() {
    let mut tasks = vec![task("a", NOW, TaskStatus::Expired), task("b", NOW, TaskStatus::Pending)];
    let outs = vec![
        Outcome { index: 0, status: TaskStatus::Completed },
        Outcome { index: 7, status: TaskStatus::Failed },
        Outcome { index: 1, status: TaskStatus::Failed },
        Outcome { index: 1, status: TaskStatus::Completed },
        Outcome { index: 1, status: TaskStatus::Pending },
    ];
    merge_outcomes(&mut tasks, &outs);
    assert_eq!(tasks[0].status, TaskStatus::Expired);
    assert_eq!(tasks[1].status, TaskStatus::Failed);
}

#[test]
fn merge_by_index_not_by_arrival() {
    let mut tasks = vec![
        task("a", NOW, TaskStatus::Completed),
        task("b", NOW, TaskStatus::Pending),
    ];
    let outs = vec![Outcome { index: 1, status: TaskStatus::Failed }];
    merge_outcomes(&mut tasks, &outs);
    assert_eq!(tasks[0].status, TaskStatus::Completed);
    assert_eq!(tasks[1].status, TaskStatus::Failed);
}

#[test]
fn missing_store_loads_empty() {
    assert_eq!(load_document(None).unwrap().len(), 0);
}

#[test]
fn malformed_store_is_corrupt() {
    for text in [
        "",
        "[",
        "not json",
        "[{\"file_path\":\"a\"}]",
        "[{\"file_path\":\"a\",\"delete_at\":\"2024-01-02T03:04:05.006Z\",\"created_at\":\"2024-01-01T00:00:00.000Z\",\"status\":\"Done\"}]",
        "[{\"file_path\":\"a\",\"delete_at\":\"yesterday\",\"created_at\":\"2024-01-01T00:00:00.000Z\",\"status\":\"Pending\"}]",
        "[{\"file_path\":\"a\",\"delete_at\":\"2024-01-02T03:04:05.006Z\",\"created_at\":\"2024-01-01T00:00:00.000Z\",\"status\":\"Pending\"},]",
        "[]x",
        "[{\"file_path\":\"a\",\"delete_at\":\"2024-01-02T03:04:05.006Z\",\"created_at\":\"2024-01-01T00:00:00.000Z\",\"status\":\"Pending\"}",
    ] {
        assert!(matches!(load_document(Some(text.to_string())), Err(SchedulerError::CorruptState)), "{}", text);
    }
}

#[test]
fn empty_document_round_trip() {
    let tasks: Vec<Task> = Vec::new();
    let doc = save_document(&tasks).unwrap();
    assert_eq!(doc, "[]");
    assert_eq!(load_document(Some(doc)).unwrap().len(), 0);
}

#[test]
fn save_writes_rfc3339_times() {
    let tasks = vec![Task {
        file_path: "f".to_string(),
        created_at: 0,
        delete_at: 947_638_923_004,
        status: TaskStatus::Pending,
    }];
    let doc = save_document(&tasks).unwrap();
    assert_eq!(
        doc,
        "[{\"file_path\":\"f\",\"delete_at\":\"2000-01-12T01:02:03.004Z\",\"created_at\":\"1970-01-01T00:00:00.000Z\",\"status\":\"Pending\"}]"
    );
}

#[test]
fn save_then_load_reproduces_tasks() {
    let tasks = vec![
        Task { file_path: "a \"q\" \\ b\n\t".to_string(), created_at: NOW, delete_at: NOW + 5, status: TaskStatus::Pending },
        Task { file_path: "ünï/☃".to_string(), created_at: -5, delete_at: 0, status: TaskStatus::Cancelled },
        Task { file_path: String::new(), created_at: 1, delete_at: 2, status: TaskStatus::Failed },
        Task { file_path: "e".to_string(), created_at: 3, delete_at: 4, status: TaskStatus::Expired },
        Task { file_path: "c".to_string(), created_at: 5, delete_at: 6, status: TaskStatus::Completed },
    ];
    let doc = save_document(&tasks).unwrap();
    let loaded = load_document(Some(doc.clone())).unwrap();
    assert_eq!(loaded.len(), tasks.len());
    for (a, b) in tasks.iter().zip(loaded.iter()) {
        assert_eq!(a.file_path, b.file_path);
        assert_eq!(a.created_at, b.created_at);
        assert_eq!(a.delete_at, b.delete_at);
        assert_eq!(a.status, b.status);
    }
    assert_eq!(save_document(&loaded).unwrap(), doc);
}

#[test]
fn loads_document_with_nanosecond_times() {
    let text = "[{\"file_path\":\"x\",\"delete_at\":\"2024-05-01T12:00:00.123456789Z\",\"created_at\":\"2024-05-01T11:55:00.000000001Z\",\"status\":\"Completed\"}]";
    let loaded = load_document(Some(text.to_string())).unwrap();
    assert_eq!(loaded[0].delete_at, 1_714_564_800_123);
    assert_eq!(loaded[0].status, TaskStatus::Completed);
}

#[test]
fn codec_escapes_and_reads_back() {
    let recs = vec![record("a\"b\\c\n\r\t\u{8}\u{c}d", TaskStatus::Pending), record("z", TaskStatus::Failed)];
    let doc = encode_document(&recs);
    assert!(doc.starts_with("[{\"file_path\":\"a\\\"b\\\\c\\n\\r\\t\\b\\fd\","));
    assert!(doc.contains("},{"));
    let back = decode_document(&doc).unwrap();
    assert_eq!(back.len(), 2);
    assert_eq!(back[0].file_path, recs[0].file_path);
    assert_eq!(back[1].status, TaskStatus::Failed);
    assert_eq!(back[0].delete_at, "2024-01-02T03:04:05.006Z");
}

#[test]
fn codec_rejects_raw_control_and_bad_escape() {
    assert!(decode_document("[{\"file_path\":\"a\nb\",\"delete_at\":\"x\",\"created_at\":\"y\",\"status\":\"Pending\"}]").is_none());
    assert!(decode_document("[{\"file_path\":\"a\\qb\",\"delete_at\":\"x\",\"created_at\":\"y\",\"status\":\"Pending\"}]").is_none());
    assert!(decode_document("[{\"file_path\":\"a\",\"delete_at\":\"x\",\"created_at\":\"y\",\"status\":\"Pending\"}]").is_some());
}

#[test]
fn status_tags_round_trip() {
    for st in [TaskStatus::Pending, TaskStatus::Completed, TaskStatus::Expired, TaskStatus::Cancelled, TaskStatus::Failed] {
        assert_eq!(status_from_tag(&status_tag_chars(st)), Some(st));
    }
    assert_eq!(status_from_tag(&"Pendin".chars().collect()), None);
}

#[test]
fn new_task_deadline_and_overflow() {
    let t = new_task("p".to_string(), 2, 1000).unwrap();
    assert_eq!(t.delete_at, 121_000);
    assert_eq!(t.created_at, 1000);
    assert_eq!(t.status, TaskStatus::Pending);
    assert!(new_task("p".to_string(), u64::MAX, 0).is_none());
    let mut tasks: Vec<Task> = Vec::new();
    assert_eq!(ingest(&mut tasks, "p".to_string(), u64::MAX, 0), Err(SchedulerError::UsageError));
    assert!(tasks.is_empty());
    assert!(new_task("p".to_string(), 1, 253_402_300_799_999 - 60_000).is_some());
    assert!(new_task("p".to_string(), 1, 253_402_300_799_999 - 59_999).is_none());
    assert!(new_task("p".to_string(), 0, -62_167_219_200_000).is_some());
    assert!(new_task("p".to_string(), 0, -62_167_219_200_001).is_none());
    // About 10^10 minutes lands past year 9999.
    assert!(new_task("p".to_string(), 10_000_000_000, NOW).is_none());
}

#[test]
fn request_needs_both_or_neither() {
    assert_eq!(request_from_args(Some("a".to_string()), None), Err(SchedulerError::UsageError));
    assert_eq!(request_from_args(None, Some(3)), Err(SchedulerError::UsageError));
    assert_eq!(request_from_args(None, None), Ok(None));
    assert_eq!(request_from_args(Some("a".to_string()), Some(3)), Ok(Some(("a".to_string(), 3))));
}

#[test]
fn summary_counts_each_status() {
    let tasks = vec![
        task("a", 0, TaskStatus::Pending),
        task("b", 0, TaskStatus::Pending),
        task("c", 0, TaskStatus::Completed),
        task("d", 0, TaskStatus::Failed),
        task("e", 0, TaskStatus::Cancelled),
    ];
    let s = summarize(&tasks);
    assert_eq!((s.pending, s.completed, s.expired, s.cancelled, s.failed), (2, 1, 0, 1, 1));
}

#[test]
fn terminal_flag() {
    assert!(!TaskStatus::Pending.is_terminal());
    assert!(TaskStatus::Cancelled.is_terminal());
}

#[test]
fn white_space_between_tokens_is_accepted() {
    assert_eq!(load_document(Some("[ ]".to_string())).unwrap().len(), 0);
    assert_eq!(load_document(Some(" [\n]\r\n".to_string())).unwrap().len(), 0);
    let text = "[\n  {\n    \"file_path\": \"a b.txt\",\n    \"delete_at\": \"2024-01-02T03:04:05.006Z\",\n    \"created_at\" : \"2024-01-01T00:00:00.000Z\",\n    \"status\":\t\"Failed\"\n  } ,\n  {\"file_path\":\"c\",\"delete_at\":\"2024-01-02T03:04:05.006Z\",\"created_at\":\"2024-01-01T00:00:00.000Z\",\"status\":\"Pending\"}\n]\n";
    let loaded = load_document(Some(text.to_string())).unwrap();
    assert_eq!(loaded.len(), 2);
    assert_eq!(loaded[0].file_path, "a b.txt");
    assert_eq!(loaded[0].status, TaskStatus::Failed);
    assert_eq!(loaded[1].file_path, "c");
}

#[test]
fn unwritable_times_fail_to_save() {
    let far = vec![task("far", 253_402_300_800_000, TaskStatus::Pending)];
    assert_eq!(save_document(&far), Err(SchedulerError::PersistenceFailure));
    let early = vec![Task { file_path: "e".to_string(), created_at: -62_167_219_200_001, delete_at: 0, status: TaskStatus::Pending }];
    assert_eq!(save_document(&early), Err(SchedulerError::PersistenceFailure));
    let edge = vec![Task { file_path: "e".to_string(), created_at: -62_167_219_200_000, delete_at: 253_402_300_799_999, status: TaskStatus::Pending }];
    let doc = save_document(&edge).unwrap();
    let back = load_document(Some(doc)).unwrap();
    assert_eq!(back[0].created_at, -62_167_219_200_000);
    assert_eq!(back[0].delete_at, 253_402_300_799_999);
}

#[test]
fn load_then_save_gives_same_document() {
    let tasks = vec![task("one", NOW + 1, TaskStatus::Pending), task("two", NOW - 1, TaskStatus::Expired)];
    let doc = save_document(&tasks).unwrap();
    let again = save_document(&load_document(Some(doc.clone())).unwrap()).unwrap();
    assert_eq!(again, doc);
}

#[test]
fn other_control_characters_use_unicode_escapes() {
    let recs = vec![record("a\u{1}b\u{1f}\u{0}\u{7f}", TaskStatus::Pending)];
    let doc = encode_document(&recs);
    assert!(doc.starts_with("[{\"file_path\":\"a\\u0001b\\u001f\\u0000\u{7f}\","));
    let back = decode_document(&doc).unwrap();
    assert_eq!(back[0].file_path, recs[0].file_path);
    // A short escape written the long way, or upper-case digits, is refused.
    assert!(decode_document("[{\"file_path\":\"\\u000a\",\"delete_at\":\"x\",\"created_at\":\"y\",\"status\":\"Pending\"}]").is_none());
    assert!(decode_document("[{\"file_path\":\"\\u001F\",\"delete_at\":\"x\",\"created_at\":\"y\",\"status\":\"Pending\"}]").is_none());
    assert!(decode_document("[{\"file_path\":\"\\u001e\",\"delete_at\":\"x\",\"created_at\":\"y\",\"status\":\"Pending\"}]").is_some());
}
