use codex_queue_demo::runs::{
    artifact_from_bytes, save_checks_revision, Lookup, days_in_month, latest_task_runs, parse_task_run_id,
    revision_conflict_message, run_directory_prefix, run_timestamp, safe_file_name,
    snapshot_from_queue, sort_task_runs_newest, task_created_stamp, task_run_for, RunState,
    TaskRunSummary, MAX_ARTIFACT_BYTES,
};
use codex_queue_demo::worker::{queue_revision, revision_matches};
use codex_queue_demo::{Queue, RetryPolicy, Task, TaskStatus, Timestamp};

/// 2026-07-28T00:00:00Z
const BASE_SECONDS: i64 = 1_785_196_800;

fn task(id: &str, priority: i64) -> Task {
    Task {
        id: id.to_owned(),
        title: id.to_owned(),
        workspace: ".".to_owned(),
        prompt: format!("Complete {id}"),
        priority,
        depends_on: Vec::new(),
        status: TaskStatus::Pending,
        created_at: Timestamp { seconds: BASE_SECONDS, nanos: 0 },
        attempts: None,
        started_at: None,
        finished_at: None,
        last_error: None,
        blocked_reason: None,
        next_retry_at: None,
    }
}

fn names(ids: &[&str]) -> Vec<String> {
    ids.iter().map(|id| id.to_string()).collect()
}

#[test]
fn snapshot_exposes_the_authoritative_execution_order() {
    let queue = Queue {
        version: 1,
        launch_app: false,
        retry_policy: RetryPolicy::default(),
        tasks: vec![task("low", 1), task("high", 20)],
    };

    let snapshot = snapshot_from_queue("queue.json".to_owned(), queue, "revision-1".to_owned())
        .expect("queue should be plannable");

    assert_eq!(snapshot.path, "queue.json");
    assert_eq!(snapshot.revision, "revision-1");
    assert_eq!(snapshot.ordered_ids, vec!["high", "low"]);
    assert!(snapshot.blocked.is_empty());
}

#[test]
fn an_invalid_queue_has_no_snapshot() {
    let queue = Queue {
        version: 2,
        launch_app: false,
        retry_policy: RetryPolicy::default(),
        tasks: Vec::new(),
    };

    let error = snapshot_from_queue("queue.json".to_owned(), queue, "r".to_owned())
        .expect_err("version 2 is not supported");
    assert_eq!(error, "queue version must be 1");
}

#[test]
fn reads_run_directory_names() {
    let run = parse_task_run_id(
        "20260730T020000Z-scheduled-task-attempt-2-newer",
        "scheduled-task",
    )
    .expect("a run of the task");
    assert_eq!(run.id, "20260730T020000Z-scheduled-task-attempt-2-newer");
    assert_eq!(run.attempt, 2);
    assert_eq!(run.started_at, "2026-07-30T02:00:00Z");

    assert_eq!(
        parse_task_run_id("20260730T030000Z-other-task-attempt-1-unrelated", "scheduled-task"),
        None
    );
    assert_eq!(parse_task_run_id("../outside", "scheduled-task"), None);
    assert_eq!(
        parse_task_run_id("20260730T010000Z-task-attempt-0-x", "task"),
        None
    );
    assert_eq!(
        parse_task_run_id("20260730T010000Z-task-attempt-1-", "task"),
        None
    );
    assert_eq!(
        parse_task_run_id("20260730T010000Z-task-attempt-1-a_b", "task"),
        None
    );
    assert_eq!(
        parse_task_run_id("20260230T010000Z-task-attempt-1-x", "task"),
        None
    );
}

#[test]
fn a_task_id_may_itself_contain_the_attempt_marker() {
    let run = parse_task_run_id(
        "20260730T010000Z-x-attempt-3-attempt-7-abc",
        "x-attempt-3",
    )
    .expect("the last marker separates the task ID");
    assert_eq!(run.attempt, 7);
    assert_eq!(parse_task_run_id("20260730T010000Z-x-attempt-3-attempt-7-abc", "x"), None);
}

#[test]
fn timestamps_must_name_a_real_moment() {
    assert_eq!(
        run_timestamp("20240229T235959Z").as_deref(),
        Some("2024-02-29T23:59:59Z")
    );
    assert_eq!(run_timestamp("20230229T000000Z"), None);
    assert_eq!(run_timestamp("00000101T000000Z"), None);
    assert_eq!(run_timestamp("20261301T000000Z"), None);
    assert_eq!(run_timestamp("20260101T240000Z"), None);
    assert_eq!(run_timestamp("20260101T006000Z"), None);
    assert_eq!(run_timestamp("20260101T000060Z"), None);
    assert_eq!(run_timestamp("20260101 000000Z"), None);
    assert_eq!(run_timestamp("2026010T1000000Z"), None);
}

#[test]
fn month_lengths_follow_the_gregorian_calendar() {
    assert_eq!(days_in_month(2024, 2), 29);
    assert_eq!(days_in_month(1900, 2), 28);
    assert_eq!(days_in_month(2000, 2), 29);
    assert_eq!(days_in_month(2026, 4), 30);
    assert_eq!(days_in_month(2026, 12), 31);
}

#[test]
fn lists_runs_newest_first() {
    let created = task_created_stamp(&task("scheduled-task", 10)).expect("representable");
    assert_eq!(created, "20260728T000000Z");
    let runs = latest_task_runs(
        &names(&[
            "20260730T010000Z-scheduled-task-attempt-1-older",
            "20260730T020000Z-scheduled-task-attempt-2-newer",
            "20260730T030000Z-other-task-attempt-1-unrelated",
        ]),
        "scheduled-task",
        &created,
    );

    assert_eq!(runs.len(), 2);
    assert_eq!(runs[0].id, "20260730T020000Z-scheduled-task-attempt-2-newer");
    assert_eq!(runs[0].attempt, 2);
    assert_eq!(runs[0].started_at, "2026-07-30T02:00:00Z");
    assert_eq!(runs[1].id, "20260730T010000Z-scheduled-task-attempt-1-older");
}

#[test]
fn keeps_only_the_latest_hundred_runs() {
    let ids: Vec<String> = (0..105)
        .map(|index| {
            let hour = index / 60;
            let minute = index % 60;
            format!("20260730T{hour:02}{minute:02}00Z-scheduled-task-attempt-1-run{index:03}")
        })
        .collect();

    let runs = latest_task_runs(&ids, "scheduled-task", "20260728T000000Z");

    assert_eq!(runs.len(), 100);
    assert_eq!(
        runs.first().map(|run| run.id.as_str()),
        Some("20260730T014400Z-scheduled-task-attempt-1-run104")
    );
    assert_eq!(
        runs.last().map(|run| run.id.as_str()),
        Some("20260730T000500Z-scheduled-task-attempt-1-run005")
    );
}

#[test]
fn hides_runs_older_than_the_task() {
    let mut reused = task("scheduled-task", 10);
    reused.created_at = Timestamp { seconds: 1_785_375_000, nanos: 0 };
    let created = task_created_stamp(&reused).expect("representable");
    assert_eq!(created, "20260730T013000Z");

    let runs = latest_task_runs(
        &names(&["20260730T010000Z-scheduled-task-attempt-1-old"]),
        "scheduled-task",
        &created,
    );
    assert!(runs.is_empty());
    assert_eq!(
        task_run_for("20260730T013000Z-scheduled-task-attempt-1-same", "scheduled-task", &created)
            .map(|run| run.attempt),
        Some(1)
    );
}

#[test]
fn sorting_keeps_runs_ordered_alike_in_place() {
    let run = |id: &str, attempt: u32, started_at: &str| TaskRunSummary {
        id: id.to_owned(),
        attempt,
        started_at: started_at.to_owned(),
    };
    let mut runs = vec![
        run("b", 1, "2026-07-30T01:00:00Z"),
        run("a", 1, "2026-07-30T02:00:00Z"),
        run("c", 1, "2026-07-30T01:00:00Z"),
        run("b", 2, "2026-07-30T01:00:00Z"),
    ];
    sort_task_runs_newest(&mut runs);

    let order: Vec<(String, u32)> = runs.iter().map(|r| (r.id.clone(), r.attempt)).collect();
    assert_eq!(
        order,
        vec![
            ("a".to_owned(), 1),
            ("c".to_owned(), 1),
            ("b".to_owned(), 1),
            ("b".to_owned(), 2)
        ]
    );
}

#[test]
fn run_directories_are_named_from_their_start_and_task() {
    let started_at = Timestamp { seconds: 1_785_200_400, nanos: 0 };
    let prefix = run_directory_prefix(started_at, "same-task", 1).expect("representable");
    assert_eq!(prefix, "20260728T010000Z-same-task-attempt-1-");

    let named = format!("{prefix}Ab3xYz09");
    let run = parse_task_run_id(&named, "same-task").expect("read back");
    assert_eq!(run.attempt, 1);
    assert_eq!(run.started_at, "2026-07-28T01:00:00Z");

    assert_eq!(safe_file_name("a/b c-d_e"), "a_b_c-d_e");
    assert_eq!(run_directory_prefix(Timestamp { seconds: i64::MAX, nanos: 0 }, "t", 1), None);
}

#[test]
fn artifacts_are_bounded() {
    let small = artifact_from_bytes("任务完成".as_bytes().to_vec());
    assert_eq!(small.content, "任务完成");
    assert!(!small.truncated);

    let mut large = vec![b'a'; MAX_ARTIFACT_BYTES + 1];
    large[0] = b'b';
    let artifact = artifact_from_bytes(large);
    assert!(artifact.truncated);
    assert_eq!(artifact.content.len(), MAX_ARTIFACT_BYTES);
    assert!(artifact.content.starts_with('b'));

    let mut invalid = vec![b'a'; MAX_ARTIFACT_BYTES - 1];
    invalid.push(0xff);
    let artifact = artifact_from_bytes(invalid);
    assert!(artifact.truncated);
    assert_eq!(artifact.content.len(), MAX_ARTIFACT_BYTES - 1);

    let exact = artifact_from_bytes(vec![b'x'; MAX_ARTIFACT_BYTES]);
    assert!(!exact.truncated);
    assert_eq!(exact.content.len(), MAX_ARTIFACT_BYTES);
}

#[test]
fn revisions_are_sha256_in_hexadecimal() {
    assert_eq!(
        queue_revision(b""),
        "e3b0c44298fc1c149afbf4c8996fb92427ae41e4649b934ca495991b7852b855"
    );
    assert_eq!(
        queue_revision(b"abc"),
        "ba7816bf8f01cfea414140de5dae2223b00361a396177a9cb410ff61f20015ad"
    );
    assert!(revision_matches(
        b"abc",
        "ba7816bf8f01cfea414140de5dae2223b00361a396177a9cb410ff61f20015ad"
    ));
    assert!(!revision_matches(b"abd", "ba7816bf8f01cfea414140de5dae2223b00361a396177a9cb410ff61f20015ad"));
}

#[test]
fn conflicts_name_the_queue() {
    assert_eq!(
        revision_conflict_message("/tmp/queue.json"),
        "queue changed since it was loaded: /tmp/queue.json; reload before saving"
    );
}

#[test]
fn one_queue_run_at_a_time() {
    let mut state = RunState::new();
    assert!(state.begin_run().is_ok());
    assert_eq!(
        state.begin_run().expect_err("a second run is refused"),
        "a queue run is already active"
    );
    state.end_run();
    assert!(state.begin_run().is_ok());
}

#[test]
fn saves_check_the_revision_only_for_the_file_it_was_read_from() {
    let check = |target: Lookup, source: Lookup, same_given: bool, same_canonical: bool| {
        save_checks_revision(&target, &source, same_given, same_canonical, "t.json", "s.json")
    };
    assert_eq!(check(Lookup::Found, Lookup::Found, false, true), Ok(true));
    assert_eq!(check(Lookup::Found, Lookup::Found, false, false), Ok(false));
    assert_eq!(check(Lookup::Missing, Lookup::Found, false, false), Ok(false));
    let conflict = "queue changed since it was loaded: s.json; reload before saving".to_owned();
    assert_eq!(check(Lookup::Missing, Lookup::Missing, true, false), Err(conflict.clone()));
    assert_eq!(check(Lookup::Missing, Lookup::Missing, false, false), Err(conflict.clone()));
    assert_eq!(check(Lookup::Found, Lookup::Missing, false, false), Err(conflict));
    assert_eq!(
        check(Lookup::Failed("denied".to_owned()), Lookup::Found, false, false),
        Err("cannot resolve queue path t.json: denied".to_owned())
    );
    assert_eq!(
        check(Lookup::Found, Lookup::Failed("denied".to_owned()), false, false),
        Err("cannot resolve queue path s.json: denied".to_owned())
    );
}
