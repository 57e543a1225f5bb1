use codex_queue_demo::report::{display_ids, exit_code, summary_report};
use codex_queue_demo::worker::{
    clear_retry, finish_attempt, initial_summary, launch_workspace, normalize_retry_state,
    plan_step, retry_delay, retry_wait_seconds, round_up_to_second, start_attempt,
};
use codex_queue_demo::{
    build_execution_plan, AttemptOutcome, BlockedReasonCode, NextStep, Queue, RetryPolicy,
    RunSummary, Task, TaskStatus, Timestamp, TransientTaskError, WorkerError,
};

/// 2026-07-28T00:00:00Z
const BASE_SECONDS: i64 = 1_785_196_800;

fn task(id: &str) -> Task {
    Task {
        id: id.to_owned(),
        title: id.to_owned(),
        workspace: ".".to_owned(),
        prompt: format!("Complete {id}"),
        priority: 0,
        depends_on: Vec::new(),
        status: TaskStatus::Pending,
        created_at: Timestamp { seconds: BASE_SECONDS, nanos: 0 },
        attempts: None,
        started_at: None,
        finished_at: None,
        last_error: None,
        blocked_reason: None,
        next_retry_at: None,
    }
}

fn queue(tasks: Vec<Task>, retry_policy: RetryPolicy) -> Queue {
    Queue { version: 1, launch_app: false, retry_policy, tasks }
}

fn policy(max_attempts: u32, initial_delay_seconds: u64, max_delay_seconds: u64) -> RetryPolicy {
    RetryPolicy { max_attempts, initial_delay_seconds, max_delay_seconds }
}

#[derive(Default)]
struct FakeRunner {
    executed: Vec<String>,
    fail_task: Option<String>,
    transient_task: Option<String>,
    transient_failures_remaining: usize,
    waits: Vec<u64>,
    events: Vec<String>,
}

impl FakeRunner {
    fn execute(&mut self, task_id: &str) -> AttemptOutcome {
        self.executed.push(task_id.to_owned());
        self.events.push(format!("execute:{task_id}"));
        if self.transient_task.as_deref() == Some(task_id) && self.transient_failures_remaining > 0 {
            self.transient_failures_remaining -= 1;
            let error = TransientTaskError::new("temporary network error");
            return AttemptOutcome::Failed { transient: true, message: error.message().to_owned() };
        }
        if self.fail_task.as_deref() == Some(task_id) {
            return AttemptOutcome::Failed {
                transient: false,
                message: "intentional demo failure".to_owned(),
            };
        }
        AttemptOutcome::Succeeded
    }
}

/// Drives the worker's decisions the way the program does, with a clock that
/// only moves while waiting.
fn run(queue: &mut Queue, runner: &mut FakeRunner) -> Result<RunSummary, WorkerError> {
    let mut clock = Timestamp { seconds: BASE_SECONDS, nanos: 0 };
    normalize_retry_state(queue, clock)?;
    let plan = build_execution_plan(queue).map_err(WorkerError::Queue)?;
    let mut summary = initial_summary(queue, &plan, false);
    loop {
        let step = plan_step(queue, &mut summary, clock)?;
        match step.next {
            NextStep::Run { index, .. } => {
                start_attempt(queue, index, clock)?;
                let task_id = queue.tasks[index].id.clone();
                let outcome = runner.execute(&task_id);
                finish_attempt(queue, &mut summary, index, outcome, clock);
            }
            NextStep::WaitForRetry { index, retry_at, .. } => {
                if let Some(wait) =
                    retry_wait_seconds(retry_at, clock, queue.retry_policy.max_delay_seconds)
                {
                    runner.waits.push(wait);
                    runner.events.push(format!("wait:{wait}"));
                    clock.seconds += wait as i64;
                }
                clear_retry(queue, index);
            }
            NextStep::Finished => break,
        }
    }
    Ok(summary)
}

#[test]
fn continues_independent_work_and_blocks_children_after_failure() {
    let mut child = task("child");
    child.priority = 100;
    child.depends_on = vec!["parent".to_owned()];
    let mut independent = task("independent");
    independent.priority = 50;
    let mut parent = task("parent");
    parent.priority = 10;
    let mut input = queue(vec![child, independent, parent], RetryPolicy::default());
    let mut runner = FakeRunner { fail_task: Some("parent".to_owned()), ..FakeRunner::default() };

    let summary = run(&mut input, &mut runner).expect("worker should finish the queue");

    assert_eq!(runner.executed, vec!["independent", "parent"]);
    assert_eq!(
        summary,
        RunSummary {
            planned_ids: vec!["independent".into(), "parent".into(), "child".into()],
            succeeded_ids: vec!["independent".into()],
            failed_ids: vec!["parent".into()],
            blocked_ids: vec!["child".into()],
        }
    );
    assert_eq!(input.tasks[1].status, TaskStatus::Succeeded);
    assert_eq!(input.tasks[2].status, TaskStatus::Failed);
    let child = &input.tasks[0];
    assert_eq!(child.status, TaskStatus::Blocked);
    let reason = child.blocked_reason.as_ref().expect("structured blocked reason");
    assert_eq!(reason.reason_code, BlockedReasonCode::DependencyUnavailable);
    assert_eq!(reason.dependency_id, "parent");
    assert!(child.last_error.is_none());
    assert!(input.tasks[2]
        .last_error
        .as_deref()
        .is_some_and(|error| error.contains("intentional demo failure")));
}

#[test]
fn a_failed_parent_blocks_its_child_while_independent_work_runs() {
    let mut child = task("child");
    child.priority = 100;
    child.depends_on = vec!["parent".to_owned()];
    let mut parent = task("parent");
    parent.priority = 50;
    let mut independent = task("independent");
    independent.priority = 10;
    let mut input = queue(vec![child, parent, independent], RetryPolicy::default());
    let mut runner = FakeRunner { fail_task: Some("parent".to_owned()), ..FakeRunner::default() };

    let summary = run(&mut input, &mut runner).expect("worker should finish the queue");

    assert_eq!(runner.executed, vec!["parent", "independent"]);
    assert_eq!(summary.planned_ids, vec!["parent", "child", "independent"]);
    assert_eq!(summary.succeeded_ids, vec!["independent"]);
    assert_eq!(summary.failed_ids, vec!["parent"]);
    assert_eq!(summary.blocked_ids, vec!["child"]);
}

#[test]
fn reports_failures_and_blocks_that_were_already_persisted() {
    let mut failed = task("failed");
    failed.status = TaskStatus::Failed;
    let mut blocked = task("blocked");
    blocked.status = TaskStatus::Blocked;
    let mut input = queue(vec![failed, blocked], RetryPolicy::default());
    let mut runner = FakeRunner::default();

    let summary = run(&mut input, &mut runner).expect("existing failures should be reported");

    assert_eq!(summary.failed_ids, vec!["failed"]);
    assert_eq!(summary.blocked_ids, vec!["blocked"]);
    assert!(runner.executed.is_empty());
}

#[test]
fn rejects_an_attempt_counter_that_cannot_be_incremented() {
    let mut overflow = task("overflow");
    overflow.attempts = Some(u32::MAX);
    let mut input = queue(vec![overflow], RetryPolicy::default());
    let mut runner = FakeRunner::default();

    let error = run(&mut input, &mut runner).expect_err("attempt overflow must be reported");

    assert_eq!(error.message(), "task overflow has reached the maximum attempt count");
    assert!(runner.executed.is_empty());
}

#[test]
fn retries_transient_failures_with_capped_exponential_backoff() {
    let mut input = queue(vec![task("network-task")], policy(4, 2, 3));
    let mut runner = FakeRunner {
        transient_task: Some("network-task".to_owned()),
        transient_failures_remaining: 2,
        ..FakeRunner::default()
    };

    let summary = run(&mut input, &mut runner).expect("transient failures should recover");

    assert_eq!(runner.executed, vec!["network-task", "network-task", "network-task"]);
    assert_eq!(runner.waits, vec![2, 3]);
    assert_eq!(summary.succeeded_ids, vec!["network-task"]);
    assert!(summary.failed_ids.is_empty());
    let task = &input.tasks[0];
    assert_eq!(task.attempts, Some(3));
    assert_eq!(task.status, TaskStatus::Succeeded);
    assert!(task.next_retry_at.is_none());
}

#[test]
fn runs_independent_work_while_a_parent_task_is_backing_off() {
    let mut parent = task("parent");
    parent.priority = 100;
    let mut child = task("child");
    child.priority = 200;
    child.depends_on = vec!["parent".to_owned()];
    let mut independent = task("independent");
    independent.priority = 50;
    let mut input = queue(vec![child, independent, parent], policy(3, 2, 10));
    let mut runner = FakeRunner {
        transient_task: Some("parent".to_owned()),
        transient_failures_remaining: 1,
        ..FakeRunner::default()
    };

    let summary = run(&mut input, &mut runner).expect("independent work and the retry succeed");

    assert_eq!(
        runner.events,
        vec!["execute:parent", "execute:independent", "wait:2", "execute:parent", "execute:child"]
    );
    assert_eq!(summary.succeeded_ids, vec!["independent", "parent", "child"]);
}

#[test]
fn stops_after_the_configured_maximum_attempts() {
    let mut input = queue(vec![task("unavailable")], policy(3, 2, 10));
    let mut runner = FakeRunner {
        transient_task: Some("unavailable".to_owned()),
        transient_failures_remaining: 10,
        ..FakeRunner::default()
    };

    let summary = run(&mut input, &mut runner).expect("exhaustion is a task failure");

    assert_eq!(runner.executed.len(), 3);
    assert_eq!(runner.waits, vec![2, 4]);
    assert_eq!(summary.failed_ids, vec!["unavailable"]);
}

#[test]
fn does_not_exceed_max_attempts_after_the_final_attempt_is_interrupted() {
    let mut interrupted = task("interrupted");
    interrupted.status = TaskStatus::Running;
    interrupted.attempts = Some(3);
    let mut input = queue(vec![interrupted], policy(3, 2, 10));
    let mut runner = FakeRunner::default();

    let summary = run(&mut input, &mut runner).expect("an exhausted interrupted task fails");

    assert!(runner.executed.is_empty());
    assert_eq!(summary.failed_ids, vec!["interrupted"]);
    let task = &input.tasks[0];
    assert_eq!(task.status, TaskStatus::Failed);
    assert_eq!(task.attempts, Some(3));
    assert_eq!(
        task.last_error.as_deref(),
        Some("interrupted worker run reached the maximum attempt count (3)")
    );
}

#[test]
fn an_interrupted_attempt_with_attempts_left_runs_again() {
    let mut interrupted = task("interrupted");
    interrupted.status = TaskStatus::Running;
    interrupted.attempts = Some(1);
    let mut input = queue(vec![interrupted], policy(3, 1, 1));

    let changed = normalize_retry_state(&mut input, Timestamp { seconds: BASE_SECONDS, nanos: 0 })
        .expect("recoverable");
    assert!(changed);
    assert_eq!(input.tasks[0].status, TaskStatus::Pending);
    assert_eq!(
        input.tasks[0].last_error.as_deref(),
        Some("recovered from an interrupted worker run")
    );
    let again = normalize_retry_state(&mut input, Timestamp { seconds: BASE_SECONDS, nanos: 0 })
        .expect("recoverable");
    assert!(!again);
}

#[test]
fn honors_a_persisted_retry_time_after_worker_restart() {
    let mut recovering = task("recovering");
    recovering.next_retry_at = Some(Timestamp { seconds: 4_070_908_800, nanos: 0 });
    let mut input = queue(vec![recovering], policy(4, 2, 7));
    let mut runner = FakeRunner::default();

    let summary = run(&mut input, &mut runner).expect("recovered retry should run after waiting");

    assert_eq!(runner.executed, vec!["recovering"]);
    assert_eq!(runner.waits, vec![7]);
    assert_eq!(summary.succeeded_ids, vec!["recovering"]);
    assert!(input.tasks[0].next_retry_at.is_none());
}

#[test]
fn a_wait_rounds_a_partial_second_up() {
    let mut recovering = task("recovering");
    recovering.attempts = Some(1);
    recovering.next_retry_at = Some(Timestamp { seconds: BASE_SECONDS + 30, nanos: 500 });
    let mut input = queue(vec![recovering], policy(4, 30, 60));
    let mut runner = FakeRunner::default();

    let summary = run(&mut input, &mut runner).expect("the retry runs after waiting");

    assert_eq!(runner.waits, vec![31]);
    assert_eq!(summary.succeeded_ids, vec!["recovering"]);
    assert_eq!(input.tasks[0].attempts, Some(2));
}

#[test]
fn backoff_doubles_from_the_initial_delay() {
    let p = policy(20, 30, 900);
    let delays: Vec<u64> = (0..8).map(|attempts| retry_delay(p, attempts)).collect();
    assert_eq!(delays, vec![30, 30, 60, 120, 240, 480, 900, 900]);
    assert_eq!(retry_delay(policy(20, 1, u64::MAX), 40), 1 << 19);
    assert_eq!(retry_delay(policy(20, u64::MAX, u64::MAX), 3), u64::MAX);
}

#[test]
fn waits_round_up_to_whole_seconds() {
    assert_eq!(round_up_to_second(2, 0), 2);
    assert_eq!(round_up_to_second(2, 1), 3);
    assert_eq!(round_up_to_second(u64::MAX, 1), u64::MAX);
    let now = Timestamp { seconds: 100, nanos: 0 };
    assert_eq!(retry_wait_seconds(Timestamp { seconds: 100, nanos: 0 }, now, 900), None);
    assert_eq!(retry_wait_seconds(Timestamp { seconds: 99, nanos: 0 }, now, 900), None);
    assert_eq!(retry_wait_seconds(Timestamp { seconds: 101, nanos: 1 }, now, 900), Some(2));
    assert_eq!(retry_wait_seconds(Timestamp { seconds: 5000, nanos: 0 }, now, 900), Some(900));
}

#[test]
fn the_first_planned_task_names_the_workspace_to_open() {
    let mut first = task("first");
    first.priority = 10;
    first.workspace = "project-a".to_owned();
    let mut second = task("second");
    second.workspace = "project-b".to_owned();
    let mut input = queue(vec![second, first], RetryPolicy::default());
    let plan = build_execution_plan(&input).expect("valid");
    assert_eq!(launch_workspace(&input, &plan), None);

    input.launch_app = true;
    assert_eq!(launch_workspace(&input, &plan).as_deref(), Some("project-a"));
}

#[test]
fn a_dry_run_lists_the_blocked_tasks_it_would_record() {
    let mut failed = task("failed");
    failed.status = TaskStatus::Failed;
    let mut child = task("child");
    child.depends_on = vec!["failed".to_owned()];
    let input = queue(vec![failed, child], RetryPolicy::default());
    let plan = build_execution_plan(&input).expect("valid");

    let dry = initial_summary(&input, &plan, true);
    assert!(dry.planned_ids.is_empty());
    assert_eq!(dry.failed_ids, vec!["failed"]);
    assert_eq!(dry.blocked_ids, vec!["child"]);
    assert_eq!(summary_report(&dry, true), "Plan: (none)\nFailed: failed\nBlocked: child\n");
    assert_eq!(exit_code(&dry), 2);

    let live = initial_summary(&input, &plan, false);
    assert!(live.blocked_ids.is_empty());
}

#[test]
fn reports_print_the_plan() {
    let summary = RunSummary {
        planned_ids: vec!["high".to_owned(), "low".to_owned()],
        ..RunSummary::default()
    };
    assert_eq!(summary_report(&summary, true), "Plan: high -> low\n");
    assert_eq!(
        summary_report(&summary, false),
        "Plan: high -> low\nSucceeded: (none)\nFailed: (none)\nBlocked: (none)\n"
    );
    assert_eq!(exit_code(&summary), 0);
    assert_eq!(display_ids(&Vec::new()), "(none)");
}
