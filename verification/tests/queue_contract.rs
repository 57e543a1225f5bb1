use codex_queue_demo::{
    build_execution_plan, validate_queue, Queue, RetryPolicy, Task, TaskStatus, Timestamp,
};

/// 2026-07-28T00:00:00Z
const BASE_SECONDS: i64 = 1_785_196_800;

fn task(id: &str) -> Task {
    Task {
        id: id.to_owned(),
        title: id.to_owned(),
        workspace: ".".to_owned(),
        prompt: format!("Complete {id}"),
        priority: 0,
        depends_on: Vec::new(),
        status: TaskStatus::Pending,
        created_at: Timestamp { seconds: BASE_SECONDS, nanos: 0 },
        attempts: None,
        started_at: None,
        finished_at: None,
        last_error: None,
        blocked_reason: None,
        next_retry_at: None,
    }
}

fn queue(tasks: Vec<Task>) -> Queue {
    Queue { version: 1, launch_app: false, retry_policy: RetryPolicy::default(), tasks }
}

fn error_text(queue: &Queue) -> String {
    validate_queue(queue).expect_err("queue must be rejected").message()
}

#[test]
fn rejects_duplicate_task_ids() {
    let input = queue(vec![task("same"), task("same")]);

    assert_eq!(error_text(&input), "duplicate task ID: same");
}

#[test]
fn rejects_unknown_dependencies() {
    let mut child = task("child");
    child.depends_on = vec!["missing".to_owned()];
    let input = queue(vec![child]);

    assert_eq!(error_text(&input), "task child depends on unknown task: missing");
}

#[test]
fn applies_safe_retry_defaults_to_existing_queue_files() {
    let queue = queue(vec![task("existing")]);
    validate_queue(&queue).expect("valid queue");

    assert_eq!(queue.retry_policy.max_attempts, 4);
    assert_eq!(queue.retry_policy.initial_delay_seconds, 30);
    assert_eq!(queue.retry_policy.max_delay_seconds, 900);
}

#[test]
fn rejects_an_unbounded_retry_policy() {
    let mut input = queue(vec![task("retry")]);
    input.retry_policy =
        RetryPolicy { max_attempts: 0, initial_delay_seconds: 30, max_delay_seconds: 900 };

    assert_eq!(error_text(&input), "retryPolicy.maxAttempts must be between 1 and 20");
}

#[test]
fn rejects_retry_delays_longer_than_one_day() {
    let mut input = queue(vec![task("retry")]);
    input.retry_policy =
        RetryPolicy { max_attempts: 4, initial_delay_seconds: 30, max_delay_seconds: 86401 };

    assert_eq!(error_text(&input), "retryPolicy.maxDelaySeconds must not exceed 86400");
}

#[test]
fn rejects_a_zero_initial_retry_delay() {
    let mut input = queue(vec![task("retry")]);
    input.retry_policy =
        RetryPolicy { max_attempts: 4, initial_delay_seconds: 0, max_delay_seconds: 900 };

    assert_eq!(error_text(&input), "retryPolicy.initialDelaySeconds must be greater than 0");
}

#[test]
fn rejects_a_retry_cap_below_the_initial_delay() {
    let mut input = queue(vec![task("retry")]);
    input.retry_policy =
        RetryPolicy { max_attempts: 4, initial_delay_seconds: 30, max_delay_seconds: 29 };

    assert_eq!(
        error_text(&input),
        "retryPolicy.maxDelaySeconds must be at least initialDelaySeconds"
    );
}

#[test]
fn rejects_task_ids_that_are_unsafe_as_log_directory_names() {
    let input = queue(vec![task("parent/child")]);

    assert_eq!(
        error_text(&input),
        "task ID must be 1-64 ASCII letters, digits, '-' or '_': parent/child"
    );
}

#[test]
fn rejects_dependency_cycles() {
    let mut first = task("first");
    first.depends_on = vec!["second".to_owned()];
    let mut second = task("second");
    second.depends_on = vec!["first".to_owned()];

    assert_eq!(
        error_text(&queue(vec![first, second])),
        "task dependency cycle detected at: first"
    );
}

#[test]
fn orders_by_dependencies_priority_creation_time_and_id() {
    let mut dependent = task("dependent-high");
    dependent.priority = 100;
    dependent.depends_on = vec!["foundation".to_owned()];
    dependent.created_at = Timestamp { seconds: BASE_SECONDS + 4, nanos: 0 };

    let mut later = task("later");
    later.priority = 50;
    later.created_at = Timestamp { seconds: BASE_SECONDS + 3, nanos: 0 };

    let mut earlier_b = task("earlier-b");
    earlier_b.priority = 50;
    earlier_b.created_at = Timestamp { seconds: BASE_SECONDS + 1, nanos: 0 };

    let mut earlier_a = task("earlier-a");
    earlier_a.priority = 50;
    earlier_a.created_at = Timestamp { seconds: BASE_SECONDS + 1, nanos: 0 };

    let mut foundation = task("foundation");
    foundation.priority = 10;
    foundation.created_at = Timestamp { seconds: BASE_SECONDS + 2, nanos: 0 };

    let queue = queue(vec![dependent, later, earlier_b, earlier_a, foundation]);
    validate_queue(&queue).expect("valid queue");

    let plan = build_execution_plan(&queue).expect("queue should be plannable");

    assert_eq!(
        plan.ordered_ids,
        vec!["earlier-a", "earlier-b", "later", "foundation", "dependent-high"]
    );
    assert!(plan.blocked.is_empty());
}

#[test]
fn blocks_tasks_whose_dependencies_failed() {
    let mut failed_parent = task("failed-parent");
    failed_parent.status = TaskStatus::Failed;
    let mut child = task("child");
    child.depends_on = vec!["failed-parent".to_owned()];
    let queue = queue(vec![failed_parent, child]);
    validate_queue(&queue).expect("valid queue");

    let plan = build_execution_plan(&queue).expect("queue should be plannable");

    assert!(plan.ordered_ids.is_empty());
    assert_eq!(plan.blocked.len(), 1);
    assert_eq!(plan.blocked[0].task_id, "child");
    assert_eq!(plan.blocked[0].reason, "dependency failed or is blocked: failed-parent");
}

#[test]
fn the_cycle_search_starts_from_the_smallest_id() {
    let mut later = task("b-later");
    later.depends_on = vec!["a-first".to_owned()];
    let mut first = task("a-first");
    first.depends_on = vec!["b-later".to_owned()];
    let mut outside = task("0-outside");
    outside.depends_on = vec!["b-later".to_owned()];

    assert_eq!(
        error_text(&queue(vec![later.clone(), first.clone()])),
        "task dependency cycle detected at: a-first"
    );
    assert_eq!(
        error_text(&queue(vec![later, first, outside])),
        "task dependency cycle detected at: b-later"
    );
}
