//! Queue validation: version, retry policy, task fields, unique IDs, known
//! dependencies and the absence of dependency cycles.
use vstd::prelude::*;
use vstd::string::*;

use crate::queue::{
    acyclic, depends_idx, find_task_index, has_task, is_dependency_path, known_dependencies,
    on_cycle, path_step, ranks_dependencies, tasks_view, unique_ids, Queue, QueueError,
    QueueView, RetryPolicy, Task, TaskView,
};
use crate::text::{chars_of, is_unicode_whitespace, is_whitespace, lex_lt};

verus! {

broadcast use vstd::string::group_string_axioms;

// ---------------------------------------------------------------------------
// What a valid queue is, and which problem is reported first.

/// The problem with a retry policy, if any, in the order they are checked.
pub open spec fn retry_policy_issue(p: RetryPolicy) -> Option<Seq<char>> {
    if !(1 <= p.max_attempts <= 20) {
        Some("retryPolicy.maxAttempts must be between 1 and 20"@)
    } else if p.initial_delay_seconds == 0 {
        Some("retryPolicy.initialDelaySeconds must be greater than 0"@)
    } else if p.max_delay_seconds < p.initial_delay_seconds {
        Some("retryPolicy.maxDelaySeconds must be at least initialDelaySeconds"@)
    } else if p.max_delay_seconds > 86_400 {
        Some("retryPolicy.maxDelaySeconds must not exceed 86400"@)
    } else {
        None
    }
}

/// A character allowed in a task ID.
pub open spec fn is_id_char(c: char) -> bool {
    ('a' <= c && c <= 'z') || ('A' <= c && c <= 'Z') || ('0' <= c && c <= '9') || c == '-' || c
        == '_'
}

/// Task IDs are 1 to 64 ASCII letters, digits, `-` or `_`, so that they are
/// safe as parts of log directory names.
pub open spec fn valid_task_id(id: Seq<char>) -> bool {
    1 <= id.len() <= 64 && forall|i: int| 0 <= i < id.len() ==> is_id_char(#[trigger] id[i])
}

/// The task IDs accepted are exactly those of 1 to 64 characters, each an
/// ASCII letter, an ASCII digit, `-` or `_`.
pub proof fn lemma_safe_task_ids(id: Seq<char>)
    ensures
        valid_task_id(id) <==> (1 <= id.len() <= 64 && forall|i: int|
            0 <= i < id.len() ==> (('a' <= #[trigger] id[i] && id[i] <= 'z') || ('A' <= id[i]
                && id[i] <= 'Z') || ('0' <= id[i] && id[i] <= '9') || id[i] == '-' || id[i]
                == '_')),
{
}

/// A string holds nothing but whitespace.
pub open spec fn is_blank(s: Seq<char>) -> bool {
    forall|i: int| 0 <= i < s.len() ==> is_unicode_whitespace(#[trigger] s[i])
}

pub open spec fn invalid_id_message(id: Seq<char>) -> Seq<char> {
    "task ID must be 1-64 ASCII letters, digits, '-' or '_': "@ + id
}

pub open spec fn blank_field_message(id: Seq<char>, field: Seq<char>) -> Seq<char> {
    "task "@ + id + field + " must be a non-empty string"@
}

pub open spec fn duplicate_id_message(id: Seq<char>) -> Seq<char> {
    "duplicate task ID: "@ + id
}

pub open spec fn unknown_dependency_message(id: Seq<char>, dependency: Seq<char>) -> Seq<char> {
    "task "@ + id + " depends on unknown task: "@ + dependency
}

pub open spec fn cycle_message(id: Seq<char>) -> Seq<char> {
    "task dependency cycle detected at: "@ + id
}

/// The problem with one task's own fields, if any.
pub open spec fn task_field_issue(t: TaskView) -> Option<Seq<char>> {
    if !valid_task_id(t.id) {
        Some(invalid_id_message(t.id))
    } else if is_blank(t.title) {
        Some(blank_field_message(t.id, " title"@))
    } else if is_blank(t.workspace) {
        Some(blank_field_message(t.id, " workspace"@))
    } else if is_blank(t.prompt) {
        Some(blank_field_message(t.id, " prompt"@))
    } else {
        None
    }
}

/// An earlier task has the same ID as task `i`.
pub open spec fn duplicate_before(tasks: Seq<TaskView>, i: int) -> bool {
    exists|j: int| 0 <= j < i && #[trigger] tasks[j].id == tasks[i].id
}

/// The problem with task `i`, given that the tasks before it have none.
pub open spec fn task_issue(tasks: Seq<TaskView>, i: int) -> Option<Seq<char>> {
    match task_field_issue(tasks[i]) {
        Some(m) => Some(m),
        None => if duplicate_before(tasks, i) {
            Some(duplicate_id_message(tasks[i].id))
        } else {
            None
        },
    }
}

/// The first problem among the first `n` tasks.
pub open spec fn first_task_issue(tasks: Seq<TaskView>, n: int) -> Option<Seq<char>>
    decreases n,
{
    if n <= 0 {
        None
    } else {
        match first_task_issue(tasks, n - 1) {
            Some(m) => Some(m),
            None => task_issue(tasks, n - 1),
        }
    }
}

/// The first of the first `k` dependencies of task `i` that names no task.
pub open spec fn dependency_issue(tasks: Seq<TaskView>, i: int, k: int) -> Option<Seq<char>>
    decreases k,
{
    if k <= 0 {
        None
    } else {
        match dependency_issue(tasks, i, k - 1) {
            Some(m) => Some(m),
            None => if !has_task(tasks, tasks[i].depends_on[k - 1]) {
                Some(unknown_dependency_message(tasks[i].id, tasks[i].depends_on[k - 1]))
            } else {
                None
            },
        }
    }
}

/// The first unknown dependency among the first `n` tasks.
pub open spec fn first_dependency_issue(tasks: Seq<TaskView>, n: int) -> Option<Seq<char>>
    decreases n,
{
    if n <= 0 {
        None
    } else {
        match first_dependency_issue(tasks, n - 1) {
            Some(m) => Some(m),
            None => dependency_issue(tasks, n - 1, tasks[n - 1].depends_on.len() as int),
        }
    }
}

/// The first problem of a queue other than a dependency cycle, in the
/// order the checks are made.
pub open spec fn structural_issue(q: QueueView) -> Option<Seq<char>> {
    if q.version != 1 {
        Some("queue version must be 1"@)
    } else if retry_policy_issue(q.retry_policy) is Some {
        retry_policy_issue(q.retry_policy)
    } else if first_task_issue(q.tasks, q.tasks.len() as int) is Some {
        first_task_issue(q.tasks, q.tasks.len() as int)
    } else {
        first_dependency_issue(q.tasks, q.tasks.len() as int)
    }
}

/// A queue that can be planned and run.
pub open spec fn queue_is_valid(q: QueueView) -> bool {
    structural_issue(q) is None && acyclic(q.tasks)
}

// ---------------------------------------------------------------------------
// Facts about valid queues.

proof fn lemma_no_task_issue(tasks: Seq<TaskView>, n: int, i: int)
    requires
        first_task_issue(tasks, n) is None,
        0 <= i < n,
    ensures
        task_issue(tasks, i) is None,
    decreases n,
{
    if i < n - 1 {
        lemma_no_task_issue(tasks, n - 1, i);
    }
}

proof fn lemma_no_dependency_issue_in_task(tasks: Seq<TaskView>, i: int, k: int, x: int)
    requires
        dependency_issue(tasks, i, k) is None,
        0 <= x < k,
    ensures
        has_task(tasks, tasks[i].depends_on[x]),
    decreases k,
{
    if x < k - 1 {
        lemma_no_dependency_issue_in_task(tasks, i, k - 1, x);
    }
}

proof fn lemma_no_dependency_issue(tasks: Seq<TaskView>, n: int, i: int)
    requires
        first_dependency_issue(tasks, n) is None,
        0 <= i < n,
    ensures
        dependency_issue(tasks, i, tasks[i].depends_on.len() as int) is None,
    decreases n,
{
    if i < n - 1 {
        lemma_no_dependency_issue(tasks, n - 1, i);
    }
}

proof fn lemma_task_issue_stable(tasks: Seq<TaskView>, a: int, b: int)
    requires
        0 <= a <= b,
        first_task_issue(tasks, a) is Some,
    ensures
        first_task_issue(tasks, b) == first_task_issue(tasks, a),
    decreases b - a,
{
    if a < b {
        lemma_task_issue_stable(tasks, a, b - 1);
    }
}

proof fn lemma_dependency_issue_stable(tasks: Seq<TaskView>, i: int, a: int, b: int)
    requires
        0 <= a <= b,
        dependency_issue(tasks, i, a) is Some,
    ensures
        dependency_issue(tasks, i, b) == dependency_issue(tasks, i, a),
    decreases b - a,
{
    if a < b {
        lemma_dependency_issue_stable(tasks, i, a, b - 1);
    }
}

proof fn lemma_first_dependency_issue_stable(tasks: Seq<TaskView>, a: int, b: int)
    requires
        0 <= a <= b,
        first_dependency_issue(tasks, a) is Some,
    ensures
        first_dependency_issue(tasks, b) == first_dependency_issue(tasks, a),
    decreases b - a,
{
    if a < b {
        lemma_first_dependency_issue_stable(tasks, a, b - 1);
    }
}

/// A queue without structural problems has unique, well-formed IDs and only
/// known dependencies.
pub proof fn lemma_structurally_sound(q: QueueView)
    requires
        structural_issue(q) is None,
    ensures
        unique_ids(q.tasks),
        known_dependencies(q.tasks),
        forall|i: int| 0 <= i < q.tasks.len() ==> #[trigger] task_field_issue(q.tasks[i]) is None,
{
    let tasks = q.tasks;
    let n = tasks.len() as int;
    assert forall|i: int| 0 <= i < n implies #[trigger] task_field_issue(tasks[i]) is None by {
        lemma_no_task_issue(tasks, n, i);
    }
    assert forall|i: int, j: int|
        0 <= i < tasks.len() && 0 <= j < tasks.len() && i != j implies #[trigger] tasks[i].id
        != #[trigger] tasks[j].id by {
        if i < j {
            lemma_no_task_issue(tasks, n, j);
            if tasks[i].id == tasks[j].id {
                assert(duplicate_before(tasks, j));
            }
        } else {
            lemma_no_task_issue(tasks, n, i);
            if tasks[i].id == tasks[j].id {
                assert(duplicate_before(tasks, i));
            }
        }
    }
    assert forall|i: int, k: int|
        0 <= i < tasks.len() && 0 <= k < tasks[i].depends_on.len() implies has_task(
        tasks,
        #[trigger] tasks[i].depends_on[k],
    ) by {
        lemma_no_dependency_issue(tasks, n, i);
        lemma_no_dependency_issue_in_task(tasks, i, tasks[i].depends_on.len() as int, k);
    }
}

// ---------------------------------------------------------------------------
// The checks.

/// Checks the retry policy's bounds.
pub fn validate_retry_policy(policy: RetryPolicy) -> (r: Result<(), QueueError>)
    ensures
        match retry_policy_issue(policy) {
            None => r is Ok,
            Some(m) => r matches Err(QueueError::Validation(e)) && e@ == m,
        },
{
    if !(1 <= policy.max_attempts && policy.max_attempts <= 20) {
        return Err(
            QueueError::Validation(
                String::from_str("retryPolicy.maxAttempts must be between 1 and 20"),
            ),
        );
    }
    if policy.initial_delay_seconds == 0 {
        return Err(
            QueueError::Validation(
                String::from_str("retryPolicy.initialDelaySeconds must be greater than 0"),
            ),
        );
    }
    if policy.max_delay_seconds < policy.initial_delay_seconds {
        return Err(
            QueueError::Validation(
                String::from_str("retryPolicy.maxDelaySeconds must be at least initialDelaySeconds"),
            ),
        );
    }
    if policy.max_delay_seconds > 86_400 {
        return Err(
            QueueError::Validation(
                String::from_str("retryPolicy.maxDelaySeconds must not exceed 86400"),
            ),
        );
    }
    Ok(())
}

/// Checks that a task ID is 1 to 64 ASCII letters, digits, `-` or `_`.
pub fn validate_task_id(id: &str) -> (r: Result<(), QueueError>)
    ensures
        valid_task_id(id@) ==> r is Ok,
        !valid_task_id(id@) ==> (r matches Err(QueueError::Validation(e)) && e@
            == invalid_id_message(id@)),
{
    let chars = chars_of(id);
    let mut safe = 1 <= chars.len() && chars.len() <= 64;
    let mut i: usize = 0;
    while i < chars.len()
        invariant
            chars@ == id@,
            i <= chars.len(),
            safe == (1 <= chars.len() <= 64 && forall|j: int|
                0 <= j < i ==> is_id_char(#[trigger] chars@[j])),
        decreases chars.len() - i,
    {
        let c = chars[i];
        let ok = ('a' <= c && c <= 'z') || ('A' <= c && c <= 'Z') || ('0' <= c && c <= '9') || c
            == '-' || c == '_';
        safe = safe && ok;
        i = i + 1;
    }
    if !safe {
        let mut message = String::from_str(
            "task ID must be 1-64 ASCII letters, digits, '-' or '_': ",
        );
        message.append(id);
        return Err(QueueError::Validation(message));
    }
    Ok(())
}

/// Checks that a string holds more than whitespace; the error names `field`.
pub fn validate_non_empty(value: &str, field: &str) -> (r: Result<(), QueueError>)
    ensures
        !is_blank(value@) ==> r is Ok,
        is_blank(value@) ==> (r matches Err(QueueError::Validation(e)) && e@ == field@
            + " must be a non-empty string"@),
{
    let chars = chars_of(value);
    let mut i: usize = 0;
    while i < chars.len()
        invariant
            chars@ == value@,
            i <= chars.len(),
            forall|j: int| 0 <= j < i ==> is_unicode_whitespace(#[trigger] chars@[j]),
        decreases chars.len() - i,
    {
        if !is_whitespace(chars[i]) {
            return Ok(());
        }
        i = i + 1;
    }
    let mut message = String::from_str(field);
    message.append(" must be a non-empty string");
    Err(QueueError::Validation(message))
}

/// The name of a task field in error messages: `task <id> <name>`.
fn field_label(id: &String, name: &str) -> (r: String)
    ensures
        r@ == "task "@ + id@ + name@,
{
    let mut label = String::from_str("task ");
    label.append(id.as_str());
    label.append(name);
    label
}

/// Checks one task's fields, and that no earlier task has its ID.
fn validate_task_at(tasks: &Vec<Task>, i: usize) -> (r: Result<(), QueueError>)
    requires
        i < tasks.len(),
    ensures
        match task_issue(tasks_view(tasks@), i as int) {
            None => r is Ok,
            Some(m) => r matches Err(QueueError::Validation(e)) && e@ == m,
        },
{
    let ghost ts = tasks_view(tasks@);
    let task = &tasks[i];
    assert(ts[i as int] == task@);
    validate_task_id(task.id.as_str())?;
    let title_label = field_label(&task.id, " title");
    validate_non_empty(task.title.as_str(), title_label.as_str())?;
    let workspace_label = field_label(&task.id, " workspace");
    validate_non_empty(task.workspace.as_str(), workspace_label.as_str())?;
    let prompt_label = field_label(&task.id, " prompt");
    validate_non_empty(task.prompt.as_str(), prompt_label.as_str())?;
    proof {
        assert(title_label@ + " must be a non-empty string"@ == blank_field_message(
            task.id@,
            " title"@,
        ));
        assert(workspace_label@ + " must be a non-empty string"@ == blank_field_message(
            task.id@,
            " workspace"@,
        ));
        assert(prompt_label@ + " must be a non-empty string"@ == blank_field_message(
            task.id@,
            " prompt"@,
        ));
    }
    let mut j: usize = 0;
    while j < i
        invariant
            i < tasks.len(),
            j <= i,
            ts == tasks_view(tasks@),
            ts[i as int] == tasks@[i as int]@,
            task_field_issue(ts[i as int]) is None,
            forall|x: int| 0 <= x < j ==> ts[x].id != ts[i as int].id,
        decreases i - j,
    {
        assert(ts[j as int] == tasks@[j as int]@);
        if tasks[j].id == tasks[i].id {
            let mut message = String::from_str("duplicate task ID: ");
            message.append(tasks[i].id.as_str());
            assert(ts[j as int].id == ts[i as int].id);
            assert(duplicate_before(ts, i as int));
            return Err(QueueError::Validation(message));
        }
        j = j + 1;
    }
    Ok(())
}

/// Checks that every dependency of task `i` names a task.
fn validate_dependencies_of(tasks: &Vec<Task>, i: usize) -> (r: Result<(), QueueError>)
    requires
        i < tasks.len(),
    ensures
        match dependency_issue(
            tasks_view(tasks@),
            i as int,
            tasks_view(tasks@)[i as int].depends_on.len() as int,
        ) {
            None => r is Ok,
            Some(m) => r matches Err(QueueError::Validation(e)) && e@ == m,
        },
{
    let ghost ts = tasks_view(tasks@);
    let task = &tasks[i];
    assert(ts[i as int] == task@);
    let mut k: usize = 0;
    while k < task.depends_on.len()
        invariant
            i < tasks.len(),
            task == &tasks[i as int],
            ts == tasks_view(tasks@),
            ts[i as int] == task@,
            k <= task.depends_on.len(),
            dependency_issue(ts, i as int, k as int) is None,
        decreases task.depends_on.len() - k,
    {
        assert(ts[i as int].depends_on[k as int] == task.depends_on@[k as int]@);
        let found = find_task_index(tasks, &task.depends_on[k]);
        if found.is_none() {
            let mut message = String::from_str("task ");
            message.append(task.id.as_str());
            message.append(" depends on unknown task: ");
            message.append(task.depends_on[k].as_str());
            assert(message@ == unknown_dependency_message(
                ts[i as int].id,
                ts[i as int].depends_on[k as int],
            ));
            assert(dependency_issue(ts, i as int, k + 1) == Some(message@));
            proof {
                lemma_dependency_issue_stable(ts, i as int, k + 1, ts[i as int].depends_on.len() as int);
            }
            return Err(QueueError::Validation(message));
        }
        proof {
            let j = found.unwrap() as int;
            assert(ts[j] == tasks@[j]@);
            assert(ts[j].id == ts[i as int].depends_on[k as int]);
        }
        k = k + 1;
    }
    Ok(())
}

/// Checks a queue: version 1, a bounded retry policy, well-formed tasks with
/// unique IDs, dependencies on known tasks only, and no dependency cycle.
/// The first problem found is reported.
pub fn validate_queue(queue: &Queue) -> (r: Result<(), QueueError>)
    ensures
        r is Ok <==> queue_is_valid(queue@),
        structural_issue(queue@) matches Some(m) ==> (r matches Err(QueueError::Validation(e))
            && e@ == m),
        structural_issue(queue@) is None && !acyclic(queue@.tasks) ==> (r matches Err(
            QueueError::Validation(e),
        ) && exists|id: Seq<char>| e@ == cycle_message(id) && on_cycle(queue@.tasks, id)),
        structural_issue(queue@) is None && !acyclic(queue@.tasks) ==> (r matches Err(
            QueueError::Validation(e),
        ) && cycle_report(queue@.tasks, e@)),
{
    let ghost ts = queue@.tasks;
    if queue.version != 1 {
        return Err(QueueError::Validation(String::from_str("queue version must be 1")));
    }
    validate_retry_policy(queue.retry_policy)?;
    let n = queue.tasks.len();
    let mut i: usize = 0;
    while i < n
        invariant
            n == queue.tasks.len(),
            ts == tasks_view(queue.tasks@),
            ts == queue@.tasks,
            queue.version == 1,
            retry_policy_issue(queue.retry_policy) is None,
            i <= n,
            first_task_issue(ts, i as int) is None,
        decreases n - i,
    {
        match validate_task_at(&queue.tasks, i) {
            Ok(()) => {},
            Err(e) => {
                proof {
                    assert(first_task_issue(ts, i + 1) == task_issue(ts, i as int));
                    lemma_task_issue_stable(ts, i + 1, n as int);
                    assert(retry_policy_issue(queue.retry_policy) is None);
                    assert(ts == queue@.tasks);
                    assert(structural_issue(queue@) == task_issue(ts, i as int));
                }
                return Err(e);
            },
        }
        i = i + 1;
    }
    let mut i: usize = 0;
    while i < n
        invariant
            n == queue.tasks.len(),
            ts == tasks_view(queue.tasks@),
            ts == queue@.tasks,
            queue.version == 1,
            retry_policy_issue(queue.retry_policy) is None,
            i <= n,
            first_task_issue(ts, n as int) is None,
            first_dependency_issue(ts, i as int) is None,
        decreases n - i,
    {
        match validate_dependencies_of(&queue.tasks, i) {
            Ok(()) => {},
            Err(e) => {
                proof {
                    assert(first_dependency_issue(ts, i + 1) == dependency_issue(
                        ts,
                        i as int,
                        ts[i as int].depends_on.len() as int,
                    ));
                    lemma_first_dependency_issue_stable(ts, i + 1, n as int);
                }
                return Err(e);
            },
        }
        i = i + 1;
    }
    proof {
        lemma_structurally_sound(queue@);
    }
    assert_acyclic(&queue.tasks)
}

// ---------------------------------------------------------------------------
// Cycle detection by depth-first search.

/// Depth-first search from task `v`, with `path` the tasks being searched and
/// `done` the tasks already finished: the finished set afterwards, or the
/// task found on `path` again, which closes a cycle. Dependencies are
/// searched in the order listed; `fuel` bounds the depth.
pub open spec fn dfs_visit(ts: Seq<TaskView>, v: int, path: Seq<int>, done: Set<int>, fuel: nat) -> Result<Set<int>, int>
    decreases fuel, 0int,
{
    if path.contains(v) {
        Err(v)
    } else if done.contains(v) {
        Ok(done)
    } else if fuel == 0 {
        Ok(done)
    } else {
        match dfs_dependencies(ts, v, 0, path.push(v), done, (fuel - 1) as nat) {
            Err(x) => Err(x),
            Ok(d) => Ok(d.insert(v)),
        }
    }
}

/// The search through the dependencies of `v` from the `k`-th on.
pub open spec fn dfs_dependencies(ts: Seq<TaskView>, v: int, k: int, path: Seq<int>, done: Set<int>, fuel: nat) -> Result<Set<int>, int>
    decreases fuel, ts[v].depends_on.len() - k + 1,
{
    if k < 0 || k >= ts[v].depends_on.len() {
        Ok(done)
    } else {
        match dfs_visit(ts, crate::plan::id_index(ts, ts[v].depends_on[k]), path, done, fuel) {
            Err(x) => Err(x),
            Ok(d) => dfs_dependencies(ts, v, k + 1, path, d, fuel),
        }
    }
}

/// The search started from each task of `order`, from the `i`-th on.
pub open spec fn dfs_from(ts: Seq<TaskView>, order: Seq<int>, i: int, done: Set<int>) -> Result<Set<int>, int>
    decreases order.len() - i,
{
    if i < 0 || i >= order.len() {
        Ok(done)
    } else {
        match dfs_visit(ts, order[i], seq![], done, ts.len()) {
            Err(x) => Err(x),
            Ok(d) => dfs_from(ts, order, i + 1, d),
        }
    }
}

/// `order` lists every task position once, in ascending order of task ID.
pub open spec fn is_id_order(ts: Seq<TaskView>, order: Seq<int>) -> bool {
    &&& order.len() == ts.len()
    &&& forall|j: int| 0 <= j < order.len() ==> 0 <= #[trigger] order[j] < ts.len()
    &&& forall|x: int| 0 <= x < ts.len() ==> #[trigger] order.contains(x)
    &&& forall|a: int, b: int|
        0 <= a < b < order.len() ==> !lex_lt(ts[#[trigger] order[b]].id, ts[#[trigger] order[a]].id)
}

/// `message` reports the cycle that a depth-first search finds when it
/// starts from the tasks in ascending ID order: it names the first task the
/// search reaches again while still searching from it.
pub open spec fn cycle_report(ts: Seq<TaskView>, message: Seq<char>) -> bool {
    exists|order: Seq<int>|
        is_id_order(ts, order) && (dfs_from(ts, order, 0, Set::empty()) matches Err(x) && 0 <= x
            < ts.len() && message == cycle_message(ts[x].id))
}

proof fn lemma_id_order_no_duplicates(ts: Seq<TaskView>, order: Seq<int>)
    requires
        is_id_order(ts, order),
    ensures
        order.no_duplicates(),
{
    let n = ts.len() as int;
    vstd::set_lib::lemma_int_range(0, n);
    assert(vstd::set_lib::set_int_range(0, n).subset_of(order.to_set()));
    order.lemma_cardinality_of_set();
    vstd::seq_lib::seq_to_set_is_finite(order);
    vstd::set_lib::lemma_len_subset(vstd::set_lib::set_int_range(0, n), order.to_set());
    order.lemma_no_dup_set_cardinality();
}

proof fn lemma_id_orders_agree(ts: Seq<TaskView>, o1: Seq<int>, o2: Seq<int>, k: int)
    requires
        unique_ids(ts),
        is_id_order(ts, o1),
        is_id_order(ts, o2),
        0 <= k < ts.len(),
    ensures
        forall|j: int| 0 <= j <= k ==> o1[j] == o2[j],
    decreases k,
{
    if k > 0 {
        lemma_id_orders_agree(ts, o1, o2, k - 1);
    }
    lemma_id_order_no_duplicates(ts, o1);
    lemma_id_order_no_duplicates(ts, o2);
    let x = o1[k];
    let y = o2[k];
    if x != y {
        crate::text::lemma_lex_total(ts[x].id, ts[y].id);
        if lex_lt(ts[x].id, ts[y].id) {
            assert(o2.contains(x));
            let p = choose|p: int| 0 <= p < o2.len() && o2[p] == x;
            if p < k {
                assert(o1[p] == x);
            } else {
                crate::text::lemma_lex_asymmetric(ts[x].id, ts[y].id);
            }
        } else {
            assert(o1.contains(y));
            let p = choose|p: int| 0 <= p < o1.len() && o1[p] == y;
            if p < k {
                assert(o2[p] == y);
            } else {
                crate::text::lemma_lex_asymmetric(ts[y].id, ts[x].id);
            }
        }
    }
}

/// With unique IDs there is one ascending ID order, so the cycle a report
/// names is fixed by the queue.
pub proof fn lemma_cycle_report_unique(ts: Seq<TaskView>, o1: Seq<int>, o2: Seq<int>)
    requires
        unique_ids(ts),
        is_id_order(ts, o1),
        is_id_order(ts, o2),
    ensures
        o1 == o2,
{
    if ts.len() > 0 {
        lemma_id_orders_agree(ts, o1, o2, ts.len() - 1);
    }
    assert(o1 =~= o2);
}

/// The search's state: the tasks on the current path, the finished tasks and
/// the rank each finished task was given.
struct Search {
    on_path: Vec<bool>,
    finished: Vec<bool>,
    path: Ghost<Seq<int>>,
    rank: Ghost<Seq<nat>>,
    count: Ghost<nat>,
}

impl Search {
    /// The tasks finished so far.
    spec fn done(&self) -> Set<int> {
        Set::new(|x: int| 0 <= x < self.finished.len() && self.finished@[x])
    }

    spec fn wf(&self, tasks: Seq<TaskView>) -> bool {
        let n = tasks.len();
        let path = self.path@;
        &&& self.on_path.len() == n
        &&& self.finished.len() == n
        &&& self.rank@.len() == n
        &&& path.no_duplicates()
        &&& forall|k: int| 0 <= k < path.len() ==> 0 <= #[trigger] path[k] < n
        &&& forall|x: int| 0 <= x < n ==> (#[trigger] self.on_path@[x] <==> path.contains(x))
        &&& forall|k: int| 0 <= k < path.len() - 1 ==> #[trigger] path_step(tasks, path, k)
        &&& forall|x: int| 0 <= x < n && #[trigger] self.finished@[x] ==> !self.on_path@[x]
        &&& forall|x: int|
            0 <= x < n && #[trigger] self.finished@[x] ==> self.rank@[x] < self.count@
        &&& forall|x: int, y: int|
            #![trigger self.finished@[x], depends_idx(tasks, x, y)]
            0 <= x < n && self.finished@[x] && depends_idx(tasks, x, y) ==> self.finished@[y]
                && self.rank@[y] < self.rank@[x]
    }
}

/// A path without repetitions through `n` tasks is at most `n` long.
pub proof fn lemma_path_bounded(path: Seq<int>, n: int)
    requires
        path.no_duplicates(),
        0 <= n,
        forall|k: int| 0 <= k < path.len() ==> 0 <= #[trigger] path[k] < n,
    ensures
        path.len() <= n,
{
    path.unique_seq_to_set();
    vstd::set_lib::lemma_int_range(0, n);
    assert(path.to_set().subset_of(vstd::set_lib::set_int_range(0, n)));
    vstd::set_lib::lemma_len_subset(path.to_set(), vstd::set_lib::set_int_range(0, n));
}

/// Visits task `v` and everything it depends on. On a cycle, returns the ID
/// of a task that lies on it.
fn visit(tasks: &Vec<Task>, v: usize, search: &mut Search) -> (r: Result<(), String>)
    requires
        unique_ids(tasks_view(tasks@)),
        known_dependencies(tasks_view(tasks@)),
        v < tasks.len(),
        old(search).wf(tasks_view(tasks@)),
        old(search).path@.len() > 0 ==> depends_idx(
            tasks_view(tasks@),
            old(search).path@.last(),
            v as int,
        ),
    ensures
        r is Ok ==> final(search).wf(tasks_view(tasks@)),
        r is Ok ==> final(search).path@ == old(search).path@,
        r is Ok ==> final(search).on_path@ == old(search).on_path@,
        r is Ok ==> final(search).finished@[v as int],
        r is Ok ==> forall|x: int|
            0 <= x < tasks.len() && #[trigger] old(search).finished@[x]
                ==> final(search).finished@[x],
        r matches Err(id) ==> on_cycle(tasks_view(tasks@), id@),
        r is Ok ==> (dfs_visit(
            tasks_view(tasks@),
            v as int,
            old(search).path@,
            old(search).done(),
            (tasks.len() - old(search).path@.len()) as nat,
        ) matches Ok(d) && final(search).done() == d),
        r matches Err(id) ==> (dfs_visit(
            tasks_view(tasks@),
            v as int,
            old(search).path@,
            old(search).done(),
            (tasks.len() - old(search).path@.len()) as nat,
        ) matches Err(x) && 0 <= x < tasks.len() && id@ == tasks_view(tasks@)[x].id),
    decreases tasks.len() - old(search).path@.len(),
{
    let ghost ts = tasks_view(tasks@);
    let ghost n = tasks.len() as int;
    let ghost fuel = (tasks.len() - search.path@.len()) as nat;
    proof {
        lemma_path_bounded(search.path@, n);
    }
    assert(ts[v as int] == tasks@[v as int]@);
    if search.on_path[v] {
        proof {
            let path = search.path@;
            assert(path.contains(v as int));
            let j = choose|j: int| 0 <= j < path.len() && path[j] == v as int;
            let cycle = path.subrange(j, path.len() as int).push(v as int);
            assert forall|k: int| 0 <= k < cycle.len() - 1 implies #[trigger] path_step(
                ts,
                cycle,
                k,
            ) by {
                if k < cycle.len() - 2 {
                    assert(path_step(ts, path, j + k));
                }
            }
            assert(is_dependency_path(ts, cycle));
        }
        return Err(tasks[v].id.clone());
    }
    if search.finished[v] {
        assert(search.done().contains(v as int));
        return Ok(());
    }
    proof {
        lemma_path_bounded(search.path@.push(v as int), n);
        assert(!search.path@.contains(v as int));
        assert(!search.done().contains(v as int));
    }
    let ghost done0 = search.done();
    let ghost start = *search;
    search.on_path.set(v, true);
    search.path = Ghost(search.path@.push(v as int));
    proof {
        let path = search.path@;
        assert(path.no_duplicates()) by {
            assert(!start.path@.contains(v as int));
            assert forall|a: int, b: int| 0 <= a < path.len() && 0 <= b < path.len() && a != b
                implies path[a] != path[b] by {
                if a < path.len() - 1 && b < path.len() - 1 {
                    assert(start.path@[a] != start.path@[b]);
                } else if a < path.len() - 1 {
                    assert(start.path@.contains(path[a]));
                } else if b < path.len() - 1 {
                    assert(start.path@.contains(path[b]));
                }
            }
        }
        assert forall|x: int| 0 <= x < n implies (#[trigger] search.on_path@[x] <==> path.contains(
            x,
        )) by {
            if x != v as int {
                if start.path@.contains(x) {
                    let j = choose|j: int| 0 <= j < start.path@.len() && start.path@[j] == x;
                    assert(path[j] == x);
                }
                if path.contains(x) {
                    let j = choose|j: int| 0 <= j < path.len() && path[j] == x;
                    assert(start.path@[j] == x);
                }
            } else {
                assert(path[path.len() - 1] == x);
            }
        }
        assert forall|k: int| 0 <= k < path.len() - 1 implies #[trigger] path_step(ts, path, k) by {
            if k < path.len() - 2 {
                assert(path_step(ts, start.path@, k));
            }
        }
    }
    let ghost entry = *search;
    let task = &tasks[v];
    let mut k: usize = 0;
    while k < task.depends_on.len()
        invariant
            ts == tasks_view(tasks@),
            n == tasks.len(),
            v < n,
            task == &tasks@[v as int],
            ts[v as int] == task@,
            unique_ids(ts),
            known_dependencies(ts),
            k <= task.depends_on.len(),
            search.wf(ts),
            search.path@ == entry.path@,
            entry.path@ == old(search).path@.push(v as int),
            search.on_path@ == entry.on_path@,
            search.path@.len() <= n,
            search.path@.last() == v as int,
            forall|x: int|
                0 <= x < n && #[trigger] old(search).finished@[x] ==> search.finished@[x],
            forall|x: int, y: int|
                #![trigger task.depends_on@[x], search.finished@[y]]
                0 <= x < k && 0 <= y < n && ts[y].id == task.depends_on@[x]@
                    ==> search.finished@[y],
            fuel >= 1,
            done0 == old(search).done(),
            fuel == (tasks.len() - old(search).path@.len()) as nat,
            dfs_visit(ts, v as int, old(search).path@, done0, fuel) == match dfs_dependencies(
                ts,
                v as int,
                k as int,
                entry.path@,
                search.done(),
                (fuel - 1) as nat,
            ) {
                Err(x) => Err(x),
                Ok(d) => Ok(d.insert(v as int)),
            },
            n - entry.path@.len() == fuel - 1,
        decreases task.depends_on.len() - k,
    {
        assert(ts[v as int].depends_on[k as int] == task.depends_on@[k as int]@);
        let w = match find_task_index(tasks, &task.depends_on[k]) {
            Some(w) => w,
            None => {
                proof {
                    assert(has_task(ts, ts[v as int].depends_on[k as int]));
                }
                return Ok(());
            },
        };
        assert(ts[w as int] == tasks@[w as int]@);
        assert(depends_idx(ts, v as int, w as int));
        let ghost pre = *search;
        proof {
            crate::plan::lemma_id_index(ts, w as int);
            assert(crate::plan::id_index(ts, ts[v as int].depends_on[k as int]) == w as int);
        }
        match visit(tasks, w, search) {
            Ok(()) => {},
            Err(id) => {
                proof {
                    let sub = dfs_visit(ts, w as int, entry.path@, pre.done(), (fuel - 1) as nat);
                    assert(sub is Err);
                    assert(dfs_dependencies(ts, v as int, k as int, entry.path@, pre.done(), (fuel - 1) as nat) == sub);
                }
                return Err(id);
            },
        }
        proof {
            assert forall|x: int, y: int|
                #![trigger task.depends_on@[x], search.finished@[y]]
                0 <= x < k + 1 && 0 <= y < n && ts[y].id == task.depends_on@[x]@
                    implies search.finished@[y] by {
                if x < k {
                    assert(pre.finished@[y]);
                } else if y != w {
                    assert(ts[y].id != ts[w as int].id);
                }
            }
        }
        k = k + 1;
    }
    proof {
        assert(dfs_dependencies(ts, v as int, k as int, entry.path@, search.done(), (fuel - 1) as nat) == Ok::<Set<int>, int>(search.done()));
    }
    let ghost before = *search;
    search.on_path.set(v, false);
    search.path = Ghost(search.path@.drop_last());
    search.finished.set(v, true);
    search.rank = Ghost(search.rank@.update(v as int, search.count@));
    search.count = Ghost(search.count@ + 1);
    proof {
        let path = search.path@;
        assert(path.push(v as int) =~= before.path@);
        assert forall|x: int| 0 <= x < n implies (#[trigger] search.on_path@[x] <==> path.contains(
            x,
        )) by {
            if x == v as int {
                if path.contains(x) {
                    let j = choose|j: int| 0 <= j < path.len() && path[j] == x;
                    assert(before.path@[j] == before.path@[path.len() as int]);
                }
            } else {
                assert(before.on_path@[x] <==> before.path@.contains(x));
                if before.path@.contains(x) {
                    let j = choose|j: int| 0 <= j < before.path@.len() && before.path@[j] == x;
                    assert(path[j] == x);
                }
            }
        }
        assert forall|k: int| 0 <= k < path.len() - 1 implies #[trigger] path_step(ts, path, k) by {
            assert(path_step(ts, before.path@, k));
        }
        assert forall|x: int, y: int|
            #![trigger search.finished@[x], depends_idx(ts, x, y)]
            0 <= x < n && search.finished@[x] && depends_idx(ts, x, y) implies search.finished@[y]
                && search.rank@[y] < search.rank@[x] by {
            if x == v as int {
                let kk = choose|kk: int|
                    0 <= kk < task.depends_on@.len() && #[trigger] ts[v as int].depends_on[kk]
                        == ts[y].id;
                assert(ts[y].id == task.depends_on@[kk]@);
                assert(before.finished@[y]);
            }
        }
        assert(search.done() =~= before.done().insert(v as int));
    }
    Ok(())
}

/// Reports a dependency cycle, if there is one. Tasks are searched in the
/// order of their IDs.
fn assert_acyclic(tasks: &Vec<Task>) -> (r: Result<(), QueueError>)
    requires
        unique_ids(tasks_view(tasks@)),
        known_dependencies(tasks_view(tasks@)),
    ensures
        r is Ok <==> acyclic(tasks_view(tasks@)),
        r matches Err(e) ==> (e matches QueueError::Validation(m) && exists|id: Seq<char>|
            m@ == cycle_message(id) && on_cycle(tasks_view(tasks@), id)),
        r matches Err(e) ==> (e matches QueueError::Validation(m) && cycle_report(tasks_view(tasks@), m@)),
{
    let ghost ts = tasks_view(tasks@);
    let n = tasks.len();
    let order = ids_in_order(tasks);
    let ghost oi = order@.map_values(|x: usize| x as int);
    proof {
        assert forall|a: int, b: int|
            0 <= a < b < oi.len() implies !lex_lt(ts[#[trigger] oi[b]].id, ts[#[trigger] oi[a]].id) by {
            assert(ts[oi[b]].id == id_in_order(tasks@, order@, b));
            assert(ts[oi[a]].id == id_in_order(tasks@, order@, a));
        }
        assert forall|x: int| 0 <= x < ts.len() implies #[trigger] oi.contains(x) by {
            assert(order@.contains(x as usize));
            let j = choose|j: int| 0 <= j < order@.len() && order@[j] == x as usize;
            assert(oi[j] == x);
        }
        assert(is_id_order(ts, oi));
    }
    let mut search = Search {
        on_path: Vec::new(),
        finished: Vec::new(),
        path: Ghost(Seq::empty()),
        rank: Ghost(Seq::new(n as nat, |i: int| 0nat)),
        count: Ghost(0nat),
    };
    let mut i: usize = 0;
    while i < n
        invariant
            i <= n,
            n == tasks.len(),
            search.on_path.len() == i,
            search.finished.len() == i,
            search.rank@.len() == n,
            search.path@ == Seq::<int>::empty(),
            forall|x: int| 0 <= x < i ==> !#[trigger] search.on_path@[x],
            forall|x: int| 0 <= x < i ==> !#[trigger] search.finished@[x],
        decreases n - i,
    {
        search.on_path.push(false);
        search.finished.push(false);
        i = i + 1;
    }
    proof {
        assert(search.done() =~= Set::<int>::empty());
    }
    let mut i: usize = 0;
    while i < n
        invariant
            ts == tasks_view(tasks@),
            n == tasks.len(),
            unique_ids(ts),
            known_dependencies(ts),
            order@.len() == n,
            forall|x: usize| x < n ==> #[trigger] order@.contains(x),
            forall|j: int| 0 <= j < n ==> #[trigger] order@[j] < n,
            i <= n,
            search.wf(ts),
            search.path@ == Seq::<int>::empty(),
            forall|j: int| 0 <= j < i ==> search.finished@[#[trigger] order@[j] as int],
            oi == order@.map_values(|x: usize| x as int),
            is_id_order(ts, oi),
            dfs_from(ts, oi, 0, Set::empty()) == dfs_from(ts, oi, i as int, search.done()),
        decreases n - i,
    {
        let ghost pre = search.done();
        match visit(tasks, order[i], &mut search) {
            Ok(()) => {},
            Err(id) => {
                let mut message = String::from_str("task dependency cycle detected at: ");
                message.append(id.as_str());
                proof {
                    lemma_cycle_not_acyclic(ts, id@);
                    assert(message@ == cycle_message(id@));
                    assert(oi[i as int] == order@[i as int] as int);
                    let sub = dfs_visit(ts, oi[i as int], seq![], pre, ts.len());
                    assert(sub is Err);
                    assert(dfs_from(ts, oi, i as int, pre) == sub);
                    assert(cycle_report(ts, message@));
                }
                return Err(QueueError::Validation(message));
            },
        }
        i = i + 1;
    }
    proof {
        let rank = |x: int| search.rank@[x];
        assert forall|x: int, y: int| #[trigger] depends_idx(ts, x, y) implies rank(y) < rank(
            x,
        ) by {
            assert(order@.contains(x as usize));
            let j = choose|j: int| 0 <= j < order@.len() && order@[j] == x as usize;
            assert(search.finished@[order@[j] as int]);
        }
        assert(ranks_dependencies(ts, rank));
    }
    Ok(())
}

proof fn lemma_cycle_not_acyclic(tasks: Seq<TaskView>, id: Seq<char>)
    requires
        on_cycle(tasks, id),
    ensures
        !acyclic(tasks),
{
    if acyclic(tasks) {
        crate::queue::lemma_acyclic_has_no_cycle(tasks, id);
    }
}

/// The ID of the task at position `order[k]`.
pub open spec fn id_in_order(tasks: Seq<Task>, order: Seq<usize>, k: int) -> Seq<char> {
    tasks[order[k] as int].id@
}

/// The task positions, ordered by task ID.
fn ids_in_order(tasks: &Vec<Task>) -> (order: Vec<usize>)
    ensures
        order@.len() == tasks.len(),
        forall|j: int| 0 <= j < order@.len() ==> #[trigger] order@[j] < tasks.len(),
        forall|x: usize| x < tasks.len() ==> #[trigger] order@.contains(x),
        forall|a: int, b: int|
            0 <= a < b < order@.len() ==> !lex_lt(
                #[trigger] id_in_order(tasks@, order@, b),
                #[trigger] id_in_order(tasks@, order@, a),
            ),
{
    let n = tasks.len();
    let mut order: Vec<usize> = Vec::new();
    let mut i: usize = 0;
    while i < n
        invariant
            i <= n,
            order@.len() == i,
            forall|j: int| 0 <= j < i ==> order@[j] == j as usize,
        decreases n - i,
    {
        order.push(i);
        i = i + 1;
    }
    assert forall|x: usize| x < n implies #[trigger] order@.contains(x) by {
        assert(order@[x as int] == x);
    }
    let mut i: usize = 0;
    while i < n
        invariant
            n == tasks.len(),
            order@.len() == n,
            i <= n,
            forall|j: int| 0 <= j < n ==> #[trigger] order@[j] < n,
            forall|x: usize| x < n ==> #[trigger] order@.contains(x),
            forall|a: int, b: int|
                0 <= a < b < n && a < i ==> !lex_lt(
                    #[trigger] id_in_order(tasks@, order@, b),
                    #[trigger] id_in_order(tasks@, order@, a),
                ),
        decreases n - i,
    {
        let mut best = i;
        let mut best_id = chars_of(tasks[order[i]].id.as_str());
        let mut j = i + 1;
        while j < n
            invariant
                n == tasks.len(),
                order@.len() == n,
                i < n,
                i <= best < n,
                i < j <= n,
                forall|k: int| 0 <= k < n ==> #[trigger] order@[k] < n,
                best_id@ == id_in_order(tasks@, order@, best as int),
                forall|k: int| i <= k < j ==> !lex_lt(
                    #[trigger] id_in_order(tasks@, order@, k),
                    id_in_order(tasks@, order@, best as int),
                ),
            decreases n - j,
        {
            let candidate = chars_of(tasks[order[j]].id.as_str());
            if crate::text::text_before(&candidate, &best_id) {
                proof {
                    assert forall|k: int| i <= k < j + 1 implies !lex_lt(
                        #[trigger] id_in_order(tasks@, order@, k),
                        candidate@,
                    ) by {
                        if k < j && lex_lt(id_in_order(tasks@, order@, k), candidate@) {
                            crate::text::lemma_lex_transitive(
                                id_in_order(tasks@, order@, k),
                                candidate@,
                                best_id@,
                            );
                        }
                        if k == j {
                            crate::text::lemma_lex_asymmetric(candidate@, candidate@);
                        }
                    }
                }
                best = j;
                best_id = candidate;
            }
            j = j + 1;
        }
        let ghost prev = order@;
        let a = order[i];
        let b = order[best];
        order.set(i, b);
        order.set(best, a);
        proof {
            assert forall|x: usize| x < n implies #[trigger] order@.contains(x) by {
                assert(prev.contains(x));
                let k = choose|k: int| 0 <= k < n && prev[k] == x;
                if k == i {
                    assert(order@[best as int] == x);
                } else if k == best {
                    assert(order@[i as int] == x);
                } else {
                    assert(order@[k] == x);
                }
            }
            assert forall|p: int, q: int|
                0 <= p < q < n && p < i + 1 implies !lex_lt(
                    #[trigger] id_in_order(tasks@, order@, q),
                    #[trigger] id_in_order(tasks@, order@, p),
                ) by {
                let qq = if q == i { best as int } else if q == best { i as int } else { q };
                assert(id_in_order(tasks@, order@, q) == id_in_order(tasks@, prev, qq));
                if p < i {
                    assert(id_in_order(tasks@, order@, p) == id_in_order(tasks@, prev, p));
                    assert(!lex_lt(id_in_order(tasks@, prev, qq), id_in_order(tasks@, prev, p)));
                } else {
                    assert(id_in_order(tasks@, order@, p) == id_in_order(tasks@, prev, best as int));
                    assert(!lex_lt(id_in_order(tasks@, prev, qq), id_in_order(tasks@, prev, best as int)));
                }
            }
        }
        i = i + 1;
    }
    order
}


proof fn lemma_tasks_sound(tasks: Seq<TaskView>, n: int)
    requires
        0 <= n <= tasks.len(),
        unique_ids(tasks),
        forall|i: int| 0 <= i < tasks.len() ==> #[trigger] task_field_issue(tasks[i]) is None,
    ensures
        first_task_issue(tasks, n) is None,
    decreases n,
{
    if n > 0 {
        lemma_tasks_sound(tasks, n - 1);
        assert(task_field_issue(tasks[n - 1]) is None);
        if duplicate_before(tasks, n - 1) {
            let j = choose|j: int| 0 <= j < n - 1 && #[trigger] tasks[j].id == tasks[n - 1].id;
            assert(tasks[j].id != tasks[n - 1].id);
        }
    }
}

proof fn lemma_dependencies_known(tasks: Seq<TaskView>, i: int, k: int)
    requires
        0 <= i < tasks.len(),
        0 <= k <= tasks[i].depends_on.len(),
        known_dependencies(tasks),
    ensures
        dependency_issue(tasks, i, k) is None,
    decreases k,
{
    if k > 0 {
        lemma_dependencies_known(tasks, i, k - 1);
        assert(has_task(tasks, tasks[i].depends_on[k - 1]));
    }
}

proof fn lemma_all_dependencies_known(tasks: Seq<TaskView>, n: int)
    requires
        0 <= n <= tasks.len(),
        known_dependencies(tasks),
    ensures
        first_dependency_issue(tasks, n) is None,
    decreases n,
{
    if n > 0 {
        lemma_all_dependencies_known(tasks, n - 1);
        lemma_dependencies_known(tasks, n - 1, tasks[n - 1].depends_on.len() as int);
    }
}

/// The valid queues are exactly those of version 1 whose retry policy allows
/// 1 to 20 attempts and an initial delay of at least one second, no longer
/// than the cap, itself at most one day; whose tasks have IDs of 1 to 64
/// ASCII letters, digits, `-` or `_`, all different, titles, workspaces and
/// prompts with some character other than whitespace, and dependencies on
/// tasks of the queue only; and whose dependencies form no cycle.
pub proof fn lemma_valid_queues(q: QueueView)
    ensures
        queue_is_valid(q) <==> {
            &&& q.version == 1
            &&& 1 <= q.retry_policy.max_attempts <= 20
            &&& 1 <= q.retry_policy.initial_delay_seconds <= q.retry_policy.max_delay_seconds
                <= 86_400
            &&& forall|i: int|
                0 <= i < q.tasks.len() ==> {
                    let t = #[trigger] q.tasks[i];
                    &&& 1 <= t.id.len() <= 64
                    &&& forall|c: int|
                        0 <= c < t.id.len() ==> (('a' <= #[trigger] t.id[c] && t.id[c] <= 'z') || (
                        'A' <= t.id[c] && t.id[c] <= 'Z') || ('0' <= t.id[c] && t.id[c] <= '9')
                            || t.id[c] == '-' || t.id[c] == '_')
                    &&& exists|c: int| 0 <= c < t.title.len() && !is_unicode_whitespace(#[trigger] t.title[c])
                    &&& exists|c: int|
                        0 <= c < t.workspace.len() && !is_unicode_whitespace(#[trigger] t.workspace[c])
                    &&& exists|c: int| 0 <= c < t.prompt.len() && !is_unicode_whitespace(#[trigger] t.prompt[c])
                    &&& forall|d: int|
                        0 <= d < t.depends_on.len() ==> exists|j: int|
                            0 <= j < q.tasks.len() && #[trigger] q.tasks[j].id == #[trigger] t.depends_on[d]
                }
            &&& forall|i: int, j: int|
                0 <= i < j < q.tasks.len() ==> #[trigger] q.tasks[i].id != #[trigger] q.tasks[j].id
            &&& acyclic(q.tasks)
        },
{
    let ts = q.tasks;
    let n = ts.len() as int;
    if queue_is_valid(q) {
        lemma_structurally_sound(q);
        assert forall|i: int| 0 <= i < n implies {
            let t = #[trigger] ts[i];
            &&& 1 <= t.id.len() <= 64
            &&& forall|c: int|
                0 <= c < t.id.len() ==> (('a' <= #[trigger] t.id[c] && t.id[c] <= 'z') || ('A'
                    <= t.id[c] && t.id[c] <= 'Z') || ('0' <= t.id[c] && t.id[c] <= '9') || t.id[c]
                    == '-' || t.id[c] == '_')
            &&& exists|c: int| 0 <= c < t.title.len() && !is_unicode_whitespace(#[trigger] t.title[c])
            &&& exists|c: int| 0 <= c < t.workspace.len() && !is_unicode_whitespace(#[trigger] t.workspace[c])
            &&& exists|c: int| 0 <= c < t.prompt.len() && !is_unicode_whitespace(#[trigger] t.prompt[c])
            &&& forall|d: int|
                0 <= d < t.depends_on.len() ==> exists|j: int|
                    0 <= j < n && #[trigger] ts[j].id == #[trigger] t.depends_on[d]
        } by {
            assert(task_field_issue(ts[i]) is None);
            assert forall|d: int| 0 <= d < ts[i].depends_on.len() implies exists|j: int|
                0 <= j < n && #[trigger] ts[j].id == #[trigger] ts[i].depends_on[d] by {
                assert(has_task(ts, ts[i].depends_on[d]));
            }
        }
    } else {
        if {
            &&& q.version == 1
            &&& 1 <= q.retry_policy.max_attempts <= 20
            &&& 1 <= q.retry_policy.initial_delay_seconds <= q.retry_policy.max_delay_seconds
                <= 86_400
            &&& forall|i: int|
                0 <= i < q.tasks.len() ==> {
                    let t = #[trigger] q.tasks[i];
                    &&& 1 <= t.id.len() <= 64
                    &&& forall|c: int|
                        0 <= c < t.id.len() ==> (('a' <= #[trigger] t.id[c] && t.id[c] <= 'z') || (
                        'A' <= t.id[c] && t.id[c] <= 'Z') || ('0' <= t.id[c] && t.id[c] <= '9')
                            || t.id[c] == '-' || t.id[c] == '_')
                    &&& exists|c: int| 0 <= c < t.title.len() && !is_unicode_whitespace(#[trigger] t.title[c])
                    &&& exists|c: int|
                        0 <= c < t.workspace.len() && !is_unicode_whitespace(#[trigger] t.workspace[c])
                    &&& exists|c: int| 0 <= c < t.prompt.len() && !is_unicode_whitespace(#[trigger] t.prompt[c])
                    &&& forall|d: int|
                        0 <= d < t.depends_on.len() ==> exists|j: int|
                            0 <= j < q.tasks.len() && #[trigger] q.tasks[j].id == #[trigger] t.depends_on[d]
                }
            &&& forall|i: int, j: int|
                0 <= i < j < q.tasks.len() ==> #[trigger] q.tasks[i].id != #[trigger] q.tasks[j].id
            &&& acyclic(q.tasks)
        } {
            assert forall|i: int| 0 <= i < n implies #[trigger] task_field_issue(ts[i]) is None by {
                let t = ts[i];
                assert(valid_task_id(t.id));
                let c1 = choose|c: int| 0 <= c < t.title.len() && !is_unicode_whitespace(#[trigger] t.title[c]);
                let c2 = choose|c: int| 0 <= c < t.workspace.len() && !is_unicode_whitespace(#[trigger] t.workspace[c]);
                let c3 = choose|c: int| 0 <= c < t.prompt.len() && !is_unicode_whitespace(#[trigger] t.prompt[c]);
                assert(!is_blank(t.title));
                assert(!is_blank(t.workspace));
                assert(!is_blank(t.prompt));
            }
            assert forall|i: int, j: int|
                0 <= i < n && 0 <= j < n && i != j implies #[trigger] ts[i].id != #[trigger] ts[j].id by {
                if i < j {
                    assert(ts[i].id != ts[j].id);
                } else {
                    assert(ts[j].id != ts[i].id);
                }
            }
            assert(unique_ids(ts));
            assert forall|i: int, d: int|
                0 <= i < n && 0 <= d < ts[i].depends_on.len() implies has_task(ts, #[trigger] ts[i].depends_on[d]) by {
                let t = ts[i];
                assert(exists|j: int| 0 <= j < n && #[trigger] ts[j].id == #[trigger] t.depends_on[d]);
            }
            assert(known_dependencies(ts));
            lemma_tasks_sound(ts, n);
            lemma_all_dependencies_known(ts, n);
            assert(structural_issue(q) is None);
        }
    }
}

} // verus!
