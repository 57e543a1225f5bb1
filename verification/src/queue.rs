//! The queue's data model and the mathematical model its contracts are stated in.
use vstd::prelude::*;
use vstd::string::*;

use crate::text::lex_lt;
use crate::time::Timestamp;

verus! {

/// The lifecycle state of a task.
#[derive(Clone, Copy, Debug, PartialEq, Eq, Structural)]
pub enum TaskStatus {
    Pending,
    Running,
    Succeeded,
    Failed,
    Blocked,
}

/// How transient failures are retried: `max_attempts` counts the first
/// execution; delays double from `initial_delay_seconds` up to
/// `max_delay_seconds`.
#[derive(Clone, Copy, Debug, PartialEq, Eq, Structural)]
pub struct RetryPolicy {
    pub max_attempts: u32,
    pub initial_delay_seconds: u64,
    pub max_delay_seconds: u64,
}

/// The policy used by queues that do not name one.
pub open spec fn default_retry_policy() -> RetryPolicy {
    RetryPolicy { max_attempts: 4, initial_delay_seconds: 30, max_delay_seconds: 900 }
}

impl Default for RetryPolicy {
    fn default() -> (r: Self)
        ensures
            r == default_retry_policy(),
    {
        RetryPolicy { max_attempts: 4, initial_delay_seconds: 30, max_delay_seconds: 900 }
    }
}

/// Why a task was blocked.
#[derive(Clone, Copy, Debug, PartialEq, Eq, Structural)]
pub enum BlockedReasonCode {
    DependencyUnavailable,
}

/// The structured reason recorded on a blocked task.
#[derive(Clone, Debug)]
pub struct BlockedReason {
    pub reason_code: BlockedReasonCode,
    pub dependency_id: String,
}

/// The model of a [`BlockedReason`].
pub struct BlockedReasonView {
    pub reason_code: BlockedReasonCode,
    pub dependency_id: Seq<char>,
}

impl View for BlockedReason {
    type V = BlockedReasonView;

    open spec fn view(&self) -> BlockedReasonView {
        BlockedReasonView { reason_code: self.reason_code, dependency_id: self.dependency_id@ }
    }
}

/// One unit of work in the queue.
#[derive(Clone, Debug)]
pub struct Task {
    pub id: String,
    pub title: String,
    pub workspace: String,
    pub prompt: String,
    pub priority: i64,
    pub depends_on: Vec<String>,
    pub status: TaskStatus,
    pub created_at: Timestamp,
    pub attempts: Option<u32>,
    pub started_at: Option<Timestamp>,
    pub finished_at: Option<Timestamp>,
    pub last_error: Option<String>,
    pub blocked_reason: Option<BlockedReason>,
    pub next_retry_at: Option<Timestamp>,
}

/// The model of a [`Task`]: every string taken by its characters.
pub struct TaskView {
    pub id: Seq<char>,
    pub title: Seq<char>,
    pub workspace: Seq<char>,
    pub prompt: Seq<char>,
    pub priority: i64,
    pub depends_on: Seq<Seq<char>>,
    pub status: TaskStatus,
    pub created_at: Timestamp,
    pub attempts: Option<u32>,
    pub started_at: Option<Timestamp>,
    pub finished_at: Option<Timestamp>,
    pub last_error: Option<Seq<char>>,
    pub blocked_reason: Option<BlockedReasonView>,
    pub next_retry_at: Option<Timestamp>,
}

pub open spec fn opt_string_view(s: Option<String>) -> Option<Seq<char>> {
    match s {
        Some(s) => Some(s@),
        None => None,
    }
}

pub open spec fn opt_reason_view(r: Option<BlockedReason>) -> Option<BlockedReasonView> {
    match r {
        Some(r) => Some(r@),
        None => None,
    }
}

impl View for Task {
    type V = TaskView;

    open spec fn view(&self) -> TaskView {
        TaskView {
            id: self.id@,
            title: self.title@,
            workspace: self.workspace@,
            prompt: self.prompt@,
            priority: self.priority,
            depends_on: self.depends_on.deep_view(),
            status: self.status,
            created_at: self.created_at,
            attempts: self.attempts,
            started_at: self.started_at,
            finished_at: self.finished_at,
            last_error: opt_string_view(self.last_error),
            blocked_reason: opt_reason_view(self.blocked_reason),
            next_retry_at: self.next_retry_at,
        }
    }
}

/// A queue file's content.
#[derive(Clone, Debug)]
pub struct Queue {
    pub version: u8,
    pub launch_app: bool,
    pub retry_policy: RetryPolicy,
    pub tasks: Vec<Task>,
}

/// The model of a [`Queue`].
pub struct QueueView {
    pub version: u8,
    pub launch_app: bool,
    pub retry_policy: RetryPolicy,
    pub tasks: Seq<TaskView>,
}

impl View for Queue {
    type V = QueueView;

    open spec fn view(&self) -> QueueView {
        QueueView {
            version: self.version,
            launch_app: self.launch_app,
            retry_policy: self.retry_policy,
            tasks: tasks_view(self.tasks@),
        }
    }
}

/// The models of a sequence of tasks.
pub open spec fn tasks_view(tasks: Seq<Task>) -> Seq<TaskView> {
    tasks.map_values(|t: Task| t@)
}

/// A copy of a list of strings.
pub fn copy_strings(v: &Vec<String>) -> (r: Vec<String>)
    ensures
        r.deep_view() == v.deep_view(),
{
    let mut r: Vec<String> = Vec::new();
    let mut i: usize = 0;
    while i < v.len()
        invariant
            i <= v.len(),
            r@.len() == i,
            forall|j: int| 0 <= j < i ==> (#[trigger] r@[j])@ == v@[j]@,
        decreases v.len() - i,
    {
        let item = v[i].clone();
        r.push(item);
        i = i + 1;
    }
    proof {
        assert forall|j: int| 0 <= j < v.len() implies #[trigger] r.deep_view()[j] == v.deep_view()[j] by {
            assert(r@[j]@ == v@[j]@);
        }
        assert(r.deep_view() =~= v.deep_view());
    }
    r
}

/// The position of the task with ID `id`, if there is one.
pub fn find_task_index(tasks: &Vec<Task>, id: &String) -> (r: Option<usize>)
    ensures
        r matches Some(j) ==> j < tasks.len() && tasks@[j as int].id@ == id@ && forall|x: int|
            0 <= x < j ==> tasks@[x].id@ != id@,
        r is None ==> !has_task(tasks_view(tasks@), id@),
{
    let mut j: usize = 0;
    while j < tasks.len()
        invariant
            j <= tasks.len(),
            forall|x: int| 0 <= x < j ==> tasks@[x].id@ != id@,
        decreases tasks.len() - j,
    {
        if tasks[j].id == *id {
            return Some(j);
        }
        j = j + 1;
    }
    proof {
        let ts = tasks_view(tasks@);
        assert forall|x: int| 0 <= x < ts.len() implies #[trigger] ts[x].id != id@ by {
            assert(ts[x] == tasks@[x]@);
        }
    }
    None
}

/// A task that cannot run because one of its dependencies failed or is blocked.
#[derive(Clone, Debug)]
pub struct BlockedTask {
    pub task_id: String,
    pub reason: String,
    pub reason_code: BlockedReasonCode,
    pub dependency_id: String,
}

/// The model of a [`BlockedTask`].
pub struct BlockedTaskView {
    pub task_id: Seq<char>,
    pub reason: Seq<char>,
    pub reason_code: BlockedReasonCode,
    pub dependency_id: Seq<char>,
}

impl View for BlockedTask {
    type V = BlockedTaskView;

    open spec fn view(&self) -> BlockedTaskView {
        BlockedTaskView {
            task_id: self.task_id@,
            reason: self.reason@,
            reason_code: self.reason_code,
            dependency_id: self.dependency_id@,
        }
    }
}

/// The order in which pending tasks will run, and the pending tasks that cannot run.
#[derive(Clone, Debug)]
pub struct ExecutionPlan {
    pub ordered_ids: Vec<String>,
    pub blocked: Vec<BlockedTask>,
}

/// The model of an [`ExecutionPlan`].
pub struct ExecutionPlanView {
    pub ordered_ids: Seq<Seq<char>>,
    pub blocked: Seq<BlockedTaskView>,
}

impl View for ExecutionPlan {
    type V = ExecutionPlanView;

    open spec fn view(&self) -> ExecutionPlanView {
        ExecutionPlanView {
            ordered_ids: self.ordered_ids.deep_view(),
            blocked: self.blocked@.map_values(|b: BlockedTask| b@),
        }
    }
}

/// Errors of queue parsing and validation, each carrying its message.
#[derive(Clone, Debug)]
pub enum QueueError {
    Json(String),
    Validation(String),
}

impl QueueError {
    /// The error's message as shown to users.
    pub fn message(&self) -> (r: String)
        ensures
            r@ == match self {
                QueueError::Json(m) => "invalid queue JSON: "@ + m@,
                QueueError::Validation(m) => m@,
            },
    {
        match self {
            QueueError::Json(m) => {
                let mut text = String::from_str("invalid queue JSON: ");
                text.append(m.as_str());
                text
            },
            QueueError::Validation(m) => m.clone(),
        }
    }
}

// ---------------------------------------------------------------------------
// Orders and relations over the model.

/// Instant `a` is strictly earlier than instant `b`.
pub open spec fn ts_lt(a: Timestamp, b: Timestamp) -> bool {
    a.seconds < b.seconds || (a.seconds == b.seconds && a.nanos < b.nanos)
}

/// Task `a` is taken before task `b`: higher priority first, then earlier
/// creation, then the smaller ID.
pub open spec fn precedes(a: TaskView, b: TaskView) -> bool {
    a.priority > b.priority || (a.priority == b.priority && (ts_lt(a.created_at, b.created_at) || (
    a.created_at == b.created_at && lex_lt(a.id, b.id))))
}

/// Taking order is transitive.
pub proof fn lemma_precedes_transitive(a: TaskView, b: TaskView, c: TaskView)
    requires
        precedes(a, b),
        precedes(b, c),
    ensures
        precedes(a, c),
{
    if a.priority == b.priority && b.priority == c.priority && a.created_at == b.created_at
        && b.created_at == c.created_at {
        crate::text::lemma_lex_transitive(a.id, b.id, c.id);
    }
}

/// Taking order is asymmetric, and total on tasks with distinct IDs.
pub proof fn lemma_precedes_total(a: TaskView, b: TaskView)
    ensures
        precedes(a, b) ==> !precedes(b, a),
        a.id != b.id ==> precedes(a, b) || precedes(b, a),
{
    crate::text::lemma_lex_asymmetric(a.id, b.id);
    if a.id != b.id {
        crate::text::lemma_lex_total(a.id, b.id);
    }
}

/// The taking order, field by field: a higher priority is taken first; at
/// equal priority the earlier creation time (seconds, then nanoseconds); at
/// equal priority and creation time the smaller ID, compared character by
/// character by code point, a proper prefix coming first. In each case the
/// other task is not taken first.
pub proof fn lemma_taking_order(a: TaskView, b: TaskView, k: int)
    ensures
        a.priority > b.priority ==> precedes(a, b) && !precedes(b, a),
        a.priority == b.priority && (a.created_at.seconds < b.created_at.seconds || (
        a.created_at.seconds == b.created_at.seconds && a.created_at.nanos < b.created_at.nanos))
            ==> precedes(a, b) && !precedes(b, a),
        a.priority == b.priority && a.created_at.seconds == b.created_at.seconds
            && a.created_at.nanos == b.created_at.nanos && 0 <= k <= a.id.len() && k <= b.id.len()
            && (forall|i: int| 0 <= i < k ==> a.id[i] == b.id[i]) && ((k == a.id.len() && k
            < b.id.len()) || (k < a.id.len() && k < b.id.len() && (a.id[k] as u32) < (
        b.id[k] as u32))) ==> precedes(a, b) && !precedes(b, a),
{
    if a.priority == b.priority && a.created_at.seconds == b.created_at.seconds
        && a.created_at.nanos == b.created_at.nanos && 0 <= k <= a.id.len() && k <= b.id.len()
        && (forall|i: int| 0 <= i < k ==> a.id[i] == b.id[i]) && ((k == a.id.len() && k
        < b.id.len()) || (k < a.id.len() && k < b.id.len() && (a.id[k] as u32) < (
    b.id[k] as u32))) {
        assert(crate::text::lex_split(a.id, b.id, k));
        crate::text::lemma_lex_asymmetric(a.id, b.id);
        assert(a.created_at == b.created_at);
    }
}

/// Whether task `a` is taken before task `b`.
pub fn task_precedes(a: &Task, b: &Task) -> (r: bool)
    ensures
        r == precedes(a@, b@),
{
    if a.priority != b.priority {
        return a.priority > b.priority;
    }
    if a.created_at.seconds != b.created_at.seconds {
        return a.created_at.seconds < b.created_at.seconds;
    }
    if a.created_at.nanos != b.created_at.nanos {
        return a.created_at.nanos < b.created_at.nanos;
    }
    let a_id = crate::text::chars_of(a.id.as_str());
    let b_id = crate::text::chars_of(b.id.as_str());
    crate::text::text_before(&a_id, &b_id)
}

/// Task `i` lists the ID of task `j` among its dependencies.
pub open spec fn depends_idx(tasks: Seq<TaskView>, i: int, j: int) -> bool {
    0 <= i < tasks.len() && 0 <= j < tasks.len() && tasks[i].depends_on.contains(tasks[j].id)
}

/// No two tasks share an ID.
pub open spec fn unique_ids(tasks: Seq<TaskView>) -> bool {
    forall|i: int, j: int|
        0 <= i < tasks.len() && 0 <= j < tasks.len() && i != j ==> #[trigger] tasks[i].id
            != #[trigger] tasks[j].id
}

/// Some task has ID `id`.
pub open spec fn has_task(tasks: Seq<TaskView>, id: Seq<char>) -> bool {
    exists|j: int| 0 <= j < tasks.len() && #[trigger] tasks[j].id == id
}

/// Every dependency names a task of the queue.
pub open spec fn known_dependencies(tasks: Seq<TaskView>) -> bool {
    forall|i: int, k: int|
        0 <= i < tasks.len() && 0 <= k < tasks[i].depends_on.len() ==> has_task(
            tasks,
            #[trigger] tasks[i].depends_on[k],
        )
}

/// `rank` strictly decreases along every dependency edge.
pub open spec fn ranks_dependencies(tasks: Seq<TaskView>, rank: spec_fn(int) -> nat) -> bool {
    forall|i: int, j: int| #[trigger] depends_idx(tasks, i, j) ==> rank(j) < rank(i)
}

/// The dependency graph has no cycle: its tasks can be ranked so that every
/// task ranks above each of its dependencies.
pub open spec fn acyclic(tasks: Seq<TaskView>) -> bool {
    exists|rank: spec_fn(int) -> nat| ranks_dependencies(tasks, rank)
}

/// Step `k` of `path` follows a dependency edge.
pub open spec fn path_step(tasks: Seq<TaskView>, path: Seq<int>, k: int) -> bool {
    depends_idx(tasks, path[k], path[k + 1])
}

/// `path` follows dependency edges from `path[0]` to its last element.
pub open spec fn is_dependency_path(tasks: Seq<TaskView>, path: Seq<int>) -> bool {
    &&& path.len() >= 2
    &&& forall|k: int| 0 <= k < path.len() - 1 ==> #[trigger] path_step(tasks, path, k)
}

/// The task with ID `id` lies on a dependency cycle.
pub open spec fn on_cycle(tasks: Seq<TaskView>, id: Seq<char>) -> bool {
    exists|path: Seq<int>|
        #![trigger is_dependency_path(tasks, path)]
        is_dependency_path(tasks, path) && path[0] == path.last() && tasks[path[0]].id == id
}

/// A ranking forbids cycles: the rank of a path's end is below that of its start.
pub proof fn lemma_path_rank_decreases(
    tasks: Seq<TaskView>,
    rank: spec_fn(int) -> nat,
    path: Seq<int>,
)
    requires
        ranks_dependencies(tasks, rank),
        is_dependency_path(tasks, path),
    ensures
        rank(path.last()) < rank(path[0]),
    decreases path.len(),
{
    assert(path_step(tasks, path, 0));
    if path.len() > 2 {
        let rest = path.drop_first();
        assert forall|k: int| 0 <= k < rest.len() - 1 implies #[trigger] path_step(tasks, rest, k) by {
            assert(path_step(tasks, path, k + 1));
        }
        lemma_path_rank_decreases(tasks, rank, rest);
    }
}

/// An acyclic queue has no task on a cycle.
pub proof fn lemma_acyclic_has_no_cycle(tasks: Seq<TaskView>, id: Seq<char>)
    requires
        acyclic(tasks),
    ensures
        !on_cycle(tasks, id),
{
    let rank = choose|rank: spec_fn(int) -> nat| ranks_dependencies(tasks, rank);
    if on_cycle(tasks, id) {
        let path = choose|path: Seq<int>|
            #![trigger is_dependency_path(tasks, path)]
            is_dependency_path(tasks, path) && path[0] == path.last() && tasks[path[0]].id == id;
        lemma_path_rank_decreases(tasks, rank, path);
    }
}

} // verus!
