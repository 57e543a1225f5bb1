//! The worker's decisions: recovering interrupted runs, choosing the next
//! task, recording attempts, and scheduling retries with capped exponential
//! backoff. The program around the library performs the file and process
//! work each decision calls for.
use vstd::prelude::*;
use vstd::string::*;

use crate::plan::{build_execution_plan, is_block_list, is_run_order, is_waiting};
use crate::queue::{
    copy_strings, find_task_index, has_task, tasks_view, ExecutionPlan, Queue, QueueError, QueueView,
    RetryPolicy, Task, TaskStatus, TaskView,
};
use crate::text::{append_decimal, decimal};
use crate::time::Timestamp;
use sha2::Digest;

verus! {

broadcast use vstd::string::group_string_axioms;

/// An error of a task attempt that is worth retrying.
#[derive(Clone, Debug)]
pub struct TransientTaskError {
    message: String,
}

impl TransientTaskError {
    /// The error's message.
    pub closed spec fn text(&self) -> Seq<char> {
        self.message@
    }

    pub fn new(message: &str) -> (r: Self)
        ensures
            r.text() == message@,
    {
        TransientTaskError { message: message.to_owned() }
    }

    pub fn message(&self) -> (r: &str)
        ensures
            r@ == self.text(),
    {
        self.message.as_str()
    }
}

/// How a run is made.
#[derive(Clone, Copy, Debug, Default)]
pub struct WorkerOptions {
    /// Plan without launching, executing or changing the queue.
    pub dry_run: bool,
}

/// What a run did, by task ID.
#[derive(Clone, Debug, Default, PartialEq, Eq)]
pub struct RunSummary {
    pub planned_ids: Vec<String>,
    pub succeeded_ids: Vec<String>,
    pub failed_ids: Vec<String>,
    pub blocked_ids: Vec<String>,
}

/// The model of a [`RunSummary`].
pub struct RunSummaryView {
    pub planned_ids: Seq<Seq<char>>,
    pub succeeded_ids: Seq<Seq<char>>,
    pub failed_ids: Seq<Seq<char>>,
    pub blocked_ids: Seq<Seq<char>>,
}

impl View for RunSummary {
    type V = RunSummaryView;

    open spec fn view(&self) -> RunSummaryView {
        RunSummaryView {
            planned_ids: self.planned_ids.deep_view(),
            succeeded_ids: self.succeeded_ids.deep_view(),
            failed_ids: self.failed_ids.deep_view(),
            blocked_ids: self.blocked_ids.deep_view(),
        }
    }
}

/// A queue as loaded, with the revision of the bytes it was read from.
#[derive(Clone, Debug)]
pub struct QueueFileSnapshot {
    pub queue: Queue,
    pub revision: String,
}

/// Errors of a worker run. Paths and the operating system's errors are
/// carried as text.
#[derive(Clone, Debug)]
pub enum WorkerError {
    ResolveQueue { path: String, source: String },
    Read { path: String, source: String },
    Write { path: String, source: String },
    AlreadyRunning(String),
    Lock { path: String, source: String },
    RevisionConflict { path: String, expected_revision: String, actual_revision: String },
    Queue(QueueError),
    Serialize(String),
    Launch(String),
    AttemptOverflow { task_id: String },
}

pub open spec fn queue_error_text(e: QueueError) -> Seq<char> {
    match e {
        QueueError::Json(m) => "invalid queue JSON: "@ + m@,
        QueueError::Validation(m) => m@,
    }
}

/// The message of each worker error.
pub open spec fn worker_error_text(e: WorkerError) -> Seq<char> {
    match e {
        WorkerError::ResolveQueue { path, source } => "cannot resolve queue path "@ + path@ + ": "@
            + source@,
        WorkerError::Read { path, source } => "cannot read "@ + path@ + ": "@ + source@,
        WorkerError::Write { path, source } => "cannot write "@ + path@ + ": "@ + source@,
        WorkerError::AlreadyRunning(path) => "another queue worker already holds "@ + path@,
        WorkerError::Lock { path, source } => "cannot lock "@ + path@ + ": "@ + source@,
        WorkerError::RevisionConflict { path, .. } => "queue changed since it was loaded: "@
            + path@ + "; reload before saving"@,
        WorkerError::Queue(q) => queue_error_text(q),
        WorkerError::Serialize(m) => "cannot serialize queue: "@ + m@,
        WorkerError::Launch(m) => "cannot launch Codex app: "@ + m@,
        WorkerError::AttemptOverflow { task_id } => "task "@ + task_id@
            + " has reached the maximum attempt count"@,
    }
}

fn joined(parts: &[&str]) -> (r: String)
    ensures
        r@ == parts@.fold_left(Seq::<char>::empty(), |acc: Seq<char>, p: &str| acc + p@),
{
    let mut text = String::new();
    let mut i: usize = 0;
    while i < parts.len()
        invariant
            i <= parts@.len(),
            text@ == parts@.take(i as int).fold_left(
                Seq::<char>::empty(),
                |acc: Seq<char>, p: &str| acc + p@,
            ),
        decreases parts@.len() - i,
    {
        proof {
            assert(parts@.take(i + 1).drop_last() =~= parts@.take(i as int));
        }
        text.append(parts[i]);
        i = i + 1;
    }
    proof {
        assert(parts@.take(parts@.len() as int) =~= parts@);
    }
    text
}

impl WorkerError {
    /// The error's message as shown to users.
    pub fn message(&self) -> (r: String)
        ensures
            r@ == worker_error_text(*self),
    {
        let r = match self {
            WorkerError::ResolveQueue { path, source } => joined(
                &["cannot resolve queue path ", path.as_str(), ": ", source.as_str()],
            ),
            WorkerError::Read { path, source } => joined(
                &["cannot read ", path.as_str(), ": ", source.as_str()],
            ),
            WorkerError::Write { path, source } => joined(
                &["cannot write ", path.as_str(), ": ", source.as_str()],
            ),
            WorkerError::AlreadyRunning(path) => joined(
                &["another queue worker already holds ", path.as_str()],
            ),
            WorkerError::Lock { path, source } => joined(
                &["cannot lock ", path.as_str(), ": ", source.as_str()],
            ),
            WorkerError::RevisionConflict { path, .. } => joined(
                &["queue changed since it was loaded: ", path.as_str(), "; reload before saving"],
            ),
            WorkerError::Queue(q) => q.message(),
            WorkerError::Serialize(m) => joined(&["cannot serialize queue: ", m.as_str()]),
            WorkerError::Launch(m) => joined(&["cannot launch Codex app: ", m.as_str()]),
            WorkerError::AttemptOverflow { task_id } => joined(
                &["task ", task_id.as_str(), " has reached the maximum attempt count"],
            ),
        };
        proof {
            reveal_with_fuel(Seq::fold_left, 5);
        }
        r
    }
}

// ---------------------------------------------------------------------------
// Retry timing.

/// The delay in seconds before retrying after `completed` attempts: the
/// initial delay, doubled for each attempt after the first (at most 19
/// times), and capped at the policy's maximum.
pub open spec fn retry_delay_seconds(policy: RetryPolicy, completed: u32) -> int {
    let raw = policy.initial_delay_seconds * vstd::arithmetic::power2::pow2(backoff_exponent(completed));
    if raw < policy.max_delay_seconds {
        raw
    } else {
        policy.max_delay_seconds as int
    }
}

/// The delay in seconds before retrying after `completed_attempts` attempts.
pub fn retry_delay(policy: RetryPolicy, completed_attempts: u32) -> (r: u64)
    ensures
        r == retry_delay_seconds(policy, completed_attempts),
{
    let exponent = completed_attempts.saturating_sub(1);
    let exponent: u32 = if exponent > 19 {
        19
    } else {
        exponent
    };
    proof {
        vstd::arithmetic::power2::lemma2_to64();
        vstd::arithmetic::power2::lemma_pow2_strictly_increases(exponent as nat, 20);
        vstd::bits::lemma_u64_shl_is_mul(1, exponent as u64);
    }
    let multiplier: u64 = 1u64 << (exponent as u64);
    let delay = match policy.initial_delay_seconds.checked_mul(multiplier) {
        Some(d) => d,
        None => u64::MAX,
    };
    if delay < policy.max_delay_seconds {
        delay
    } else {
        policy.max_delay_seconds
    }
}

/// The exponent of the backoff after `completed` attempts.
pub open spec fn backoff_exponent(completed: u32) -> nat {
    if completed <= 1 {
        0
    } else if completed - 1 > 19 {
        19
    } else {
        (completed - 1) as nat
    }
}

/// Every retry waits at least the initial delay and at most the cap, for a
/// policy whose initial delay does not exceed its cap.
pub proof fn lemma_retry_delay_bounds(policy: RetryPolicy, completed: u32)
    requires
        policy.initial_delay_seconds <= policy.max_delay_seconds,
    ensures
        policy.initial_delay_seconds <= retry_delay_seconds(policy, completed)
            <= policy.max_delay_seconds,
{
    let e = backoff_exponent(completed);
    let p = vstd::arithmetic::power2::pow2(e);
    vstd::arithmetic::power2::lemma_pow2_pos(e);
    let i = policy.initial_delay_seconds as int;
    assert(i * p >= i) by (nonlinear_arith)
        requires
            p >= 1,
            i >= 0,
    ;
}

/// The first retry waits the initial delay, capped.
pub proof fn lemma_first_retry_delay(policy: RetryPolicy)
    ensures
        retry_delay_seconds(policy, 1) == if policy.initial_delay_seconds < policy.max_delay_seconds {
            policy.initial_delay_seconds as int
        } else {
            policy.max_delay_seconds as int
        },
{
    vstd::arithmetic::power2::lemma2_to64();
    assert(backoff_exponent(1) == 0);
    assert(vstd::arithmetic::power2::pow2(0) == 1);
    assert(policy.initial_delay_seconds * vstd::arithmetic::power2::pow2(0) == policy.initial_delay_seconds);
}

/// Each further attempt doubles the delay, up to the cap, until the
/// twentieth attempt.
pub proof fn lemma_retry_delay_doubles(policy: RetryPolicy, completed: u32)
    requires
        1 <= completed < 20,
    ensures
        retry_delay_seconds(policy, (completed + 1) as u32) == if 2 * retry_delay_seconds(
            policy,
            completed,
        ) < policy.max_delay_seconds {
            2 * retry_delay_seconds(policy, completed)
        } else {
            policy.max_delay_seconds as int
        },
{
    let e = backoff_exponent(completed);
    assert(backoff_exponent((completed + 1) as u32) == e + 1);
    vstd::arithmetic::power2::lemma_pow2_unfold(e + 1);
    let p = vstd::arithmetic::power2::pow2(e);
    let q = vstd::arithmetic::power2::pow2(e + 1);
    let i = policy.initial_delay_seconds as int;
    assert(i * q == 2 * (i * p)) by (nonlinear_arith)
        requires
            q == 2 * p,
    ;
    vstd::arithmetic::power2::lemma_pow2_pos(e);
    assert(i * p >= 0) by (nonlinear_arith)
        requires
            p >= 1,
            i >= 0,
    ;
}

/// A later attempt never waits less than an earlier one.
pub proof fn lemma_retry_delay_monotone(policy: RetryPolicy, earlier: u32, later: u32)
    requires
        earlier <= later,
    ensures
        retry_delay_seconds(policy, earlier) <= retry_delay_seconds(policy, later),
{
    let a = backoff_exponent(earlier);
    let b = backoff_exponent(later);
    let pa = vstd::arithmetic::power2::pow2(a);
    let pb = vstd::arithmetic::power2::pow2(b);
    if a < b {
        vstd::arithmetic::power2::lemma_pow2_strictly_increases(a, b);
    }
    let i = policy.initial_delay_seconds as int;
    assert(i * pa <= i * pb) by (nonlinear_arith)
        requires
            pa <= pb,
            i >= 0,
    ;
}

/// Rounds a duration of `seconds` and `nanos` up to whole seconds.
pub fn round_up_to_second(seconds: u64, nanos: u32) -> (r: u64)
    ensures
        r == if nanos == 0 {
            seconds as int
        } else if seconds == u64::MAX {
            seconds as int
        } else {
            seconds + 1
        },
{
    if nanos == 0 {
        seconds
    } else {
        seconds.saturating_add(1)
    }
}

pub open spec fn nanos_per_second() -> int {
    1_000_000_000
}

/// The time from `from` to `to` in nanoseconds.
pub open spec fn nanos_between(from: crate::time::Timestamp, to: crate::time::Timestamp) -> int {
    (to.seconds - from.seconds) * nanos_per_second() + to.nanos - from.nanos
}

/// How long to wait, in whole seconds, for a retry due at `retry_at`: the
/// remaining time, capped at `max_delay_seconds` and rounded up; nothing when
/// the retry is already due.
pub open spec fn retry_wait(
    retry_at: crate::time::Timestamp,
    now: crate::time::Timestamp,
    max_delay_seconds: u64,
) -> Option<int> {
    let remaining = nanos_between(now, retry_at);
    if remaining <= 0 {
        None
    } else {
        let capped = if remaining < max_delay_seconds * nanos_per_second() {
            remaining
        } else {
            max_delay_seconds * nanos_per_second()
        };
        Some((capped + nanos_per_second() - 1) / nanos_per_second())
    }
}

/// The wait before a retry is never longer than the cap.
pub proof fn lemma_retry_wait_capped(
    retry_at: crate::time::Timestamp,
    now: crate::time::Timestamp,
    max_delay_seconds: u64,
)
    ensures
        retry_wait(retry_at, now, max_delay_seconds) matches Some(w) ==> 0 <= w <= max_delay_seconds,
{
    let remaining = nanos_between(now, retry_at);
    if remaining > 0 {
        let n = nanos_per_second();
        let m = max_delay_seconds as int;
        let capped = if remaining < m * n {
            remaining
        } else {
            m * n
        };
        assert((capped + n - 1) / n <= m && (capped + n - 1) / n >= 0) by (nonlinear_arith)
            requires
                0 <= capped <= m * n,
                n == 1_000_000_000,
                m >= 0,
        ;
    }
}

/// The whole seconds to wait before a retry due at `retry_at`, if it is not due yet.
pub fn retry_wait_seconds(
    retry_at: crate::time::Timestamp,
    now: crate::time::Timestamp,
    max_delay_seconds: u64,
) -> (r: Option<u64>)
    ensures
        r matches Some(w) ==> retry_wait(retry_at, now, max_delay_seconds) == Some(w as int),
        r is None ==> retry_wait(retry_at, now, max_delay_seconds) is None,
{
    let seconds_apart: i128 = retry_at.seconds as i128 - now.seconds as i128;
    let nanos_apart: i128 = retry_at.nanos as i128 - now.nanos as i128;
    assert(-0x1_0000_0000_0000_0000 <= seconds_apart <= 0x1_0000_0000_0000_0000);
    assert(seconds_apart * 1_000_000_000 <= 0x1_0000_0000_0000_0000 * 1_000_000_000) by (nonlinear_arith)
        requires seconds_apart <= 0x1_0000_0000_0000_0000;
    assert(seconds_apart * 1_000_000_000 >= -0x1_0000_0000_0000_0000 * 1_000_000_000) by (nonlinear_arith)
        requires seconds_apart >= -0x1_0000_0000_0000_0000;
    let remaining: i128 = seconds_apart * 1_000_000_000 + nanos_apart;
    if remaining <= 0 {
        return None;
    }
    let cap: i128 = max_delay_seconds as i128 * 1_000_000_000;
    let capped: i128 = if remaining < cap {
        remaining
    } else {
        cap
    };
    let whole: i128 = capped / 1_000_000_000;
    let fraction: i128 = capped % 1_000_000_000;
    assert(0 <= whole <= max_delay_seconds);
    let seconds = round_up_to_second(whole as u64, fraction as u32);
    proof {
        let n = nanos_per_second();
        assert(capped == whole * n + fraction);
        if fraction == 0 {
            assert((capped + n - 1) / n == whole) by (nonlinear_arith)
                requires capped == whole * n + 0, n == 1_000_000_000, whole >= 0;
        } else {
            assert((capped + n - 1) / n == whole + 1) by (nonlinear_arith)
                requires capped == whole * n + fraction, n == 1_000_000_000, 0 < fraction < n, whole >= 0;
        }
    }
    Some(seconds)
}

// ---------------------------------------------------------------------------
// Recovering interrupted runs.

/// The number of attempts a task has made.
pub open spec fn attempt_count(t: TaskView) -> int {
    match t.attempts {
        Some(a) => a as int,
        None => 0,
    }
}

/// A task may still be started: every pending task has attempts left, and a
/// running task has not gone past the maximum.
pub open spec fn within_attempt_budget(q: QueueView) -> bool {
    forall|i: int|
        0 <= i < q.tasks.len() ==> {
            &&& (#[trigger] q.tasks[i]).status == TaskStatus::Pending ==> attempt_count(q.tasks[i])
                < q.retry_policy.max_attempts
            &&& q.tasks[i].status == TaskStatus::Running ==> attempt_count(q.tasks[i])
                <= q.retry_policy.max_attempts
        }
}

pub open spec fn attempts_exhausted(t: TaskView, max_attempts: u32) -> bool {
    t.attempts matches Some(a) && a >= max_attempts
}

pub open spec fn interrupted_exhausted_message(max_attempts: u32) -> Seq<char> {
    "interrupted worker run reached the maximum attempt count ("@ + decimal(max_attempts as nat)
        + ")"@
}

pub open spec fn exhausted_before_message(max_attempts: u32) -> Seq<char> {
    "maximum attempt count ("@ + decimal(max_attempts as nat) + ") reached before execution"@
}

pub open spec fn recovered_message() -> Seq<char> {
    "recovered from an interrupted worker run"@
}

/// A waiting task whose attempt counter cannot be incremented.
pub open spec fn attempts_overflow(t: TaskView) -> bool {
    is_waiting(t.status) && t.attempts == Some(u32::MAX)
}

/// The task will be changed by recovery.
pub open spec fn needs_recovery(t: TaskView, max_attempts: u32) -> bool {
    t.status == TaskStatus::Running || (t.status == TaskStatus::Pending && attempts_exhausted(
        t,
        max_attempts,
    ))
}

/// A task after recovery: an interrupted task goes back to pending, or fails
/// if it has no attempt left; a pending task without attempts left fails.
pub open spec fn recovered_task(t: TaskView, max_attempts: u32, now: Timestamp) -> TaskView {
    if t.status == TaskStatus::Running && attempts_exhausted(t, max_attempts) {
        TaskView {
            status: TaskStatus::Failed,
            finished_at: Some(now),
            next_retry_at: None,
            last_error: Some(interrupted_exhausted_message(max_attempts)),
            ..t
        }
    } else if t.status == TaskStatus::Running {
        TaskView {
            status: TaskStatus::Pending,
            next_retry_at: None,
            last_error: Some(
                match t.last_error {
                    Some(e) => e,
                    None => recovered_message(),
                },
            ),
            ..t
        }
    } else if t.status == TaskStatus::Pending && attempts_exhausted(t, max_attempts) {
        TaskView {
            status: TaskStatus::Failed,
            finished_at: Some(now),
            next_retry_at: None,
            last_error: Some(exhausted_before_message(max_attempts)),
            ..t
        }
    } else {
        t
    }
}

/// Recovery goes by the attempts left: a pending or interrupted task with
/// fewer attempts than the maximum is pending afterwards (a pending one is
/// left as it is, and needs no recovery), and one whose attempt count has
/// reached the maximum fails. Tasks that are neither pending nor running are
/// left as they are, and recovery never changes a task's attempt count, ID or
/// dependencies.
pub proof fn lemma_recovery_by_attempts(t: TaskView, max_attempts: u32, now: Timestamp)
    ensures
        (t.status == TaskStatus::Pending || t.status == TaskStatus::Running) && (t.attempts is None
            || t.attempts->0 < max_attempts) ==> recovered_task(t, max_attempts, now).status
            == TaskStatus::Pending,
        t.status == TaskStatus::Pending && (t.attempts is None || t.attempts->0 < max_attempts)
            ==> recovered_task(t, max_attempts, now) == t && !needs_recovery(t, max_attempts),
        (t.status == TaskStatus::Pending || t.status == TaskStatus::Running) && t.attempts is Some
            && t.attempts->0 >= max_attempts ==> recovered_task(t, max_attempts, now).status
            == TaskStatus::Failed,
        !(t.status == TaskStatus::Pending || t.status == TaskStatus::Running) ==> recovered_task(
            t,
            max_attempts,
            now,
        ) == t,
        recovered_task(t, max_attempts, now).attempts == t.attempts,
        recovered_task(t, max_attempts, now).id == t.id,
        recovered_task(t, max_attempts, now).depends_on == t.depends_on,
        needs_recovery(t, max_attempts) <==> recovered_task(t, max_attempts, now) != t,
        t.status == TaskStatus::Running && (t.attempts is None || t.attempts->0 < max_attempts)
            ==> recovered_task(t, max_attempts, now).next_retry_at is None && recovered_task(
            t,
            max_attempts,
            now,
        ).finished_at == t.finished_at && recovered_task(t, max_attempts, now).last_error == (
        if t.last_error is Some {
            t.last_error
        } else {
            Some("recovered from an interrupted worker run"@)
        }),
        recovered_task(t, max_attempts, now).status == TaskStatus::Failed && t.status
            != TaskStatus::Failed ==> recovered_task(t, max_attempts, now).finished_at == Some(now)
            && recovered_task(t, max_attempts, now).next_retry_at is None,
{
}

/// Recovery settles a task: once recovered, it needs no more recovery, and
/// recovering it again changes nothing.
pub proof fn lemma_recovery_settles(t: TaskView, max_attempts: u32, now: Timestamp, later: Timestamp)
    ensures
        !needs_recovery(recovered_task(t, max_attempts, now), max_attempts),
        recovered_task(recovered_task(t, max_attempts, now), max_attempts, later) == recovered_task(
            t,
            max_attempts,
            now,
        ),
{
}

/// Recovers the tasks of an interrupted run at time `now`, and reports whether
/// any task changed. Fails, naming the first such task, when a waiting task's
/// attempt counter cannot be incremented.
pub fn normalize_retry_state(queue: &mut Queue, now: Timestamp) -> (r: Result<bool, WorkerError>)
    ensures
        r is Err <==> exists|i: int| 0 <= i < old(queue)@.tasks.len() && #[trigger] attempts_overflow(old(queue)@.tasks[i]),
        r matches Err(e) ==> (e matches WorkerError::AttemptOverflow { task_id } && exists|i: int|
            0 <= i < old(queue)@.tasks.len() && attempts_overflow(#[trigger] old(queue)@.tasks[i])
                && task_id@ == old(queue)@.tasks[i].id && (forall|j: int|
                0 <= j < i ==> !attempts_overflow(#[trigger] old(queue)@.tasks[j])) && final(queue)@
                == (QueueView {
                tasks: old(queue)@.tasks.take(i).map_values(
                    |t: TaskView| recovered_task(t, old(queue)@.retry_policy.max_attempts, now),
                ) + old(queue)@.tasks.skip(i),
                ..old(queue)@
            })),
        r is Ok ==> final(queue)@ == (QueueView {
            tasks: old(queue)@.tasks.map_values(
                |t: TaskView| recovered_task(t, old(queue)@.retry_policy.max_attempts, now),
            ),
            ..old(queue)@
        }),
        r matches Ok(changed) ==> changed == exists|i: int|
            0 <= i < old(queue)@.tasks.len() && needs_recovery(
                #[trigger] old(queue)@.tasks[i],
                old(queue)@.retry_policy.max_attempts,
            ),
        r is Ok && old(queue)@.retry_policy.max_attempts >= 1 ==> within_attempt_budget(
            final(queue)@,
        ),
{
    let ghost start = queue@;
    let max = queue.retry_policy.max_attempts;
    let mut changed = false;
    let mut i: usize = 0;
    while i < queue.tasks.len()
        invariant
            start == old(queue)@,
            queue.tasks.len() == start.tasks.len(),
            queue.version == start.version,
            queue.launch_app == start.launch_app,
            queue.retry_policy == start.retry_policy,
            max == start.retry_policy.max_attempts,
            i <= queue.tasks.len(),
            forall|j: int| 0 <= j < i ==> !attempts_overflow(#[trigger] start.tasks[j]),
            forall|j: int|
                0 <= j < i ==> #[trigger] queue@.tasks[j] == recovered_task(start.tasks[j], max, now),
            forall|j: int| i <= j < queue.tasks.len() ==> #[trigger] queue@.tasks[j] == start.tasks[j],
            changed == exists|j: int| 0 <= j < i && needs_recovery(#[trigger] start.tasks[j], max),
        decreases queue.tasks.len() - i,
    {
        assert(queue@.tasks[i as int] == queue.tasks@[i as int]@);
        let status = queue.tasks[i].status;
        let waiting = status == TaskStatus::Pending || status == TaskStatus::Running;
        if waiting && queue.tasks[i].attempts == Some(u32::MAX) {
            proof {
                assert(start.tasks[i as int] == old(queue)@.tasks[i as int]);
                assert(attempts_overflow(old(queue)@.tasks[i as int]));
                assert(queue@.tasks =~= start.tasks.take(i as int).map_values(
                    |t: TaskView| recovered_task(t, max, now),
                ) + start.tasks.skip(i as int));
            }
            return Err(WorkerError::AttemptOverflow { task_id: queue.tasks[i].id.clone() });
        }
        let exhausted = match queue.tasks[i].attempts {
            Some(a) => a >= max,
            None => false,
        };
        let ghost before = queue.tasks@;
        let ghost before_view = queue@;
        assert(before_view.tasks[i as int] == start.tasks[i as int]);
        let task = &mut queue.tasks[i];
        if status == TaskStatus::Running && exhausted {
            task.status = TaskStatus::Failed;
            task.finished_at = Some(now);
            task.next_retry_at = None;
            let mut message = String::from_str(
                "interrupted worker run reached the maximum attempt count (",
            );
            append_decimal(&mut message, max as u64);
            message.append(")");
            task.last_error = Some(message);
            changed = true;
        } else if status == TaskStatus::Running {
            task.status = TaskStatus::Pending;
            task.next_retry_at = None;
            if task.last_error.is_none() {
                task.last_error = Some(String::from_str("recovered from an interrupted worker run"));
            }
            changed = true;
        } else if status == TaskStatus::Pending && exhausted {
            task.status = TaskStatus::Failed;
            task.finished_at = Some(now);
            task.next_retry_at = None;
            let mut message = String::from_str("maximum attempt count (");
            append_decimal(&mut message, max as u64);
            message.append(") reached before execution");
            task.last_error = Some(message);
            changed = true;
        }
        proof {
            assert forall|j: int| 0 <= j < queue.tasks.len() && j != i implies #[trigger] queue@.tasks[j] == before_view.tasks[j] by {
                assert(queue.tasks@[j] == before[j]);
            }
            assert(queue@.tasks[i as int] == recovered_task(start.tasks[i as int], max, now));
        }
        i = i + 1;
    }
    proof {
        assert(queue@.tasks =~= start.tasks.map_values(|t: TaskView| recovered_task(t, max, now)));
        if max >= 1 {
            assert forall|j: int| 0 <= j < queue@.tasks.len() implies {
                &&& (#[trigger] queue@.tasks[j]).status == TaskStatus::Pending ==> attempt_count(
                    queue@.tasks[j],
                ) < queue@.retry_policy.max_attempts
                &&& queue@.tasks[j].status == TaskStatus::Running ==> attempt_count(queue@.tasks[j])
                    <= queue@.retry_policy.max_attempts
            } by {
                assert(queue@.tasks[j] == recovered_task(start.tasks[j], max, now));
            }
        }
    }
    Ok(changed)
}

// ---------------------------------------------------------------------------
// Starting a run.

/// The IDs of the tasks with status `status`, in queue order.
pub open spec fn ids_with_status(tasks: Seq<TaskView>, status: TaskStatus) -> Seq<Seq<char>>
    decreases tasks.len(),
{
    if tasks.len() == 0 {
        Seq::empty()
    } else {
        let rest = ids_with_status(tasks.drop_last(), status);
        if tasks.last().status == status {
            rest.push(tasks.last().id)
        } else {
            rest
        }
    }
}

fn ids_of_status(tasks: &Vec<Task>, status: TaskStatus) -> (r: Vec<String>)
    ensures
        r.deep_view() == ids_with_status(tasks_view(tasks@), status),
{
    let ghost ts = tasks_view(tasks@);
    let mut r: Vec<String> = Vec::new();
    let mut i: usize = 0;
    while i < tasks.len()
        invariant
            ts == tasks_view(tasks@),
            i <= tasks.len(),
            r.deep_view() == ids_with_status(ts.take(i as int), status),
        decreases tasks.len() - i,
    {
        assert(ts.take(i + 1).drop_last() =~= ts.take(i as int));
        assert(ts[i as int] == tasks@[i as int]@);
        if tasks[i].status == status {
            let ghost before = r.deep_view();
            r.push(tasks[i].id.clone());
            assert(r.deep_view() =~= before.push(ts[i as int].id));
        }
        i = i + 1;
    }
    assert(ts.take(tasks.len() as int) =~= ts);
    r
}

/// The IDs of the blocked entries of a plan.
pub open spec fn blocked_ids_of(plan: crate::queue::ExecutionPlanView) -> Seq<Seq<char>> {
    plan.blocked.map_values(|b: crate::queue::BlockedTaskView| b.task_id)
}

/// The summary a run starts from: the planned order, the tasks that had
/// already failed, and the tasks that were already blocked, followed, in a
/// dry run, by those the plan blocks.
pub fn initial_summary(queue: &Queue, plan: &ExecutionPlan, dry_run: bool) -> (r: RunSummary)
    ensures
        r@.planned_ids == plan@.ordered_ids,
        r@.succeeded_ids == Seq::<Seq<char>>::empty(),
        r@.failed_ids == ids_with_status(queue@.tasks, TaskStatus::Failed),
        r@.blocked_ids == ids_with_status(queue@.tasks, TaskStatus::Blocked) + if dry_run {
            blocked_ids_of(plan@)
        } else {
            Seq::empty()
        },
{
    let mut blocked_ids = ids_of_status(&queue.tasks, TaskStatus::Blocked);
    if dry_run {
        let ghost start = blocked_ids.deep_view();
        let mut k: usize = 0;
        while k < plan.blocked.len()
            invariant
                k <= plan.blocked.len(),
                blocked_ids.deep_view() == start + blocked_ids_of(plan@).take(k as int),
            decreases plan.blocked.len() - k,
        {
            let ghost before = blocked_ids.deep_view();
            blocked_ids.push(plan.blocked[k].task_id.clone());
            proof {
                assert(blocked_ids_of(plan@).take(k + 1) =~= blocked_ids_of(plan@).take(k as int).push(
                    plan.blocked@[k as int].task_id@,
                ));
                assert(blocked_ids.deep_view() =~= before.push(plan.blocked@[k as int].task_id@));
            }
            k = k + 1;
        }
        assert(blocked_ids_of(plan@).take(plan.blocked.len() as int) =~= blocked_ids_of(plan@));
    } else {
        assert(blocked_ids.deep_view() =~= blocked_ids.deep_view() + Seq::<Seq<char>>::empty());
    }
    let r = RunSummary {
        planned_ids: copy_strings(&plan.ordered_ids),
        succeeded_ids: Vec::new(),
        failed_ids: ids_of_status(&queue.tasks, TaskStatus::Failed),
        blocked_ids,
    };
    assert(r@.succeeded_ids =~= Seq::<Seq<char>>::empty());
    r
}

/// Task `j` is the first task with ID `id`.
pub open spec fn first_with_id(tasks: Seq<TaskView>, id: Seq<char>, j: int) -> bool {
    0 <= j < tasks.len() && tasks[j].id == id && forall|x: int| 0 <= x < j ==> #[trigger] tasks[x].id != id
}

/// The workspace in which the app is opened before a run: that of the first
/// planned task, when the queue asks for the app.
pub open spec fn launch_target(q: QueueView, ordered: Seq<Seq<char>>) -> Option<Seq<char>> {
    if q.launch_app && ordered.len() > 0 && has_task(q.tasks, ordered[0]) {
        Some(q.tasks[choose|j: int| first_with_id(q.tasks, ordered[0], j)].workspace)
    } else {
        None
    }
}

/// The workspace to open the app in before a run, if any.
pub fn launch_workspace(queue: &Queue, plan: &ExecutionPlan) -> (r: Option<String>)
    ensures
        r matches Some(w) ==> launch_target(queue@, plan@.ordered_ids) == Some(w@),
        r is None ==> launch_target(queue@, plan@.ordered_ids) is None,
{
    if !queue.launch_app || plan.ordered_ids.len() == 0 {
        return None;
    }
    assert(plan@.ordered_ids[0] == plan.ordered_ids@[0]@);
    match find_task_index(&queue.tasks, &plan.ordered_ids[0]) {
        Some(j) => {
            proof {
                let ts = queue@.tasks;
                assert(ts[j as int] == queue.tasks@[j as int]@);
                assert forall|x: int| 0 <= x < j implies #[trigger] ts[x].id != plan@.ordered_ids[0] by {
                    assert(ts[x] == queue.tasks@[x]@);
                }
                assert(first_with_id(ts, plan@.ordered_ids[0], j as int));
                let c = choose|c: int| first_with_id(ts, plan@.ordered_ids[0], c);
                if c < j {
                    assert(ts[c].id != plan@.ordered_ids[0]);
                } else if j < c {
                    assert(ts[j as int].id != plan@.ordered_ids[0]);
                }
            }
            Some(queue.tasks[j].workspace.clone())
        },
        None => None,
    }
}

// ---------------------------------------------------------------------------
// Each step of a run.

/// A task after the plan blocked it at `now`.
pub open spec fn blocked_task_at(
    t: TaskView,
    b: crate::queue::BlockedTaskView,
    now: Timestamp,
) -> TaskView {
    TaskView {
        status: TaskStatus::Blocked,
        finished_at: Some(now),
        last_error: None,
        blocked_reason: Some(
            crate::queue::BlockedReasonView {
                reason_code: b.reason_code,
                dependency_id: b.dependency_id,
            },
        ),
        next_retry_at: None,
        ..t
    }
}

/// Some entry of `blocked` names task `t`.
pub open spec fn names_task(blocked: Seq<crate::queue::BlockedTaskView>, id: Seq<char>) -> bool {
    exists|k: int| 0 <= k < blocked.len() && (#[trigger] blocked[k]).task_id == id
}

/// The tasks after every blocked entry of the plan is recorded at `now`.
pub open spec fn with_blocks(
    tasks: Seq<TaskView>,
    blocked: Seq<crate::queue::BlockedTaskView>,
    now: Timestamp,
) -> Seq<TaskView> {
    Seq::new(
        tasks.len(),
        |i: int|
            if names_task(blocked, tasks[i].id) {
                blocked_task_at(
                    tasks[i],
                    blocked[choose|k: int| 0 <= k < blocked.len() && (#[trigger] blocked[k]).task_id == tasks[i].id],
                    now,
                )
            } else {
                tasks[i]
            },
    )
}

/// Recording blocked tasks keeps every task within its attempt budget.
pub proof fn lemma_blocking_keeps_attempt_budget(
    q: QueueView,
    blocked: Seq<crate::queue::BlockedTaskView>,
    now: Timestamp,
)
    requires
        within_attempt_budget(q),
    ensures
        within_attempt_budget(QueueView { tasks: with_blocks(q.tasks, blocked, now), ..q }),
{
    let after = QueueView { tasks: with_blocks(q.tasks, blocked, now), ..q };
    assert forall|i: int| 0 <= i < after.tasks.len() implies {
        &&& (#[trigger] after.tasks[i]).status == TaskStatus::Pending ==> attempt_count(after.tasks[i])
            < after.retry_policy.max_attempts
        &&& after.tasks[i].status == TaskStatus::Running ==> attempt_count(after.tasks[i])
            <= after.retry_policy.max_attempts
    } by {
        assert(q.tasks[i].status == TaskStatus::Pending ==> attempt_count(q.tasks[i]) < q.retry_policy.max_attempts);
    }
}

/// The task with ID `id` had succeeded (the first task with that ID).
pub open spec fn id_succeeded(tasks: Seq<TaskView>, id: Seq<char>) -> bool {
    exists|x: int| #[trigger] first_with_id(tasks, id, x) && tasks[x].status == TaskStatus::Succeeded
}

/// Every dependency of task `j` succeeded.
pub open spec fn dependencies_succeeded(tasks: Seq<TaskView>, j: int) -> bool {
    forall|p: int| 0 <= p < tasks[j].depends_on.len() ==> id_succeeded(tasks, #[trigger] tasks[j].depends_on[p])
}

/// Task `j` can start at `now`: it is pending, any retry it waits for is due,
/// and its dependencies succeeded.
pub open spec fn ready_at(tasks: Seq<TaskView>, j: int, now: Timestamp) -> bool {
    &&& tasks[j].status == TaskStatus::Pending
    &&& match tasks[j].next_retry_at {
        None => true,
        Some(at) => at.spec_le(now),
    }
    &&& dependencies_succeeded(tasks, j)
}

/// Task `j` waits for a retry due after `now`, and could start then.
pub open spec fn retry_waiting_at(tasks: Seq<TaskView>, j: int, now: Timestamp) -> bool {
    &&& tasks[j].status == TaskStatus::Pending
    &&& tasks[j].next_retry_at matches Some(at) && !at.spec_le(now)
    &&& dependencies_succeeded(tasks, j)
}

/// The first task with ID `id` can start at `now`.
pub open spec fn id_ready(tasks: Seq<TaskView>, id: Seq<char>, now: Timestamp) -> bool {
    exists|j: int| #[trigger] first_with_id(tasks, id, j) && ready_at(tasks, j, now)
}

/// The first task with ID `id` waits for a retry due after `now`.
pub open spec fn id_retry_waiting(tasks: Seq<TaskView>, id: Seq<char>, now: Timestamp) -> bool {
    exists|j: int| #[trigger] first_with_id(tasks, id, j) && retry_waiting_at(tasks, j, now)
}

/// When the retry of the first task with ID `id` is due.
pub open spec fn id_retry_at(tasks: Seq<TaskView>, id: Seq<char>) -> Timestamp {
    tasks[choose|j: int| first_with_id(tasks, id, j)].next_retry_at->0
}

/// What the worker does next.
#[derive(Clone, Debug)]
pub enum NextStep {
    /// Start task `task_id`, at position `index`.
    Run { index: usize, task_id: String },
    /// Wait for the retry of task `task_id`, at position `index`, due at `retry_at`.
    WaitForRetry { index: usize, task_id: String, retry_at: Timestamp },
    /// Nothing is left to do.
    Finished,
}

/// What the worker chooses: the first planned task that can start now;
/// otherwise the planned task whose retry is due soonest (the first of
/// those due at the same time); otherwise nothing.
pub open spec fn is_next_step(
    tasks: Seq<TaskView>,
    ordered: Seq<Seq<char>>,
    now: Timestamp,
    next: NextStep,
) -> bool {
    match next {
        NextStep::Run { index, task_id } => exists|k: int|
            0 <= k < ordered.len() && #[trigger] ordered[k] == task_id@ && id_ready(tasks, ordered[k], now)
                && first_with_id(tasks, task_id@, index as int) && forall|m: int|
                0 <= m < k ==> !id_ready(tasks, #[trigger] ordered[m], now),
        NextStep::WaitForRetry { index, task_id, retry_at } => {
            &&& forall|m: int| 0 <= m < ordered.len() ==> !id_ready(tasks, #[trigger] ordered[m], now)
            &&& first_with_id(tasks, task_id@, index as int)
            &&& tasks[index as int].next_retry_at == Some(retry_at)
            &&& exists|k: int|
                0 <= k < ordered.len() && #[trigger] ordered[k] == task_id@ && id_retry_waiting(
                    tasks,
                    ordered[k],
                    now,
                ) && forall|m: int|
                    0 <= m < ordered.len() && id_retry_waiting(tasks, #[trigger] ordered[m], now)
                        ==> retry_at.spec_le(id_retry_at(tasks, ordered[m])) && (m < k ==> !id_retry_at(
                        tasks,
                        ordered[m],
                    ).spec_le(retry_at))
        },
        NextStep::Finished => forall|m: int|
            0 <= m < ordered.len() ==> !id_ready(tasks, #[trigger] ordered[m], now) && !id_retry_waiting(
                tasks,
                ordered[m],
                now,
            ),
    }
}

/// Whether every dependency of task `j` succeeded.
fn dependencies_all_succeeded(tasks: &Vec<Task>, j: usize) -> (r: bool)
    requires
        j < tasks.len(),
    ensures
        r == dependencies_succeeded(tasks_view(tasks@), j as int),
{
    let ghost ts = tasks_view(tasks@);
    assert(ts[j as int] == tasks@[j as int]@);
    let mut p: usize = 0;
    while p < tasks[j].depends_on.len()
        invariant
            ts == tasks_view(tasks@),
            j < tasks.len(),
            ts[j as int] == tasks@[j as int]@,
            p <= tasks@[j as int].depends_on.len(),
            forall|q: int| 0 <= q < p ==> id_succeeded(ts, #[trigger] ts[j as int].depends_on[q]),
        decreases tasks@[j as int].depends_on.len() - p,
    {
        assert(ts[j as int].depends_on[p as int] == tasks@[j as int].depends_on@[p as int]@);
        let ok = match find_task_index(tasks, &tasks[j].depends_on[p]) {
            Some(x) => {
                proof {
                    assert(ts[x as int] == tasks@[x as int]@);
                    assert forall|y: int| 0 <= y < x implies #[trigger] ts[y].id != ts[j as int].depends_on[p as int] by {
                        assert(ts[y] == tasks@[y]@);
                    }
                    assert(first_with_id(ts, ts[j as int].depends_on[p as int], x as int));
                    lemma_first_with_id_unique(ts, ts[j as int].depends_on[p as int], x as int);
                }
                tasks[x].status == TaskStatus::Succeeded
            },
            None => {
                proof {
                    if id_succeeded(ts, ts[j as int].depends_on[p as int]) {
                        let x = choose|x: int| #[trigger] first_with_id(ts, ts[j as int].depends_on[p as int], x) && ts[x].status == TaskStatus::Succeeded;
                        assert(has_task(ts, ts[j as int].depends_on[p as int]));
                    }
                }
                false
            },
        };
        if !ok {
            return false;
        }
        p = p + 1;
    }
    true
}

/// Only one position is the first with a given ID.
pub proof fn lemma_first_with_id_unique(tasks: Seq<TaskView>, id: Seq<char>, j: int)
    requires
        first_with_id(tasks, id, j),
    ensures
        forall|x: int| #[trigger] first_with_id(tasks, id, x) ==> x == j,
{
    assert forall|x: int| #[trigger] first_with_id(tasks, id, x) implies x == j by {
        if x < j {
            assert(tasks[x].id != id);
        } else if j < x {
            assert(tasks[j].id != id);
        }
    }
}

/// The position of the first task with ID `id`, and what it waits for at `now`.
fn lookup_for_start(tasks: &Vec<Task>, id: &String, now: Timestamp) -> (r: Option<(usize, bool, bool)>)
    ensures
        r is None ==> !has_task(tasks_view(tasks@), id@) && !id_ready(tasks_view(tasks@), id@, now)
            && !id_retry_waiting(tasks_view(tasks@), id@, now),
        r matches Some((j, ready, waiting)) ==> first_with_id(tasks_view(tasks@), id@, j as int)
            && ready == id_ready(tasks_view(tasks@), id@, now) && waiting == id_retry_waiting(
            tasks_view(tasks@),
            id@,
            now,
        ) && ready == ready_at(tasks_view(tasks@), j as int, now) && waiting == retry_waiting_at(
            tasks_view(tasks@),
            j as int,
            now,
        ),
{
    let ghost ts = tasks_view(tasks@);
    match find_task_index(tasks, id) {
        None => {
            proof {
                if id_ready(ts, id@, now) {
                    let j = choose|j: int| #[trigger] first_with_id(ts, id@, j) && ready_at(ts, j, now);
                }
                if id_retry_waiting(ts, id@, now) {
                    let j = choose|j: int| #[trigger] first_with_id(ts, id@, j) && retry_waiting_at(ts, j, now);
                }
            }
            None
        },
        Some(j) => {
            proof {
                assert(ts[j as int] == tasks@[j as int]@);
                assert forall|y: int| 0 <= y < j implies #[trigger] ts[y].id != id@ by {
                    assert(ts[y] == tasks@[y]@);
                }
                assert(first_with_id(ts, id@, j as int));
                lemma_first_with_id_unique(ts, id@, j as int);
            }
            let task = &tasks[j];
            let deps_ok = dependencies_all_succeeded(tasks, j);
            let pending = task.status == TaskStatus::Pending;
            let (due, waiting_retry) = match task.next_retry_at {
                None => (true, false),
                Some(at) => {
                    let due = at.not_after(&now);
                    (due, !due)
                },
            };
            Some((j, pending && due && deps_ok, pending && waiting_retry && deps_ok))
        },
    }
}

/// Chooses what to do next among the planned tasks.
fn choose_next(tasks: &Vec<Task>, ordered: &Vec<String>, now: Timestamp) -> (next: NextStep)
    ensures
        is_next_step(tasks_view(tasks@), ordered.deep_view(), now, next),
{
    let ghost ts = tasks_view(tasks@);
    let ghost ord = ordered.deep_view();
    let mut k: usize = 0;
    while k < ordered.len()
        invariant
            ts == tasks_view(tasks@),
            ord == ordered.deep_view(),
            k <= ordered.len(),
            forall|m: int| 0 <= m < k ==> !id_ready(ts, #[trigger] ord[m], now),
        decreases ordered.len() - k,
    {
        assert(ord[k as int] == ordered@[k as int]@);
        match lookup_for_start(tasks, &ordered[k], now) {
            Some((j, true, _)) => {
                return NextStep::Run { index: j, task_id: ordered[k].clone() };
            },
            _ => {},
        }
        k = k + 1;
    }
    let mut best: Option<(usize, usize, Timestamp)> = None;
    let mut k: usize = 0;
    while k < ordered.len()
        invariant
            ts == tasks_view(tasks@),
            ord == ordered.deep_view(),
            k <= ordered.len(),
            forall|m: int| 0 <= m < ordered.len() ==> !id_ready(ts, #[trigger] ord[m], now),
            best is None ==> forall|m: int| 0 <= m < k ==> !id_retry_waiting(ts, #[trigger] ord[m], now),
            best matches Some((bk, bj, at)) ==> {
                &&& bk < k
                &&& first_with_id(ts, ord[bk as int], bj as int)
                &&& ts[bj as int].next_retry_at == Some(at)
                &&& id_retry_waiting(ts, ord[bk as int], now)
                &&& forall|m: int|
                    0 <= m < k && id_retry_waiting(ts, #[trigger] ord[m], now) ==> at.spec_le(
                        id_retry_at(ts, ord[m]),
                    ) && (m < bk ==> !id_retry_at(ts, ord[m]).spec_le(at))
            },
        decreases ordered.len() - k,
    {
        assert(ord[k as int] == ordered@[k as int]@);
        match lookup_for_start(tasks, &ordered[k], now) {
            Some((j, _, true)) => {
                assert(ts[j as int] == tasks@[j as int]@);
                let at = match tasks[j].next_retry_at {
                    Some(at) => at,
                    None => now,
                };
                proof {
                    lemma_first_with_id_unique(ts, ord[k as int], j as int);
                    assert(id_retry_at(ts, ord[k as int]) == at);
                }
                let better = match best {
                    None => true,
                    Some((_, _, current)) => !current.not_after(&at),
                };
                if better {
                    best = Some((k, j, at));
                }
            },
            _ => {},
        }
        k = k + 1;
    }
    match best {
        None => NextStep::Finished,
        Some((bk, bj, at)) => NextStep::WaitForRetry {
            index: bj,
            task_id: ordered[bk].clone(),
            retry_at: at,
        },
    }
}

/// Records each blocked entry of the plan on its task at `now`, and appends
/// the blocked IDs to the summary.
fn apply_blocks(
    queue: &mut Queue,
    summary: &mut RunSummary,
    blocked: &Vec<crate::queue::BlockedTask>,
    now: Timestamp,
)
    requires
        crate::queue::unique_ids(old(queue)@.tasks),
        forall|k: int|
            0 <= k < blocked.len() ==> has_task(old(queue)@.tasks, (#[trigger] blocked@[k])@.task_id),
        forall|k: int, m: int|
            0 <= k < m < blocked.len() ==> (#[trigger] blocked@[k])@.task_id != (#[trigger] blocked@[m])@.task_id,
    ensures
        final(queue)@ == (QueueView {
            tasks: with_blocks(old(queue)@.tasks, blocked@.map_values(|b: crate::queue::BlockedTask| b@), now),
            ..old(queue)@
        }),
        final(summary)@ == (RunSummaryView {
            blocked_ids: old(summary)@.blocked_ids + blocked@.map_values(
                |b: crate::queue::BlockedTask| b@.task_id,
            ),
            ..old(summary)@
        }),
{
    let ghost start = queue@;
    let ghost bv = blocked@.map_values(|b: crate::queue::BlockedTask| b@);
    let ghost start_summary = summary@;
    let mut k: usize = 0;
    while k < blocked.len()
        invariant
            start == old(queue)@,
            start_summary == old(summary)@,
            bv == blocked@.map_values(|b: crate::queue::BlockedTask| b@),
            crate::queue::unique_ids(start.tasks),
            forall|x: int| 0 <= x < blocked.len() ==> has_task(start.tasks, (#[trigger] blocked@[x])@.task_id),
            forall|x: int, m: int|
                0 <= x < m < blocked.len() ==> (#[trigger] blocked@[x])@.task_id != (#[trigger] blocked@[m])@.task_id,
            k <= blocked.len(),
            queue.version == start.version,
            queue.launch_app == start.launch_app,
            queue.retry_policy == start.retry_policy,
            queue@.tasks.len() == start.tasks.len(),
            forall|i: int|
                0 <= i < start.tasks.len() ==> #[trigger] queue@.tasks[i] == with_blocks(start.tasks, bv.take(k as int), now)[i],
            summary@ == (RunSummaryView {
                blocked_ids: start_summary.blocked_ids + blocked@.map_values(
                    |b: crate::queue::BlockedTask| b@.task_id,
                ).take(k as int),
                ..start_summary
            }),
        decreases blocked.len() - k,
    {
        let entry = &blocked[k];
        assert(bv[k as int] == entry@);
        let j = match find_task_index(&queue.tasks, &entry.task_id) {
            Some(j) => j,
            None => {
                proof {
                    let i = choose|i: int| 0 <= i < start.tasks.len() && #[trigger] start.tasks[i].id == entry@.task_id;
                    assert(queue@.tasks[i] == with_blocks(start.tasks, bv.take(k as int), now)[i]);
                    assert(queue@.tasks[i].id == start.tasks[i].id);
                    assert(queue@.tasks[i] == queue.tasks@[i]@);
                }
                return;
            },
        };
        let ghost before = queue.tasks@;
        let ghost before_view = queue@;
        let task = &mut queue.tasks[j];
        task.status = TaskStatus::Blocked;
        task.finished_at = Some(now);
        task.last_error = None;
        task.blocked_reason = Some(
            crate::queue::BlockedReason {
                reason_code: entry.reason_code,
                dependency_id: entry.dependency_id.clone(),
            },
        );
        task.next_retry_at = None;
        let ghost before_summary = summary.blocked_ids.deep_view();
        summary.blocked_ids.push(entry.task_id.clone());
        proof {
            let ids = blocked@.map_values(|b: crate::queue::BlockedTask| b@.task_id);
            assert(ids.take(k + 1) =~= ids.take(k as int).push(entry@.task_id));
            assert(summary.blocked_ids.deep_view() =~= before_summary.push(entry@.task_id));
            let nxt = bv.take(k + 1);
            let cur = bv.take(k as int);
            assert(before[j as int]@ == before_view.tasks[j as int]);
            assert forall|i: int| 0 <= i < start.tasks.len() implies #[trigger] queue@.tasks[i] == with_blocks(start.tasks, nxt, now)[i] by {
                assert(before_view.tasks[i] == with_blocks(start.tasks, cur, now)[i]);
                if i == j as int {
                    assert(before_view.tasks[i].id == start.tasks[i].id);
                    assert(names_task(nxt, start.tasks[i].id)) by {
                        assert(nxt[k as int].task_id == start.tasks[i].id);
                    }
                    let c = choose|c: int| 0 <= c < nxt.len() && (#[trigger] nxt[c]).task_id == start.tasks[i].id;
                    if c < k {
                        assert(blocked@[c]@.task_id != blocked@[k as int]@.task_id);
                    }
                    if names_task(cur, start.tasks[i].id) {
                        let c2 = choose|c2: int| 0 <= c2 < cur.len() && (#[trigger] cur[c2]).task_id == start.tasks[i].id;
                        assert(blocked@[c2]@.task_id != blocked@[k as int]@.task_id);
                    }
                } else {
                    assert(queue.tasks@[i] == before[i]);
                    if start.tasks[i].id == entry@.task_id {
                        assert(before_view.tasks[j as int].id == entry@.task_id);
                        assert(start.tasks[j as int].id == entry@.task_id);
                    }
                    if names_task(nxt, start.tasks[i].id) {
                        let c = choose|c: int| 0 <= c < nxt.len() && (#[trigger] nxt[c]).task_id == start.tasks[i].id;
                        if c < k {
                            assert(names_task(cur, start.tasks[i].id));
                        }
                    }
                    if names_task(cur, start.tasks[i].id) {
                        let c = choose|c: int| 0 <= c < cur.len() && (#[trigger] cur[c]).task_id == start.tasks[i].id;
                        assert(nxt[c] == cur[c]);
                        assert(names_task(nxt, start.tasks[i].id));
                    }
                }
            }
        }
        k = k + 1;
    }
    proof {
        assert(bv.take(blocked.len() as int) =~= bv);
        let ids = blocked@.map_values(|b: crate::queue::BlockedTask| b@.task_id);
        assert(ids.take(blocked.len() as int) =~= ids);
        assert(queue@.tasks =~= with_blocks(start.tasks, bv, now));
    }
}

/// One step of a run: the queue's current plan, whether recording its blocked
/// tasks changed the queue, and what to do next.
pub struct Step {
    pub plan: ExecutionPlan,
    pub queue_changed: bool,
    pub next: NextStep,
}

/// Plans the queue at `now`, records the tasks the plan blocks (appending
/// them to the summary), and chooses what to do next. An invalid queue is
/// reported, and nothing changes.
pub fn plan_step(queue: &mut Queue, summary: &mut RunSummary, now: Timestamp) -> (r: Result<
    Step,
    WorkerError,
>)
    ensures
        r is Ok <==> crate::validate::queue_is_valid(old(queue)@),
        r is Err ==> final(queue)@ == old(queue)@ && final(summary)@ == old(summary)@,
        crate::validate::structural_issue(old(queue)@) matches Some(m) ==> (r matches Err(
            WorkerError::Queue(QueueError::Validation(e)),
        ) && e@ == m),
        crate::validate::structural_issue(old(queue)@) is None && !crate::queue::acyclic(
            old(queue)@.tasks,
        ) ==> (r matches Err(WorkerError::Queue(QueueError::Validation(e)))
            && crate::validate::cycle_report(old(queue)@.tasks, e@)),
        r matches Ok(step) ==> {
            &&& is_run_order(old(queue)@.tasks, step.plan@.ordered_ids)
            &&& is_block_list(old(queue)@.tasks, step.plan@.blocked)
            &&& step.queue_changed == (step.plan@.blocked.len() > 0)
            &&& final(queue)@ == (QueueView {
                tasks: with_blocks(old(queue)@.tasks, step.plan@.blocked, now),
                ..old(queue)@
            })
            &&& final(summary)@ == (RunSummaryView {
                blocked_ids: old(summary)@.blocked_ids + blocked_ids_of(step.plan@),
                ..old(summary)@
            })
            &&& is_next_step(final(queue)@.tasks, step.plan@.ordered_ids, now, step.next)
            &&& final(queue)@ == after_move(old(queue)@, WorkerMove::Block { blocked: step.plan@.blocked, at: now })
        },
        within_attempt_budget(old(queue)@) ==> within_attempt_budget(final(queue)@),
{
    let plan = match build_execution_plan(queue) {
        Ok(plan) => plan,
        Err(e) => {
            return Err(WorkerError::Queue(e));
        },
    };
    proof {
        crate::validate::lemma_structurally_sound(queue@);
        assert forall|k: int, m: int|
            0 <= k < m < plan.blocked.len() implies (#[trigger] plan.blocked@[k])@.task_id != (#[trigger] plan.blocked@[m])@.task_id by {
            assert(plan@.blocked[k] == plan.blocked@[k]@);
            assert(plan@.blocked[m] == plan.blocked@[m]@);
        }
        assert forall|k: int|
            0 <= k < plan.blocked.len() implies has_task(queue@.tasks, (#[trigger] plan.blocked@[k])@.task_id) by {
            assert(plan@.blocked[k] == plan.blocked@[k]@);
        }
    }
    apply_blocks(queue, summary, &plan.blocked, now);
    proof {
        assert(blocked_ids_of(plan@) =~= plan.blocked@.map_values(|b: crate::queue::BlockedTask| b@.task_id));
    }
    proof {
        if within_attempt_budget(old(queue)@) {
            lemma_blocking_keeps_attempt_budget(old(queue)@, plan@.blocked, now);
        }
    }
    let next = choose_next(&queue.tasks, &plan.ordered_ids, now);
    let queue_changed = plan.blocked.len() > 0;
    Ok(Step { plan, queue_changed, next })
}

/// A task as it starts its next attempt at `at`.
pub open spec fn started_task(t: TaskView, at: Timestamp) -> TaskView {
    TaskView {
        status: TaskStatus::Running,
        attempts: Some((attempt_count(t) + 1) as u32),
        started_at: Some(at),
        finished_at: None,
        last_error: None,
        blocked_reason: None,
        next_retry_at: None,
        ..t
    }
}

/// Starts the next attempt of task `index` at `started_at` and returns its
/// number. Fails, changing nothing, when the attempt counter cannot be
/// incremented.
pub fn start_attempt(queue: &mut Queue, index: usize, started_at: Timestamp) -> (r: Result<
    u32,
    WorkerError,
>)
    requires
        index < old(queue).tasks.len(),
    ensures
        r is Err <==> old(queue)@.tasks[index as int].attempts == Some(u32::MAX),
        r matches Err(e) ==> (e matches WorkerError::AttemptOverflow { task_id } && task_id@
            == old(queue)@.tasks[index as int].id),
        r is Err ==> final(queue)@ == old(queue)@,
        r matches Ok(attempt) ==> attempt == attempt_count(old(queue)@.tasks[index as int]) + 1
            && final(queue)@ == (QueueView {
            tasks: old(queue)@.tasks.update(
                index as int,
                started_task(old(queue)@.tasks[index as int], started_at),
            ),
            ..old(queue)@
        }),
        r is Ok ==> final(queue)@ == after_move(old(queue)@, WorkerMove::Start { index: index as int, at: started_at }),
        (r matches Ok(attempt) ==> (within_attempt_budget(old(queue)@)
            && old(queue)@.tasks[index as int].status == TaskStatus::Pending ==> attempt
            <= old(queue)@.retry_policy.max_attempts && within_attempt_budget(final(queue)@))),
{
    let ghost start = queue@;
    let ghost before = queue.tasks@;
    assert(start.tasks[index as int] == queue.tasks@[index as int]@);
    let previous = match queue.tasks[index].attempts {
        Some(a) => a,
        None => 0,
    };
    if previous == u32::MAX {
        return Err(WorkerError::AttemptOverflow { task_id: queue.tasks[index].id.clone() });
    }
    let attempt = previous + 1;
    let task = &mut queue.tasks[index];
    task.status = TaskStatus::Running;
    task.attempts = Some(attempt);
    task.started_at = Some(started_at);
    task.finished_at = None;
    task.last_error = None;
    task.blocked_reason = None;
    task.next_retry_at = None;
    proof {
        assert forall|i: int| 0 <= i < start.tasks.len() && i != index implies #[trigger] queue@.tasks[i] == start.tasks[i] by {
            assert(queue.tasks@[i] == before[i]);
        }
        assert(queue@.tasks =~= start.tasks.update(index as int, started_task(start.tasks[index as int], started_at)));
        if within_attempt_budget(start) && start.tasks[index as int].status == TaskStatus::Pending {
            assert forall|i: int| 0 <= i < queue@.tasks.len() implies {
                &&& (#[trigger] queue@.tasks[i]).status == TaskStatus::Pending ==> attempt_count(
                    queue@.tasks[i],
                ) < queue@.retry_policy.max_attempts
                &&& queue@.tasks[i].status == TaskStatus::Running ==> attempt_count(queue@.tasks[i])
                    <= queue@.retry_policy.max_attempts
            } by {
                if i != index {
                    assert(queue@.tasks[i] == start.tasks[i]);
                }
            }
        }
    }
    Ok(attempt)
}

/// How an attempt ended.
#[derive(Clone, Debug)]
pub enum AttemptOutcome {
    Succeeded,
    Failed { transient: bool, message: String },
}

/// The instant `seconds` after `at`.
pub open spec fn later_by(at: Timestamp, seconds: int) -> Timestamp {
    Timestamp { seconds: (at.seconds + seconds) as i64, nanos: at.nanos }
}

/// A task after its attempt ended at `at`: it succeeded; or it failed
/// transiently with attempts left, and waits for a retry after the backoff
/// delay; or it failed for good.
pub open spec fn finished_task(t: TaskView, outcome: AttemptOutcome, policy: RetryPolicy, at: Timestamp) -> TaskView {
    match outcome {
        AttemptOutcome::Succeeded => TaskView {
            status: TaskStatus::Succeeded,
            finished_at: Some(at),
            next_retry_at: None,
            ..t
        },
        AttemptOutcome::Failed { transient, message } => {
            let attempts = match t.attempts {
                Some(a) => a,
                None => 1,
            };
            if transient && attempts < policy.max_attempts {
                TaskView {
                    status: TaskStatus::Pending,
                    finished_at: None,
                    last_error: Some(message@),
                    next_retry_at: Some(later_by(at, retry_delay_seconds(policy, attempts))),
                    ..t
                }
            } else {
                TaskView {
                    status: TaskStatus::Failed,
                    finished_at: Some(at),
                    last_error: Some(message@),
                    next_retry_at: None,
                    ..t
                }
            }
        },
    }
}

/// Whether a failed attempt of `t` is retried: the failure was transient and
/// the task has attempts left.
pub open spec fn is_retried(t: TaskView, transient: bool, policy: RetryPolicy) -> bool {
    let attempts = match t.attempts {
        Some(a) => a,
        None => 1,
    };
    transient && attempts < policy.max_attempts
}

/// The summary after an attempt of task `t` ended: a success or a final
/// failure is recorded; a failure that will be retried is not.
pub open spec fn summary_after(s: RunSummaryView, t: TaskView, outcome: AttemptOutcome, policy: RetryPolicy) -> RunSummaryView {
    match outcome {
        AttemptOutcome::Succeeded => RunSummaryView { succeeded_ids: s.succeeded_ids.push(t.id), ..s },
        AttemptOutcome::Failed { transient, .. } => if is_retried(t, transient, policy) {
            s
        } else {
            RunSummaryView { failed_ids: s.failed_ids.push(t.id), ..s }
        },
    }
}

/// Records how the attempt of task `index` ended at `finished_at`.
pub fn finish_attempt(
    queue: &mut Queue,
    summary: &mut RunSummary,
    index: usize,
    outcome: AttemptOutcome,
    finished_at: Timestamp,
)
    requires
        index < old(queue).tasks.len(),
        finished_at.seconds + old(queue).retry_policy.max_delay_seconds <= i64::MAX,
    ensures
        final(queue)@ == after_move(old(queue)@, WorkerMove::Finish { index: index as int, outcome, at: finished_at }),
        final(queue)@ == (QueueView {
            tasks: old(queue)@.tasks.update(
                index as int,
                finished_task(old(queue)@.tasks[index as int], outcome, old(queue)@.retry_policy, finished_at),
            ),
            ..old(queue)@
        }),
        final(summary)@ == summary_after(old(summary)@, old(queue)@.tasks[index as int], outcome, old(queue)@.retry_policy),
        within_attempt_budget(old(queue)@) && old(queue)@.tasks[index as int].status == TaskStatus::Running
            ==> within_attempt_budget(final(queue)@),
{
    let ghost start = queue@;
    let ghost before = queue.tasks@;
    assert(start.tasks[index as int] == queue.tasks@[index as int]@);
    let ghost summary_start = summary@;
    let policy = queue.retry_policy;
    let task = &mut queue.tasks[index];
    match outcome {
        AttemptOutcome::Succeeded => {
            task.status = TaskStatus::Succeeded;
            task.finished_at = Some(finished_at);
            task.next_retry_at = None;
            summary.succeeded_ids.push(task.id.clone());
            assert(summary@.succeeded_ids =~= summary_start.succeeded_ids.push(start.tasks[index as int].id));
        },
        AttemptOutcome::Failed { transient, message } => {
            let attempts = match task.attempts {
                Some(a) => a,
                None => 1,
            };
            if transient && attempts < policy.max_attempts {
                let delay = retry_delay(policy, attempts);
                task.status = TaskStatus::Pending;
                task.finished_at = None;
                task.last_error = Some(message);
                let retry_seconds: i128 = finished_at.seconds as i128 + delay as i128;
                assert(delay <= policy.max_delay_seconds);
                task.next_retry_at = Some(Timestamp { seconds: retry_seconds as i64, nanos: finished_at.nanos });
            } else {
                task.status = TaskStatus::Failed;
                task.finished_at = Some(finished_at);
                task.last_error = Some(message);
                task.next_retry_at = None;
                summary.failed_ids.push(task.id.clone());
                assert(summary@.failed_ids =~= summary_start.failed_ids.push(start.tasks[index as int].id));
            }
        },
    }
    proof {
        assert forall|i: int| 0 <= i < start.tasks.len() && i != index implies #[trigger] queue@.tasks[i] == start.tasks[i] by {
            assert(queue.tasks@[i] == before[i]);
        }
        assert(queue@.tasks =~= start.tasks.update(
            index as int,
            finished_task(start.tasks[index as int], outcome, policy, finished_at),
        ));
        if within_attempt_budget(start) && start.tasks[index as int].status == TaskStatus::Running {
            assert forall|i: int| 0 <= i < queue@.tasks.len() implies {
                &&& (#[trigger] queue@.tasks[i]).status == TaskStatus::Pending ==> attempt_count(
                    queue@.tasks[i],
                ) < queue@.retry_policy.max_attempts
                &&& queue@.tasks[i].status == TaskStatus::Running ==> attempt_count(queue@.tasks[i])
                    <= queue@.retry_policy.max_attempts
            } by {
                if i != index {
                    assert(queue@.tasks[i] == start.tasks[i]);
                }
            }
        }
    }
}

/// Clears the retry time of task `index` once its wait is over.
pub fn clear_retry(queue: &mut Queue, index: usize)
    requires
        index < old(queue).tasks.len(),
    ensures
        final(queue)@ == after_move(old(queue)@, WorkerMove::ClearRetry { index: index as int }),
        final(queue)@ == (QueueView {
            tasks: old(queue)@.tasks.update(
                index as int,
                TaskView { next_retry_at: None, ..old(queue)@.tasks[index as int] },
            ),
            ..old(queue)@
        }),
        within_attempt_budget(old(queue)@) ==> within_attempt_budget(final(queue)@),
{
    let ghost start = queue@;
    let ghost before = queue.tasks@;
    assert(start.tasks[index as int] == queue.tasks@[index as int]@);
    let task = &mut queue.tasks[index];
    task.next_retry_at = None;
    proof {
        assert forall|i: int| 0 <= i < start.tasks.len() && i != index implies #[trigger] queue@.tasks[i] == start.tasks[i] by {
            assert(queue.tasks@[i] == before[i]);
        }
        assert(queue@.tasks =~= start.tasks.update(
            index as int,
            TaskView { next_retry_at: None, ..start.tasks[index as int] },
        ));
        if within_attempt_budget(start) {
            assert forall|i: int| 0 <= i < queue@.tasks.len() implies {
                &&& (#[trigger] queue@.tasks[i]).status == TaskStatus::Pending ==> attempt_count(
                    queue@.tasks[i],
                ) < queue@.retry_policy.max_attempts
                &&& queue@.tasks[i].status == TaskStatus::Running ==> attempt_count(queue@.tasks[i])
                    <= queue@.retry_policy.max_attempts
            } by {
                assert(start.tasks[i].status == queue@.tasks[i].status);
            }
        }
    }
}


// ---------------------------------------------------------------------------
// Revisions of a queue file.

/// The SHA-256 digest of `bytes`.
pub uninterp spec fn sha256_digest(bytes: Seq<u8>) -> Seq<u8>;

/// The SHA-256 digest of `bytes`.
///
/// Calls `sha2::Sha256::digest`; the contract names the digest, a function of
/// the bytes alone, and states its documented length of 32 bytes.
#[verifier::external_body]
fn sha256(bytes: &[u8]) -> (r: Vec<u8>)
    ensures
        r@ == sha256_digest(bytes@),
        r@.len() == 32,
{
    sha2::Sha256::digest(bytes).to_vec()
}

/// The lower-case hexadecimal digit of `d`, below sixteen.
pub open spec fn hex_digit(d: nat) -> char {
    if d < 10 {
        ((d + 48) as u32) as char
    } else {
        ((d + 87) as u32) as char
    }
}

/// `bytes` in lower-case hexadecimal, two digits per byte, high digit first.
pub open spec fn hex_text(bytes: Seq<u8>) -> Seq<char>
    decreases bytes.len(),
{
    if bytes.len() == 0 {
        seq![]
    } else {
        hex_text(bytes.drop_last()) + seq![hex_digit((bytes.last() / 16) as nat), hex_digit((bytes.last() % 16) as nat)]
    }
}

fn hex_char(d: u8) -> (r: char)
    requires
        d < 16,
    ensures
        r == hex_digit(d as nat),
{
    if d < 10 {
        (d + 48) as char
    } else {
        (d + 87) as char
    }
}

/// `bytes` in lower-case hexadecimal.
pub fn hex_lower(bytes: &Vec<u8>) -> (r: String)
    ensures
        r@ == hex_text(bytes@),
{
    let mut out: Vec<char> = Vec::new();
    let mut i: usize = 0;
    while i < bytes.len()
        invariant
            i <= bytes.len(),
            out@ == hex_text(bytes@.take(i as int)),
        decreases bytes.len() - i,
    {
        let b = bytes[i];
        out.push(hex_char(b / 16));
        out.push(hex_char(b % 16));
        proof {
            assert(bytes@.take(i + 1).drop_last() =~= bytes@.take(i as int));
            assert(hex_text(bytes@.take(i + 1)) =~= hex_text(bytes@.take(i as int)) + seq![
                hex_digit((b / 16) as nat),
                hex_digit((b % 16) as nat),
            ]);
        }
        i = i + 1;
    }
    proof {
        assert(bytes@.take(bytes.len() as int) =~= bytes@);
    }
    crate::text::string_of(&out)
}

/// The revision of a queue file: the SHA-256 digest of its bytes in
/// lower-case hexadecimal.
pub fn queue_revision(input: &[u8]) -> (r: String)
    ensures
        r@ == hex_text(sha256_digest(input@)),
        r@.len() == 64,
{
    let digest = sha256(input);
    proof {
        lemma_hex_text_len(digest@);
    }
    hex_lower(&digest)
}

proof fn lemma_hex_text_len(bytes: Seq<u8>)
    ensures
        hex_text(bytes).len() == 2 * bytes.len(),
    decreases bytes.len(),
{
    if bytes.len() > 0 {
        lemma_hex_text_len(bytes.drop_last());
    }
}

/// Whether a queue file whose bytes are `current` is still at the revision
/// `expected` that a save was prepared against.
pub fn revision_matches(current: &[u8], expected: &str) -> (r: bool)
    ensures
        r == (hex_text(sha256_digest(current@)) == expected@),
{
    let actual = queue_revision(current);
    let expected_text = String::from_str(expected);
    actual == expected_text
}


// ---------------------------------------------------------------------------
// Laws of a whole run.

/// The task the worker starts is pending, its dependencies all succeeded,
/// and once started it is running with one more attempt, its dependencies
/// still succeeded.
pub proof fn lemma_started_task_is_ready(
    tasks: Seq<TaskView>,
    ordered: Seq<Seq<char>>,
    now: Timestamp,
    next: NextStep,
    at: Timestamp,
)
    requires
        is_next_step(tasks, ordered, now, next),
        next is Run,
    ensures
        ({
            let index = next->Run_index as int;
            let started = tasks.update(index, started_task(tasks[index], at));
            &&& 0 <= index < tasks.len()
            &&& ready_at(tasks, index, now)
            &&& started[index].status == TaskStatus::Running
            &&& tasks[index].attempts != Some(u32::MAX) ==> attempt_count(started[index])
                == attempt_count(tasks[index]) + 1
            &&& dependencies_succeeded(started, index)
        }),
{
    let index = next->Run_index as int;
    let id = next->Run_task_id@;
    lemma_first_with_id_unique(tasks, id, index);
    let j = choose|j: int| #[trigger] first_with_id(tasks, id, j) && ready_at(tasks, j, now);
    assert(j == index);
    let started = tasks.update(index, started_task(tasks[index], at));
    assert forall|p: int| 0 <= p < started[index].depends_on.len() implies id_succeeded(
        started,
        #[trigger] started[index].depends_on[p],
    ) by {
        let dep = tasks[index].depends_on[p];
        assert(id_succeeded(tasks, dep));
        let x = choose|x: int| #[trigger] first_with_id(tasks, dep, x) && tasks[x].status == TaskStatus::Succeeded;
        assert(x != index);
        assert forall|y: int| 0 <= y < x implies #[trigger] started[y].id != dep by {
            assert(tasks[y].id != dep);
        }
        assert(first_with_id(started, dep, x));
    }
}

/// One change the worker makes to a queue.
pub enum WorkerMove {
    /// Record the tasks a plan blocks, at `at`.
    Block { blocked: Seq<crate::queue::BlockedTaskView>, at: Timestamp },
    /// Start the next attempt of task `index` at `at`.
    Start { index: int, at: Timestamp },
    /// Record, at `at`, how the attempt of task `index` ended.
    Finish { index: int, outcome: AttemptOutcome, at: Timestamp },
    /// Clear the retry time of task `index`.
    ClearRetry { index: int },
}

/// The queue after a move: what `plan_step`, `start_attempt`,
/// `finish_attempt` and `clear_retry` make of it.
pub open spec fn after_move(q: QueueView, m: WorkerMove) -> QueueView {
    match m {
        WorkerMove::Block { blocked, at } => QueueView { tasks: with_blocks(q.tasks, blocked, at), ..q },
        WorkerMove::Start { index, at } => QueueView {
            tasks: q.tasks.update(index, started_task(q.tasks[index], at)),
            ..q
        },
        WorkerMove::Finish { index, outcome, at } => QueueView {
            tasks: q.tasks.update(index, finished_task(q.tasks[index], outcome, q.retry_policy, at)),
            ..q
        },
        WorkerMove::ClearRetry { index } => QueueView {
            tasks: q.tasks.update(index, TaskView { next_retry_at: None, ..q.tasks[index] }),
            ..q
        },
    }
}

/// A move the worker makes: it starts a pending task whose attempt counter
/// can grow (what `plan_step` chooses and `start_attempt` accepts), and
/// finishes the running task.
pub open spec fn allowed_move(q: QueueView, m: WorkerMove) -> bool {
    match m {
        WorkerMove::Block { .. } => true,
        WorkerMove::Start { index, .. } => 0 <= index < q.tasks.len() && q.tasks[index].status
            == TaskStatus::Pending && q.tasks[index].attempts != Some(u32::MAX),
        WorkerMove::Finish { index, .. } => 0 <= index < q.tasks.len() && q.tasks[index].status
            == TaskStatus::Running,
        WorkerMove::ClearRetry { index } => 0 <= index < q.tasks.len(),
    }
}

/// The queue after the moves, in order.
pub open spec fn after_moves(q: QueueView, moves: Seq<WorkerMove>) -> QueueView
    decreases moves.len(),
{
    if moves.len() == 0 {
        q
    } else {
        after_move(after_moves(q, moves.drop_last()), moves.last())
    }
}

/// Every move is one the worker makes, from the queue the moves before it left.
pub open spec fn moves_allowed(q: QueueView, moves: Seq<WorkerMove>) -> bool {
    forall|k: int| 0 <= k < moves.len() ==> allowed_move(after_moves(q, moves.take(k)), #[trigger] moves[k])
}

/// How many of the moves start task `i`.
pub open spec fn starts_of(moves: Seq<WorkerMove>, i: int) -> nat
    decreases moves.len(),
{
    if moves.len() == 0 {
        0
    } else {
        starts_of(moves.drop_last(), i) + if moves.last() matches WorkerMove::Start { index, .. } && index == i {
            1nat
        } else {
            0nat
        }
    }
}

/// Through any run, a task is started at most as many times as its attempts
/// left allow: every start adds one to its counter, no other move changes the
/// counter, and a started task never goes past the maximum. The queue stays
/// within its attempt budget throughout.
pub proof fn lemma_attempts_bounded(q: QueueView, moves: Seq<WorkerMove>, i: int)
    requires
        within_attempt_budget(q),
        moves_allowed(q, moves),
        0 <= i < q.tasks.len(),
    ensures
        after_moves(q, moves).tasks.len() == q.tasks.len(),
        after_moves(q, moves).retry_policy == q.retry_policy,
        within_attempt_budget(after_moves(q, moves)),
        attempt_count(after_moves(q, moves).tasks[i]) == attempt_count(q.tasks[i]) + starts_of(moves, i),
        starts_of(moves, i) > 0 ==> attempt_count(after_moves(q, moves).tasks[i]) <= q.retry_policy.max_attempts,
        starts_of(moves, i) > 0 ==> starts_of(moves, i) <= q.retry_policy.max_attempts - attempt_count(q.tasks[i]),
    decreases moves.len(),
{
    if moves.len() > 0 {
        let rest = moves.drop_last();
        assert forall|k: int| 0 <= k < rest.len() implies allowed_move(after_moves(q, rest.take(k)), #[trigger] rest[k]) by {
            assert(rest.take(k) =~= moves.take(k));
            assert(moves[k] == rest[k]);
        }
        lemma_attempts_bounded(q, rest, i);
        let before = after_moves(q, rest);
        let m = moves.last();
        assert(moves.take(moves.len() - 1) =~= rest);
        assert(allowed_move(before, m));
        let after = after_move(before, m);
        match m {
            WorkerMove::Block { blocked, at } => {
                lemma_blocking_keeps_attempt_budget(before, blocked, at);
            },
            WorkerMove::Start { index, at } => {
                assert forall|j: int| 0 <= j < after.tasks.len() implies {
                    &&& (#[trigger] after.tasks[j]).status == TaskStatus::Pending ==> attempt_count(after.tasks[j])
                        < after.retry_policy.max_attempts
                    &&& after.tasks[j].status == TaskStatus::Running ==> attempt_count(after.tasks[j])
                        <= after.retry_policy.max_attempts
                } by {
                    assert(before.tasks[j].status == TaskStatus::Pending ==> attempt_count(before.tasks[j]) < before.retry_policy.max_attempts);
                }
            },
            WorkerMove::Finish { index, outcome, at } => {
                assert forall|j: int| 0 <= j < after.tasks.len() implies {
                    &&& (#[trigger] after.tasks[j]).status == TaskStatus::Pending ==> attempt_count(after.tasks[j])
                        < after.retry_policy.max_attempts
                    &&& after.tasks[j].status == TaskStatus::Running ==> attempt_count(after.tasks[j])
                        <= after.retry_policy.max_attempts
                } by {
                    assert(before.tasks[j].status == TaskStatus::Pending ==> attempt_count(before.tasks[j]) < before.retry_policy.max_attempts);
                }
            },
            WorkerMove::ClearRetry { index } => {
                assert forall|j: int| 0 <= j < after.tasks.len() implies {
                    &&& (#[trigger] after.tasks[j]).status == TaskStatus::Pending ==> attempt_count(after.tasks[j])
                        < after.retry_policy.max_attempts
                    &&& after.tasks[j].status == TaskStatus::Running ==> attempt_count(after.tasks[j])
                        <= after.retry_policy.max_attempts
                } by {
                    assert(before.tasks[j].status == TaskStatus::Pending ==> attempt_count(before.tasks[j]) < before.retry_policy.max_attempts);
                }
            },
        }
    }
}

} // verus!
