//! Dependency-aware task queue: validation, planning, retry scheduling, the
//! worker's state transitions and the reading of how a Codex run ended, with
//! their contracts.

pub mod codex;
pub mod plan;
pub mod queue;
pub mod report;
pub mod runs;
pub mod text;
pub mod time;
pub mod validate;
pub mod worker;

pub use codex::{
    contains_transient_status, is_permanent_message, is_transient_codex_failure,
    is_transient_message, timeout_error, TaskFailure,
};
pub use plan::build_execution_plan;
pub use runs::{
    AppInfo, QueueSnapshot, RunArtifact, RunState, TaskRunOutput, TaskRunSummary,
};
pub use queue::{
    BlockedReason, BlockedReasonCode, BlockedTask, ExecutionPlan, Queue, QueueError, RetryPolicy,
    Task, TaskStatus,
};
pub use time::Timestamp;
pub use validate::validate_queue;
pub use worker::{
    AttemptOutcome, NextStep, QueueFileSnapshot, RunSummary, Step, TransientTaskError,
    WorkerError, WorkerOptions,
};
