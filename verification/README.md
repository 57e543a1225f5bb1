# Codex Queue

A dependency-aware task queue for Codex, with its rules proved in Verus.

`src/` is the verified library:

- `queue.rs`: the queue's data model and the mathematical model the contracts use.
- `validate.rs`: which queues are valid, and the first problem reported.
- `plan.rs`: the execution plan: pending tasks by dependencies, priority,
  creation time and ID; tasks whose dependencies failed are blocked.
- `worker.rs`: the worker's decisions: recovering interrupted runs, choosing
  the next task, recording attempts, capped exponential backoff, and queue
  file revisions.
- `codex.rs`: reading how a `codex exec` run ended and whether to retry it,
  and the search for a runnable Codex CLI.
- `runs.rs`: run directory names, task run history, bounded output files,
  queue snapshots and revision checks for saves.
- `report.rs`: what the command line prints.
- `text.rs`, `time.rs`: text and time helpers.

`app/` is the program around it: the command line, queue files on disk
(locks, atomic writes), the JSON form of the queue, running Codex processes,
and the desktop window's requests.

`tests/` exercises the library on concrete queues, runs and messages.
