//! The execution plan: which pending tasks are blocked by failed
//! dependencies, and the order in which the others run.
use vstd::prelude::*;
use vstd::string::*;

use crate::queue::{
    acyclic, depends_idx, find_task_index, has_task, known_dependencies, lemma_precedes_total,
    lemma_precedes_transitive, precedes, ranks_dependencies, task_precedes, tasks_view,
    unique_ids, BlockedReasonCode, BlockedTask, BlockedTaskView, ExecutionPlan, Queue,
    QueueError, Task, TaskStatus, TaskView,
};
use crate::validate::{queue_is_valid, validate_queue, lemma_structurally_sound};

verus! {

broadcast use vstd::string::group_string_axioms;

// ---------------------------------------------------------------------------
// The model of a plan.

/// Pending and interrupted tasks still have to run.
pub open spec fn is_waiting(s: TaskStatus) -> bool {
    s == TaskStatus::Pending || s == TaskStatus::Running
}

/// Failed and blocked tasks will not succeed in this run.
pub open spec fn is_unavailable(s: TaskStatus) -> bool {
    s == TaskStatus::Failed || s == TaskStatus::Blocked
}

/// The position of the task with ID `id`.
pub open spec fn id_index(tasks: Seq<TaskView>, id: Seq<char>) -> int {
    choose|i: int| 0 <= i < tasks.len() && tasks[i].id == id
}

/// Within `r` rounds of propagation, task `i` is unavailable: it failed or
/// is blocked, or it is waiting and depends on a task unavailable within
/// `r - 1` rounds.
pub open spec fn reaches_unavailable(tasks: Seq<TaskView>, i: int, r: nat) -> bool
    decreases r,
{
    if r == 0 {
        is_unavailable(tasks[i].status)
    } else {
        reaches_unavailable(tasks, i, (r - 1) as nat) || (is_waiting(tasks[i].status) && exists|
            j: int,
        | #[trigger] depends_idx(tasks, i, j) && reaches_unavailable(tasks, j, (r - 1) as nat))
    }
}

/// A waiting task that transitively depends on a failed or blocked task.
pub open spec fn doomed(tasks: Seq<TaskView>, i: int) -> bool {
    is_waiting(tasks[i].status) && exists|r: nat| #[trigger] reaches_unavailable(tasks, i, r)
}

/// A waiting task that can still run.
pub open spec fn runnable(tasks: Seq<TaskView>, i: int) -> bool {
    is_waiting(tasks[i].status) && !doomed(tasks, i)
}

/// `r` is the round in which task `i` first becomes unavailable.
pub open spec fn first_reached_in(tasks: Seq<TaskView>, i: int, r: nat) -> bool {
    reaches_unavailable(tasks, i, r) && (r == 0 || !reaches_unavailable(
        tasks,
        i,
        (r - 1) as nat,
    ))
}

/// The round in which a doomed task is blocked.
pub open spec fn block_round(tasks: Seq<TaskView>, i: int) -> nat {
    choose|r: nat| first_reached_in(tasks, i, r)
}

/// The first position, from `p` on, of a dependency of task `i` that is
/// unavailable within `r` rounds.
pub open spec fn first_dependency_reaching(tasks: Seq<TaskView>, i: int, r: nat, p: int) -> int
    decreases tasks[i].depends_on.len() - p,
{
    if p >= tasks[i].depends_on.len() || p < 0 {
        p
    } else if reaches_unavailable(tasks, id_index(tasks, tasks[i].depends_on[p]), r) {
        p
    } else {
        first_dependency_reaching(tasks, i, r, p + 1)
    }
}

/// The dependency named as the reason a doomed task is blocked: its first
/// dependency that was unavailable when the task was blocked.
pub open spec fn blocking_dependency(tasks: Seq<TaskView>, i: int) -> Seq<char> {
    tasks[i].depends_on[first_dependency_reaching(
        tasks,
        i,
        (block_round(tasks, i) - 1) as nat,
        0,
    )]
}

pub open spec fn blocked_message(dependency: Seq<char>) -> Seq<char> {
    "dependency failed or is blocked: "@ + dependency
}

/// Some task with ID `id` had succeeded before the run.
pub open spec fn succeeded_before(tasks: Seq<TaskView>, id: Seq<char>) -> bool {
    exists|j: int| 0 <= j < tasks.len() && #[trigger] tasks[j].id == id && tasks[j].status
        == TaskStatus::Succeeded
}

/// Every dependency of task `i` succeeded before, or is among `done`.
pub open spec fn ready_after(tasks: Seq<TaskView>, done: Seq<Seq<char>>, i: int) -> bool {
    forall|p: int|
        0 <= p < tasks[i].depends_on.len() ==> succeeded_before(
            tasks,
            #[trigger] tasks[i].depends_on[p],
        ) || done.contains(tasks[i].depends_on[p])
}

/// `ordered` holds each runnable task once, each after its dependencies, and
/// at every step the task taken first among those whose dependencies are done.
pub open spec fn is_run_order(tasks: Seq<TaskView>, ordered: Seq<Seq<char>>) -> bool {
    &&& ordered.no_duplicates()
    &&& forall|k: int|
        0 <= k < ordered.len() ==> has_task(tasks, #[trigger] ordered[k]) && runnable(
            tasks,
            id_index(tasks, ordered[k]),
        )
    &&& forall|i: int| 0 <= i < tasks.len() && runnable(tasks, i) ==> ordered.contains(#[trigger] tasks[i].id)
    &&& forall|k: int|
        0 <= k < ordered.len() ==> ready_after(
            tasks,
            ordered.take(k),
            id_index(tasks, #[trigger] ordered[k]),
        )
    &&& forall|k: int, m: int|
        0 <= k < m < ordered.len() && ready_after(
            tasks,
            ordered.take(k),
            id_index(tasks, #[trigger] ordered[m]),
        ) ==> precedes(tasks[id_index(tasks, #[trigger] ordered[k])], tasks[id_index(tasks, ordered[m])])
}

/// `blocked` holds each doomed task once, round by round and in taking order
/// within a round, each naming the dependency that blocked it.
pub open spec fn is_block_list(tasks: Seq<TaskView>, blocked: Seq<BlockedTaskView>) -> bool {
    &&& forall|k: int, m: int|
        0 <= k < m < blocked.len() ==> #[trigger] blocked[k].task_id != #[trigger] blocked[m].task_id
    &&& forall|k: int|
        0 <= k < blocked.len() ==> has_task(tasks, (#[trigger] blocked[k]).task_id) && doomed(
            tasks,
            id_index(tasks, blocked[k].task_id),
        )
    &&& forall|i: int|
        0 <= i < tasks.len() && doomed(tasks, i) ==> exists|k: int|
            0 <= k < blocked.len() && (#[trigger] blocked[k]).task_id == tasks[i].id
    &&& forall|k: int, m: int|
        0 <= k < m < blocked.len() ==> {
            let a = id_index(tasks, (#[trigger] blocked[k]).task_id);
            let b = id_index(tasks, (#[trigger] blocked[m]).task_id);
            block_round(tasks, a) <= block_round(tasks, b) && (block_round(tasks, a)
                == block_round(tasks, b) ==> precedes(tasks[a], tasks[b]))
        }
    &&& forall|k: int|
        0 <= k < blocked.len() ==> {
            let i = id_index(tasks, (#[trigger] blocked[k]).task_id);
            &&& blocked[k].dependency_id == blocking_dependency(tasks, i)
            &&& blocked[k].reason == blocked_message(blocked[k].dependency_id)
            &&& blocked[k].reason_code == BlockedReasonCode::DependencyUnavailable
        }
}

// ---------------------------------------------------------------------------
// Facts about the model.

/// With unique IDs, a task's ID leads back to its position.
pub proof fn lemma_id_index(tasks: Seq<TaskView>, i: int)
    requires
        unique_ids(tasks),
        0 <= i < tasks.len(),
    ensures
        id_index(tasks, tasks[i].id) == i,
{
    let j = id_index(tasks, tasks[i].id);
    assert(0 <= j < tasks.len() && tasks[j].id == tasks[i].id);
}

/// A plan splits the tasks that still have to run: each waiting task is
/// either in the run order or blocked, never both, and no other task is in
/// either.
pub proof fn lemma_plan_partitions(
    tasks: Seq<TaskView>,
    ordered: Seq<Seq<char>>,
    blocked: Seq<BlockedTaskView>,
    i: int,
)
    requires
        unique_ids(tasks),
        is_run_order(tasks, ordered),
        is_block_list(tasks, blocked),
        0 <= i < tasks.len(),
    ensures
        is_waiting(tasks[i].status) <==> (ordered.contains(tasks[i].id) || exists|k: int|
            0 <= k < blocked.len() && (#[trigger] blocked[k]).task_id == tasks[i].id),
        !(ordered.contains(tasks[i].id) && exists|k: int|
            0 <= k < blocked.len() && (#[trigger] blocked[k]).task_id == tasks[i].id),
{
    lemma_id_index(tasks, i);
    if ordered.contains(tasks[i].id) {
        let k = choose|k: int| 0 <= k < ordered.len() && ordered[k] == tasks[i].id;
        assert(runnable(tasks, id_index(tasks, ordered[k])));
    }
    if exists|k: int| 0 <= k < blocked.len() && (#[trigger] blocked[k]).task_id == tasks[i].id {
        let k = choose|k: int| 0 <= k < blocked.len() && (#[trigger] blocked[k]).task_id == tasks[i].id;
        assert(doomed(tasks, id_index(tasks, blocked[k].task_id)));
    }
    if is_waiting(tasks[i].status) && !doomed(tasks, i) {
        assert(runnable(tasks, i));
    }
}

/// In a run order, a dependency that still has to run comes before the task
/// that depends on it; and of two tasks without dependencies, the one taken
/// first (`precedes`: higher priority, then earlier creation, then smaller
/// ID) comes first.
pub proof fn lemma_run_order_positions(
    tasks: Seq<TaskView>,
    ordered: Seq<Seq<char>>,
    i: int,
    j: int,
    k: int,
    m: int,
)
    requires
        unique_ids(tasks),
        is_run_order(tasks, ordered),
        0 <= i < tasks.len(),
        0 <= j < tasks.len(),
        0 <= k < ordered.len(),
        0 <= m < ordered.len(),
        ordered[k] == tasks[i].id,
        ordered[m] == tasks[j].id,
    ensures
        depends_idx(tasks, j, i) && is_waiting(tasks[i].status) ==> k < m,
        tasks[i].depends_on.len() == 0 && tasks[j].depends_on.len() == 0 && precedes(tasks[i], tasks[j])
            ==> k < m,
{
    lemma_id_index(tasks, i);
    lemma_id_index(tasks, j);
    if depends_idx(tasks, j, i) && is_waiting(tasks[i].status) {
        assert(ready_after(tasks, ordered.take(m), id_index(tasks, ordered[m])));
        let p = choose|p: int| 0 <= p < tasks[j].depends_on.len() && tasks[j].depends_on[p] == tasks[i].id;
        if succeeded_before(tasks, tasks[j].depends_on[p]) {
            let x = choose|x: int| 0 <= x < tasks.len() && #[trigger] tasks[x].id == tasks[i].id
                && tasks[x].status == TaskStatus::Succeeded;
            assert(x == i);
        }
        assert(ordered.take(m).contains(tasks[i].id));
        let q = choose|q: int| 0 <= q < m && ordered.take(m)[q] == tasks[i].id;
        assert(ordered[q] == ordered[k]);
    }
    if tasks[i].depends_on.len() == 0 && tasks[j].depends_on.len() == 0 && precedes(tasks[i], tasks[j]) {
        lemma_precedes_total(tasks[i], tasks[j]);
        if m < k {
            assert(ready_after(tasks, ordered.take(m), id_index(tasks, ordered[k])));
            assert(precedes(tasks[id_index(tasks, ordered[m])], tasks[id_index(tasks, ordered[k])]));
        } else if m == k {
            assert(tasks[i].id == tasks[j].id);
        }
    }
}

proof fn lemma_succeeded_never_unavailable(tasks: Seq<TaskView>, x: int, r: nat)
    requires
        0 <= x < tasks.len(),
        tasks[x].status == TaskStatus::Succeeded,
    ensures
        !reaches_unavailable(tasks, x, r),
    decreases r,
{
    if r > 0 {
        lemma_succeeded_never_unavailable(tasks, x, (r - 1) as nat);
    }
}

proof fn lemma_ready_never_unavailable(tasks: Seq<TaskView>, i: int, r: nat)
    requires
        unique_ids(tasks),
        0 <= i < tasks.len(),
        tasks[i].status == TaskStatus::Pending || tasks[i].status == TaskStatus::Running,
        forall|j: int| #[trigger] depends_idx(tasks, i, j) ==> tasks[j].status == TaskStatus::Succeeded,
    ensures
        !reaches_unavailable(tasks, i, r),
    decreases r,
{
    if r > 0 {
        lemma_ready_never_unavailable(tasks, i, (r - 1) as nat);
        assert forall|j: int| #[trigger] depends_idx(tasks, i, j) implies !reaches_unavailable(
            tasks,
            j,
            (r - 1) as nat,
        ) by {
            lemma_succeeded_never_unavailable(tasks, j, (r - 1) as nat);
        }
    }
}

/// What a plan does with each task, by its own status and those of its
/// dependencies: a pending or interrupted task that depends on a failed or
/// blocked task is blocked and not run; one whose dependencies have all
/// succeeded is run; a task that succeeded, failed or is blocked is neither
/// run nor blocked again.
pub proof fn lemma_plan_by_status(
    tasks: Seq<TaskView>,
    ordered: Seq<Seq<char>>,
    blocked: Seq<BlockedTaskView>,
    i: int,
    j: int,
)
    requires
        unique_ids(tasks),
        is_run_order(tasks, ordered),
        is_block_list(tasks, blocked),
        0 <= i < tasks.len(),
    ensures
        (tasks[i].status == TaskStatus::Pending || tasks[i].status == TaskStatus::Running) && 0 <= j
            < tasks.len() && tasks[i].depends_on.contains(tasks[j].id) && (tasks[j].status
            == TaskStatus::Failed || tasks[j].status == TaskStatus::Blocked) ==> (exists|k: int|
            0 <= k < blocked.len() && (#[trigger] blocked[k]).task_id == tasks[i].id) && !ordered.contains(
            tasks[i].id,
        ),
        (tasks[i].status == TaskStatus::Pending || tasks[i].status == TaskStatus::Running) && (forall|
            p: int,
        | 0 <= p < tasks[i].depends_on.len() ==> exists|x: int|
            0 <= x < tasks.len() && #[trigger] tasks[x].id == #[trigger] tasks[i].depends_on[p]
                && tasks[x].status == TaskStatus::Succeeded) ==> ordered.contains(tasks[i].id),
        (tasks[i].status == TaskStatus::Succeeded || tasks[i].status == TaskStatus::Failed
            || tasks[i].status == TaskStatus::Blocked) ==> !ordered.contains(tasks[i].id) && !(exists|
            k: int,
        | 0 <= k < blocked.len() && (#[trigger] blocked[k]).task_id == tasks[i].id),
{
    lemma_plan_partitions(tasks, ordered, blocked, i);
    if (tasks[i].status == TaskStatus::Pending || tasks[i].status == TaskStatus::Running) && 0 <= j
        < tasks.len() && tasks[i].depends_on.contains(tasks[j].id) && (tasks[j].status
        == TaskStatus::Failed || tasks[j].status == TaskStatus::Blocked) {
        assert(reaches_unavailable(tasks, j, 0));
        assert(depends_idx(tasks, i, j));
        assert(reaches_unavailable(tasks, i, 1));
        assert(doomed(tasks, i));
    }
    if (tasks[i].status == TaskStatus::Pending || tasks[i].status == TaskStatus::Running) && (forall|
        p: int,
    | 0 <= p < tasks[i].depends_on.len() ==> exists|x: int|
        0 <= x < tasks.len() && #[trigger] tasks[x].id == #[trigger] tasks[i].depends_on[p]
            && tasks[x].status == TaskStatus::Succeeded) {
        assert forall|j: int| #[trigger] depends_idx(tasks, i, j) implies tasks[j].status
            == TaskStatus::Succeeded by {
            let p = choose|p: int| 0 <= p < tasks[i].depends_on.len() && tasks[i].depends_on[p] == tasks[j].id;
            let x = choose|x: int| 0 <= x < tasks.len() && #[trigger] tasks[x].id == tasks[i].depends_on[p]
                && tasks[x].status == TaskStatus::Succeeded;
            assert(tasks[x].id == tasks[j].id);
        }
        assert forall|r: nat| !#[trigger] reaches_unavailable(tasks, i, r) by {
            lemma_ready_never_unavailable(tasks, i, r);
        }
        assert(runnable(tasks, i));
    }
}

/// Unavailability only spreads with more rounds.
pub proof fn lemma_reach_monotone(tasks: Seq<TaskView>, i: int, a: nat, b: nat)
    requires
        a <= b,
        reaches_unavailable(tasks, i, a),
    ensures
        reaches_unavailable(tasks, i, b),
    decreases b - a,
{
    if a < b {
        lemma_reach_monotone(tasks, i, a, (b - 1) as nat);
    }
}

/// The round in which a task first becomes unavailable is unique.
pub proof fn lemma_block_round(tasks: Seq<TaskView>, i: int, r: nat)
    requires
        first_reached_in(tasks, i, r),
    ensures
        block_round(tasks, i) == r,
{
    let b = block_round(tasks, i);
    assert(first_reached_in(tasks, i, b));
    if b < r {
        lemma_reach_monotone(tasks, i, b, (r - 1) as nat);
    } else if r < b {
        lemma_reach_monotone(tasks, i, r, (b - 1) as nat);
    }
}

/// A scan from `start` finds the first dependency unavailable within `r` rounds.
pub proof fn lemma_first_dependency_reaching(
    tasks: Seq<TaskView>,
    i: int,
    r: nat,
    start: int,
    p: int,
)
    requires
        0 <= start <= p < tasks[i].depends_on.len(),
        forall|q: int|
            start <= q < p ==> !reaches_unavailable(
                tasks,
                id_index(tasks, #[trigger] tasks[i].depends_on[q]),
                r,
            ),
        reaches_unavailable(tasks, id_index(tasks, tasks[i].depends_on[p]), r),
    ensures
        first_dependency_reaching(tasks, i, r, start) == p,
    decreases p - start,
{
    if start < p {
        lemma_first_dependency_reaching(tasks, i, r, start + 1, p);
    }
}

/// Once a round adds nothing, no later round does.
pub proof fn lemma_reach_fixpoint(tasks: Seq<TaskView>, r: nat, later: nat)
    requires
        r <= later,
        forall|x: int|
            0 <= x < tasks.len() && #[trigger] reaches_unavailable(tasks, x, r + 1)
                ==> reaches_unavailable(tasks, x, r),
    ensures
        forall|x: int|
            0 <= x < tasks.len() && #[trigger] reaches_unavailable(tasks, x, later)
                ==> reaches_unavailable(tasks, x, r),
    decreases later - r,
{
    if r < later {
        lemma_reach_fixpoint(tasks, r, (later - 1) as nat);
        assert forall|x: int|
            0 <= x < tasks.len() && #[trigger] reaches_unavailable(tasks, x, later)
                implies reaches_unavailable(tasks, x, r) by {
            if !reaches_unavailable(tasks, x, (later - 1) as nat) {
                let j = choose|j: int|
                    #[trigger] depends_idx(tasks, x, j) && reaches_unavailable(
                        tasks,
                        j,
                        (later - 1) as nat,
                    );
                assert(reaches_unavailable(tasks, j, r));
                assert(reaches_unavailable(tasks, x, r + 1));
            }
        }
    }
}

/// Position `x` satisfies `pred` with the least rank among the first `n` positions.
pub open spec fn least_rank_at(n: int, pred: spec_fn(int) -> bool, rank: spec_fn(int) -> nat, x: int) -> bool {
    0 <= x < n && pred(x) && forall|y: int| 0 <= y < n && #[trigger] pred(y) ==> rank(x) <= rank(y)
}

/// Among the first `n` positions satisfying `pred`, one has the least rank.
pub proof fn lemma_least_rank(n: int, pred: spec_fn(int) -> bool, rank: spec_fn(int) -> nat)
    requires
        exists|x: int| 0 <= x < n && #[trigger] pred(x),
    ensures
        exists|x: int| #[trigger] least_rank_at(n, pred, rank, x),
    decreases n,
{
    if exists|x: int| 0 <= x < n - 1 && #[trigger] pred(x) {
        lemma_least_rank(n - 1, pred, rank);
        let x = choose|x: int| #[trigger] least_rank_at(n - 1, pred, rank, x);
        if pred(n - 1) && rank(n - 1) < rank(x) {
            assert forall|y: int| 0 <= y < n && #[trigger] pred(y) implies rank(n - 1) <= rank(
                y,
            ) by {
                if y < n - 1 {
                    assert(rank(x) <= rank(y));
                }
            }
            assert(least_rank_at(n, pred, rank, n - 1));
        } else {
            assert forall|y: int| 0 <= y < n && #[trigger] pred(y) implies rank(x) <= rank(y) by {
                if y < n - 1 {
                    assert(rank(x) <= rank(y));
                }
            }
            assert(least_rank_at(n, pred, rank, x));
        }
    } else {
        let w = choose|x: int| 0 <= x < n && #[trigger] pred(x);
        assert(w == n - 1);
        assert forall|y: int| 0 <= y < n && #[trigger] pred(y) implies rank(n - 1) <= rank(y) by {
            if y < n - 1 {
                assert(!pred(y));
            }
        }
        assert(least_rank_at(n, pred, rank, n - 1));
    }
}

// ---------------------------------------------------------------------------
// Lookups.

/// The position of the task named by dependency `p` of task `i`.
fn dependency_index(tasks: &Vec<Task>, i: usize, p: usize) -> (j: usize)
    requires
        unique_ids(tasks_view(tasks@)),
        known_dependencies(tasks_view(tasks@)),
        i < tasks.len(),
        p < tasks@[i as int].depends_on.len(),
    ensures
        j < tasks.len(),
        j as int == id_index(tasks_view(tasks@), tasks_view(tasks@)[i as int].depends_on[p as int]),
        tasks_view(tasks@)[j as int].id == tasks_view(tasks@)[i as int].depends_on[p as int],
        depends_idx(tasks_view(tasks@), i as int, j as int),
{
    let ghost ts = tasks_view(tasks@);
    assert(ts[i as int] == tasks@[i as int]@);
    assert(ts[i as int].depends_on[p as int] == tasks@[i as int].depends_on@[p as int]@);
    match find_task_index(tasks, &tasks[i].depends_on[p]) {
        Some(j) => {
            proof {
                assert(ts[j as int] == tasks@[j as int]@);
                lemma_id_index(ts, j as int);
            }
            j
        },
        None => {
            proof {
                assert(has_task(ts, ts[i as int].depends_on[p as int]));
            }
            0
        },
    }
}

/// The first dependency of task `i` whose task is flagged.
fn first_flagged_dependency(tasks: &Vec<Task>, i: usize, flags: &Vec<bool>) -> (r: Option<usize>)
    requires
        unique_ids(tasks_view(tasks@)),
        known_dependencies(tasks_view(tasks@)),
        i < tasks.len(),
        flags.len() == tasks.len(),
    ensures
        r matches Some(p) ==> p < tasks@[i as int].depends_on.len() && flags@[id_index(
            tasks_view(tasks@),
            tasks_view(tasks@)[i as int].depends_on[p as int],
        )] && forall|q: int|
            0 <= q < p ==> !flags@[id_index(
                tasks_view(tasks@),
                #[trigger] tasks_view(tasks@)[i as int].depends_on[q],
            )],
        r is None ==> forall|q: int|
            0 <= q < tasks@[i as int].depends_on.len() ==> !flags@[id_index(
                tasks_view(tasks@),
                #[trigger] tasks_view(tasks@)[i as int].depends_on[q],
            )],
{
    let ghost ts = tasks_view(tasks@);
    assert(ts[i as int] == tasks@[i as int]@);
    let mut p: usize = 0;
    while p < tasks[i].depends_on.len()
        invariant
            ts == tasks_view(tasks@),
            ts[i as int] == tasks@[i as int]@,
            unique_ids(ts),
            known_dependencies(ts),
            i < tasks.len(),
            flags.len() == tasks.len(),
            p <= tasks@[i as int].depends_on.len(),
            forall|q: int|
                0 <= q < p ==> !flags@[id_index(ts, #[trigger] ts[i as int].depends_on[q])],
        decreases tasks@[i as int].depends_on.len() - p,
    {
        let j = dependency_index(tasks, i, p);
        if flags[j] {
            return Some(p);
        }
        p = p + 1;
    }
    None
}

/// The candidate that is taken before every other candidate.
fn pick_first(tasks: &Vec<Task>, candidates: &Vec<usize>) -> (b: usize)
    requires
        unique_ids(tasks_view(tasks@)),
        candidates.len() > 0,
        forall|q: int| 0 <= q < candidates.len() ==> #[trigger] candidates@[q] < tasks.len(),
        candidates@.no_duplicates(),
    ensures
        b < candidates.len(),
        forall|q: int|
            0 <= q < candidates.len() && q != b ==> precedes(
                tasks_view(tasks@)[candidates@[b as int] as int],
                tasks_view(tasks@)[#[trigger] candidates@[q] as int],
            ),
{
    let ghost ts = tasks_view(tasks@);
    let mut best: usize = 0;
    let mut q: usize = 1;
    while q < candidates.len()
        invariant
            ts == tasks_view(tasks@),
            unique_ids(ts),
            forall|x: int| 0 <= x < candidates.len() ==> #[trigger] candidates@[x] < tasks.len(),
            candidates@.no_duplicates(),
            0 <= best < q <= candidates.len(),
            forall|x: int|
                0 <= x < q && x != best ==> precedes(
                    ts[candidates@[best as int] as int],
                    ts[#[trigger] candidates@[x] as int],
                ),
        decreases candidates.len() - q,
    {
        let c = candidates[q];
        let current = candidates[best];
        assert(ts[c as int] == tasks@[c as int]@);
        assert(ts[current as int] == tasks@[current as int]@);
        if task_precedes(&tasks[c], &tasks[current]) {
            proof {
                assert forall|x: int| 0 <= x < q + 1 && x != q implies precedes(
                    ts[c as int],
                    ts[#[trigger] candidates@[x] as int],
                ) by {
                    if x != best {
                        lemma_precedes_transitive(
                            ts[c as int],
                            ts[current as int],
                            ts[candidates@[x] as int],
                        );
                    }
                }
            }
            best = q;
        } else {
            proof {
                assert(c != current);
                assert(ts[c as int].id != ts[current as int].id);
                lemma_precedes_total(ts[c as int], ts[current as int]);
            }
        }
        q = q + 1;
    }
    best
}

// ---------------------------------------------------------------------------
// Blocking.

/// Task `y` becomes unavailable in round `r + 1`.
pub open spec fn newly_unavailable(tasks: Seq<TaskView>, y: int, r: nat) -> bool {
    is_waiting(tasks[y].status) && !reaches_unavailable(tasks, y, r) && reaches_unavailable(
        tasks,
        y,
        r + 1,
    )
}

/// The blocked entry for task `x`, naming its dependency `p`.
fn blocked_entry(tasks: &Vec<Task>, x: usize, p: usize) -> (b: BlockedTask)
    requires
        x < tasks.len(),
        p < tasks@[x as int].depends_on.len(),
    ensures
        b@.task_id == tasks_view(tasks@)[x as int].id,
        b@.dependency_id == tasks_view(tasks@)[x as int].depends_on[p as int],
        b@.reason == blocked_message(b@.dependency_id),
        b@.reason_code == BlockedReasonCode::DependencyUnavailable,
{
    let ghost ts = tasks_view(tasks@);
    assert(ts[x as int] == tasks@[x as int]@);
    assert(ts[x as int].depends_on[p as int] == tasks@[x as int].depends_on@[p as int]@);
    let dependency = tasks[x].depends_on[p].clone();
    let mut reason = String::from_str("dependency failed or is blocked: ");
    reason.append(dependency.as_str());
    BlockedTask {
        task_id: tasks[x].id.clone(),
        reason,
        reason_code: BlockedReasonCode::DependencyUnavailable,
        dependency_id: dependency,
    }
}

/// The waiting tasks that become unavailable in the next round, each with the
/// position of its first unavailable dependency.
fn scan_round(
    tasks: &Vec<Task>,
    unavailable: &Vec<bool>,
    waiting_left: &Vec<bool>,
    Ghost(round): Ghost<nat>,
) -> (res: (Vec<usize>, Vec<usize>))
    requires
        unique_ids(tasks_view(tasks@)),
        known_dependencies(tasks_view(tasks@)),
        unavailable.len() == tasks.len(),
        waiting_left.len() == tasks.len(),
        forall|y: int|
            0 <= y < tasks.len() ==> (#[trigger] unavailable@[y] <==> reaches_unavailable(
                tasks_view(tasks@),
                y,
                round,
            )),
        forall|y: int|
            0 <= y < tasks.len() ==> (#[trigger] waiting_left@[y] <==> (is_waiting(
                tasks_view(tasks@)[y].status,
            ) && !reaches_unavailable(tasks_view(tasks@), y, round))),
    ensures
        res.0.len() == res.1.len(),
        res.0@.no_duplicates(),
        forall|q: int| 0 <= q < res.0.len() ==> #[trigger] res.0@[q] < tasks.len(),
        forall|y: int|
            0 <= y < tasks.len() ==> (res.0@.contains(y as usize) <==> newly_unavailable(
                tasks_view(tasks@),
                y,
                round,
            )),
        forall|q: int|
            0 <= q < res.0.len() ==> {
                let y = #[trigger] res.0@[q] as int;
                &&& res.1@[q] < tasks_view(tasks@)[y].depends_on.len()
                &&& res.1@[q] == first_dependency_reaching(tasks_view(tasks@), y, round, 0)
            },
{
    let ghost ts = tasks_view(tasks@);
    let n = tasks.len();
    let mut newly: Vec<usize> = Vec::new();
    let mut positions: Vec<usize> = Vec::new();
    let mut x: usize = 0;
    while x < n
        invariant
            ts == tasks_view(tasks@),
            n == tasks.len(),
            unique_ids(ts),
            known_dependencies(ts),
            unavailable.len() == n,
            waiting_left.len() == n,
            forall|y: int|
                0 <= y < n ==> (#[trigger] unavailable@[y] <==> reaches_unavailable(ts, y, round)),
            forall|y: int|
                0 <= y < n ==> (#[trigger] waiting_left@[y] <==> (is_waiting(ts[y].status)
                    && !reaches_unavailable(ts, y, round))),
            x <= n,
            newly.len() == positions.len(),
            forall|q: int| 0 <= q < newly.len() ==> #[trigger] newly@[q] < x,
            forall|q: int, q2: int| 0 <= q < q2 < newly.len() ==> #[trigger] newly@[q] < #[trigger] newly@[q2],
            forall|y: int|
                0 <= y < x ==> (newly@.contains(y as usize) <==> newly_unavailable(ts, y, round)),
            forall|q: int|
                0 <= q < newly.len() ==> {
                    let y = #[trigger] newly@[q] as int;
                    &&& positions@[q] < ts[y].depends_on.len()
                    &&& positions@[q] == first_dependency_reaching(ts, y, round, 0)
                },
        decreases n - x,
    {
        let ghost before = newly@;
        if waiting_left[x] {
            match first_flagged_dependency(tasks, x, unavailable) {
                Some(p) => {
                    proof {
                        let j = id_index(ts, ts[x as int].depends_on[p as int]);
                        assert(ts[x as int].depends_on.contains(ts[j].id));
                        assert(depends_idx(ts, x as int, j));
                        assert(reaches_unavailable(ts, x as int, round + 1));
                        lemma_first_dependency_reaching(ts, x as int, round, 0, p as int);
                    }
                    newly.push(x);
                    positions.push(p);
                },
                None => {
                    proof {
                        if reaches_unavailable(ts, x as int, round + 1) {
                            let j = choose|j: int|
                                #[trigger] depends_idx(ts, x as int, j) && reaches_unavailable(
                                    ts,
                                    j,
                                    round,
                                );
                            let p = choose|p: int|
                                0 <= p < ts[x as int].depends_on.len()
                                    && ts[x as int].depends_on[p] == ts[j].id;
                            lemma_id_index(ts, j);
                            assert(!unavailable@[id_index(ts, ts[x as int].depends_on[p])]);
                        }
                    }
                },
            }
        }
        proof {
            assert forall|y: int| 0 <= y < x + 1 implies (newly@.contains(y as usize)
                <==> newly_unavailable(ts, y, round)) by {
                if y < x {
                    if before.contains(y as usize) {
                        let q = choose|q: int| 0 <= q < before.len() && before[q] == y as usize;
                        assert(newly@[q] == y as usize);
                    }
                    if newly@.contains(y as usize) {
                        let q = choose|q: int| 0 <= q < newly@.len() && newly@[q] == y as usize;
                        if q == before.len() {
                            assert(newly@[q] == x);
                        } else {
                            assert(before[q] == y as usize);
                        }
                    }
                } else {
                    if newly@.contains(y as usize) {
                        let q = choose|q: int| 0 <= q < newly@.len() && newly@[q] == y as usize;
                        if q < before.len() {
                            assert(before[q] < x);
                        }
                    }
                    if newly_unavailable(ts, y, round) {
                        assert(waiting_left@[y]);
                        assert(newly@[newly@.len() - 1] == x);
                    }
                }
            }
        }
        x = x + 1;
    }
    proof {
        assert(newly@.no_duplicates()) by {
            assert forall|a: int, b: int|
                0 <= a < newly.len() && 0 <= b < newly.len() && a != b implies newly@[a]
                != newly@[b] by {
                if a < b {
                    assert(newly@[a] < newly@[b]);
                } else {
                    assert(newly@[b] < newly@[a]);
                }
            }
        }
    }
    (newly, positions)
}

/// The blocked entries so far: `order[k]` is blocked in round `rounds[k]`,
/// rounds never decrease, and within a round tasks come in taking order.
pub open spec fn blocked_so_far(
    tasks: Seq<TaskView>,
    blocked: Seq<BlockedTaskView>,
    order: Seq<int>,
    rounds: Seq<nat>,
) -> bool {
    &&& blocked.len() == order.len()
    &&& rounds.len() == order.len()
    &&& order.no_duplicates()
    &&& forall|k: int| 0 <= k < order.len() ==> 0 <= #[trigger] order[k] < tasks.len()
    &&& forall|k: int|
        0 <= k < order.len() ==> {
            let x = #[trigger] order[k];
            &&& is_waiting(tasks[x].status)
            &&& rounds[k] >= 1
            &&& first_reached_in(tasks, x, rounds[k])
            &&& blocked[k].task_id == tasks[x].id
            &&& blocked[k].dependency_id == tasks[x].depends_on[first_dependency_reaching(
                tasks,
                x,
                (rounds[k] - 1) as nat,
                0,
            )]
            &&& blocked[k].reason == blocked_message(blocked[k].dependency_id)
            &&& blocked[k].reason_code == BlockedReasonCode::DependencyUnavailable
        }
    &&& forall|k: int, m: int|
        0 <= k < m < order.len() ==> #[trigger] rounds[k] <= #[trigger] rounds[m] && (rounds[k]
            == rounds[m] ==> precedes(tasks[order[k]], tasks[order[m]]))
}

/// The final blocked entries form the block list, and the doomed tasks are
/// the waiting ones unavailable after the last round.
proof fn lemma_block_list(
    ts: Seq<TaskView>,
    blocked: Seq<BlockedTaskView>,
    order: Seq<int>,
    rounds: Seq<nat>,
    round: nat,
)
    requires
        unique_ids(ts),
        blocked_so_far(ts, blocked, order, rounds),
        forall|y: int|
            0 <= y < ts.len() && is_waiting(ts[y].status) && reaches_unavailable(ts, y, round)
                ==> #[trigger] order.contains(y),
        forall|y: int|
            0 <= y < ts.len() && #[trigger] reaches_unavailable(ts, y, round + 1)
                ==> reaches_unavailable(ts, y, round),
    ensures
        is_block_list(ts, blocked),
        forall|y: int|
            0 <= y < ts.len() ==> (doomed(ts, y) <==> (is_waiting(ts[y].status)
                && reaches_unavailable(ts, y, round))),
{
    assert forall|y: int|
        0 <= y < ts.len() implies (doomed(ts, y) <==> (is_waiting(ts[y].status)
            && reaches_unavailable(ts, y, round))) by {
        if doomed(ts, y) {
            let r = choose|r: nat| #[trigger] reaches_unavailable(ts, y, r);
            if r <= round {
                lemma_reach_monotone(ts, y, r, round);
            } else {
                lemma_reach_fixpoint(ts, round, r);
            }
        }
        if is_waiting(ts[y].status) && reaches_unavailable(ts, y, round) {
            assert(reaches_unavailable(ts, y, round));
        }
    }
    assert forall|k: int| 0 <= k < order.len() implies id_index(ts, #[trigger] blocked[k].task_id)
        == order[k] && block_round(ts, order[k]) == rounds[k] by {
        lemma_id_index(ts, order[k]);
        lemma_block_round(ts, order[k], rounds[k]);
    }
    assert forall|k: int, m: int|
        0 <= k < m < blocked.len() implies #[trigger] blocked[k].task_id
        != #[trigger] blocked[m].task_id by {
        assert(order[k] != order[m]);
    }
    assert forall|k: int|
        0 <= k < blocked.len() implies has_task(ts, (#[trigger] blocked[k]).task_id) && doomed(
        ts,
        id_index(ts, blocked[k].task_id),
    ) by {
        assert(ts[order[k]].id == blocked[k].task_id);
        assert(reaches_unavailable(ts, order[k], rounds[k]));
    }
    assert forall|i: int|
        0 <= i < ts.len() && doomed(ts, i) implies exists|k: int|
        0 <= k < blocked.len() && (#[trigger] blocked[k]).task_id == ts[i].id by {
        assert(order.contains(i));
        let k = choose|k: int| 0 <= k < order.len() && order[k] == i;
        assert(blocked[k].task_id == ts[i].id);
    }
    assert forall|k: int, m: int|
        0 <= k < m < blocked.len() implies {
        let a = id_index(ts, (#[trigger] blocked[k]).task_id);
        let b = id_index(ts, (#[trigger] blocked[m]).task_id);
        block_round(ts, a) <= block_round(ts, b) && (block_round(ts, a) == block_round(ts, b)
            ==> precedes(ts[a], ts[b]))
    } by {
        assert(rounds[k] <= rounds[m]);
    }
}

/// Blocks the waiting tasks that depend, directly or through other waiting
/// tasks, on a failed or blocked task. Returns the blocked entries and a flag
/// per task telling whether it is doomed.
fn block_doomed(tasks: &Vec<Task>) -> (res: (Vec<BlockedTask>, Vec<bool>))
    requires
        unique_ids(tasks_view(tasks@)),
        known_dependencies(tasks_view(tasks@)),
    ensures
        is_block_list(tasks_view(tasks@), res.0@.map_values(|b: BlockedTask| b@)),
        res.1.len() == tasks.len(),
        forall|x: int| 0 <= x < tasks.len() ==> (#[trigger] res.1@[x] <==> doomed(tasks_view(tasks@), x)),
{
    let ghost ts = tasks_view(tasks@);
    let n = tasks.len();
    let mut unavailable: Vec<bool> = Vec::new();
    let mut waiting_left: Vec<bool> = Vec::new();
    let mut x: usize = 0;
    while x < n
        invariant
            ts == tasks_view(tasks@),
            n == tasks.len(),
            x <= n,
            unavailable.len() == x,
            waiting_left.len() == x,
            forall|y: int|
                0 <= y < x ==> (#[trigger] unavailable@[y] <==> reaches_unavailable(ts, y, 0)),
            forall|y: int|
                0 <= y < x ==> (#[trigger] waiting_left@[y] <==> (is_waiting(ts[y].status)
                    && !reaches_unavailable(ts, y, 0))),
        decreases n - x,
    {
        assert(ts[x as int] == tasks@[x as int]@);
        let status = tasks[x].status;
        unavailable.push(status == TaskStatus::Failed || status == TaskStatus::Blocked);
        waiting_left.push(status == TaskStatus::Pending || status == TaskStatus::Running);
        x = x + 1;
    }
    let mut blocked: Vec<BlockedTask> = Vec::new();
    let ghost mut round: nat = 0;
    let ghost mut order: Seq<int> = Seq::empty();
    let ghost mut rounds: Seq<nat> = Seq::empty();
    let mut stable = false;
    while !stable
        invariant
            ts == tasks_view(tasks@),
            n == tasks.len(),
            unique_ids(ts),
            known_dependencies(ts),
            unavailable.len() == n,
            waiting_left.len() == n,
            forall|y: int|
                0 <= y < n ==> (#[trigger] unavailable@[y] <==> reaches_unavailable(ts, y, round)),
            forall|y: int|
                0 <= y < n ==> (#[trigger] waiting_left@[y] <==> (is_waiting(ts[y].status)
                    && !reaches_unavailable(ts, y, round))),
            blocked_so_far(ts, blocked@.map_values(|b: BlockedTask| b@), order, rounds),
            forall|k: int| 0 <= k < order.len() ==> #[trigger] rounds[k] <= round,
            forall|y: int|
                0 <= y < n && is_waiting(ts[y].status) && reaches_unavailable(ts, y, round)
                    ==> #[trigger] order.contains(y),
            order.len() <= n,
            stable ==> forall|y: int|
                0 <= y < n && #[trigger] reaches_unavailable(ts, y, round + 1)
                    ==> reaches_unavailable(ts, y, round),
        decreases n - order.len() + (if stable { 0int } else { 1int }),
    {
        let (mut newly, mut positions) = scan_round(tasks, &unavailable, &waiting_left, Ghost(round));
        if newly.len() == 0 {
            proof {
                assert forall|y: int|
                    0 <= y < n && #[trigger] reaches_unavailable(ts, y, round + 1)
                        implies reaches_unavailable(ts, y, round) by {
                    if !reaches_unavailable(ts, y, round) {
                        assert(newly_unavailable(ts, y, round));
                        assert(newly@.contains(y as usize));
                    }
                }
            }
            stable = true;
        } else {
            let ghost round_set = newly@;
            let ghost start_len = order.len();
            while newly.len() > 0
                invariant
                    ts == tasks_view(tasks@),
                    n == tasks.len(),
                    unique_ids(ts),
                    known_dependencies(ts),
                    unavailable.len() == n,
                    waiting_left.len() == n,
                    newly.len() == positions.len(),
                    newly@.no_duplicates(),
                    forall|q: int| 0 <= q < newly.len() ==> #[trigger] newly@[q] < n,
                    forall|q: int| 0 <= q < newly.len() ==> round_set.contains(#[trigger] newly@[q]),
                    forall|y: int|
                        0 <= y < n ==> (round_set.contains(y as usize) <==> newly_unavailable(
                            ts,
                            y,
                            round,
                        )),
                    forall|q: int|
                        0 <= q < newly.len() ==> {
                            let y = #[trigger] newly@[q] as int;
                            &&& positions@[q] < ts[y].depends_on.len()
                            &&& positions@[q] == first_dependency_reaching(ts, y, round, 0)
                        },
                    forall|y: int|
                        0 <= y < n ==> (#[trigger] unavailable@[y] <==> (reaches_unavailable(
                            ts,
                            y,
                            round,
                        ) || (round_set.contains(y as usize) && !newly@.contains(y as usize)))),
                    forall|y: int|
                        0 <= y < n ==> (#[trigger] waiting_left@[y] <==> (is_waiting(ts[y].status)
                            && !reaches_unavailable(ts, y, round) && !(round_set.contains(
                            y as usize,
                        ) && !newly@.contains(y as usize)))),
                    blocked_so_far(ts, blocked@.map_values(|b: BlockedTask| b@), order, rounds),
                    start_len <= order.len(),
                    order.len() - start_len + newly.len() == round_set.len(),
                    round_set.len() > 0,
                    forall|k: int| 0 <= k < start_len ==> #[trigger] rounds[k] <= round,
                    forall|k: int| start_len <= k < order.len() ==> #[trigger] rounds[k] == round + 1,
                    forall|k: int|
                        start_len <= k < order.len() ==> round_set.contains(#[trigger] order[k] as usize)
                            && !newly@.contains(order[k] as usize),
                    forall|y: int|
                        0 <= y < n && round_set.contains(y as usize) && !newly@.contains(y as usize)
                            ==> #[trigger] order.contains(y),
                    forall|k: int, q: int|
                        start_len <= k < order.len() && 0 <= q < newly.len() ==> precedes(
                            ts[#[trigger] order[k]],
                            ts[#[trigger] newly@[q] as int],
                        ),
                    forall|y: int|
                        0 <= y < n && is_waiting(ts[y].status) && reaches_unavailable(ts, y, round)
                            ==> #[trigger] order.contains(y),
                    order.len() <= n,
                decreases newly.len(),
            {
                let b = pick_first(tasks, &newly);
                let ghost before_newly = newly@;
                let ghost before_order = order;
                let ghost before_blocked = blocked@.map_values(|b: BlockedTask| b@);
                let y = newly.remove(b);
                let p = positions.remove(b);
                let entry = blocked_entry(tasks, y, p);
                unavailable.set(y, true);
                waiting_left.set(y, false);
                blocked.push(entry);
                proof {
                    order = order.push(y as int);
                    rounds = rounds.push(round + 1);
                    let bv = blocked@.map_values(|b: BlockedTask| b@);
                    assert(bv == before_blocked.push(entry@));
                    assert(!newly@.contains(y)) by {
                        if newly@.contains(y) {
                            let q = choose|q: int| 0 <= q < newly@.len() && newly@[q] == y;
                            if q < b {
                                assert(before_newly[q] == y);
                            } else {
                                assert(before_newly[q + 1] == y);
                            }
                        }
                    }
                    assert forall|yy: usize| #[trigger] newly@.contains(yy) <==> (before_newly.contains(yy) && yy != y) by {
                        if newly@.contains(yy) {
                            let q = choose|q: int| 0 <= q < newly@.len() && newly@[q] == yy;
                            if q < b {
                                assert(before_newly[q] == yy);
                            } else {
                                assert(before_newly[q + 1] == yy);
                            }
                        }
                        if before_newly.contains(yy) && yy != y {
                            let q = choose|q: int| 0 <= q < before_newly.len() && before_newly[q] == yy;
                            if q < b {
                                assert(newly@[q] == yy);
                            } else {
                                assert(q != b);
                                assert(newly@[q - 1] == yy);
                            }
                        }
                    }
                    assert(round_set.contains(y));
                    assert(newly_unavailable(ts, y as int, round));
                    assert(first_reached_in(ts, y as int, round + 1));
                    assert(!before_order.contains(y as int)) by {
                        if before_order.contains(y as int) {
                            let k = choose|k: int| 0 <= k < before_order.len() && before_order[k] == y as int;
                            if k >= start_len {
                                assert(!before_newly.contains(before_order[k] as usize));
                            } else {
                                assert(!reaches_unavailable(ts, y as int, round));
                                assert(reaches_unavailable(ts, y as int, rounds[k]));
                                lemma_reach_monotone(ts, y as int, rounds[k], round);
                            }
                        }
                    }
                    assert(order.no_duplicates()) by {
                        assert forall|a: int, c: int| 0 <= a < order.len() && 0 <= c < order.len() && a != c implies order[a] != order[c] by {
                            if a < order.len() - 1 && c < order.len() - 1 {
                                assert(before_order[a] != before_order[c]);
                            } else if a < order.len() - 1 {
                                assert(before_order.contains(order[a]));
                            } else if c < order.len() - 1 {
                                assert(before_order.contains(order[c]));
                            }
                        }
                    }
                    assert forall|k: int, m: int|
                        0 <= k < m < order.len() implies #[trigger] rounds[k] <= #[trigger] rounds[m] && (rounds[k]
                            == rounds[m] ==> precedes(ts[order[k]], ts[order[m]])) by {
                        if m == order.len() - 1 && k >= start_len {
                            assert(before_newly[b as int] == y);
                            assert(precedes(ts[before_order[k]], ts[before_newly[b as int] as int]));
                        }
                    }
                    assert forall|k: int, q: int|
                        start_len <= k < order.len() && 0 <= q < newly.len() implies precedes(
                            ts[#[trigger] order[k]],
                            ts[#[trigger] newly@[q] as int],
                        ) by {
                        let qq = if q < b { q } else { q + 1 };
                        assert(newly@[q] == before_newly[qq]);
                        if k == order.len() - 1 {
                            assert(qq != b);
                        }
                    }
                    crate::validate::lemma_path_bounded(order, n as int);
                    assert forall|z: int| #[trigger] before_order.contains(z) implies order.contains(z) by {
                        let k = choose|k: int| 0 <= k < before_order.len() && before_order[k] == z;
                        assert(order[k] == z);
                    }
                    assert(order[order.len() - 1] == y as int);
                    assert forall|z: int|
                        0 <= z < n && round_set.contains(z as usize) && !newly@.contains(z as usize)
                            implies #[trigger] order.contains(z) by {
                        if z != y as int {
                            assert(!before_newly.contains(z as usize));
                            assert(before_order.contains(z));
                        }
                    }
                    assert forall|z: int|
                        0 <= z < n && is_waiting(ts[z].status) && reaches_unavailable(ts, z, round)
                            implies #[trigger] order.contains(z) by {
                        assert(before_order.contains(z));
                    }
                }
            }
            proof {
                assert forall|y: int|
                    0 <= y < n implies (#[trigger] unavailable@[y] <==> reaches_unavailable(
                        ts,
                        y,
                        round + 1,
                    )) by {
                    assert(!newly@.contains(y as usize));
                    assert(unavailable@[y] <==> (reaches_unavailable(ts, y, round) || (
                    round_set.contains(y as usize) && !newly@.contains(y as usize))));
                    assert(round_set.contains(y as usize) <==> newly_unavailable(ts, y, round));
                    if reaches_unavailable(ts, y, round) {
                        lemma_reach_monotone(ts, y, round, round + 1);
                    }
                    if reaches_unavailable(ts, y, round + 1) && !reaches_unavailable(ts, y, round) {
                        assert(is_waiting(ts[y].status));
                        assert(newly_unavailable(ts, y, round));
                    }
                }
                assert forall|y: int|
                    0 <= y < n implies (#[trigger] waiting_left@[y] <==> (is_waiting(ts[y].status)
                        && !reaches_unavailable(ts, y, round + 1))) by {
                    assert(!newly@.contains(y as usize));
                    assert(waiting_left@[y] <==> (is_waiting(ts[y].status) && !reaches_unavailable(
                        ts,
                        y,
                        round,
                    ) && !(round_set.contains(y as usize) && !newly@.contains(y as usize))));
                    assert(round_set.contains(y as usize) <==> newly_unavailable(ts, y, round));
                    if reaches_unavailable(ts, y, round) {
                        lemma_reach_monotone(ts, y, round, round + 1);
                    }
                }
                assert forall|y: int|
                    0 <= y < n && is_waiting(ts[y].status) && reaches_unavailable(ts, y, round + 1)
                        implies #[trigger] order.contains(y) by {
                    assert(!newly@.contains(y as usize));
                    if !reaches_unavailable(ts, y, round) {
                        assert(newly_unavailable(ts, y, round));
                        assert(round_set.contains(y as usize));
                    }
                }
                round = round + 1;
            }
        }
    }
    let mut doomed_flags: Vec<bool> = Vec::new();
    let mut x: usize = 0;
    while x < n
        invariant
            ts == tasks_view(tasks@),
            n == tasks.len(),
            unavailable.len() == n,
            x <= n,
            doomed_flags.len() == x,
            forall|y: int|
                0 <= y < x ==> (#[trigger] doomed_flags@[y] <==> (is_waiting(ts[y].status)
                    && unavailable@[y])),
        decreases n - x,
    {
        assert(ts[x as int] == tasks@[x as int]@);
        let status = tasks[x].status;
        doomed_flags.push((status == TaskStatus::Pending || status == TaskStatus::Running) && unavailable[x]);
        x = x + 1;
    }
    proof {
        lemma_block_list(ts, blocked@.map_values(|b: BlockedTask| b@), order, rounds, round);
    }
    (blocked, doomed_flags)
}

// ---------------------------------------------------------------------------
// Ordering.

/// Every dependency of task `y` had succeeded or is flagged as taken.
pub open spec fn deps_done(ts: Seq<TaskView>, taken: Seq<bool>, y: int) -> bool {
    forall|p: int|
        0 <= p < ts[y].depends_on.len() ==> {
            let j = id_index(ts, #[trigger] ts[y].depends_on[p]);
            ts[j].status == TaskStatus::Succeeded || taken[j]
        }
}

/// Every dependency of task `x` had succeeded or is flagged as taken.
fn dependencies_done(tasks: &Vec<Task>, x: usize, taken: &Vec<bool>) -> (r: bool)
    requires
        unique_ids(tasks_view(tasks@)),
        known_dependencies(tasks_view(tasks@)),
        x < tasks.len(),
        taken.len() == tasks.len(),
    ensures
        r == deps_done(tasks_view(tasks@), taken@, x as int),
{
    let ghost ts = tasks_view(tasks@);
    assert(ts[x as int] == tasks@[x as int]@);
    let mut p: usize = 0;
    while p < tasks[x].depends_on.len()
        invariant
            ts == tasks_view(tasks@),
            ts[x as int] == tasks@[x as int]@,
            unique_ids(ts),
            known_dependencies(ts),
            x < tasks.len(),
            taken.len() == tasks.len(),
            p <= tasks@[x as int].depends_on.len(),
            forall|q: int|
                0 <= q < p ==> {
                    let j = id_index(ts, #[trigger] ts[x as int].depends_on[q]);
                    ts[j].status == TaskStatus::Succeeded || taken@[j]
                },
        decreases tasks@[x as int].depends_on.len() - p,
    {
        let j = dependency_index(tasks, x, p);
        assert(ts[j as int] == tasks@[j as int]@);
        if !(tasks[j].status == TaskStatus::Succeeded || taken[j]) {
            return false;
        }
        p = p + 1;
    }
    true
}

/// The taken tasks so far: `order[k]` is the position of the `k`-th taken
/// task, taken when its dependencies were done and first in taking order
/// among the tasks that were ready then.
pub open spec fn taken_so_far(tasks: Seq<TaskView>, ordered: Seq<Seq<char>>, order: Seq<int>) -> bool {
    &&& ordered.len() == order.len()
    &&& order.no_duplicates()
    &&& forall|k: int| 0 <= k < order.len() ==> 0 <= #[trigger] order[k] < tasks.len()
    &&& forall|k: int| 0 <= k < order.len() ==> #[trigger] ordered[k] == tasks[order[k]].id
    &&& forall|k: int| 0 <= k < order.len() ==> runnable(tasks, #[trigger] order[k])
    &&& forall|k: int| 0 <= k < order.len() ==> ready_after(tasks, ordered.take(k), #[trigger] order[k])
    &&& forall|k: int, y: int|
        #![trigger order[k], tasks[y]]
        0 <= k < order.len() && 0 <= y < tasks.len() && runnable(tasks, y) && !order.take(k + 1).contains(y)
            && ready_after(tasks, ordered.take(k), y) ==> precedes(tasks[order[k]], tasks[y])
}

/// With unique IDs, readiness is decided by the dependencies' positions.
proof fn lemma_ready_by_positions(
    ts: Seq<TaskView>,
    ordered: Seq<Seq<char>>,
    order: Seq<int>,
    taken: Seq<bool>,
    y: int,
)
    requires
        unique_ids(ts),
        known_dependencies(ts),
        0 <= y < ts.len(),
        taken.len() == ts.len(),
        taken_so_far(ts, ordered, order),
        forall|z: int| 0 <= z < ts.len() ==> (#[trigger] taken[z] <==> order.contains(z)),
    ensures
        ready_after(ts, ordered, y) <==> deps_done(ts, taken, y),
{
    assert forall|p: int| 0 <= p < ts[y].depends_on.len() implies ({
        let j = id_index(ts, #[trigger] ts[y].depends_on[p]);
        (succeeded_before(ts, ts[y].depends_on[p]) || ordered.contains(ts[y].depends_on[p])) <==> (
        ts[j].status == TaskStatus::Succeeded || taken[j])
    }) by {
        let d = ts[y].depends_on[p];
        assert(has_task(ts, d));
        let j = id_index(ts, d);
        assert(ts[j].id == d);
        if succeeded_before(ts, d) {
            let w = choose|w: int| 0 <= w < ts.len() && #[trigger] ts[w].id == d && ts[w].status
                == TaskStatus::Succeeded;
            assert(w == j);
        }
        if ordered.contains(d) {
            let k = choose|k: int| 0 <= k < ordered.len() && ordered[k] == d;
            assert(ts[order[k]].id == d);
            assert(order[k] == j);
            assert(order.contains(j));
        }
        if taken[j] {
            let k = choose|k: int| 0 <= k < order.len() && order[k] == j;
            assert(ordered[k] == d);
        }
    }
}

/// The runnable tasks not yet taken whose dependencies are done.
fn ready_candidates(
    tasks: &Vec<Task>,
    doomed_flags: &Vec<bool>,
    taken: &Vec<bool>,
) -> (candidates: Vec<usize>)
    requires
        unique_ids(tasks_view(tasks@)),
        known_dependencies(tasks_view(tasks@)),
        doomed_flags.len() == tasks.len(),
        taken.len() == tasks.len(),
        forall|x: int| 0 <= x < tasks.len() ==> (#[trigger] doomed_flags@[x] <==> doomed(tasks_view(tasks@), x)),
    ensures
        candidates@.no_duplicates(),
        forall|q: int| 0 <= q < candidates.len() ==> #[trigger] candidates@[q] < tasks.len(),
        forall|y: int|
            #![trigger candidates@.contains(y as usize)]
            0 <= y < tasks.len() ==> (candidates@.contains(y as usize) <==> (runnable(
                tasks_view(tasks@),
                y,
            ) && !taken@[y] && deps_done(tasks_view(tasks@), taken@, y))),
{
    let ghost ts = tasks_view(tasks@);
    let n = tasks.len();
    let mut candidates: Vec<usize> = Vec::new();
    let mut x: usize = 0;
    while x < n
        invariant
            ts == tasks_view(tasks@),
            n == tasks.len(),
            unique_ids(ts),
            known_dependencies(ts),
            doomed_flags.len() == n,
            taken.len() == n,
            forall|z: int| 0 <= z < n ==> (#[trigger] doomed_flags@[z] <==> doomed(ts, z)),
            x <= n,
            forall|q: int| 0 <= q < candidates.len() ==> #[trigger] candidates@[q] < x,
            forall|q: int, q2: int|
                0 <= q < q2 < candidates.len() ==> #[trigger] candidates@[q] < #[trigger] candidates@[q2],
            forall|y: int|
                #![trigger candidates@.contains(y as usize)]
                0 <= y < x ==> (candidates@.contains(y as usize) <==> (runnable(ts, y) && !taken@[y]
                    && deps_done(ts, taken@, y))),
        decreases n - x,
    {
        let ghost before = candidates@;
        assert(ts[x as int] == tasks@[x as int]@);
        let status = tasks[x].status;
        let waiting = status == TaskStatus::Pending || status == TaskStatus::Running;
        let ok = waiting && !doomed_flags[x] && !taken[x] && dependencies_done(tasks, x, taken);
        assert(waiting == is_waiting(ts[x as int].status));
        assert(ok == (runnable(ts, x as int) && !taken@[x as int] && deps_done(ts, taken@, x as int)));
        if ok {
            candidates.push(x);
        }
        proof {
            assert forall|y: int|
                #![trigger candidates@.contains(y as usize)]
                0 <= y < x + 1 implies (candidates@.contains(y as usize) <==> (
            runnable(ts, y) && !taken@[y] && deps_done(ts, taken@, y))) by {
                if y < x {
                    assert(before.contains(y as usize) <==> (runnable(ts, y) && !taken@[y]
                        && deps_done(ts, taken@, y)));
                    if before.contains(y as usize) {
                        let q = choose|q: int| 0 <= q < before.len() && before[q] == y as usize;
                        assert(candidates@[q] == y as usize);
                    }
                    if candidates@.contains(y as usize) {
                        let q = choose|q: int| 0 <= q < candidates@.len() && candidates@[q] == y as usize;
                        if q < before.len() {
                            assert(before[q] == y as usize);
                        } else {
                            assert(candidates@[q] == x);
                        }
                    }
                } else {
                    assert(y == x as int);
                    if ok {
                        assert(candidates@[before.len() as int] == x);
                    } else {
                        assert(candidates@ == before);
                        if candidates@.contains(y as usize) {
                            let q = choose|q: int| 0 <= q < before.len() && before[q] == y as usize;
                            assert(before[q] < x);
                        }
                    }
                }
            }
        }
        x = x + 1;
    }
    proof {
        assert forall|a: int, b: int|
            0 <= a < candidates.len() && 0 <= b < candidates.len() && a != b implies candidates@[a]
            != candidates@[b] by {
            if a < b {
                assert(candidates@[a] < candidates@[b]);
            } else {
                assert(candidates@[b] < candidates@[a]);
            }
        }
    }
    candidates
}

/// When no runnable task that is not taken has its dependencies done, every
/// runnable task is taken: a task left over would depend on a lower-ranked
/// task left over.
proof fn lemma_no_stuck_task(ts: Seq<TaskView>, ordered: Seq<Seq<char>>, order: Seq<int>, taken: Seq<bool>)
    requires
        unique_ids(ts),
        known_dependencies(ts),
        acyclic(ts),
        taken.len() == ts.len(),
        forall|z: int| 0 <= z < ts.len() ==> (#[trigger] taken[z] <==> order.contains(z)),
        taken_so_far(ts, ordered, order),
        forall|y: int|
            0 <= y < ts.len() ==> !(runnable(ts, y) && !taken[y] && deps_done(ts, taken, y)),
    ensures
        forall|z: int| 0 <= z < ts.len() && runnable(ts, z) ==> #[trigger] taken[z],
{
    let n = ts.len() as int;
    let pred = |z: int| runnable(ts, z) && !taken[z];
    if exists|z: int| 0 <= z < n && #[trigger] pred(z) {
        let rank = choose|rank: spec_fn(int) -> nat| ranks_dependencies(ts, rank);
        lemma_least_rank(n, pred, rank);
        let y = choose|y: int| #[trigger] least_rank_at(n, pred, rank, y);
        assert(!deps_done(ts, taken, y));
        let p = choose|p: int|
            0 <= p < ts[y].depends_on.len() && !({
                let j = id_index(ts, #[trigger] ts[y].depends_on[p]);
                ts[j].status == TaskStatus::Succeeded || taken[j]
            });
        let d = ts[y].depends_on[p];
        assert(has_task(ts, d));
        let j = id_index(ts, d);
        assert(0 <= j < n && ts[j].id == d);
        assert(ts[y].depends_on.contains(ts[j].id));
        assert(depends_idx(ts, y, j));
        if is_unavailable(ts[j].status) {
            assert(reaches_unavailable(ts, j, 0));
            assert(reaches_unavailable(ts, y, 1));
            assert(doomed(ts, y));
        } else if doomed(ts, j) {
            let r = choose|r: nat| #[trigger] reaches_unavailable(ts, j, r);
            assert(reaches_unavailable(ts, y, r + 1));
            assert(doomed(ts, y));
        } else {
            assert(pred(j));
            assert(rank(j) < rank(y));
        }
    }
    assert forall|z: int| 0 <= z < ts.len() && runnable(ts, z) implies #[trigger] taken[z] by {
        if !taken[z] {
            assert(pred(z));
        }
    }
}

/// The final taken tasks form the run order.
proof fn lemma_run_order(ts: Seq<TaskView>, ordered: Seq<Seq<char>>, order: Seq<int>, taken: Seq<bool>)
    requires
        unique_ids(ts),
        taken.len() == ts.len(),
        forall|z: int| 0 <= z < ts.len() ==> (#[trigger] taken[z] <==> order.contains(z)),
        taken_so_far(ts, ordered, order),
        forall|z: int| 0 <= z < ts.len() && runnable(ts, z) ==> #[trigger] taken[z],
    ensures
        is_run_order(ts, ordered),
{
    assert forall|k: int| 0 <= k < order.len() implies id_index(ts, #[trigger] ordered[k]) == order[k] by {
        lemma_id_index(ts, order[k]);
    }
    assert(ordered.no_duplicates()) by {
        assert forall|a: int, c: int| 0 <= a < ordered.len() && 0 <= c < ordered.len() && a != c implies ordered[a] != ordered[c] by {
            assert(order[a] != order[c]);
        }
    }
    assert forall|k: int| 0 <= k < ordered.len() implies has_task(ts, #[trigger] ordered[k]) && runnable(
        ts,
        id_index(ts, ordered[k]),
    ) by {
        assert(ts[order[k]].id == ordered[k]);
    }
    assert forall|i: int| 0 <= i < ts.len() && runnable(ts, i) implies ordered.contains(#[trigger] ts[i].id) by {
        assert(taken[i]);
        let k = choose|k: int| 0 <= k < order.len() && order[k] == i;
        assert(ordered[k] == ts[i].id);
    }
    assert forall|k: int, m: int|
        0 <= k < m < ordered.len() && ready_after(
            ts,
            ordered.take(k),
            id_index(ts, #[trigger] ordered[m]),
        ) implies precedes(ts[id_index(ts, #[trigger] ordered[k])], ts[id_index(ts, ordered[m])]) by {
        let y = order[m];
        assert(!order.take(k + 1).contains(y)) by {
            if order.take(k + 1).contains(y) {
                let pre = order.take(k + 1);
                let kk = choose|kk: int| 0 <= kk < pre.len() && #[trigger] pre[kk] == y;
                assert(order[kk] == order[m]);
            }
        }
        assert(ts[y] == ts[order[m]]);
        assert(precedes(ts[order[k]], ts[y]));
    }
}

/// Takes the runnable tasks one at a time: each time the task first in taking
/// order among those whose dependencies are done.
fn order_runnable(tasks: &Vec<Task>, doomed_flags: &Vec<bool>) -> (ordered: Vec<String>)
    requires
        unique_ids(tasks_view(tasks@)),
        known_dependencies(tasks_view(tasks@)),
        acyclic(tasks_view(tasks@)),
        doomed_flags.len() == tasks.len(),
        forall|x: int| 0 <= x < tasks.len() ==> (#[trigger] doomed_flags@[x] <==> doomed(tasks_view(tasks@), x)),
    ensures
        is_run_order(tasks_view(tasks@), ordered.deep_view()),
{
    let ghost ts = tasks_view(tasks@);
    let n = tasks.len();
    let mut taken: Vec<bool> = Vec::new();
    let mut x: usize = 0;
    while x < n
        invariant
            x <= n,
            taken.len() == x,
            forall|y: int| 0 <= y < x ==> !#[trigger] taken@[y],
        decreases n - x,
    {
        taken.push(false);
        x = x + 1;
    }
    let mut ordered: Vec<String> = Vec::new();
    let ghost mut order: Seq<int> = Seq::empty();
    let mut stable = false;
    while !stable
        invariant
            ts == tasks_view(tasks@),
            n == tasks.len(),
            unique_ids(ts),
            known_dependencies(ts),
            acyclic(ts),
            doomed_flags.len() == n,
            forall|z: int| 0 <= z < n ==> (#[trigger] doomed_flags@[z] <==> doomed(ts, z)),
            taken.len() == n,
            forall|z: int| 0 <= z < n ==> (#[trigger] taken@[z] <==> order.contains(z)),
            taken_so_far(ts, ordered.deep_view(), order),
            order.len() <= n,
            stable ==> forall|z: int| 0 <= z < n && runnable(ts, z) ==> #[trigger] taken@[z],
        decreases n - order.len() + (if stable { 0int } else { 1int }),
    {
        let candidates = ready_candidates(tasks, doomed_flags, &taken);
        if candidates.len() == 0 {
            proof {
                assert forall|y: int|
                    0 <= y < n implies !(runnable(ts, y) && !taken@[y] && deps_done(ts, taken@, y)) by {
                    assert(!candidates@.contains(y as usize));
                }
                lemma_no_stuck_task(ts, ordered.deep_view(), order, taken@);
            }
            stable = true;
        } else {
            let b = pick_first(tasks, &candidates);
            let y = candidates[b];
            let ghost before_order = order;
            let ghost before_ordered = ordered.deep_view();
            proof {
                lemma_ready_by_positions(ts, before_ordered, before_order, taken@, y as int);
                let yi: int = y as int;
                assert(candidates@.contains(yi as usize));
                assert(!taken@[y as int]);
            }
            let ghost before_taken = taken@;
            taken.set(y, true);
            assert(ts[y as int] == tasks@[y as int]@);
            ordered.push(tasks[y].id.clone());
            proof {
                order = order.push(y as int);
                let ov = ordered.deep_view();
                assert(ov == before_ordered.push(ts[y as int].id));
                assert(!before_order.contains(y as int));
                assert forall|z: int| 0 <= z < n implies (#[trigger] taken@[z] <==> order.contains(z)) by {
                    if before_order.contains(z) {
                        let k = choose|k: int| 0 <= k < before_order.len() && before_order[k] == z;
                        assert(order[k] == z);
                    }
                    if order.contains(z) && z != y as int {
                        let k = choose|k: int| 0 <= k < order.len() && order[k] == z;
                        assert(before_order[k] == z);
                    }
                    if z == y as int {
                        assert(order[order.len() - 1] == z);
                    }
                }
                assert(order.no_duplicates()) by {
                    assert forall|a: int, c: int| 0 <= a < order.len() && 0 <= c < order.len() && a != c implies order[a] != order[c] by {
                        if a < order.len() - 1 && c < order.len() - 1 {
                            assert(before_order[a] != before_order[c]);
                        } else if a < order.len() - 1 {
                            assert(before_order.contains(order[a]));
                        } else if c < order.len() - 1 {
                            assert(before_order.contains(order[c]));
                        }
                    }
                }
                assert forall|k: int| 0 <= k < order.len() implies #[trigger] ov.take(k) == before_ordered.take(k) || k == order.len() - 1 by {
                    if k < order.len() - 1 {
                        assert(ov.take(k) =~= before_ordered.take(k));
                    }
                }
                assert(ov.take(order.len() - 1) =~= before_ordered);
                assert forall|k: int| 0 <= k < order.len() implies #[trigger] order.take(k + 1) == before_order.take(k + 1) || k == order.len() - 1 by {
                    if k < order.len() - 1 {
                        assert(order.take(k + 1) =~= before_order.take(k + 1));
                    }
                }
                assert(order.take(order.len() as int) =~= order);
                assert forall|k: int, z: int|
                    #![trigger order[k], ts[z]]
                    0 <= k < order.len() && 0 <= z < ts.len() && runnable(ts, z) && !order.take(k + 1).contains(z)
                        && ready_after(ts, ov.take(k), z) implies precedes(ts[order[k]], ts[z]) by {
                    if k == order.len() - 1 {
                        assert(!order.contains(z));
                        assert(!before_order.contains(z)) by {
                            if before_order.contains(z) {
                                let kk = choose|kk: int| 0 <= kk < before_order.len() && before_order[kk] == z;
                                assert(order[kk] == z);
                            }
                        }
                        lemma_ready_by_positions(ts, before_ordered, before_order, before_taken, z);
                        assert(candidates@.contains(z as usize));
                        let q = choose|q: int| 0 <= q < candidates@.len() && candidates@[q] == z as usize;
                        assert(order[order.len() - 1] == y as int);
                        assert(z != y as int);
                        assert(q != b);
                    } else {
                        assert(order.take(k + 1) == before_order.take(k + 1));
                        assert(ov.take(k) == before_ordered.take(k));
                        assert(precedes(ts[before_order[k]], ts[z]));
                    }
                }
                crate::validate::lemma_path_bounded(order, n as int);
            }
        }
    }
    proof {
        lemma_run_order(ts, ordered.deep_view(), order, taken@);
    }
    ordered
}

// ---------------------------------------------------------------------------
// The plan.

/// Plans a queue. A valid queue always has a plan: its blocked list holds
/// exactly the waiting tasks that transitively depend on a failed or blocked
/// task, and its order holds every other waiting task, each after its
/// dependencies, taken by priority (highest first), then creation time
/// (earliest first), then ID among the tasks whose dependencies are done.
/// An invalid queue gets the error that validation reports.
pub fn build_execution_plan(queue: &Queue) -> (r: Result<ExecutionPlan, QueueError>)
    ensures
        r is Ok <==> queue_is_valid(queue@),
        r matches Ok(plan) ==> is_run_order(queue@.tasks, plan@.ordered_ids) && is_block_list(
            queue@.tasks,
            plan@.blocked,
        ),
        crate::validate::structural_issue(queue@) matches Some(m) ==> (r matches Err(
            QueueError::Validation(e),
        ) && e@ == m),
        crate::validate::structural_issue(queue@) is None && !acyclic(queue@.tasks) ==> (r matches Err(
            QueueError::Validation(e),
        ) && exists|id: Seq<char>|
            e@ == crate::validate::cycle_message(id) && crate::queue::on_cycle(queue@.tasks, id)),
        crate::validate::structural_issue(queue@) is None && !acyclic(queue@.tasks) ==> (r matches Err(
            QueueError::Validation(e),
        ) && crate::validate::cycle_report(queue@.tasks, e@)),
{
    validate_queue(queue)?;
    proof {
        lemma_structurally_sound(queue@);
    }
    let (blocked, doomed_flags) = block_doomed(&queue.tasks);
    let ordered_ids = order_runnable(&queue.tasks, &doomed_flags);
    Ok(ExecutionPlan { ordered_ids, blocked })
}

} // verus!
