//! What callers see of each operation of the engine: who ends up in which
//! status, what a task holds, and which edges there are.
use crate::engine::{
    answer, cancel_outcome, depend_outcome, remove_outcome, start_outcome, update_outcome, TaskGuard,
};
use crate::error::{EngineError, ErrorModel};
use crate::invariants::{
    edge_fits, lemma_blocked_on_edges, lemma_holds_last, lemma_unsatisfied_finite, members_of, pair_fits, status_fits,
    waiting_fits, StatusClass,
};
use crate::laws::{after, after_run, allowed, allowed_run, law_counters_exact, Op};
use crate::model::{
    after_create, after_finish, after_remove, blocked_on, blocking_path, blocks, cancelled_all, cascade, clamped,
    creatable, created, edge_has_id, finished, finished_by, initial, leads, lemma_blocked_on_frame,
    lemma_cancelled_all_frame, new_task, numbers_of, parent_of, relieved, set_at, unlinked, unsatisfied_set, waits,
    walk, woken, woken_all, EngineModel,
};
use crate::sound::sound;
use crate::types::{
    Dependency, EdgeId, EdgeKind, SpecModel, Task, TaskId, TaskModel, TaskResult, TaskSpec, TaskStatus, WorkerId,
};
use vstd::prelude::*;

verus! {

// Creating.

/// A new task holds the spec that it was created from, whole and unchanged,
/// under the id and the time of the creation. It is ready exactly if each of its
/// dependencies is a task that has completed, and its in-degree is the number of
/// those that are not. Ready tasks are offered, and the status is announced.
pub proof fn law_create_holds_spec(
    s: EngineModel,
    id: u128,
    now: u64,
    spec: SpecModel,
    r: Result<TaskId, ErrorModel>,
    t: EngineModel,
)
    requires
        creatable(s, spec),
        created(s, id, now, spec, r, t),
        r is Ok,
    ensures
        r == Ok::<TaskId, ErrorModel>(TaskId(id)),
        !s.shutdown,
        !s.tasks.contains_key(id),
        t.tasks.dom() == s.tasks.dom().insert(id),
        t.tasks[id].id == TaskId(id),
        t.tasks[id].spec == spec,
        t.tasks[id].created_at == now,
        t.tasks[id].updated_at == now,
        t.tasks[id].seq == s.seq,
        spec.parent != Some(TaskId(id)) ==> t.tasks[id].child_count == 0,
        t.tasks[id].edge_in_degree == Set::new(
            |d: u128|
                spec.blocking_on.contains(TaskId(d)) && !(s.tasks.contains_key(d)
                    && s.tasks[d].status is Completed),
        ).len(),
        (forall|d: TaskId| #[trigger]
            spec.blocking_on.contains(d) ==> s.tasks.contains_key(d.0) && s.tasks[d.0].status is Completed) ==> {
            &&& t.tasks[id].status == TaskStatus::Ready
            &&& t.ready == s.ready.push(TaskId(id))
        },
        (exists|d: TaskId| #[trigger]
            spec.blocking_on.contains(d) && !(s.tasks.contains_key(d.0) && s.tasks[d.0].status is Completed)) ==> {
            &&& t.tasks[id].status == TaskStatus::Pending
            &&& t.ready == s.ready
        },
        t.events == s.events.push((TaskId(id), t.tasks[id].status, s.seq)),
        t.shutdown == s.shutdown,
        s.seq + 2 + spec.blocking_on.len() <= u64::MAX ==> t.seq == s.seq + 1 + spec.blocking_on.len() + (
        if spec.parent is Some {
            1int
        } else {
            0
        }),
{
    let deps = spec.blocking_on;
    let stored = s.numbered().with_task(id, new_task(s, id, now, spec));
    lemma_blocked_on_frame(stored, id, s.seq, deps);
    lemma_blocked_on_numbers(stored, id, s.seq, deps);
    lemma_unsatisfied_finite(s, deps);
    let waiting = unsatisfied_set(s, deps);
    assert(waiting =~= Set::new(
        |d: u128| deps.contains(TaskId(d)) && !(s.tasks.contains_key(d) && s.tasks[d].status is Completed),
    ));
    assert(t.tasks.dom() =~= s.tasks.dom().insert(id));
    if forall|d: TaskId| #[trigger]
        deps.contains(d) ==> s.tasks.contains_key(d.0) && s.tasks[d.0].status is Completed {
        assert(waiting =~= Set::empty());
    }
    if exists|d: TaskId| #[trigger]
        deps.contains(d) && !(s.tasks.contains_key(d.0) && s.tasks[d.0].status is Completed) {
        let d = choose|d: TaskId| #[trigger]
            deps.contains(d) && !(s.tasks.contains_key(d.0) && s.tasks[d.0].status is Completed);
        assert(waiting.contains(d.0));
    }
}

/// The edges of a new task take a number each.
proof fn lemma_blocked_on_numbers(s: EngineModel, id: u128, seq: u64, deps: Seq<TaskId>)
    ensures
        s.seq + deps.len() <= u64::MAX ==> blocked_on(s, id, seq, deps).seq == s.seq + deps.len(),
    decreases deps.len(),
{
    if deps.len() > 0 {
        lemma_blocked_on_numbers(s, id, seq, deps.drop_last());
    }
}

/// Creating a task changes no other task, except that its parent has one child
/// more. Each dependency gets a blocking edge to the new task, and so the task
/// waits for each that has not completed; the parent gets a parent edge, or
/// shares the blocking edge that leads from it. No other edge is added, changed
/// or lost.
#[verifier::rlimit(40)]
pub proof fn law_create_links(
    s: EngineModel,
    id: u128,
    now: u64,
    spec: SpecModel,
    r: Result<TaskId, ErrorModel>,
    t: EngineModel,
)
    requires
        sound(s),
        creatable(s, spec),
        created(s, id, now, spec, r, t),
        r is Ok,
    ensures
        forall|x: u128| #[trigger]
            s.tasks.contains_key(x) && spec.parent != Some(TaskId(x)) ==> t.tasks[x] == s.tasks[x],
        forall|x: u128| #[trigger]
            s.tasks.contains_key(x) && spec.parent == Some(TaskId(x)) ==> s.tasks[x].child_count < u16::MAX
                && t.tasks[x] == (TaskModel { child_count: (s.tasks[x].child_count + 1) as u16, ..s.tasks[x] }),
        forall|d: TaskId| #[trigger]
            spec.blocking_on.contains(d) ==> {
                &&& t.edges.contains_key((d.0, id))
                &&& t.edges[(d.0, id)].kind == EdgeKind::Blocking
                &&& t.edges[(d.0, id)].from == d
                &&& t.edges[(d.0, id)].to == TaskId(id)
                &&& t.edges[(d.0, id)].seq == s.seq
                &&& !(s.tasks.contains_key(d.0) && s.tasks[d.0].status is Completed) ==> t.pending.contains_key(id)
                    && t.pending[id].contains(d.0)
            },
        spec.parent matches Some(p) ==> {
            &&& t.edges.contains_key((p.0, id))
            &&& t.edges[(p.0, id)].from == p
            &&& t.edges[(p.0, id)].to == TaskId(id)
            &&& t.edges[(p.0, id)].seq == s.seq
            &&& !spec.blocking_on.contains(p) ==> t.edges[(p.0, id)].kind == EdgeKind::Parent
            &&& spec.blocking_on.contains(p) ==> t.joint.contains_key(p.0) && t.joint[p.0].contains(id)
        },
        forall|key: (u128, u128)| #[trigger]
            t.edges.contains_key(key) && key.1 == id ==> spec.blocking_on.contains(TaskId(key.0)) || spec.parent
                == Some(TaskId(key.0)),
        forall|key: (u128, u128)| key.1 != id ==> #[trigger] t.edges.contains_key(key) == s.edges.contains_key(key),
        forall|key: (u128, u128)| #[trigger] s.edges.contains_key(key) ==> t.edges[key] == s.edges[key],
{
    let deps = spec.blocking_on;
    let stored = s.numbered().with_task(id, new_task(s, id, now, spec));
    let linked = blocked_on(stored, id, s.seq, deps);
    lemma_blocked_on_frame(stored, id, s.seq, deps);
    lemma_blocked_on_edges(stored, id, s.seq, deps);
    assert forall|key: (u128, u128)| #[trigger] s.edges.contains_key(key) implies key.1 != id && t.edges[key]
        == s.edges[key] by {
        assert(edge_fits(s, key));
        assert(stored.edges.contains_key(key));
        assert(linked.edges[key] == stored.edges[key]);
    }
    assert forall|key: (u128, u128)| key.1 != id implies #[trigger] t.edges.contains_key(key)
        == s.edges.contains_key(key) by {
        assert(linked.edges.contains_key(key) <==> stored.edges.contains_key(key));
    }
    assert forall|key: (u128, u128)| #[trigger] t.edges.contains_key(key) && key.1 == id implies deps.contains(
        TaskId(key.0),
    ) || spec.parent == Some(TaskId(key.0)) by {
        assert(linked.edges.contains_key(key) <==> stored.edges.contains_key(key) || deps.contains(TaskId(key.0)));
        assert(!s.edges.contains_key(key)) by {
            if s.edges.contains_key(key) {
                assert(edge_fits(s, key));
            }
        }
    }
    assert forall|d: TaskId| #[trigger] deps.contains(d) implies {
        &&& linked.edges.contains_key((d.0, id))
        &&& t.edges[(d.0, id)].kind == EdgeKind::Blocking
        &&& t.edges[(d.0, id)].from == d
        &&& t.edges[(d.0, id)].to == TaskId(id)
        &&& t.edges[(d.0, id)].seq == s.seq
        &&& !(s.tasks.contains_key(d.0) && s.tasks[d.0].status is Completed) ==> t.pending.contains_key(id)
            && t.pending[id].contains(d.0)
    } by {
        let key = (d.0, id);
        assert(TaskId(key.0) == d);
        assert(linked.edges.contains_key(key) <==> stored.edges.contains_key(key) || deps.contains(TaskId(key.0)));
        assert(linked.edges[key].kind is Blocking);
        if !s.completed(d.0) {
            assert(unsatisfied_set(s, deps).contains(d.0));
        }
    }
    if let Some(p) = spec.parent {
        let key = (p.0, id);
        assert(TaskId(key.0) == p);
        assert(linked.edges.contains_key(key) <==> stored.edges.contains_key(key) || deps.contains(TaskId(key.0)));
        assert(!s.edges.contains_key(key));
    }
}

/// Why a creation is refused, and when it is not: during a shutdown; then under
/// an id that is in use; then where a chain of blocking edges leads from the id
/// to one of the dependencies, which the answer names. A refusal changes
/// nothing.
#[verifier::rlimit(40)]
pub proof fn law_create_refused(
    s: EngineModel,
    id: u128,
    now: u64,
    spec: SpecModel,
    r: Result<TaskId, ErrorModel>,
    t: EngineModel,
)
    requires
        created(s, id, now, spec, r, t),
    ensures
        r is Err ==> t == s,
        s.shutdown ==> r == Err::<TaskId, ErrorModel>(ErrorModel::EngineShuttingDown),
        !s.shutdown && s.tasks.contains_key(id) ==> r == Err::<TaskId, ErrorModel>(
            ErrorModel::AlreadyExists(TaskId(id)),
        ),
        !s.shutdown && !s.tasks.contains_key(id) && r is Err ==> {
            &&& r matches Err(ErrorModel::CycleDetected { path })
            &&& path.len() > 0
            &&& spec.blocking_on.contains(path[0])
            &&& path.last() == TaskId(id)
            &&& forall|i: int|
                0 <= i < path.len() - 1 ==> s.edges.contains_key((path[i + 1].0, (#[trigger] path[i]).0))
                    && s.edges[(path[i + 1].0, path[i].0)].kind is Blocking
        },
        r is Ok ==> forall|path: Seq<TaskId>|
            path.len() > 0 && spec.blocking_on.contains(#[trigger] path[0]) && path.last() == TaskId(id) ==> exists|
                i: int,
            |
                0 <= i < path.len() - 1 && !(s.edges.contains_key((path[i + 1].0, (#[trigger] path[i]).0))
                    && s.edges[(path[i + 1].0, path[i].0)].kind is Blocking),
{
    if !s.shutdown && !s.tasks.contains_key(id) {
        if r is Err {
            let path = r->Err_0->path;
            let i = choose|i: int|
                0 <= i < spec.blocking_on.len() && leads(s, path, (#[trigger] spec.blocking_on[i]).0, id);
            lemma_leads_inline(s, path, spec.blocking_on[i].0, id);
        } else {
            assert forall|path: Seq<TaskId>|
                path.len() > 0 && spec.blocking_on.contains(#[trigger] path[0]) && path.last() == TaskId(
                    id,
                ) implies exists|i: int|
                0 <= i < path.len() - 1 && !(s.edges.contains_key((path[i + 1].0, (#[trigger] path[i]).0))
                    && s.edges[(path[i + 1].0, path[i].0)].kind is Blocking) by {
                let k = choose|k: int| 0 <= k < spec.blocking_on.len() && spec.blocking_on[k] == path[0];
                lemma_no_path_inline(s, path);
                assert(!blocking_path(s, spec.blocking_on[k].0, id));
            }
        }
    }
}

/// A way along what blocks what is a chain of blocking edges.
proof fn lemma_leads_inline(s: EngineModel, path: Seq<TaskId>, a: u128, b: u128)
    requires
        leads(s, path, a, b),
    ensures
        path.len() > 0,
        path[0] == TaskId(a),
        path.last() == TaskId(b),
        forall|i: int|
            0 <= i < path.len() - 1 ==> s.edges.contains_key((path[i + 1].0, (#[trigger] path[i]).0))
                && s.edges[(path[i + 1].0, path[i].0)].kind is Blocking,
{
    let numbers = numbers_of(path);
    assert forall|i: int| 0 <= i < path.len() - 1 implies s.edges.contains_key(
        (path[i + 1].0, (#[trigger] path[i]).0),
    ) && s.edges[(path[i + 1].0, path[i].0)].kind is Blocking by {
        assert(blocks(s, numbers[i + 1], numbers[i]));
    }
}

/// A chain of blocking edges is a way along what blocks what.
proof fn lemma_no_path_inline(s: EngineModel, path: Seq<TaskId>)
    requires
        path.len() > 0,
    ensures
        !blocking_path(s, path[0].0, path.last().0) ==> exists|i: int|
            0 <= i < path.len() - 1 && !(s.edges.contains_key((path[i + 1].0, (#[trigger] path[i]).0))
                && s.edges[(path[i + 1].0, path[i].0)].kind is Blocking),
{
    let numbers = numbers_of(path);
    if forall|i: int|
        0 <= i < path.len() - 1 ==> s.edges.contains_key((path[i + 1].0, (#[trigger] path[i]).0)) && s.edges[(
            path[i + 1].0,
            path[i].0,
        )].kind is Blocking {
        assert forall|i: int| 0 <= i < numbers.len() - 1 implies blocks(s, numbers[i + 1], #[trigger] numbers[i]) by {
            assert(path[i].0 == numbers[i]);
        }
        assert(walk(s, numbers) && numbers[0] == path[0].0 && numbers.last() == path.last().0);
    }
}

// Starting.

/// A start is granted exactly if the engine is not shutting down and the task is
/// there and ready. Then that task runs for the given worker, as of the given
/// time, with everything else about it as it was, and so is every other task
/// and every edge; the guard names the task and the worker, and the change is
/// announced once.
pub proof fn law_start_runs(
    s: EngineModel,
    id: TaskId,
    worker: WorkerId,
    now: u64,
    r: Result<TaskGuard, EngineError>,
    t: EngineModel,
)
    requires
        start_outcome(s, id, worker, now, r, t),
    ensures
        r is Ok <==> !s.shutdown && s.tasks.contains_key(id.0) && s.tasks[id.0].status == TaskStatus::Ready,
        r matches Ok(guard) ==> {
            &&& guard.task_id() == id
            &&& guard.worker() == worker
            &&& !guard.done()
            &&& t.tasks == s.tasks.insert(
                id.0,
                TaskModel {
                    status: TaskStatus::Running { worker_id: worker },
                    updated_at: now,
                    seq: s.seq,
                    ..s.tasks[id.0]
                },
            )
            &&& t.edges == s.edges
            &&& t.pending == s.pending
            &&& t.dependents == s.dependents
            &&& t.joint == s.joint
            &&& t.ready == s.ready
            &&& t.shutdown == s.shutdown
            &&& t.events.len() == s.events.len() + 1
            &&& t.events.drop_last() == s.events
            &&& t.events.last().0 == id
            &&& t.events.last().1 == (TaskStatus::Running { worker_id: worker })
            &&& s.seq + 2 <= u64::MAX ==> t.seq == s.seq + 2
        },
{
    assert(r is Ok ==> t.events.drop_last() =~= s.events);
}

/// Why a start is refused: during a shutdown; then because there is no such
/// task; then because the task runs, which the answer says for whom; then
/// because it is in another status than ready. A refusal changes nothing.
pub proof fn law_start_refused(
    s: EngineModel,
    id: TaskId,
    worker: WorkerId,
    now: u64,
    r: Result<TaskGuard, EngineError>,
    t: EngineModel,
)
    requires
        start_outcome(s, id, worker, now, r, t),
    ensures
        r is Err ==> t == s,
        s.shutdown ==> r matches Err(EngineError::EngineShuttingDown),
        !s.shutdown && !s.tasks.contains_key(id.0) ==> r == Err::<TaskGuard, EngineError>(EngineError::NotFound(id)),
        !s.shutdown && s.tasks.contains_key(id.0) ==> match s.tasks[id.0].status {
            TaskStatus::Ready => r is Ok,
            TaskStatus::Running { worker_id } => r == Err::<TaskGuard, EngineError>(
                EngineError::AlreadyRunning { id, worker: worker_id },
            ),
            other => r matches Err(EngineError::InvalidTransition { id: i, from, attempted }) && i == id && from
                == other && attempted@ == "start"@,
        },
{
    if let Err(e) = r {
        law_error_values(e);
    }
}

/// An error and its value are of the same kind and hold the same things.
pub proof fn law_error_values(e: EngineError)
    ensures
        match e {
            EngineError::NotFound(id) => e@ == ErrorModel::NotFound(id),
            EngineError::AlreadyExists(id) => e@ == ErrorModel::AlreadyExists(id),
            EngineError::InvalidTransition { id, from, attempted } => e@ == (ErrorModel::InvalidTransition {
                id,
                from,
                attempted: attempted@,
            }),
            EngineError::CycleDetected { path } => e@ == (ErrorModel::CycleDetected { path: path@ }),
            EngineError::AlreadyRunning { id, worker } => e@ == (ErrorModel::AlreadyRunning { id, worker }),
            EngineError::Cancelled(id) => e@ == ErrorModel::Cancelled(id),
            EngineError::EngineShuttingDown => e@ == ErrorModel::EngineShuttingDown,
            EngineError::CorruptJournal(seq) => e@ == ErrorModel::CorruptJournal(seq),
            EngineError::Internal(text) => e@ == ErrorModel::Internal(text@),
            EngineError::NoInstance(text) => e@ == ErrorModel::NoInstance(text@),
            EngineError::TransportError(text) => e@ == ErrorModel::TransportError(text@),
        },
{
}

// Completing.

/// What waking dependents does to one task, and to what is offered and
/// announced.
#[verifier::rlimit(40)]
proof fn lemma_woken_all_exact(s: EngineModel, id: u128, order: Seq<u128>, now: u64, x: u128)
    requires
        order.no_duplicates(),
        s.tasks.contains_key(x),
    ensures
        ({
            let t = woken_all(s, id, order, now);
            let task = s.tasks[x];
            let rest = s.pending[x].remove(id);
            let free = rest =~= Set::empty() && task.status is Pending;
            &&& t.tasks.dom() == s.tasks.dom()
            &&& t.edges == s.edges
            &&& t.joint == s.joint
            &&& t.dependents == s.dependents
            &&& t.shutdown == s.shutdown
            &&& !order.contains(x) ==> {
                &&& t.tasks[x] == task
                &&& t.pending.contains_key(x) == s.pending.contains_key(x)
                &&& t.pending[x] == s.pending[x]
            }
            &&& order.contains(x) && !waits(s, x, id) ==> t.tasks[x] == task
            &&& order.contains(x) && waits(s, x, id) && !free ==> t.tasks[x] == (TaskModel {
                edge_in_degree: clamped(rest.len()),
                ..task
            })
            &&& order.contains(x) && waits(s, x, id) && free ==> {
                &&& t.tasks[x] == (TaskModel {
                    status: TaskStatus::Ready,
                    updated_at: now,
                    edge_in_degree: 0,
                    seq: t.tasks[x].seq,
                    ..task
                })
                &&& t.ready.contains(TaskId(x))
            }
            &&& s.ready.len() <= t.ready.len()
            &&& s.ready == t.ready.take(s.ready.len() as int)
            &&& t.events.len() - s.events.len() == t.ready.len() - s.ready.len()
            &&& t.events.len() - s.events.len() <= order.len()
            &&& s.seq + 2 * order.len() <= u64::MAX ==> t.seq == s.seq + 2 * (t.events.len() - s.events.len())
        }),
    decreases order.len(),
{
    if order.len() > 0 {
        let shorter = order.drop_last();
        let last = order.last();
        assert(shorter.no_duplicates());
        lemma_woken_all_exact(s, id, shorter, now, x);
        let m = woken_all(s, id, shorter, now);
        let t = woken_all(s, id, order, now);
        assert(t == woken(m, id, last, now));
        assert(t.tasks.dom() =~= m.tasks.dom());
        lemma_holds_last(order, x);
        if x == last && shorter.contains(x) {
            let k = choose|k: int| 0 <= k < shorter.len() && shorter[k] == x;
            assert(order[k] == order[order.len() - 1]);
        }
        assert(s.ready =~= t.ready.take(s.ready.len() as int)) by {
            assert forall|k: int| 0 <= k < s.ready.len() implies s.ready[k] == t.ready[k] by {
                assert(m.ready.take(s.ready.len() as int)[k] == m.ready[k]);
            }
        }
        if m.ready.contains(TaskId(x)) {
            let k = choose|k: int| 0 <= k < m.ready.len() && m.ready[k] == TaskId(x);
            assert(t.ready[k] == TaskId(x));
        }
        if x == last && waits(m, x, id) && m.pending[x].remove(id) =~= Set::empty() && m.tasks[x].status is Pending {
            assert(t.ready[m.ready.len() as int] == TaskId(x));
        }
    } else {
        assert(s.ready =~= s.ready.take(s.ready.len() as int));
    }
}

/// Completing a task that runs leaves it completed with exactly the given
/// result, as of the given time, and otherwise as it was. Completing a task that
/// does not run changes nothing.
pub proof fn law_complete_records_result(
    s: EngineModel,
    id: TaskId,
    result: TaskResult,
    now: u64,
    order: Seq<u128>,
    t: EngineModel,
)
    requires
        sound(s),
        finished(s, id, result, now, order, t),
    ensures
        !(s.tasks.contains_key(id.0) && s.tasks[id.0].status is Running) ==> t == s,
        s.tasks.contains_key(id.0) && s.tasks[id.0].status is Running ==> {
            &&& t.tasks.dom() == s.tasks.dom()
            &&& t.tasks[id.0] == (TaskModel {
                status: TaskStatus::Completed { result },
                updated_at: now,
                seq: s.seq,
                ..s.tasks[id.0]
            })
            &&& t.edges == s.edges
            &&& t.joint == s.joint
            &&& t.shutdown == s.shutdown
            &&& s.ready.len() <= t.ready.len()
            &&& s.ready == t.ready.take(s.ready.len() as int)
            &&& t.events.len() == s.events.len() + 1 + (t.ready.len() - s.ready.len())
            &&& s.seq + 2 + 2 * order.len() <= u64::MAX ==> t.seq == s.seq + 2 * (t.events.len() - s.events.len())
        },
{
    if s.running(id.0) {
        let m = after_finish(s, id, result, now);
        assert(pair_fits(s, id.0, id.0));
        assert(status_fits(s, id.0));
        assert(!waits(m, id.0, id.0));
        assert(m.tasks.dom() =~= s.tasks.dom());
        lemma_woken_all_exact(m, id.0, order, now, id.0);
    }
}

/// What completing a running task does to each other task `x`. If no blocking
/// edge leads to `x` from the task, or `x` has completed, nothing. Otherwise
/// what `x` waits for is one less, and its in-degree says so; and if `x` is
/// pending and every other start of a blocking edge to it has completed, `x`
/// becomes ready and is offered. Nothing else about `x` changes.
#[verifier::rlimit(40)]
pub proof fn law_complete_wakes(
    s: EngineModel,
    id: TaskId,
    result: TaskResult,
    now: u64,
    order: Seq<u128>,
    t: EngineModel,
    x: u128,
)
    requires
        sound(s),
        finished(s, id, result, now, order, t),
        s.tasks.contains_key(id.0),
        s.tasks[id.0].status is Running,
        s.tasks.contains_key(x),
        x != id.0,
    ensures
        ({
            let waiting = s.edges.contains_key((id.0, x)) && s.edges[(id.0, x)].kind is Blocking
                && !(s.tasks[x].status is Completed);
            let free = forall|p: u128| #[trigger]
                s.edges.contains_key((p, x)) && s.edges[(p, x)].kind is Blocking && p != id.0
                    ==> s.tasks.contains_key(p) && s.tasks[p].status is Completed;
            &&& !waiting ==> t.tasks[x] == s.tasks[x]
            &&& waiting && free && s.tasks[x].status is Pending ==> {
                &&& t.tasks[x] == (TaskModel {
                    status: TaskStatus::Ready,
                    updated_at: now,
                    edge_in_degree: 0,
                    seq: t.tasks[x].seq,
                    ..s.tasks[x]
                })
                &&& t.ready.contains(TaskId(x))
            }
            &&& waiting && !(free && s.tasks[x].status is Pending) ==> {
                &&& t.tasks[x] == (TaskModel { edge_in_degree: t.tasks[x].edge_in_degree, ..s.tasks[x] })
                &&& s.tasks[x].edge_in_degree < u16::MAX ==> t.tasks[x].edge_in_degree == s.tasks[x].edge_in_degree
                    - 1
            }
        }),
{
    let m = after_finish(s, id, result, now);
    assert(status_fits(s, x));
    assert(pair_fits(s, x, id.0));
    lemma_woken_all_exact(m, id.0, order, now, x);
    assert(waits(m, x, id.0) == waits(s, x, id.0));
    assert(m.tasks[x] == s.tasks[x]);
    if waits(s, x, id.0) {
        assert(order.to_set().contains(x));
        assert(waiting_fits(s, x));
        let rest = s.pending[x].remove(id.0);
        assert(rest.len() == s.pending[x].len() - 1);
        if forall|p: u128| #[trigger]
            s.edges.contains_key((p, x)) && s.edges[(p, x)].kind is Blocking && p != id.0 ==> s.tasks.contains_key(p)
                && s.tasks[p].status is Completed {
            assert forall|p: u128| !rest.contains(p) by {
                if rest.contains(p) {
                    assert(pair_fits(s, x, p));
                    assert(s.edges.contains_key((p, x)));
                }
            }
            assert(rest =~= Set::empty());
        } else {
            let p = choose|p: u128| #[trigger]
                s.edges.contains_key((p, x)) && s.edges[(p, x)].kind is Blocking && p != id.0 && !(
                s.tasks.contains_key(p) && s.tasks[p].status is Completed);
            assert(pair_fits(s, x, p));
            assert(rest.contains(p));
        }
    }
}

/// A guard has an effect exactly while its worker runs its task: then the task
/// completes with the given result; otherwise nothing happens.
pub proof fn law_guard_acts_for_its_worker(
    s: EngineModel,
    worker: WorkerId,
    id: TaskId,
    result: TaskResult,
    now: u64,
    order: Seq<u128>,
    t: EngineModel,
)
    requires
        sound(s),
        finished_by(s, worker, id, result, now, order, t),
    ensures
        s.tasks.contains_key(id.0) && s.tasks[id.0].status == (TaskStatus::Running { worker_id: worker })
            ==> t.tasks[id.0].status == (TaskStatus::Completed { result }) && t.tasks[id.0].updated_at == now,
        !(s.tasks.contains_key(id.0) && s.tasks[id.0].status == (TaskStatus::Running { worker_id: worker })) ==> t
            == s,
{
    if s.runs(worker, id.0) {
        law_complete_records_result(s, id, result, now, order, t);
    }
}

// Cancelling.

/// Cancelling is granted exactly if the engine is not shutting down and the task
/// is there and neither completed nor cancelled. Otherwise the answer says which
/// of these it is, and nothing changes.
pub proof fn law_cancel_refused(
    s: EngineModel,
    id: TaskId,
    reason: u32,
    now: u64,
    r: Result<(), EngineError>,
    t: EngineModel,
)
    requires
        cancel_outcome(s, id, reason, now, r, t),
    ensures
        r is Err ==> t == s,
        s.shutdown ==> r matches Err(EngineError::EngineShuttingDown),
        !s.shutdown && !s.tasks.contains_key(id.0) ==> r == Err::<(), EngineError>(EngineError::NotFound(id)),
        !s.shutdown && s.tasks.contains_key(id.0) ==> match s.tasks[id.0].status {
            TaskStatus::Pending => r is Ok,
            TaskStatus::Ready => r is Ok,
            TaskStatus::Running { worker_id } => r is Ok,
            other => r matches Err(EngineError::InvalidTransition { id: i, from, attempted }) && i == id && from
                == other && attempted@ == "cancel"@,
        },
{
    if let Err(e) = r {
        law_error_values(e);
    }
}

/// What one task is after some were cancelled.
proof fn lemma_cancelled_all_exact(s: EngineModel, order: Seq<u128>, reason: u32, now: u64, x: u128)
    requires
        order.no_duplicates(),
        forall|i: int| 0 <= i < order.len() ==> s.tasks.contains_key(#[trigger] order[i]),
        s.tasks.contains_key(x),
    ensures
        ({
            let t = cancelled_all(s, order, reason, now);
            &&& order.contains(x) ==> t.tasks[x] == (TaskModel {
                status: TaskStatus::Cancelled { reason },
                updated_at: now,
                seq: t.tasks[x].seq,
                ..s.tasks[x]
            })
            &&& !order.contains(x) ==> t.tasks[x] == s.tasks[x]
        }),
    decreases order.len(),
{
    if order.len() > 0 {
        let shorter = order.drop_last();
        assert forall|i: int| 0 <= i < shorter.len() implies s.tasks.contains_key(#[trigger] shorter[i]) by {
            assert(shorter[i] == order[i]);
        }
        lemma_cancelled_all_exact(s, shorter, reason, now, x);
        lemma_cancelled_all_frame(s, shorter, reason, now);
        lemma_holds_last(order, x);
        assert(s.tasks.contains_key(order[order.len() - 1]));
        if x == order.last() && shorter.contains(x) {
            let k = choose|k: int| 0 <= k < shorter.len() && shorter[k] == x;
            assert(order[k] == order[order.len() - 1]);
        }
    }
}

/// A chain of parent links through pending and running tasks, in a cascade.
#[verifier::rlimit(40)]
proof fn lemma_chain_in_cascade(s: EngineModel, id: u128, order: Seq<u128>, path: Seq<u128>, n: int)
    requires
        cascade(s, id, order),
        path.len() > 0,
        path[0] == id,
        forall|i: int, j: int|
            #![trigger path[i], path[j]]
            0 <= i && j == i + 1 && j < path.len() ==> {
                let (a, b) = (path[i], path[j]);
                &&& s.edges.contains_key((a, b))
                &&& s.edges[(a, b)].kind == EdgeKind::Parent || (s.joint.contains_key(a) && s.joint[a].contains(b))
                &&& s.tasks.contains_key(b)
                &&& s.tasks[b].status is Pending || s.tasks[b].status is Running
            },
        0 <= n < path.len(),
    ensures
        order.contains(path[n]),
    decreases n,
{
    if n == 0 {
        assert(order[0] == id);
    } else {
        lemma_chain_in_cascade(s, id, order, path, n - 1);
        let k = choose|k: int| 0 <= k < order.len() && order[k] == path[n - 1];
        assert(s.edges.contains_key((path[n - 1], path[n])));
        assert(parent_of(s, order[k], path[n]));
        assert(s.cascades_to(path[n]));
    }
}

/// An entry of a cascade is the end of a chain of parent links through pending
/// and running tasks.
#[verifier::rlimit(40)]
proof fn lemma_cascade_chain(s: EngineModel, id: u128, order: Seq<u128>, n: int) -> (path: Seq<u128>)
    requires
        cascade(s, id, order),
        0 <= n < order.len(),
    ensures
        path.len() > 0,
        path[0] == id,
        path.last() == order[n],
        forall|i: int, j: int|
            #![trigger path[i], path[j]]
            0 <= i && j == i + 1 && j < path.len() ==> {
                let (a, b) = (path[i], path[j]);
                &&& s.edges.contains_key((a, b))
                &&& s.edges[(a, b)].kind == EdgeKind::Parent || (s.joint.contains_key(a) && s.joint[a].contains(b))
                &&& s.tasks.contains_key(b)
                &&& s.tasks[b].status is Pending || s.tasks[b].status is Running
            },
    decreases n,
{
    if n == 0 {
        seq![id]
    } else {
        assert(s.cascades_to(order[n]));
        let k = choose|k: int| 0 <= k < n && #[trigger] parent_of(s, order[k], order[n]);
        let shorter = lemma_cascade_chain(s, id, order, k);
        let path = shorter.push(order[n]);
        assert forall|i: int, j: int|
            #![trigger path[i], path[j]]
            0 <= i && j == i + 1 && j < path.len() implies {
            let (a, b) = (path[i], path[j]);
            &&& s.edges.contains_key((a, b))
            &&& s.edges[(a, b)].kind == EdgeKind::Parent || (s.joint.contains_key(a) && s.joint[a].contains(b))
            &&& s.tasks.contains_key(b)
            &&& s.tasks[b].status is Pending || s.tasks[b].status is Running
        } by {
            if j < shorter.len() {
                assert(path[i] == shorter[i] && path[j] == shorter[j]);
            } else {
                assert(path[i] == order[k] && path[j] == order[n]);
            }
        }
        path
    }
}

/// A cancellation cancels the task and everything below it: each task that a
/// chain of parent edges leads to through tasks that are pending or running,
/// whatever else is known of them. All of them have the given reason and time,
/// and are otherwise as they were.
#[verifier::rlimit(40)]
pub proof fn law_cancel_cascades(
    s: EngineModel,
    id: TaskId,
    reason: u32,
    now: u64,
    r: Result<(), EngineError>,
    t: EngineModel,
    path: Seq<u128>,
)
    requires
        cancel_outcome(s, id, reason, now, r, t),
        r is Ok,
        path.len() > 0,
        path[0] == id.0,
        forall|i: int, j: int|
            #![trigger path[i], path[j]]
            0 <= i && j == i + 1 && j < path.len() ==> {
                let (a, b) = (path[i], path[j]);
                &&& s.edges.contains_key((a, b))
                &&& s.edges[(a, b)].kind == EdgeKind::Parent || (s.joint.contains_key(a) && s.joint[a].contains(b))
                &&& s.tasks.contains_key(b)
                &&& s.tasks[b].status is Pending || s.tasks[b].status is Running
            },
    ensures
        forall|i: int|
            0 <= i < path.len() ==> t.tasks[#[trigger] path[i]] == (TaskModel {
                status: TaskStatus::Cancelled { reason },
                updated_at: now,
                seq: t.tasks[path[i]].seq,
                ..s.tasks[path[i]]
            }),
{
    let order = choose|order: Seq<u128>| #[trigger]
        cascade(s, id.0, order) && t == cancelled_all(s, order, reason, now);
    lemma_cascade_tasks(s, id.0, order);
    assert forall|i: int| 0 <= i < path.len() implies t.tasks[#[trigger] path[i]] == (TaskModel {
        status: TaskStatus::Cancelled { reason },
        updated_at: now,
        seq: t.tasks[path[i]].seq,
        ..s.tasks[path[i]]
    }) by {
        lemma_chain_in_cascade(s, id.0, order, path, i);
        let k = choose|k: int| 0 <= k < order.len() && order[k] == path[i];
        assert(s.tasks.contains_key(order[k]));
        lemma_cancelled_all_exact(s, order, reason, now, path[i]);
    }
}

/// How much cancelling announces and numbers.
proof fn lemma_cancelled_all_numbers(s: EngineModel, order: Seq<u128>, reason: u32, now: u64)
    ensures
        ({
            let t = cancelled_all(s, order, reason, now);
            &&& t.events.len() == s.events.len() + 2 * order.len()
            &&& s.seq + 3 * order.len() <= u64::MAX ==> t.seq == s.seq + 3 * order.len()
        }),
    decreases order.len(),
{
    if order.len() > 0 {
        lemma_cancelled_all_numbers(s, order.drop_last(), reason, now);
    }
}

/// The entries of a cascade are tasks.
proof fn lemma_cascade_tasks(s: EngineModel, id: u128, order: Seq<u128>)
    requires
        s.tasks.contains_key(id),
        cascade(s, id, order),
    ensures
        forall|i: int| 0 <= i < order.len() ==> s.tasks.contains_key(#[trigger] order[i]),
{
    assert forall|i: int| 0 <= i < order.len() implies s.tasks.contains_key(#[trigger] order[i]) by {
        if i > 0 {
            assert(s.cascades_to(order[i]));
        }
    }
}

/// A cancellation takes along each child of the task that is pending or running.
pub proof fn law_cancel_takes_children(
    s: EngineModel,
    id: TaskId,
    reason: u32,
    now: u64,
    r: Result<(), EngineError>,
    t: EngineModel,
)
    requires
        cancel_outcome(s, id, reason, now, r, t),
        r is Ok,
    ensures
        t.tasks[id.0].status == (TaskStatus::Cancelled { reason }),
        forall|c: u128|
            {
                &&& #[trigger] s.edges.contains_key((id.0, c))
                &&& s.edges[(id.0, c)].kind == EdgeKind::Parent
                &&& s.tasks.contains_key(c)
                &&& s.tasks[c].status is Pending || s.tasks[c].status is Running
            } ==> t.tasks[c].status == (TaskStatus::Cancelled { reason }),
{
    let first = seq![id.0];
    law_cancel_cascades(s, id, reason, now, r, t, first);
    assert(t.tasks[first[0]].status == (TaskStatus::Cancelled { reason }));
    assert forall|c: u128|
        {
            &&& #[trigger] s.edges.contains_key((id.0, c))
            &&& s.edges[(id.0, c)].kind == EdgeKind::Parent
            &&& s.tasks.contains_key(c)
            &&& s.tasks[c].status is Pending || s.tasks[c].status is Running
        } implies t.tasks[c].status == (TaskStatus::Cancelled { reason }) by {
        let path = seq![id.0, c];
        law_cancel_cascades(s, id, reason, now, r, t, path);
        assert(t.tasks[path[1]].status == (TaskStatus::Cancelled { reason }));
    }
}

/// A cancellation touches nothing but what it cancels: a task that is not as it
/// was is the end of a chain of parent edges from the task that was cancelled,
/// through tasks that were pending or running. No edge changes, nobody waits for
/// less, and nothing becomes ready. Each change is announced twice.
#[verifier::rlimit(40)]
pub proof fn law_cancel_spares(
    s: EngineModel,
    id: TaskId,
    reason: u32,
    now: u64,
    r: Result<(), EngineError>,
    t: EngineModel,
    x: u128,
)
    requires
        cancel_outcome(s, id, reason, now, r, t),
        r is Ok,
        s.tasks.contains_key(x),
    ensures
        t.tasks.dom() == s.tasks.dom(),
        t.edges == s.edges,
        t.pending == s.pending,
        t.dependents == s.dependents,
        t.joint == s.joint,
        t.ready == s.ready,
        t.shutdown == s.shutdown,
        exists|order: Seq<u128>|
            {
                &&& #[trigger] order.no_duplicates()
                &&& forall|y: u128| #[trigger]
                    order.contains(y) <==> s.tasks.contains_key(y) && t.tasks[y].status != s.tasks[y].status
                &&& t.events.len() == s.events.len() + 2 * order.len()
                &&& s.seq + 3 * order.len() <= u64::MAX ==> t.seq == s.seq + 3 * order.len()
            },
        t.tasks[x] != s.tasks[x] ==> exists|path: Seq<u128>|
            {
                &&& path.len() > 0
                &&& #[trigger] path[0] == id.0
                &&& path.last() == x
                &&& forall|i: int, j: int|
                    #![trigger path[i], path[j]]
                    0 <= i && j == i + 1 && j < path.len() ==> {
                        let (a, b) = (path[i], path[j]);
                        &&& s.edges.contains_key((a, b))
                        &&& s.edges[(a, b)].kind == EdgeKind::Parent || (s.joint.contains_key(a)
                            && s.joint[a].contains(b))
                        &&& s.tasks.contains_key(b)
                        &&& s.tasks[b].status is Pending || s.tasks[b].status is Running
                    }
            },
{
    let order = choose|order: Seq<u128>| #[trigger]
        cascade(s, id.0, order) && t == cancelled_all(s, order, reason, now);
    lemma_cascade_tasks(s, id.0, order);
    lemma_cancelled_all_frame(s, order, reason, now);
    lemma_cancelled_all_numbers(s, order, reason, now);
    assert forall|y: u128| #[trigger] order.contains(y) <==> s.tasks.contains_key(y) && t.tasks[y].status
        != s.tasks[y].status by {
        if order.contains(y) {
            let k = choose|k: int| 0 <= k < order.len() && order[k] == y;
            assert(s.tasks.contains_key(order[k]));
            assert(k > 0 ==> s.cascades_to(order[k]));
            assert(t.tasks[y].status == (TaskStatus::Cancelled { reason }));
        } else if s.tasks.contains_key(y) {
            assert(t.tasks[y] == s.tasks[y]);
        }
    }
    assert(order.no_duplicates());
    if t.tasks[x] != s.tasks[x] {
        assert(order.contains(x));
        let n = choose|n: int| 0 <= n < order.len() && order[n] == x;
        let path = lemma_cascade_chain(s, id.0, order, n);
        assert(path[0] == id.0);
    }
}

/// A task that was created as a child goes down with its parent, if it still
/// waits for something, for however many tasks it waits.
pub proof fn law_cancel_takes_new_child(
    s: EngineModel,
    id: u128,
    now: u64,
    spec: SpecModel,
    c: Result<TaskId, ErrorModel>,
    m: EngineModel,
    parent: TaskId,
    reason: u32,
    later: u64,
    r: Result<(), EngineError>,
    t: EngineModel,
)
    requires
        sound(s),
        creatable(s, spec),
        created(s, id, now, spec, c, m),
        c is Ok,
        spec.parent == Some(parent),
        exists|d: TaskId| #[trigger]
            spec.blocking_on.contains(d) && !(s.tasks.contains_key(d.0) && s.tasks[d.0].status is Completed),
        cancel_outcome(m, parent, reason, later, r, t),
        r is Ok,
    ensures
        t.tasks[id].status == (TaskStatus::Cancelled { reason }),
        t.tasks[id].spec == spec,
{
    law_create_holds_spec(s, id, now, spec, c, m);
    law_create_links(s, id, now, spec, c, m);
    let path = seq![parent.0, id];
    law_cancel_cascades(m, parent, reason, later, r, t, path);
    assert(t.tasks[path[1]].status == (TaskStatus::Cancelled { reason }));
    assert(t.tasks[path[1]].spec == m.tasks[path[1]].spec);
}

// Adding a dependency.

/// A new edge is stored as it was asked for: between these two tasks, of this
/// kind, under the id that is answered. Every other edge stays.
pub proof fn law_depend_stores_edge(
    s: EngineModel,
    from: TaskId,
    to: TaskId,
    kind: EdgeKind,
    now: u64,
    r: Result<EdgeId, EngineError>,
    t: EngineModel,
)
    requires
        depend_outcome(s, from, to, kind, now, r, t),
        r is Ok,
    ensures
        r == Ok::<EdgeId, EngineError>(EdgeId(s.seq)),
        s.seq < u64::MAX ==> t.edges == s.edges.insert(
            (from.0, to.0),
            Dependency { id: EdgeId(s.seq), from, to, kind, seq: (s.seq + 1) as u64 },
        ),
        t.edges.contains_key((from.0, to.0)),
        t.edges[(from.0, to.0)].id == EdgeId(s.seq),
        t.edges[(from.0, to.0)].from == from,
        t.edges[(from.0, to.0)].to == to,
        t.edges[(from.0, to.0)].kind == kind,
        forall|key: (u128, u128)| #[trigger]
            t.edges.contains_key(key) <==> s.edges.contains_key(key) || key == (from.0, to.0),
        forall|key: (u128, u128)| #[trigger] s.edges.contains_key(key) ==> t.edges[key] == s.edges[key],
        t.joint == s.joint,
        t.ready == s.ready,
        t.shutdown == s.shutdown,
{
}

/// A blocking edge between two tasks of which neither has completed makes its
/// end wait for its start, whatever the start is doing: an end that was ready or
/// running is pending afterwards, a pending one stays so, and a cancelled one
/// stays cancelled. Any other edge leaves its end as it was. No other task
/// changes.
#[verifier::rlimit(40)]
pub proof fn law_depend_makes_wait(
    s: EngineModel,
    from: TaskId,
    to: TaskId,
    kind: EdgeKind,
    now: u64,
    r: Result<EdgeId, EngineError>,
    t: EngineModel,
)
    requires
        sound(s),
        depend_outcome(s, from, to, kind, now, r, t),
        r is Ok,
    ensures
        t.tasks.dom() == s.tasks.dom(),
        forall|x: u128| #[trigger] s.tasks.contains_key(x) && x != to.0 ==> t.tasks[x] == s.tasks[x],
        kind == EdgeKind::Blocking && !(s.tasks[from.0].status is Completed) && !(s.tasks[to.0].status is Completed)
            ==> {
            &&& t.pending.contains_key(to.0)
            &&& t.pending[to.0].contains(from.0)
            &&& s.tasks[to.0].edge_in_degree < u16::MAX ==> t.tasks[to.0].edge_in_degree
                == s.tasks[to.0].edge_in_degree + 1
            &&& match s.tasks[to.0].status {
                TaskStatus::Pending => t.events == s.events && t.tasks[to.0] == (TaskModel {
                    edge_in_degree: t.tasks[to.0].edge_in_degree,
                    ..s.tasks[to.0]
                }),
                TaskStatus::Cancelled { reason } => t.events == s.events && t.tasks[to.0] == (TaskModel {
                    edge_in_degree: t.tasks[to.0].edge_in_degree,
                    ..s.tasks[to.0]
                }),
                _ => {
                    &&& t.tasks[to.0] == (TaskModel {
                        status: TaskStatus::Pending,
                        updated_at: now,
                        seq: t.tasks[to.0].seq,
                        edge_in_degree: t.tasks[to.0].edge_in_degree,
                        ..s.tasks[to.0]
                    })
                    &&& t.events.len() == s.events.len() + 2
                    &&& t.events.take(s.events.len() as int) == s.events
                    &&& t.events[s.events.len() as int].0 == to
                    &&& t.events[s.events.len() as int].1 == TaskStatus::Pending
                    &&& t.events.last().0 == to
                    &&& t.events.last().1 == TaskStatus::Pending
                },
            }
        },
        s.seq + 5 <= u64::MAX ==> t.seq == s.seq + (if t.events.len() > s.events.len() {
            5int
        } else {
            2
        }),
        !(kind == EdgeKind::Blocking && !(s.tasks[from.0].status is Completed) && !(
        s.tasks[to.0].status is Completed)) ==> t.tasks == s.tasks && t.pending == s.pending && t.events == s.events,
{
    assert(t.tasks.dom() =~= s.tasks.dom());
    assert(status_fits(s, to.0));
    assert(pair_fits(s, to.0, from.0));
    if s.pending.contains_key(to.0) {
        assert(waiting_fits(s, to.0));
    }
    if kind is Blocking && !s.completed(from.0) && !s.completed(to.0) {
        assert(!waits(s, to.0, from.0));
        let before = set_at(s.pending, to.0);
        assert(before.finite());
        assert(before.insert(from.0).len() == before.len() + 1);
    }
    assert(t.events.take(s.events.len() as int) =~= s.events);
}

/// A task that was made to wait cannot be started: not while the task it waits
/// for is anything but completed.
pub proof fn law_depend_stops_start(
    s: EngineModel,
    from: TaskId,
    to: TaskId,
    now: u64,
    r: Result<EdgeId, EngineError>,
    m: EngineModel,
    worker: WorkerId,
    later: u64,
    g: Result<TaskGuard, EngineError>,
    t: EngineModel,
)
    requires
        sound(s),
        depend_outcome(s, from, to, EdgeKind::Blocking, now, r, m),
        r is Ok,
        !(s.tasks[from.0].status is Completed),
        start_outcome(m, to, worker, later, g, t),
    ensures
        g is Err,
        t == m,
{
    law_depend_makes_wait(s, from, to, EdgeKind::Blocking, now, r, m);
    law_start_runs(m, to, worker, later, g, t);
}

/// Why an edge is refused, and when it is not: during a shutdown; then if one of
/// its ends is not there, the start first; then if an edge joins the two
/// already; then, if it blocks, where a chain of blocking edges leads from its
/// end to its start, which the answer names. A refusal changes nothing.
#[verifier::rlimit(40)]
pub proof fn law_depend_refused(
    s: EngineModel,
    from: TaskId,
    to: TaskId,
    kind: EdgeKind,
    now: u64,
    r: Result<EdgeId, EngineError>,
    t: EngineModel,
)
    requires
        depend_outcome(s, from, to, kind, now, r, t),
    ensures
        r is Err ==> t == s,
        s.shutdown ==> r matches Err(EngineError::EngineShuttingDown),
        !s.shutdown && !s.tasks.contains_key(from.0) ==> r == Err::<EdgeId, EngineError>(EngineError::NotFound(from)),
        !s.shutdown && s.tasks.contains_key(from.0) && !s.tasks.contains_key(to.0) ==> r == Err::<
            EdgeId,
            EngineError,
        >(EngineError::NotFound(to)),
        ({
            let present = !s.shutdown && s.tasks.contains_key(from.0) && s.tasks.contains_key(to.0);
            let joined = s.edges.contains_key((from.0, to.0));
            &&& present && joined ==> r == Err::<EdgeId, EngineError>(EngineError::AlreadyExists(to))
            &&& present && !joined && kind != EdgeKind::Blocking ==> r is Ok
            &&& present && !joined && r is Err ==> {
                &&& r matches Err(EngineError::CycleDetected { path })
                &&& path@.len() > 0
                &&& path@[0] == from
                &&& path@.last() == to
                &&& forall|i: int|
                    0 <= i < path@.len() - 1 ==> s.edges.contains_key((path@[i + 1].0, (#[trigger] path@[i]).0))
                        && s.edges[(path@[i + 1].0, path@[i].0)].kind is Blocking
            }
            &&& r is Ok && kind == EdgeKind::Blocking ==> forall|path: Seq<TaskId>|
                path.len() > 0 && #[trigger] path[0] == from && path.last() == to ==> exists|i: int|
                    0 <= i < path.len() - 1 && !(s.edges.contains_key((path[i + 1].0, (#[trigger] path[i]).0))
                        && s.edges[(path[i + 1].0, path[i].0)].kind is Blocking)
        }),
{
    if let Err(e) = r {
        law_error_values(e);
        if let EngineError::CycleDetected { path } = e {
            if !s.shutdown && s.tasks.contains_key(from.0) && s.tasks.contains_key(to.0) && !s.edges.contains_key(
                (from.0, to.0),
            ) {
                lemma_leads_inline(s, path@, from.0, to.0);
            }
        }
    } else if kind is Blocking {
        assert forall|path: Seq<TaskId>|
            path.len() > 0 && #[trigger] path[0] == from && path.last() == to implies exists|i: int|
            0 <= i < path.len() - 1 && !(s.edges.contains_key((path[i + 1].0, (#[trigger] path[i]).0))
                && s.edges[(path[i + 1].0, path[i].0)].kind is Blocking) by {
            lemma_no_path_inline(s, path);
        }
    }
}

// Removing a dependency.

/// Removing by an id that no edge has is answered with that; otherwise one edge
/// with the id goes, and no other, and with it what made its end a child of its
/// start.
pub proof fn law_remove_takes_edge(
    s: EngineModel,
    edge_id: EdgeId,
    now: u64,
    r: Result<(), EngineError>,
    t: EngineModel,
)
    requires
        remove_outcome(s, edge_id, now, r, t),
    ensures
        (forall|key: (u128, u128)| #[trigger] s.edges.contains_key(key) ==> s.edges[key].id != edge_id) ==> r == Err::<
            (),
            EngineError,
        >(EngineError::NotFound(TaskId(edge_id.0 as u128))) && t == s,
        (exists|key: (u128, u128)| #[trigger] s.edges.contains_key(key) && s.edges[key].id == edge_id) ==> {
            &&& r is Ok
            &&& t.shutdown == s.shutdown
            &&& exists|key: (u128, u128)| #[trigger]
                s.edges.contains_key(key) && s.edges[key].id == edge_id && t.edges == s.edges.remove(key) && !(
                t.joint.contains_key(key.0) && t.joint[key.0].contains(key.1))
        },
{
    if exists|key: (u128, u128)| #[trigger] s.edges.contains_key(key) && s.edges[key].id == edge_id {
        let any = choose|key: (u128, u128)| #[trigger] s.edges.contains_key(key) && s.edges[key].id == edge_id;
        assert(edge_has_id(s, any, edge_id));
        let key = choose|key: (u128, u128)| #[trigger]
            edge_has_id(s, key, edge_id) && t == after_remove(s, key, now);
        assert(s.edges.contains_key(key));
    } else {
        assert forall|key: (u128, u128)| !#[trigger] edge_has_id(s, key, edge_id) by {}
        if let Err(e) = r {
            law_error_values(e);
        }
    }
}

/// What removing the edge under `key` does to tasks, where no two edges share an
/// id. A blocking edge of which neither end has completed is no longer waited
/// for: the in-degree of its end falls by one, and a pending end that waits for
/// nothing else becomes ready and is offered. Any other edge goes without
/// effect. No other task changes.
#[verifier::rlimit(40)]
pub proof fn law_remove_frees(
    s: EngineModel,
    key: (u128, u128),
    now: u64,
    r: Result<(), EngineError>,
    t: EngineModel,
)
    requires
        sound(s),
        s.edges.contains_key(key),
        forall|k: (u128, u128)| #[trigger] s.edges.contains_key(k) && k != key ==> s.edges[k].id != s.edges[key].id,
        remove_outcome(s, s.edges[key].id, now, r, t),
    ensures
        r is Ok,
        t.edges == s.edges.remove(key),
        t.tasks.dom() == s.tasks.dom(),
        forall|x: u128| #[trigger] s.tasks.contains_key(x) && x != key.1 ==> t.tasks[x] == s.tasks[x],
        ({
            let (from, to) = key;
            let waiting = s.edges[key].kind is Blocking && !(s.tasks.contains_key(from)
                && s.tasks[from].status is Completed) && !(s.tasks[to].status is Completed);
            let free = forall|p: u128| #[trigger]
                s.edges.contains_key((p, to)) && s.edges[(p, to)].kind is Blocking && p != from
                    ==> s.tasks.contains_key(p) && s.tasks[p].status is Completed;
            &&& s.tasks.contains_key(to)
            &&& !waiting ==> t.tasks == s.tasks && t.ready == s.ready && t.events == s.events
            &&& waiting && free && s.tasks[to].status is Pending ==> {
                &&& t.tasks[to] == (TaskModel {
                    status: TaskStatus::Ready,
                    updated_at: now,
                    edge_in_degree: 0,
                    seq: t.tasks[to].seq,
                    ..s.tasks[to]
                })
                &&& t.ready == s.ready.push(TaskId(to))
                &&& t.events.len() == s.events.len() + 1
                &&& t.events.drop_last() == s.events
                &&& t.events.last().0 == TaskId(to)
                &&& t.events.last().1 == TaskStatus::Ready
            }
            &&& s.seq + 2 <= u64::MAX ==> t.seq == s.seq + 2 * (t.events.len() - s.events.len())
            &&& waiting && !(free && s.tasks[to].status is Pending) ==> {
                &&& t.tasks[to] == (TaskModel { edge_in_degree: t.tasks[to].edge_in_degree, ..s.tasks[to] })
                &&& s.tasks[to].edge_in_degree < u16::MAX ==> t.tasks[to].edge_in_degree
                    == s.tasks[to].edge_in_degree - 1
                &&& t.ready == s.ready
                &&& t.events == s.events
            }
        }),
{
    let (from, to) = key;
    let edge_id = s.edges[key].id;
    assert(edge_has_id(s, key, edge_id));
    let k = choose|k: (u128, u128)| #[trigger] edge_has_id(s, k, edge_id) && t == after_remove(s, k, now);
    assert(s.edges.contains_key(k));
    assert(k == key);
    assert(edge_fits(s, key));
    assert(pair_fits(s, to, from));
    assert(status_fits(s, to));
    let u = unlinked(s, key);
    assert(t.tasks.dom() =~= s.tasks.dom());
    if s.edges[key].kind is Blocking && waits(s, to, from) {
        assert(t == relieved(u, from, to, now));
        assert(waiting_fits(s, to));
        let rest = s.pending[to].remove(from);
        assert(rest.len() == s.pending[to].len() - 1);
        if forall|p: u128| #[trigger]
            s.edges.contains_key((p, to)) && s.edges[(p, to)].kind is Blocking && p != from ==> s.tasks.contains_key(
                p,
            ) && s.tasks[p].status is Completed {
            assert forall|p: u128| !rest.contains(p) by {
                if rest.contains(p) {
                    assert(pair_fits(s, to, p));
                    assert(s.edges.contains_key((p, to)));
                }
            }
            assert(rest =~= Set::empty());
        } else {
            let p = choose|p: u128| #[trigger]
                s.edges.contains_key((p, to)) && s.edges[(p, to)].kind is Blocking && p != from && !(
                s.tasks.contains_key(p) && s.tasks[p].status is Completed);
            assert(pair_fits(s, to, p));
            assert(rest.contains(p));
        }
        if t.events.len() > s.events.len() {
            assert(t.events.drop_last() =~= s.events);
        }
    }
}

// Reports.

/// A report is recorded as the operation that it is about. That a task has
/// completed: if it runs, it is completed with the reported result; otherwise
/// the report is refused. That a worker runs it: as a start by that worker. That
/// it was cancelled: as a cancellation with that reason. Any other report is
/// answered by whether there is such a task, and changes nothing.
pub proof fn law_update_records(
    s: EngineModel,
    id: TaskId,
    status: TaskStatus,
    now: u64,
    r: Result<(), EngineError>,
    t: EngineModel,
)
    requires
        sound(s),
        update_outcome(s, id, status, now, r, t),
    ensures
        !s.tasks.contains_key(id.0) && !(s.shutdown && (status is Running || status is Cancelled)) ==> r == Err::<
            (),
            EngineError,
        >(EngineError::NotFound(id)),
        s.shutdown && (status is Running || status is Cancelled) ==> r matches Err(EngineError::EngineShuttingDown),
        r is Err ==> t == s,
        match status {
            TaskStatus::Completed { result } => {
                &&& r is Ok <==> s.tasks.contains_key(id.0) && s.tasks[id.0].status is Running
                &&& r is Ok ==> t.tasks[id.0].status == (TaskStatus::Completed { result })
                &&& r is Ok ==> t.tasks[id.0].updated_at == now
                &&& s.tasks.contains_key(id.0) && r is Err ==> (r matches Err(
                    EngineError::InvalidTransition { id: i, from, attempted },
                ) && i == id && from == s.tasks[id.0].status && attempted@ == "complete"@)
            },
            TaskStatus::Running { worker_id } => {
                &&& r is Ok <==> !s.shutdown && s.tasks.contains_key(id.0) && s.tasks[id.0].status
                    == TaskStatus::Ready
                &&& r is Ok ==> t.tasks[id.0].status == (TaskStatus::Running { worker_id })
            },
            TaskStatus::Cancelled { reason } => {
                &&& r is Ok <==> !s.shutdown && s.tasks.contains_key(id.0) && !(s.tasks[id.0].status is Completed)
                    && !(s.tasks[id.0].status is Cancelled)
                &&& r is Ok ==> t.tasks[id.0].status == (TaskStatus::Cancelled { reason })
            },
            _ => t == s && (r is Ok <==> s.tasks.contains_key(id.0)),
        },
{
    if let Err(e) = r {
        law_error_values(e);
    }
    match status {
        TaskStatus::Completed { result } => {
            let order = choose|order: Seq<u128>| #[trigger] finished(s, id, result, now, order, t);
            law_complete_records_result(s, id, result, now, order, t);
        },
        TaskStatus::Cancelled { reason } => {
            law_cancel_refused(s, id, reason, now, r, t);
            if r is Ok {
                let path = seq![id.0];
                law_cancel_cascades(s, id, reason, now, r, t, path);
                assert(t.tasks[path[0]].status == (TaskStatus::Cancelled { reason }));
            }
        },
        _ => {},
    }
}

/// A report that a task runs, was completed or was cancelled leaves behind what
/// the start, the completion or the cancellation that it is about would have.
pub proof fn law_update_is_the_operation(
    s: EngineModel,
    id: TaskId,
    status: TaskStatus,
    now: u64,
    r: Result<(), EngineError>,
    t: EngineModel,
)
    requires
        update_outcome(s, id, status, now, r, t),
    ensures
        status matches TaskStatus::Completed { result } ==> exists|order: Seq<u128>| #[trigger]
            finished(s, id, result, now, order, t),
        status matches TaskStatus::Running { worker_id } ==> forall|g: Result<TaskGuard, EngineError>, m: EngineModel|
         #[trigger]
            start_outcome(s, id, worker_id, now, g, m) ==> m == t && (g is Ok <==> r is Ok),
        status matches TaskStatus::Cancelled { reason } ==> cancel_outcome(s, id, reason, now, r, t),
{
}

// Every operation.

/// No operation changes what a task is to do, whose it is or when it was
/// created: its id, its spec and the time of its creation stay for good. No
/// operation loses a task, and only a creation adds one.
pub proof fn law_step_keeps_tasks(s: EngineModel, op: Op, x: u128)
    requires
        allowed(s, op),
    ensures
        s.tasks.contains_key(x) ==> {
            let t = after(s, op);
            &&& t.tasks.contains_key(x)
            &&& t.tasks[x].id == s.tasks[x].id
            &&& t.tasks[x].spec == s.tasks[x].spec
            &&& t.tasks[x].created_at == s.tasks[x].created_at
        },
        !s.tasks.contains_key(x) && after(s, op).tasks.contains_key(x) ==> (op matches Op::Create { id, now, spec }
            && id == TaskId(x)),
{
    let t = after(s, op);
    match op {
        Op::Create { id, now, spec } => {
            let stored = s.numbered().with_task(id.0, new_task(s, id.0, now, spec));
            lemma_blocked_on_frame(stored, id.0, s.seq, spec.blocking_on);
        },
        Op::Finish { id, result, now, order } => {
            let m = after_finish(s, id, result, now);
            assert(m.tasks.dom() =~= s.tasks.dom());
            lemma_woken_all_exact(m, id.0, order, now, id.0);
            if s.tasks.contains_key(x) {
                lemma_woken_all_exact(m, id.0, order, now, x);
            }
        },
        Op::Cancel { id, reason, now, order } => {
            lemma_cascade_tasks(s, id.0, order);
            lemma_cancelled_all_frame(s, order, reason, now);
            if s.tasks.contains_key(x) {
                lemma_cancelled_all_exact(s, order, reason, now, x);
            }
        },
        _ => {},
    }
}

/// What waking dependents announces and offers: tasks that are ready.
proof fn lemma_woken_all_announces(s: EngineModel, id: u128, order: Seq<u128>, now: u64)
    requires
        order.no_duplicates(),
    ensures
        ({
            let t = woken_all(s, id, order, now);
            &&& t.tasks.dom() == s.tasks.dom()
            &&& s.events.len() <= t.events.len()
            &&& s.ready.len() <= t.ready.len()
            &&& forall|k: int|
                s.events.len() <= k < t.events.len() ==> {
                    let (x, status, _) = #[trigger] t.events[k];
                    order.contains(x.0) && t.tasks.contains_key(x.0) && status == TaskStatus::Ready
                        && t.tasks[x.0].status == status
                }
            &&& forall|k: int|
                s.ready.len() <= k < t.ready.len() ==> {
                    let x = #[trigger] t.ready[k];
                    order.contains(x.0) && t.tasks.contains_key(x.0) && t.tasks[x.0].status == TaskStatus::Ready
                }
        }),
    decreases order.len(),
{
    if order.len() > 0 {
        let shorter = order.drop_last();
        let last = order.last();
        assert(shorter.no_duplicates());
        lemma_woken_all_announces(s, id, shorter, now);
        let m = woken_all(s, id, shorter, now);
        let t = woken_all(s, id, order, now);
        assert(t == woken(m, id, last, now));
        assert(t.tasks.dom() =~= m.tasks.dom());
        lemma_holds_last(order, last);
        assert(!shorter.contains(last)) by {
            if shorter.contains(last) {
                let k = choose|k: int| 0 <= k < shorter.len() && shorter[k] == last;
                assert(order[k] == order[order.len() - 1]);
            }
        }
        assert forall|k: int| s.events.len() <= k < t.events.len() implies {
            let (x, status, _) = #[trigger] t.events[k];
            order.contains(x.0) && t.tasks.contains_key(x.0) && status == TaskStatus::Ready && t.tasks[x.0].status
                == status
        } by {
            if k < m.events.len() {
                assert(t.events[k] == m.events[k]);
                lemma_holds_last(order, m.events[k].0.0);
            }
        }
        assert forall|k: int| s.ready.len() <= k < t.ready.len() implies {
            let x = #[trigger] t.ready[k];
            order.contains(x.0) && t.tasks.contains_key(x.0) && t.tasks[x.0].status == TaskStatus::Ready
        } by {
            if k < m.ready.len() {
                assert(t.ready[k] == m.ready[k]);
                lemma_holds_last(order, m.ready[k].0);
            }
        }
    }
}

/// What cancelling announces: tasks that are cancelled.
proof fn lemma_cancelled_all_announces(s: EngineModel, order: Seq<u128>, reason: u32, now: u64)
    requires
        forall|i: int| 0 <= i < order.len() ==> s.tasks.contains_key(#[trigger] order[i]),
    ensures
        ({
            let t = cancelled_all(s, order, reason, now);
            &&& s.events.len() + 2 * order.len() == t.events.len()
            &&& forall|k: int|
                s.events.len() <= k < t.events.len() ==> {
                    let (x, status, _) = #[trigger] t.events[k];
                    order.contains(x.0) && status == (TaskStatus::Cancelled { reason })
                }
        }),
    decreases order.len(),
{
    if order.len() > 0 {
        let shorter = order.drop_last();
        assert forall|i: int| 0 <= i < shorter.len() implies s.tasks.contains_key(#[trigger] shorter[i]) by {
            assert(shorter[i] == order[i]);
        }
        lemma_cancelled_all_announces(s, shorter, reason, now);
        let m = cancelled_all(s, shorter, reason, now);
        let t = cancelled_all(s, order, reason, now);
        lemma_holds_last(order, order.last());
        assert forall|k: int| s.events.len() <= k < t.events.len() implies {
            let (x, status, _) = #[trigger] t.events[k];
            order.contains(x.0) && status == (TaskStatus::Cancelled { reason })
        } by {
            if k < m.events.len() {
                assert(t.events[k] == m.events[k]);
                lemma_holds_last(order, m.events[k].0.0);
            }
        }
    }
}

/// Nothing untrue is announced or offered: what an operation announces is the
/// status that the task has afterwards, and what it offers is ready.
#[verifier::rlimit(40)]
pub proof fn law_step_announces_truth(s: EngineModel, op: Op)
    requires
        sound(s),
        allowed(s, op),
    ensures
        ({
            let t = after(s, op);
            &&& forall|k: int|
                s.events.len() <= k < t.events.len() ==> {
                    let (x, status, _) = #[trigger] t.events[k];
                    t.tasks.contains_key(x.0) && t.tasks[x.0].status == status
                }
            &&& forall|k: int|
                s.ready.len() <= k < t.ready.len() ==> {
                    let x = #[trigger] t.ready[k];
                    t.tasks.contains_key(x.0) && t.tasks[x.0].status == TaskStatus::Ready
                }
        }),
{
    let t = after(s, op);
    match op {
        Op::Create { id, now, spec } => {
            let stored = s.numbered().with_task(id.0, new_task(s, id.0, now, spec));
            lemma_blocked_on_frame(stored, id.0, s.seq, spec.blocking_on);
        },
        Op::Finish { id, result, now, order } => {
            let m = after_finish(s, id, result, now);
            lemma_woken_all_announces(m, id.0, order, now);
            law_complete_records_result(s, id, result, now, order, t);
            lemma_woken_all_events(m, id.0, order, now);
            assert forall|k: int| s.events.len() <= k < t.events.len() implies {
                let (x, status, _) = #[trigger] t.events[k];
                t.tasks.contains_key(x.0) && t.tasks[x.0].status == status
            } by {
                if k == s.events.len() {
                    assert(t.events[k] == m.events[k]);
                }
            }
        },
        Op::Cancel { id, reason, now, order } => {
            lemma_cascade_tasks(s, id.0, order);
            lemma_cancelled_all_frame(s, order, reason, now);
            lemma_cancelled_all_announces(s, order, reason, now);
            assert forall|k: int| s.events.len() <= k < t.events.len() implies {
                let (x, status, _) = #[trigger] t.events[k];
                t.tasks.contains_key(x.0) && t.tasks[x.0].status == status
            } by {
                let x = t.events[k].0.0;
                let i = choose|i: int| 0 <= i < order.len() && order[i] == x;
                assert(s.tasks.contains_key(order[i]));
                assert(t.tasks[x].status == (TaskStatus::Cancelled { reason }));
            }
        },
        _ => {},
    }
}

/// Waking dependents adds to what was announced.
proof fn lemma_woken_all_events(s: EngineModel, id: u128, order: Seq<u128>, now: u64)
    ensures
        s.events.len() <= woken_all(s, id, order, now).events.len(),
        forall|k: int| 0 <= k < s.events.len() ==> #[trigger] woken_all(s, id, order, now).events[k] == s.events[k],
    decreases order.len(),
{
    if order.len() > 0 {
        lemma_woken_all_events(s, id, order.drop_last(), now);
    }
}

/// A task in any later state of a run holds the spec that it was created from.
pub proof fn law_run_keeps_spec(ops: Seq<Op>, n: int, id: TaskId, now: u64, spec: SpecModel)
    requires
        allowed_run(ops),
        0 <= n < ops.len(),
        ops[n] == (Op::Create { id, now, spec }),
    ensures
        after_run(ops).tasks.contains_key(id.0),
        after_run(ops).tasks[id.0].id == id,
        after_run(ops).tasks[id.0].spec == spec,
        after_run(ops).tasks[id.0].created_at == now,
    decreases ops.len(),
{
    let before = after_run(ops.drop_last());
    if n == ops.len() - 1 {
        law_create_holds_spec(
            before,
            id.0,
            now,
            spec,
            Ok::<TaskId, ErrorModel>(id),
            after_create(before, id.0, now, spec),
        );
    } else {
        law_run_keeps_spec(ops.drop_last(), n, id, now, spec);
        law_step_keeps_tasks(before, ops.last(), id.0);
    }
}

/// The outcomes of calls are operations: what a granted call leaves behind is
/// the state after an operation that the engine carries out, with what the call
/// was given.
#[verifier::rlimit(40)]
pub proof fn law_calls_are_operations(
    s: EngineModel,
    id: TaskId,
    other: TaskId,
    worker: WorkerId,
    reason: u32,
    kind: EdgeKind,
    edge_id: EdgeId,
    now: u64,
    spec: SpecModel,
    result: TaskResult,
    t: EngineModel,
)
    requires
        creatable(s, spec),
    ensures
        created(s, id.0, now, spec, Ok::<TaskId, ErrorModel>(id), t) ==> {
            let op = Op::Create { id, now, spec };
            allowed(s, op) && t == after(s, op)
        },
        forall|r: Result<TaskGuard, EngineError>| #[trigger]
            start_outcome(s, id, worker, now, r, t) && r is Ok ==> {
                let op = Op::Start { id, worker, now };
                allowed(s, op) && t == after(s, op)
            },
        forall|order: Seq<u128>| #[trigger]
            finished(s, id, result, now, order, t) && s.tasks.contains_key(id.0) && s.tasks[id.0].status is Running
                ==> {
                let op = Op::Finish { id, result, now, order };
                allowed(s, op) && t == after(s, op)
            },
        forall|r: Result<(), EngineError>| #[trigger]
            cancel_outcome(s, id, reason, now, r, t) && r is Ok ==> exists|order: Seq<u128>|
                allowed(s, Op::Cancel { id, reason, now, order }) && t == #[trigger] after(
                    s,
                    Op::Cancel { id, reason, now, order },
                ),
        forall|r: Result<EdgeId, EngineError>| #[trigger]
            depend_outcome(s, id, other, kind, now, r, t) && r is Ok ==> {
                let op = Op::Depend { from: id, to: other, kind, now };
                allowed(s, op) && t == after(s, op)
            },
        forall|r: Result<(), EngineError>| #[trigger]
            remove_outcome(s, edge_id, now, r, t) && r is Ok ==> exists|key: (u128, u128)|
                allowed(s, Op::Remove { key, now }) && s.edges[key].id == edge_id && t == #[trigger] after(
                    s,
                    Op::Remove { key, now },
                ),
{
    assert forall|r: Result<(), EngineError>| #[trigger]
        cancel_outcome(s, id, reason, now, r, t) && r is Ok implies exists|order: Seq<u128>|
        allowed(s, Op::Cancel { id, reason, now, order }) && t == #[trigger] after(
            s,
            Op::Cancel { id, reason, now, order },
        ) by {
        let order = choose|order: Seq<u128>| #[trigger]
            cascade(s, id.0, order) && t == cancelled_all(s, order, reason, now);
        let op = Op::Cancel { id, reason, now, order };
        assert(allowed(s, op) && t == after(s, op));
    }
    assert forall|r: Result<(), EngineError>| #[trigger]
        remove_outcome(s, edge_id, now, r, t) && r is Ok implies exists|key: (u128, u128)|
        allowed(s, Op::Remove { key, now }) && s.edges[key].id == edge_id && t == #[trigger] after(
            s,
            Op::Remove { key, now },
        ) by {
        let key = choose|key: (u128, u128)| #[trigger]
            edge_has_id(s, key, edge_id) && t == after_remove(s, key, now);
        let op = Op::Remove { key, now };
        assert(allowed(s, op) && s.edges[key].id == edge_id && t == after(s, op));
    }
}

/// The counters of a sound engine are the numbers of tasks in each status.
pub proof fn law_counters_count(s: EngineModel)
    requires
        sound(s),
        s.tasks.dom().len() <= u64::MAX,
    ensures
        s.counters.pending == s.tasks.dom().filter(|id: u128| s.tasks[id].status is Pending).len(),
        s.counters.ready == s.tasks.dom().filter(|id: u128| s.tasks[id].status is Ready).len(),
        s.counters.running == s.tasks.dom().filter(|id: u128| s.tasks[id].status is Running).len(),
        s.counters.completed == s.tasks.dom().filter(|id: u128| s.tasks[id].status is Completed).len(),
        s.counters.cancelled == s.tasks.dom().filter(|id: u128| s.tasks[id].status is Cancelled).len(),
{
    law_counters_exact(s, StatusClass::Pending);
    law_counters_exact(s, StatusClass::Ready);
    law_counters_exact(s, StatusClass::Running);
    law_counters_exact(s, StatusClass::Completed);
    law_counters_exact(s, StatusClass::Cancelled);
    assert(members_of(s.tasks, StatusClass::Pending) =~= s.tasks.dom().filter(
        |id: u128| s.tasks[id].status is Pending,
    ));
    assert(members_of(s.tasks, StatusClass::Ready) =~= s.tasks.dom().filter(|id: u128| s.tasks[id].status is Ready));
    assert(members_of(s.tasks, StatusClass::Running) =~= s.tasks.dom().filter(
        |id: u128| s.tasks[id].status is Running,
    ));
    assert(members_of(s.tasks, StatusClass::Completed) =~= s.tasks.dom().filter(
        |id: u128| s.tasks[id].status is Completed,
    ));
    assert(members_of(s.tasks, StatusClass::Cancelled) =~= s.tasks.dom().filter(
        |id: u128| s.tasks[id].status is Cancelled,
    ));
}

// Values.

/// The value of a spec holds all of it.
pub proof fn law_spec_values(spec: TaskSpec)
    ensures
        spec@.task_type == spec.task_type@,
        spec@.payload == spec.payload@,
        spec@.priority == spec.priority,
        spec@.parent == spec.parent,
        spec@.blocking_on == spec.blocking_on@,
        spec@.metadata.len() == spec.metadata@.len(),
        forall|i: int|
            0 <= i < spec.metadata@.len() ==> (#[trigger] spec@.metadata[i]) == (spec.metadata@[i].0@, spec.metadata@[i].1@),
{
}

/// The value of a task holds all of it.
pub proof fn law_task_values(task: Task)
    ensures
        task@.id == task.id,
        task@.spec == task.spec@,
        task@.status == task.status,
        task@.created_at == task.created_at,
        task@.updated_at == task.updated_at,
        task@.seq == task.seq,
        task@.child_count == task.child_count,
        task@.edge_in_degree == task.edge_in_degree,
{
}

/// An answer and its value agree: the same result, or the value of the error.
pub proof fn law_answer_values<T>(v: T, e: EngineError)
    ensures
        answer(Ok::<T, EngineError>(v)) == Ok::<T, ErrorModel>(v),
        answer(Err::<T, EngineError>(e)) == Err::<T, ErrorModel>(e@),
{
}

/// A new engine has no tasks and no edges; nobody waits; nothing was announced
/// or offered, nothing is counted, and it is not shutting down.
pub proof fn law_new_engine_is_empty()
    ensures
        ({
            let s = initial();
            &&& s.tasks.dom() == Set::<u128>::empty()
            &&& s.edges.dom() == Set::<(u128, u128)>::empty()
            &&& s.pending.dom() == Set::<u128>::empty()
            &&& s.dependents.dom() == Set::<u128>::empty()
            &&& s.joint.dom() == Set::<u128>::empty()
            &&& s.ready.len() == 0
            &&& s.events.len() == 0
            &&& s.seq == 0
            &&& !s.shutdown
            &&& s.counters.pending == 0
            &&& s.counters.ready == 0
            &&& s.counters.running == 0
            &&& s.counters.completed == 0
            &&& s.counters.cancelled == 0
        }),
{
}

/// Which specs the counts in a task have room for: those with at most 65535
/// dependencies that have not completed, and with a parent, if it is there,
/// that has fewer than 65535 children.
pub proof fn law_what_can_be_created(s: EngineModel, spec: SpecModel)
    ensures
        creatable(s, spec) <==> {
            &&& Set::new(
                |d: u128|
                    spec.blocking_on.contains(TaskId(d)) && !(s.tasks.contains_key(d)
                        && s.tasks[d].status is Completed),
            ).len() <= 65535
            &&& spec.parent matches Some(p) ==> s.tasks.contains_key(p.0) ==> s.tasks[p.0].child_count < 65535
        },
        spec.blocking_on.len() <= 65535 && spec.parent is None ==> creatable(s, spec),
{
    let waiting = unsatisfied_set(s, spec.blocking_on);
    assert(waiting =~= Set::new(
        |d: u128|
            spec.blocking_on.contains(TaskId(d)) && !(s.tasks.contains_key(d) && s.tasks[d].status is Completed),
    ));
    let ids = numbers_of(spec.blocking_on);
    vstd::seq_lib::seq_to_set_is_finite(ids);
    assert forall|d: u128| waiting.contains(d) implies ids.to_set().contains(d) by {
        let k = choose|k: int| 0 <= k < spec.blocking_on.len() && spec.blocking_on[k] == TaskId(d);
        assert(ids[k] == d);
    }
    vstd::set_lib::lemma_len_subset(waiting, ids.to_set());
    ids.lemma_cardinality_of_set();
}

} // verus!
