//! Laws that relate several operations of the engine, or speak of every run of
//! it.
use crate::error::ErrorModel;
use crate::invariants::{
    class_of, counter_of, edge_fits, lemma_blocked_on_edges, lemma_holds_last, members_of, pair_fits, status_fits,
    unmet, waiting_fits, StatusClass,
};
use crate::model::{
    after_create, after_depend, after_finish, after_remove, after_start, blocked_on, blocks, cancel_refusal, cancelled,
    cancelled_all, cascade, clamped, creatable, created, creation_cycles, depend_refusal, dependable, edge_cycles,
    edge_has_id, finished, finished_by, initial, lemma_blocked_on_frame, lemma_cancelled_all_frame, lists, new_task, next, parent_of,
    relieved, set_at, start_refusal, takes_effect, unlinked, unsatisfied_set, waits, with_edge, with_member, woken,
    woken_all, EngineModel,
};
use crate::sound::{
    law_cancel_sound, law_create_sound, law_depend_sound, law_finish_sound, law_initial_sound, law_remove_sound,
    law_start_sound, lemma_same_tables, sound,
};
use crate::types::{EdgeId, EdgeKind, SpecModel, TaskId, TaskModel, TaskResult, TaskStatus, WorkerId};
use vstd::prelude::*;

verus! {

// Runs.

/// An operation that changes the engine, with what the clock, the random
/// source and the order of the tables contributed to it.
pub enum Op {
    Create { id: TaskId, now: u64, spec: SpecModel },
    Start { id: TaskId, worker: WorkerId, now: u64 },
    Finish { id: TaskId, result: TaskResult, now: u64, order: Seq<u128> },
    Cancel { id: TaskId, reason: u32, now: u64, order: Seq<u128> },
    Depend { from: TaskId, to: TaskId, kind: EdgeKind, now: u64 },
    Remove { key: (u128, u128), now: u64 },
    Shutdown,
    TakeEvents,
    TakeReady,
}

/// Whether the engine carries out `op` in the state `s`.
pub open spec fn allowed(s: EngineModel, op: Op) -> bool {
    match op {
        Op::Create { id, now, spec } => {
            &&& !s.shutdown
            &&& !s.tasks.contains_key(id.0)
            &&& !creation_cycles(s, id.0, spec.blocking_on)
            &&& creatable(s, spec)
        },
        Op::Start { id, worker, now } => start_refusal(s, id) is None,
        Op::Finish { id, result, now, order } => s.running(id.0) && lists(order, set_at(s.dependents, id.0)),
        Op::Cancel { id, reason, now, order } => cancel_refusal(s, id) is None && cascade(s, id.0, order),
        Op::Depend { from, to, kind, now } => dependable(s, from, to, kind),
        Op::Remove { key, now } => s.edges.contains_key(key),
        Op::Shutdown => true,
        Op::TakeEvents => true,
        Op::TakeReady => true,
    }
}

/// The state after `op`.
pub open spec fn after(s: EngineModel, op: Op) -> EngineModel {
    match op {
        Op::Create { id, now, spec } => after_create(s, id.0, now, spec),
        Op::Start { id, worker, now } => after_start(s, id, worker, now),
        Op::Finish { id, result, now, order } => woken_all(after_finish(s, id, result, now), id.0, order, now),
        Op::Cancel { id, reason, now, order } => cancelled_all(s, order, reason, now),
        Op::Depend { from, to, kind, now } => after_depend(s, from, to, kind, now),
        Op::Remove { key, now } => after_remove(s, key, now),
        Op::Shutdown => EngineModel { shutdown: true, ..s },
        Op::TakeEvents => EngineModel { events: Seq::empty(), ..s },
        Op::TakeReady => EngineModel { ready: Seq::empty(), ..s },
    }
}

/// The state that a run of operations leads to.
pub open spec fn after_run(ops: Seq<Op>) -> EngineModel
    decreases ops.len(),
{
    if ops.len() == 0 {
        initial()
    } else {
        after(after_run(ops.drop_last()), ops.last())
    }
}

/// Whether each operation of a run was carried out.
pub open spec fn allowed_run(ops: Seq<Op>) -> bool
    decreases ops.len(),
{
    ops.len() > 0 ==> allowed_run(ops.drop_last()) && allowed(after_run(ops.drop_last()), ops.last())
}

/// Every operation keeps the engine sound: counters, statuses, in-degrees,
/// edges and indexes agree, and no task blocks itself.
pub proof fn law_step_sound(s: EngineModel, op: Op)
    requires
        sound(s),
        allowed(s, op),
    ensures
        sound(after(s, op)),
{
    match op {
        Op::Create { id, now, spec } => law_create_sound(s, id.0, now, spec),
        Op::Start { id, worker, now } => law_start_sound(s, id, worker, now),
        Op::Finish { id, result, now, order } => law_finish_sound(s, id, result, now, order, after(s, op)),
        Op::Cancel { id, reason, now, order } => law_cancel_sound(s, id, reason, now, order),
        Op::Depend { from, to, kind, now } => law_depend_sound(s, from, to, kind, now),
        Op::Remove { key, now } => law_remove_sound(s, key, now),
        _ => lemma_same_tables(s, after(s, op)),
    }
}

/// The engine is sound after every run. In particular a cycle of blocking edges
/// is never added.
pub proof fn law_run_sound(ops: Seq<Op>)
    requires
        allowed_run(ops),
    ensures
        sound(after_run(ops)),
    decreases ops.len(),
{
    if ops.len() == 0 {
        law_initial_sound();
    } else {
        law_run_sound(ops.drop_last());
        law_step_sound(after_run(ops.drop_last()), ops.last());
    }
}

// Creating.

/// A new task is ready if every dependency has completed, in particular if it
/// has none, and is offered to the workers then; otherwise it is pending.
pub proof fn law_create_status(s: EngineModel, id: u128, now: u64, spec: SpecModel)
    requires
        !s.tasks.contains_key(id),
    ensures
        ({
            let t = after_create(s, id, now, spec);
            let satisfied = forall|d: TaskId| #[trigger] spec.blocking_on.contains(d) ==> s.completed(d.0);
            &&& t.tasks.contains_key(id)
            &&& satisfied ==> t.tasks[id].status is Ready && t.ready == s.ready.push(TaskId(id))
            &&& !satisfied ==> t.tasks[id].status is Pending && t.ready == s.ready
        }),
{
    let deps = spec.blocking_on;
    let stored = s.numbered().with_task(id, new_task(s, id, now, spec));
    lemma_blocked_on_frame(stored, id, s.seq, deps);
    let waiting = unsatisfied_set(s, deps);
    if forall|d: TaskId| #[trigger] deps.contains(d) ==> s.completed(d.0) {
        assert(waiting =~= Set::empty());
    } else {
        let d = choose|d: TaskId| #[trigger] deps.contains(d) && !s.completed(d.0);
        assert(waiting.contains(d.0));
    }
}

/// A parent counts each child that is created for it, and an edge makes it the
/// parent.
pub proof fn law_create_counts_child(s: EngineModel, id: u128, now: u64, spec: SpecModel, parent: TaskId)
    requires
        sound(s),
        creatable(s, spec),
        !s.tasks.contains_key(id),
        spec.parent == Some(parent),
        s.tasks.contains_key(parent.0),
    ensures
        ({
            let t = after_create(s, id, now, spec);
            &&& t.tasks[parent.0].child_count == s.tasks[parent.0].child_count + 1
            &&& t.tasks[parent.0].status == s.tasks[parent.0].status
            &&& parent_of(t, parent.0, id)
        }),
{
    let t = after_create(s, id, now, spec);
    let stored = s.numbered().with_task(id, new_task(s, id, now, spec));
    lemma_blocked_on_frame(stored, id, s.seq, spec.blocking_on);
    lemma_blocked_on_edges(stored, id, s.seq, spec.blocking_on);
    let key = (parent.0, id);
    assert(t.edges.contains_key(key));
    let linked = blocked_on(stored, id, s.seq, spec.blocking_on);
    if linked.edges.contains_key(key) {
        assert(stored.edges.contains_key(key) || spec.blocking_on.contains(parent));
        assert(linked.edges[key] == linked.edges[key]);
        if s.edges.contains_key(key) {
            assert(edge_fits(s, key));
        }
    }
}

// Parents and children.

/// Waking dependents changes neither edges nor who is whose child.
proof fn lemma_woken_all_links(s: EngineModel, id: u128, order: Seq<u128>, now: u64)
    ensures
        woken_all(s, id, order, now).edges == s.edges,
        woken_all(s, id, order, now).joint == s.joint,
    decreases order.len(),
{
    if order.len() > 0 {
        lemma_woken_all_links(s, id, order.drop_last(), now);
    }
}

/// A task becomes a child of another by being created as its child, or by a
/// parent edge that is added between them, and by nothing else; it stops being
/// one when the edge between them is removed, and by nothing else. An edge of
/// another kind that is added later does not bring a removed link back.
pub proof fn law_step_children(s: EngineModel, op: Op, parent: u128, child: u128)
    requires
        sound(s),
        allowed(s, op),
    ensures
        parent_of(after(s, op), parent, child) <==> match op {
            Op::Create { id, now, spec } => parent_of(s, parent, child) || (child == id.0 && spec.parent == Some(
                TaskId(parent),
            )),
            Op::Depend { from, to, kind, now } => parent_of(s, parent, child) || (kind is Parent && from == TaskId(
                parent,
            ) && to == TaskId(child)),
            Op::Remove { key, now } => parent_of(s, parent, child) && key != (parent, child),
            _ => parent_of(s, parent, child),
        },
{
    let key = (parent, child);
    assert(pair_fits(s, child, parent));
    if s.edges.contains_key(key) {
        assert(edge_fits(s, key));
    }
    match op {
        Op::Create { id, now, spec } => {
            let stored = s.numbered().with_task(id.0, new_task(s, id.0, now, spec));
            lemma_blocked_on_frame(stored, id.0, s.seq, spec.blocking_on);
            lemma_blocked_on_edges(stored, id.0, s.seq, spec.blocking_on);
            let linked = blocked_on(stored, id.0, s.seq, spec.blocking_on);
            assert(linked.edges.contains_key(key) <==> stored.edges.contains_key(key) || (child == id.0
                && spec.blocking_on.contains(TaskId(parent))));
            assert(linked.edges[key] == linked.edges[key]);
        },
        Op::Finish { id, result, now, order } => {
            lemma_woken_all_links(after_finish(s, id, result, now), id.0, order, now);
        },
        Op::Cancel { id, reason, now, order } => {
            assert forall|i: int| 0 <= i < order.len() implies s.tasks.contains_key(#[trigger] order[i]) by {
                if i > 0 {
                    assert(s.cascades_to(order[i]));
                }
            }
            lemma_cancelled_all_frame(s, order, reason, now);
        },
        _ => {},
    }
}

// Starting.

/// A blocking edge is a hard dependency: a task can only be started once every
/// start of a blocking edge to it has completed.
pub proof fn law_start_needs_completed_predecessors(s: EngineModel, id: TaskId, predecessor: u128)
    requires
        sound(s),
        start_refusal(s, id) is None,
        blocks(s, predecessor, id.0),
    ensures
        s.completed(predecessor),
{
    assert(pair_fits(s, id.0, predecessor));
    assert(status_fits(s, id.0));
}

/// A ready or running task has one claim at most: of two workers that start a
/// task one after the other, the second is told who runs it.
pub proof fn law_first_start_wins(s: EngineModel, id: TaskId, first: WorkerId, now: u64)
    requires
        start_refusal(s, id) is None,
    ensures
        start_refusal(after_start(s, id, first, now), id) == Some(
            ErrorModel::AlreadyRunning { id, worker: first },
        ),
{
}

/// Once a shutdown has begun, no task is created, started or cancelled and no
/// edge is added.
pub proof fn law_shutdown_refuses(
    s: EngineModel,
    spec: SpecModel,
    id: TaskId,
    other: TaskId,
    now: u64,
    r: Result<TaskId, ErrorModel>,
    t: EngineModel,
)
    requires
        s.shutdown,
    ensures
        created(s, id.0, now, spec, r, t) ==> r == Err::<TaskId, ErrorModel>(ErrorModel::EngineShuttingDown) && t == s,
        start_refusal(s, id) == Some(ErrorModel::EngineShuttingDown),
        cancel_refusal(s, id) == Some(ErrorModel::EngineShuttingDown),
        depend_refusal(s, id, other) == Some(ErrorModel::EngineShuttingDown),
{
}

// Cancelling.

/// Whether a chain of parent edges leads from `path[0]` down to its last
/// entry, through tasks that are pending or running.
pub open spec fn descent(s: EngineModel, path: Seq<u128>) -> bool {
    path.len() > 0 && forall|i: int|
        0 <= i < path.len() - 1 ==> #[trigger] parent_of(s, path[i], path[i + 1]) && s.cascades_to(path[i + 1])
}

/// Whether `x` is `id` or lies below it through pending and running tasks.
pub open spec fn below(s: EngineModel, id: u128, x: u128) -> bool {
    exists|path: Seq<u128>| #[trigger] descent(s, path) && path[0] == id && path.last() == x
}

/// Each entry of a cascade lies below its first.
proof fn lemma_cascade_below(s: EngineModel, id: u128, order: Seq<u128>, i: int)
    requires
        cascade(s, id, order),
        0 <= i < order.len(),
    ensures
        below(s, id, order[i]),
    decreases i,
{
    if i == 0 {
        assert(descent(s, seq![id]));
    } else {
        assert(s.cascades_to(order[i]));
        let j = choose|j: int| 0 <= j < i && #[trigger] parent_of(s, order[j], order[i]);
        lemma_cascade_below(s, id, order, j);
        let path = choose|path: Seq<u128>| #[trigger]
            descent(s, path) && path[0] == id && path.last() == order[j];
        let longer = path.push(order[i]);
        assert forall|k: int| 0 <= k < longer.len() - 1 implies #[trigger] parent_of(
            s,
            longer[k],
            longer[k + 1],
        ) && s.cascades_to(longer[k + 1]) by {
            if k < path.len() - 1 {
                assert(parent_of(s, path[k], path[k + 1]));
            }
        }
        assert(descent(s, longer));
    }
}

/// Each entry of a descent from the first entry of a cascade is in the cascade.
proof fn lemma_descent_in_cascade(s: EngineModel, id: u128, order: Seq<u128>, path: Seq<u128>, n: int)
    requires
        cascade(s, id, order),
        descent(s, path),
        path[0] == id,
        0 <= n < path.len(),
    ensures
        order.contains(path[n]),
    decreases n,
{
    if n == 0 {
        assert(order[0] == id);
    } else {
        lemma_descent_in_cascade(s, id, order, path, n - 1);
        let k = choose|k: int| 0 <= k < order.len() && order[k] == path[n - 1];
        assert(parent_of(s, path[n - 1], path[n - 1 + 1]));
        assert(parent_of(s, order[k], path[n]));
    }
}

/// Cancellation runs down parent edges and nowhere else: it cancels `id` and
/// the tasks below it that a chain of pending and running tasks leads to. Every
/// other task stays as it is, tasks that wait for a cancelled task keep
/// waiting, and nothing becomes ready.
pub proof fn law_cancel_reach(s: EngineModel, id: TaskId, reason: u32, now: u64, order: Seq<u128>, x: u128)
    requires
        cancel_refusal(s, id) is None,
        cascade(s, id.0, order),
        s.tasks.contains_key(x),
    ensures
        ({
            let t = cancelled_all(s, order, reason, now);
            &&& below(s, id.0, x) ==> t.tasks[x].status == (TaskStatus::Cancelled { reason })
            &&& !below(s, id.0, x) ==> t.tasks[x] == s.tasks[x]
            &&& t.pending == s.pending
            &&& t.dependents == s.dependents
            &&& t.edges == s.edges
            &&& t.ready == s.ready
        }),
{
    assert forall|i: int| 0 <= i < order.len() implies s.tasks.contains_key(#[trigger] order[i]) by {
        if i > 0 {
            assert(s.cascades_to(order[i]));
        }
    }
    lemma_cancelled_all_frame(s, order, reason, now);
    if below(s, id.0, x) {
        let path = choose|path: Seq<u128>| #[trigger] descent(s, path) && path[0] == id.0 && path.last() == x;
        lemma_descent_in_cascade(s, id.0, order, path, path.len() - 1);
    } else if order.contains(x) {
        let k = choose|k: int| 0 <= k < order.len() && order[k] == x;
        lemma_cascade_below(s, id.0, order, k);
    }
}

/// A cancelled task can neither be started nor cancelled again, and completing
/// it changes nothing.
pub proof fn law_cancelled_is_final(
    s: EngineModel,
    id: TaskId,
    result: TaskResult,
    now: u64,
    order: Seq<u128>,
    t: EngineModel,
)
    requires
        s.tasks.contains_key(id.0),
        s.tasks[id.0].status is Cancelled,
    ensures
        !s.shutdown ==> start_refusal(s, id) == Some(
            ErrorModel::InvalidTransition { id, from: s.tasks[id.0].status, attempted: "start"@ },
        ),
        !s.shutdown ==> cancel_refusal(s, id) == Some(
            ErrorModel::InvalidTransition { id, from: s.tasks[id.0].status, attempted: "cancel"@ },
        ),
        finished(s, id, result, now, order, t) ==> t == s,
{
}

// Completing.

/// What waking dependents does to one task.
proof fn lemma_woken_all_task(s: EngineModel, id: u128, order: Seq<u128>, now: u64, x: u128)
    requires
        order.no_duplicates(),
        s.tasks.contains_key(x),
    ensures
        ({
            let t = woken_all(s, id, order, now);
            let task = s.tasks[x];
            let rest = s.pending[x].remove(id);
            &&& t.tasks.dom() == s.tasks.dom()
            &&& !order.contains(x) ==> {
                &&& t.tasks[x] == task
                &&& t.pending.contains_key(x) == s.pending.contains_key(x)
                &&& t.pending[x] == s.pending[x]
            }
            &&& order.contains(x) ==> {
                if !waits(s, x, id) {
                    t.tasks[x] == task
                } else if rest =~= Set::empty() && task.status is Pending {
                    &&& t.tasks[x].status is Ready
                    &&& t.tasks[x].edge_in_degree == 0
                    &&& t.ready.contains(TaskId(x))
                } else {
                    &&& t.tasks[x].status == task.status
                    &&& t.tasks[x].edge_in_degree == clamped(rest.len())
                }
            }
            &&& forall|y: TaskId| #[trigger] s.ready.contains(y) ==> t.ready.contains(y)
        }),
    decreases order.len(),
{
    if order.len() > 0 {
        let shorter = order.drop_last();
        let last = order.last();
        assert(shorter.no_duplicates());
        lemma_woken_all_task(s, id, shorter, now, x);
        let m = woken_all(s, id, shorter, now);
        let t = woken_all(s, id, order, now);
        assert(t == woken(m, id, last, now));
        assert(t.tasks.dom() =~= m.tasks.dom());
        lemma_holds_last(order, x);
        if x == last && shorter.contains(x) {
            let k = choose|k: int| 0 <= k < shorter.len() && shorter[k] == x;
            assert(order[k] == order[order.len() - 1]);
        }
        assert forall|y: TaskId| #[trigger] m.ready.contains(y) implies t.ready.contains(y) by {
            let k = choose|k: int| 0 <= k < m.ready.len() && m.ready[k] == y;
            assert(t.ready[k] == y);
        }
        if x == last && waits(m, x, id) && m.pending[x].remove(id) =~= Set::empty() && m.tasks[x].status is Pending {
            assert(t.ready[m.ready.len() as int] == TaskId(x));
        }
    }
}

/// Whether `t` came from `s` with what `x` waited for settled, now that `id` has
/// completed. If an unsatisfied blocking edge led from `id` to `x`, the in-degree
/// of `x` is one lower, as far as it can be told, and `x` is ready and offered
/// if it was pending on nothing else; its status is otherwise as it was. If no
/// such edge led there, nothing about `x` has changed.
pub open spec fn settled(s: EngineModel, t: EngineModel, id: u128, x: u128) -> bool {
    let waiting = set_at(s.pending, x).len();
    let last = forall|p: u128| #[trigger] unmet(s, p, x) ==> p == id;
    if !unmet(s, id, x) {
        t.tasks[x] == s.tasks[x]
    } else {
        &&& waiting > 0
        &&& s.tasks[x].edge_in_degree == clamped(waiting)
        &&& t.tasks[x].edge_in_degree == clamped((waiting - 1) as nat)
        &&& waiting <= u16::MAX ==> t.tasks[x].edge_in_degree == s.tasks[x].edge_in_degree - 1
        &&& if s.tasks[x].status is Pending && last {
            t.tasks[x].status is Ready && t.ready.contains(TaskId(x))
        } else {
            t.tasks[x].status == s.tasks[x].status
        }
    }
}

/// Completing a running task leaves it completed with the given result.
pub proof fn law_finish_completes(
    s: EngineModel,
    id: TaskId,
    result: TaskResult,
    now: u64,
    order: Seq<u128>,
    t: EngineModel,
)
    requires
        sound(s),
        finished(s, id, result, now, order, t),
        s.running(id.0),
    ensures
        t.tasks[id.0].status == (TaskStatus::Completed { result }),
{
    assert(pair_fits(s, id.0, id.0));
    assert(status_fits(s, id.0));
    lemma_woken_all_task(after_finish(s, id, result, now), id.0, order, now, id.0);
}

/// Completing a running task satisfies each blocking dependency on it exactly
/// once: the in-degree of every task with an unsatisfied blocking edge from it,
/// whatever its status, falls by one, as far as it can be told. A pending task
/// that waited for nothing else becomes ready and is offered. Every other task
/// stays as it is.
pub proof fn law_finish_wakes(
    s: EngineModel,
    id: TaskId,
    result: TaskResult,
    now: u64,
    order: Seq<u128>,
    t: EngineModel,
    x: u128,
)
    requires
        sound(s),
        finished(s, id, result, now, order, t),
        s.running(id.0),
        s.tasks.contains_key(x),
        x != id.0,
    ensures
        settled(s, t, id.0, x),
{
    let m = after_finish(s, id, result, now);
    assert(status_fits(s, x));
    assert(pair_fits(s, x, id.0));
    lemma_woken_all_task(m, id.0, order, now, x);
    assert(waits(m, x, id.0) == waits(s, x, id.0));
    if waits(s, x, id.0) {
        assert(order.to_set().contains(x));
        assert(waiting_fits(s, x));
        let rest = s.pending[x].remove(id.0);
        assert(rest.len() == s.pending[x].len() - 1);
        if forall|p: u128| #[trigger] unmet(s, p, x) ==> p == id.0 {
            assert forall|p: u128| !rest.contains(p) by {
                if rest.contains(p) {
                    assert(pair_fits(s, x, p));
                    assert(unmet(s, p, x));
                }
            }
            assert(rest =~= Set::empty());
        } else {
            let p = choose|p: u128| #[trigger] unmet(s, p, x) && p != id.0;
            assert(pair_fits(s, x, p));
            assert(rest.contains(p));
        }
    }
}

/// The worker that a start was granted to completes the task with its guard.
pub proof fn law_guard_completes(
    s: EngineModel,
    id: TaskId,
    worker: WorkerId,
    now: u64,
    result: TaskResult,
    later: u64,
    order: Seq<u128>,
    t: EngineModel,
)
    requires
        sound(s),
        start_refusal(s, id) is None,
        finished_by(after_start(s, id, worker, now), worker, id, result, later, order, t),
    ensures
        t.tasks[id.0].status == (TaskStatus::Completed { result }),
{
    law_start_sound(s, id, worker, now);
    law_finish_completes(after_start(s, id, worker, now), id, result, later, order, t);
}

/// A guard that outlived its claim has no effect: if the task is not running, or
/// runs for another worker, completing it or giving the guard up changes
/// nothing.
pub proof fn law_stale_guard_is_inert(
    s: EngineModel,
    worker: WorkerId,
    id: TaskId,
    result: TaskResult,
    now: u64,
    order: Seq<u128>,
    t: EngineModel,
)
    requires
        finished_by(s, worker, id, result, now, order, t),
        !s.runs(worker, id.0),
    ensures
        t == s,
{
}

// Announcing.

/// Whether `t` announces the status of `x` after what `s` announces.
pub open spec fn announces(s: EngineModel, t: EngineModel, x: u128) -> bool {
    exists|k: int|
        s.events.len() <= k < t.events.len() && (#[trigger] t.events[k]).0 == TaskId(x) && t.events[k].1
            == t.tasks[x].status
}

/// Whether `x` is new in `t` or has another status than in `s`.
pub open spec fn changed(s: EngineModel, t: EngineModel, x: u128) -> bool {
    t.tasks.contains_key(x) && (!s.tasks.contains_key(x) || t.tasks[x].status != s.tasks[x].status)
}

/// Whether `t` came from `s` with every status change announced and every task
/// that became ready offered.
pub open spec fn reported(s: EngineModel, t: EngineModel) -> bool {
    &&& s.events.len() <= t.events.len()
    &&& s.events == t.events.take(s.events.len() as int)
    &&& s.ready.len() <= t.ready.len()
    &&& s.ready == t.ready.take(s.ready.len() as int)
    &&& forall|x: u128| #[trigger] changed(s, t, x) ==> announces(s, t, x)
    &&& forall|x: u128| #[trigger] changed(s, t, x) && t.tasks[x].status is Ready ==> t.ready.contains(TaskId(x))
}

/// Reports one after the other.
proof fn lemma_reported_transitive(s: EngineModel, m: EngineModel, t: EngineModel)
    requires
        reported(s, m),
        reported(m, t),
        m.tasks.dom() == t.tasks.dom(),
    ensures
        reported(s, t),
{
    assert(s.events =~= t.events.take(s.events.len() as int)) by {
        assert forall|k: int| 0 <= k < s.events.len() implies s.events[k] == t.events[k] by {
            assert(m.events.take(s.events.len() as int)[k] == m.events[k]);
            assert(t.events.take(m.events.len() as int)[k] == t.events[k]);
        }
    }
    assert(s.ready =~= t.ready.take(s.ready.len() as int)) by {
        assert forall|k: int| 0 <= k < s.ready.len() implies s.ready[k] == t.ready[k] by {
            assert(m.ready.take(s.ready.len() as int)[k] == m.ready[k]);
            assert(t.ready.take(m.ready.len() as int)[k] == t.ready[k]);
        }
    }
    assert forall|x: u128| #[trigger] changed(s, t, x) implies announces(s, t, x) && (t.tasks[x].status is Ready
        ==> t.ready.contains(TaskId(x))) by {
        assert(m.tasks.contains_key(x));
        if changed(m, t, x) {
            let k = choose|k: int|
                m.events.len() <= k < t.events.len() && (#[trigger] t.events[k]).0 == TaskId(x) && t.events[k].1
                    == t.tasks[x].status;
            assert(s.events.len() <= k);
        } else {
            assert(changed(s, m, x));
            let k = choose|k: int|
                s.events.len() <= k < m.events.len() && (#[trigger] m.events[k]).0 == TaskId(x) && m.events[k].1
                    == m.tasks[x].status;
            assert(t.events.take(m.events.len() as int)[k] == t.events[k]);
            if t.tasks[x].status is Ready {
                let j = choose|j: int| 0 <= j < m.ready.len() && m.ready[j] == TaskId(x);
                assert(t.ready.take(m.ready.len() as int)[j] == t.ready[j]);
            }
        }
    }
}

/// Moving one task is reported, if it does not become ready or is offered.
proof fn lemma_moved_reported(s: EngineModel, id: u128, status: TaskStatus, now: u64, degree: u16)
    requires
        s.tasks.contains_key(id),
    ensures
        !(status is Ready) ==> reported(s, s.moved(id, status, now, degree)),
        reported(s, s.moved(id, status, now, degree).offered(id)),
        s.moved(id, status, now, degree).tasks.dom() == s.tasks.dom(),
{
    let t = s.moved(id, status, now, degree);
    let u = t.offered(id);
    let k = s.events.len() as int;
    assert(t.events =~= s.events.push((TaskId(id), status, next(s.seq))));
    assert(t.events.take(k) =~= s.events);
    assert(t.ready.take(s.ready.len() as int) =~= s.ready);
    assert(u.ready.take(s.ready.len() as int) =~= s.ready);
    assert(t.tasks.dom() =~= s.tasks.dom());
    assert(u.ready[s.ready.len() as int] == TaskId(id));
    assert forall|x: u128| #[trigger] changed(s, t, x) implies announces(s, t, x) && x == id by {
        assert(t.events[k].0 == TaskId(x));
    }
    assert forall|x: u128| #[trigger] changed(s, u, x) implies announces(s, u, x) && u.ready.contains(
        TaskId(x),
    ) by {
        assert(u.events[k].0 == TaskId(x));
    }
}

/// What leaves the statuses, the announcements and the offers alone needs no
/// report.
proof fn lemma_quiet_reported(s: EngineModel, t: EngineModel)
    requires
        t.events == s.events,
        t.ready == s.ready,
        t.tasks.dom() == s.tasks.dom(),
        forall|x: u128| #[trigger] s.tasks.contains_key(x) ==> t.tasks[x].status == s.tasks[x].status,
    ensures
        reported(s, t),
{
    assert(s.events =~= t.events.take(s.events.len() as int));
    assert(s.ready =~= t.ready.take(s.ready.len() as int));
}

/// A further announcement harms no report.
proof fn lemma_announced_reported(s: EngineModel, id: TaskId, status: TaskStatus)
    ensures
        reported(s, s.announced(id, status)),
{
    let t = s.announced(id, status);
    assert(s.events =~= t.events.take(s.events.len() as int));
    assert(s.ready =~= t.ready.take(s.ready.len() as int));
}

/// Taking one task out of what another waits for is reported.
proof fn lemma_relieved_reported(s: EngineModel, id: u128, dependent: u128, now: u64)
    ensures
        reported(s, relieved(s, id, dependent, now)),
        relieved(s, id, dependent, now).tasks.dom() == s.tasks.dom(),
{
    let t = relieved(s, id, dependent, now);
    if s.pending[dependent].remove(id) =~= Set::empty() && s.tasks.contains_key(dependent)
        && s.tasks[dependent].status is Pending {
        let free = EngineModel { pending: s.pending.remove(dependent), ..s };
        lemma_quiet_reported(s, free);
        lemma_moved_reported(free, dependent, TaskStatus::Ready, now, 0);
        lemma_reported_transitive(s, free, t);
    } else {
        assert(t.tasks.dom() =~= s.tasks.dom());
        lemma_quiet_reported(s, t);
    }
}

/// Waking dependents is reported.
proof fn lemma_woken_all_reported(s: EngineModel, id: u128, order: Seq<u128>, now: u64)
    ensures
        reported(s, woken_all(s, id, order, now)),
        woken_all(s, id, order, now).tasks.dom() == s.tasks.dom(),
    decreases order.len(),
{
    if order.len() == 0 {
        lemma_quiet_reported(s, s);
    } else {
        let m = woken_all(s, id, order.drop_last(), now);
        lemma_woken_all_reported(s, id, order.drop_last(), now);
        if waits(m, order.last(), id) {
            lemma_relieved_reported(m, id, order.last(), now);
        } else {
            lemma_quiet_reported(m, m);
        }
        lemma_reported_transitive(s, m, woken(m, id, order.last(), now));
    }
}

/// Cancelling tasks is reported.
proof fn lemma_cancelled_all_reported(s: EngineModel, order: Seq<u128>, reason: u32, now: u64)
    requires
        forall|i: int| 0 <= i < order.len() ==> s.tasks.contains_key(#[trigger] order[i]),
    ensures
        reported(s, cancelled_all(s, order, reason, now)),
        cancelled_all(s, order, reason, now).tasks.dom() == s.tasks.dom(),
    decreases order.len(),
{
    if order.len() == 0 {
        lemma_quiet_reported(s, s);
    } else {
        let shorter = order.drop_last();
        let last = order[order.len() - 1];
        assert forall|i: int| 0 <= i < shorter.len() implies s.tasks.contains_key(#[trigger] shorter[i]) by {
            assert(shorter[i] == order[i]);
        }
        assert(s.tasks.contains_key(last));
        let m = cancelled_all(s, shorter, reason, now);
        lemma_cancelled_all_reported(s, shorter, reason, now);
        let status = TaskStatus::Cancelled { reason };
        let n = m.moved(last, status, now, m.tasks[last].edge_in_degree);
        lemma_moved_reported(m, last, status, now, m.tasks[last].edge_in_degree);
        lemma_reported_transitive(s, m, n);
        lemma_announced_reported(n, TaskId(last), status);
        lemma_reported_transitive(s, n, cancelled(m, last, reason, now));
    }
}

/// Every status change is announced, and every task that becomes ready is
/// offered to the workers, whatever the operation. What was announced and
/// offered before stays, until it is taken out.
pub proof fn law_step_reported(s: EngineModel, op: Op)
    requires
        allowed(s, op),
        !(op is TakeEvents),
        !(op is TakeReady),
    ensures
        reported(s, after(s, op)),
{
    let t = after(s, op);
    match op {
        Op::Create { id, now, spec } => {
            let stored = s.numbered().with_task(id.0, new_task(s, id.0, now, spec));
            lemma_blocked_on_frame(stored, id.0, s.seq, spec.blocking_on);
            let k = s.events.len() as int;
            assert(t.events.take(k) =~= s.events);
            assert(t.ready.take(s.ready.len() as int) =~= s.ready);
            assert forall|x: u128| #[trigger] changed(s, t, x) implies announces(s, t, x) && (t.tasks[x].status is Ready
                ==> t.ready.contains(TaskId(x))) by {
                assert(x == id.0);
                assert(t.events[k].0 == TaskId(x));
                if t.tasks[x].status is Ready {
                    assert(t.ready[s.ready.len() as int] == TaskId(x));
                }
            }
        },
        Op::Start { id, worker, now } => {
            lemma_moved_reported(
                s,
                id.0,
                TaskStatus::Running { worker_id: worker },
                now,
                s.tasks[id.0].edge_in_degree,
            );
        },
        Op::Finish { id, result, now, order } => {
            let done = s.moved(id.0, TaskStatus::Completed { result }, now, s.tasks[id.0].edge_in_degree);
            let m = after_finish(s, id, result, now);
            lemma_moved_reported(s, id.0, TaskStatus::Completed { result }, now, s.tasks[id.0].edge_in_degree);
            lemma_quiet_reported(done, m);
            lemma_reported_transitive(s, done, m);
            lemma_woken_all_reported(m, id.0, order, now);
            lemma_reported_transitive(s, m, t);
        },
        Op::Cancel { id, reason, now, order } => {
            assert forall|i: int| 0 <= i < order.len() implies s.tasks.contains_key(#[trigger] order[i]) by {
                if i > 0 {
                    assert(s.cascades_to(order[i]));
                }
            }
            lemma_cancelled_all_reported(s, order, reason, now);
        },
        Op::Depend { from, to, kind, now } => {
            let linked = with_edge(s, from, to, kind);
            lemma_quiet_reported(s, linked);
            if takes_effect(s, from, to, kind) {
                let waiting = EngineModel { pending: with_member(s.pending, to.0, from.0), ..linked };
                lemma_quiet_reported(s, waiting);
                if s.tasks[to.0].status is Ready || s.tasks[to.0].status is Running {
                    let degree = t.tasks[to.0].edge_in_degree;
                    let m = waiting.moved(to.0, TaskStatus::Pending, now, degree);
                    lemma_moved_reported(waiting, to.0, TaskStatus::Pending, now, degree);
                    lemma_reported_transitive(s, waiting, m);
                    lemma_announced_reported(m, to, TaskStatus::Pending);
                    lemma_reported_transitive(s, m, t);
                } else {
                    assert(t.tasks.dom() =~= s.tasks.dom());
                    lemma_quiet_reported(s, t);
                }
            }
        },
        Op::Remove { key, now } => {
            let u = unlinked(s, key);
            lemma_quiet_reported(s, u);
            if s.edges[key].kind is Blocking && waits(s, key.1, key.0) {
                lemma_relieved_reported(u, key.0, key.1, now);
                lemma_reported_transitive(s, u, t);
            }
        },
        _ => {
            lemma_quiet_reported(s, t);
        },
    }
}

/// What has completed or was cancelled keeps that status, whatever the
/// operation.
pub proof fn law_step_terminal_stays(s: EngineModel, op: Op, x: u128)
    requires
        allowed(s, op),
        s.tasks.contains_key(x),
        s.tasks[x].status is Completed || s.tasks[x].status is Cancelled,
    ensures
        after(s, op).tasks.contains_key(x),
        after(s, op).tasks[x].status == s.tasks[x].status,
{
    match op {
        Op::Create { id, now, spec } => {
            let stored = s.numbered().with_task(id.0, new_task(s, id.0, now, spec));
            lemma_blocked_on_frame(stored, id.0, s.seq, spec.blocking_on);
        },
        Op::Finish { id, result, now, order } => {
            let m = after_finish(s, id, result, now);
            lemma_woken_all_task(m, id.0, order, now, x);
        },
        Op::Cancel { id, reason, now, order } => {
            assert forall|i: int| 0 <= i < order.len() implies s.tasks.contains_key(#[trigger] order[i])
                && order[i] != x by {
                if i > 0 {
                    assert(s.cascades_to(order[i]));
                }
            }
            lemma_cancelled_all_frame(s, order, reason, now);
            assert(!order.contains(x));
            assert(cancelled_all(s, order, reason, now).tasks[x] == s.tasks[x]);
        },
        _ => {},
    }
}

// Dependencies.

/// A blocking edge from a task that has not completed sends a task that has
/// neither completed nor been cancelled to pending, and it waits.
pub proof fn law_depend_blocks(s: EngineModel, from: TaskId, to: TaskId, now: u64)
    requires
        dependable(s, from, to, EdgeKind::Blocking),
        !s.completed(from.0),
        !s.completed(to.0),
        !(s.tasks[to.0].status is Cancelled),
    ensures
        ({
            let t = after_depend(s, from, to, EdgeKind::Blocking, now);
            &&& t.tasks[to.0].status is Pending
            &&& waits(t, to.0, from.0)
            &&& start_refusal(t, to) is Some
        }),
{
}

/// Removing an unsatisfied blocking edge lowers the in-degree of its end by one,
/// as far as it can be told. If it was the last one of a pending task, the task
/// becomes ready and is offered to the workers.
pub proof fn law_remove_unblocks(s: EngineModel, key: (u128, u128), now: u64)
    requires
        sound(s),
        s.edges.contains_key(key),
        unmet(s, key.0, key.1),
    ensures
        ({
            let t = after_remove(s, key, now);
            let n = set_at(s.pending, key.1).len();
            &&& n > 0
            &&& s.tasks[key.1].edge_in_degree == clamped(n)
            &&& t.tasks[key.1].edge_in_degree == clamped((n - 1) as nat)
            &&& s.tasks[key.1].status is Pending && (forall|p: u128| #[trigger] unmet(s, p, key.1) ==> p == key.0)
                ==> t.tasks[key.1].status is Ready && t.ready == s.ready.push(TaskId(key.1))
        }),
{
    assert(edge_fits(s, key));
    assert(pair_fits(s, key.1, key.0));
    assert(waiting_fits(s, key.1));
    assert(status_fits(s, key.1));
    let rest = s.pending[key.1].remove(key.0);
    assert(rest.len() == s.pending[key.1].len() - 1);
    if forall|p: u128| #[trigger] unmet(s, p, key.1) ==> p == key.0 {
        assert forall|p: u128| !rest.contains(p) by {
            if rest.contains(p) {
                assert(pair_fits(s, key.1, p));
                assert(unmet(s, p, key.1));
            }
        }
        assert(rest =~= Set::empty());
    }
}

/// A blocking edge from a task that has completed is satisfied at once: it is
/// recorded, and no task changes.
pub proof fn law_depend_on_completed(s: EngineModel, from: TaskId, to: TaskId, now: u64)
    requires
        dependable(s, from, to, EdgeKind::Blocking),
        s.completed(from.0),
    ensures
        ({
            let t = after_depend(s, from, to, EdgeKind::Blocking, now);
            &&& t.edges.contains_key((from.0, to.0))
            &&& t.tasks == s.tasks
            &&& t.pending == s.pending
        }),
{
}

/// An edge that does not block is a note: it is recorded, and nobody waits for
/// it, changes status or is announced. It is never refused as a cycle.
pub proof fn law_soft_edge_blocks_nobody(s: EngineModel, from: TaskId, to: TaskId, kind: EdgeKind, now: u64)
    requires
        !(kind is Blocking),
    ensures
        ({
            let t = after_depend(s, from, to, kind, now);
            &&& t.edges.contains_key((from.0, to.0))
            &&& t.edges[(from.0, to.0)].kind == kind
            &&& t.tasks == s.tasks
            &&& t.pending == s.pending
            &&& t.ready == s.ready
            &&& t.events == s.events
            &&& t.counters == s.counters
        }),
        !edge_cycles(s, from, to, kind),
{
}

/// Removing an edge that was just added, by the id that was returned for it,
/// removes that edge and no other, and everybody waits for what they waited
/// for before, with the in-degree they had. Statuses and counters are as before,
/// so a task that the edge sent from ready back to pending is ready again; but a
/// task that was running has to be started again. The ids of the other edges
/// have to be older numbers.
pub proof fn law_remove_undoes_depend(
    s: EngineModel,
    from: TaskId,
    to: TaskId,
    kind: EdgeKind,
    now: u64,
    later: u64,
    key: (u128, u128),
)
    requires
        sound(s),
        dependable(s, from, to, kind),
        forall|k: (u128, u128)| #[trigger] s.edges.contains_key(k) ==> s.edges[k].id.0 < s.seq,
        edge_has_id(after_depend(s, from, to, kind, now), key, EdgeId(s.seq)),
    ensures
        key == (from.0, to.0),
        ({
            let t = after_remove(after_depend(s, from, to, kind, now), key, later);
            let stopped = takes_effect(s, from, to, kind) && s.running(to.0);
            &&& t.edges == s.edges
            &&& t.pending == s.pending
            &&& forall|x: u128| #[trigger]
                s.tasks.contains_key(x) ==> t.tasks[x].edge_in_degree == s.tasks[x].edge_in_degree
            &&& forall|x: u128| #[trigger]
                s.tasks.contains_key(x) && !(stopped && x == to.0) ==> t.tasks[x].status == s.tasks[x].status
            &&& !stopped ==> t.counters == s.counters
            &&& stopped ==> t.tasks[to.0].status is Ready
        }),
{
    let m = after_depend(s, from, to, kind, now);
    let t = after_remove(m, key, later);
    if key != (from.0, to.0) {
        assert(s.edges.contains_key(key));
    }
    assert(t.edges =~= s.edges);
    assert(status_fits(s, to.0));
    assert(pair_fits(s, to.0, from.0));
    if takes_effect(s, from, to, kind) {
        let rest = m.pending[to.0].remove(from.0);
        assert(rest =~= set_at(s.pending, to.0));
        if s.pending.contains_key(to.0) {
            assert(waiting_fits(s, to.0));
            let p = choose|p: u128| s.pending[to.0].contains(p);
            assert(rest.contains(p));
        }
        assert(t.pending =~= s.pending);
    } else {
        assert(!waits(m, to.0, from.0));
        assert(t.pending =~= s.pending);
    }
}

// Counting.

/// The counters are the numbers of tasks in each status, as long as all tasks
/// together fit in a counter.
pub proof fn law_counters_exact(s: EngineModel, class: StatusClass)
    requires
        sound(s),
        s.tasks.dom().len() <= u64::MAX,
    ensures
        counter_of(s.counters, class) == members_of(s.tasks, class).len(),
{
    let members = members_of(s.tasks, class);
    vstd::set_lib::lemma_len_subset(members, s.tasks.dom());
    assert(counter_of(s.counters, class) as int == members.len() as int % 0x1_0000_0000_0000_0000);
}

/// The five numbers of tasks in each status add up to the tasks there are.
pub proof fn law_statuses_add_up(tasks: Map<u128, TaskModel>)
    requires
        tasks.dom().finite(),
    ensures
        members_of(tasks, StatusClass::Pending).len() + members_of(tasks, StatusClass::Ready).len() + members_of(
            tasks,
            StatusClass::Running,
        ).len() + members_of(tasks, StatusClass::Completed).len() + members_of(tasks, StatusClass::Cancelled).len()
            == tasks.dom().len(),
{
    let all = tasks.dom();
    let a = members_of(tasks, StatusClass::Pending);
    let b = members_of(tasks, StatusClass::Ready);
    let c = members_of(tasks, StatusClass::Running);
    let d = members_of(tasks, StatusClass::Completed);
    let e = members_of(tasks, StatusClass::Cancelled);
    vstd::set_lib::lemma_set_disjoint_lens(a, b);
    vstd::set_lib::lemma_set_disjoint_lens(a + b, c);
    vstd::set_lib::lemma_set_disjoint_lens(a + b + c, d);
    vstd::set_lib::lemma_set_disjoint_lens(a + b + c + d, e);
    assert(a + b + c + d + e =~= all) by {
        assert forall|id: u128| all.contains(id) implies (a + b + c + d + e).contains(id) by {
            match class_of(tasks[id].status) {
                StatusClass::Pending => assert(a.contains(id)),
                StatusClass::Ready => assert(b.contains(id)),
                StatusClass::Running => assert(c.contains(id)),
                StatusClass::Completed => assert(d.contains(id)),
                StatusClass::Cancelled => assert(e.contains(id)),
            }
        }
    }
}

// In-degrees.

/// The unsatisfied blocking edges to `id`.
pub open spec fn unmet_edges(s: EngineModel, id: u128) -> Set<(u128, u128)> {
    s.edges.dom().filter(|key: (u128, u128)| key.1 == id && unmet(s, key.0, id))
}

/// The in-degree of every task is the number of unsatisfied blocking edges to
/// it, as far as it can be told: of the stored blocking edges to a task that has
/// not completed, those whose start has not completed.
pub proof fn law_degree_counts_edges(s: EngineModel, id: u128)
    requires
        sound(s),
        s.tasks.contains_key(id),
    ensures
        unmet_edges(s, id).finite(),
        s.tasks[id].edge_in_degree == clamped(unmet_edges(s, id).len()),
{
    assert(status_fits(s, id));
    let waiting = set_at(s.pending, id);
    let edges = unmet_edges(s, id);
    if s.pending.contains_key(id) {
        assert(waiting_fits(s, id));
    }
    let end = |p: u128| (p, id);
    assert(waiting.map(end) =~= edges) by {
        assert forall|key: (u128, u128)| waiting.map(end).contains(key) <==> edges.contains(key) by {
            assert(pair_fits(s, id, key.0));
            if edges.contains(key) {
                assert(waiting.contains(key.0));
                assert(end(key.0) == key);
            }
            if waiting.map(end).contains(key) {
                let p = choose|p: u128| waiting.contains(p) && end(p) == key;
                assert(pair_fits(s, id, p));
                assert(waits(s, id, p));
            }
        }
    }
    vstd::set_lib::lemma_map_size(waiting, edges, end);
}

/// The in-degree tells the status: a pending task has one above 0, a ready,
/// running or completed task has 0.
pub proof fn law_degree_tells_status(s: EngineModel, id: u128)
    requires
        sound(s),
        s.tasks.contains_key(id),
    ensures
        s.tasks[id].status is Pending ==> s.tasks[id].edge_in_degree > 0,
        s.tasks[id].status is Ready || s.tasks[id].status is Running || s.tasks[id].status is Completed
            ==> s.tasks[id].edge_in_degree == 0,
        s.tasks[id].edge_in_degree == 0 ==> !(s.tasks[id].status is Pending),
        s.tasks[id].edge_in_degree > 0 ==> s.tasks[id].status is Pending || s.tasks[id].status is Cancelled,
{
    assert(status_fits(s, id));
    if s.pending.contains_key(id) {
        assert(waiting_fits(s, id));
        if s.pending[id].len() == 0 {
            assert(s.pending[id] =~= Set::empty());
        }
    }
}

} // verus!
