//! What every operation of the engine keeps true of its state.
use crate::model::{
    after_create, after_depend, after_finish, after_remove, after_start, blocked_on, blocks, cancel_refusal, cancelled,
    cancelled_all, cascade, clamped, creatable, dependable, finished, initial, lemma_blocked_on_frame,
    lemma_cancelled_all_frame, new_task, next, previous, relieved, set_at, start_refusal, takes_effect, unlinked,
    unsatisfied_set, waits, woken, woken_all, Counters, EngineModel,
};
use crate::types::{EdgeKind, SpecModel, TaskId, TaskModel, TaskResult, TaskStatus, WorkerId};
use vstd::prelude::*;

verus! {

// Counting tasks.

/// The statuses without what they carry.
pub enum StatusClass {
    Pending,
    Ready,
    Running,
    Completed,
    Cancelled,
}

/// The class of a status.
pub open spec fn class_of(status: TaskStatus) -> StatusClass {
    match status {
        TaskStatus::Pending => StatusClass::Pending,
        TaskStatus::Ready => StatusClass::Ready,
        TaskStatus::Running { .. } => StatusClass::Running,
        TaskStatus::Completed { .. } => StatusClass::Completed,
        TaskStatus::Cancelled { .. } => StatusClass::Cancelled,
    }
}

/// The counter for a class.
pub open spec fn counter_of(counters: Counters, class: StatusClass) -> u64 {
    match class {
        StatusClass::Pending => counters.pending,
        StatusClass::Ready => counters.ready,
        StatusClass::Running => counters.running,
        StatusClass::Completed => counters.completed,
        StatusClass::Cancelled => counters.cancelled,
    }
}

/// The ids of the tasks in a class.
pub open spec fn members_of(tasks: Map<u128, TaskModel>, class: StatusClass) -> Set<u128> {
    tasks.dom().filter(|id: u128| class_of(tasks[id].status) == class)
}

/// Whether the counters hold the numbers of tasks in each class, modulo 2^64.
pub open spec fn counted(tasks: Map<u128, TaskModel>, counters: Counters) -> bool {
    forall|class: StatusClass| #[trigger]
        counter_of(counters, class) as int == members_of(tasks, class).len() as int % 0x1_0000_0000_0000_0000
}

/// Counting one task less and one more.
proof fn lemma_counter_moves(c: Counters, from: TaskStatus, to: TaskStatus, class: StatusClass)
    ensures
        counter_of(c.with(to), class) == if class_of(to) == class {
            next(counter_of(c, class))
        } else {
            counter_of(c, class)
        },
        counter_of(c.without(from), class) == if class_of(from) == class {
            previous(counter_of(c, class))
        } else {
            counter_of(c, class)
        },
{
}

/// A new task counted.
proof fn lemma_counted_insert(tasks: Map<u128, TaskModel>, counters: Counters, id: u128, task: TaskModel)
    requires
        tasks.dom().finite(),
        !tasks.contains_key(id),
        counted(tasks, counters),
    ensures
        counted(tasks.insert(id, task), counters.with(task.status)),
{
    let after = tasks.insert(id, task);
    assert forall|class: StatusClass| #[trigger]
        counter_of(counters.with(task.status), class) as int == members_of(after, class).len() as int
            % 0x1_0000_0000_0000_0000 by {
        lemma_counter_moves(counters, task.status, task.status, class);
        assert(counter_of(counters, class) as int == members_of(tasks, class).len() as int
            % 0x1_0000_0000_0000_0000);
        if class_of(task.status) == class {
            assert(members_of(after, class) =~= members_of(tasks, class).insert(id));
        } else {
            assert(members_of(after, class) =~= members_of(tasks, class));
        }
    }
}

/// A task that changed its status counted again.
proof fn lemma_counted_update(tasks: Map<u128, TaskModel>, counters: Counters, id: u128, task: TaskModel)
    requires
        tasks.dom().finite(),
        tasks.contains_key(id),
        counted(tasks, counters),
    ensures
        counted(tasks.insert(id, task), counters.without(tasks[id].status).with(task.status)),
{
    let from = tasks[id].status;
    let after = tasks.insert(id, task);
    assert forall|class: StatusClass| #[trigger]
        counter_of(counters.without(from).with(task.status), class) as int == members_of(after, class).len() as int
            % 0x1_0000_0000_0000_0000 by {
        lemma_counter_moves(counters, from, from, class);
        lemma_counter_moves(counters.without(from), from, task.status, class);
        assert(counter_of(counters, class) as int == members_of(tasks, class).len() as int
            % 0x1_0000_0000_0000_0000);
        let before_set = members_of(tasks, class);
        let after_set = members_of(after, class);
        if class_of(from) == class {
            assert(before_set.contains(id));
            if class_of(task.status) == class {
                assert(after_set =~= before_set);
            } else {
                assert(after_set =~= before_set.remove(id));
            }
        } else if class_of(task.status) == class {
            assert(after_set =~= before_set.insert(id));
            assert(!before_set.contains(id));
        } else {
            assert(after_set =~= before_set);
        }
    }
}

/// A task that kept its status does not change the counts.
proof fn lemma_counted_keep(tasks: Map<u128, TaskModel>, counters: Counters, id: u128, task: TaskModel)
    requires
        tasks.contains_key(id),
        counted(tasks, counters),
        class_of(task.status) == class_of(tasks[id].status),
    ensures
        counted(tasks.insert(id, task), counters),
{
    let after = tasks.insert(id, task);
    assert forall|class: StatusClass| #[trigger]
        counter_of(counters, class) as int == members_of(after, class).len() as int % 0x1_0000_0000_0000_0000 by {
        assert(members_of(after, class) =~= members_of(tasks, class));
    }
}

// Consistency.

/// Whether the blocking edge from `p` to `x` is unsatisfied: it is there, and
/// neither end has completed.
pub open spec fn unmet(s: EngineModel, p: u128, x: u128) -> bool {
    blocks(s, p, x) && !s.completed(p) && !s.completed(x)
}

/// Whether `x` is listed as blocked by `p`.
pub open spec fn listed(s: EngineModel, p: u128, x: u128) -> bool {
    set_at(s.dependents, p).contains(x)
}

/// Whether the status and the in-degree of `id` fit what it waits for: a pending
/// task waits for something; a ready, running or completed one waits for
/// nothing; the in-degree is the number of tasks it waits for.
pub open spec fn status_fits(s: EngineModel, id: u128) -> bool {
    &&& s.tasks[id].id == TaskId(id)
    &&& s.tasks[id].status is Pending ==> s.pending.contains_key(id)
    &&& s.pending.contains_key(id) ==> s.tasks[id].status is Pending || s.tasks[id].status is Cancelled
    &&& s.tasks[id].edge_in_degree == clamped(set_at(s.pending, id).len())
}

/// Whether what `id` waits for makes sense: `id` is a task, and it waits for
/// at least one task, but not for infinitely many.
pub open spec fn waiting_fits(s: EngineModel, id: u128) -> bool {
    &&& s.tasks.contains_key(id)
    &&& s.pending[id].finite()
    &&& exists|p: u128| s.pending[id].contains(p)
}

/// Whether the edge under `key` joins the two ends of its key, and ends at a
/// task.
pub open spec fn edge_fits(s: EngineModel, key: (u128, u128)) -> bool {
    &&& s.edges[key].from == TaskId(key.0)
    &&& s.edges[key].to == TaskId(key.1)
    &&& s.tasks.contains_key(key.1)
}

/// Whether the indexes know of `p` and `x` what the edges say: `x` waits for `p`
/// exactly if an unsatisfied blocking edge leads there, and is then listed; only
/// the ends of blocking edges are listed; and only a blocking edge stands for
/// two relations.
pub open spec fn pair_fits(s: EngineModel, x: u128, p: u128) -> bool {
    &&& waits(s, x, p) <==> unmet(s, p, x)
    &&& waits(s, x, p) ==> listed(s, p, x)
    &&& listed(s, p, x) ==> blocks(s, p, x)
    &&& set_at(s.joint, p).contains(x) ==> blocks(s, p, x)
}

/// What holds of tasks, waiting sets and edges, each for itself.
pub open spec fn regular(s: EngineModel) -> bool {
    &&& s.tasks.dom().finite()
    &&& counted(s.tasks, s.counters)
    &&& forall|id: u128| #[trigger] s.tasks.contains_key(id) ==> status_fits(s, id)
    &&& forall|id: u128| #[trigger] s.pending.contains_key(id) ==> waiting_fits(s, id)
    &&& forall|key: (u128, u128)| #[trigger] s.edges.contains_key(key) ==> edge_fits(s, key)
}

/// What holds of the engine at all times.
pub open spec fn consistent(s: EngineModel) -> bool {
    &&& regular(s)
    &&& forall|x: u128, p: u128| #[trigger] pair_fits(s, x, p)
}

/// A new engine is consistent.
pub proof fn law_initial_consistent()
    ensures
        consistent(initial()),
{
    let s = initial();
    assert forall|class: StatusClass| #[trigger]
        counter_of(s.counters, class) as int == members_of(s.tasks, class).len() as int
            % 0x1_0000_0000_0000_0000 by {
        assert(members_of(s.tasks, class) =~= Set::empty());
    }
}

/// What leaves the tables as they are, but for what tasks hold, keeps the edges
/// and the indexes in agreement.
pub proof fn lemma_tables_kept(s: EngineModel, t: EngineModel)
    requires
        consistent(s),
        t.edges == s.edges,
        t.pending == s.pending,
        t.dependents == s.dependents,
        t.joint == s.joint,
        t.tasks.dom() == s.tasks.dom(),
        forall|q: u128| #[trigger] t.completed(q) == s.completed(q),
    ensures
        forall|id: u128| #[trigger] t.pending.contains_key(id) ==> waiting_fits(t, id),
        forall|key: (u128, u128)| #[trigger] t.edges.contains_key(key) ==> edge_fits(t, key),
        forall|x: u128, p: u128| #[trigger] pair_fits(t, x, p),
{
    assert forall|x: u128| #[trigger] t.pending.contains_key(x) implies waiting_fits(t, x) by {
        assert(waiting_fits(s, x));
    }
    assert forall|key: (u128, u128)| #[trigger] t.edges.contains_key(key) implies edge_fits(t, key) by {
        assert(edge_fits(s, key));
    }
    assert forall|x: u128, p: u128| #[trigger] pair_fits(t, x, p) by {
        assert(pair_fits(s, x, p));
        assert(t.completed(p) == s.completed(p) && t.completed(x) == s.completed(x));
    }
}

/// Starting a task keeps the engine consistent.
pub proof fn law_start_consistent(s: EngineModel, id: TaskId, worker: WorkerId, now: u64)
    requires
        consistent(s),
        start_refusal(s, id) is None,
    ensures
        consistent(after_start(s, id, worker, now)),
{
    let t = after_start(s, id, worker, now);
    lemma_counted_update(s.tasks, s.counters, id.0, t.tasks[id.0]);
    assert(t.tasks.dom() =~= s.tasks.dom());
    assert(status_fits(s, id.0));
    lemma_tables_kept(s, t);
    assert forall|x: u128| #[trigger] t.tasks.contains_key(x) implies status_fits(t, x) by {
        assert(status_fits(s, x));
    }
}

/// A set that is not empty has a member.
proof fn lemma_member(set: Set<u128>) -> (p: u128)
    requires
        !(set =~= Set::empty()),
    ensures
        set.contains(p),
{
    let p = choose|p: u128| set.contains(p);
    if !set.contains(p) {
        assert(set =~= Set::empty());
    }
    p
}

/// Taking `id` out of what `dependent` waits for keeps the tables regular.
proof fn lemma_relieved_regular(s: EngineModel, id: u128, dependent: u128, now: u64)
    requires
        regular(s),
        waits(s, dependent, id),
    ensures
        ({
            let t = relieved(s, id, dependent, now);
            &&& regular(t)
            &&& t.edges == s.edges
            &&& t.dependents == s.dependents
            &&& t.joint == s.joint
            &&& t.tasks.dom() == s.tasks.dom()
            &&& forall|x: u128, p: u128| #[trigger]
                waits(t, x, p) <==> waits(s, x, p) && !(x == dependent && p == id)
            &&& forall|q: u128| #[trigger] t.completed(q) == s.completed(q)
        }),
{
    let t = relieved(s, id, dependent, now);
    assert(waiting_fits(s, dependent));
    assert(status_fits(s, dependent));
    let rest = s.pending[dependent].remove(id);
    if rest =~= Set::empty() && s.tasks[dependent].status is Pending {
        lemma_counted_update(s.tasks, s.counters, dependent, t.tasks[dependent]);
    } else {
        lemma_counted_keep(s.tasks, s.counters, dependent, t.tasks[dependent]);
    }
    assert(t.tasks.dom() =~= s.tasks.dom());
    assert(set_at(t.pending, dependent) =~= rest);
    assert forall|x: u128| #[trigger] t.tasks.contains_key(x) implies status_fits(t, x) by {
        assert(status_fits(s, x));
        if x != dependent {
            assert(set_at(t.pending, x) == set_at(s.pending, x));
        }
    }
    assert forall|x: u128| #[trigger] t.pending.contains_key(x) implies waiting_fits(t, x) by {
        assert(waiting_fits(s, x));
        let p = if x == dependent {
            lemma_member(rest)
        } else {
            choose|p: u128| s.pending[x].contains(p)
        };
        assert(t.pending[x].contains(p));
    }
    assert forall|key: (u128, u128)| #[trigger] t.edges.contains_key(key) implies edge_fits(t, key) by {
        assert(edge_fits(s, key));
    }
    assert forall|x: u128, p: u128| #[trigger] waits(t, x, p) <==> waits(s, x, p) && !(x == dependent && p
        == id) by {
        if x == dependent {
            assert(rest.contains(p) <==> s.pending[dependent].contains(p) && p != id);
        }
    }
}

/// Whether the indexes agree with the edges but for who waits for `id`, which
/// has completed and lists nobody any more.
spec fn settling(s: EngineModel, id: u128) -> bool {
    &&& regular(s)
    &&& s.completed(id)
    &&& !s.dependents.contains_key(id)
    &&& forall|x: u128, p: u128| p != id ==> #[trigger] pair_fits(s, x, p)
}

/// Waking the dependents of a completed task.
proof fn lemma_woken_all_settling(s: EngineModel, id: u128, order: Seq<u128>, now: u64)
    requires
        settling(s, id),
    ensures
        ({
            let t = woken_all(s, id, order, now);
            &&& settling(t, id)
            &&& t.edges == s.edges
            &&& t.joint == s.joint
            &&& t.tasks.dom() == s.tasks.dom()
            &&& forall|x: u128, p: u128| #[trigger]
                waits(t, x, p) <==> waits(s, x, p) && !(order.contains(x) && p == id)
            &&& forall|q: u128| #[trigger] t.completed(q) == s.completed(q)
        }),
    decreases order.len(),
{
    if order.len() > 0 {
        let shorter = order.drop_last();
        let last = order.last();
        lemma_woken_all_settling(s, id, shorter, now);
        let m = woken_all(s, id, shorter, now);
        let t = woken_all(s, id, order, now);
        assert(t == woken(m, id, last, now));
        assert forall|x: u128| #[trigger] order.contains(x) <==> shorter.contains(x) || x == last by {
            lemma_holds_last(order, x);
        }
        if waits(m, last, id) {
            lemma_relieved_regular(m, id, last, now);
            assert forall|x: u128, p: u128| p != id implies #[trigger] pair_fits(t, x, p) by {
                assert(pair_fits(m, x, p));
                assert(t.completed(p) == m.completed(p) && t.completed(x) == m.completed(x));
                assert(waits(t, x, p) == waits(m, x, p));
            }
            assert(t.completed(id) == m.completed(id));
        }
        assert forall|x: u128, p: u128| #[trigger] waits(t, x, p) <==> waits(s, x, p) && !(order.contains(x) && p
            == id) by {
            assert(waits(m, x, p) <==> waits(s, x, p) && !(shorter.contains(x) && p == id));
        }
        assert forall|q: u128| #[trigger] t.completed(q) == s.completed(q) by {
            assert(m.completed(q) == s.completed(q));
        }
    }
}

/// What a list contains, by its last entry.
pub proof fn lemma_holds_last(order: Seq<u128>, x: u128)
    requires
        order.len() > 0,
    ensures
        order.contains(x) <==> order.drop_last().contains(x) || x == order.last(),
{
    let shorter = order.drop_last();
    if order.contains(x) {
        let k = choose|k: int| 0 <= k < order.len() && order[k] == x;
        if k < shorter.len() {
            assert(shorter[k] == x);
        }
    }
    if shorter.contains(x) {
        let k = choose|k: int| 0 <= k < shorter.len() && shorter[k] == x;
        assert(order[k] == x);
    }
    if x == order.last() {
        assert(order[order.len() - 1] == x);
    }
}

/// Completing a task keeps the engine consistent. Afterwards nobody waits for
/// it, and everybody waits for what else they waited for.
pub proof fn law_finish_consistent(
    s: EngineModel,
    id: TaskId,
    result: TaskResult,
    now: u64,
    order: Seq<u128>,
    t: EngineModel,
)
    requires
        consistent(s),
        finished(s, id, result, now, order, t),
    ensures
        consistent(t),
        t.edges == s.edges,
        s.running(id.0) ==> forall|x: u128, p: u128| #[trigger]
            waits(t, x, p) <==> waits(s, x, p) && p != id.0,
{
    if s.running(id.0) {
        let m = after_finish(s, id, result, now);
        lemma_counted_update(s.tasks, s.counters, id.0, m.tasks[id.0]);
        assert(m.tasks.dom() =~= s.tasks.dom());
        assert(status_fits(s, id.0));
        assert(set_at(s.pending, id.0) =~= Set::empty());
        assert forall|x: u128| #[trigger] m.tasks.contains_key(x) implies status_fits(m, x) by {
            assert(status_fits(s, x));
        }
        assert forall|x: u128| #[trigger] m.pending.contains_key(x) implies waiting_fits(m, x) by {
            assert(waiting_fits(s, x));
        }
        assert forall|key: (u128, u128)| #[trigger] m.edges.contains_key(key) implies edge_fits(m, key) by {
            assert(edge_fits(s, key));
        }
        assert forall|x: u128, p: u128| p != id.0 implies #[trigger] pair_fits(m, x, p) by {
            assert(pair_fits(s, x, p));
            assert(waits(m, x, p) == waits(s, x, p));
            assert(m.completed(p) == s.completed(p));
            assert(x != id.0 ==> m.completed(x) == s.completed(x));
            assert(x == id.0 ==> !waits(s, x, p));
        }
        lemma_woken_all_settling(m, id.0, order, now);
        assert forall|x: u128, p: u128| #[trigger] waits(t, x, p) <==> waits(s, x, p) && p != id.0 by {
            assert(waits(m, x, p) == waits(s, x, p));
            if waits(s, x, id.0) {
                assert(pair_fits(s, x, id.0));
                assert(order.to_set().contains(x));
            }
        }
        assert forall|x: u128, p: u128| #[trigger] pair_fits(t, x, p) by {
            if p == id.0 {
                assert(pair_fits(s, x, id.0));
                assert(t.completed(id.0) == m.completed(id.0));
                assert(!waits(t, x, id.0));
            }
        }
    }
}

/// Cancelling one task keeps the engine consistent.
proof fn lemma_cancelled_consistent(s: EngineModel, id: u128, reason: u32, now: u64)
    requires
        consistent(s),
        s.tasks.contains_key(id),
        !s.completed(id),
    ensures
        consistent(cancelled(s, id, reason, now)),
{
    let t = cancelled(s, id, reason, now);
    lemma_counted_update(s.tasks, s.counters, id, t.tasks[id]);
    assert(t.tasks.dom() =~= s.tasks.dom());
    lemma_tables_kept(s, t);
    assert forall|x: u128| #[trigger] t.tasks.contains_key(x) implies status_fits(t, x) by {
        assert(status_fits(s, x));
    }
}

/// Cancelling tasks that have not completed keeps the engine consistent.
proof fn lemma_cancelled_all_consistent(s: EngineModel, order: Seq<u128>, reason: u32, now: u64)
    requires
        consistent(s),
        forall|i: int|
            0 <= i < order.len() ==> s.tasks.contains_key(#[trigger] order[i]) && !s.completed(order[i]),
    ensures
        consistent(cancelled_all(s, order, reason, now)),
    decreases order.len(),
{
    if order.len() > 0 {
        let shorter = order.drop_last();
        assert forall|i: int| 0 <= i < shorter.len() implies s.tasks.contains_key(#[trigger] shorter[i])
            && !s.completed(shorter[i]) by {
            assert(shorter[i] == order[i]);
        }
        lemma_cancelled_all_consistent(s, shorter, reason, now);
        lemma_cancelled_all_frame(s, shorter, reason, now);
        let last = order[order.len() - 1];
        assert(s.tasks.contains_key(last) && !s.completed(last));
        let m = cancelled_all(s, shorter, reason, now);
        if shorter.contains(last) {
            assert(m.tasks[last].status is Cancelled);
        } else {
            assert(m.tasks[last] == s.tasks[last]);
        }
        lemma_cancelled_consistent(m, last, reason, now);
    }
}

/// Cancelling a task keeps the engine consistent.
pub proof fn law_cancel_consistent(s: EngineModel, id: TaskId, reason: u32, now: u64, order: Seq<u128>)
    requires
        consistent(s),
        cancel_refusal(s, id) is None,
        cascade(s, id.0, order),
    ensures
        consistent(cancelled_all(s, order, reason, now)),
{
    assert forall|i: int| 0 <= i < order.len() implies s.tasks.contains_key(#[trigger] order[i]) && !s.completed(
        order[i],
    ) by {
        if i > 0 {
            assert(s.cascades_to(order[i]));
        }
    }
    lemma_cancelled_all_consistent(s, order, reason, now);
}

/// Adding a dependency keeps the engine consistent; at most `to` waits for
/// `from` in addition.
pub proof fn law_depend_consistent(s: EngineModel, from: TaskId, to: TaskId, kind: EdgeKind, now: u64)
    requires
        consistent(s),
        dependable(s, from, to, kind),
    ensures
        consistent(after_depend(s, from, to, kind, now)),
        forall|x: u128, p: u128| #[trigger]
            waits(after_depend(s, from, to, kind, now), x, p) <==> waits(s, x, p) || (takes_effect(s, from, to, kind)
                && x == to.0 && p == from.0),
{
    let t = after_depend(s, from, to, kind, now);
    let task = s.tasks[to.0];
    let effect = takes_effect(s, from, to, kind);
    assert(status_fits(s, to.0));
    if s.pending.contains_key(to.0) {
        assert(waiting_fits(s, to.0));
    }
    if effect {
        assert(set_at(t.pending, to.0) == t.pending[to.0]);
        if task.status is Ready || task.status is Running {
            lemma_counted_update(s.tasks, s.counters, to.0, t.tasks[to.0]);
        } else {
            lemma_counted_keep(s.tasks, s.counters, to.0, t.tasks[to.0]);
        }
    }
    assert(t.tasks.dom() =~= s.tasks.dom());
    assert forall|q: u128| #[trigger] t.completed(q) == s.completed(q) by {}
    assert forall|x: u128| #[trigger] t.tasks.contains_key(x) implies status_fits(t, x) by {
        assert(status_fits(s, x));
        if x != to.0 {
            assert(set_at(t.pending, x) == set_at(s.pending, x));
        }
    }
    assert forall|x: u128| #[trigger] t.pending.contains_key(x) implies waiting_fits(t, x) by {
        if effect && x == to.0 {
            assert(t.pending[x].contains(from.0));
        } else {
            assert(waiting_fits(s, x));
            let p = choose|p: u128| s.pending[x].contains(p);
            assert(t.pending[x].contains(p));
        }
    }
    assert forall|key: (u128, u128)| #[trigger] t.edges.contains_key(key) implies edge_fits(t, key) by {
        if key != (from.0, to.0) {
            assert(edge_fits(s, key));
        }
    }
    assert forall|x: u128, p: u128| #[trigger] waits(t, x, p) <==> waits(s, x, p) || (effect && x == to.0 && p
        == from.0) by {}
    assert forall|x: u128, p: u128| #[trigger] pair_fits(t, x, p) by {
        assert(pair_fits(s, x, p));
        assert(t.completed(p) == s.completed(p) && t.completed(x) == s.completed(x));
        assert((p, x) != (from.0, to.0) ==> blocks(t, p, x) == blocks(s, p, x));
        assert(waits(t, x, p) <==> waits(s, x, p) || (effect && x == to.0 && p == from.0));
        assert(listed(t, p, x) <==> listed(s, p, x) || (kind is Blocking && x == to.0 && p == from.0));
    }
}

/// Removing a dependency keeps the engine consistent; its end no longer waits
/// for its start.
pub proof fn law_remove_consistent(s: EngineModel, key: (u128, u128), now: u64)
    requires
        consistent(s),
        s.edges.contains_key(key),
    ensures
        consistent(after_remove(s, key, now)),
        forall|x: u128, p: u128| #[trigger]
            waits(after_remove(s, key, now), x, p) <==> waits(s, x, p) && !(x == key.1 && p == key.0),
{
    let (from, to) = key;
    let u = unlinked(s, key);
    let t = after_remove(s, key, now);
    assert(pair_fits(s, to, from));
    assert(regular(u)) by {
        assert forall|x: u128| #[trigger] u.tasks.contains_key(x) implies status_fits(u, x) by {
            assert(status_fits(s, x));
        }
        assert forall|x: u128| #[trigger] u.pending.contains_key(x) implies waiting_fits(u, x) by {
            assert(waiting_fits(s, x));
        }
        assert forall|k: (u128, u128)| #[trigger] u.edges.contains_key(k) implies edge_fits(u, k) by {
            assert(edge_fits(s, k));
        }
    }
    assert(waits(u, to, from) == waits(s, to, from));
    if s.edges[key].kind is Blocking && waits(s, to, from) {
        lemma_relieved_regular(u, from, to, now);
    }
    assert forall|x: u128, p: u128| #[trigger] waits(t, x, p) <==> waits(s, x, p) && !(x == to && p == from) by {
        assert(waits(u, x, p) == waits(s, x, p));
    }
    assert forall|x: u128, p: u128| #[trigger] pair_fits(t, x, p) by {
        assert(pair_fits(s, x, p));
        assert(u.completed(p) == s.completed(p) && u.completed(x) == s.completed(x));
        assert(t.completed(p) == u.completed(p) && t.completed(x) == u.completed(x));
        assert(waits(t, x, p) <==> waits(s, x, p) && !(x == to && p == from));
        assert((p, x) != key ==> blocks(t, p, x) == blocks(s, p, x));
        assert(listed(t, p, x) <==> listed(s, p, x) && !(x == to && p == from));
    }
}

/// What a list contains, by its last entry.
pub proof fn lemma_contains_last(deps: Seq<TaskId>, d: TaskId)
    requires
        deps.len() > 0,
    ensures
        deps.contains(d) <==> deps.drop_last().contains(d) || d == deps.last(),
{
    let shorter = deps.drop_last();
    if deps.contains(d) {
        let k = choose|k: int| 0 <= k < deps.len() && deps[k] == d;
        if k < shorter.len() {
            assert(shorter[k] == d);
        }
    }
    if shorter.contains(d) {
        let k = choose|k: int| 0 <= k < shorter.len() && shorter[k] == d;
        assert(deps[k] == d);
    }
    if d == deps.last() {
        assert(deps[deps.len() - 1] == d);
    }
}

/// The edges that a new task gets from its dependencies, and who lists it as a
/// dependent.
pub proof fn lemma_blocked_on_edges(s: EngineModel, id: u128, seq: u64, deps: Seq<TaskId>)
    ensures
        ({
            let t = blocked_on(s, id, seq, deps);
            &&& forall|key: (u128, u128)|
                #![trigger t.edges.contains_key(key)]
                #![trigger s.edges.contains_key(key)]
                t.edges.contains_key(key) <==> s.edges.contains_key(key) || (key.1 == id && deps.contains(
                    TaskId(key.0),
                ))
            &&& forall|key: (u128, u128)|
                (key.1 == id && deps.contains(TaskId(key.0))) ==> {
                    &&& (#[trigger] t.edges[key]).kind is Blocking
                    &&& t.edges[key].from == TaskId(key.0)
                    &&& t.edges[key].to == TaskId(id)
                    &&& t.edges[key].seq == seq
                }
            &&& forall|key: (u128, u128)|
                !(key.1 == id && deps.contains(TaskId(key.0))) ==> #[trigger] t.edges[key] == s.edges[key]
            &&& forall|p: u128, x: u128|
                #![trigger set_at(t.dependents, p).contains(x)]
                set_at(t.dependents, p).contains(x) <==> set_at(s.dependents, p).contains(x) || (x == id
                    && deps.contains(TaskId(p)))
        }),
    decreases deps.len(),
{
    if deps.len() > 0 {
        lemma_blocked_on_edges(s, id, seq, deps.drop_last());
        assert forall|d: TaskId| deps.contains(d) <==> #[trigger] deps.drop_last().contains(d) || d
            == deps.last() by {
            lemma_contains_last(deps, d);
        }
        let m = blocked_on(s, id, seq, deps.drop_last());
        let t = blocked_on(s, id, seq, deps);
        assert forall|p: u128, x: u128|
            #![trigger set_at(t.dependents, p).contains(x)]
            set_at(t.dependents, p).contains(x) <==> set_at(s.dependents, p).contains(x) || (x == id
                && deps.contains(TaskId(p))) by {
            lemma_contains_last(deps, TaskId(p));
            assert(set_at(m.dependents, p).contains(x) <==> set_at(s.dependents, p).contains(x) || (x == id
                && deps.drop_last().contains(TaskId(p))));
        }
        assert forall|key: (u128, u128)|
            t.edges.contains_key(key) <==> #[trigger] s.edges.contains_key(key) || (key.1 == id && deps.contains(
                TaskId(key.0),
            )) by {
            lemma_contains_last(deps, TaskId(key.0));
        }
        assert forall|key: (u128, u128)| (key.1 == id && deps.contains(TaskId(key.0))) implies {
            &&& (#[trigger] t.edges[key]).kind is Blocking
            &&& t.edges[key].from == TaskId(key.0)
            &&& t.edges[key].to == TaskId(id)
        } by {
            lemma_contains_last(deps, TaskId(key.0));
            assert(m.edges[key] == m.edges[key]);
        }
        assert forall|key: (u128, u128)| !(key.1 == id && deps.contains(TaskId(key.0))) implies #[trigger] t.edges[key]
            == s.edges[key] by {
            lemma_contains_last(deps, TaskId(key.0));
            assert(m.edges[key] == s.edges[key]);
        }
    }
}

/// There are finitely many unsatisfied dependencies.
pub proof fn lemma_unsatisfied_finite(s: EngineModel, deps: Seq<TaskId>)
    ensures
        unsatisfied_set(s, deps).finite(),
    decreases deps.len(),
{
    let set = unsatisfied_set(s, deps);
    if deps.len() == 0 {
        assert(set =~= Set::empty());
    } else {
        let shorter = deps.drop_last();
        let last = deps.last();
        lemma_unsatisfied_finite(s, shorter);
        assert forall|d: u128| deps.contains(TaskId(d)) <==> shorter.contains(TaskId(d)) || d == last.0 by {
            lemma_contains_last(deps, TaskId(d));
        }
        if s.completed(last.0) {
            assert(set =~= unsatisfied_set(s, shorter));
        } else {
            assert(set =~= unsatisfied_set(s, shorter).insert(last.0));
        }
    }
}

/// Creating a task under a new id keeps the engine consistent; only the new
/// task waits for anything in addition, and only it is blocked by more.
pub proof fn law_create_consistent(s: EngineModel, id: u128, now: u64, spec: SpecModel)
    requires
        consistent(s),
        !s.tasks.contains_key(id),
        creatable(s, spec),
    ensures
        consistent(after_create(s, id, now, spec)),
        forall|x: u128, p: u128| #[trigger]
            waits(after_create(s, id, now, spec), x, p) <==> waits(s, x, p) || (x == id && unsatisfied_set(
                s,
                spec.blocking_on,
            ).contains(p)),
        forall|x: u128, p: u128| #[trigger]
            blocks(after_create(s, id, now, spec), p, x) <==> blocks(s, p, x) || (x == id
                && spec.blocking_on.contains(TaskId(p))),
{
    let t = after_create(s, id, now, spec);
    let deps = spec.blocking_on;
    let task = new_task(s, id, now, spec);
    let waiting = unsatisfied_set(s, deps);
    let stored = s.numbered().with_task(id, task);
    let linked = blocked_on(stored, id, s.seq, deps);
    lemma_blocked_on_frame(stored, id, s.seq, deps);
    lemma_blocked_on_edges(stored, id, s.seq, deps);
    lemma_unsatisfied_finite(s, deps);
    lemma_counted_insert(s.tasks, s.counters, id, task);
    assert(!s.pending.contains_key(id)) by {
        if s.pending.contains_key(id) {
            assert(waiting_fits(s, id));
        }
    }
    let with_new = s.tasks.insert(id, task);
    if let Some(parent) = spec.parent {
        if with_new.contains_key(parent.0) {
            lemma_counted_keep(with_new, s.counters.with(task.status), parent.0, t.tasks[parent.0]);
        }
    }
    assert(t.tasks.dom() =~= s.tasks.dom().insert(id));
    assert(t.dependents == linked.dependents);
    assert(set_at(t.pending, id) =~= waiting);
    assert forall|q: u128| #[trigger] t.completed(q) == s.completed(q) by {}
    assert forall|x: u128| #[trigger] t.tasks.contains_key(x) implies status_fits(t, x) by {
        if x != id {
            assert(status_fits(s, x));
            assert(set_at(t.pending, x) == set_at(s.pending, x));
        }
    }
    assert forall|x: u128| #[trigger] t.pending.contains_key(x) implies waiting_fits(t, x) by {
        let p = if x == id {
            lemma_member(waiting)
        } else {
            assert(waiting_fits(s, x));
            choose|p: u128| s.pending[x].contains(p)
        };
        assert(t.pending[x].contains(p));
    }
    assert forall|key: (u128, u128)| #[trigger] t.edges.contains_key(key) implies edge_fits(t, key) by {
        let adopted_edge = spec.parent matches Some(parent) && key == (parent.0, id) && !linked.edges.contains_key(key);
        if !adopted_edge {
            assert(linked.edges.contains_key(key));
            assert(linked.edges[key] == t.edges[key]);
            if !(key.1 == id && deps.contains(TaskId(key.0))) {
                assert(s.edges.contains_key(key));
                assert(edge_fits(s, key));
            }
        }
    }
    assert forall|x: u128, p: u128| #[trigger] waits(t, x, p) <==> waits(s, x, p) || (x == id
        && waiting.contains(p)) by {}
    assert forall|x: u128, p: u128| #[trigger] blocks(t, p, x) <==> blocks(s, p, x) || (x == id && deps.contains(
        TaskId(p),
    )) by {
        let key = (p, x);
        assert(linked.edges.contains_key(key) <==> stored.edges.contains_key(key) || (x == id && deps.contains(
            TaskId(p),
        )));
        assert(linked.edges[key] == linked.edges[key]);
        if s.edges.contains_key(key) {
            assert(edge_fits(s, key));
        }
    }
    assert forall|x: u128, p: u128| #[trigger] pair_fits(t, x, p) by {
        assert(pair_fits(s, x, p));
        assert(t.completed(p) == s.completed(p) && t.completed(x) == s.completed(x));
        assert(waits(t, x, p) <==> waits(s, x, p) || (x == id && waiting.contains(p)));
        assert(blocks(t, p, x) <==> blocks(s, p, x) || (x == id && deps.contains(TaskId(p))));
        assert(listed(t, p, x) <==> set_at(linked.dependents, p).contains(x));
        assert(set_at(linked.dependents, p).contains(x) <==> set_at(stored.dependents, p).contains(x) || (x == id
            && deps.contains(TaskId(p))));
        if x == id && s.edges.contains_key((p, x)) {
            assert(edge_fits(s, (p, x)));
        }
        if set_at(t.joint, p).contains(x) && !set_at(s.joint, p).contains(x) {
            assert(linked.edges.contains_key((p, x)));
            assert(!stored.edges.contains_key((p, x)));
        }
    }
}

} // verus!
