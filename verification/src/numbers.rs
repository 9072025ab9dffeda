//! Sequence numbers: they grow, and each is used once.
use crate::laws::{after, allowed, Op};
use crate::model::{
    adopted, after_create, after_finish, blocked_on, cancel_refusal, cancelled_all, cascade, initial, lists, new_task,
    relieved, takes_effect, unlinked, unsatisfied_set, waits, with_edge, with_member, woken_all, EngineModel,
};
use crate::types::{EdgeId, SpecModel, TaskId, TaskStatus};
use vstd::prelude::*;

verus! {

/// Whether every number in use is older than the next one: those of tasks,
/// edges and announcements. Announcements are in the order of their numbers,
/// and no two edges have the same id.
pub open spec fn in_order(s: EngineModel) -> bool {
    &&& forall|id: u128| #[trigger] s.tasks.contains_key(id) ==> s.tasks[id].seq < s.seq
    &&& forall|key: (u128, u128)| #[trigger] s.edges.contains_key(key) ==> s.edges[key].id.0 < s.seq
    &&& forall|a: (u128, u128), b: (u128, u128)| #[trigger]
        s.edges.contains_key(a) && #[trigger] s.edges.contains_key(b) && s.edges[a].id == s.edges[b].id ==> a == b
    &&& forall|i: int| 0 <= i < s.events.len() ==> (#[trigger] s.events[i]).2 < s.seq
    &&& forall|i: int, j: int|
        0 <= i < j < s.events.len() ==> (#[trigger] s.events[i]).2 < (#[trigger] s.events[j]).2
}

/// Whether everything numbered is in order, and `n` more numbers can be drawn
/// before they run out.
pub open spec fn room(s: EngineModel, n: nat) -> bool {
    in_order(s) && s.seq + n <= u64::MAX
}

/// How many numbers an operation uses up at most.
pub open spec fn cost(op: Op) -> nat {
    match op {
        Op::Create { id, now, spec } => spec.blocking_on.len() + 2,
        Op::Start { id, worker, now } => 2,
        Op::Finish { id, result, now, order } => 2 * order.len() + 2,
        Op::Cancel { id, reason, now, order } => 3 * order.len(),
        Op::Depend { from, to, kind, now } => 5,
        Op::Remove { key, now } => 2,
        _ => 0,
    }
}

/// Moving a task uses up two numbers.
proof fn lemma_moved(s: EngineModel, id: u128, status: TaskStatus, now: u64, degree: u16)
    requires
        in_order(s),
        s.seq + 2 <= u64::MAX,
    ensures
        in_order(s.moved(id, status, now, degree)),
        s.moved(id, status, now, degree).seq == s.seq + 2,
{
    let t = s.moved(id, status, now, degree);
    assert(t.events == s.events.push((TaskId(id), status, (s.seq + 1) as u64)));
    assert forall|x: u128| #[trigger] t.tasks.contains_key(x) implies t.tasks[x].seq < t.seq by {
        if x != id {
            assert(s.tasks.contains_key(x));
        }
    }
    assert forall|key: (u128, u128)| #[trigger] t.edges.contains_key(key) implies t.edges[key].id.0 < t.seq by {
        assert(s.edges.contains_key(key));
    }
}

/// An announcement uses up one number.
proof fn lemma_announced(s: EngineModel, id: TaskId, status: TaskStatus)
    requires
        in_order(s),
        s.seq + 1 <= u64::MAX,
    ensures
        in_order(s.announced(id, status)),
        s.announced(id, status).seq == s.seq + 1,
{
    let t = s.announced(id, status);
    assert forall|key: (u128, u128)| #[trigger] t.edges.contains_key(key) implies t.edges[key].id.0 < t.seq by {
        assert(s.edges.contains_key(key));
    }
    assert forall|x: u128| #[trigger] t.tasks.contains_key(x) implies t.tasks[x].seq < t.seq by {
        assert(s.tasks.contains_key(x));
    }
}

/// Taking one task out of what another waits for uses up two numbers at most.
proof fn lemma_relieved(s: EngineModel, id: u128, dependent: u128, now: u64)
    requires
        in_order(s),
        s.seq + 2 <= u64::MAX,
    ensures
        in_order(relieved(s, id, dependent, now)),
        s.seq <= relieved(s, id, dependent, now).seq <= s.seq + 2,
{
    let t = relieved(s, id, dependent, now);
    if s.pending[dependent].remove(id) =~= Set::empty() && s.tasks.contains_key(dependent)
        && s.tasks[dependent].status is Pending {
        let free = EngineModel { pending: s.pending.remove(dependent), ..s };
        lemma_moved(free, dependent, TaskStatus::Ready, now, 0);
    } else {
        assert forall|x: u128| #[trigger] t.tasks.contains_key(x) implies t.tasks[x].seq < t.seq by {
            assert(s.tasks.contains_key(x));
        }
    }
}

/// Waking dependents uses up two numbers for each at most.
proof fn lemma_woken_all(s: EngineModel, id: u128, order: Seq<u128>, now: u64)
    requires
        in_order(s),
        s.seq + 2 * order.len() <= u64::MAX,
    ensures
        in_order(woken_all(s, id, order, now)),
        s.seq <= woken_all(s, id, order, now).seq <= s.seq + 2 * order.len(),
    decreases order.len(),
{
    if order.len() > 0 {
        lemma_woken_all(s, id, order.drop_last(), now);
        let m = woken_all(s, id, order.drop_last(), now);
        if waits(m, order.last(), id) {
            lemma_relieved(m, id, order.last(), now);
        }
    }
}

/// Cancelling tasks uses up three numbers for each.
proof fn lemma_cancelled_all(s: EngineModel, order: Seq<u128>, reason: u32, now: u64)
    requires
        in_order(s),
        s.seq + 3 * order.len() <= u64::MAX,
    ensures
        in_order(cancelled_all(s, order, reason, now)),
        cancelled_all(s, order, reason, now).seq == s.seq + 3 * order.len(),
    decreases order.len(),
{
    if order.len() > 0 {
        let m = cancelled_all(s, order.drop_last(), reason, now);
        lemma_cancelled_all(s, order.drop_last(), reason, now);
        let status = TaskStatus::Cancelled { reason };
        let degree = m.tasks[order.last()].edge_in_degree;
        lemma_moved(m, order.last(), status, now, degree);
        lemma_announced(m.moved(order.last(), status, now, degree), TaskId(order.last()), status);
    }
}

/// A new edge with the next number for its id.
proof fn lemma_edge(s: EngineModel, key: (u128, u128), t: EngineModel)
    requires
        in_order(s),
        s.seq + 1 <= u64::MAX,
        t.seq == s.seq + 1,
        t.tasks == s.tasks,
        t.events == s.events,
        t.edges.contains_key(key),
        t.edges == s.edges.insert(key, t.edges[key]),
        t.edges[key].id == EdgeId(s.seq),
    ensures
        in_order(t),
{
    assert forall|k: (u128, u128)| #[trigger] t.edges.contains_key(k) implies t.edges[k].id.0 < t.seq by {
        if k != key {
            assert(s.edges.contains_key(k));
        }
    }
    assert forall|a: (u128, u128), b: (u128, u128)| #[trigger]
        t.edges.contains_key(a) && #[trigger] t.edges.contains_key(b) && t.edges[a].id == t.edges[b].id implies a
        == b by {
        if a != key {
            assert(s.edges.contains_key(a));
        }
        if b != key {
            assert(s.edges.contains_key(b));
        }
    }
    assert forall|x: u128| #[trigger] t.tasks.contains_key(x) implies t.tasks[x].seq < t.seq by {
        assert(s.tasks.contains_key(x));
    }
}

/// The edges from the dependencies of a new task use up one number each.
proof fn lemma_blocked_on(s: EngineModel, id: u128, seq: u64, deps: Seq<TaskId>)
    requires
        in_order(s),
        s.seq + deps.len() <= u64::MAX,
    ensures
        in_order(blocked_on(s, id, seq, deps)),
        blocked_on(s, id, seq, deps).seq == s.seq + deps.len(),
    decreases deps.len(),
{
    if deps.len() > 0 {
        let m = blocked_on(s, id, seq, deps.drop_last());
        lemma_blocked_on(s, id, seq, deps.drop_last());
        let t = blocked_on(s, id, seq, deps);
        let key = (deps.last().0, id);
        assert(t.edges =~= m.edges.insert(key, t.edges[key]));
        lemma_edge(m, key, t);
    }
}

/// Creating a task uses up one number for the task and one for each edge.
proof fn lemma_created(s: EngineModel, id: u128, now: u64, spec: SpecModel)
    requires
        in_order(s),
        s.seq + spec.blocking_on.len() + 2 <= u64::MAX,
    ensures
        in_order(after_create(s, id, now, spec)),
        s.seq <= after_create(s, id, now, spec).seq <= s.seq + spec.blocking_on.len() + 2,
{
    let t = after_create(s, id, now, spec);
    let deps = spec.blocking_on;
    // With its announcement the stored task is in order.
    let stored = s.numbered().with_task(id, new_task(s, id, now, spec));
    assert(in_order(stored)) by {
        assert forall|x: u128| #[trigger] stored.tasks.contains_key(x) implies stored.tasks[x].seq < stored.seq by {
            if x != id {
                assert(s.tasks.contains_key(x));
            }
        }
        assert forall|k: (u128, u128)| #[trigger] stored.edges.contains_key(k) implies stored.edges[k].id.0
            < stored.seq by {
            assert(s.edges.contains_key(k));
        }
    }
    lemma_blocked_on(stored, id, s.seq, deps);
    crate::model::lemma_blocked_on_frame(stored, id, s.seq, deps);
    let linked = blocked_on(stored, id, s.seq, deps);
    let waiting = unsatisfied_set(s, deps);
    let indexed = if waiting =~= Set::empty() {
        linked
    } else {
        EngineModel { pending: linked.pending.insert(id, waiting), ..linked }
    };
    let family = match spec.parent {
        Some(parent) => adopted(indexed, id, s.seq, parent),
        None => indexed,
    };
    assert(in_order(family)) by {
        if let Some(parent) = spec.parent {
            let counted = EngineModel { tasks: family.tasks, ..indexed };
            assert forall|x: u128| #[trigger] counted.tasks.contains_key(x) implies counted.tasks[x].seq
                < counted.seq by {
                assert(indexed.tasks.contains_key(x));
            }
            let key = (parent.0, id);
            if indexed.edges.contains_key(key) {
                assert forall|k: (u128, u128)| #[trigger] family.edges.contains_key(k) implies family.edges[k].id.0
                    < family.seq by {
                    assert(indexed.edges.contains_key(k));
                }
            } else {
                assert(family.edges =~= counted.edges.insert(key, family.edges[key]));
                lemma_edge(counted, key, family);
            }
        }
    }
    assert(family.events == s.events);
    assert(t.events =~= s.events.push((TaskId(id), new_task(s, id, now, spec).status, s.seq)));
    assert forall|i: int| 0 <= i < t.events.len() implies (#[trigger] t.events[i]).2 < t.seq by {
        if i < s.events.len() {
            assert(t.events[i] == s.events[i]);
        }
    }
}

/// Numbers grow with every operation, and what is numbered stays in order, as
/// long as the numbers do not run out.
pub proof fn law_step_in_order(s: EngineModel, op: Op)
    requires
        in_order(s),
        allowed(s, op),
        s.seq + cost(op) <= u64::MAX,
    ensures
        in_order(after(s, op)),
        s.seq <= after(s, op).seq <= s.seq + cost(op),
{
    let t = after(s, op);
    match op {
        Op::Create { id, now, spec } => lemma_created(s, id.0, now, spec),
        Op::Start { id, worker, now } => lemma_moved(
            s,
            id.0,
            TaskStatus::Running { worker_id: worker },
            now,
            s.tasks[id.0].edge_in_degree,
        ),
        Op::Finish { id, result, now, order } => {
            lemma_moved(s, id.0, TaskStatus::Completed { result }, now, s.tasks[id.0].edge_in_degree);
            lemma_woken_all(after_finish(s, id, result, now), id.0, order, now);
        },
        Op::Cancel { id, reason, now, order } => lemma_cancelled_all(s, order, reason, now),
        Op::Depend { from, to, kind, now } => {
            let linked = with_edge(s, from, to, kind);
            let key = (from.0, to.0);
            let first = EngineModel { seq: (s.seq + 1) as u64, ..linked };
            assert(first.edges =~= s.edges.insert(key, first.edges[key]));
            lemma_edge(s, key, first);
            assert(in_order(linked));
            if takes_effect(s, from, to, kind) {
                let waiting = EngineModel { pending: with_member(s.pending, to.0, from.0), ..linked };
                assert(in_order(waiting));
                if s.tasks[to.0].status is Ready || s.tasks[to.0].status is Running {
                    let degree = t.tasks[to.0].edge_in_degree;
                    lemma_moved(waiting, to.0, TaskStatus::Pending, now, degree);
                    lemma_announced(
                        waiting.moved(to.0, TaskStatus::Pending, now, degree),
                        to,
                        TaskStatus::Pending,
                    );
                } else {
                    assert forall|x: u128| #[trigger] t.tasks.contains_key(x) implies t.tasks[x].seq < t.seq by {
                        assert(s.tasks.contains_key(x));
                    }
                }
            }
        },
        Op::Remove { key, now } => {
            let u = unlinked(s, key);
            assert(in_order(u)) by {
                assert forall|k: (u128, u128)| #[trigger] u.edges.contains_key(k) implies s.edges.contains_key(k)
                    && u.edges[k] == s.edges[k] by {}
            }
            if s.edges[key].kind is Blocking && waits(s, key.1, key.0) {
                lemma_relieved(u, key.0, key.1, now);
            }
        },
        _ => {},
    }
}

/// A list of each member of a set is as long as the set is large.
pub proof fn lemma_lists_len(order: Seq<u128>, set: Set<u128>)
    requires
        lists(order, set),
    ensures
        order.len() == set.len(),
{
    order.unique_seq_to_set();
}

/// A cascade is no longer than there are tasks.
pub proof fn lemma_cascade_len(s: EngineModel, id: TaskId, order: Seq<u128>)
    requires
        s.tasks.dom().finite(),
        cancel_refusal(s, id) is None,
        cascade(s, id.0, order),
    ensures
        order.len() <= s.tasks.dom().len(),
{
    order.unique_seq_to_set();
    assert forall|x: u128| order.to_set().contains(x) implies s.tasks.dom().contains(x) by {
        let k = choose|k: int| 0 <= k < order.len() && order[k] == x;
        if k > 0 {
            assert(s.cascades_to(order[k]));
        }
    }
    vstd::set_lib::lemma_len_subset(order.to_set(), s.tasks.dom());
}

/// A new engine is in order.
pub proof fn law_initial_in_order()
    ensures
        in_order(initial()),
{
}

} // verus!
