//! What blocks what, and why nothing blocks itself.
use crate::invariants::{consistent, law_create_consistent};
use crate::model::{
    after_create, after_depend, after_remove, blocking_path, blocks, creatable, creation_cycles, dependable, initial,
    walk, EngineModel,
};
use crate::types::{EdgeKind, SpecModel, TaskId};
use vstd::prelude::*;

verus! {

/// Whether no task blocks itself, directly or through others. Blocking edges
/// count whether they are satisfied or not.
pub open spec fn acyclic(s: EngineModel) -> bool {
    forall|path: Seq<u128>| path.len() > 1 && #[trigger] walk(s, path) ==> path[0] != path.last()
}

/// A way leads from `a` to `b` exactly if they are the same task, or if it leads
/// to `b` from one of the tasks that block `a`.
pub proof fn law_path_unfolds(s: EngineModel, a: u128, b: u128)
    ensures
        blocking_path(s, a, b) <==> a == b || exists|p: u128| #[trigger] blocks(s, p, a) && blocking_path(s, p, b),
{
    if a == b {
        assert(walk(s, seq![a]));
        assert(seq![a].last() == b);
    } else {
        if blocking_path(s, a, b) {
            let path = choose|path: Seq<u128>| #[trigger] walk(s, path) && path[0] == a && path.last() == b;
            let rest = path.drop_first();
            assert(blocks(s, path[0int + 1], path[0]));
            assert forall|i: int| 0 <= i < rest.len() - 1 implies blocks(s, rest[i + 1], #[trigger] rest[i]) by {
                assert(blocks(s, path[i + 1 + 1], path[i + 1]));
            }
            assert(walk(s, rest) && rest[0] == path[1] && rest.last() == b);
            assert(blocks(s, path[1], a) && blocking_path(s, path[1], b));
        }
        if exists|p: u128| #[trigger] blocks(s, p, a) && blocking_path(s, p, b) {
            let p = choose|p: u128| #[trigger] blocks(s, p, a) && blocking_path(s, p, b);
            let path = choose|path: Seq<u128>| #[trigger] walk(s, path) && path[0] == p && path.last() == b;
            let longer = seq![a] + path;
            assert forall|i: int| 0 <= i < longer.len() - 1 implies blocks(s, longer[i + 1], #[trigger] longer[i]) by {
                if i > 0 {
                    assert(blocks(s, path[i - 1 + 1], path[i - 1]));
                }
            }
            assert(walk(s, longer) && longer[0] == a && longer.last() == b);
        }
    }
}

/// Where nothing blocks more than before, no cycle arises.
pub proof fn lemma_acyclic_subset(s: EngineModel, t: EngineModel)
    requires
        acyclic(s),
        forall|p: u128, x: u128| #[trigger] blocks(t, p, x) ==> blocks(s, p, x),
    ensures
        acyclic(t),
{
    assert forall|path: Seq<u128>| path.len() > 1 && #[trigger] walk(t, path) implies path[0] != path.last() by {
        assert(walk(s, path));
    }
}

/// Nothing blocks itself in a new engine.
pub proof fn law_initial_acyclic()
    ensures
        acyclic(initial()),
{
    assert forall|path: Seq<u128>| path.len() > 1 && #[trigger] walk(initial(), path) implies path[0]
        != path.last() by {
        assert(blocks(initial(), path[0int + 1], path[0]));
    }
}

/// The first place of `x` in `q`.
proof fn first_place(q: Seq<u128>, x: u128, n: int) -> (j: int)
    requires
        0 <= n < q.len(),
        q[n] == x,
    ensures
        0 <= j <= n,
        q[j] == x,
        forall|i: int| 0 <= i < j ==> #[trigger] q[i] != x,
    decreases n,
{
    if forall|i: int| 0 <= i < n ==> #[trigger] q[i] != x {
        n
    } else {
        let m = choose|m: int| 0 <= m < n && #[trigger] q[m] == x;
        first_place(q, x, m)
    }
}

/// A closed walk, begun after its `i`-th entry instead.
proof fn lemma_rotated(t: EngineModel, path: Seq<u128>, i: int)
    requires
        walk(t, path),
        path.len() > 1,
        path[0] == path.last(),
        0 <= i < path.len() - 1,
    ensures
        ({
            let q = path.subrange(i + 1, path.len() as int) + path.subrange(1, i + 1);
            &&& walk(t, q)
            &&& q.len() == path.len() - 1
            &&& q[0] == path[i + 1]
            &&& q.last() == path[i]
        }),
{
    let n = path.len() as int;
    let q = path.subrange(i + 1, n) + path.subrange(1, i + 1);
    assert forall|k: int| 0 <= k < q.len() - 1 implies blocks(t, q[k + 1], #[trigger] q[k]) by {
        if k < n - i - 2 {
            assert(q[k] == path[i + 1 + k] && q[k + 1] == path[i + 1 + k + 1]);
            assert(blocks(t, path[i + 1 + k + 1], path[i + 1 + k]));
        } else if k == n - i - 2 {
            assert(q[k] == path[0] && q[k + 1] == path[1]);
            assert(blocks(t, path[0int + 1], path[0]));
        } else {
            let m = k - (n - i - 1) + 1;
            assert(q[k] == path[m] && q[k + 1] == path[m + 1]);
            assert(blocks(t, path[m + 1], path[m]));
        }
    }
}

/// New blocking edges to `end` close no cycle, if no way leads from `end` to
/// where one of them begins.
proof fn lemma_acyclic_extended(s: EngineModel, t: EngineModel, end: u128)
    requires
        acyclic(s),
        forall|p: u128, x: u128| #[trigger]
            blocks(t, p, x) && !blocks(s, p, x) ==> x == end && !blocking_path(s, p, end),
    ensures
        acyclic(t),
{
    assert forall|path: Seq<u128>| path.len() > 1 && #[trigger] walk(t, path) implies path[0] != path.last() by {
        if path[0] == path.last() {
            if forall|i: int| 0 <= i < path.len() - 1 ==> blocks(s, path[i + 1], #[trigger] path[i]) {
                assert(walk(s, path));
            } else {
                let i = choose|i: int| 0 <= i < path.len() - 1 && !blocks(s, path[i + 1], #[trigger] path[i]);
                assert(blocks(t, path[i + 1], path[i]));
                lemma_rotated(t, path, i);
                let q = path.subrange(i + 1, path.len() as int) + path.subrange(1, i + 1);
                let j = first_place(q, end, q.len() - 1);
                let front = q.take(j + 1);
                assert forall|k: int| 0 <= k < front.len() - 1 implies blocks(s, front[k + 1], #[trigger] front[k]) by {
                    assert(front[k] == q[k] && front[k + 1] == q[k + 1]);
                    assert(blocks(t, q[k + 1], q[k]));
                    assert(q[k] != end);
                }
                assert(walk(s, front));
                assert(front[0] == path[i + 1] && front.last() == end);
                assert(blocking_path(s, path[i + 1], end));
            }
        }
    }
}

/// Creating a task closes no cycle.
pub proof fn law_create_acyclic(s: EngineModel, id: u128, now: u64, spec: SpecModel)
    requires
        acyclic(s),
        consistent(s),
        !s.tasks.contains_key(id),
        creatable(s, spec),
        !creation_cycles(s, id, spec.blocking_on),
    ensures
        acyclic(after_create(s, id, now, spec)),
{
    let t = after_create(s, id, now, spec);
    let deps = spec.blocking_on;
    law_create_consistent(s, id, now, spec);
    assert forall|p: u128, x: u128| #[trigger] blocks(t, p, x) && !blocks(s, p, x) implies x == id
        && !blocking_path(s, p, id) by {
        let k = choose|k: int| 0 <= k < deps.len() && deps[k] == TaskId(p);
        assert(!blocking_path(s, deps[k].0, id));
    }
    lemma_acyclic_extended(s, t, id);
}

/// An edge that was added closed no cycle.
pub proof fn law_depend_acyclic(s: EngineModel, from: TaskId, to: TaskId, kind: EdgeKind, now: u64)
    requires
        acyclic(s),
        dependable(s, from, to, kind),
    ensures
        acyclic(after_depend(s, from, to, kind, now)),
{
    let t = after_depend(s, from, to, kind, now);
    assert forall|p: u128, x: u128| #[trigger] blocks(t, p, x) && !blocks(s, p, x) implies x == to.0
        && !blocking_path(s, p, to.0) by {
        assert(p == from.0 && kind is Blocking);
    }
    lemma_acyclic_extended(s, t, to.0);
}

/// Removing an edge closes no cycle.
pub proof fn law_remove_acyclic(s: EngineModel, key: (u128, u128), now: u64)
    requires
        acyclic(s),
    ensures
        acyclic(after_remove(s, key, now)),
{
    let t = after_remove(s, key, now);
    assert forall|p: u128, x: u128| #[trigger] blocks(t, p, x) implies blocks(s, p, x) by {}
    lemma_acyclic_subset(s, t);
}

} // verus!
