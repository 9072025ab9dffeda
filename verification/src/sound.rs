//! What holds of an engine at all times.
use crate::graph::{
    acyclic, law_create_acyclic, law_depend_acyclic, law_initial_acyclic, law_remove_acyclic, lemma_acyclic_subset,
};
use crate::invariants::{
    consistent, law_cancel_consistent, law_create_consistent, law_depend_consistent, law_finish_consistent,
    law_initial_consistent, law_remove_consistent, law_start_consistent, lemma_tables_kept, status_fits,
};
use crate::model::{
    after_create, after_depend, after_remove, after_start, blocks, cancel_refusal, cancelled_all, cascade, creatable,
    creation_cycles, dependable, finished, initial, lemma_cancelled_all_frame, start_refusal, EngineModel,
};
use crate::types::{EdgeKind, SpecModel, TaskId, TaskResult, WorkerId};
use vstd::prelude::*;

verus! {

/// What every operation of the engine keeps: counters, statuses, in-degrees,
/// edges and indexes agree, and no task blocks itself.
pub open spec fn sound(s: EngineModel) -> bool {
    consistent(s) && acyclic(s)
}

/// A new engine is sound.
pub proof fn law_initial_sound()
    ensures
        sound(initial()),
{
    law_initial_consistent();
    law_initial_acyclic();
}

/// With the same edges there is no other cycle.
proof fn lemma_same_edges(s: EngineModel, t: EngineModel)
    requires
        acyclic(s),
        t.edges == s.edges,
    ensures
        acyclic(t),
{
    assert forall|p: u128, x: u128| #[trigger] blocks(t, p, x) implies blocks(s, p, x) by {}
    lemma_acyclic_subset(s, t);
}

/// What is announced, offered or numbered does not matter to soundness, nor
/// whether the engine is shutting down.
pub proof fn lemma_same_tables(s: EngineModel, t: EngineModel)
    requires
        t.tasks == s.tasks,
        t.edges == s.edges,
        t.pending == s.pending,
        t.dependents == s.dependents,
        t.joint == s.joint,
        t.counters == s.counters,
    ensures
        sound(s) ==> sound(t),
{
    if sound(s) {
        lemma_same_edges(s, t);
        lemma_tables_kept(s, t);
        assert forall|x: u128| #[trigger] t.tasks.contains_key(x) implies status_fits(t, x) by {
            assert(status_fits(s, x));
        }
    }
}

/// Creating a task keeps the engine sound.
pub proof fn law_create_sound(s: EngineModel, id: u128, now: u64, spec: SpecModel)
    requires
        sound(s),
        !s.tasks.contains_key(id),
        creatable(s, spec),
        !creation_cycles(s, id, spec.blocking_on),
    ensures
        sound(after_create(s, id, now, spec)),
{
    law_create_consistent(s, id, now, spec);
    law_create_acyclic(s, id, now, spec);
}

/// Starting a task keeps the engine sound.
pub proof fn law_start_sound(s: EngineModel, id: TaskId, worker: WorkerId, now: u64)
    requires
        sound(s),
        start_refusal(s, id) is None,
    ensures
        sound(after_start(s, id, worker, now)),
{
    law_start_consistent(s, id, worker, now);
    lemma_same_edges(s, after_start(s, id, worker, now));
}

/// Completing a task keeps the engine sound.
pub proof fn law_finish_sound(
    s: EngineModel,
    id: TaskId,
    result: TaskResult,
    now: u64,
    order: Seq<u128>,
    t: EngineModel,
)
    requires
        sound(s),
        finished(s, id, result, now, order, t),
    ensures
        sound(t),
{
    law_finish_consistent(s, id, result, now, order, t);
    lemma_same_edges(s, t);
}

/// Cancelling a task keeps the engine sound.
pub proof fn law_cancel_sound(s: EngineModel, id: TaskId, reason: u32, now: u64, order: Seq<u128>)
    requires
        sound(s),
        cancel_refusal(s, id) is None,
        cascade(s, id.0, order),
    ensures
        sound(cancelled_all(s, order, reason, now)),
{
    law_cancel_consistent(s, id, reason, now, order);
    assert forall|i: int| 0 <= i < order.len() implies s.tasks.contains_key(#[trigger] order[i]) by {
        if i > 0 {
            assert(s.cascades_to(order[i]));
        }
    }
    lemma_cancelled_all_frame(s, order, reason, now);
    lemma_same_edges(s, cancelled_all(s, order, reason, now));
}

/// Adding an edge keeps the engine sound.
pub proof fn law_depend_sound(s: EngineModel, from: TaskId, to: TaskId, kind: EdgeKind, now: u64)
    requires
        sound(s),
        dependable(s, from, to, kind),
    ensures
        sound(after_depend(s, from, to, kind, now)),
{
    law_depend_consistent(s, from, to, kind, now);
    law_depend_acyclic(s, from, to, kind, now);
}

/// Removing an edge keeps the engine sound.
pub proof fn law_remove_sound(s: EngineModel, key: (u128, u128), now: u64)
    requires
        sound(s),
        s.edges.contains_key(key),
    ensures
        sound(after_remove(s, key, now)),
{
    law_remove_consistent(s, key, now);
    law_remove_acyclic(s, key, now);
}

} // verus!
