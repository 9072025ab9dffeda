//! The engine as a state machine: its state as a mathematical value, and what
//! each operation makes of it.
use crate::error::ErrorModel;
use crate::types::{
    Dependency, EdgeId, EdgeKind, EngineStats, SpecModel, TaskId, TaskModel, TaskResult, TaskStatus, WorkerId,
};
use vstd::prelude::*;

verus! {

/// Number of tasks in each status, modulo 2^64.
#[derive(Debug, Clone, Copy, PartialEq, Eq, Structural)]
pub struct Counters {
    pub pending: u64,
    pub ready: u64,
    pub running: u64,
    pub completed: u64,
    pub cancelled: u64,
}

/// The number after `n`, with 0 after the largest.
pub open spec fn next(n: u64) -> u64 {
    if n < u64::MAX {
        (n + 1) as u64
    } else {
        0
    }
}

/// The number before `n`, with the largest before 0.
pub open spec fn previous(n: u64) -> u64 {
    if n > 0 {
        (n - 1) as u64
    } else {
        u64::MAX
    }
}

impl Counters {
    /// One more task in `status`.
    pub open spec fn with(self, status: TaskStatus) -> Counters {
        match status {
            TaskStatus::Pending => Counters { pending: next(self.pending), ..self },
            TaskStatus::Ready => Counters { ready: next(self.ready), ..self },
            TaskStatus::Running { .. } => Counters { running: next(self.running), ..self },
            TaskStatus::Completed { .. } => Counters { completed: next(self.completed), ..self },
            TaskStatus::Cancelled { .. } => Counters { cancelled: next(self.cancelled), ..self },
        }
    }

    /// One task less in `status`.
    pub open spec fn without(self, status: TaskStatus) -> Counters {
        match status {
            TaskStatus::Pending => Counters { pending: previous(self.pending), ..self },
            TaskStatus::Ready => Counters { ready: previous(self.ready), ..self },
            TaskStatus::Running { .. } => Counters { running: previous(self.running), ..self },
            TaskStatus::Completed { .. } => Counters { completed: previous(self.completed), ..self },
            TaskStatus::Cancelled { .. } => Counters { cancelled: previous(self.cancelled), ..self },
        }
    }

    /// The counters of an engine without tasks.
    pub fn new() -> (c: Counters)
        ensures
            c == (Counters { pending: 0, ready: 0, running: 0, completed: 0, cancelled: 0 }),
    {
        Counters { pending: 0, ready: 0, running: 0, completed: 0, cancelled: 0 }
    }

    /// Counts one more task in `status`.
    pub fn inc(&mut self, status: TaskStatus)
        ensures
            *final(self) == old(self).with(status),
    {
        match status {
            TaskStatus::Pending => {
                self.pending = self.pending.wrapping_add(1);
            },
            TaskStatus::Ready => {
                self.ready = self.ready.wrapping_add(1);
            },
            TaskStatus::Running { .. } => {
                self.running = self.running.wrapping_add(1);
            },
            TaskStatus::Completed { .. } => {
                self.completed = self.completed.wrapping_add(1);
            },
            TaskStatus::Cancelled { .. } => {
                self.cancelled = self.cancelled.wrapping_add(1);
            },
        }
    }

    /// Counts one task less in `status`.
    pub fn dec(&mut self, status: TaskStatus)
        ensures
            *final(self) == old(self).without(status),
    {
        match status {
            TaskStatus::Pending => {
                self.pending = self.pending.wrapping_sub(1);
            },
            TaskStatus::Ready => {
                self.ready = self.ready.wrapping_sub(1);
            },
            TaskStatus::Running { .. } => {
                self.running = self.running.wrapping_sub(1);
            },
            TaskStatus::Completed { .. } => {
                self.completed = self.completed.wrapping_sub(1);
            },
            TaskStatus::Cancelled { .. } => {
                self.cancelled = self.cancelled.wrapping_sub(1);
            },
        }
    }

    /// The counters as a stats snapshot, each reduced to the size of `usize`.
    pub fn snapshot(&self) -> (s: EngineStats)
        ensures
            s.pending == self.pending as usize,
            s.ready == self.ready as usize,
            s.running == self.running as usize,
            s.completed == self.completed as usize,
            s.cancelled == self.cancelled as usize,
    {
        #[verifier::truncate]
        let pending: usize = self.pending as usize;
        #[verifier::truncate]
        let ready: usize = self.ready as usize;
        #[verifier::truncate]
        let running: usize = self.running as usize;
        #[verifier::truncate]
        let completed: usize = self.completed as usize;
        #[verifier::truncate]
        let cancelled: usize = self.cancelled as usize;
        EngineStats { pending, ready, running, completed, cancelled }
    }
}

/// The state of an engine.
#[verifier::ext_equal]
pub struct EngineModel {
    /// The tasks by id.
    pub tasks: Map<u128, TaskModel>,
    /// The edges by the ids of their ends.
    pub edges: Map<(u128, u128), Dependency>,
    /// For a task, the blocking predecessors that have not completed.
    pub pending: Map<u128, Set<u128>>,
    /// For a task, the tasks that are blocked by it.
    pub dependents: Map<u128, Set<u128>>,
    /// For a task, the children to which a blocking edge from it leads, so that
    /// the one edge stands for both relations.
    pub joint: Map<u128, Set<u128>>,
    /// Tasks that became ready and have not been handed out.
    pub ready: Seq<TaskId>,
    /// Status changes that have not been handed out.
    pub events: Seq<(TaskId, TaskStatus, u64)>,
    /// The next sequence number.
    pub seq: u64,
    /// Whether the engine is shutting down.
    pub shutdown: bool,
    /// The number of tasks by status.
    pub counters: Counters,
}

/// The set that an index holds for `id`.
pub open spec fn set_at(index: Map<u128, Set<u128>>, id: u128) -> Set<u128> {
    if index.contains_key(id) {
        index[id]
    } else {
        Set::empty()
    }
}

/// An index with `member` added to the set for `id`.
pub open spec fn with_member(index: Map<u128, Set<u128>>, id: u128, member: u128) -> Map<u128, Set<u128>> {
    index.insert(id, set_at(index, id).insert(member))
}

/// An index with `member` taken out of the set for `id`.
pub open spec fn without_member(index: Map<u128, Set<u128>>, id: u128, member: u128) -> Map<u128, Set<u128>> {
    if index.contains_key(id) {
        index.insert(id, index[id].remove(member))
    } else {
        index
    }
}

/// Whether `x` waits for `p` to complete.
pub open spec fn waits(s: EngineModel, x: u128, p: u128) -> bool {
    set_at(s.pending, x).contains(p)
}

/// Whether a blocking edge leads from `p` to `x`.
pub open spec fn blocks(s: EngineModel, p: u128, x: u128) -> bool {
    s.edges.contains_key((p, x)) && s.edges[(p, x)].kind is Blocking
}

/// A number as an in-degree: the largest one if it does not fit.
pub open spec fn clamped(n: nat) -> u16 {
    if n <= u16::MAX {
        n as u16
    } else {
        u16::MAX
    }
}

/// The engine without tasks.
pub open spec fn initial() -> EngineModel {
    EngineModel {
        tasks: Map::empty(),
        edges: Map::empty(),
        pending: Map::empty(),
        dependents: Map::empty(),
        joint: Map::empty(),
        ready: Seq::empty(),
        events: Seq::empty(),
        seq: 0,
        shutdown: false,
        counters: Counters { pending: 0, ready: 0, running: 0, completed: 0, cancelled: 0 },
    }
}

impl EngineModel {
    /// Whether `id` is a task that has completed.
    pub open spec fn completed(self, id: u128) -> bool {
        self.tasks.contains_key(id) && self.tasks[id].status is Completed
    }

    /// Whether `id` is a task that is running.
    pub open spec fn running(self, id: u128) -> bool {
        self.tasks.contains_key(id) && self.tasks[id].status is Running
    }

    /// Whether `id` is a task that `worker` is running.
    pub open spec fn runs(self, worker: WorkerId, id: u128) -> bool {
        self.tasks.contains_key(id) && self.tasks[id].status == (TaskStatus::Running { worker_id: worker })
    }

    /// Whether `id` is a task that a cascade of cancellations takes along.
    pub open spec fn cascades_to(self, id: u128) -> bool {
        self.tasks.contains_key(id) && (self.tasks[id].status is Running || self.tasks[id].status is Pending)
    }

    /// One sequence number used up.
    pub open spec fn numbered(self) -> EngineModel {
        EngineModel { seq: next(self.seq), ..self }
    }

    /// A status change announced under the next sequence number.
    pub open spec fn announced(self, id: TaskId, status: TaskStatus) -> EngineModel {
        EngineModel { events: self.events.push((id, status, self.seq)), ..self }.numbered()
    }

    /// A status change counted and announced.
    pub open spec fn transitioned(self, id: TaskId, from: TaskStatus, to: TaskStatus) -> EngineModel {
        EngineModel { counters: self.counters.without(from).with(to), ..self }.announced(id, to)
    }

    /// The task `id` replaced.
    pub open spec fn with_task(self, id: u128, task: TaskModel) -> EngineModel {
        EngineModel { tasks: self.tasks.insert(id, task), ..self }
    }

    /// The task `id` moved to `status` at the time `now`, with the in-degree
    /// `degree`.
    pub open spec fn moved(self, id: u128, status: TaskStatus, now: u64, degree: u16) -> EngineModel {
        let task = self.tasks[id];
        self.with_task(
            id,
            TaskModel { status, updated_at: now, seq: self.seq, edge_in_degree: degree, ..task },
        ).numbered().transitioned(TaskId(id), task.status, status)
    }

    /// The task `id` offered to workers.
    pub open spec fn offered(self, id: u128) -> EngineModel {
        EngineModel { ready: self.ready.push(TaskId(id)), ..self }
    }

    /// The task `id` with the in-degree for `n` unsatisfied dependencies.
    pub open spec fn with_degree(self, id: u128, n: nat) -> EngineModel {
        let task = self.tasks[id];
        self.with_task(id, TaskModel { edge_in_degree: clamped(n), ..task })
    }
}

// Creating a task.

/// The entries of `deps` that are not completed tasks.
pub open spec fn unsatisfied_set(s: EngineModel, deps: Seq<TaskId>) -> Set<u128> {
    Set::new(|d: u128| deps.contains(TaskId(d)) && !s.completed(d))
}

/// The edges from `deps` to `id` added in order, each with a number of its
/// own, and `id` listed as a dependent of each.
pub open spec fn blocked_on(s: EngineModel, id: u128, seq: u64, deps: Seq<TaskId>) -> EngineModel
    decreases deps.len(),
{
    if deps.len() == 0 {
        s
    } else {
        let before = blocked_on(s, id, seq, deps.drop_last());
        let dep = deps.last();
        EngineModel {
            edges: before.edges.insert(
                (dep.0, id),
                Dependency {
                    id: EdgeId(before.seq),
                    from: dep,
                    to: TaskId(id),
                    kind: EdgeKind::Blocking,
                    seq,
                },
            ),
            dependents: with_member(before.dependents, dep.0, id),
            ..before
        }.numbered()
    }
}

/// Edges added this way leave everything else as it was.
pub proof fn lemma_blocked_on_frame(s: EngineModel, id: u128, seq: u64, deps: Seq<TaskId>)
    ensures
        ({
            let t = blocked_on(s, id, seq, deps);
            &&& t.tasks == s.tasks
            &&& t.pending == s.pending
            &&& t.joint == s.joint
            &&& t.ready == s.ready
            &&& t.events == s.events
            &&& t.shutdown == s.shutdown
            &&& t.counters == s.counters
        }),
    decreases deps.len(),
{
    if deps.len() > 0 {
        lemma_blocked_on_frame(s, id, seq, deps.drop_last());
    }
}

/// The task `id` made a child of `parent`: the parent, if it exists, counts
/// it, and an edge leads from the parent to it. A blocking edge that leads there
/// already is kept and stands for both relations.
pub open spec fn adopted(s: EngineModel, id: u128, seq: u64, parent: TaskId) -> EngineModel {
    let counted = if s.tasks.contains_key(parent.0) {
        let task = s.tasks[parent.0];
        s.with_task(parent.0, TaskModel { child_count: (task.child_count + 1) as u16, ..task })
    } else {
        s
    };
    if s.edges.contains_key((parent.0, id)) {
        EngineModel { joint: with_member(s.joint, parent.0, id), ..counted }.numbered()
    } else {
        EngineModel {
            edges: counted.edges.insert(
                (parent.0, id),
                Dependency { id: EdgeId(counted.seq), from: parent, to: TaskId(id), kind: EdgeKind::Parent, seq },
            ),
            ..counted
        }.numbered()
    }
}

/// The status that a new task begins in.
pub open spec fn initial_status(s: EngineModel, deps: Seq<TaskId>) -> TaskStatus {
    if unsatisfied_set(s, deps) =~= Set::empty() {
        TaskStatus::Ready
    } else {
        TaskStatus::Pending
    }
}

/// A new task.
pub open spec fn new_task(s: EngineModel, id: u128, now: u64, spec: SpecModel) -> TaskModel {
    TaskModel {
        id: TaskId(id),
        spec,
        status: initial_status(s, spec.blocking_on),
        created_at: now,
        updated_at: now,
        seq: s.seq,
        child_count: 0,
        edge_in_degree: clamped(unsatisfied_set(s, spec.blocking_on).len()),
    }
}

/// The state once a task made from `spec` stands under `id`, which is new.
pub open spec fn after_create(s: EngineModel, id: u128, now: u64, spec: SpecModel) -> EngineModel {
    let status = initial_status(s, spec.blocking_on);
    let waiting = unsatisfied_set(s, spec.blocking_on);
    let stored = s.numbered().with_task(id, new_task(s, id, now, spec));
    let linked = blocked_on(stored, id, s.seq, spec.blocking_on);
    let indexed = if waiting =~= Set::empty() {
        linked
    } else {
        EngineModel { pending: linked.pending.insert(id, waiting), ..linked }
    };
    let family = match spec.parent {
        Some(parent) => adopted(indexed, id, s.seq, parent),
        None => indexed,
    };
    let counted = EngineModel { counters: family.counters.with(status), ..family };
    let queued = if status is Ready {
        counted.offered(id)
    } else {
        counted
    };
    EngineModel { events: queued.events.push((TaskId(id), status, s.seq)), ..queued }
}

/// What the sizes of the counts in a task allow: a task may wait for 65535
/// dependencies and have 65535 children.
pub open spec fn creatable(s: EngineModel, spec: SpecModel) -> bool {
    &&& unsatisfied_set(s, spec.blocking_on).len() <= u16::MAX
    &&& spec.parent matches Some(parent) ==> s.tasks.contains_key(parent.0) ==> s.tasks[parent.0].child_count
        < u16::MAX
}

/// Whether a task made under `id` with the given dependencies would close a
/// cycle: one of them is `id` or is blocked by it, directly or through others.
pub open spec fn creation_cycles(s: EngineModel, id: u128, deps: Seq<TaskId>) -> bool {
    exists|i: int| 0 <= i < deps.len() && blocking_path(s, (#[trigger] deps[i]).0, id)
}

/// What a creation answers and leaves behind, for the id and the time it drew.
pub open spec fn created(
    s: EngineModel,
    id: u128,
    now: u64,
    spec: SpecModel,
    r: Result<TaskId, ErrorModel>,
    t: EngineModel,
) -> bool {
    if s.shutdown {
        r == Err::<TaskId, ErrorModel>(ErrorModel::EngineShuttingDown) && t == s
    } else if s.tasks.contains_key(id) {
        r == Err::<TaskId, ErrorModel>(ErrorModel::AlreadyExists(TaskId(id))) && t == s
    } else if creation_cycles(s, id, spec.blocking_on) {
        &&& t == s
        &&& r matches Err(ErrorModel::CycleDetected { path })
        &&& exists|i: int|
            0 <= i < spec.blocking_on.len() && leads(s, path, (#[trigger] spec.blocking_on[i]).0, id)
    } else {
        r == Ok::<TaskId, ErrorModel>(TaskId(id)) && t == after_create(s, id, now, spec)
    }
}

// Starting a task.

/// Why `id` cannot be started, if it cannot.
pub open spec fn start_refusal(s: EngineModel, id: TaskId) -> Option<ErrorModel> {
    if s.shutdown {
        Some(ErrorModel::EngineShuttingDown)
    } else if !s.tasks.contains_key(id.0) {
        Some(ErrorModel::NotFound(id))
    } else {
        match s.tasks[id.0].status {
            TaskStatus::Ready => None,
            TaskStatus::Running { worker_id } => Some(ErrorModel::AlreadyRunning { id, worker: worker_id }),
            other => Some(ErrorModel::InvalidTransition { id, from: other, attempted: "start"@ }),
        }
    }
}

/// The state once `worker` runs `id`.
pub open spec fn after_start(s: EngineModel, id: TaskId, worker: WorkerId, now: u64) -> EngineModel {
    s.moved(id.0, TaskStatus::Running { worker_id: worker }, now, s.tasks[id.0].edge_in_degree)
}

// Completing a task.

/// The state once `dependent` no longer waits for `id`, if it did. A pending
/// task that waits for nothing else becomes ready.
pub open spec fn woken(s: EngineModel, id: u128, dependent: u128, now: u64) -> EngineModel {
    if !waits(s, dependent, id) {
        s
    } else {
        relieved(s, id, dependent, now)
    }
}

/// The state with `id` taken out of what `dependent` waits for.
pub open spec fn relieved(s: EngineModel, id: u128, dependent: u128, now: u64) -> EngineModel {
    let rest = s.pending[dependent].remove(id);
    let less = EngineModel {
        pending: if rest =~= Set::empty() {
            s.pending.remove(dependent)
        } else {
            s.pending.insert(dependent, rest)
        },
        ..s
    };
    if !s.tasks.contains_key(dependent) {
        less
    } else if rest =~= Set::empty() && s.tasks[dependent].status is Pending {
        less.moved(dependent, TaskStatus::Ready, now, 0).offered(dependent)
    } else {
        less.with_degree(dependent, rest.len())
    }
}

/// The state once each of `order`, one after the other, no longer waits for
/// `id`.
pub open spec fn woken_all(s: EngineModel, id: u128, order: Seq<u128>, now: u64) -> EngineModel
    decreases order.len(),
{
    if order.len() == 0 {
        s
    } else {
        woken(woken_all(s, id, order.drop_last(), now), id, order.last(), now)
    }
}

/// Whether `order` lists each member of `set` once.
pub open spec fn lists(order: Seq<u128>, set: Set<u128>) -> bool {
    order.no_duplicates() && order.to_set() == set
}

/// The state once `id` has completed with `result`, before anything waiting
/// for it is looked at.
pub open spec fn after_finish(s: EngineModel, id: TaskId, result: TaskResult, now: u64) -> EngineModel {
    let done = s.moved(id.0, TaskStatus::Completed { result }, now, s.tasks[id.0].edge_in_degree);
    EngineModel { dependents: done.dependents.remove(id.0), ..done }
}

/// What completing `id` leaves behind: nothing happens to a task that is not
/// running; otherwise the task has completed and its dependents were looked at,
/// in the order in which the index gave them out.
pub open spec fn finished(
    s: EngineModel,
    id: TaskId,
    result: TaskResult,
    now: u64,
    order: Seq<u128>,
    t: EngineModel,
) -> bool {
    if !s.running(id.0) {
        t == s
    } else {
        &&& lists(order, set_at(s.dependents, id.0))
        &&& t == woken_all(after_finish(s, id, result, now), id.0, order, now)
    }
}

/// What completing `id` on behalf of `worker` leaves behind: nothing happens to
/// a task that the worker is not running.
pub open spec fn finished_by(
    s: EngineModel,
    worker: WorkerId,
    id: TaskId,
    result: TaskResult,
    now: u64,
    order: Seq<u128>,
    t: EngineModel,
) -> bool {
    if s.runs(worker, id.0) {
        finished(s, id, result, now, order, t)
    } else {
        t == s
    }
}

// Cancelling a task.

/// Why `id` cannot be cancelled, if it cannot.
pub open spec fn cancel_refusal(s: EngineModel, id: TaskId) -> Option<ErrorModel> {
    if s.shutdown {
        Some(ErrorModel::EngineShuttingDown)
    } else if !s.tasks.contains_key(id.0) {
        Some(ErrorModel::NotFound(id))
    } else if s.tasks[id.0].status is Completed || s.tasks[id.0].status is Cancelled {
        Some(ErrorModel::InvalidTransition { id, from: s.tasks[id.0].status, attempted: "cancel"@ })
    } else {
        None
    }
}

/// Whether `child` is a child of `parent`: a parent edge leads to it, or an edge
/// that stands for both relations does.
pub open spec fn parent_of(s: EngineModel, parent: u128, child: u128) -> bool {
    &&& s.edges.contains_key((parent, child))
    &&& s.edges[(parent, child)].kind is Parent || set_at(s.joint, parent).contains(child)
}

/// The task `id` cancelled. The change is announced twice.
pub open spec fn cancelled(s: EngineModel, id: u128, reason: u32, now: u64) -> EngineModel {
    let status = TaskStatus::Cancelled { reason };
    s.moved(id, status, now, s.tasks[id].edge_in_degree).announced(TaskId(id), status)
}

/// Each of `order` cancelled, one after the other.
pub open spec fn cancelled_all(s: EngineModel, order: Seq<u128>, reason: u32, now: u64) -> EngineModel
    decreases order.len(),
{
    if order.len() == 0 {
        s
    } else {
        cancelled(cancelled_all(s, order.drop_last(), reason, now), order.last(), reason, now)
    }
}

/// Cancelling tasks touches nothing but those tasks, the counters, the
/// announcements and the sequence number.
pub proof fn lemma_cancelled_all_frame(s: EngineModel, order: Seq<u128>, reason: u32, now: u64)
    requires
        forall|i: int| 0 <= i < order.len() ==> s.tasks.contains_key(#[trigger] order[i]),
    ensures
        ({
            let t = cancelled_all(s, order, reason, now);
            &&& t.edges == s.edges
            &&& t.pending == s.pending
            &&& t.dependents == s.dependents
            &&& t.joint == s.joint
            &&& t.ready == s.ready
            &&& t.shutdown == s.shutdown
            &&& t.tasks.dom() == s.tasks.dom()
            &&& forall|id: u128|
                s.tasks.contains_key(id) && order.contains(id) ==> (#[trigger] t.tasks[id]).status
                    == (TaskStatus::Cancelled { reason })
            &&& forall|id: u128|
                s.tasks.contains_key(id) && !order.contains(id) ==> #[trigger] t.tasks[id] == s.tasks[id]
            &&& forall|id: u128|
                s.tasks.contains_key(id) ==> (#[trigger] t.tasks[id]).spec == s.tasks[id].spec && t.tasks[id].id
                    == s.tasks[id].id && t.tasks[id].edge_in_degree == s.tasks[id].edge_in_degree
        }),
    decreases order.len(),
{
    if order.len() > 0 {
        let shorter = order.drop_last();
        assert forall|i: int| 0 <= i < shorter.len() implies s.tasks.contains_key(#[trigger] shorter[i]) by {
            assert(shorter[i] == order[i]);
        }
        lemma_cancelled_all_frame(s, shorter, reason, now);
        let t = cancelled_all(s, order, reason, now);
        assert(s.tasks.contains_key(order[order.len() - 1]));
        assert(t.tasks.dom() =~= s.tasks.dom());
        assert forall|id: u128| order.contains(id) <==> shorter.contains(id) || id == order.last() by {
            if order.contains(id) {
                let k = choose|k: int| 0 <= k < order.len() && order[k] == id;
                if k < shorter.len() {
                    assert(shorter[k] == id);
                }
            }
            if shorter.contains(id) {
                let k = choose|k: int| 0 <= k < shorter.len() && shorter[k] == id;
                assert(order[k] == id);
            }
            if id == order.last() {
                assert(order[order.len() - 1] == id);
            }
        }
    }
}

/// Cancelling one list and then another is cancelling the two as one list.
pub proof fn lemma_cancelled_all_concat(s: EngineModel, a: Seq<u128>, b: Seq<u128>, reason: u32, now: u64)
    ensures
        cancelled_all(cancelled_all(s, a, reason, now), b, reason, now) == cancelled_all(s, a + b, reason, now),
    decreases b.len(),
{
    if b.len() == 0 {
        assert(a + b =~= a);
    } else {
        lemma_cancelled_all_concat(s, a, b.drop_last(), reason, now);
        assert((a + b).drop_last() =~= a + b.drop_last());
    }
}

/// Whether `order` is an order in which a cancellation of `id` runs down the
/// tree of children: it begins with `id`, each other entry is a pending or
/// running child of an earlier one, none occurs twice, and no pending or
/// running child of an entry is left out.
pub open spec fn cascade(s: EngineModel, id: u128, order: Seq<u128>) -> bool {
    &&& order.len() > 0
    &&& order[0] == id
    &&& order.no_duplicates()
    &&& forall|i: int|
        0 < i < order.len() ==> s.cascades_to(#[trigger] order[i]) && exists|j: int|
            0 <= j < i && #[trigger] parent_of(s, order[j], order[i])
    &&& forall|i: int, child: u128|
        0 <= i < order.len() && #[trigger] parent_of(s, order[i], child) && s.cascades_to(child)
            ==> order.contains(child)
}

// Adding a dependency.

/// Whether each entry of `path` but the last is blocked by the next.
pub open spec fn walk(s: EngineModel, path: Seq<u128>) -> bool {
    path.len() > 0 && forall|i: int| 0 <= i < path.len() - 1 ==> blocks(s, path[i + 1], #[trigger] path[i])
}

/// Whether `b` is `a` or one of the tasks that block it, directly or through
/// others.
pub open spec fn blocking_path(s: EngineModel, a: u128, b: u128) -> bool {
    exists|path: Seq<u128>| #[trigger] walk(s, path) && path[0] == a && path.last() == b
}

/// The ids as numbers.
pub open spec fn numbers_of(path: Seq<TaskId>) -> Seq<u128> {
    path.map_values(|id: TaskId| id.0)
}

/// Whether `path` leads from `a` to `b` along what blocks what.
pub open spec fn leads(s: EngineModel, path: Seq<TaskId>, a: u128, b: u128) -> bool {
    &&& walk(s, numbers_of(path))
    &&& path[0] == TaskId(a)
    &&& path.last() == TaskId(b)
}

/// Why an edge cannot be added, if it cannot, apart from cycles.
pub open spec fn depend_refusal(s: EngineModel, from: TaskId, to: TaskId) -> Option<ErrorModel> {
    if s.shutdown {
        Some(ErrorModel::EngineShuttingDown)
    } else if !s.tasks.contains_key(from.0) {
        Some(ErrorModel::NotFound(from))
    } else if !s.tasks.contains_key(to.0) {
        Some(ErrorModel::NotFound(to))
    } else if s.edges.contains_key((from.0, to.0)) {
        Some(ErrorModel::AlreadyExists(to))
    } else {
        None
    }
}

/// Whether an edge would close a cycle: it blocks, and its start is its end or
/// is blocked by its end.
pub open spec fn edge_cycles(s: EngineModel, from: TaskId, to: TaskId, kind: EdgeKind) -> bool {
    kind is Blocking && blocking_path(s, from.0, to.0)
}

/// Whether an edge can be added.
pub open spec fn dependable(s: EngineModel, from: TaskId, to: TaskId, kind: EdgeKind) -> bool {
    depend_refusal(s, from, to) is None && !edge_cycles(s, from, to, kind)
}

/// The state with an edge added, before its effect on `to`. The edge's id is
/// the sequence number before the one it carries. Only the end of a blocking
/// edge is listed as blocked by its start.
pub open spec fn with_edge(s: EngineModel, from: TaskId, to: TaskId, kind: EdgeKind) -> EngineModel {
    let twice = s.numbered().numbered();
    EngineModel {
        edges: s.edges.insert(
            (from.0, to.0),
            Dependency { id: EdgeId(s.seq), from, to, kind, seq: next(s.seq) },
        ),
        dependents: if kind is Blocking {
            with_member(s.dependents, from.0, to.0)
        } else {
            s.dependents
        },
        ..twice
    }
}

/// Whether an edge of the given kind makes `to` wait: it blocks, and neither end
/// has completed.
pub open spec fn takes_effect(s: EngineModel, from: TaskId, to: TaskId, kind: EdgeKind) -> bool {
    kind is Blocking && !s.completed(from.0) && !s.completed(to.0)
}

/// The state once `to` depends on `from`. An unsatisfied blocking edge makes
/// `to` wait; if it was ready or running it goes back to pending, which is
/// announced twice.
pub open spec fn after_depend(s: EngineModel, from: TaskId, to: TaskId, kind: EdgeKind, now: u64) -> EngineModel {
    let linked = with_edge(s, from, to, kind);
    if !takes_effect(s, from, to, kind) {
        linked
    } else {
        let waiting = EngineModel { pending: with_member(s.pending, to.0, from.0), ..linked };
        let n = waiting.pending[to.0].len();
        if s.tasks[to.0].status is Ready || s.tasks[to.0].status is Running {
            waiting.moved(to.0, TaskStatus::Pending, now, clamped(n)).announced(to, TaskStatus::Pending)
        } else {
            waiting.with_degree(to.0, n)
        }
    }
}

// Removing a dependency.

/// The state with the edge under `key` taken out of the tables.
pub open spec fn unlinked(s: EngineModel, key: (u128, u128)) -> EngineModel {
    EngineModel {
        edges: s.edges.remove(key),
        dependents: without_member(s.dependents, key.0, key.1),
        joint: without_member(s.joint, key.0, key.1),
        ..s
    }
}

/// The state once the edge under `key` is gone. If its end waited for its start
/// because of it, the end no longer does, and becomes ready when it was pending
/// on nothing else.
pub open spec fn after_remove(s: EngineModel, key: (u128, u128), now: u64) -> EngineModel {
    if s.edges[key].kind is Blocking && waits(s, key.1, key.0) {
        relieved(unlinked(s, key), key.0, key.1, now)
    } else {
        unlinked(s, key)
    }
}

/// Whether the edge under `key` has the id `edge_id`.
pub open spec fn edge_has_id(s: EngineModel, key: (u128, u128), edge_id: EdgeId) -> bool {
    s.edges.contains_key(key) && s.edges[key].id == edge_id
}

} // verus!
