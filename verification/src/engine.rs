//! The task engine.
use crate::clock::{now_millis, random_u128};
use crate::effects::{law_cancel_takes_children, law_counters_count, law_create_holds_spec};
use crate::error::{EngineError, ErrorModel};
use crate::invariants::{members_of, StatusClass};
use crate::laws::{law_counters_exact, law_finish_completes, law_finish_wakes, law_statuses_add_up, settled, Op};
use crate::model::{
    adopted, after_depend, after_remove, after_start, blocked_on, blocking_path, blocks, cancel_refusal,
    cancelled, cancelled_all, cascade, clamped, creatable, created, creation_cycles, depend_refusal, edge_cycles,
    edge_has_id, finished, finished_by, initial, leads, lemma_blocked_on_frame, lemma_cancelled_all_concat,
    lemma_cancelled_all_frame, lists, new_task, numbers_of, parent_of, relieved, set_at, start_refusal, takes_effect,
    unlinked, unsatisfied_set, walk, with_edge, with_member, without_member, woken, woken_all, Counters, EngineModel,
};
use crate::numbers::{
    in_order, law_initial_in_order, law_step_in_order, lemma_cascade_len, lemma_lists_len, room,
};
use crate::sound::{
    law_cancel_sound, law_create_sound, law_depend_sound, law_finish_sound, law_initial_sound, law_remove_sound,
    law_start_sound, lemma_same_tables, sound,
};
use crate::store::{
    edge_table, edges_entries, edges_get, edges_insert, edges_new, edges_remove, index_get, index_insert,
    index_new, index_remove, index_table, task_table, tasks_get, tasks_insert, tasks_new,
};
use crate::types::{
    Dependency, EdgeId, EdgeKind, EngineStats, Task, TaskId, TaskResult, TaskSpec, TaskStatus,
    WorkerId,
};
use dashmap::DashMap;
use std::collections::HashSet;
use vstd::prelude::*;

verus! {

broadcast use vstd::std_specs::hash::group_hash_axioms;

/// Tracks tasks and the dependencies between them. Status changes and tasks
/// that became ready are collected until they are taken out with
/// [`TaskEngine::take_events`] and [`TaskEngine::take_ready`].
pub struct TaskEngine {
    tasks: DashMap<u128, Task>,
    edges: DashMap<(u128, u128), Dependency>,
    blocking_pending: DashMap<u128, HashSet<u128>>,
    blocking_dependents: DashMap<u128, HashSet<u128>>,
    joint_children: DashMap<u128, HashSet<u128>>,
    ready: Vec<TaskId>,
    events: Vec<(TaskId, TaskStatus, u64)>,
    seq: u64,
    shutdown: bool,
    counters: Counters,
}

/// The claim of a worker on a running task. It is spent by completing the
/// task, or by [`TaskGuard::release`], which fails a task that was not
/// completed. It has no effect on a task that its worker does not run any more.
#[derive(Debug)]
pub struct TaskGuard {
    task_id: TaskId,
    worker: WorkerId,
    done: bool,
}

impl TaskGuard {
    /// The task.
    pub closed spec fn task_id(self) -> TaskId {
        self.task_id
    }

    /// The worker.
    pub closed spec fn worker(self) -> WorkerId {
        self.worker
    }

    /// Whether the task was completed through this guard.
    pub closed spec fn done(self) -> bool {
        self.done
    }

    /// Completes the task at the time `now`.
    pub fn complete_at(&mut self, engine: &mut TaskEngine, result: TaskResult, now: u64)
        ensures
            final(self).task_id() == old(self).task_id(),
            final(self).worker() == old(self).worker(),
            final(self).done(),
            ({
                let id = old(self).task_id().0;
                let held = old(engine)@.tasks.contains_key(id) && old(engine)@.tasks[id].status
                    == (TaskStatus::Running { worker_id: old(self).worker() });
                sound(old(engine)@) && held ==> final(engine)@.tasks[id].status == (TaskStatus::Completed { result })
            }),
            exists|order: Seq<u128>| #[trigger]
                finished_by(
                    old(engine)@,
                    old(self).worker(),
                    old(self).task_id(),
                    result,
                    now,
                    order,
                    final(engine)@,
                ),
            sound(old(engine)@) ==> sound(final(engine)@),
            room(old(engine)@, 2 * set_at(old(engine)@.dependents, old(self).task_id().0).len() + 2) ==> in_order(
                final(engine)@,
            ),
    {
        engine.inner_complete_at(self.task_id, self.worker, result, now);
        assert(self.task_id == old(self).task_id() && self.worker == old(self).worker());
        self.done = true;
    }

    /// Completes the task with the given result.
    pub fn complete(&mut self, engine: &mut TaskEngine, result: TaskResult)
        ensures
            final(self).task_id() == old(self).task_id(),
            final(self).worker() == old(self).worker(),
            final(self).done(),
            ({
                let id = old(self).task_id().0;
                let held = old(engine)@.tasks.contains_key(id) && old(engine)@.tasks[id].status
                    == (TaskStatus::Running { worker_id: old(self).worker() });
                sound(old(engine)@) && held ==> final(engine)@.tasks[id].status == (TaskStatus::Completed { result })
            }),
            exists|now: u64, order: Seq<u128>| #[trigger]
                finished_by(
                    old(engine)@,
                    old(self).worker(),
                    old(self).task_id(),
                    result,
                    now,
                    order,
                    final(engine)@,
                ),
            sound(old(engine)@) ==> sound(final(engine)@),
            room(old(engine)@, 2 * set_at(old(engine)@.dependents, old(self).task_id().0).len() + 2) ==> in_order(
                final(engine)@,
            ),
    {
        engine.inner_complete(self.task_id, self.worker, result);
        assert(self.task_id == old(self).task_id() && self.worker == old(self).worker());
        self.done = true;
    }

    /// Gives the guard up at the time `now`. A task that was not completed
    /// through it fails with error code 0.
    pub fn release_at(self, engine: &mut TaskEngine, now: u64)
        ensures
            self.done() ==> final(engine)@ == old(engine)@,
            ({
                let id = self.task_id().0;
                let held = old(engine)@.tasks.contains_key(id) && old(engine)@.tasks[id].status
                    == (TaskStatus::Running { worker_id: self.worker() });
                sound(old(engine)@) && held && !self.done() ==> final(engine)@.tasks[id].status == (TaskStatus::Completed {
                    result: TaskResult::Failed { error_code: 0, output_ref: None },
                })
            }),
            !self.done() ==> exists|order: Seq<u128>| #[trigger]
                finished_by(
                    old(engine)@,
                    self.worker(),
                    self.task_id(),
                    implicit_failure(),
                    now,
                    order,
                    final(engine)@,
                ),
            sound(old(engine)@) ==> sound(final(engine)@),
            room(old(engine)@, 2 * set_at(old(engine)@.dependents, self.task_id().0).len() + 2) ==> in_order(
                final(engine)@,
            ),
    {
        if !self.done {
            let result: TaskResult = TaskResult::Failed { error_code: 0, output_ref: None };
            assert(result == implicit_failure() && self.task_id == self.task_id() && self.worker == self.worker());
            engine.inner_complete_at(self.task_id, self.worker, result, now);
        }
    }

    /// Gives the guard up. A task that was not completed through it fails with
    /// error code 0.
    pub fn release(self, engine: &mut TaskEngine)
        ensures
            self.done() ==> final(engine)@ == old(engine)@,
            ({
                let id = self.task_id().0;
                let held = old(engine)@.tasks.contains_key(id) && old(engine)@.tasks[id].status
                    == (TaskStatus::Running { worker_id: self.worker() });
                sound(old(engine)@) && held && !self.done() ==> final(engine)@.tasks[id].status == (TaskStatus::Completed {
                    result: TaskResult::Failed { error_code: 0, output_ref: None },
                })
            }),
            !self.done() ==> exists|now: u64, order: Seq<u128>| #[trigger]
                finished_by(
                    old(engine)@,
                    self.worker(),
                    self.task_id(),
                    implicit_failure(),
                    now,
                    order,
                    final(engine)@,
                ),
            sound(old(engine)@) ==> sound(final(engine)@),
            room(old(engine)@, 2 * set_at(old(engine)@.dependents, self.task_id().0).len() + 2) ==> in_order(
                final(engine)@,
            ),
    {
        if !self.done {
            let result: TaskResult = TaskResult::Failed { error_code: 0, output_ref: None };
            assert(result == implicit_failure() && self.task_id == self.task_id() && self.worker == self.worker());
            engine.inner_complete(self.task_id, self.worker, result);
        }
    }
}

/// The result of a task whose guard was given up before it completed.
pub open spec fn implicit_failure() -> TaskResult {
    TaskResult::Failed { error_code: 0, output_ref: None }
}

/// Engine configuration.
#[derive(Debug)]
pub struct EngineConfig {
    /// Directory for journal and snapshots.
    pub data_dir: String,
    /// Maximum journal segment size in bytes before rotation.
    pub journal_max_segment_bytes: u64,
    /// How often to write snapshots, in records.
    pub snapshot_interval_records: u64,
    /// Timeout in seconds for graceful shutdown.
    pub shutdown_timeout_secs: u64,
    /// Path of the Unix domain socket.
    pub uds_path: String,
    /// TCP address to listen on.
    pub tcp_addr: String,
    /// Seconds without a heartbeat after which an instance is stale.
    pub heartbeat_timeout_secs: u64,
}

impl Clone for EngineConfig {
    fn clone(&self) -> (c: Self)
        ensures
            c == *self,
    {
        EngineConfig {
            data_dir: self.data_dir.clone(),
            journal_max_segment_bytes: self.journal_max_segment_bytes,
            snapshot_interval_records: self.snapshot_interval_records,
            shutdown_timeout_secs: self.shutdown_timeout_secs,
            uds_path: self.uds_path.clone(),
            tcp_addr: self.tcp_addr.clone(),
            heartbeat_timeout_secs: self.heartbeat_timeout_secs,
        }
    }
}

impl Default for EngineConfig {
    fn default() -> (c: Self)
        ensures
            c.data_dir@ == "."@,
            c.journal_max_segment_bytes == 67_108_864,
            c.snapshot_interval_records == 10_000,
            c.shutdown_timeout_secs == 30,
            c.uds_path@ == "/tmp/tasker.sock"@,
            c.tcp_addr@ == "0.0.0.0:7878"@,
            c.heartbeat_timeout_secs == 30,
    {
        EngineConfig {
            data_dir: ".".to_owned(),
            journal_max_segment_bytes: 64 * 1024 * 1024,
            snapshot_interval_records: 10_000,
            shutdown_timeout_secs: 30,
            uds_path: "/tmp/tasker.sock".to_owned(),
            tcp_addr: "0.0.0.0:7878".to_owned(),
            heartbeat_timeout_secs: 30,
        }
    }
}

impl View for TaskEngine {
    type V = EngineModel;

    closed spec fn view(&self) -> EngineModel {
        EngineModel {
            tasks: task_table(self.tasks),
            edges: edge_table(self.edges),
            pending: index_table(self.blocking_pending),
            dependents: index_table(self.blocking_dependents),
            joint: index_table(self.joint_children),
            ready: self.ready@,
            events: self.events@,
            seq: self.seq,
            shutdown: self.shutdown,
            counters: self.counters,
        }
    }
}

/// An answer of the engine with the value of its error.
pub open spec fn answer<T>(r: Result<T, EngineError>) -> Result<T, ErrorModel> {
    match r {
        Ok(v) => Ok(v),
        Err(e) => Err(e@),
    }
}

/// What starting `id` at the time `now` answers and leaves behind.
pub open spec fn start_outcome(
    s: EngineModel,
    id: TaskId,
    worker: WorkerId,
    now: u64,
    r: Result<TaskGuard, EngineError>,
    t: EngineModel,
) -> bool {
    match start_refusal(s, id) {
        Some(e) => answer(r) == Err::<TaskGuard, ErrorModel>(e) && t == s,
        None => {
            &&& r is Ok
            &&& r->Ok_0.task_id() == id
            &&& r->Ok_0.worker() == worker
            &&& !r->Ok_0.done()
            &&& t == after_start(s, id, worker, now)
        },
    }
}

/// What cancelling `id` at the time `now` answers and leaves behind. The order
/// in which the tasks below `id` are cancelled is that of the edge table.
pub open spec fn cancel_outcome(
    s: EngineModel,
    id: TaskId,
    reason: u32,
    now: u64,
    r: Result<(), EngineError>,
    t: EngineModel,
) -> bool {
    match cancel_refusal(s, id) {
        Some(e) => answer(r) == Err::<(), ErrorModel>(e) && t == s,
        None => r is Ok && exists|order: Seq<u128>| #[trigger]
            cascade(s, id.0, order) && t == cancelled_all(s, order, reason, now),
    }
}

/// What making `to` depend on `from` at the time `now` answers and leaves
/// behind. An edge that would close a cycle is answered with the way from
/// `from` to `to` along what blocks what.
pub open spec fn depend_outcome(
    s: EngineModel,
    from: TaskId,
    to: TaskId,
    kind: EdgeKind,
    now: u64,
    r: Result<EdgeId, EngineError>,
    t: EngineModel,
) -> bool {
    match depend_refusal(s, from, to) {
        Some(e) => answer(r) == Err::<EdgeId, ErrorModel>(e) && t == s,
        None => if edge_cycles(s, from, to, kind) {
            &&& t == s
            &&& answer(r) matches Err(ErrorModel::CycleDetected { path })
            &&& leads(s, path, from.0, to.0)
        } else {
            &&& answer(r) == Ok::<EdgeId, ErrorModel>(EdgeId(s.seq))
            &&& t == after_depend(s, from, to, kind, now)
        },
    }
}

/// What removing the edge `edge_id` at the time `now` answers and leaves
/// behind. Of several edges with that id, one is removed.
pub open spec fn remove_outcome(
    s: EngineModel,
    edge_id: EdgeId,
    now: u64,
    r: Result<(), EngineError>,
    t: EngineModel,
) -> bool {
    if forall|key: (u128, u128)| !#[trigger] edge_has_id(s, key, edge_id) {
        answer(r) == Err::<(), ErrorModel>(ErrorModel::NotFound(TaskId(edge_id.0 as u128))) && t == s
    } else {
        r is Ok && exists|key: (u128, u128)| #[trigger]
            edge_has_id(s, key, edge_id) && t == after_remove(s, key, now)
    }
}

/// Why a report that `id` has completed is not recorded, if it is not.
pub open spec fn completion_refusal(s: EngineModel, id: TaskId) -> Option<ErrorModel> {
    if !s.tasks.contains_key(id.0) {
        Some(ErrorModel::NotFound(id))
    } else if !(s.tasks[id.0].status is Running) {
        Some(ErrorModel::InvalidTransition { id, from: s.tasks[id.0].status, attempted: "complete"@ })
    } else {
        None
    }
}

/// What recording a reported status of `id` at the time `now` answers and leaves
/// behind. Reports of running, completed and cancelled tasks are recorded as a
/// start, a completion and a cancellation. That a task is pending or ready is
/// for the engine to know: such a report changes nothing.
pub open spec fn update_outcome(
    s: EngineModel,
    id: TaskId,
    status: TaskStatus,
    now: u64,
    r: Result<(), EngineError>,
    t: EngineModel,
) -> bool {
    match status {
        TaskStatus::Completed { result } => {
            &&& exists|order: Seq<u128>| #[trigger] finished(s, id, result, now, order, t)
            &&& answer(r) == match completion_refusal(s, id) {
                Some(e) => Err::<(), ErrorModel>(e),
                None => Ok(()),
            }
        },
        TaskStatus::Running { worker_id } => match start_refusal(s, id) {
            Some(e) => answer(r) == Err::<(), ErrorModel>(e) && t == s,
            None => r is Ok && t == after_start(s, id, worker_id, now),
        },
        TaskStatus::Cancelled { reason } => cancel_outcome(s, id, reason, now, r, t),
        _ => {
            &&& t == s
            &&& answer(r) == if s.tasks.contains_key(id.0) {
                Ok::<(), ErrorModel>(())
            } else {
                Err(ErrorModel::NotFound(id))
            }
        },
    }
}

/// A number as an in-degree: the largest one if it does not fit.
fn clamp_degree(n: usize) -> (r: u16)
    ensures
        r == clamped(n as nat),
{
    if n <= 0xffff {
        n as u16
    } else {
        0xffff
    }
}

impl TaskEngine {
    /// An engine without tasks.
    pub fn new() -> (e: TaskEngine)
        ensures
            e@ == initial(),
            sound(e@),
            in_order(e@),
    {
        proof {
            law_initial_sound();
            law_initial_in_order();
        }
        TaskEngine {
            tasks: tasks_new(),
            edges: edges_new(),
            blocking_pending: index_new(),
            blocking_dependents: index_new(),
            joint_children: index_new(),
            ready: Vec::new(),
            events: Vec::new(),
            seq: 0,
            shutdown: false,
            counters: Counters::new(),
        }
    }

    /// Draws the next sequence number.
    fn next_seq(&mut self) -> (n: u64)
        ensures
            n == old(self)@.seq,
            final(self)@ == old(self)@.numbered(),
    {
        let n: u64 = self.seq;
        self.seq = n.wrapping_add(1);
        n
    }

    /// Announces a status change under the next sequence number.
    fn announce(&mut self, id: TaskId, status: TaskStatus)
        ensures
            final(self)@ == old(self)@.announced(id, status),
    {
        let seq: u64 = self.next_seq();
        self.events.push((id, status, seq));
    }

    /// Counts a status change and announces it.
    fn transition(&mut self, id: TaskId, from: TaskStatus, to: TaskStatus)
        ensures
            final(self)@ == old(self)@.transitioned(id, from, to),
    {
        self.counters.dec(from);
        self.counters.inc(to);
        self.announce(id, to);
    }

    /// Puts back a task that was read from the table.
    fn store(&mut self, id: u128, task: Task)
        ensures
            final(self)@ == old(self)@.with_task(id, task@),
    {
        let _ = tasks_insert(&mut self.tasks, id, task);
    }

    /// Moves a task that was read from the table to another status.
    fn relocate(&mut self, id: u128, task: Task, status: TaskStatus, now: u64, degree: u16)
        requires
            old(self)@.tasks.contains_key(id),
            task@ == old(self)@.tasks[id],
        ensures
            final(self)@ == old(self)@.moved(id, status, now, degree),
    {
        let mut task: Task = task;
        let from: TaskStatus = task.status;
        task.status = status;
        task.updated_at = now;
        task.edge_in_degree = degree;
        task.seq = self.next_seq();
        self.store(id, task);
        self.transition(TaskId(id), from, status);
    }

    /// Whether `id` is a task that has completed.
    fn is_completed(&self, id: u128) -> (r: bool)
        ensures
            r == self@.completed(id),
    {
        match tasks_get(&self.tasks, id) {
            Some(task) => matches!(task.status, TaskStatus::Completed { .. }),
            None => false,
        }
    }

    /// Adds `member` to the dependents of `id`.
    fn add_dependent(&mut self, id: u128, member: u128)
        ensures
            final(self)@ == (EngineModel {
                dependents: with_member(old(self)@.dependents, id, member),
                ..old(self)@
            }),
    {
        index_add(&mut self.blocking_dependents, id, member);
    }

    /// Adds an edge of its own number from each of `deps` to `id`, and lists
    /// `id` as a dependent of each.
    fn link(&mut self, id: u128, seq: u64, deps: &Vec<TaskId>)
        ensures
            final(self)@ == blocked_on(old(self)@, id, seq, deps@),
    {
        for i in 0..deps.len()
            invariant
                self@ == blocked_on(old(self)@, id, seq, deps@.take(i as int)),
        {
            let dep: TaskId = deps[i];
            self.add_dependent(dep.0, id);
            let edge: u64 = self.next_seq();
            edges_insert(
                &mut self.edges,
                (dep.0, id),
                Dependency { id: EdgeId(edge), from: dep, to: TaskId(id), kind: EdgeKind::Blocking, seq },
            );
            assert(deps@.take(i as int + 1).drop_last() =~= deps@.take(i as int));
        }
        assert(deps@.take(deps@.len() as int) =~= deps@);
    }

    /// Makes `id` a child of `parent`.
    fn adopt(&mut self, id: u128, seq: u64, parent: TaskId)
        requires
            old(self)@.tasks.contains_key(parent.0) ==> old(self)@.tasks[parent.0].child_count < u16::MAX,
        ensures
            final(self)@ == adopted(old(self)@, id, seq, parent),
    {
        if let Some(task) = tasks_get(&self.tasks, parent.0) {
            let mut task: Task = task;
            task.child_count = task.child_count + 1;
            self.store(parent.0, task);
        }
        let edge: u64 = self.next_seq();
        if edges_get(&self.edges, (parent.0, id)).is_some() {
            index_add(&mut self.joint_children, parent.0, id);
        } else {
            edges_insert(
                &mut self.edges,
                (parent.0, id),
                Dependency { id: EdgeId(edge), from: parent, to: TaskId(id), kind: EdgeKind::Parent, seq },
            );
        }
    }

    /// Those of `deps` that are not completed tasks.
    fn unsatisfied_of(&self, deps: &Vec<TaskId>) -> (r: HashSet<u128>)
        ensures
            r@ == unsatisfied_set(self@, deps@),
    {
        let mut set: HashSet<u128> = HashSet::new();
        assert(set@ =~= unsatisfied_set(self@, deps@.take(0)));
        for i in 0..deps.len()
            invariant
                set@ == unsatisfied_set(self@, deps@.take(i as int)),
        {
            let ghost shorter = deps@.take(i as int);
            let ghost longer = deps@.take(i as int + 1);
            proof {
                assert(longer =~= shorter.push(deps@[i as int]));
                assert forall|d: u128| longer.contains(TaskId(d)) <==> (shorter.contains(TaskId(d))
                    || d == deps@[i as int].0) by {
                    if shorter.contains(TaskId(d)) {
                        let k = choose|k: int| 0 <= k < shorter.len() && shorter[k] == TaskId(d);
                        assert(longer[k] == TaskId(d));
                    }
                    if d == deps@[i as int].0 {
                        assert(longer[i as int] == TaskId(d));
                    }
                }
            }
            let dep: u128 = deps[i].0;
            if !self.is_completed(dep) {
                set.insert(dep);
            }
            assert(set@ =~= unsatisfied_set(self@, longer));
        }
        assert(deps@.take(deps@.len() as int) =~= deps@);
        set
    }

    /// Whether a blocking edge begins at `id`.
    fn begins_edge(&self, id: u128) -> (r: bool)
        ensures
            r == exists|x: u128| #[trigger] blocks(self@, id, x),
    {
        let entries: Vec<((u128, u128), Dependency)> = edges_entries(&self.edges);
        for i in 0..entries.len()
            invariant
                edge_list(entries@, self@.edges),
                forall|j: int|
                    0 <= j < i ==> !((#[trigger] entries@[j]).0.0 == id && entries@[j].1.kind is Blocking),
        {
            if entries[i].0.0 == id && matches!(entries[i].1.kind, EdgeKind::Blocking) {
                proof {
                    assert(self@.edges.contains_pair(entries@[i as int].0, entries@[i as int].1));
                    assert(blocks(self@, id, entries@[i as int].0.1));
                }
                return true;
            }
        }
        assert forall|x: u128| !#[trigger] blocks(self@, id, x) by {
            if blocks(self@, id, x) {
                let j = choose|j: int| 0 <= j < entries@.len() && (#[trigger] entries@[j]).0 == (id, x);
                assert(self@.edges.contains_pair(entries@[j].0, entries@[j].1));
            }
        }
        false
    }

    /// A cycle that a task made under `id` with the given dependencies would
    /// close: the way from one of them to `id` along what blocks what.
    fn creation_cycle(&self, id: u128, deps: &Vec<TaskId>) -> (r: Option<Vec<TaskId>>)
        ensures
            match r {
                Some(path) => creation_cycles(self@, id, deps@) && exists|i: int|
                    0 <= i < deps@.len() && leads(self@, path@, (#[trigger] deps@[i]).0, id),
                None => !creation_cycles(self@, id, deps@),
            },
    {
        if deps.len() == 0 {
            return None;
        }
        let mut own: bool = false;
        for i in 0..deps.len()
            invariant
                own == exists|j: int| 0 <= j < i && (#[trigger] deps@[j]).0 == id,
        {
            if deps[i].0 == id {
                own = true;
            }
        }
        if !own && !self.begins_edge(id) {
            assert forall|i: int| 0 <= i < deps@.len() implies !blocking_path(self@, (#[trigger] deps@[i]).0, id) by {
                lemma_path_ends(self@, deps@[i].0, id);
            }
            return None;
        }
        for i in 0..deps.len()
            invariant
                forall|j: int| 0 <= j < i ==> !blocking_path(self@, (#[trigger] deps@[j]).0, id),
        {
            if let Some(path) = self.find_path(deps[i].0, id) {
                proof {
                    lemma_leads(self@, path@, deps@[i as int].0, id);
                }
                return Some(path);
            }
        }
        None
    }

    /// Creates the task `id` at the time `now`. It is ready if every task in
    /// `blocking_on` has completed and pending otherwise; a dependency that
    /// does not exist yet counts as unsatisfied. An id that is in use, or that
    /// would close a cycle, is refused.
    pub fn create_at(&mut self, id: TaskId, now: u64, spec: TaskSpec) -> (r: Result<TaskId, EngineError>)
        requires
            !old(self)@.shutdown ==> creatable(old(self)@, spec@),
        ensures
            created(old(self)@, id.0, now, spec@, answer(r), final(self)@),
            r matches Ok(new) ==> {
                &&& new == id
                &&& final(self)@.tasks.contains_key(id.0)
                &&& final(self)@.tasks[id.0].id == id
                &&& final(self)@.tasks[id.0].spec == spec@
                &&& final(self)@.tasks[id.0].created_at == now
            },
            sound(old(self)@) ==> sound(final(self)@),
            room(old(self)@, spec@.blocking_on.len() + 2) ==> in_order(final(self)@),
    {
        if self.shutdown {
            return Err(EngineError::EngineShuttingDown);
        }
        if tasks_get(&self.tasks, id.0).is_some() {
            return Err(EngineError::AlreadyExists(id));
        }
        if let Some(path) = self.creation_cycle(id.0, &spec.blocking_on) {
            return Err(EngineError::CycleDetected { path });
        }
        let waiting: HashSet<u128> = self.unsatisfied_of(&spec.blocking_on);
        let degree: u16 = clamp_degree(waiting.len());
        let ready: bool = waiting.is_empty();
        let seq: u64 = self.next_seq();
        let status: TaskStatus = if ready {
            TaskStatus::Ready
        } else {
            TaskStatus::Pending
        };
        let task: Task = Task {
            id,
            spec: spec.clone(),
            status,
            created_at: now,
            updated_at: now,
            seq,
            child_count: 0,
            edge_in_degree: degree,
        };
        assert(task@ == new_task(old(self)@, id.0, now, spec@));
        self.store(id.0, task);
        proof {
            lemma_blocked_on_frame(self@, id.0, seq, spec@.blocking_on);
        }
        self.link(id.0, seq, &spec.blocking_on);
        if !ready {
            index_insert(&mut self.blocking_pending, id.0, waiting);
        }
        if let Some(parent) = spec.parent {
            self.adopt(id.0, seq, parent);
        }
        self.counters.inc(status);
        if ready {
            self.ready.push(id);
        }
        self.events.push((id, status, seq));
        proof {
            law_create_holds_spec(old(self)@, id.0, now, spec@, Ok::<TaskId, ErrorModel>(id), self@);
            if sound(old(self)@) {
                law_create_sound(old(self)@, id.0, now, spec@);
            }
            if room(old(self)@, spec@.blocking_on.len() + 2) {
                law_step_in_order(old(self)@, Op::Create { id, now, spec: spec@ });
            }
        }
        Ok(id)
    }

    /// Status transition Ready to Running at the time `now`.
    pub fn start_at(&mut self, id: TaskId, worker: WorkerId, now: u64) -> (r: Result<TaskGuard, EngineError>)
        ensures
            start_outcome(old(self)@, id, worker, now, r, final(self)@),
            r matches Ok(guard) ==> {
                &&& guard.task_id() == id
                &&& guard.worker() == worker
                &&& !guard.done()
                &&& old(self)@.tasks[id.0].status == TaskStatus::Ready
                &&& final(self)@.tasks[id.0].status == (TaskStatus::Running { worker_id: worker })
            },
            sound(old(self)@) ==> sound(final(self)@),
            room(old(self)@, 2) ==> in_order(final(self)@),
    {
        if self.shutdown {
            return Err(EngineError::EngineShuttingDown);
        }
        let task: Task = match tasks_get(&self.tasks, id.0) {
            Some(task) => task,
            None => {
                return Err(EngineError::NotFound(id));
            },
        };
        match task.status {
            TaskStatus::Ready => {
                let degree: u16 = task.edge_in_degree;
                self.relocate(id.0, task, TaskStatus::Running { worker_id: worker }, now, degree);
                proof {
                    if sound(old(self)@) {
                        law_start_sound(old(self)@, id, worker, now);
                    }
                    if room(old(self)@, 2) {
                        law_step_in_order(old(self)@, Op::Start { id, worker, now });
                    }
                }
                Ok(TaskGuard { task_id: id, worker, done: false })
            },
            TaskStatus::Running { worker_id } => Err(EngineError::AlreadyRunning { id, worker: worker_id }),
            other => Err(EngineError::InvalidTransition { id, from: other, attempted: "start" }),
        }
    }

    /// Takes `id` out of what `dependent` waits for, if it waits for it.
    fn wake(&mut self, id: u128, dependent: u128, now: u64)
        ensures
            final(self)@ == woken(old(self)@, id, dependent, now),
    {
        if let Some(waiting) = index_get(&self.blocking_pending, dependent) {
            if waiting.contains(&id) {
                self.relieve(id, dependent, waiting, now);
            }
        }
    }

    /// Takes `id` out of what `dependent` waits for, which was read from the
    /// index. If that was the last, a pending `dependent` becomes ready.
    fn relieve(&mut self, id: u128, dependent: u128, waiting: HashSet<u128>, now: u64)
        requires
            old(self)@.pending.contains_key(dependent),
            waiting@ == old(self)@.pending[dependent],
        ensures
            final(self)@ == relieved(old(self)@, id, dependent, now),
    {
        let mut rest: HashSet<u128> = waiting;
        rest.remove(&id);
        let degree: u16 = clamp_degree(rest.len());
        let free: bool = rest.is_empty();
        if free {
            let _ = index_remove(&mut self.blocking_pending, dependent);
        } else {
            index_insert(&mut self.blocking_pending, dependent, rest);
        }
        if let Some(task) = tasks_get(&self.tasks, dependent) {
            if free && matches!(task.status, TaskStatus::Pending) {
                self.relocate(dependent, task, TaskStatus::Ready, now, 0);
                self.ready.push(TaskId(dependent));
            } else {
                let mut task: Task = task;
                task.edge_in_degree = degree;
                self.store(dependent, task);
            }
        }
    }

    /// Wakes everything that is blocked by `id`, which has completed.
    fn on_task_completed(&mut self, id: u128, now: u64)
        ensures
            exists|order: Seq<u128>|
                {
                    &&& #[trigger] lists(order, set_at(old(self)@.dependents, id))
                    &&& final(self)@ == woken_all(
                        (EngineModel { dependents: old(self)@.dependents.remove(id), ..old(self)@ }),
                        id,
                        order,
                        now,
                    )
                },
    {
        let dependents: HashSet<u128> = match index_remove(&mut self.blocking_dependents, id) {
            Some(set) => set,
            None => HashSet::new(),
        };
        let order: Vec<u128> = members(&dependents);
        assert(lists(order@, set_at(old(self)@.dependents, id)));
        let ghost before = self@;
        for i in 0..order.len()
            invariant
                self@ == woken_all(before, id, order@.take(i as int), now),
        {
            self.wake(id, order[i], now);
            assert(order@.take(i as int + 1).drop_last() =~= order@.take(i as int));
        }
        assert(order@.take(order@.len() as int) =~= order@);
    }

    /// Moves a running `id` to Completed at the time `now` and wakes what waited
    /// for it. A task that is not running stays as it is.
    pub fn complete_at(&mut self, id: TaskId, result: TaskResult, now: u64)
        ensures
            exists|order: Seq<u128>| #[trigger] finished(old(self)@, id, result, now, order, final(self)@),
            sound(old(self)@) && old(self)@.running(id.0) ==> {
                &&& final(self)@.tasks[id.0].status == (TaskStatus::Completed { result })
                &&& forall|x: u128|
                    old(self)@.tasks.contains_key(x) && x != id.0 ==> #[trigger] settled(
                        old(self)@,
                        final(self)@,
                        id.0,
                        x,
                    )
            },
            sound(old(self)@) ==> sound(final(self)@),
            room(old(self)@, 2 * set_at(old(self)@.dependents, id.0).len() + 2) ==> in_order(final(self)@),
    {
        if let Some(task) = tasks_get(&self.tasks, id.0) {
            if matches!(task.status, TaskStatus::Running { .. }) {
                let degree: u16 = task.edge_in_degree;
                self.relocate(id.0, task, TaskStatus::Completed { result }, now, degree);
                let ghost middle = self@;
                self.on_task_completed(id.0, now);
                proof {
                    let order = choose|order: Seq<u128>|
                        {
                            &&& #[trigger] lists(order, set_at(middle.dependents, id.0))
                            &&& self@ == woken_all(
                                (EngineModel { dependents: middle.dependents.remove(id.0), ..middle }),
                                id.0,
                                order,
                                now,
                            )
                        };
                    assert(finished(old(self)@, id, result, now, order, self@));
                    if sound(old(self)@) {
                        law_finish_sound(old(self)@, id, result, now, order, self@);
                        law_finish_completes(old(self)@, id, result, now, order, self@);
                        assert forall|x: u128|
                            old(self)@.tasks.contains_key(x) && x != id.0 implies #[trigger] settled(
                            old(self)@,
                            self@,
                            id.0,
                            x,
                        ) by {
                            law_finish_wakes(old(self)@, id, result, now, order, self@, x);
                        }
                    }
                    if room(old(self)@, 2 * set_at(old(self)@.dependents, id.0).len() + 2) {
                        lemma_lists_len(order, set_at(old(self)@.dependents, id.0));
                        law_step_in_order(old(self)@, Op::Finish { id, result, now, order });
                    }
                }
                return ;
            }
        }
        assert(finished(old(self)@, id, result, now, Seq::empty(), self@));
    }

    /// Moves a task that was read from the table to Cancelled.
    fn mark_cancelled(&mut self, id: u128, task: Task, reason: u32, now: u64)
        requires
            old(self)@.tasks.contains_key(id),
            task@ == old(self)@.tasks[id],
        ensures
            final(self)@ == cancelled(old(self)@, id, reason, now),
    {
        let status: TaskStatus = TaskStatus::Cancelled { reason };
        let degree: u16 = task.edge_in_degree;
        self.relocate(id, task, status, now, degree);
        self.announce(TaskId(id), status);
    }

    /// Cancels the pending and running tasks below `parent`, depth first.
    fn cancel_children(
        &mut self,
        parent: u128,
        reason: u32,
        now: u64,
        entries: &Vec<((u128, u128), Dependency)>,
    ) -> (order: Ghost<Seq<u128>>)
        requires
            edge_list(entries@, old(self)@.edges),
        ensures
            cascade_below(old(self)@, parent, order@),
            final(self)@ == cancelled_all(old(self)@, order@, reason, now),
        decreases live_ends(old(self)@, entries@).len(),
    {
        let ghost s = self@;
        let ghost mut order: Seq<u128> = Seq::empty();
        for i in 0..entries.len()
            invariant
                s == old(self)@,
                edge_list(entries@, s.edges),
                cascade_part(s, parent, order),
                self@ == cancelled_all(s, order, reason, now),
                forall|j: int|
                    0 <= j < i && (#[trigger] entries@[j]).0.0 == parent && parent_of(s, parent, entries@[j].0.1)
                        && s.cascades_to(entries@[j].0.1) ==> order.contains(entries@[j].0.1),
        {
            let (from, child): (u128, u128) = entries[i].0;
            proof {
                assert(s.edges.contains_pair(entries@[i as int].0, entries@[i as int].1));
                lemma_cancelled_all_frame(s, order, reason, now);
            }
            if from == parent && (matches!(entries[i].1.kind, EdgeKind::Parent) || index_has(
                &self.joint_children,
                parent,
                child,
            )) {
                assert(parent_of(s, parent, child));
                if let Some(task) = tasks_get(&self.tasks, child) {
                    if matches!(task.status, TaskStatus::Running { .. } | TaskStatus::Pending) {
                        self.mark_cancelled(child, task, reason, now);
                        let ghost marked = order.push(child);
                        let ghost middle = self@;
                        proof {
                            assert(marked.drop_last() =~= order);
                            assert(middle == cancelled_all(s, marked, reason, now));
                            lemma_live_ends_shrink(s, entries@, i as int, marked, reason, now);
                        }
                        let below = self.cancel_children(child, reason, now, entries);
                        proof {
                            lemma_cancelled_all_concat(s, marked, below@, reason, now);
                            lemma_cascade_step(s, parent, order, child, below@, reason, now);
                            order = marked + below@;
                        }
                    }
                }
            }
        }
        proof {
            assert forall|child: u128| #[trigger] parent_of(s, parent, child) && s.cascades_to(child) implies
                order.contains(child) by {
                let j = choose|j: int| 0 <= j < entries@.len() && (#[trigger] entries@[j]).0 == (parent, child);
                assert(entries@[j].0.0 == parent);
            }
        }
        Ghost(order)
    }

    /// Cancels `id` and the pending and running tasks below it.
    fn cancel_tree_at(&mut self, id: TaskId, reason: u32, now: u64) -> (r: Result<(), EngineError>)
        ensures
            cancel_outcome(old(self)@, id, reason, now, r, final(self)@),
            sound(old(self)@) ==> sound(final(self)@),
            sound(old(self)@) && room(old(self)@, 3 * old(self)@.tasks.dom().len()) ==> in_order(final(self)@),
    {
        if self.shutdown {
            return Err(EngineError::EngineShuttingDown);
        }
        let task: Task = match tasks_get(&self.tasks, id.0) {
            Some(task) => task,
            None => {
                return Err(EngineError::NotFound(id));
            },
        };
        if matches!(task.status, TaskStatus::Completed { .. } | TaskStatus::Cancelled { .. }) {
            return Err(EngineError::InvalidTransition { id, from: task.status, attempted: "cancel" });
        }
        self.mark_cancelled(id.0, task, reason, now);
        let entries: Vec<((u128, u128), Dependency)> = edges_entries(&self.edges);
        let below = self.cancel_children(id.0, reason, now, &entries);
        proof {
            let first = seq![id.0];
            assert(first.drop_last() =~= Seq::<u128>::empty());
            assert(cancelled_all(old(self)@, Seq::<u128>::empty(), reason, now) == old(self)@);
            assert(cancelled_all(old(self)@, first, reason, now) == cancelled(old(self)@, id.0, reason, now));
            lemma_cancelled_all_concat(old(self)@, first, below@, reason, now);
            lemma_cascade_root(old(self)@, id.0, below@, reason, now);
            assert(cascade(old(self)@, id.0, first + below@));
            if sound(old(self)@) {
                law_cancel_sound(old(self)@, id, reason, now, first + below@);
                if room(old(self)@, 3 * old(self)@.tasks.dom().len()) {
                    lemma_cascade_len(old(self)@, id, first + below@);
                    law_step_in_order(old(self)@, Op::Cancel { id, reason, now, order: first + below@ });
                }
            }
        }
        Ok(())
    }

    /// Cancels `id` at the time `now`, and with it the pending and running
    /// tasks below it. Tasks that wait for a cancelled task stay pending.
    pub fn cancel_at(&mut self, id: TaskId, reason: u32, now: u64) -> (r: Result<(), EngineError>)
        ensures
            cancel_outcome(old(self)@, id, reason, now, r, final(self)@),
            r is Ok ==> {
                &&& final(self)@.tasks[id.0].status == (TaskStatus::Cancelled { reason })
                &&& forall|c: u128|
                    {
                        &&& #[trigger] old(self)@.edges.contains_key((id.0, c))
                        &&& old(self)@.edges[(id.0, c)].kind == EdgeKind::Parent
                        &&& old(self)@.tasks.contains_key(c)
                        &&& old(self)@.tasks[c].status is Pending || old(self)@.tasks[c].status is Running
                    } ==> final(self)@.tasks[c].status == (TaskStatus::Cancelled { reason })
            },
            sound(old(self)@) ==> sound(final(self)@),
            sound(old(self)@) && room(old(self)@, 3 * old(self)@.tasks.dom().len()) ==> in_order(final(self)@),
    {
        let r: Result<(), EngineError> = self.cancel_tree_at(id, reason, now);
        proof {
            if r is Ok {
                law_cancel_takes_children(old(self)@, id, reason, now, r, self@);
            }
        }
        r
    }

    /// A way from `start` to `goal` along what blocks what, if there is one.
    fn find_path(&self, start: u128, goal: u128) -> (r: Option<Vec<TaskId>>)
        ensures
            match r {
                Some(path) => leads(self@, path@, start, goal),
                None => !blocking_path(self@, start, goal),
            },
    {
        let entries: Vec<((u128, u128), Dependency)> = edges_entries(&self.edges);
        let mut visited: HashSet<u128> = HashSet::new();
        let mut stack: Vec<Vec<TaskId>> = Vec::new();
        let first: Vec<TaskId> = vec![TaskId(start)];
        stack.push(first);
        proof {
            assert(numbers_of(first@) =~= seq![start]);
            assert(stack@[0]@ == first@);
            assert(on_top(stack@, start));
        }
        while stack.len() > 0
            invariant
                edge_list(entries@, self@.edges),
                visited@.finite(),
                forall|i: int| 0 <= i < stack@.len() ==> way(self@, start, (#[trigger] stack@[i])@),
                forall|x: u128| #[trigger] visited@.contains(x) ==> x != goal,
                forall|x: u128, y: u128|
                    visited@.contains(x) && #[trigger] blocks(self@, y, x) ==> visited@.contains(y) || on_top(
                        stack@,
                        y,
                    ),
                visited@.contains(start) || on_top(stack@, start),
            decreases usize::MAX - visited@.len(), stack@.len(),
        {
            let ghost full = stack@;
            let path: Vec<TaskId> = match stack.pop() {
                Some(path) => path,
                None => {
                    return None;
                },
            };
            proof {
                assert(way(self@, start, full[full.len() - 1]@));
                assert(full =~= stack@.push(path));
                lemma_on_top_push(stack@, path);
                assert forall|i: int| 0 <= i < stack@.len() implies way(self@, start, (#[trigger] stack@[i])@) by {
                    assert(stack@[i] == full[i]);
                }
            }
            let current: u128 = path[path.len() - 1].0;
            if current == goal {
                return Some(path);
            }
            if visited.contains(&current) {
                continue ;
            }
            visited.insert(current);
            assert(visited@.len() == visited.len());
            let ghost popped = stack@;
            self.push_unvisited(Ghost(start), &entries, &visited, &path, &mut stack);
            assert forall|x: u128, y: u128|
                visited@.contains(x) && #[trigger] blocks(self@, y, x) implies visited@.contains(y) || on_top(
                stack@,
                y,
            ) by {
                if x == current {
                    assert(blocks(self@, y, path@.last().0));
                } else if !visited@.contains(y) {
                    assert(on_top(full, y));
                    assert(on_top(popped, y));
                }
            }
        }
        proof {
            assert forall|y: u128| !#[trigger] on_top(stack@, y) by {}
            if blocking_path(self@, start, goal) {
                let path = choose|path: Seq<u128>| #[trigger]
                    walk(self@, path) && path[0] == start && path.last() == goal;
                lemma_closed_walk(self@, visited@, path, path.len() - 1);
            }
        }
        None
    }

    /// Pushes the ways that go one step further than `path`, to what has not
    /// been visited.
    fn push_unvisited(
        &self,
        Ghost(start): Ghost<u128>,
        entries: &Vec<((u128, u128), Dependency)>,
        visited: &HashSet<u128>,
        path: &Vec<TaskId>,
        stack: &mut Vec<Vec<TaskId>>,
    )
        requires
            edge_list(entries@, self@.edges),
            way(self@, start, path@),
            forall|i: int| 0 <= i < old(stack)@.len() ==> way(self@, start, (#[trigger] old(stack)@[i])@),
        ensures
            forall|i: int| 0 <= i < final(stack)@.len() ==> way(self@, start, (#[trigger] final(stack)@[i])@),
            forall|y: u128| #[trigger] on_top(old(stack)@, y) ==> on_top(final(stack)@, y),
            forall|y: u128| #[trigger]
                blocks(self@, y, path@.last().0) ==> visited@.contains(y) || on_top(final(stack)@, y),
    {
        let current: u128 = path[path.len() - 1].0;
        for i in 0..entries.len()
            invariant
                edge_list(entries@, self@.edges),
                way(self@, start, path@),
                current == path@.last().0,
                forall|i: int| 0 <= i < stack@.len() ==> way(self@, start, (#[trigger] stack@[i])@),
                forall|y: u128| #[trigger] on_top(old(stack)@, y) ==> on_top(stack@, y),
                forall|j: int|
                    0 <= j < i && (#[trigger] entries@[j]).0.1 == current && entries@[j].1.kind is Blocking
                        ==> visited@.contains(entries@[j].0.0) || on_top(stack@, entries@[j].0.0),
        {
            let from: u128 = entries[i].0.0;
            if entries[i].0.1 == current && matches!(entries[i].1.kind, EdgeKind::Blocking) && !visited.contains(
                &from,
            ) {
                let ghost before = stack@;
                let longer: Vec<TaskId> = extended(path, TaskId(from));
                proof {
                    assert(self@.edges.contains_pair(entries@[i as int].0, entries@[i as int].1));
                    assert(blocks(self@, from, current));
                    lemma_way_step(self@, start, path@, from);
                    lemma_on_top_push(before, longer);
                }
                stack.push(longer);
            }
        }
        assert forall|y: u128| #[trigger] blocks(self@, y, path@.last().0) implies visited@.contains(y) || on_top(
            stack@,
            y,
        ) by {
            let j = choose|j: int| 0 <= j < entries@.len() && (#[trigger] entries@[j]).0 == (y, current);
            assert(self@.edges.contains_pair(entries@[j].0, entries@[j].1));
        }
    }

    /// Makes `to` depend on `from` at the time `now`.
    pub fn depends_on_at(&mut self, from: TaskId, to: TaskId, kind: EdgeKind, now: u64) -> (r: Result<
        EdgeId,
        EngineError,
    >)
        ensures
            depend_outcome(old(self)@, from, to, kind, now, r, final(self)@),
            r matches Ok(edge_id) ==> {
                &&& final(self)@.edges.contains_key((from.0, to.0))
                &&& final(self)@.edges[(from.0, to.0)].id == edge_id
                &&& final(self)@.edges[(from.0, to.0)].from == from
                &&& final(self)@.edges[(from.0, to.0)].to == to
                &&& final(self)@.edges[(from.0, to.0)].kind == kind
            },
            r is Ok && kind == EdgeKind::Blocking && !(old(self)@.tasks[from.0].status is Completed) && !(old(self)@.tasks[to.0].status is Completed) ==> {
                &&& final(self)@.pending.contains_key(to.0)
                &&& final(self)@.pending[to.0].contains(from.0)
                &&& !(old(self)@.tasks[to.0].status is Cancelled) ==> final(self)@.tasks[to.0].status
                    == TaskStatus::Pending
            },
            sound(old(self)@) ==> sound(final(self)@),
            room(old(self)@, 5) ==> in_order(final(self)@),
    {
        if self.shutdown {
            return Err(EngineError::EngineShuttingDown);
        }
        if tasks_get(&self.tasks, from.0).is_none() {
            return Err(EngineError::NotFound(from));
        }
        if tasks_get(&self.tasks, to.0).is_none() {
            return Err(EngineError::NotFound(to));
        }
        if edges_get(&self.edges, (from.0, to.0)).is_some() {
            return Err(EngineError::AlreadyExists(to));
        }
        let blocking: bool = matches!(kind, EdgeKind::Blocking);
        if blocking {
            if let Some(path) = self.find_path(from.0, to.0) {
                proof {
                    lemma_leads(self@, path@, from.0, to.0);
                }
                return Err(EngineError::CycleDetected { path });
            }
        }
        let edge: u64 = self.next_seq();
        let seq: u64 = self.next_seq();
        edges_insert(&mut self.edges, (from.0, to.0), Dependency { id: EdgeId(edge), from, to, kind, seq });
        if blocking {
            self.add_dependent(from.0, to.0);
        }
        assert(self@ == with_edge(old(self)@, from, to, kind));
        if blocking && !self.is_completed(from.0) && !self.is_completed(to.0) {
            assert(takes_effect(old(self)@, from, to, kind));
            let mut waiting: HashSet<u128> = match index_get(&self.blocking_pending, to.0) {
                Some(set) => set,
                None => HashSet::new(),
            };
            waiting.insert(from.0);
            let degree: u16 = clamp_degree(waiting.len());
            index_insert(&mut self.blocking_pending, to.0, waiting);
            if let Some(task) = tasks_get(&self.tasks, to.0) {
                if matches!(task.status, TaskStatus::Ready | TaskStatus::Running { .. }) {
                    self.relocate(to.0, task, TaskStatus::Pending, now, degree);
                    self.announce(to, TaskStatus::Pending);
                } else {
                    let mut task: Task = task;
                    task.edge_in_degree = degree;
                    self.store(to.0, task);
                }
            }
        }
        proof {
            assert(self@ == after_depend(old(self)@, from, to, kind, now));
            if sound(old(self)@) {
                law_depend_sound(old(self)@, from, to, kind, now);
            }
            if room(old(self)@, 5) {
                law_step_in_order(old(self)@, Op::Depend { from, to, kind, now });
            }
        }
        Ok(EdgeId(edge))
    }

    /// Removes the edge `edge_id` at the time `now`. If it was the last
    /// unsatisfied blocking dependency of a pending task, the task becomes
    /// ready. This works during a shutdown too.
    pub fn remove_dep_at(&mut self, edge_id: EdgeId, now: u64) -> (r: Result<(), EngineError>)
        ensures
            remove_outcome(old(self)@, edge_id, now, r, final(self)@),
            r is Ok ==> exists|key: (u128, u128)| #[trigger]
                old(self)@.edges.contains_key(key) && old(self)@.edges[key].id == edge_id && final(self)@.edges
                    == old(self)@.edges.remove(key),
            sound(old(self)@) ==> sound(final(self)@),
            room(old(self)@, 2) ==> in_order(final(self)@),
    {
        let entries: Vec<((u128, u128), Dependency)> = edges_entries(&self.edges);
        let mut found: Option<usize> = None;
        let mut i: usize = 0;
        while i < entries.len() && found.is_none()
            invariant
                0 <= i <= entries@.len(),
                match found {
                    Some(k) => k < entries@.len() && entries@[k as int].1.id == edge_id,
                    None => forall|j: int| 0 <= j < i ==> (#[trigger] entries@[j]).1.id != edge_id,
                },
            decreases entries@.len() - i,
        {
            if entries[i].1.id.0 == edge_id.0 {
                found = Some(i);
            }
            i = i + 1;
        }
        let k: usize = match found {
            Some(k) => k,
            None => {
                assert forall|key: (u128, u128)| !#[trigger] edge_has_id(self@, key, edge_id) by {
                    if self@.edges.contains_key(key) {
                        let j = choose|j: int| 0 <= j < entries@.len() && (#[trigger] entries@[j]).0 == key;
                        assert(self@.edges.contains_pair(entries@[j].0, entries@[j].1));
                    }
                }
                return Err(EngineError::NotFound(TaskId(edge_id.0 as u128)));
            },
        };
        let key: (u128, u128) = entries[k].0;
        let (from, to) = key;
        proof {
            assert(self@.edges.contains_pair(entries@[k as int].0, entries@[k as int].1));
            assert(edge_has_id(self@, key, edge_id));
        }
        edges_remove(&mut self.edges, key);
        index_drop(&mut self.blocking_dependents, from, to);
        index_drop(&mut self.joint_children, from, to);
        assert(self@ == unlinked(old(self)@, key));
        if matches!(entries[k].1.kind, EdgeKind::Blocking) {
            if let Some(waiting) = index_get(&self.blocking_pending, to) {
                if waiting.contains(&from) {
                    self.relieve(from, to, waiting, now);
                }
            }
        }
        proof {
            assert(self@ == after_remove(old(self)@, key, now));
            assert(old(self)@.edges.contains_key(key));
            assert(self@.edges == old(self)@.edges.remove(key));
            if sound(old(self)@) {
                law_remove_sound(old(self)@, key, now);
            }
            if room(old(self)@, 2) {
                law_step_in_order(old(self)@, Op::Remove { key, now });
            }
        }
        Ok(())
    }

    /// Records what was reported about `id` at the time `now`.
    pub fn update_status_at(&mut self, id: TaskId, status: TaskStatus, now: u64) -> (r: Result<(), EngineError>)
        ensures
            update_outcome(old(self)@, id, status, now, r, final(self)@),
            sound(old(self)@) ==> (status matches TaskStatus::Completed { result } ==> {
                &&& r is Ok <==> old(self)@.tasks.contains_key(id.0) && old(self)@.tasks[id.0].status is Running
                &&& r is Ok ==> final(self)@.tasks[id.0].status == status
            }),
            sound(old(self)@) && r is Ok && (status is Running || status is Cancelled) ==> final(self)@.tasks[id.0].status == status,
            sound(old(self)@) ==> sound(final(self)@),
            sound(old(self)@) && room(
                old(self)@,
                3 * old(self)@.tasks.dom().len() + 2 * set_at(old(self)@.dependents, id.0).len() + 2,
            ) ==> in_order(final(self)@),
    {
        match status {
            TaskStatus::Completed { result } => {
                let r: Result<(), EngineError> = match tasks_get(&self.tasks, id.0) {
                    None => Err(EngineError::NotFound(id)),
                    Some(task) => match task.status {
                        TaskStatus::Running { .. } => Ok(()),
                        other => Err(EngineError::InvalidTransition { id, from: other, attempted: "complete" }),
                    },
                };
                self.complete_at(id, result, now);
                r
            },
            TaskStatus::Running { worker_id } => match self.start_at(id, worker_id, now) {
                Ok(_) => Ok(()),
                Err(e) => Err(e),
            },
            TaskStatus::Cancelled { reason } => self.cancel_at(id, reason, now),
            _ => if tasks_get(&self.tasks, id.0).is_some() {
                Ok(())
            } else {
                Err(EngineError::NotFound(id))
            },
        }
    }

    /// Records what was reported about `id`.
    pub fn update_status(&mut self, id: TaskId, status: TaskStatus) -> (r: Result<(), EngineError>)
        ensures
            exists|now: u64| #[trigger] update_outcome(old(self)@, id, status, now, r, final(self)@),
            sound(old(self)@) ==> (status matches TaskStatus::Completed { result } ==> {
                &&& r is Ok <==> old(self)@.tasks.contains_key(id.0) && old(self)@.tasks[id.0].status is Running
                &&& r is Ok ==> final(self)@.tasks[id.0].status == status
            }),
            sound(old(self)@) && r is Ok && (status is Running || status is Cancelled) ==> final(self)@.tasks[id.0].status == status,
            sound(old(self)@) ==> sound(final(self)@),
            sound(old(self)@) && room(
                old(self)@,
                3 * old(self)@.tasks.dom().len() + 2 * set_at(old(self)@.dependents, id.0).len() + 2,
            ) ==> in_order(final(self)@),
    {
        let now: u64 = now_millis();
        let r: Result<(), EngineError> = self.update_status_at(id, status, now);
        assert(update_outcome(old(self)@, id, status, now, r, self@));
        r
    }

    /// Creates a task under a random id. Returns the id.
    pub fn create(&mut self, spec: TaskSpec) -> (r: Result<TaskId, EngineError>)
        requires
            !old(self)@.shutdown ==> creatable(old(self)@, spec@),
        ensures
            exists|id: u128, now: u64| #[trigger]
                created(old(self)@, id, now, spec@, answer(r), final(self)@),
            r matches Ok(new) ==> {
                &&& !old(self)@.tasks.contains_key(new.0)
                &&& final(self)@.tasks.contains_key(new.0)
                &&& final(self)@.tasks[new.0].id == new
                &&& final(self)@.tasks[new.0].spec == spec@
            },
            sound(old(self)@) ==> sound(final(self)@),
            room(old(self)@, spec@.blocking_on.len() + 2) ==> in_order(final(self)@),
    {
        let id: u128 = random_u128();
        let now: u64 = now_millis();
        let r: Result<TaskId, EngineError> = self.create_at(TaskId(id), now, spec);
        assert(created(old(self)@, id, now, spec@, answer(r), self@));
        r
    }

    /// Whether [`TaskEngine::create`] can take `spec`: neither the number of
    /// its unsatisfied dependencies nor the number of children of its parent
    /// would exceed 65535.
    pub fn can_create(&self, spec: &TaskSpec) -> (r: bool)
        ensures
            r == creatable(self@, spec@),
    {
        let waiting: HashSet<u128> = self.unsatisfied_of(&spec.blocking_on);
        if waiting.len() > 0xffff {
            return false;
        }
        match spec.parent {
            Some(parent) => match tasks_get(&self.tasks, parent.0) {
                Some(task) => task.child_count < 0xffff,
                None => true,
            },
            None => true,
        }
    }

    /// Status transition Ready to Running.
    pub fn start(&mut self, id: TaskId, worker: WorkerId) -> (r: Result<TaskGuard, EngineError>)
        ensures
            exists|now: u64| #[trigger] start_outcome(old(self)@, id, worker, now, r, final(self)@),
            r matches Ok(guard) ==> {
                &&& guard.task_id() == id
                &&& guard.worker() == worker
                &&& !guard.done()
                &&& old(self)@.tasks[id.0].status == TaskStatus::Ready
                &&& final(self)@.tasks[id.0].status == (TaskStatus::Running { worker_id: worker })
            },
            sound(old(self)@) ==> sound(final(self)@),
            room(old(self)@, 2) ==> in_order(final(self)@),
    {
        let now: u64 = now_millis();
        let r: Result<TaskGuard, EngineError> = self.start_at(id, worker, now);
        assert(start_outcome(old(self)@, id, worker, now, r, self@));
        r
    }

    /// Moves `id` to Completed at the time `now` if `worker` runs it, and wakes
    /// what waited for it.
    pub(crate) fn inner_complete_at(&mut self, id: TaskId, worker: WorkerId, result: TaskResult, now: u64)
        ensures
            sound(old(self)@) && old(self)@.tasks.contains_key(id.0) && old(self)@.tasks[id.0].status
                == (TaskStatus::Running { worker_id: worker }) ==> final(self)@.tasks[id.0].status
                == (TaskStatus::Completed { result }),
            exists|order: Seq<u128>| #[trigger]
                finished_by(old(self)@, worker, id, result, now, order, final(self)@),
            sound(old(self)@) ==> sound(final(self)@),
            room(old(self)@, 2 * set_at(old(self)@.dependents, id.0).len() + 2) ==> in_order(final(self)@),
    {
        let held: bool = match tasks_get(&self.tasks, id.0) {
            Some(task) => match task.status {
                TaskStatus::Running { worker_id } => worker_id.0 == worker.0,
                _ => false,
            },
            None => false,
        };
        if held {
            self.complete_at(id, result, now);
            proof {
                let order = choose|order: Seq<u128>| #[trigger]
                    finished(old(self)@, id, result, now, order, self@);
                assert(finished_by(old(self)@, worker, id, result, now, order, self@));
            }
        } else {
            assert(finished_by(old(self)@, worker, id, result, now, Seq::empty(), self@));
        }
    }

    /// Moves `id` to Completed if `worker` runs it, and wakes what waited for it.
    pub(crate) fn inner_complete(&mut self, id: TaskId, worker: WorkerId, result: TaskResult)
        ensures
            sound(old(self)@) && old(self)@.tasks.contains_key(id.0) && old(self)@.tasks[id.0].status
                == (TaskStatus::Running { worker_id: worker }) ==> final(self)@.tasks[id.0].status
                == (TaskStatus::Completed { result }),
            exists|now: u64, order: Seq<u128>| #[trigger]
                finished_by(old(self)@, worker, id, result, now, order, final(self)@),
            sound(old(self)@) ==> sound(final(self)@),
            room(old(self)@, 2 * set_at(old(self)@.dependents, id.0).len() + 2) ==> in_order(final(self)@),
    {
        let now: u64 = now_millis();
        self.inner_complete_at(id, worker, result, now);
    }

    /// Status transition to Cancelled, cascading to running and pending
    /// children.
    pub fn cancel(&mut self, id: TaskId, reason: u32) -> (r: Result<(), EngineError>)
        ensures
            exists|now: u64| #[trigger] cancel_outcome(old(self)@, id, reason, now, r, final(self)@),
            r is Ok ==> {
                &&& final(self)@.tasks[id.0].status == (TaskStatus::Cancelled { reason })
                &&& forall|c: u128|
                    {
                        &&& #[trigger] old(self)@.edges.contains_key((id.0, c))
                        &&& old(self)@.edges[(id.0, c)].kind == EdgeKind::Parent
                        &&& old(self)@.tasks.contains_key(c)
                        &&& old(self)@.tasks[c].status is Pending || old(self)@.tasks[c].status is Running
                    } ==> final(self)@.tasks[c].status == (TaskStatus::Cancelled { reason })
            },
            sound(old(self)@) ==> sound(final(self)@),
            sound(old(self)@) && room(old(self)@, 3 * old(self)@.tasks.dom().len()) ==> in_order(final(self)@),
    {
        let now: u64 = now_millis();
        let r: Result<(), EngineError> = self.cancel_at(id, reason, now);
        assert(cancel_outcome(old(self)@, id, reason, now, r, self@));
        r
    }

    /// Adds a dependency edge between two tasks.
    pub fn depends_on(&mut self, from: TaskId, to: TaskId, kind: EdgeKind) -> (r: Result<EdgeId, EngineError>)
        ensures
            exists|now: u64| #[trigger] depend_outcome(old(self)@, from, to, kind, now, r, final(self)@),
            r matches Ok(edge_id) ==> {
                &&& final(self)@.edges.contains_key((from.0, to.0))
                &&& final(self)@.edges[(from.0, to.0)].id == edge_id
                &&& final(self)@.edges[(from.0, to.0)].from == from
                &&& final(self)@.edges[(from.0, to.0)].to == to
                &&& final(self)@.edges[(from.0, to.0)].kind == kind
            },
            r is Ok && kind == EdgeKind::Blocking && !(old(self)@.tasks[from.0].status is Completed) && !(old(self)@.tasks[to.0].status is Completed) ==> {
                &&& final(self)@.pending.contains_key(to.0)
                &&& final(self)@.pending[to.0].contains(from.0)
                &&& !(old(self)@.tasks[to.0].status is Cancelled) ==> final(self)@.tasks[to.0].status
                    == TaskStatus::Pending
            },
            sound(old(self)@) ==> sound(final(self)@),
            room(old(self)@, 5) ==> in_order(final(self)@),
    {
        let now: u64 = now_millis();
        let r: Result<EdgeId, EngineError> = self.depends_on_at(from, to, kind, now);
        assert(depend_outcome(old(self)@, from, to, kind, now, r, self@));
        r
    }

    /// Removes a dependency edge.
    pub fn remove_dep(&mut self, edge_id: EdgeId) -> (r: Result<(), EngineError>)
        ensures
            exists|now: u64| #[trigger] remove_outcome(old(self)@, edge_id, now, r, final(self)@),
            r is Ok ==> exists|key: (u128, u128)| #[trigger]
                old(self)@.edges.contains_key(key) && old(self)@.edges[key].id == edge_id && final(self)@.edges
                    == old(self)@.edges.remove(key),
            sound(old(self)@) ==> sound(final(self)@),
            room(old(self)@, 2) ==> in_order(final(self)@),
    {
        let now: u64 = now_millis();
        let r: Result<(), EngineError> = self.remove_dep_at(edge_id, now);
        assert(remove_outcome(old(self)@, edge_id, now, r, self@));
        r
    }

    /// Number of tasks by status. In a sound engine these are exact, and add up to
    /// the tasks there are.
    pub fn stats(&self) -> (r: EngineStats)
        ensures
            r.pending == self@.counters.pending as usize,
            r.ready == self@.counters.ready as usize,
            r.running == self@.counters.running as usize,
            r.completed == self@.counters.completed as usize,
            r.cancelled == self@.counters.cancelled as usize,
            sound(self@) && self@.tasks.dom().len() <= usize::MAX ==> {
                &&& r.pending == members_of(self@.tasks, StatusClass::Pending).len()
                &&& r.ready == members_of(self@.tasks, StatusClass::Ready).len()
                &&& r.running == members_of(self@.tasks, StatusClass::Running).len()
                &&& r.completed == members_of(self@.tasks, StatusClass::Completed).len()
                &&& r.cancelled == members_of(self@.tasks, StatusClass::Cancelled).len()
                &&& r.pending == self@.tasks.dom().filter(|id: u128| self@.tasks[id].status is Pending).len()
                &&& r.ready == self@.tasks.dom().filter(|id: u128| self@.tasks[id].status is Ready).len()
                &&& r.running == self@.tasks.dom().filter(|id: u128| self@.tasks[id].status is Running).len()
                &&& r.completed == self@.tasks.dom().filter(|id: u128| self@.tasks[id].status is Completed).len()
                &&& r.cancelled == self@.tasks.dom().filter(|id: u128| self@.tasks[id].status is Cancelled).len()
                &&& r.pending + r.ready + r.running + r.completed + r.cancelled == self@.tasks.dom().len()
            },
    {
        proof {
            if sound(self@) && self@.tasks.dom().len() <= usize::MAX {
                law_counters_exact(self@, StatusClass::Pending);
                law_counters_exact(self@, StatusClass::Ready);
                law_counters_exact(self@, StatusClass::Running);
                law_counters_exact(self@, StatusClass::Completed);
                law_counters_exact(self@, StatusClass::Cancelled);
                law_counters_count(self@);
                law_statuses_add_up(self@.tasks);
            }
        }
        self.counters.snapshot()
    }

    /// Begins a shutdown: from now on creating, starting and cancelling tasks
    /// and adding edges is refused. Running tasks go on and can complete.
    pub fn shutdown(&mut self) -> (r: Result<(), EngineError>)
        ensures
            r is Ok,
            final(self)@ == (EngineModel { shutdown: true, ..old(self)@ }),
            sound(old(self)@) ==> sound(final(self)@),
            in_order(old(self)@) ==> in_order(final(self)@),
    {
        self.shutdown = true;
        proof {
            lemma_same_tables(old(self)@, self@);
        }
        Ok(())
    }

    /// Whether a shutdown has begun.
    pub fn is_shutting_down(&self) -> (r: bool)
        ensures
            r == self@.shutdown,
    {
        self.shutdown
    }

    /// The task `id`.
    pub fn get_task(&self, id: TaskId) -> (r: Option<Task>)
        ensures
            match r {
                Some(task) => self@.tasks.contains_key(id.0) && task@ == self@.tasks[id.0],
                None => !self@.tasks.contains_key(id.0),
            },
    {
        tasks_get(&self.tasks, id.0)
    }

    /// The edge from `from` to `to`.
    pub fn get_edge(&self, from: TaskId, to: TaskId) -> (r: Option<Dependency>)
        ensures
            match r {
                Some(edge) => self@.edges.contains_key((from.0, to.0)) && edge == self@.edges[(from.0, to.0)],
                None => !self@.edges.contains_key((from.0, to.0)),
            },
    {
        edges_get(&self.edges, (from.0, to.0))
    }

    /// Hands out the status changes that were collected since the last call,
    /// in the order in which they were announced.
    pub fn take_events(&mut self) -> (r: Vec<(TaskId, TaskStatus, u64)>)
        ensures
            r@ == old(self)@.events,
            final(self)@ == (EngineModel { events: Seq::empty(), ..old(self)@ }),
            sound(old(self)@) ==> sound(final(self)@),
            in_order(old(self)@) ==> in_order(final(self)@),
    {
        let mut r: Vec<(TaskId, TaskStatus, u64)> = Vec::new();
        std::mem::swap(&mut r, &mut self.events);
        proof {
            assert(self@.events =~= Seq::empty());
            lemma_same_tables(old(self)@, self@);
        }
        r
    }

    /// Hands out the tasks that became ready since the last call, in the order
    /// in which they did.
    pub fn take_ready(&mut self) -> (r: Vec<TaskId>)
        ensures
            r@ == old(self)@.ready,
            final(self)@ == (EngineModel { ready: Seq::empty(), ..old(self)@ }),
            sound(old(self)@) ==> sound(final(self)@),
            in_order(old(self)@) ==> in_order(final(self)@),
    {
        let mut r: Vec<TaskId> = Vec::new();
        std::mem::swap(&mut r, &mut self.ready);
        proof {
            assert(self@.ready =~= Seq::empty());
            lemma_same_tables(old(self)@, self@);
        }
        r
    }
}

/// Each member of a set, once.
fn members(set: &HashSet<u128>) -> (r: Vec<u128>)
    ensures
        lists(r@, set@),
{
    let mut r: Vec<u128> = Vec::new();
    for x in it: set.iter()
        invariant
            it.seq().unref().to_set() == set@,
            it.seq().no_duplicates(),
            r@ == it.seq().unref().take(it.index() as int),
            it.index() == it.seq().len() ==> r@ == it.seq().unref(),
    {
        r.push(*x);
        assert(r@ =~= it.seq().unref().take(it.index() as int + 1));
    }
    r
}

/// Whether `entries` lists the edges, each once.
spec fn edge_list(entries: Seq<((u128, u128), Dependency)>, edges: Map<(u128, u128), Dependency>) -> bool {
    &&& forall|i: int| 0 <= i < entries.len() ==> edges.contains_pair((#[trigger] entries[i]).0, entries[i].1)
    &&& forall|k: (u128, u128)| #[trigger]
        edges.contains_key(k) ==> exists|i: int| 0 <= i < entries.len() && (#[trigger] entries[i]).0 == k
}

/// The ends of edges that a cascade can still take along.
spec fn live_ends(s: EngineModel, entries: Seq<((u128, u128), Dependency)>) -> Set<u128> {
    entries.map_values(|e: ((u128, u128), Dependency)| e.0.1).to_set().filter(|id: u128| s.cascades_to(id))
}

/// Whether `order` is what a cascade cancels below `parent`, except that some
/// children of `parent` itself may be left out.
spec fn cascade_part(s: EngineModel, parent: u128, order: Seq<u128>) -> bool {
    &&& order.no_duplicates()
    &&& forall|i: int|
        0 <= i < order.len() ==> s.cascades_to(#[trigger] order[i]) && (parent_of(s, parent, order[i])
            || exists|j: int| 0 <= j < i && #[trigger] parent_of(s, order[j], order[i]))
    &&& forall|i: int, child: u128|
        0 <= i < order.len() && #[trigger] parent_of(s, order[i], child) && s.cascades_to(child)
            ==> order.contains(child)
}

/// Whether `order` is what a cascade cancels below `parent`.
spec fn cascade_below(s: EngineModel, parent: u128, order: Seq<u128>) -> bool {
    &&& cascade_part(s, parent, order)
    &&& forall|child: u128| #[trigger]
        parent_of(s, parent, child) && s.cascades_to(child) ==> order.contains(child)
}

/// What a list with a further entry and a tail contains.
proof fn lemma_extended_contains(order: Seq<u128>, child: u128, below: Seq<u128>)
    ensures
        forall|x: u128| #[trigger]
            (order.push(child) + below).contains(x) <==> order.contains(x) || x == child || below.contains(x),
        forall|x: u128| #[trigger] order.push(child).contains(x) <==> order.contains(x) || x == child,
{
    let marked = order.push(child);
    let whole = marked + below;
    assert forall|x: u128| #[trigger] whole.contains(x) <==> marked.contains(x) || below.contains(x) by {
        if whole.contains(x) {
            let k = choose|k: int| 0 <= k < whole.len() && whole[k] == x;
            if k < marked.len() {
                assert(marked[k] == x);
            } else {
                assert(below[k - marked.len()] == x);
            }
        }
        if marked.contains(x) {
            let k = choose|k: int| 0 <= k < marked.len() && marked[k] == x;
            assert(whole[k] == x);
        }
        if below.contains(x) {
            let k = choose|k: int| 0 <= k < below.len() && below[k] == x;
            assert(whole[marked.len() + k] == x);
        }
    }
    assert forall|x: u128| #[trigger] marked.contains(x) <==> order.contains(x) || x == child by {
        if marked.contains(x) {
            let k = choose|k: int| 0 <= k < marked.len() && marked[k] == x;
            if k < order.len() {
                assert(order[k] == x);
            }
        }
        if order.contains(x) {
            let k = choose|k: int| 0 <= k < order.len() && order[k] == x;
            assert(marked[k] == x);
        }
        if x == child {
            assert(marked[order.len() as int] == x);
        }
    }
}

/// Cancelling the end of an edge leaves fewer ends to take along.
proof fn lemma_live_ends_shrink(
    s: EngineModel,
    entries: Seq<((u128, u128), Dependency)>,
    i: int,
    marked: Seq<u128>,
    reason: u32,
    now: u64,
)
    requires
        0 <= i < entries.len(),
        s.cascades_to(entries[i].0.1),
        marked.contains(entries[i].0.1),
        forall|k: int| 0 <= k < marked.len() ==> s.cascades_to(#[trigger] marked[k]),
    ensures
        live_ends(cancelled_all(s, marked, reason, now), entries).len() < live_ends(s, entries).len(),
{
    let t = cancelled_all(s, marked, reason, now);
    let child = entries[i].0.1;
    lemma_cancelled_all_frame(s, marked, reason, now);
    let ends = entries.map_values(|e: ((u128, u128), Dependency)| e.0.1);
    assert(ends[i] == child);
    assert(ends.to_set().contains(child));
    vstd::seq_lib::seq_to_set_is_finite(ends);
    let before = live_ends(s, entries);
    let after = live_ends(t, entries);
    assert(before.contains(child));
    assert(after.subset_of(before.remove(child)));
    vstd::set_lib::lemma_len_subset(after, before.remove(child));
}

/// A child and what lies below it added to a part of a cascade.
proof fn lemma_cascade_step(
    s: EngineModel,
    parent: u128,
    order: Seq<u128>,
    child: u128,
    below: Seq<u128>,
    reason: u32,
    now: u64,
)
    requires
        cascade_part(s, parent, order),
        parent_of(s, parent, child),
        s.cascades_to(child),
        !order.contains(child),
        cascade_below(cancelled_all(s, order.push(child), reason, now), child, below),
    ensures
        cascade_part(s, parent, order.push(child) + below),
        forall|x: u128| order.contains(x) || x == child ==> #[trigger] (order.push(child) + below).contains(x),
{
    let marked = order.push(child);
    let whole = marked + below;
    let t = cancelled_all(s, marked, reason, now);
    lemma_extended_contains(order, child, below);
    lemma_cancelled_all_frame(s, marked, reason, now);
    assert forall|x: u128| #[trigger] t.cascades_to(x) <==> s.cascades_to(x) && !marked.contains(x) by {}
    assert(whole.no_duplicates()) by {
        assert forall|i: int, j: int| 0 <= i < whole.len() && 0 <= j < whole.len() && i != j implies whole[i]
            != whole[j] by {
            let lo = if i < j { i } else { j };
            let hi = if i < j { j } else { i };
            if hi < order.len() {
                assert(order[lo] != order[hi]);
            } else if hi == order.len() {
                assert(order[lo] == whole[lo]);
            } else {
                let h = hi - marked.len();
                assert(t.cascades_to(below[h]));
                if lo < marked.len() {
                    assert(marked[lo] == whole[lo]);
                } else {
                    assert(below[lo - marked.len()] != below[h]);
                }
            }
        }
    }
    assert forall|i: int| 0 <= i < whole.len() implies s.cascades_to(#[trigger] whole[i]) && (parent_of(
        s,
        parent,
        whole[i],
    ) || exists|j: int| 0 <= j < i && #[trigger] parent_of(s, whole[j], whole[i])) by {
        if i < order.len() {
            assert(whole[i] == order[i]);
            if !parent_of(s, parent, order[i]) {
                let j = choose|j: int| 0 <= j < i && #[trigger] parent_of(s, order[j], order[i]);
                assert(parent_of(s, whole[j], whole[i]));
            }
        } else if i > order.len() {
            let k = i - marked.len();
            assert(whole[i] == below[k]);
            assert(t.cascades_to(below[k]));
            if parent_of(t, child, below[k]) {
                assert(whole[order.len() as int] == child);
                assert(parent_of(s, whole[order.len() as int], whole[i]));
            } else {
                let j = choose|j: int| 0 <= j < k && #[trigger] parent_of(t, below[j], below[k]);
                assert(whole[marked.len() + j] == below[j]);
                assert(parent_of(s, whole[marked.len() + j], whole[i]));
            }
        }
    }
    assert forall|i: int, c: u128|
        0 <= i < whole.len() && #[trigger] parent_of(s, whole[i], c) && s.cascades_to(c) implies whole.contains(
        c,
    ) by {
        if i < order.len() {
            assert(whole[i] == order[i]);
            assert(parent_of(s, order[i], c));
        } else if i == order.len() {
            assert(parent_of(t, child, c));
        } else {
            assert(whole[i] == below[i - marked.len()]);
            assert(parent_of(t, below[i - marked.len()], c));
        }
    }
}

/// What lies below a cancelled task, with the task itself, is a cascade.
proof fn lemma_cascade_root(s: EngineModel, id: u128, below: Seq<u128>, reason: u32, now: u64)
    requires
        s.tasks.contains_key(id),
        cascade_below(cancelled_all(s, seq![id], reason, now), id, below),
    ensures
        cascade(s, id, seq![id] + below),
{
    let first = seq![id];
    let whole = first + below;
    let t = cancelled_all(s, first, reason, now);
    assert(first[0] == id);
    lemma_cancelled_all_frame(s, first, reason, now);
    assert(first =~= Seq::<u128>::empty().push(id));
    assert(whole[0] == id);
    lemma_extended_contains(Seq::empty(), id, below);
    assert forall|x: u128| #[trigger] t.cascades_to(x) <==> s.cascades_to(x) && x != id by {}
    assert(whole.no_duplicates()) by {
        assert forall|i: int, j: int| 0 <= i < whole.len() && 0 <= j < whole.len() && i != j implies whole[i]
            != whole[j] by {
            if i == 0 {
                assert(t.cascades_to(below[j - 1]));
            } else if j == 0 {
                assert(t.cascades_to(below[i - 1]));
            } else {
                assert(below[i - 1] != below[j - 1]);
            }
        }
    }
    assert forall|i: int| 0 < i < whole.len() implies s.cascades_to(#[trigger] whole[i]) && exists|j: int|
        0 <= j < i && #[trigger] parent_of(s, whole[j], whole[i]) by {
        assert(whole[i] == below[i - 1]);
        if parent_of(t, id, below[i - 1]) {
            assert(parent_of(s, whole[0], whole[i]));
        } else {
            let j = choose|j: int| 0 <= j < i - 1 && #[trigger] parent_of(t, below[j], below[i - 1]);
            assert(whole[j + 1] == below[j]);
            assert(parent_of(s, whole[j + 1], whole[i]));
        }
    }
    assert forall|i: int, c: u128|
        0 <= i < whole.len() && #[trigger] parent_of(s, whole[i], c) && s.cascades_to(c) implies whole.contains(
        c,
    ) by {
        if i == 0 {
            assert(parent_of(t, id, c));
        } else {
            assert(whole[i] == below[i - 1]);
            assert(parent_of(t, below[i - 1], c));
        }
    }
}

/// Whether `path` is a way from `start` along what blocks what.
spec fn way(s: EngineModel, start: u128, path: Seq<TaskId>) -> bool {
    walk(s, numbers_of(path)) && path[0] == TaskId(start)
}

/// Whether one of the ways on a stack ends at `y`.
spec fn on_top(stack: Seq<Vec<TaskId>>, y: u128) -> bool {
    exists|i: int| 0 <= i < stack.len() && (#[trigger] stack[i])@.last() == TaskId(y)
}

/// A list with a further entry.
fn extended(path: &Vec<TaskId>, id: TaskId) -> (r: Vec<TaskId>)
    ensures
        r@ == path@.push(id),
{
    let mut r: Vec<TaskId> = Vec::new();
    for i in 0..path.len()
        invariant
            r@ == path@.take(i as int),
    {
        r.push(path[i]);
        assert(r@ =~= path@.take(i as int + 1));
    }
    r.push(id);
    assert(r@ =~= path@.push(id));
    r
}

/// Adds `member` to the set that an index holds for `id`.
fn index_add(m: &mut DashMap<u128, HashSet<u128>>, id: u128, member: u128)
    ensures
        index_table(*final(m)) == with_member(index_table(*old(m)), id, member),
{
    let mut set: HashSet<u128> = match index_get(m, id) {
        Some(set) => set,
        None => HashSet::new(),
    };
    set.insert(member);
    index_insert(m, id, set);
}

/// Takes `member` out of the set that an index holds for `id`.
fn index_drop(m: &mut DashMap<u128, HashSet<u128>>, id: u128, member: u128)
    ensures
        index_table(*final(m)) == without_member(index_table(*old(m)), id, member),
{
    if let Some(set) = index_get(m, id) {
        let mut set: HashSet<u128> = set;
        set.remove(&member);
        index_insert(m, id, set);
    }
}

/// Whether the set that an index holds for `id` has `member`.
fn index_has(m: &DashMap<u128, HashSet<u128>>, id: u128, member: u128) -> (r: bool)
    ensures
        r == set_at(index_table(*m), id).contains(member),
{
    match index_get(m, id) {
        Some(set) => set.contains(&member),
        None => false,
    }
}

/// Where the ways on a stack with a further one end.
proof fn lemma_on_top_push(stack: Seq<Vec<TaskId>>, path: Vec<TaskId>)
    ensures
        forall|y: u128| #[trigger]
            on_top(stack.push(path), y) <==> on_top(stack, y) || path@.last() == TaskId(y),
{
    let longer = stack.push(path);
    assert forall|y: u128| #[trigger] on_top(longer, y) <==> on_top(stack, y) || path@.last() == TaskId(y) by {
        if on_top(longer, y) {
            let i = choose|i: int| 0 <= i < longer.len() && (#[trigger] longer[i])@.last() == TaskId(y);
            if i < stack.len() {
                assert(stack[i]@.last() == TaskId(y));
            }
        }
        if on_top(stack, y) {
            let i = choose|i: int| 0 <= i < stack.len() && (#[trigger] stack[i])@.last() == TaskId(y);
            assert(longer[i]@.last() == TaskId(y));
        }
        if path@.last() == TaskId(y) {
            assert(longer[stack.len() as int]@.last() == TaskId(y));
        }
    }
}

/// A way goes on to what blocks its end.
proof fn lemma_way_step(s: EngineModel, start: u128, path: Seq<TaskId>, from: u128)
    requires
        way(s, start, path),
        blocks(s, from, path.last().0),
    ensures
        way(s, start, path.push(TaskId(from))),
{
    let longer = path.push(TaskId(from));
    let n = numbers_of(longer);
    assert forall|i: int| 0 <= i < n.len() - 1 implies blocks(s, n[i + 1], #[trigger] n[i]) by {
        assert(n[i] == numbers_of(path)[i]);
        if i < path.len() - 1 {
            assert(n[i + 1] == numbers_of(path)[i + 1]);
        }
    }
}

/// What leads somewhere shows that there is a way.
proof fn lemma_leads(s: EngineModel, path: Seq<TaskId>, a: u128, b: u128)
    requires
        leads(s, path, a, b),
    ensures
        blocking_path(s, a, b),
{
    assert(numbers_of(path)[0] == a);
    assert(numbers_of(path).last() == b);
}

/// A way to a task that blocks nothing begins at that task.
proof fn lemma_path_ends(s: EngineModel, a: u128, b: u128)
    requires
        forall|x: u128| !#[trigger] blocks(s, b, x),
        a != b,
    ensures
        !blocking_path(s, a, b),
{
    if blocking_path(s, a, b) {
        let path = choose|path: Seq<u128>| #[trigger] walk(s, path) && path[0] == a && path.last() == b;
        let i = path.len() - 2;
        assert(blocks(s, path[i + 1], path[i]));
    }
}

/// A set closed under what blocks holds every walk that begins in it.
proof fn lemma_closed_walk(s: EngineModel, set: Set<u128>, path: Seq<u128>, n: int)
    requires
        walk(s, path),
        0 <= n < path.len(),
        set.contains(path[0]),
        forall|x: u128, y: u128| set.contains(x) && #[trigger] blocks(s, y, x) ==> set.contains(y),
    ensures
        set.contains(path[n]),
    decreases n,
{
    if n > 0 {
        lemma_closed_walk(s, set, path, n - 1);
        assert(blocks(s, path[n - 1 + 1], path[n - 1]));
    }
}

} // verus!
