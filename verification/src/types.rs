//! The plain data of the engine and the mathematical values it stands for.
use vstd::prelude::*;

verus! {

/// Unique identifier for a task. 128 bits allow random generation without
/// coordination.
#[derive(Debug, Clone, Copy, PartialEq, Eq, Hash, Structural)]
pub struct TaskId(pub u128);

/// Identifier of a dependency edge.
#[derive(Debug, Clone, Copy, PartialEq, Eq, Hash, Structural)]
pub struct EdgeId(pub u64);

/// Worker identifier.
#[derive(Debug, Clone, Copy, PartialEq, Eq, Hash, Structural)]
pub struct WorkerId(pub u64);

/// Priority in -128..=127. Most tasks have `Priority(0)`; negative is low
/// priority cleanup, positive is urgent.
#[derive(Debug, Clone, Copy, PartialEq, Eq, PartialOrd, Ord, Hash, Structural)]
pub struct Priority(pub i8);

/// The kind of a dependency edge.
#[derive(Debug, Clone, Copy, PartialEq, Eq, Hash, Structural)]
pub enum EdgeKind {
    /// Hard dependency: `to` cannot start until `from` completes.
    Blocking,
    /// Weak dependency: `to` prefers that `from` completes first.
    Preference,
    /// Data dependency: `from` produces an artifact that `to` consumes. The
    /// engine does not order the two.
    Artifact { artifact_type: u32, artifact_id: u128 },
    /// `to` is a part of the decomposition of `from`.
    Parent,
}

/// How an execution ended.
#[derive(Debug, Clone, Copy, PartialEq, Eq, Hash, Structural)]
#[allow(inconsistent_fields)]
pub enum TaskResult {
    Success { output_ref: u128 },
    Failed { error_code: u32, output_ref: Option<u128> },
}

/// The state of a task.
#[derive(Debug, Clone, Copy, PartialEq, Eq, Hash, Structural)]
pub enum TaskStatus {
    /// Waiting on at least one blocking edge.
    Pending,
    /// All blocking dependencies are satisfied.
    Ready,
    /// Being executed by a worker.
    Running { worker_id: WorkerId },
    /// Execution finished.
    Completed { result: TaskResult },
    /// Cancelled by request or by cascade.
    Cancelled { reason: u32 },
}

/// Number of tasks in each status.
#[derive(Debug, Clone, Copy, PartialEq, Eq, Hash, Structural)]
pub struct EngineStats {
    pub pending: usize,
    pub ready: usize,
    pub running: usize,
    pub completed: usize,
    pub cancelled: usize,
}

impl Default for EngineStats {
    fn default() -> (s: Self)
        ensures
            s == (EngineStats { pending: 0, ready: 0, running: 0, completed: 0, cancelled: 0 }),
    {
        EngineStats { pending: 0, ready: 0, running: 0, completed: 0, cancelled: 0 }
    }
}

/// What a task is to do and what it waits for.
#[derive(Debug)]
pub struct TaskSpec {
    pub task_type: String,
    pub payload: Vec<u8>,
    pub priority: Priority,
    pub parent: Option<TaskId>,
    pub blocking_on: Vec<TaskId>,
    pub metadata: Vec<(String, Vec<u8>)>,
}

/// A task as the engine holds it.
#[derive(Debug)]
pub struct Task {
    pub id: TaskId,
    pub spec: TaskSpec,
    pub status: TaskStatus,
    pub created_at: u64,
    pub updated_at: u64,
    pub seq: u64,
    pub child_count: u16,
    pub edge_in_degree: u16,
}

/// A dependency edge.
#[derive(Debug)]
pub struct Dependency {
    pub id: EdgeId,
    pub from: TaskId,
    pub to: TaskId,
    pub kind: EdgeKind,
    pub seq: u64,
}

/// The value of a [`TaskSpec`].
#[verifier::ext_equal]
pub struct SpecModel {
    pub task_type: Seq<char>,
    pub payload: Seq<u8>,
    pub priority: Priority,
    pub parent: Option<TaskId>,
    pub blocking_on: Seq<TaskId>,
    pub metadata: Seq<(Seq<char>, Seq<u8>)>,
}

/// The value of a [`Task`].
#[verifier::ext_equal]
pub struct TaskModel {
    pub id: TaskId,
    pub spec: SpecModel,
    pub status: TaskStatus,
    pub created_at: u64,
    pub updated_at: u64,
    pub seq: u64,
    pub child_count: u16,
    pub edge_in_degree: u16,
}

/// The value of one metadata entry.
pub open spec fn entry_model(e: (String, Vec<u8>)) -> (Seq<char>, Seq<u8>) {
    (e.0@, e.1@)
}

impl View for TaskSpec {
    type V = SpecModel;

    open spec fn view(&self) -> SpecModel {
        SpecModel {
            task_type: self.task_type@,
            payload: self.payload@,
            priority: self.priority,
            parent: self.parent,
            blocking_on: self.blocking_on@,
            metadata: self.metadata@.map_values(|e: (String, Vec<u8>)| entry_model(e)),
        }
    }
}

impl View for Task {
    type V = TaskModel;

    open spec fn view(&self) -> TaskModel {
        TaskModel {
            id: self.id,
            spec: self.spec@,
            status: self.status,
            created_at: self.created_at,
            updated_at: self.updated_at,
            seq: self.seq,
            child_count: self.child_count,
            edge_in_degree: self.edge_in_degree,
        }
    }
}

/// A copy of some bytes.
pub(crate) fn copy_bytes(v: &Vec<u8>) -> (r: Vec<u8>)
    ensures
        r@ == v@,
{
    let mut r: Vec<u8> = Vec::new();
    r.extend_from_slice(v.as_slice());
    assert(r@ =~= v@);
    r
}

impl Clone for TaskSpec {
    fn clone(&self) -> (r: Self)
        ensures
            r@ == self@,
    {
        let mut blocking_on: Vec<TaskId> = Vec::new();
        for i in 0..self.blocking_on.len()
            invariant
                blocking_on@ == self.blocking_on@.take(i as int),
        {
            blocking_on.push(self.blocking_on[i]);
            assert(blocking_on@ =~= self.blocking_on@.take(i as int + 1));
        }
        let mut metadata: Vec<(String, Vec<u8>)> = Vec::new();
        for i in 0..self.metadata.len()
            invariant
                metadata@.len() == i,
                forall|j: int| 0 <= j < i ==> entry_model(#[trigger] metadata@[j]) == entry_model(self.metadata@[j]),
        {
            let name: String = self.metadata[i].0.clone();
            let value: Vec<u8> = copy_bytes(&self.metadata[i].1);
            metadata.push((name, value));
        }
        let r = TaskSpec {
            task_type: self.task_type.clone(),
            payload: copy_bytes(&self.payload),
            priority: self.priority,
            parent: self.parent,
            blocking_on,
            metadata,
        };
        assert(r@.blocking_on =~= self@.blocking_on);
        assert(r@.metadata =~= self@.metadata);
        r
    }
}

impl Clone for Task {
    fn clone(&self) -> (r: Self)
        ensures
            r@ == self@,
    {
        Task {
            id: self.id,
            spec: self.spec.clone(),
            status: self.status,
            created_at: self.created_at,
            updated_at: self.updated_at,
            seq: self.seq,
            child_count: self.child_count,
            edge_in_degree: self.edge_in_degree,
        }
    }
}

impl Clone for Dependency {
    fn clone(&self) -> (r: Self)
        ensures
            r == *self,
    {
        Dependency { id: self.id, from: self.from, to: self.to, kind: self.kind, seq: self.seq }
    }
}

} // verus!
