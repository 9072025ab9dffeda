//! A task tracking engine: tasks, the dependency edges between them, and the
//! formats in which they are journalled, snapshotted and sent over the wire.
pub mod answers;
pub mod buffers;
pub mod checksum;
pub mod clock;
pub mod codec;
pub mod effects;
pub mod engine;
pub mod error;
pub mod graph;
pub mod invariants;
pub mod journal;
pub mod laws;
pub mod model;
pub mod numbers;
pub mod protocol;
pub mod registry;
pub mod render;
pub mod rpc;
pub mod snapshot;
pub mod sound;
pub mod store;
pub mod text;
pub mod types;

pub use engine::{EngineConfig, TaskEngine, TaskGuard};
pub use error::EngineError;
pub use types::{
    Dependency, EdgeId, EdgeKind, EngineStats, Priority, Task, TaskId, TaskResult, TaskSpec, TaskStatus, WorkerId,
};
