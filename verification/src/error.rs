//! What can go wrong in the engine.
use crate::types::{TaskId, TaskStatus, WorkerId};
use vstd::prelude::*;

verus! {

/// An error of the engine.
#[derive(Debug)]
pub enum EngineError {
    NotFound(TaskId),
    AlreadyExists(TaskId),
    InvalidTransition { id: TaskId, from: TaskStatus, attempted: &'static str },
    CycleDetected { path: Vec<TaskId> },
    AlreadyRunning { id: TaskId, worker: WorkerId },
    Cancelled(TaskId),
    EngineShuttingDown,
    CorruptJournal(u64),
    Internal(String),
    NoInstance(String),
    TransportError(String),
}

/// The value of an [`EngineError`].
#[verifier::ext_equal]
pub enum ErrorModel {
    NotFound(TaskId),
    AlreadyExists(TaskId),
    InvalidTransition { id: TaskId, from: TaskStatus, attempted: Seq<char> },
    CycleDetected { path: Seq<TaskId> },
    AlreadyRunning { id: TaskId, worker: WorkerId },
    Cancelled(TaskId),
    EngineShuttingDown,
    CorruptJournal(u64),
    Internal(Seq<char>),
    NoInstance(Seq<char>),
    TransportError(Seq<char>),
}

impl View for EngineError {
    type V = ErrorModel;

    open spec fn view(&self) -> ErrorModel {
        match *self {
            EngineError::NotFound(id) => ErrorModel::NotFound(id),
            EngineError::AlreadyExists(id) => ErrorModel::AlreadyExists(id),
            EngineError::InvalidTransition { id, from, attempted } => ErrorModel::InvalidTransition {
                id,
                from,
                attempted: attempted@,
            },
            EngineError::CycleDetected { path } => ErrorModel::CycleDetected { path: path@ },
            EngineError::AlreadyRunning { id, worker } => ErrorModel::AlreadyRunning { id, worker },
            EngineError::Cancelled(id) => ErrorModel::Cancelled(id),
            EngineError::EngineShuttingDown => ErrorModel::EngineShuttingDown,
            EngineError::CorruptJournal(seq) => ErrorModel::CorruptJournal(seq),
            EngineError::Internal(text) => ErrorModel::Internal(text@),
            EngineError::NoInstance(text) => ErrorModel::NoInstance(text@),
            EngineError::TransportError(text) => ErrorModel::TransportError(text@),
        }
    }
}

} // verus!
