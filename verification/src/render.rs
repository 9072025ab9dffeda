//! How engine errors read: their structure and their message.
use crate::error::{EngineError, ErrorModel};
use crate::text::{decimal, put_decimal};
use crate::types::{TaskId, TaskResult, TaskStatus, WorkerId};
use vstd::prelude::*;
use vstd::string::StringExecFns;

verus! {

/// A text as it reads in quotes, with what has to be escaped escaped.
pub uninterp spec fn quoted(text: Seq<char>) -> Seq<char>;

/// Whether a text consists of lower case letters from `a` to `z`.
pub open spec fn is_word(text: Seq<char>) -> bool {
    forall|i: int| 0 <= i < text.len() ==> 'a' <= #[trigger] text[i] <= 'z'
}

/// Formatting a text with `Debug` of `str`: the text in quotes. Letters need no
/// escape.
#[verifier::external_body]
fn quote(text: &str) -> (r: String)
    ensures
        r@ == quoted(text@),
        is_word(text@) ==> r@ == seq!['"'] + text@ + seq!['"'],
{
    format!("{:?}", text)
}

/// A task id.
pub open spec fn task_id_text(id: TaskId) -> Seq<char> {
    "TaskId("@ + decimal(id.0 as nat) + ")"@
}

/// A worker id.
pub open spec fn worker_id_text(id: WorkerId) -> Seq<char> {
    "WorkerId("@ + decimal(id.0 as nat) + ")"@
}

/// A reference that may be missing.
pub open spec fn reference_text(reference: Option<u128>) -> Seq<char> {
    match reference {
        Some(r) => "Some("@ + decimal(r as nat) + ")"@,
        None => "None"@,
    }
}

/// A result.
pub open spec fn result_text(result: TaskResult) -> Seq<char> {
    match result {
        TaskResult::Success { output_ref } => "Ok { output_ref: "@ + decimal(output_ref as nat) + " }"@,
        TaskResult::Failed { error_code, output_ref } => "Failed { error_code: "@ + decimal(error_code as nat)
            + ", output_ref: "@ + reference_text(output_ref) + " }"@,
    }
}

/// A status.
pub open spec fn status_text(status: TaskStatus) -> Seq<char> {
    match status {
        TaskStatus::Pending => "Pending"@,
        TaskStatus::Ready => "Ready"@,
        TaskStatus::Running { worker_id } => "Running { worker_id: "@ + worker_id_text(worker_id) + " }"@,
        TaskStatus::Completed { result } => "Completed { result: "@ + result_text(result) + " }"@,
        TaskStatus::Cancelled { reason } => "Cancelled { reason: "@ + decimal(reason as nat) + " }"@,
    }
}

/// Task ids, separated by commas.
pub open spec fn ids_text(path: Seq<TaskId>) -> Seq<char>
    decreases path.len(),
{
    if path.len() == 0 {
        Seq::empty()
    } else if path.len() == 1 {
        task_id_text(path[0])
    } else {
        ids_text(path.drop_last()) + ", "@ + task_id_text(path.last())
    }
}

/// A list of task ids.
pub open spec fn path_text(path: Seq<TaskId>) -> Seq<char> {
    "["@ + ids_text(path) + "]"@
}

/// The structure of an error: its variant and what it carries.
pub open spec fn error_kind(e: ErrorModel) -> Seq<char> {
    match e {
        ErrorModel::NotFound(id) => "NotFound("@ + task_id_text(id) + ")"@,
        ErrorModel::AlreadyExists(id) => "AlreadyExists("@ + task_id_text(id) + ")"@,
        ErrorModel::InvalidTransition { id, from, attempted } => "InvalidTransition { id: "@ + task_id_text(id)
            + ", from: "@ + status_text(from) + ", attempted: "@ + quoted(attempted) + " }"@,
        ErrorModel::CycleDetected { path } => "CycleDetected { path: "@ + path_text(path) + " }"@,
        ErrorModel::AlreadyRunning { id, worker } => "AlreadyRunning { id: "@ + task_id_text(id) + ", worker: "@
            + worker_id_text(worker) + " }"@,
        ErrorModel::Cancelled(id) => "Cancelled("@ + task_id_text(id) + ")"@,
        ErrorModel::EngineShuttingDown => "EngineShuttingDown"@,
        ErrorModel::CorruptJournal(seq) => "CorruptJournal("@ + decimal(seq as nat) + ")"@,
        ErrorModel::Internal(text) => "Internal("@ + quoted(text) + ")"@,
        ErrorModel::NoInstance(text) => "NoInstance("@ + quoted(text) + ")"@,
        ErrorModel::TransportError(text) => "TransportError("@ + quoted(text) + ")"@,
    }
}

/// The message of an error.
pub open spec fn error_message(e: ErrorModel) -> Seq<char> {
    match e {
        ErrorModel::NotFound(id) => "task "@ + task_id_text(id) + " not found"@,
        ErrorModel::AlreadyExists(id) => "task "@ + task_id_text(id) + " already exists"@,
        ErrorModel::InvalidTransition { id, from, attempted } => "invalid transition for task "@ + task_id_text(id)
            + ": cannot "@ + attempted + " from "@ + status_text(from),
        ErrorModel::CycleDetected { path } => "cycle detected: path through tasks "@ + path_text(path),
        ErrorModel::AlreadyRunning { id, worker } => "task "@ + task_id_text(id) + " already running on worker "@
            + worker_id_text(worker),
        ErrorModel::Cancelled(id) => "task "@ + task_id_text(id) + " was cancelled"@,
        ErrorModel::EngineShuttingDown => "engine is shutting down"@,
        ErrorModel::CorruptJournal(seq) => "corrupt journal at seq "@ + decimal(seq as nat),
        ErrorModel::Internal(text) => "internal error: "@ + text,
        ErrorModel::NoInstance(text) => "no instance registered for component "@ + text,
        ErrorModel::TransportError(text) => "transport error: "@ + text,
    }
}

/// A task id.
fn show_task_id(id: TaskId) -> (r: String)
    ensures
        r@ == task_id_text(id),
{
    let mut r: String = String::from_str("TaskId(");
    put_decimal(&mut r, id.0);
    r.append(")");
    r
}

/// A worker id.
fn show_worker_id(id: WorkerId) -> (r: String)
    ensures
        r@ == worker_id_text(id),
{
    let mut r: String = String::from_str("WorkerId(");
    put_decimal(&mut r, id.0 as u128);
    r.append(")");
    r
}

/// A result.
fn show_result(result: TaskResult) -> (r: String)
    ensures
        r@ == result_text(result),
{
    match result {
        TaskResult::Success { output_ref } => {
            let mut r: String = String::from_str("Ok { output_ref: ");
            put_decimal(&mut r, output_ref);
            r.append(" }");
            r
        },
        TaskResult::Failed { error_code, output_ref } => {
            let mut r: String = String::from_str("Failed { error_code: ");
            put_decimal(&mut r, error_code as u128);
            r.append(", output_ref: ");
            match output_ref {
                Some(reference) => {
                    r.append("Some(");
                    put_decimal(&mut r, reference);
                    r.append(")");
                },
                None => {
                    r.append("None");
                },
            }
            r.append(" }");
            assert(r@ =~= result_text(result));
            r
        },
    }
}

/// A status.
fn show_status(status: TaskStatus) -> (r: String)
    ensures
        r@ == status_text(status),
{
    match status {
        TaskStatus::Pending => String::from_str("Pending"),
        TaskStatus::Ready => String::from_str("Ready"),
        TaskStatus::Running { worker_id } => {
            let mut r: String = String::from_str("Running { worker_id: ");
            r.append(show_worker_id(worker_id).as_str());
            r.append(" }");
            r
        },
        TaskStatus::Completed { result } => {
            let mut r: String = String::from_str("Completed { result: ");
            r.append(show_result(result).as_str());
            r.append(" }");
            r
        },
        TaskStatus::Cancelled { reason } => {
            let mut r: String = String::from_str("Cancelled { reason: ");
            put_decimal(&mut r, reason as u128);
            r.append(" }");
            r
        },
    }
}

/// A list of task ids.
fn show_path(path: &Vec<TaskId>) -> (r: String)
    ensures
        r@ == path_text(path@),
{
    let mut ids: String = String::new();
    assert(ids@ =~= ids_text(path@.take(0)));
    for i in 0..path.len()
        invariant
            ids@ == ids_text(path@.take(i as int)),
    {
        let ghost shorter = path@.take(i as int);
        let ghost longer = path@.take(i as int + 1);
        assert(longer.drop_last() =~= shorter);
        if i > 0 {
            ids.append(", ");
        }
        ids.append(show_task_id(path[i]).as_str());
        assert(ids@ =~= ids_text(longer));
    }
    assert(path@.take(path@.len() as int) =~= path@);
    let mut r: String = String::from_str("[");
    r.append(ids.as_str());
    r.append("]");
    r
}

/// A text in quotes after the name of a variant.
fn show_variant(name: &str, content: &str) -> (r: String)
    ensures
        r@ == name@ + content@ + ")"@,
{
    let mut r: String = String::from_str(name);
    r.append(content);
    r.append(")");
    r
}

impl EngineError {
    /// The structure of this error: its variant and what it carries.
    pub fn kind(&self) -> (r: String)
        ensures
            r@ == error_kind(self@),
    {
        match self {
            EngineError::NotFound(id) => show_variant("NotFound(", show_task_id(*id).as_str()),
            EngineError::AlreadyExists(id) => show_variant("AlreadyExists(", show_task_id(*id).as_str()),
            EngineError::InvalidTransition { id, from, attempted } => {
                let mut r: String = String::from_str("InvalidTransition { id: ");
                r.append(show_task_id(*id).as_str());
                r.append(", from: ");
                r.append(show_status(*from).as_str());
                r.append(", attempted: ");
                r.append(quote(attempted).as_str());
                r.append(" }");
                r
            },
            EngineError::CycleDetected { path } => {
                let mut r: String = String::from_str("CycleDetected { path: ");
                r.append(show_path(path).as_str());
                r.append(" }");
                r
            },
            EngineError::AlreadyRunning { id, worker } => {
                let mut r: String = String::from_str("AlreadyRunning { id: ");
                r.append(show_task_id(*id).as_str());
                r.append(", worker: ");
                r.append(show_worker_id(*worker).as_str());
                r.append(" }");
                r
            },
            EngineError::Cancelled(id) => show_variant("Cancelled(", show_task_id(*id).as_str()),
            EngineError::EngineShuttingDown => String::from_str("EngineShuttingDown"),
            EngineError::CorruptJournal(seq) => {
                let mut r: String = String::from_str("CorruptJournal(");
                put_decimal(&mut r, *seq as u128);
                r.append(")");
                r
            },
            EngineError::Internal(text) => show_variant("Internal(", quote(text.as_str()).as_str()),
            EngineError::NoInstance(text) => show_variant("NoInstance(", quote(text.as_str()).as_str()),
            EngineError::TransportError(text) => show_variant("TransportError(", quote(text.as_str()).as_str()),
        }
    }

    /// The message of this error.
    pub fn message(&self) -> (r: String)
        ensures
            r@ == error_message(self@),
    {
        match self {
            EngineError::NotFound(id) => {
                let mut r: String = String::from_str("task ");
                r.append(show_task_id(*id).as_str());
                r.append(" not found");
                r
            },
            EngineError::AlreadyExists(id) => {
                let mut r: String = String::from_str("task ");
                r.append(show_task_id(*id).as_str());
                r.append(" already exists");
                r
            },
            EngineError::InvalidTransition { id, from, attempted } => {
                let mut r: String = String::from_str("invalid transition for task ");
                r.append(show_task_id(*id).as_str());
                r.append(": cannot ");
                r.append(attempted);
                r.append(" from ");
                r.append(show_status(*from).as_str());
                r
            },
            EngineError::CycleDetected { path } => {
                let mut r: String = String::from_str("cycle detected: path through tasks ");
                r.append(show_path(path).as_str());
                r
            },
            EngineError::AlreadyRunning { id, worker } => {
                let mut r: String = String::from_str("task ");
                r.append(show_task_id(*id).as_str());
                r.append(" already running on worker ");
                r.append(show_worker_id(*worker).as_str());
                r
            },
            EngineError::Cancelled(id) => {
                let mut r: String = String::from_str("task ");
                r.append(show_task_id(*id).as_str());
                r.append(" was cancelled");
                r
            },
            EngineError::EngineShuttingDown => String::from_str("engine is shutting down"),
            EngineError::CorruptJournal(seq) => {
                let mut r: String = String::from_str("corrupt journal at seq ");
                put_decimal(&mut r, *seq as u128);
                r
            },
            EngineError::Internal(text) => {
                let mut r: String = String::from_str("internal error: ");
                r.append(text.as_str());
                r
            },
            EngineError::NoInstance(text) => {
                let mut r: String = String::from_str("no instance registered for component ");
                r.append(text.as_str());
                r
            },
            EngineError::TransportError(text) => {
                let mut r: String = String::from_str("transport error: ");
                r.append(text.as_str());
                r
            },
        }
    }
}

/// What the message of each error says: which task it is about, in decimal, what
/// is wrong, and what else the error knows.
pub proof fn law_messages_read(e: ErrorModel)
    ensures
        match e {
            ErrorModel::NotFound(id) => error_message(e) == "task TaskId("@ + decimal(id.0 as nat) + ") not found"@,
            ErrorModel::AlreadyExists(id) => error_message(e) == "task TaskId("@ + decimal(id.0 as nat)
                + ") already exists"@,
            ErrorModel::InvalidTransition { id, from, attempted } => error_message(e)
                == "invalid transition for task TaskId("@ + decimal(id.0 as nat) + "): cannot "@ + attempted
                + " from "@ + status_text(from),
            ErrorModel::CycleDetected { path } => error_message(e) == "cycle detected: path through tasks ["@
                + ids_text(path) + "]"@,
            ErrorModel::AlreadyRunning { id, worker } => error_message(e) == "task TaskId("@ + decimal(id.0 as nat)
                + ") already running on worker WorkerId("@ + decimal(worker.0 as nat) + ")"@,
            ErrorModel::Cancelled(id) => error_message(e) == "task TaskId("@ + decimal(id.0 as nat)
                + ") was cancelled"@,
            ErrorModel::EngineShuttingDown => error_message(e) == "engine is shutting down"@,
            ErrorModel::CorruptJournal(seq) => error_message(e) == "corrupt journal at seq "@ + decimal(seq as nat),
            ErrorModel::Internal(text) => error_message(e) == "internal error: "@ + text,
            ErrorModel::NoInstance(text) => error_message(e) == "no instance registered for component "@ + text,
            ErrorModel::TransportError(text) => error_message(e) == "transport error: "@ + text,
        },
{
    reveal_strlit("task TaskId(");
    reveal_strlit("task ");
    reveal_strlit("TaskId(");
    reveal_strlit("WorkerId(");
    reveal_strlit(")");
    reveal_strlit(") not found");
    reveal_strlit(" not found");
    reveal_strlit(") already exists");
    reveal_strlit(" already exists");
    reveal_strlit("invalid transition for task TaskId(");
    reveal_strlit("invalid transition for task ");
    reveal_strlit("): cannot ");
    reveal_strlit(": cannot ");
    reveal_strlit("cycle detected: path through tasks [");
    reveal_strlit("cycle detected: path through tasks ");
    reveal_strlit("[");
    reveal_strlit(") already running on worker WorkerId(");
    reveal_strlit(" already running on worker ");
    reveal_strlit(") was cancelled");
    reveal_strlit(" was cancelled");
    match e {
        ErrorModel::NotFound(id) => {
            assert(error_message(e) =~= "task TaskId("@ + decimal(id.0 as nat) + ") not found"@);
        },
        ErrorModel::AlreadyExists(id) => {
            assert(error_message(e) =~= "task TaskId("@ + decimal(id.0 as nat) + ") already exists"@);
        },
        ErrorModel::InvalidTransition { id, from, attempted } => {
            assert(error_message(e) =~= "invalid transition for task TaskId("@ + decimal(id.0 as nat) + "): cannot "@
                + attempted + " from "@ + status_text(from));
        },
        ErrorModel::CycleDetected { path } => {
            assert(error_message(e) =~= "cycle detected: path through tasks ["@ + ids_text(path) + "]"@);
        },
        ErrorModel::AlreadyRunning { id, worker } => {
            assert(error_message(e) =~= "task TaskId("@ + decimal(id.0 as nat)
                + ") already running on worker WorkerId("@ + decimal(worker.0 as nat) + ")"@);
        },
        ErrorModel::Cancelled(id) => {
            assert(error_message(e) =~= "task TaskId("@ + decimal(id.0 as nat) + ") was cancelled"@);
        },
        _ => {},
    }
}

/// How a list of tasks reads: the ids in their order, separated by commas.
pub proof fn law_ids_read(path: Seq<TaskId>, last: TaskId)
    ensures
        ids_text(Seq::<TaskId>::empty()).len() == 0,
        path.len() == 0 ==> ids_text(path.push(last)) == "TaskId("@ + decimal(last.0 as nat) + ")"@,
        path.len() > 0 ==> ids_text(path.push(last)) == ids_text(path) + ", "@ + ("TaskId("@ + decimal(last.0 as nat)
            + ")"@),
{
    assert(path.push(last).drop_last() =~= path);
}

/// How a status reads: its name, and what it carries by name.
pub proof fn law_statuses_read(status: TaskStatus)
    ensures
        match status {
            TaskStatus::Pending => status_text(status) == "Pending"@,
            TaskStatus::Ready => status_text(status) == "Ready"@,
            TaskStatus::Running { worker_id } => status_text(status) == "Running { worker_id: "@ + ("WorkerId("@
                + decimal(worker_id.0 as nat) + ")"@) + " }"@,
            TaskStatus::Completed { result: TaskResult::Success { output_ref } } => status_text(status)
                == "Completed { result: "@ + ("Ok { output_ref: "@ + decimal(output_ref as nat) + " }"@) + " }"@,
            TaskStatus::Completed { result: TaskResult::Failed { error_code, output_ref: None } } => status_text(
                status,
            ) == "Completed { result: "@ + ("Failed { error_code: "@ + decimal(error_code as nat) + ", output_ref: "@
                + "None"@ + " }"@) + " }"@,
            TaskStatus::Completed { result: TaskResult::Failed { error_code, output_ref: Some(output) } } =>
                status_text(status) == "Completed { result: "@ + ("Failed { error_code: "@ + decimal(error_code as nat)
                + ", output_ref: "@ + ("Some("@ + decimal(output as nat) + ")"@) + " }"@) + " }"@,
            TaskStatus::Cancelled { reason } => status_text(status) == "Cancelled { reason: "@ + decimal(reason as nat)
                + " }"@,
        },
{
}

/// What the structure of each error reads: its name, and what it carries.
pub proof fn law_kinds_read(e: ErrorModel)
    ensures
        match e {
            ErrorModel::NotFound(id) => error_kind(e) == "NotFound("@ + ("TaskId("@ + decimal(id.0 as nat) + ")"@)
                + ")"@,
            ErrorModel::AlreadyExists(id) => error_kind(e) == "AlreadyExists("@ + ("TaskId("@ + decimal(id.0 as nat)
                + ")"@) + ")"@,
            ErrorModel::InvalidTransition { id, from, attempted } => error_kind(e) == "InvalidTransition { id: "@ + (
            "TaskId("@ + decimal(id.0 as nat) + ")"@) + ", from: "@ + status_text(from) + ", attempted: "@ + quoted(
                attempted,
            ) + " }"@,
            ErrorModel::CycleDetected { path } => error_kind(e) == "CycleDetected { path: "@ + ("["@ + ids_text(path)
                + "]"@) + " }"@,
            ErrorModel::AlreadyRunning { id, worker } => error_kind(e) == "AlreadyRunning { id: "@ + ("TaskId("@
                + decimal(id.0 as nat) + ")"@) + ", worker: "@ + ("WorkerId("@ + decimal(worker.0 as nat) + ")"@)
                + " }"@,
            ErrorModel::Cancelled(id) => error_kind(e) == "Cancelled("@ + ("TaskId("@ + decimal(id.0 as nat) + ")"@)
                + ")"@,
            ErrorModel::EngineShuttingDown => error_kind(e) == "EngineShuttingDown"@,
            ErrorModel::CorruptJournal(seq) => error_kind(e) == "CorruptJournal("@ + decimal(seq as nat) + ")"@,
            ErrorModel::Internal(text) => error_kind(e) == "Internal("@ + quoted(text) + ")"@,
            ErrorModel::NoInstance(text) => error_kind(e) == "NoInstance("@ + quoted(text) + ")"@,
            ErrorModel::TransportError(text) => error_kind(e) == "TransportError("@ + quoted(text) + ")"@,
        },
{
}

} // verus!
