//! What a client sees of each message: what it does to the engine and to the
//! registry, and what the answer carries.
use crate::buffers::contents;
use crate::effects::{
    law_cancel_refused, law_cancel_takes_children, law_complete_records_result, law_create_holds_spec,
    law_create_refused, law_depend_makes_wait, law_depend_refused, law_depend_stores_edge, law_error_values,
    law_remove_takes_edge, law_update_records,
};
use crate::engine::{cancel_outcome, depend_outcome, remove_outcome, update_outcome};
use crate::error::{EngineError, ErrorModel};
use crate::model::{creatable, created, finished, EngineModel};
use crate::protocol::{frame_len, has_frame, opened, Frame, FrameModel, MsgType, ProtocolError};
use crate::registry::RegistryModel;
use crate::render::{error_kind, error_message};
use crate::rpc::{
    acceptable, connected, created_id, dispatched, dispatching, found, handled, on_stream, payload_kind_of,
    registered, row_value, served, sought, stats_in, Payload, PayloadKind, Request, Response, ResponseModel, Session,
    TaskStatusReport, Value, ValueModel, WireError, WireErrorModel,
};
use crate::sound::sound;
use crate::text::{decimal, law_id_read, lemma_decimal_back};
use crate::types::{EdgeId, EdgeKind, EngineStats, TaskId, TaskResult, TaskSpec, TaskStatus, WorkerId};
use vstd::prelude::*;

verus! {

// Requests.

/// A request to create a task is answered with the id of the task in decimal
/// notation, and the task stands under it with the spec of the request, whole;
/// or with the error that refused it, and nothing has changed.
pub proof fn law_serve_create(s: EngineModel, spec: TaskSpec, id: u128, now: u64, r: ResponseModel, t: EngineModel)
    requires
        creatable(s, spec@),
        served(s, Request::Create { spec }, id, now, r, t),
    ensures
        r is Success ==> {
            &&& r == (ResponseModel::Success { value: ValueModel::Text(decimal(id as nat)) })
            &&& !s.tasks.contains_key(id)
            &&& t.tasks.contains_key(id)
            &&& t.tasks[id].id == TaskId(id)
            &&& t.tasks[id].spec == spec@
            &&& t.tasks[id].spec.task_type == spec.task_type@
            &&& t.tasks[id].spec.payload == spec.payload@
            &&& t.tasks[id].spec.priority == spec.priority
            &&& t.tasks[id].spec.parent == spec.parent
            &&& t.tasks[id].spec.blocking_on == spec.blocking_on@
            &&& t.tasks[id].created_at == now
            &&& t.tasks[id].status is Ready || t.tasks[id].status is Pending
        },
        r is Failure ==> t == s && exists|e: ErrorModel| #[trigger]
            created(s, id, now, spec@, Err::<TaskId, ErrorModel>(e), t) && r == (ResponseModel::Failure {
                error: WireErrorModel { kind: error_kind(e), message: error_message(e) },
            }),
        s.shutdown ==> r == (ResponseModel::Failure {
            error: WireErrorModel {
                kind: error_kind(ErrorModel::EngineShuttingDown),
                message: error_message(ErrorModel::EngineShuttingDown),
            },
        }),
        !s.shutdown && spec.blocking_on@.len() == 0 && !s.tasks.contains_key(id) ==> r is Success
            && t.tasks[id].status == TaskStatus::Ready,
{
    let e = choose|e: Result<TaskId, ErrorModel>| #[trigger]
        created(s, id, now, spec@, e, t) && r == match e {
            Ok(task_id) => ResponseModel::Success { value: ValueModel::Text(decimal(task_id.0 as nat)) },
            Err(e) => crate::rpc::refused(e),
        };
    law_create_refused(s, id, now, spec@, e, t);
    if let Err(why) = e {
        assert(created(s, id, now, spec@, Err::<TaskId, ErrorModel>(why), t));
    }
    if e is Ok {
        law_create_holds_spec(s, id, now, spec@, e, t);
    }
}

/// A request to start a task is answered with nothing, and the task runs for the
/// worker in the request, if it was ready and no shutdown has begun; otherwise
/// with the reason, and nothing has changed.
pub proof fn law_serve_start(
    s: EngineModel,
    task: TaskId,
    worker: WorkerId,
    id: u128,
    now: u64,
    r: ResponseModel,
    t: EngineModel,
)
    requires
        served(s, Request::Start { id: task, worker }, id, now, r, t),
    ensures
        ({
            let granted = !s.shutdown && s.tasks.contains_key(task.0) && s.tasks[task.0].status == TaskStatus::Ready;
            &&& granted ==> r == (ResponseModel::Success { value: ValueModel::Nil })
            &&& granted ==> t.tasks[task.0].status == (TaskStatus::Running { worker_id: worker })
            &&& granted ==> t.tasks[task.0].updated_at == now
            &&& granted ==> forall|x: u128| #[trigger]
                s.tasks.contains_key(x) && x != task.0 ==> t.tasks[x] == s.tasks[x]
            &&& !granted ==> r is Failure && t == s
        }),
        !s.shutdown && !s.tasks.contains_key(task.0) ==> r == (ResponseModel::Failure {
            error: WireErrorModel {
                kind: error_kind(ErrorModel::NotFound(task)),
                message: error_message(ErrorModel::NotFound(task)),
            },
        }),
        !s.shutdown && s.tasks.contains_key(task.0) ==> (s.tasks[task.0].status matches TaskStatus::Running {
            worker_id,
        } ==> r == (ResponseModel::Failure {
            error: WireErrorModel {
                kind: error_kind(ErrorModel::AlreadyRunning { id: task, worker: worker_id }),
                message: error_message(ErrorModel::AlreadyRunning { id: task, worker: worker_id }),
            },
        })),
{
}

/// A request to complete a task is acknowledged. If the task runs, it has
/// completed afterwards with exactly the result in the request, whether that is
/// a success or a failure; otherwise nothing has changed.
pub proof fn law_serve_complete(
    s: EngineModel,
    task: TaskId,
    result: TaskResult,
    id: u128,
    now: u64,
    r: ResponseModel,
    t: EngineModel,
)
    requires
        sound(s),
        served(s, Request::Complete { id: task, result }, id, now, r, t),
    ensures
        r == (ResponseModel::Success { value: ValueModel::Nil }),
        s.tasks.contains_key(task.0) && s.tasks[task.0].status is Running ==> {
            &&& t.tasks[task.0].status == (TaskStatus::Completed { result })
            &&& t.tasks[task.0].updated_at == now
            &&& t.tasks[task.0].spec == s.tasks[task.0].spec
        },
        !(s.tasks.contains_key(task.0) && s.tasks[task.0].status is Running) ==> t == s,
{
    let order = choose|order: Seq<u128>| #[trigger] finished(s, task, result, now, order, t);
    law_complete_records_result(s, task, result, now, order, t);
}

/// A request to cancel a task is answered with nothing, and the task and its
/// pending and running children are cancelled with the reason in the request,
/// if the task was neither completed nor cancelled and no shutdown has begun;
/// otherwise with the error, and nothing has changed.
pub proof fn law_serve_cancel(
    s: EngineModel,
    task: TaskId,
    reason: u32,
    id: u128,
    now: u64,
    r: ResponseModel,
    t: EngineModel,
)
    requires
        served(s, Request::Cancel { id: task, reason }, id, now, r, t),
    ensures
        ({
            let granted = !s.shutdown && s.tasks.contains_key(task.0) && !(s.tasks[task.0].status is Completed) && !(
            s.tasks[task.0].status is Cancelled);
            &&& granted ==> r == (ResponseModel::Success { value: ValueModel::Nil })
            &&& granted ==> t.tasks[task.0].status == (TaskStatus::Cancelled { reason })
            &&& granted ==> forall|c: u128|
                {
                    &&& #[trigger] s.edges.contains_key((task.0, c))
                    &&& s.edges[(task.0, c)].kind == EdgeKind::Parent
                    &&& s.tasks.contains_key(c)
                    &&& s.tasks[c].status is Pending || s.tasks[c].status is Running
                } ==> t.tasks[c].status == (TaskStatus::Cancelled { reason })
            &&& !granted ==> r is Failure && t == s
        }),
        !s.shutdown && !s.tasks.contains_key(task.0) ==> r == (ResponseModel::Failure {
            error: WireErrorModel {
                kind: error_kind(ErrorModel::NotFound(task)),
                message: error_message(ErrorModel::NotFound(task)),
            },
        }),
        s.shutdown ==> r == (ResponseModel::Failure {
            error: WireErrorModel {
                kind: error_kind(ErrorModel::EngineShuttingDown),
                message: error_message(ErrorModel::EngineShuttingDown),
            },
        }),
        !s.shutdown && s.tasks.contains_key(task.0) && (s.tasks[task.0].status is Completed
            || s.tasks[task.0].status is Cancelled) ==> {
            let e = ErrorModel::InvalidTransition { id: task, from: s.tasks[task.0].status, attempted: "cancel"@ };
            r == (ResponseModel::Failure {
                error: WireErrorModel { kind: error_kind(e), message: error_message(e) },
            })
        },
{
    let e = choose|e: Result<(), EngineError>| #[trigger]
        cancel_outcome(s, task, reason, now, e, t) && r == match e {
            Ok(_) => crate::rpc::done(),
            Err(e) => crate::rpc::refused(e@),
        };
    law_cancel_refused(s, task, reason, now, e, t);
    if let Err(why) = e {
        law_error_values(why);
    }
    if e is Ok {
        law_cancel_takes_children(s, task, reason, now, e, t);
    }
}

/// A request to add a dependency is answered with the id of the edge, which
/// joins the two tasks with the kind in the request, and a blocking edge makes
/// its end wait; or with the error, and nothing has changed.
pub proof fn law_serve_depends_on(
    s: EngineModel,
    from: TaskId,
    to: TaskId,
    kind: EdgeKind,
    id: u128,
    now: u64,
    r: ResponseModel,
    t: EngineModel,
)
    requires
        sound(s),
        served(s, Request::DependsOn { from, to, kind }, id, now, r, t),
    ensures
        r is Success ==> {
            &&& t.edges.contains_key((from.0, to.0))
            &&& r == (ResponseModel::Success { value: ValueModel::Integer(t.edges[(from.0, to.0)].id.0) })
            &&& t.edges[(from.0, to.0)].from == from
            &&& t.edges[(from.0, to.0)].to == to
            &&& t.edges[(from.0, to.0)].kind == kind
        },
        r is Success && kind == EdgeKind::Blocking && !(s.tasks[from.0].status is Completed) && !(
        s.tasks[to.0].status is Completed) && !(s.tasks[to.0].status is Cancelled) ==> t.tasks[to.0].status
            == TaskStatus::Pending,
        r is Failure ==> t == s && exists|e: EngineError| #[trigger]
            depend_outcome(s, from, to, kind, now, Err::<EdgeId, EngineError>(e), t) && r
                == (ResponseModel::Failure {
                error: WireErrorModel { kind: error_kind(e@), message: error_message(e@) },
            }),
        !s.shutdown && s.tasks.contains_key(from.0) && s.tasks.contains_key(to.0) && !s.edges.contains_key(
            (from.0, to.0),
        ) && kind != EdgeKind::Blocking ==> r is Success,
{
    let e = choose|e: Result<EdgeId, EngineError>| #[trigger]
        depend_outcome(s, from, to, kind, now, e, t) && r == match e {
            Ok(edge_id) => ResponseModel::Success { value: ValueModel::Integer(edge_id.0) },
            Err(e) => crate::rpc::refused(e@),
        };
    law_depend_refused(s, from, to, kind, now, e, t);
    if let Err(why) = e {
        assert(depend_outcome(s, from, to, kind, now, Err::<EdgeId, EngineError>(why), t));
    }
    if e is Ok {
        law_depend_stores_edge(s, from, to, kind, now, e, t);
        law_depend_makes_wait(s, from, to, kind, now, e, t);
    }
}

/// A request to remove a dependency is answered with nothing, and an edge with
/// that id is gone; or, if there is none, with that, and nothing has changed.
pub proof fn law_serve_remove_dep(
    s: EngineModel,
    edge_id: EdgeId,
    id: u128,
    now: u64,
    r: ResponseModel,
    t: EngineModel,
)
    requires
        served(s, Request::RemoveDep { edge_id }, id, now, r, t),
    ensures
        (exists|key: (u128, u128)| #[trigger] s.edges.contains_key(key) && s.edges[key].id == edge_id) ==> {
            &&& r == (ResponseModel::Success { value: ValueModel::Nil })
            &&& exists|key: (u128, u128)| #[trigger]
                s.edges.contains_key(key) && s.edges[key].id == edge_id && t.edges == s.edges.remove(key)
        },
        (forall|key: (u128, u128)| #[trigger] s.edges.contains_key(key) ==> s.edges[key].id != edge_id) ==> {
            &&& r == (ResponseModel::Failure {
                error: WireErrorModel {
                    kind: error_kind(ErrorModel::NotFound(TaskId(edge_id.0 as u128))),
                    message: error_message(ErrorModel::NotFound(TaskId(edge_id.0 as u128))),
                },
            })
            &&& t == s
        },
{
    let e = choose|e: Result<(), EngineError>| #[trigger]
        remove_outcome(s, edge_id, now, e, t) && r == match e {
            Ok(_) => crate::rpc::done(),
            Err(e) => crate::rpc::refused(e@),
        };
    law_remove_takes_edge(s, edge_id, now, e, t);
}

/// A request for the counts is answered with five rows, one for each status,
/// and changes nothing; a client reads from it how many tasks there are in each
/// status. A request to shut down is acknowledged, and changes nothing but that
/// a shutdown has begun.
pub proof fn law_serve_stats_and_shutdown(s: EngineModel, id: u128, now: u64, r: ResponseModel, t: EngineModel)
    ensures
        served(s, Request::Stats, id, now, r, t) ==> {
            &&& t == s
            &&& r == (ResponseModel::Success {
                value: ValueModel::Table(
                    seq![
                        ("pending"@, s.counters.pending as usize as u64),
                        ("ready"@, s.counters.ready as usize as u64),
                        ("running"@, s.counters.running as usize as u64),
                        ("completed"@, s.counters.completed as usize as u64),
                        ("cancelled"@, s.counters.cancelled as usize as u64),
                    ],
                ),
            })
        },
        served(s, Request::Shutdown, id, now, r, t) ==> {
            &&& r == (ResponseModel::Success { value: ValueModel::Nil })
            &&& t.shutdown
            &&& t.tasks == s.tasks
            &&& t.edges == s.edges
            &&& t.events == s.events
            &&& t.ready == s.ready
            &&& t.counters == s.counters
        },
{
}

// Messages.

/// A message that holds a request is served as that request. A message whose
/// request or report could not be read is answered with why, and the messages
/// about instances are acknowledged; these change nothing in the engine.
pub proof fn law_message_answered(
    s: EngineModel,
    payload: Payload,
    id: u128,
    now: u64,
    r: ResponseModel,
    t: EngineModel,
)
    requires
        dispatched(s, payload, id, now, r, t),
    ensures
        match payload {
            Payload::Request(Ok(request)) => served(s, request, id, now, r, t),
            Payload::Request(Err(why)) => t == s && r == (ResponseModel::Failure {
                error: WireErrorModel { kind: "DeserializeError"@, message: "deserialize error: "@ + why@ },
            }),
            Payload::Report(Ok(report)) => r == (ResponseModel::Success { value: ValueModel::Nil }),
            Payload::Report(Err(why)) => t == s && r == (ResponseModel::Failure {
                error: WireErrorModel { kind: "DeserializeError"@, message: "status report: "@ + why@ },
            }),
            Payload::Register(_) => t == s && r == (ResponseModel::Success { value: ValueModel::Nil }),
            Payload::Unregister => t == s && r == (ResponseModel::Success { value: ValueModel::Nil }),
            Payload::Heartbeat => t == s && r == (ResponseModel::Success { value: ValueModel::Nil }),
        },
{
}

/// A status report is acknowledged, and recorded if it can be: a running task
/// that is reported as completed has completed with the reported result, a ready
/// one that is reported as running runs for the reported worker, and one that
/// is reported as cancelled and can be cancelled is. A report that cannot be
/// recorded changes nothing.
pub proof fn law_report_recorded(
    s: EngineModel,
    report: TaskStatusReport,
    id: u128,
    now: u64,
    r: ResponseModel,
    t: EngineModel,
)
    requires
        sound(s),
        dispatched(s, Payload::Report(Ok(report)), id, now, r, t),
    ensures
        r == (ResponseModel::Success { value: ValueModel::Nil }),
        ({
            let task = report.task_id.0;
            match report.status {
                TaskStatus::Completed { result } => if s.tasks.contains_key(task) && s.tasks[task].status is Running {
                    t.tasks[task].status == report.status
                } else {
                    t == s
                },
                TaskStatus::Running { worker_id } => if !s.shutdown && s.tasks.contains_key(task)
                    && s.tasks[task].status == TaskStatus::Ready {
                    t.tasks[task].status == report.status
                } else {
                    t == s
                },
                TaskStatus::Cancelled { reason } => if !s.shutdown && s.tasks.contains_key(task) && !(
                s.tasks[task].status is Completed) && !(s.tasks[task].status is Cancelled) {
                    t.tasks[task].status == report.status
                } else {
                    t == s
                },
                _ => t == s,
            }
        }),
{
    let e = choose|e: Result<(), EngineError>| #[trigger]
        update_outcome(s, report.task_id, report.status, now, e, t);
    law_update_records(s, report.task_id, report.status, now, e, t);
}

/// The type of a message says what it is about: the four types for instances
/// and reports, each for itself, and every other type a request.
pub proof fn law_payload_kinds(msg_type: MsgType)
    ensures
        payload_kind_of(msg_type) == PayloadKind::Register <==> msg_type == MsgType::Register,
        payload_kind_of(msg_type) == PayloadKind::Unregister <==> msg_type == MsgType::Unregister,
        payload_kind_of(msg_type) == PayloadKind::Heartbeat <==> msg_type == MsgType::Heartbeat,
        payload_kind_of(msg_type) == PayloadKind::Report <==> msg_type == MsgType::StatusReport,
{
}

/// What a message leaves of the registry and of what is known of the
/// connection. A registration enters the component as heard of now, in place of
/// what was known of it, and ties the connection to it; an unregistration takes
/// out the component that the connection is tied to, and unties it; a heartbeat
/// notes the time for that component, if it is there. No other message changes
/// either, and none changes anything about another component.
pub proof fn law_message_registers(g: RegistryModel, c: Option<Seq<char>>, payload: Payload, now: u64, x: Seq<char>)
    ensures
        ({
            let h = registered(g, c, payload, now);
            let d = connected(c, payload);
            &&& h.timeout_secs == g.timeout_secs
            &&& match payload {
                Payload::Register(Ok(id)) => {
                    &&& d == Some(id@)
                    &&& h.instances.contains_key(id@)
                    &&& h.instances[id@].component_id == id@
                    &&& h.instances[id@].last_heartbeat == now
                    &&& x != id@ ==> h.instances.contains_key(x) == g.instances.contains_key(x) && h.instances[x]
                        == g.instances[x]
                },
                Payload::Unregister => {
                    &&& d is None
                    &&& c is None ==> h == g
                    &&& c matches Some(id) ==> !h.instances.contains_key(id) && (x != id ==> h.instances.contains_key(x)
                        == g.instances.contains_key(x) && h.instances[x] == g.instances[x])
                },
                Payload::Heartbeat => {
                    &&& d == c
                    &&& c is None ==> h == g
                    &&& c matches Some(id) ==> {
                        &&& h.instances.contains_key(id) == g.instances.contains_key(id)
                        &&& g.instances.contains_key(id) ==> h.instances[id].last_heartbeat == now
                            && h.instances[id].component_id == g.instances[id].component_id
                        &&& x != id ==> h.instances.contains_key(x) == g.instances.contains_key(x) && h.instances[x]
                            == g.instances[x]
                    }
                },
                _ => h == g && d == c,
            }
        }),
{
}

// Reading answers.

/// The id that a client reads from the answer to a creation is the number whose
/// decimal notation the answer carries.
pub proof fn law_read_created(id: u128)
    ensures
        created_id(ValueModel::Text(decimal(id as nat))) == TaskId(id),
        created_id(ValueModel::Nil) == TaskId(0),
        forall|text: Seq<char>|
            (text.len() == 0 || exists|i: int| 0 <= i < text.len() && !('0' <= #[trigger] text[i] <= '9'))
                ==> #[trigger] created_id(ValueModel::Text(text)) == TaskId(0),
        forall|n: u64| #[trigger] created_id(ValueModel::Integer(n)) == TaskId(0),
        forall|table: Seq<(Seq<char>, u64)>| #[trigger] created_id(ValueModel::Table(table)) == TaskId(0),
{
    lemma_decimal_back(id as nat);
    assert forall|text: Seq<char>|
        (text.len() == 0 || exists|i: int| 0 <= i < text.len() && !('0' <= #[trigger] text[i] <= '9'))
            implies #[trigger] created_id(ValueModel::Text(text)) == TaskId(0) by {
        law_id_read(text, id);
    }
}

/// A row is found by its name: the first one with that name, wherever it stands;
/// and 0 if there is none.
pub proof fn law_row_found(table: Seq<(Seq<char>, u64)>, name: Seq<char>)
    ensures
        forall|i: int|
            0 <= i < table.len() && (#[trigger] table[i]).0 == name && (forall|j: int|
                0 <= j < i ==> (#[trigger] table[j]).0 != name) ==> row_value(table, name) == table[i].1,
        (forall|i: int| 0 <= i < table.len() ==> (#[trigger] table[i]).0 != name) ==> row_value(table, name) == 0,
    decreases table.len(),
{
    if table.len() > 0 {
        let rest = table.drop_first();
        law_row_found(rest, name);
        assert forall|i: int|
            0 <= i < table.len() && (#[trigger] table[i]).0 == name && (forall|j: int|
                0 <= j < i ==> (#[trigger] table[j]).0 != name) implies row_value(table, name) == table[i].1 by {
            if i > 0 {
                assert(table[0].0 != name);
                assert(rest[i - 1] == table[i]);
                assert forall|j: int| 0 <= j < i - 1 implies (#[trigger] rest[j]).0 != name by {
                    assert(rest[j] == table[j + 1]);
                }
            }
        }
        if forall|i: int| 0 <= i < table.len() ==> (#[trigger] table[i]).0 != name {
            assert(table[0].0 != name);
            assert forall|i: int| 0 <= i < rest.len() implies (#[trigger] rest[i]).0 != name by {
                assert(rest[i] == table[i + 1]);
            }
        }
    }
}

/// Each count that a client reads from a table is that in the row of that name.
pub proof fn law_read_stats(table: Seq<(Seq<char>, u64)>)
    ensures
        stats_in(ValueModel::Table(table)).pending == row_value(table, "pending"@) as usize,
        stats_in(ValueModel::Table(table)).ready == row_value(table, "ready"@) as usize,
        stats_in(ValueModel::Table(table)).running == row_value(table, "running"@) as usize,
        stats_in(ValueModel::Table(table)).completed == row_value(table, "completed"@) as usize,
        stats_in(ValueModel::Table(table)).cancelled == row_value(table, "cancelled"@) as usize,
        forall|text: Seq<char>| #[trigger]
            stats_in(ValueModel::Text(text)) == (EngineStats {
                pending: 0,
                ready: 0,
                running: 0,
                completed: 0,
                cancelled: 0,
            }),
        forall|n: u64| #[trigger]
            stats_in(ValueModel::Integer(n)) == (EngineStats {
                pending: 0,
                ready: 0,
                running: 0,
                completed: 0,
                cancelled: 0,
            }),
        stats_in(ValueModel::Nil) == (EngineStats { pending: 0, ready: 0, running: 0, completed: 0, cancelled: 0 }),
{
}

/// A reply is a frame on the stream that was asked for, whatever its type and
/// its payload; a dispatch is a frame of that type, on whatever stream.
pub proof fn law_frames_wanted(f: FrameModel, stream_id: u16)
    ensures
        on_stream(stream_id)(f) <==> f.stream_id == stream_id,
        dispatching()(f) <==> f.msg_type == MsgType::Dispatch,
{
}

/// A search that comes upon an incomplete frame finds nothing and leaves the
/// bytes for later; one that comes upon a corrupt frame says so and is past it.
pub proof fn law_search_stops(b: Seq<u8>, wanted: spec_fn(FrameModel) -> bool)
    ensures
        !has_frame(b) ==> sought(b, wanted) == (Ok::<Option<FrameModel>, ProtocolError>(None), b),
        has_frame(b) ==> (opened(b.take(frame_len(b) as int)) matches Err(e) ==> sought(b, wanted) == (
            Err::<Option<FrameModel>, ProtocolError>(e),
            b.skip(frame_len(b) as int),
        )),
{
}

/// Every message can be taken, but one that asks for a task which the counts in a
/// task have no room for; during a shutdown, that one too.
pub proof fn law_what_is_acceptable(s: EngineModel, payload: Payload)
    ensures
        acceptable(s, payload) <==> (payload matches Payload::Request(Ok(Request::Create { spec })) ==> s.shutdown
            || creatable(s, spec@)),
{
}

/// A message that was handled was answered, and the registry took note of it.
pub proof fn law_message_handled(
    s: EngineModel,
    g: RegistryModel,
    c: Option<Seq<char>>,
    payload: Payload,
    id: u128,
    now: u64,
    r: ResponseModel,
    t: EngineModel,
    h: RegistryModel,
)
    requires
        handled(s, g, c, payload, id, now, r, t, h),
    ensures
        dispatched(s, payload, id, now, r, t),
        h == registered(g, c, payload, now),
{
}

/// The values of answers, of what they carry and of a session hold all of them.
pub proof fn law_answer_parts(value: Value, error: WireError, session: Session, table: Seq<(String, u64)>)
    ensures
        (Response::Success { value })@ == (ResponseModel::Success { value: value@ }),
        (Response::Failure { error })@ == (ResponseModel::Failure { error: error@ }),
        error@.kind == error.kind@,
        error@.message == error.message@,
        match value {
            Value::Nil => value@ == ValueModel::Nil,
            Value::Text(text) => value@ == ValueModel::Text(text@),
            Value::Integer(n) => value@ == ValueModel::Integer(n),
            Value::Table(rows) => value@ matches ValueModel::Table(t) && t == crate::rpc::rows(rows@),
        },
        crate::rpc::rows(table).len() == table.len(),
        forall|i: int|
            0 <= i < table.len() ==> #[trigger] crate::rpc::rows(table)[i] == (table[i].0@, table[i].1),
        session@ == match session.component_id {
            Some(id) => Some(id@),
            None => None::<Seq<char>>,
        },
{
}

/// What was found is handed over as it is: the frame with its type, stream and
/// payload, that there is none, or the error.
pub proof fn law_found_is_handed_over(
    r: Result<Option<Frame>, ProtocolError>,
    f: Result<Option<FrameModel>, ProtocolError>,
)
    requires
        found(r, f),
    ensures
        match (r, f) {
            (Ok(Some(frame)), Ok(Some(model))) => {
                &&& frame.msg_type == model.msg_type
                &&& frame.stream_id == model.stream_id
                &&& contents(frame.payload) == model.payload
            },
            (Ok(None), Ok(None)) => true,
            (Err(a), Err(b)) => a == b,
            _ => false,
        },
{
}

} // verus!
