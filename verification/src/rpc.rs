//! Requests to the engine over the wire and the answers to them.
use crate::buffers::{buffered, contents};
use crate::engine::{
    answer, cancel_outcome, depend_outcome, remove_outcome, start_outcome, update_outcome, TaskEngine, TaskGuard,
};
use crate::clock::{now_millis, random_u128};
use crate::error::{EngineError, ErrorModel};
use crate::model::{after_start, creatable, created, creation_cycles, finished, start_refusal, EngineModel};
use crate::protocol::{
    decode_frame, encode_frame, encoded_frame, frame_len, has_frame, law_frame_round_trip, opened, Frame, FrameModel,
    MsgType, ProtocolError, HEADER_SIZE,
};
use crate::registry::{
    evicted, law_heartbeat_keeps_alive, with_heartbeat, with_instance, InstanceRegistry, RegistryModel,
};
use crate::render::{error_kind, error_message};
use crate::sound::sound;
use crate::text::{decimal, decimal_text, id_of, lemma_decimal_back, parse_id, same_text};
use crate::types::{EdgeId, EdgeKind, EngineStats, TaskId, TaskResult, TaskSpec, TaskStatus, WorkerId};
use bytes::{Bytes, BytesMut};
use vstd::prelude::*;
use vstd::string::StringExecFns;

verus! {

/// What a component instance reports about a task.
#[derive(Debug)]
pub struct TaskStatusReport {
    pub task_id: TaskId,
    pub status: TaskStatus,
    pub component_id: String,
}

/// A request to the engine.
#[derive(Debug)]
pub enum Request {
    Create { spec: TaskSpec },
    Start { id: TaskId, worker: WorkerId },
    Complete { id: TaskId, result: TaskResult },
    Cancel { id: TaskId, reason: u32 },
    DependsOn { from: TaskId, to: TaskId, kind: EdgeKind },
    RemoveDep { edge_id: EdgeId },
    Stats,
    Shutdown,
}

/// An error as it goes over the wire.
#[derive(Debug)]
pub struct WireError {
    pub kind: String,
    pub message: String,
}

/// The value of a [`WireError`].
#[verifier::ext_equal]
pub struct WireErrorModel {
    pub kind: Seq<char>,
    pub message: Seq<char>,
}

impl View for WireError {
    type V = WireErrorModel;

    open spec fn view(&self) -> WireErrorModel {
        WireErrorModel { kind: self.kind@, message: self.message@ }
    }
}

/// An engine error as it goes over the wire.
pub open spec fn wired(e: ErrorModel) -> WireErrorModel {
    WireErrorModel { kind: error_kind(e), message: error_message(e) }
}

impl WireError {
    /// An engine error as it goes over the wire.
    pub fn from_engine(e: &EngineError) -> (r: WireError)
        ensures
            r@ == wired(e@),
    {
        WireError { kind: e.kind(), message: e.message() }
    }

    /// This error as one line of text.
    pub fn text(&self) -> (r: String)
        ensures
            r@ == self@.kind + ": "@ + self@.message,
    {
        let mut r: String = self.kind.clone();
        r.append(": ");
        r.append(self.message.as_str());
        r
    }
}

/// A value in an answer.
#[derive(Debug)]
pub enum Value {
    Nil,
    Text(String),
    Integer(u64),
    Table(Vec<(String, u64)>),
}

/// The value of a [`Value`].
#[verifier::ext_equal]
pub enum ValueModel {
    Nil,
    Text(Seq<char>),
    Integer(u64),
    Table(Seq<(Seq<char>, u64)>),
}

/// The values of the rows of a table.
pub open spec fn rows(table: Seq<(String, u64)>) -> Seq<(Seq<char>, u64)> {
    table.map_values(|row: (String, u64)| (row.0@, row.1))
}

impl View for Value {
    type V = ValueModel;

    open spec fn view(&self) -> ValueModel {
        match *self {
            Value::Nil => ValueModel::Nil,
            Value::Text(text) => ValueModel::Text(text@),
            Value::Integer(n) => ValueModel::Integer(n),
            Value::Table(table) => ValueModel::Table(rows(table@)),
        }
    }
}

/// The answer to a request.
#[derive(Debug)]
pub enum Response {
    Success { value: Value },
    Failure { error: WireError },
}

/// The value of a [`Response`].
#[verifier::ext_equal]
pub enum ResponseModel {
    Success { value: ValueModel },
    Failure { error: WireErrorModel },
}

impl View for Response {
    type V = ResponseModel;

    open spec fn view(&self) -> ResponseModel {
        match *self {
            Response::Success { value } => ResponseModel::Success { value: value@ },
            Response::Failure { error } => ResponseModel::Failure { error: error@ },
        }
    }
}

/// The answer that carries nothing.
pub open spec fn done() -> ResponseModel {
    ResponseModel::Success { value: ValueModel::Nil }
}

/// The answer that an engine error gives.
pub open spec fn refused(e: ErrorModel) -> ResponseModel {
    ResponseModel::Failure { error: wired(e) }
}

/// The answer that carries nothing.
fn ok_nil() -> (r: Response)
    ensures
        r@ == done(),
{
    Response::Success { value: Value::Nil }
}

/// The answer that an engine error gives.
fn failed(e: &EngineError) -> (r: Response)
    ensures
        r@ == refused(e@),
{
    Response::Failure { error: WireError::from_engine(e) }
}

/// The answer to something that could not be understood.
pub open spec fn not_understood(what: Seq<char>, why: Seq<char>) -> ResponseModel {
    ResponseModel::Failure { error: WireErrorModel { kind: "DeserializeError"@, message: what + why } }
}

/// The answer to something that could not be understood.
fn misread(what: &str, why: &str) -> (r: Response)
    ensures
        r@ == not_understood(what@, why@),
{
    let mut message: String = String::from_str(what);
    message.append(why);
    Response::Failure { error: WireError { kind: String::from_str("DeserializeError"), message } }
}

/// What a message is about.
#[derive(Debug, Clone, Copy, PartialEq, Eq, Structural)]
pub enum PayloadKind {
    /// An instance registers; the payload is its component id.
    Register,
    /// The instance of the connection unregisters; the payload does not matter.
    Unregister,
    /// The instance of the connection is alive; the payload does not matter.
    Heartbeat,
    /// The payload is a status report.
    Report,
    /// The payload is a request.
    Request,
}

/// What a message of the given type is about.
pub open spec fn payload_kind_of(msg_type: MsgType) -> PayloadKind {
    match msg_type {
        MsgType::Register => PayloadKind::Register,
        MsgType::Unregister => PayloadKind::Unregister,
        MsgType::Heartbeat => PayloadKind::Heartbeat,
        MsgType::StatusReport => PayloadKind::Report,
        _ => PayloadKind::Request,
    }
}

/// What a message of the given type is about. Whatever is not about an instance
/// is taken for a request, whose own tag decides what it asks for.
pub fn payload_kind(msg_type: MsgType) -> (r: PayloadKind)
    ensures
        r == payload_kind_of(msg_type),
{
    match msg_type {
        MsgType::Register => PayloadKind::Register,
        MsgType::Unregister => PayloadKind::Unregister,
        MsgType::Heartbeat => PayloadKind::Heartbeat,
        MsgType::StatusReport => PayloadKind::Report,
        _ => PayloadKind::Request,
    }
}

/// A message with its payload, as far as it was understood; otherwise why not.
#[derive(Debug)]
pub enum Payload {
    Register(Result<String, String>),
    Unregister,
    Heartbeat,
    Report(Result<TaskStatusReport, String>),
    Request(Result<Request, String>),
}

/// What a server knows of a connection: the component whose instance has
/// registered on it, if one has.
#[derive(Debug)]
pub struct Session {
    pub component_id: Option<String>,
}

impl View for Session {
    type V = Option<Seq<char>>;

    open spec fn view(&self) -> Option<Seq<char>> {
        match self.component_id {
            Some(id) => Some(id@),
            None => None,
        }
    }
}

impl Session {
    /// A connection on which no instance has registered.
    pub fn new() -> (r: Session)
        ensures
            r@ is None,
    {
        Session { component_id: None }
    }
}

/// The five counts of the engine as a table.
pub open spec fn stats_rows(s: EngineModel) -> Seq<(Seq<char>, u64)> {
    seq![
        ("pending"@, (s.counters.pending as usize) as u64),
        ("ready"@, (s.counters.ready as usize) as u64),
        ("running"@, (s.counters.running as usize) as u64),
        ("completed"@, (s.counters.completed as usize) as u64),
        ("cancelled"@, (s.counters.cancelled as usize) as u64),
    ]
}

/// What a request does to the engine and what the answer is, for the id and
/// the time that were drawn for it. A task that is started over the wire runs
/// until it is completed or cancelled: it has no guard.
pub open spec fn served(
    s: EngineModel,
    request: Request,
    id: u128,
    now: u64,
    r: ResponseModel,
    t: EngineModel,
) -> bool {
    match request {
        Request::Create { spec } => exists|e: Result<TaskId, ErrorModel>| #[trigger]
            created(s, id, now, spec@, e, t) && r == match e {
                Ok(task_id) => ResponseModel::Success { value: ValueModel::Text(decimal(task_id.0 as nat)) },
                Err(e) => refused(e),
            },
        Request::Start { id, worker } => match start_refusal(s, id) {
            Some(e) => r == refused(e) && t == s,
            None => r == done() && t == after_start(s, id, worker, now),
        },
        Request::Complete { id, result } => r == done() && exists|order: Seq<u128>| #[trigger]
            finished(s, id, result, now, order, t),
        Request::Cancel { id, reason } => exists|e: Result<(), EngineError>| #[trigger]
            cancel_outcome(s, id, reason, now, e, t) && r == match e {
                Ok(_) => done(),
                Err(e) => refused(e@),
            },
        Request::DependsOn { from, to, kind } => exists|e: Result<EdgeId, EngineError>| #[trigger]
            depend_outcome(s, from, to, kind, now, e, t) && r == match e {
                Ok(edge_id) => ResponseModel::Success { value: ValueModel::Integer(edge_id.0) },
                Err(e) => refused(e@),
            },
        Request::RemoveDep { edge_id } => exists|e: Result<(), EngineError>| #[trigger]
            remove_outcome(s, edge_id, now, e, t) && r == match e {
                Ok(_) => done(),
                Err(e) => refused(e@),
            },
        Request::Stats => r == (ResponseModel::Success { value: ValueModel::Table(stats_rows(s)) }) && t == s,
        Request::Shutdown => r == done() && t == (EngineModel { shutdown: true, ..s }),
    }
}

/// Whether the engine can take a request: a task that is to be created must not
/// exceed what the counts in a task can hold.
pub open spec fn servable(s: EngineModel, request: Request) -> bool {
    match request {
        Request::Create { spec } => !s.shutdown ==> creatable(s, spec@),
        _ => true,
    }
}

/// Whether the engine can take the request in a payload, if there is one.
pub open spec fn acceptable(s: EngineModel, payload: Payload) -> bool {
    match payload {
        Payload::Request(Ok(request)) => servable(s, request),
        _ => true,
    }
}

/// What a message does to the engine and what the answer is. A report that was
/// understood is acknowledged, whether it could be recorded or not.
pub open spec fn dispatched(
    s: EngineModel,
    payload: Payload,
    id: u128,
    now: u64,
    r: ResponseModel,
    t: EngineModel,
) -> bool {
    match payload {
        Payload::Report(report) => match report {
            Ok(report) => r == done() && exists|e: Result<(), EngineError>| #[trigger]
                update_outcome(s, report.task_id, report.status, now, e, t),
            Err(why) => r == not_understood("status report: "@, why@) && t == s,
        },
        Payload::Request(request) => match request {
            Ok(request) => served(s, request, id, now, r, t),
            Err(why) => r == not_understood("deserialize error: "@, why@) && t == s,
        },
        _ => r == done() && t == s,
    }
}

/// What a message at the time `now` does to the registry. An instance registers
/// under the component id in the message. The other messages about instances
/// speak of the one that has registered on the connection.
pub open spec fn registered(g: RegistryModel, c: Option<Seq<char>>, payload: Payload, now: u64) -> RegistryModel {
    match (payload, c) {
        (Payload::Register(Ok(component_id)), _) => with_instance(g, component_id@, now),
        (Payload::Unregister, Some(id)) => RegistryModel { instances: g.instances.remove(id), ..g },
        (Payload::Heartbeat, Some(id)) => with_heartbeat(g, id, now),
        _ => g,
    }
}

/// What a message makes of what the server knows of its connection.
pub open spec fn connected(c: Option<Seq<char>>, payload: Payload) -> Option<Seq<char>> {
    match payload {
        Payload::Register(Ok(component_id)) => Some(component_id@),
        Payload::Unregister => None,
        _ => c,
    }
}

/// Whether the engine can take the request in a payload, if there is one.
pub fn is_acceptable(engine: &TaskEngine, payload: &Payload) -> (r: bool)
    ensures
        r == acceptable(engine@, *payload),
{
    match payload {
        Payload::Request(Ok(Request::Create { spec })) => engine.is_shutting_down() || engine.can_create(spec),
        _ => true,
    }
}

/// Serves a request, with `id` for a task that is to be created and `now` for
/// the time.
fn serve(engine: &mut TaskEngine, request: Request, id: u128, now: u64) -> (r: Response)
    requires
        servable(old(engine)@, request),
    ensures
        served(old(engine)@, request, id, now, r@, final(engine)@),
        (request matches Request::Complete { id: task, result } ==> sound(old(engine)@) && old(engine)@.tasks.contains_key(task.0) && old(engine)@.tasks[task.0].status is Running ==> final(engine)@.tasks[task.0].status == (TaskStatus::Completed { result })),
        sound(old(engine)@) ==> sound(final(engine)@),
{
    let ghost s = engine@;
    match request {
        Request::Create { spec } => {
            let ghost model = spec@;
            let e: Result<TaskId, EngineError> = engine.create_at(TaskId(id), now, spec);
            assert(created(s, id, now, model, answer(e), engine@));
            match e {
                Ok(task_id) => Response::Success { value: Value::Text(decimal_text(task_id.0)) },
                Err(e) => failed(&e),
            }
        },
        Request::Start { id, worker } => {
            let e: Result<TaskGuard, EngineError> = engine.start_at(id, worker, now);
            assert(start_outcome(s, id, worker, now, e, engine@));
            match e {
                Ok(_) => ok_nil(),
                Err(e) => failed(&e),
            }
        },
        Request::Complete { id, result } => {
            engine.complete_at(id, result, now);
            ok_nil()
        },
        Request::Cancel { id, reason } => {
            let e: Result<(), EngineError> = engine.cancel_at(id, reason, now);
            assert(cancel_outcome(s, id, reason, now, e, engine@));
            match e {
                Ok(()) => ok_nil(),
                Err(e) => failed(&e),
            }
        },
        Request::DependsOn { from, to, kind } => {
            let e: Result<EdgeId, EngineError> = engine.depends_on_at(from, to, kind, now);
            assert(depend_outcome(s, from, to, kind, now, e, engine@));
            match e {
                Ok(edge_id) => Response::Success { value: Value::Integer(edge_id.0) },
                Err(e) => failed(&e),
            }
        },
        Request::RemoveDep { edge_id } => {
            let e: Result<(), EngineError> = engine.remove_dep_at(edge_id, now);
            assert(remove_outcome(s, edge_id, now, e, engine@));
            match e {
                Ok(()) => ok_nil(),
                Err(e) => failed(&e),
            }
        },
        Request::Stats => {
            let stats: EngineStats = engine.stats();
            let mut table: Vec<(String, u64)> = Vec::new();
            table.push((String::from_str("pending"), stats.pending as u64));
            table.push((String::from_str("ready"), stats.ready as u64));
            table.push((String::from_str("running"), stats.running as u64));
            table.push((String::from_str("completed"), stats.completed as u64));
            table.push((String::from_str("cancelled"), stats.cancelled as u64));
            assert(rows(table@) =~= stats_rows(s));
            Response::Success { value: Value::Table(table) }
        },
        Request::Shutdown => match engine.shutdown() {
            Ok(()) => ok_nil(),
            Err(e) => failed(&e),
        },
    }
}

/// Takes note of a message about an instance at the time `now`.
fn note_instance(registry: &mut InstanceRegistry, session: &mut Session, payload: &Payload, now: u64)
    ensures
        final(registry)@ == registered(old(registry)@, old(session)@, *payload, now),
        final(session)@ == connected(old(session)@, *payload),
{
    match payload {
        Payload::Register(Ok(component_id)) => {
            registry.register_at(component_id.clone(), now);
            session.component_id = Some(component_id.clone());
        },
        Payload::Unregister => {
            if let Some(id) = &session.component_id {
                registry.unregister(id.as_str());
            }
            session.component_id = None;
        },
        Payload::Heartbeat => {
            if let Some(id) = &session.component_id {
                registry.heartbeat_at(id.as_str(), now);
            }
        },
        _ => {},
    }
}

/// Answers a message, with `id` for a task that is to be created and `now` for
/// the time.
pub fn dispatch_at(
    engine: &mut TaskEngine,
    registry: &mut InstanceRegistry,
    session: &mut Session,
    payload: Payload,
    id: u128,
    now: u64,
) -> (r: Response)
    requires
        acceptable(old(engine)@, payload),
    ensures
        dispatched(old(engine)@, payload, id, now, r@, final(engine)@),
        final(registry)@ == registered(old(registry)@, old(session)@, payload, now),
        final(session)@ == connected(old(session)@, payload),
        payload matches Payload::Request(Ok(Request::Complete { id: task, result })) ==> sound(old(engine)@)
            && old(engine)@.tasks.contains_key(task.0) && old(engine)@.tasks[task.0].status is Running
            ==> final(engine)@.tasks[task.0].status == (TaskStatus::Completed { result }),
        sound(old(engine)@) ==> sound(final(engine)@),
{
    note_instance(registry, session, &payload, now);
    match payload {
        Payload::Report(report) => match report {
            Ok(report) => {
                let e: Result<(), EngineError> = engine.update_status_at(report.task_id, report.status, now);
                assert(update_outcome(old(engine)@, report.task_id, report.status, now, e, engine@));
                ok_nil()
            },
            Err(why) => misread("status report: ", why.as_str()),
        },
        Payload::Request(request) => match request {
            Ok(request) => serve(engine, request, id, now),
            Err(why) => misread("deserialize error: ", why.as_str()),
        },
        _ => ok_nil(),
    }
}

/// What a message does, for an id and a time that were drawn for it.
pub open spec fn handled(
    s: EngineModel,
    g: RegistryModel,
    c: Option<Seq<char>>,
    payload: Payload,
    id: u128,
    now: u64,
    r: ResponseModel,
    t: EngineModel,
    h: RegistryModel,
) -> bool {
    dispatched(s, payload, id, now, r, t) && h == registered(g, c, payload, now)
}

/// Answers a message.
pub fn dispatch(
    engine: &mut TaskEngine,
    registry: &mut InstanceRegistry,
    session: &mut Session,
    payload: Payload,
) -> (r: Response)
    requires
        acceptable(old(engine)@, payload),
    ensures
        exists|id: u128, now: u64| #[trigger]
            handled(
                old(engine)@,
                old(registry)@,
                old(session)@,
                payload,
                id,
                now,
                r@,
                final(engine)@,
                final(registry)@,
            ),
        final(session)@ == connected(old(session)@, payload),
        payload matches Payload::Request(Ok(Request::Complete { id: task, result })) ==> sound(old(engine)@)
            && old(engine)@.tasks.contains_key(task.0) && old(engine)@.tasks[task.0].status is Running
            ==> final(engine)@.tasks[task.0].status == (TaskStatus::Completed { result }),
        sound(old(engine)@) ==> sound(final(engine)@),
{
    let id: u128 = random_u128();
    let now: u64 = now_millis();
    let r: Response = dispatch_at(engine, registry, session, payload, id, now);
    assert(handled(
        old(engine)@,
        old(registry)@,
        old(session)@,
        payload,
        id,
        now,
        r@,
        engine@,
        registry@,
    ));
    r
}

/// The frame that carries an answer back on the stream of its request.
pub fn response_frame(stream_id: u16, payload: &[u8]) -> (r: Bytes)
    requires
        payload@.len() + HEADER_SIZE <= isize::MAX,
    ensures
        contents(r) == encoded_frame(MsgType::ResponseOk, stream_id, payload@),
{
    encode_frame(MsgType::ResponseOk, stream_id, payload)
}

// The side of the client.

/// The numbers of the streams of a connection.
#[derive(Debug, Clone, Copy, PartialEq, Eq, Structural)]
pub struct StreamIds {
    pub next: u16,
}

impl StreamIds {
    /// Streams are numbered from 1.
    pub fn new() -> (r: StreamIds)
        ensures
            r.next == 1,
    {
        StreamIds { next: 1 }
    }

    /// The number for the next stream. After the largest number comes 0.
    pub fn alloc_stream_id(&mut self) -> (r: u16)
        ensures
            r == old(self).next,
            final(self).next == if old(self).next < u16::MAX {
                (old(self).next + 1) as u16
            } else {
                0
            },
    {
        let r: u16 = self.next;
        self.next = r.wrapping_add(1);
        r
    }
}

/// What a search from the front of `b` finds, and what is left: the first frame
/// that is wanted; nothing, if no whole frame is left; or the error of a corrupt
/// frame. Frames that are not wanted are dropped.
pub open spec fn sought(b: Seq<u8>, wanted: spec_fn(FrameModel) -> bool) -> (
    Result<Option<FrameModel>, ProtocolError>,
    Seq<u8>,
)
    decreases b.len(),
{
    if !has_frame(b) {
        (Ok(None), b)
    } else {
        let rest = b.skip(frame_len(b) as int);
        match opened(b.take(frame_len(b) as int)) {
            Err(e) => (Err(e), rest),
            Ok(f) => if wanted(f) {
                (Ok(Some(f)), rest)
            } else {
                sought(rest, wanted)
            },
        }
    }
}

/// The frames that answer on a stream.
pub open spec fn on_stream(stream_id: u16) -> spec_fn(FrameModel) -> bool {
    |f: FrameModel| f.stream_id == stream_id
}

/// The frames that dispatch a task.
pub open spec fn dispatching() -> spec_fn(FrameModel) -> bool {
    |f: FrameModel| f.msg_type is Dispatch
}

/// Whether `r` is what was found.
pub open spec fn found(
    r: Result<Option<Frame>, ProtocolError>,
    f: Result<Option<FrameModel>, ProtocolError>,
) -> bool {
    match f {
        Ok(Some(f)) => r matches Ok(Some(frame)) && frame@ == f,
        Ok(None) => r == Ok::<Option<Frame>, ProtocolError>(None),
        Err(e) => r == Err::<Option<Frame>, ProtocolError>(e),
    }
}

/// Takes the first frame that answers on the stream `stream_id` out of `buf`.
/// The frames before it are dropped. Nothing means that no whole frame is left.
pub fn take_reply(buf: &mut BytesMut, stream_id: u16) -> (r: Result<Option<Frame>, ProtocolError>)
    ensures
        found(r, sought(buffered(*old(buf)), on_stream(stream_id)).0),
        buffered(*final(buf)) == sought(buffered(*old(buf)), on_stream(stream_id)).1,
{
    loop
        invariant
            sought(buffered(*buf), on_stream(stream_id)) == sought(buffered(*old(buf)), on_stream(stream_id)),
        decreases buffered(*buf).len(),
    {
        match decode_frame(buf) {
            Err(e) => {
                return Err(e);
            },
            Ok(None) => {
                return Ok(None);
            },
            Ok(Some(frame)) => {
                if frame.stream_id == stream_id {
                    return Ok(Some(frame));
                }
            },
        }
    }
}

/// Takes the first frame that dispatches a task out of `buf`. The frames before
/// it are dropped. Nothing means that no whole frame is left.
pub fn take_dispatch(buf: &mut BytesMut) -> (r: Result<Option<Frame>, ProtocolError>)
    ensures
        found(r, sought(buffered(*old(buf)), dispatching()).0),
        buffered(*final(buf)) == sought(buffered(*old(buf)), dispatching()).1,
{
    loop
        invariant
            sought(buffered(*buf), dispatching()) == sought(buffered(*old(buf)), dispatching()),
        decreases buffered(*buf).len(),
    {
        match decode_frame(buf) {
            Err(e) => {
                return Err(e);
            },
            Ok(None) => {
                return Ok(None);
            },
            Ok(Some(frame)) => {
                if let MsgType::Dispatch = frame.msg_type {
                    return Ok(Some(frame));
                }
            },
        }
    }
}

/// A search takes a frame that is wanted and passes over one that is not.
pub proof fn law_search_passes_over(
    msg_type: MsgType,
    stream_id: u16,
    payload: Seq<u8>,
    rest: Seq<u8>,
    wanted: spec_fn(FrameModel) -> bool,
)
    requires
        payload.len() <= 0xffff_ffff,
    ensures
        ({
            let f = FrameModel { msg_type, stream_id, payload };
            let b = encoded_frame(msg_type, stream_id, payload) + rest;
            &&& wanted(f) ==> sought(b, wanted) == (Ok::<Option<FrameModel>, ProtocolError>(Some(f)), rest)
            &&& !wanted(f) ==> sought(b, wanted) == sought(rest, wanted)
        }),
{
    law_frame_round_trip(msg_type, stream_id, payload, rest);
}

/// The id in the answer to a creation: the number in its text; 0 if the answer
/// carries no such number.
pub open spec fn created_id(value: ValueModel) -> TaskId {
    match value {
        ValueModel::Text(text) => match id_of(text) {
            Some(id) => TaskId(id),
            None => TaskId(0),
        },
        _ => TaskId(0),
    }
}

/// The id of the task that was created, or the error of the server.
pub fn read_created(response: Response) -> (r: Result<TaskId, WireError>)
    ensures
        match response@ {
            ResponseModel::Success { value } => r == Ok::<TaskId, WireError>(created_id(value)),
            ResponseModel::Failure { error } => r matches Err(e) && e@ == error,
        },
{
    match response {
        Response::Success { value } => match value {
            Value::Text(text) => match parse_id(text.as_str()) {
                Some(id) => Ok(TaskId(id)),
                None => Ok(TaskId(0)),
            },
            _ => Ok(TaskId(0)),
        },
        Response::Failure { error } => Err(error),
    }
}

/// The number in the first row with the given name; 0 if there is none.
pub open spec fn row_value(table: Seq<(Seq<char>, u64)>, name: Seq<char>) -> u64
    decreases table.len(),
{
    if table.len() == 0 {
        0
    } else if table[0].0 == name {
        table[0].1
    } else {
        row_value(table.drop_first(), name)
    }
}

/// The number in the first row with the given name; 0 if there is none.
fn find_row(table: &Vec<(String, u64)>, name: &str) -> (r: u64)
    ensures
        r == row_value(rows(table@), name@),
{
    let ghost all = rows(table@);
    assert(all.skip(0) =~= all);
    for i in 0..table.len()
        invariant
            all == rows(table@),
            row_value(all, name@) == row_value(all.skip(i as int), name@),
    {
        proof {
            assert(all.skip(i as int)[0] == all[i as int]);
            assert(all.skip(i as int).drop_first() =~= all.skip(i as int + 1));
        }
        if same_text(table[i].0.as_str(), name) {
            return table[i].1;
        }
    }
    0
}

/// The counts in the answer to a request for them; all 0 if the answer carries
/// no table.
pub open spec fn stats_in(value: ValueModel) -> EngineStats {
    match value {
        ValueModel::Table(table) => EngineStats {
            pending: row_value(table, "pending"@) as usize,
            ready: row_value(table, "ready"@) as usize,
            running: row_value(table, "running"@) as usize,
            completed: row_value(table, "completed"@) as usize,
            cancelled: row_value(table, "cancelled"@) as usize,
        },
        _ => EngineStats { pending: 0, ready: 0, running: 0, completed: 0, cancelled: 0 },
    }
}

/// The counts of the engine, or the error of the server.
pub fn read_stats(response: Response) -> (r: Result<EngineStats, WireError>)
    ensures
        match response@ {
            ResponseModel::Success { value } => r == Ok::<EngineStats, WireError>(stats_in(value)),
            ResponseModel::Failure { error } => r matches Err(e) && e@ == error,
        },
{
    match response {
        Response::Success { value } => match value {
            Value::Table(table) => {
                #[verifier::truncate]
                let pending: usize = find_row(&table, "pending") as usize;
                #[verifier::truncate]
                let ready: usize = find_row(&table, "ready") as usize;
                #[verifier::truncate]
                let running: usize = find_row(&table, "running") as usize;
                #[verifier::truncate]
                let completed: usize = find_row(&table, "completed") as usize;
                #[verifier::truncate]
                let cancelled: usize = find_row(&table, "cancelled") as usize;
                Ok(EngineStats { pending, ready, running, completed, cancelled })
            },
            _ => Ok(EngineStats::default()),
        },
        Response::Failure { error } => Err(error),
    }
}

/// The outcome of a request whose answer carries nothing.
pub fn read_done(response: Response) -> (r: Result<(), WireError>)
    ensures
        match response@ {
            ResponseModel::Success { value } => r == Ok::<(), WireError>(()),
            ResponseModel::Failure { error } => r matches Err(e) && e@ == error,
        },
{
    match response {
        Response::Success { value } => Ok(()),
        Response::Failure { error } => Err(error),
    }
}

/// A client that asks for a task to be created learns its id.
pub proof fn law_client_learns_id(s: EngineModel, spec: TaskSpec, id: u128, now: u64, r: ResponseModel, t: EngineModel)
    requires
        served(s, Request::Create { spec }, id, now, r, t),
        !s.shutdown,
        !s.tasks.contains_key(id),
        !creation_cycles(s, id, spec@.blocking_on),
    ensures
        r matches ResponseModel::Success { value } && created_id(value) == TaskId(id),
        t.tasks.contains_key(id),
{
    lemma_decimal_back(id as nat);
    crate::model::lemma_blocked_on_frame(
        s.numbered().with_task(id, crate::model::new_task(s, id, now, spec@)),
        id,
        s.seq,
        spec@.blocking_on,
    );
}

/// A client that asks for the counts learns what the engine counts.
pub proof fn law_client_learns_stats(s: EngineModel)
    ensures
        stats_in(ValueModel::Table(stats_rows(s))) == (EngineStats {
            pending: s.counters.pending as usize,
            ready: s.counters.ready as usize,
            running: s.counters.running as usize,
            completed: s.counters.completed as usize,
            cancelled: s.counters.cancelled as usize,
        }),
{
    reveal_strlit("pending");
    reveal_strlit("ready");
    reveal_strlit("running");
    reveal_strlit("completed");
    reveal_strlit("cancelled");
    reveal_with_fuel(row_value, 6);
    let table = stats_rows(s);
    assert("pending"@.len() == 7 && "ready"@.len() == 5 && "running"@.len() == 7 && "completed"@.len() == 9
        && "cancelled"@.len() == 9);
    assert("pending"@[0] != "running"@[0]);
    assert("completed"@[1] != "cancelled"@[1]);
}

/// During a shutdown a request to create, start or cancel a task or to add an
/// edge changes nothing and is answered with the reason.
pub proof fn law_shutdown_answered(
    s: EngineModel,
    request: Request,
    id: u128,
    now: u64,
    r: ResponseModel,
    t: EngineModel,
)
    requires
        s.shutdown,
        request is Create || request is Start || request is Cancel || request is DependsOn,
        served(s, request, id, now, r, t),
    ensures
        r == refused(ErrorModel::EngineShuttingDown),
        t == s,
{
}

/// An instance that registers by a message, or has registered and sends a
/// heartbeat on its connection, survives every eviction until its timeout has
/// passed; and one that unregisters is gone.
pub proof fn law_messages_keep_alive(g: RegistryModel, component_id: String, then: u64, now: u64)
    requires
        then <= now,
        now - then < g.timeout_secs * 1000,
    ensures
        ({
            let id = component_id@;
            let register = Payload::Register(Ok(component_id));
            &&& connected(None, register) == Some(id)
            &&& evicted(registered(g, None, register, then), now).instances.contains_key(id)
            &&& g.instances.contains_key(id) ==> evicted(
                registered(g, Some(id), Payload::Heartbeat, then),
                now,
            ).instances.contains_key(id)
            &&& !registered(g, Some(id), Payload::Unregister, then).instances.contains_key(id)
        }),
{
    law_heartbeat_keeps_alive(g, component_id@, then, now);
}

} // verus!
