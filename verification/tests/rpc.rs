use bytes::BytesMut;
use tasker::protocol::{decode_frame, encode_frame, MsgType, ProtocolError};
use tasker::rpc::{
    dispatch, dispatch_at, is_acceptable, payload_kind, read_created, read_done, read_stats, response_frame,
    take_dispatch, take_reply, Payload, PayloadKind, Request, Response, Session, StreamIds, TaskStatusReport, Value,
    WireError,
};
use tasker::registry::InstanceRegistry;
use tasker::types::{EdgeId, EdgeKind, Priority, TaskId, TaskResult, TaskSpec, TaskStatus, WorkerId};
use tasker::{EngineError, TaskEngine};

fn make_spec(blocking_on: Vec<TaskId>) -> TaskSpec {
    TaskSpec {
        task_type: "t".to_string(),
        payload: vec![],
        priority: Priority(0),
        parent: None,
        blocking_on,
        metadata: vec![],
    }
}

fn ask(engine: &mut TaskEngine, request: Request, id: u128) -> Response {
    tell(engine, Payload::Request(Ok(request)), id)
}

fn tell(engine: &mut TaskEngine, payload: Payload, id: u128) -> Response {
    dispatch_at(engine, &mut InstanceRegistry::new(30), &mut Session::new(), payload, id, 1)
}

fn text(r: Response) -> String {
    match r {
        Response::Success { value: Value::Text(text) } => text,
        other => panic!("unexpected {:?}", other),
    }
}

fn error(r: Response) -> WireError {
    match r {
        Response::Failure { error } => error,
        other => panic!("unexpected {:?}", other),
    }
}

fn is_nil(r: Response) -> bool {
    matches!(r, Response::Success { value: Value::Nil })
}

#[test]
fn messages_and_their_payloads() {
    assert_eq!(payload_kind(MsgType::Register), PayloadKind::Register);
    assert_eq!(payload_kind(MsgType::Unregister), PayloadKind::Unregister);
    assert_eq!(payload_kind(MsgType::Heartbeat), PayloadKind::Heartbeat);
    assert_eq!(payload_kind(MsgType::StatusReport), PayloadKind::Report);
    assert_eq!(payload_kind(MsgType::Create), PayloadKind::Request);
    assert_eq!(payload_kind(MsgType::Dispatch), PayloadKind::Request);
}

#[test]
fn messages_that_are_not_understood() {
    let mut engine = TaskEngine::new();
    let e = error(tell(&mut engine, Payload::Report(Err("bad".to_string())), 0));
    assert_eq!((e.kind.as_str(), e.message.as_str()), ("DeserializeError", "status report: bad"));
    let e = error(tell(&mut engine, Payload::Request(Err("bad".to_string())), 0));
    assert_eq!(e.text(), "DeserializeError: deserialize error: bad");
    assert_eq!(engine.stats().ready, 0);
}

#[test]
fn a_status_report_is_recorded() {
    let mut engine = TaskEngine::new();
    let mut registry = InstanceRegistry::new(30);
    let mut session = Session::new();
    let id = engine.create(make_spec(vec![])).unwrap();
    let _guard = engine.start(id, WorkerId(1)).unwrap();
    let status = TaskStatus::Completed { result: TaskResult::Success { output_ref: 42 } };
    let report = |task_id| {
        Payload::Report(Ok(TaskStatusReport { task_id, status, component_id: "default".to_string() }))
    };
    assert!(is_nil(dispatch(&mut engine, &mut registry, &mut session, report(id))));
    assert_eq!(engine.get_task(id).unwrap().status, status);
    assert_eq!(engine.stats().completed, 1);
    // A report that cannot be recorded is acknowledged too.
    assert!(is_nil(dispatch(&mut engine, &mut registry, &mut session, report(TaskId(0)))));
    assert_eq!(engine.stats().completed, 1);
}

#[test]
fn instances_register_by_messages() {
    let mut engine = TaskEngine::new();
    let mut registry = InstanceRegistry::new(30);
    let mut session = Session::new();
    let mut send = |payload, now| {
        assert!(is_nil(dispatch_at(&mut engine, &mut registry, &mut session, payload, 0, now)));
        (registry.get("c").map(|c| c.last_heartbeat), session.component_id.clone())
    };
    // Before an instance has registered on a connection there is nothing to note.
    assert_eq!(send(Payload::Heartbeat, 5), (None, None));
    assert_eq!(send(Payload::Unregister, 5), (None, None));
    assert_eq!(send(Payload::Register(Err("bad".to_string())), 5), (None, None));
    let name = Some("c".to_string());
    assert_eq!(send(Payload::Register(Ok("c".to_string())), 6), (Some(6), name.clone()));
    assert_eq!(send(Payload::Heartbeat, 9), (Some(9), name));
    assert_eq!(send(Payload::Unregister, 10), (None, None));
    assert_eq!(send(Payload::Heartbeat, 11), (None, None));
}

#[test]
fn a_task_is_created_blocked_and_counted() {
    let mut engine = TaskEngine::new();
    let created = ask(&mut engine, Request::Create { spec: make_spec(vec![]) }, u128::MAX);
    assert_eq!(text(created), "340282366920938463463374607431768211455");
    assert_eq!(
        read_created(ask(&mut engine, Request::Create { spec: make_spec(vec![]) }, 12)).unwrap(),
        TaskId(12)
    );
    let edge = ask(
        &mut engine,
        Request::DependsOn { from: TaskId(12), to: TaskId(u128::MAX), kind: EdgeKind::Blocking },
        0,
    );
    assert!(matches!(edge, Response::Success { value: Value::Integer(2) }));
    let stats = ask(&mut engine, Request::Stats, 0);
    match &stats {
        Response::Success { value: Value::Table(rows) } => {
            let names: Vec<&str> = rows.iter().map(|r| r.0.as_str()).collect();
            assert_eq!(names, ["pending", "ready", "running", "completed", "cancelled"]);
        }
        other => panic!("unexpected {:?}", other),
    }
    let stats = read_stats(stats).unwrap();
    assert_eq!((stats.pending, stats.ready, stats.running), (1, 1, 0));
    assert!(is_nil(ask(&mut engine, Request::RemoveDep { edge_id: EdgeId(2) }, 0)));
    assert_eq!(engine.stats().ready, 2);
}

#[test]
fn a_task_started_over_the_wire_runs_until_it_is_completed() {
    let mut engine = TaskEngine::new();
    ask(&mut engine, Request::Create { spec: make_spec(vec![]) }, 1);
    let start = Request::Start { id: TaskId(1), worker: WorkerId(4) };
    assert!(is_nil(ask(&mut engine, start, 0)));
    assert_eq!(
        engine.get_task(TaskId(1)).unwrap().status,
        TaskStatus::Running { worker_id: WorkerId(4) }
    );
    assert_eq!((engine.stats().running, engine.stats().completed), (1, 0));
    let result = TaskResult::Success { output_ref: 5 };
    assert!(is_nil(ask(&mut engine, Request::Complete { id: TaskId(1), result }, 0)));
    assert_eq!(engine.get_task(TaskId(1)).unwrap().status, TaskStatus::Completed { result });
}

#[test]
fn refused_requests_are_answered_with_the_error() {
    let mut engine = TaskEngine::new();
    ask(&mut engine, Request::Create { spec: make_spec(vec![]) }, 1);
    ask(&mut engine, Request::Create { spec: make_spec(vec![TaskId(1)]) }, 2);
    let e = error(ask(&mut engine, Request::Create { spec: make_spec(vec![]) }, 1));
    assert_eq!(e.text(), "AlreadyExists(TaskId(1)): task TaskId(1) already exists");
    let e = error(ask(&mut engine, Request::Start { id: TaskId(7), worker: WorkerId(1) }, 0));
    assert_eq!(e.text(), "NotFound(TaskId(7)): task TaskId(7) not found");
    let e = error(ask(&mut engine, Request::Start { id: TaskId(2), worker: WorkerId(1) }, 0));
    assert_eq!(e.kind, "InvalidTransition { id: TaskId(2), from: Pending, attempted: \"start\" }");
    assert_eq!(e.message, "invalid transition for task TaskId(2): cannot start from Pending");
    let e = error(ask(
        &mut engine,
        Request::DependsOn { from: TaskId(2), to: TaskId(1), kind: EdgeKind::Blocking },
        0,
    ));
    assert_eq!(e.text(), "CycleDetected { path: [TaskId(2), TaskId(1)] }: cycle detected: path through tasks [TaskId(2), TaskId(1)]");
    assert!(is_nil(ask(&mut engine, Request::Cancel { id: TaskId(2), reason: 3 }, 0)));
    let e = error(ask(&mut engine, Request::Cancel { id: TaskId(2), reason: 3 }, 0));
    assert_eq!(e.message, "invalid transition for task TaskId(2): cannot cancel from Cancelled { reason: 3 }");
    let e = error(ask(&mut engine, Request::RemoveDep { edge_id: EdgeId(99) }, 0));
    assert_eq!(e.kind, "NotFound(TaskId(99))");
    assert!(is_nil(ask(&mut engine, Request::Shutdown, 0)));
    let e = error(ask(&mut engine, Request::Create { spec: make_spec(vec![]) }, 3));
    assert_eq!(e.text(), "EngineShuttingDown: engine is shutting down");
}

#[test]
fn errors_read_like_their_structure() {
    let running = TaskStatus::Running { worker_id: WorkerId(2) };
    let done = TaskStatus::Completed { result: TaskResult::Success { output_ref: 42 } };
    let failed = TaskStatus::Completed { result: TaskResult::Failed { error_code: 5, output_ref: Some(6) } };
    let invalid = |from| EngineError::InvalidTransition { id: TaskId(1), from, attempted: "cancel" };
    let cases = vec![
        EngineError::NotFound(TaskId(1)),
        EngineError::AlreadyExists(TaskId(0)),
        invalid(running),
        invalid(TaskStatus::Ready),
        EngineError::CycleDetected { path: vec![TaskId(1), TaskId(2), TaskId(30)] },
        EngineError::CycleDetected { path: vec![TaskId(1)] },
        EngineError::AlreadyRunning { id: TaskId(1), worker: WorkerId(u64::MAX) },
        EngineError::Cancelled(TaskId(u128::MAX)),
        EngineError::EngineShuttingDown,
        EngineError::CorruptJournal(12),
        EngineError::Internal("it's \"so\"\n".to_string()),
        EngineError::NoInstance("caf\u{e9}".to_string()),
        EngineError::TransportError(String::new()),
    ];
    for e in &cases {
        assert_eq!(e.kind(), format!("{:?}", e));
    }
    assert_eq!(invalid(failed).message(), "invalid transition for task TaskId(1): cannot cancel from Completed { result: Failed { error_code: 5, output_ref: Some(6) } }");
    assert_eq!(invalid(done).message(), "invalid transition for task TaskId(1): cannot cancel from Completed { result: Ok { output_ref: 42 } }");
    let messages: Vec<String> = cases[4..].iter().map(|e| e.message()).collect();
    assert_eq!(
        messages,
        [
            "cycle detected: path through tasks [TaskId(1), TaskId(2), TaskId(30)]",
            "cycle detected: path through tasks [TaskId(1)]",
            "task TaskId(1) already running on worker WorkerId(18446744073709551615)",
            "task TaskId(340282366920938463463374607431768211455) was cancelled",
            "engine is shutting down",
            "corrupt journal at seq 12",
            "internal error: it's \"so\"\n",
            "no instance registered for component caf\u{e9}",
            "transport error: ",
        ]
    );
}

#[test]
fn requests_beyond_the_counts_are_recognised() {
    let engine = TaskEngine::new();
    let request = |n: u128| Payload::Request(Ok(Request::Create { spec: make_spec((0..n).map(TaskId).collect()) }));
    assert!(is_acceptable(&engine, &request(65535)));
    assert!(!is_acceptable(&engine, &request(65536)));
    assert!(is_acceptable(&engine, &Payload::Heartbeat));
    assert!(is_acceptable(&engine, &Payload::Request(Ok(Request::Stats))));
}

#[test]
fn an_answer_comes_back_on_its_stream() {
    let mut buf = BytesMut::from(&response_frame(7, b"answer")[..]);
    let frame = decode_frame(&mut buf).unwrap().unwrap();
    assert_eq!((frame.msg_type, frame.stream_id), (MsgType::ResponseOk, 7));
    assert_eq!(&frame.payload[..], b"answer");
}

#[test]
fn stream_ids_count_up_and_wrap() {
    let mut ids = StreamIds::new();
    assert_eq!(ids.alloc_stream_id(), 1);
    assert_eq!(ids.alloc_stream_id(), 2);
    let mut ids = StreamIds { next: u16::MAX };
    assert_eq!(ids.alloc_stream_id(), u16::MAX);
    assert_eq!(ids.alloc_stream_id(), 0);
}

#[test]
fn a_client_waits_for_its_own_frames() {
    let mut buf = BytesMut::new();
    buf.extend_from_slice(&response_frame(1, b"one"));
    buf.extend_from_slice(&response_frame(2, b"two"));
    let frame = take_reply(&mut buf, 2).unwrap().unwrap();
    assert_eq!(&frame.payload[..], b"two");
    assert!(take_reply(&mut buf, 2).unwrap().is_none());
    buf.extend_from_slice(&response_frame(3, b""));
    buf.extend_from_slice(&encode_frame(MsgType::Dispatch, 0, b"task"));
    buf.extend_from_slice(&encode_frame(MsgType::Dispatch, 0, b"next"));
    let frame = take_dispatch(&mut buf).unwrap().unwrap();
    assert_eq!(&frame.payload[..], b"task");
    let frame = take_dispatch(&mut buf).unwrap().unwrap();
    assert_eq!(&frame.payload[..], b"next");
    assert!(take_dispatch(&mut buf).unwrap().is_none());
    // Frames that are not wanted are dropped, and the beginning of another stays.
    buf.extend_from_slice(&encode_frame(MsgType::Heartbeat, 1, b""));
    buf.extend_from_slice(&encode_frame(MsgType::Dispatch, 2, b"late")[..10]);
    assert!(take_dispatch(&mut buf).unwrap().is_none());
    assert_eq!(buf.len(), 10);
    buf.clear();
    buf.extend_from_slice(&[0; 16]);
    assert_eq!(take_dispatch(&mut buf).unwrap_err(), ProtocolError::InvalidMagic);
    buf.extend_from_slice(&[0; 16]);
    assert_eq!(take_reply(&mut buf, 1).unwrap_err(), ProtocolError::InvalidMagic);
}

#[test]
fn answers_are_read() {
    let failure = || Response::Failure {
        error: WireError { kind: "K".to_string(), message: "m".to_string() },
    };
    let success = |value| Response::Success { value };
    assert_eq!(read_created(success(Value::Nil)).unwrap(), TaskId(0));
    assert_eq!(read_created(success(Value::Text("x".to_string()))).unwrap(), TaskId(0));
    let too_large = "340282366920938463463374607431768211456".to_string();
    assert_eq!(read_created(success(Value::Text(too_large))).unwrap(), TaskId(0));
    assert_eq!(read_created(failure()).unwrap_err().text(), "K: m");
    assert_eq!(read_stats(success(Value::Nil)).unwrap().ready, 0);
    let table = vec![("ready".to_string(), 4), ("ready".to_string(), 5), ("other".to_string(), 6)];
    let stats = read_stats(success(Value::Table(table))).unwrap();
    assert_eq!((stats.ready, stats.pending), (4, 0));
    assert!(read_stats(failure()).is_err());
    assert!(read_done(success(Value::Nil)).is_ok());
    assert_eq!(read_done(failure()).unwrap_err().kind, "K");
}
