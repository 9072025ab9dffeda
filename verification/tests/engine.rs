use rand::Rng;
use tasker::types::{EdgeId, EdgeKind, Priority, TaskId, TaskResult, TaskSpec, TaskStatus, WorkerId};
use tasker::{EngineConfig, EngineError, TaskEngine};

fn test_id() -> TaskId {
    TaskId(rand::rng().random::<u128>())
}

fn make_spec(task_type: &str) -> TaskSpec {
    TaskSpec {
        task_type: task_type.to_string(),
        payload: vec![],
        priority: Priority(0),
        parent: None,
        blocking_on: vec![],
        metadata: vec![],
    }
}

#[test]
fn test_create_task_no_deps_is_ready() {
    let mut engine = TaskEngine::new();
    let id = engine.create(make_spec("test")).unwrap();
    let task = engine.get_task(id).unwrap();
    assert!(matches!(task.status, TaskStatus::Ready));
    assert_eq!(task.edge_in_degree, 0);
}

#[test]
fn test_create_task_with_deps_is_pending() {
    let mut engine = TaskEngine::new();
    let a = engine.create(make_spec("a")).unwrap();
    let b = engine
        .create(TaskSpec {
            blocking_on: vec![a],
            ..make_spec("b")
        })
        .unwrap();
    let task = engine.get_task(b).unwrap();
    assert!(matches!(task.status, TaskStatus::Pending));
    assert_eq!(task.edge_in_degree, 1);
}

#[test]
fn test_complete_task_unblocks_dependent() {
    let mut engine = TaskEngine::new();
    let a = engine.create(make_spec("a")).unwrap();
    let b = engine
        .create(TaskSpec {
            blocking_on: vec![a],
            ..make_spec("b")
        })
        .unwrap();

    // Start and complete A.
    let mut guard = engine.start(a, WorkerId(1)).unwrap();
    guard.complete(&mut engine, TaskResult::Success { output_ref: 42 });

    // B should now be Ready.
    let task = engine.get_task(b).unwrap();
    assert!(matches!(task.status, TaskStatus::Ready));
    assert_eq!(task.edge_in_degree, 0);
}

#[test]
fn test_start_task_returns_guard() {
    let mut engine = TaskEngine::new();
    let id = engine.create(make_spec("test")).unwrap();
    let guard = engine.start(id, WorkerId(1)).unwrap();
    let task = engine.get_task(id).unwrap();
    assert!(matches!(task.status, TaskStatus::Running { worker_id: WorkerId(1) }));
    guard.release(&mut engine);
}

#[test]
fn test_guard_complete_transitions_to_completed() {
    let mut engine = TaskEngine::new();
    let id = engine.create(make_spec("test")).unwrap();
    let mut guard = engine.start(id, WorkerId(1)).unwrap();
    guard.complete(&mut engine, TaskResult::Success { output_ref: 99 });

    let task = engine.get_task(id).unwrap();
    assert!(matches!(
        task.status,
        TaskStatus::Completed {
            result: TaskResult::Success { output_ref: 99 }
        }
    ));
}

#[test]
fn test_guard_drop_without_complete_transitions_to_failed() {
    let mut engine = TaskEngine::new();
    let id = engine.create(make_spec("test")).unwrap();
    let guard = engine.start(id, WorkerId(1)).unwrap();
    guard.release(&mut engine);

    let task = engine.get_task(id).unwrap();
    assert!(matches!(
        task.status,
        TaskStatus::Completed {
            result: TaskResult::Failed {
                error_code: 0,
                output_ref: None
            }
        }
    ));
}

#[test]
fn test_cannot_start_pending_task() {
    let mut engine = TaskEngine::new();
    let a = engine.create(make_spec("a")).unwrap();
    let b = engine
        .create(TaskSpec {
            blocking_on: vec![a],
            ..make_spec("b")
        })
        .unwrap();
    let err = engine.start(b, WorkerId(1)).unwrap_err();
    assert!(matches!(
        err,
        EngineError::InvalidTransition {
            attempted: "start",
            ..
        }
    ));
}

#[test]
fn test_cannot_start_already_running_task() {
    let mut engine = TaskEngine::new();
    let id = engine.create(make_spec("test")).unwrap();
    let _guard = engine.start(id, WorkerId(1)).unwrap();
    let err = engine.start(id, WorkerId(2)).unwrap_err();
    assert!(matches!(err, EngineError::AlreadyRunning { .. }));
}

#[test]
fn test_cancel_running_cascades_to_children() {
    let mut engine = TaskEngine::new();
    let parent = engine
        .create(TaskSpec {
            parent: None,
            ..make_spec("parent")
        })
        .unwrap();
    let child = engine
        .create(TaskSpec {
            parent: Some(parent),
            ..make_spec("child")
        })
        .unwrap();
    // Start the child and keep it running.
    let _guard = engine.start(child, WorkerId(1)).unwrap();

    // Cancel parent — should cascade to child.
    let _ = engine.cancel(parent, 42);

    let child_task = engine.get_task(child).unwrap();
    assert!(matches!(child_task.status, TaskStatus::Cancelled { reason: 42 }));
}

#[test]
fn test_depends_on_cycle_detected() {
    let mut engine = TaskEngine::new();
    let a = engine.create(make_spec("a")).unwrap();
    let b = engine
        .create(TaskSpec {
            blocking_on: vec![a],
            ..make_spec("b")
        })
        .unwrap();

    // a depends on b (blocking) — should create a cycle.
    let err = engine.depends_on(b, a, EdgeKind::Blocking).unwrap_err();
    assert!(matches!(err, EngineError::CycleDetected { .. }));
}

#[test]
fn test_depends_on_already_completed_edge_is_satisfied() {
    let mut engine = TaskEngine::new();
    let a = engine.create(make_spec("a")).unwrap();
    let mut guard = engine.start(a, WorkerId(1)).unwrap();
    guard.complete(&mut engine, TaskResult::Success { output_ref: 1 });

    // Now create B with A as a blocking dep — A is already completed.
    let b = engine
        .create(TaskSpec {
            blocking_on: vec![a],
            ..make_spec("b")
        })
        .unwrap();

    let task = engine.get_task(b).unwrap();
    assert!(matches!(task.status, TaskStatus::Ready));
    assert_eq!(task.edge_in_degree, 0);
}

#[test]
fn test_remove_dep_unblocks() {
    let mut engine = TaskEngine::new();
    let a = engine.create(make_spec("a")).unwrap();
    let b = engine
        .create(TaskSpec {
            blocking_on: vec![a],
            ..make_spec("b")
        })
        .unwrap();

    // Find the edge ID.
    let edge_id = engine.get_edge(a, b).map(|e| e.id).unwrap();

    // Remove it.
    engine.remove_dep(edge_id).unwrap();

    let task = engine.get_task(b).unwrap();
    assert!(matches!(task.status, TaskStatus::Ready));
}

#[test]
fn test_watch_receives_status_changes() {
    let mut engine = TaskEngine::new();
    let id = engine.create(make_spec("test")).unwrap();

    // Should receive the Ready notification.
    let (recv_id, status, _) = engine.take_events()[0];
    assert_eq!(recv_id, id);
    assert!(matches!(status, TaskStatus::Ready));
}

#[test]
fn test_stats_counts() {
    let mut engine = TaskEngine::new();
    let a = engine.create(make_spec("a")).unwrap();
    let _b = engine
        .create(TaskSpec {
            blocking_on: vec![a],
            ..make_spec("b")
        })
        .unwrap();
    let _c = engine
        .create(TaskSpec {
            blocking_on: vec![a],
            ..make_spec("c")
        })
        .unwrap();

    let stats = engine.stats();
    assert_eq!(stats.ready, 1); // a
    assert_eq!(stats.pending, 2); // b, c
    assert_eq!(stats.running, 0);
    assert_eq!(stats.completed, 0);
}

#[test]
fn test_multiple_blocking_deps() {
    let mut engine = TaskEngine::new();
    let a = engine.create(make_spec("a")).unwrap();
    let b = engine.create(make_spec("b")).unwrap();
    let c = engine
        .create(TaskSpec {
            blocking_on: vec![a, b],
            ..make_spec("c")
        })
        .unwrap();

    let task = engine.get_task(c).unwrap();
    assert_eq!(task.edge_in_degree, 2);
    assert!(matches!(task.status, TaskStatus::Pending));

    // Complete one — still pending.
    let mut guard = engine.start(a, WorkerId(1)).unwrap();
    guard.complete(&mut engine, TaskResult::Success { output_ref: 1 });
    let task = engine.get_task(c).unwrap();
    assert!(matches!(task.status, TaskStatus::Pending));
    assert_eq!(task.edge_in_degree, 1);

    // Complete the other — now ready.
    let mut guard = engine.start(b, WorkerId(2)).unwrap();
    guard.complete(&mut engine, TaskResult::Success { output_ref: 2 });
    let task = engine.get_task(c).unwrap();
    assert!(matches!(task.status, TaskStatus::Ready));
    assert_eq!(task.edge_in_degree, 0);
}

#[test]
fn test_cancel_nonexistent_task() {
    let mut engine = TaskEngine::new();
    let err = engine.cancel(test_id(), 1).unwrap_err();
    assert!(matches!(err, EngineError::NotFound(_)));
}

#[test]
fn test_cancel_already_completed() {
    let mut engine = TaskEngine::new();
    let id = engine.create(make_spec("test")).unwrap();
    let mut guard = engine.start(id, WorkerId(1)).unwrap();
    guard.complete(&mut engine, TaskResult::Success { output_ref: 1 });

    let err = engine.cancel(id, 1).unwrap_err();
    assert!(matches!(
        err,
        EngineError::InvalidTransition {
            attempted: "cancel",
            ..
        }
    ));
}

#[test]
fn test_depends_on_nonexistent_task() {
    let mut engine = TaskEngine::new();
    let a = engine.create(make_spec("a")).unwrap();
    let err = engine.depends_on(a, test_id(), EdgeKind::Blocking).unwrap_err();
    assert!(matches!(err, EngineError::NotFound(_)));
}

#[test]
fn test_duplicate_edge_rejected() {
    let mut engine = TaskEngine::new();
    let a = engine.create(make_spec("a")).unwrap();
    let b = engine.create(make_spec("b")).unwrap();
    let _ = engine.depends_on(a, b, EdgeKind::Blocking).unwrap();
    let err = engine.depends_on(a, b, EdgeKind::Preference).unwrap_err();
    assert!(matches!(err, EngineError::AlreadyExists(_)));
}

#[test]
fn test_parent_child_tracking() {
    let mut engine = TaskEngine::new();
    let parent = engine
        .create(TaskSpec {
            parent: None,
            ..make_spec("parent")
        })
        .unwrap();
    let child = engine
        .create(TaskSpec {
            parent: Some(parent),
            ..make_spec("child")
        })
        .unwrap();

    let parent_task = engine.get_task(parent).unwrap();
    assert_eq!(parent_task.child_count, 1);

    let child_task = engine.get_task(child).unwrap();
    assert_eq!(child_task.spec.parent, Some(parent));
}

fn spec_on(task_type: &str, deps: Vec<TaskId>) -> TaskSpec {
    TaskSpec {
        blocking_on: deps,
        ..make_spec(task_type)
    }
}

fn child_of(parent: TaskId) -> TaskSpec {
    TaskSpec {
        parent: Some(parent),
        ..make_spec("child")
    }
}

fn status(engine: &TaskEngine, id: u128) -> TaskStatus {
    engine.get_task(TaskId(id)).unwrap().status
}

const DONE: TaskResult = TaskResult::Success { output_ref: 7 };

#[test]
fn creation_stores_the_whole_task() {
    let mut engine = TaskEngine::new();
    let spec = TaskSpec {
        task_type: "compile".to_string(),
        payload: vec![1, 2, 3],
        priority: Priority(-5),
        parent: None,
        blocking_on: vec![TaskId(9)],
        metadata: vec![("key".to_string(), vec![4, 5])],
    };
    assert_eq!(engine.create_at(TaskId(1), 1000, spec).unwrap(), TaskId(1));
    let task = engine.get_task(TaskId(1)).unwrap();
    assert_eq!(task.id, TaskId(1));
    assert_eq!(task.spec.task_type, "compile");
    assert_eq!(task.spec.payload, vec![1, 2, 3]);
    assert_eq!(task.spec.priority, Priority(-5));
    assert_eq!(task.spec.blocking_on, vec![TaskId(9)]);
    assert_eq!(task.spec.metadata, vec![("key".to_string(), vec![4, 5])]);
    assert_eq!(task.status, TaskStatus::Pending);
    assert_eq!((task.created_at, task.updated_at, task.seq), (1000, 1000, 0));
    assert_eq!((task.child_count, task.edge_in_degree), (0, 1));
    let edge = engine.get_edge(TaskId(9), TaskId(1)).unwrap();
    assert_eq!(edge.id, EdgeId(1));
    assert_eq!(edge.seq, 0);
    assert_eq!(edge.kind, EdgeKind::Blocking);
    assert!(engine.get_edge(TaskId(1), TaskId(9)).is_none());
    assert_eq!(engine.take_ready(), vec![]);
    assert_eq!(engine.take_events(), vec![(TaskId(1), TaskStatus::Pending, 0)]);
}

#[test]
fn random_ids_differ() {
    let mut engine = TaskEngine::new();
    let a = engine.create(make_spec("a")).unwrap();
    let b = engine.create(make_spec("b")).unwrap();
    assert_ne!(a, b);
    assert!(engine.get_task(a).unwrap().created_at > 1_600_000_000_000);
}

/// Starts and completes a task.
fn run(engine: &mut TaskEngine, id: u128) {
    let mut guard = engine.start_at(TaskId(id), WorkerId(1), 1).unwrap();
    guard.complete_at(engine, DONE, 2);
}

fn degree(engine: &TaskEngine, id: u128) -> u16 {
    engine.get_task(TaskId(id)).unwrap().edge_in_degree
}

#[test]
fn creation_under_a_used_id_is_refused() {
    let mut engine = TaskEngine::new();
    engine.create_at(TaskId(1), 10, make_spec("first")).unwrap();
    let err = engine.create_at(TaskId(1), 20, make_spec("second")).unwrap_err();
    assert!(matches!(err, EngineError::AlreadyExists(TaskId(1))));
    assert_eq!(engine.get_task(TaskId(1)).unwrap().spec.task_type, "first");
    assert_eq!(engine.stats().ready, 1);
    // No number was drawn.
    engine.create_at(TaskId(2), 30, make_spec("third")).unwrap();
    assert_eq!(engine.get_task(TaskId(2)).unwrap().seq, 1);
}

#[test]
fn creation_that_would_close_a_cycle_is_refused() {
    let mut engine = TaskEngine::new();
    engine.create_at(TaskId(2), 0, spec_on("b", vec![TaskId(1)])).unwrap();
    engine.create_at(TaskId(3), 0, spec_on("c", vec![TaskId(2)])).unwrap();
    match engine.create_at(TaskId(1), 0, spec_on("a", vec![TaskId(9), TaskId(3)])).unwrap_err() {
        EngineError::CycleDetected { path } => assert_eq!(path, vec![TaskId(3), TaskId(2), TaskId(1)]),
        other => panic!("unexpected {:?}", other),
    }
    match engine.create_at(TaskId(4), 0, spec_on("d", vec![TaskId(4)])).unwrap_err() {
        EngineError::CycleDetected { path } => assert_eq!(path, vec![TaskId(4)]),
        other => panic!("unexpected {:?}", other),
    }
    assert!(engine.get_task(TaskId(1)).is_none());
    engine.create_at(TaskId(1), 0, spec_on("a", vec![TaskId(9)])).unwrap();
}

#[test]
fn repeated_dependencies_count_once() {
    let mut engine = TaskEngine::new();
    engine.create_at(TaskId(1), 0, make_spec("a")).unwrap();
    engine.create_at(TaskId(2), 0, spec_on("b", vec![TaskId(1), TaskId(1)])).unwrap();
    assert_eq!(status(&engine, 2), TaskStatus::Pending);
    assert_eq!(degree(&engine, 2), 1);
    run(&mut engine, 1);
    assert_eq!(status(&engine, 2), TaskStatus::Ready);
    assert_eq!(degree(&engine, 2), 0);
}

#[test]
fn a_missing_dependency_blocks_until_it_is_created_and_completed() {
    let mut engine = TaskEngine::new();
    engine.create_at(TaskId(2), 0, spec_on("b", vec![TaskId(1)])).unwrap();
    assert_eq!(status(&engine, 2), TaskStatus::Pending);
    engine.create_at(TaskId(1), 0, make_spec("a")).unwrap();
    engine.start_at(TaskId(1), WorkerId(1), 1).unwrap();
    engine.complete_at(TaskId(1), DONE, 2);
    assert_eq!(status(&engine, 2), TaskStatus::Ready);
}

#[test]
fn a_start_is_announced_and_stamped() {
    let mut engine = TaskEngine::new();
    engine.create_at(TaskId(1), 5, make_spec("a")).unwrap();
    engine.take_events();
    assert_eq!(engine.take_ready(), vec![TaskId(1)]);
    engine.start_at(TaskId(1), WorkerId(3), 9).unwrap();
    let task = engine.get_task(TaskId(1)).unwrap();
    assert_eq!(task.status, TaskStatus::Running { worker_id: WorkerId(3) });
    assert_eq!((task.created_at, task.updated_at, task.seq), (5, 9, 1));
    assert_eq!(
        engine.take_events(),
        vec![(TaskId(1), TaskStatus::Running { worker_id: WorkerId(3) }, 2)]
    );
    assert_eq!(engine.take_ready(), vec![]);
}

#[test]
fn the_first_start_wins() {
    let mut engine = TaskEngine::new();
    engine.create_at(TaskId(1), 0, make_spec("a")).unwrap();
    engine.start_at(TaskId(1), WorkerId(3), 1).unwrap();
    let err = engine.start_at(TaskId(1), WorkerId(4), 2).unwrap_err();
    assert!(matches!(err, EngineError::AlreadyRunning { id: TaskId(1), worker: WorkerId(3) }));
    assert!(matches!(
        engine.start_at(TaskId(8), WorkerId(4), 2).unwrap_err(),
        EngineError::NotFound(TaskId(8))
    ));
}

#[test]
fn a_guard_that_completed_does_not_fail_its_task() {
    let mut engine = TaskEngine::new();
    engine.create_at(TaskId(1), 0, make_spec("a")).unwrap();
    let mut guard = engine.start_at(TaskId(1), WorkerId(3), 1).unwrap();
    guard.complete_at(&mut engine, DONE, 2);
    guard.release_at(&mut engine, 3);
    assert_eq!(status(&engine, 1), TaskStatus::Completed { result: DONE });
    assert_eq!(engine.get_task(TaskId(1)).unwrap().updated_at, 2);
}

#[test]
fn completing_an_unknown_task_changes_nothing() {
    let mut engine = TaskEngine::new();
    engine.complete_at(TaskId(1), DONE, 1);
    assert!(engine.get_task(TaskId(1)).is_none());
    assert_eq!(engine.take_events(), vec![]);
}

#[test]
fn completion_wakes_only_what_waits_for_nothing_else() {
    let mut engine = TaskEngine::new();
    for id in [1, 2] {
        engine.create_at(TaskId(id), 0, make_spec("dep")).unwrap();
    }
    engine.create_at(TaskId(3), 0, spec_on("one", vec![TaskId(1)])).unwrap();
    engine.create_at(TaskId(4), 0, spec_on("two", vec![TaskId(1), TaskId(2)])).unwrap();
    engine.create_at(TaskId(5), 0, spec_on("other", vec![TaskId(2)])).unwrap();
    engine.take_ready();
    engine.start_at(TaskId(1), WorkerId(1), 1).unwrap();
    engine.complete_at(TaskId(1), DONE, 2);
    assert_eq!(status(&engine, 3), TaskStatus::Ready);
    assert_eq!(status(&engine, 4), TaskStatus::Pending);
    assert_eq!(engine.get_task(TaskId(4)).unwrap().edge_in_degree, 1);
    assert_eq!(status(&engine, 5), TaskStatus::Pending);
    assert_eq!(engine.take_ready(), vec![TaskId(3)]);
}

#[test]
fn completing_a_preferred_task_leaves_a_waiting_one_alone() {
    let mut engine = TaskEngine::new();
    engine.create_at(TaskId(1), 0, make_spec("hard")).unwrap();
    engine.create_at(TaskId(2), 0, make_spec("soft")).unwrap();
    engine.create_at(TaskId(3), 0, spec_on("b", vec![TaskId(1)])).unwrap();
    engine.depends_on_at(TaskId(2), TaskId(3), EdgeKind::Preference, 1).unwrap();
    run(&mut engine, 2);
    assert_eq!(status(&engine, 3), TaskStatus::Pending);
    assert_eq!(degree(&engine, 3), 1);
    run(&mut engine, 1);
    assert_eq!(status(&engine, 3), TaskStatus::Ready);
}

#[test]
fn only_running_tasks_complete() {
    let mut engine = TaskEngine::new();
    engine.create_at(TaskId(1), 0, make_spec("a")).unwrap();
    engine.create_at(TaskId(2), 0, spec_on("b", vec![TaskId(1)])).unwrap();
    engine.take_events();
    engine.complete_at(TaskId(1), DONE, 1);
    engine.complete_at(TaskId(2), DONE, 1);
    assert_eq!(status(&engine, 1), TaskStatus::Ready);
    assert_eq!(status(&engine, 2), TaskStatus::Pending);
    assert_eq!(engine.take_events(), vec![]);
    run(&mut engine, 1);
    let failed = TaskResult::Failed { error_code: 1, output_ref: None };
    engine.complete_at(TaskId(1), failed, 5);
    assert_eq!(status(&engine, 1), TaskStatus::Completed { result: DONE });
}

#[test]
fn giving_up_the_guard_of_a_cancelled_task_leaves_it_cancelled() {
    let mut engine = TaskEngine::new();
    let id = engine.create(make_spec("test")).unwrap();
    let guard = engine.start(id, WorkerId(1)).unwrap();
    engine.cancel(id, 7).unwrap();
    guard.release(&mut engine);
    assert_eq!(engine.get_task(id).unwrap().status, TaskStatus::Cancelled { reason: 7 });
    assert_eq!((engine.stats().cancelled, engine.stats().completed), (1, 0));
}

#[test]
fn a_cancelled_task_still_counts_what_it_is_blocked_by() {
    let mut engine = TaskEngine::new();
    engine.create_at(TaskId(1), 0, make_spec("a")).unwrap();
    engine.create_at(TaskId(2), 0, make_spec("b")).unwrap();
    engine.create_at(TaskId(3), 0, spec_on("c", vec![TaskId(1), TaskId(2)])).unwrap();
    engine.cancel_at(TaskId(3), 1, 1).unwrap();
    assert_eq!(degree(&engine, 3), 2);
    run(&mut engine, 1);
    assert_eq!(degree(&engine, 3), 1);
    run(&mut engine, 2);
    assert_eq!(degree(&engine, 3), 0);
    assert_eq!(status(&engine, 3), TaskStatus::Cancelled { reason: 1 });
}

#[test]
fn reported_statuses_are_recorded() {
    let mut engine = TaskEngine::new();
    let a = engine.create(make_spec("a")).unwrap();
    let b = engine.create(spec_on("b", vec![a])).unwrap();
    let done = TaskStatus::Completed { result: TaskResult::Success { output_ref: 42 } };
    match engine.update_status(a, done).unwrap_err() {
        EngineError::InvalidTransition { id, from, attempted } => {
            assert_eq!((id, from, attempted), (a, TaskStatus::Ready, "complete"));
        }
        other => panic!("unexpected {:?}", other),
    }
    engine.update_status(a, TaskStatus::Running { worker_id: WorkerId(3) }).unwrap();
    assert_eq!(engine.stats().running, 1);
    engine.update_status(a, TaskStatus::Ready).unwrap();
    engine.update_status(a, done).unwrap();
    assert_eq!(engine.get_task(a).unwrap().status, done);
    assert_eq!((engine.stats().completed, engine.stats().ready), (1, 1));
    engine.update_status(b, TaskStatus::Cancelled { reason: 5 }).unwrap();
    assert_eq!(engine.get_task(b).unwrap().status, TaskStatus::Cancelled { reason: 5 });
    for status in [done, TaskStatus::Pending, TaskStatus::Running { worker_id: WorkerId(1) }] {
        let err = engine.update_status_at(TaskId(0), status, 1).unwrap_err();
        assert!(matches!(err, EngineError::NotFound(TaskId(0))));
    }
}

#[test]
fn cancelling_leaves_dependents_pending_and_ready_children_alone() {
    let mut engine = TaskEngine::new();
    engine.create_at(TaskId(1), 0, make_spec("root")).unwrap();
    engine.create_at(TaskId(2), 0, child_of(TaskId(1))).unwrap();
    engine.create_at(TaskId(3), 0, child_of(TaskId(1))).unwrap();
    engine.create_at(TaskId(4), 0, child_of(TaskId(2))).unwrap();
    engine.create_at(TaskId(5), 0, child_of(TaskId(3))).unwrap();
    engine.create_at(TaskId(6), 0, spec_on("waits", vec![TaskId(1)])).unwrap();
    for id in [2, 4, 5] {
        engine.start_at(TaskId(id), WorkerId(1), 1).unwrap();
    }
    engine.take_events();
    engine.cancel_at(TaskId(1), 42, 2).unwrap();
    let cancelled = TaskStatus::Cancelled { reason: 42 };
    assert_eq!(status(&engine, 1), cancelled);
    assert_eq!(status(&engine, 2), cancelled);
    assert_eq!(status(&engine, 4), cancelled);
    // A ready child is not taken along, nor what lies below it.
    assert_eq!(status(&engine, 3), TaskStatus::Ready);
    assert_eq!(status(&engine, 5), TaskStatus::Running { worker_id: WorkerId(1) });
    assert_eq!(status(&engine, 6), TaskStatus::Pending);
    let events = engine.take_events();
    assert_eq!(events.len(), 6);
    assert_eq!(events[0].0, TaskId(1));
    assert_eq!(events[1], (TaskId(1), cancelled, events[0].2 + 1));
    assert_eq!(engine.stats().cancelled, 3);
}

#[test]
fn a_cancelled_task_is_final() {
    let mut engine = TaskEngine::new();
    engine.create_at(TaskId(1), 0, make_spec("a")).unwrap();
    engine.cancel_at(TaskId(1), 3, 1).unwrap();
    let from = TaskStatus::Cancelled { reason: 3 };
    match engine.cancel_at(TaskId(1), 4, 2).unwrap_err() {
        EngineError::InvalidTransition { id, from: f, attempted } => {
            assert_eq!((id, f, attempted), (TaskId(1), from, "cancel"));
        }
        other => panic!("unexpected {:?}", other),
    }
    match engine.start_at(TaskId(1), WorkerId(1), 2).unwrap_err() {
        EngineError::InvalidTransition { id, from: f, attempted } => {
            assert_eq!((id, f, attempted), (TaskId(1), from, "start"));
        }
        other => panic!("unexpected {:?}", other),
    }
    engine.complete_at(TaskId(1), DONE, 3);
    assert_eq!(status(&engine, 1), from);
}

#[test]
fn a_new_blocking_edge_sends_a_ready_task_back() {
    let mut engine = TaskEngine::new();
    engine.create_at(TaskId(1), 0, make_spec("a")).unwrap();
    engine.create_at(TaskId(2), 0, make_spec("b")).unwrap();
    engine.take_events();
    let edge = engine.depends_on_at(TaskId(1), TaskId(2), EdgeKind::Blocking, 5).unwrap();
    assert_eq!(edge, EdgeId(2));
    let task = engine.get_task(TaskId(2)).unwrap();
    assert_eq!(task.status, TaskStatus::Pending);
    assert_eq!((task.edge_in_degree, task.updated_at, task.seq), (1, 5, 4));
    assert_eq!(
        engine.take_events(),
        vec![(TaskId(2), TaskStatus::Pending, 5), (TaskId(2), TaskStatus::Pending, 6)]
    );
    // Removing the edge by the id that was returned undoes this.
    engine.remove_dep_at(edge, 9).unwrap();
    assert!(engine.get_edge(TaskId(1), TaskId(2)).is_none());
    assert_eq!((status(&engine, 2), degree(&engine, 2)), (TaskStatus::Ready, 0));
    assert_eq!((engine.stats().ready, engine.stats().pending), (2, 0));
}

#[test]
fn edges_that_do_not_block_leave_the_task_ready() {
    let mut engine = TaskEngine::new();
    for id in 1..5 {
        engine.create_at(TaskId(id), 0, make_spec("t")).unwrap();
    }
    let artifact = EdgeKind::Artifact { artifact_type: 1, artifact_id: 2 };
    engine.depends_on_at(TaskId(1), TaskId(4), EdgeKind::Preference, 1).unwrap();
    engine.depends_on_at(TaskId(2), TaskId(4), artifact, 1).unwrap();
    engine.depends_on_at(TaskId(3), TaskId(4), EdgeKind::Parent, 1).unwrap();
    assert_eq!(status(&engine, 4), TaskStatus::Ready);
    assert_eq!(engine.get_edge(TaskId(2), TaskId(4)).unwrap().kind, artifact);
}

#[test]
fn the_counts_add_up_to_the_tasks() {
    let mut engine = TaskEngine::new();
    for id in 1..6 {
        engine.create_at(TaskId(id), 0, make_spec("t")).unwrap();
    }
    engine.create_at(TaskId(6), 0, spec_on("t", vec![TaskId(5)])).unwrap();
    run(&mut engine, 1);
    engine.start_at(TaskId(2), WorkerId(1), 1).unwrap();
    engine.cancel_at(TaskId(3), 0, 1).unwrap();
    let s = engine.stats();
    assert_eq!((s.pending, s.ready, s.running, s.completed, s.cancelled), (1, 2, 1, 1, 1));
    assert_eq!(s.pending + s.ready + s.running + s.completed + s.cancelled, 6);
}

#[test]
fn numbers_are_drawn_in_order() {
    let mut engine = TaskEngine::new();
    engine.create_at(TaskId(1), 0, make_spec("a")).unwrap();
    engine.create_at(TaskId(2), 0, spec_on("b", vec![TaskId(1)])).unwrap();
    engine.create_at(TaskId(3), 0, make_spec("c")).unwrap();
    let soft = engine.depends_on_at(TaskId(3), TaskId(2), EdgeKind::Preference, 1).unwrap();
    let first = engine.get_edge(TaskId(1), TaskId(2)).unwrap();
    let second = engine.get_edge(TaskId(3), TaskId(2)).unwrap();
    assert_eq!((first.id, first.seq), (EdgeId(2), 1));
    assert_eq!((second.id, second.seq), (EdgeId(4), 5));
    assert_eq!(soft, EdgeId(4));
    assert_eq!(
        engine.take_events(),
        vec![
            (TaskId(1), TaskStatus::Ready, 0),
            (TaskId(2), TaskStatus::Pending, 1),
            (TaskId(3), TaskStatus::Ready, 3),
        ]
    );
    assert_eq!(engine.take_ready(), vec![TaskId(1), TaskId(3)]);
}

#[test]
fn cycles_are_refused() {
    let mut engine = TaskEngine::new();
    for id in 1..5 {
        engine.create_at(TaskId(id), 0, make_spec("t")).unwrap();
    }
    match engine.depends_on_at(TaskId(1), TaskId(1), EdgeKind::Blocking, 1).unwrap_err() {
        EngineError::CycleDetected { path } => assert_eq!(path, vec![TaskId(1)]),
        other => panic!("unexpected {:?}", other),
    }
    engine.depends_on_at(TaskId(1), TaskId(2), EdgeKind::Blocking, 1).unwrap();
    engine.depends_on_at(TaskId(2), TaskId(3), EdgeKind::Blocking, 1).unwrap();
    match engine.depends_on_at(TaskId(3), TaskId(1), EdgeKind::Blocking, 1).unwrap_err() {
        EngineError::CycleDetected { path } => assert_eq!(path, vec![TaskId(3), TaskId(2), TaskId(1)]),
        other => panic!("unexpected {:?}", other),
    }
    assert!(engine.get_edge(TaskId(3), TaskId(1)).is_none());
    // A shortcut is no cycle.
    engine.depends_on_at(TaskId(1), TaskId(3), EdgeKind::Blocking, 1).unwrap();
    assert_eq!(degree(&engine, 3), 2);
    engine.depends_on_at(TaskId(3), TaskId(1), EdgeKind::Preference, 1).unwrap();
    assert!(matches!(
        engine.depends_on_at(TaskId(9), TaskId(1), EdgeKind::Blocking, 1).unwrap_err(),
        EngineError::NotFound(TaskId(9))
    ));
}

#[test]
fn tasks_that_wait_for_the_same_task_can_be_ordered() {
    let mut engine = TaskEngine::new();
    let a = engine.create(make_spec("a")).unwrap();
    let b = engine.create(spec_on("b", vec![a])).unwrap();
    let c = engine.create(spec_on("c", vec![a])).unwrap();
    engine.depends_on(b, c, EdgeKind::Blocking).unwrap();
    let task = engine.get_task(c).unwrap();
    assert_eq!((task.status, task.edge_in_degree), (TaskStatus::Pending, 2));
}

#[test]
fn cycles_through_satisfied_edges_are_refused() {
    let mut engine = TaskEngine::new();
    engine.create_at(TaskId(1), 0, make_spec("a")).unwrap();
    engine.create_at(TaskId(2), 0, spec_on("b", vec![TaskId(1)])).unwrap();
    run(&mut engine, 1);
    let err = engine.depends_on_at(TaskId(2), TaskId(1), EdgeKind::Blocking, 3).unwrap_err();
    assert!(matches!(err, EngineError::CycleDetected { .. }));
}

#[test]
fn a_task_can_wait_for_its_child() {
    let mut engine = TaskEngine::new();
    let p = engine.create(make_spec("p")).unwrap();
    let c = engine.create(child_of(p)).unwrap();
    engine.depends_on(c, p, EdgeKind::Blocking).unwrap();
    let parent = engine.get_task(p).unwrap();
    assert_eq!((parent.status, parent.edge_in_degree), (TaskStatus::Pending, 1));
    assert_eq!(engine.get_task(c).unwrap().status, TaskStatus::Ready);
}

#[test]
fn a_new_blocking_edge_stops_a_running_task() {
    let mut engine = TaskEngine::new();
    engine.create_at(TaskId(1), 0, make_spec("a")).unwrap();
    engine.create_at(TaskId(2), 0, make_spec("b")).unwrap();
    let mut guard = engine.start_at(TaskId(2), WorkerId(1), 1).unwrap();
    let edge = engine.depends_on_at(TaskId(1), TaskId(2), EdgeKind::Blocking, 2).unwrap();
    assert_eq!((status(&engine, 2), degree(&engine, 2)), (TaskStatus::Pending, 1));
    guard.complete_at(&mut engine, DONE, 3);
    assert_eq!(status(&engine, 2), TaskStatus::Pending);
    engine.remove_dep_at(edge, 4).unwrap();
    assert_eq!(status(&engine, 2), TaskStatus::Ready);
    // A task that has completed stays so.
    run(&mut engine, 2);
    engine.depends_on_at(TaskId(1), TaskId(2), EdgeKind::Blocking, 5).unwrap();
    assert_eq!((status(&engine, 2), degree(&engine, 2)), (TaskStatus::Completed { result: DONE }, 0));
}

#[test]
fn removing_one_of_two_edges_lowers_the_degree() {
    let mut engine = TaskEngine::new();
    let a = engine.create(make_spec("a")).unwrap();
    let b = engine.create(make_spec("b")).unwrap();
    let c = engine.create(make_spec("c")).unwrap();
    let first = engine.depends_on(a, c, EdgeKind::Blocking).unwrap();
    let second = engine.depends_on(b, c, EdgeKind::Blocking).unwrap();
    engine.remove_dep(first).unwrap();
    let task = engine.get_task(c).unwrap();
    assert_eq!((task.status, task.edge_in_degree), (TaskStatus::Pending, 1));
    engine.remove_dep(second).unwrap();
    let task = engine.get_task(c).unwrap();
    assert_eq!((task.status, task.edge_in_degree), (TaskStatus::Ready, 0));
}

#[test]
fn removing_an_unknown_edge_names_it() {
    let mut engine = TaskEngine::new();
    let err = engine.remove_dep_at(EdgeId(77), 1).unwrap_err();
    assert!(matches!(err, EngineError::NotFound(TaskId(77))));
}

#[test]
fn a_shutdown_refuses_new_work_and_lets_running_tasks_finish() {
    let mut engine = TaskEngine::new();
    engine.create_at(TaskId(1), 0, make_spec("a")).unwrap();
    engine.create_at(TaskId(2), 0, spec_on("b", vec![TaskId(1)])).unwrap();
    let mut guard = engine.start_at(TaskId(1), WorkerId(1), 1).unwrap();
    assert!(!engine.is_shutting_down());
    engine.shutdown().unwrap();
    assert!(engine.is_shutting_down());
    assert!(matches!(engine.create(make_spec("c")).unwrap_err(), EngineError::EngineShuttingDown));
    assert!(matches!(
        engine.start(TaskId(2), WorkerId(1)).unwrap_err(),
        EngineError::EngineShuttingDown
    ));
    assert!(matches!(engine.cancel(TaskId(1), 1).unwrap_err(), EngineError::EngineShuttingDown));
    assert!(matches!(
        engine.depends_on(TaskId(1), TaskId(2), EdgeKind::Blocking).unwrap_err(),
        EngineError::EngineShuttingDown
    ));
    guard.complete(&mut engine, DONE);
    assert_eq!(status(&engine, 1), TaskStatus::Completed { result: DONE });
    assert_eq!(status(&engine, 2), TaskStatus::Ready);
}

#[test]
fn the_counters_follow_every_change() {
    let mut engine = TaskEngine::new();
    engine.create_at(TaskId(1), 0, make_spec("a")).unwrap();
    engine.create_at(TaskId(2), 0, spec_on("b", vec![TaskId(1)])).unwrap();
    engine.create_at(TaskId(3), 0, make_spec("c")).unwrap();
    engine.start_at(TaskId(1), WorkerId(1), 1).unwrap();
    let s = engine.stats();
    assert_eq!((s.pending, s.ready, s.running, s.completed, s.cancelled), (1, 1, 1, 0, 0));
    engine.complete_at(TaskId(1), DONE, 2);
    engine.cancel_at(TaskId(3), 1, 3).unwrap();
    let s = engine.stats();
    assert_eq!((s.pending, s.ready, s.running, s.completed, s.cancelled), (0, 1, 0, 1, 1));
}

#[test]
fn a_parent_that_is_also_a_dependency_keeps_one_edge() {
    let mut engine = TaskEngine::new();
    let spec = || TaskSpec {
        parent: Some(TaskId(1)),
        ..spec_on("b", vec![TaskId(1)])
    };
    engine.create_at(TaskId(1), 0, make_spec("a")).unwrap();
    engine.create_at(TaskId(2), 0, spec()).unwrap();
    assert_eq!(engine.get_edge(TaskId(1), TaskId(2)).unwrap().kind, EdgeKind::Blocking);
    assert_eq!(engine.get_task(TaskId(1)).unwrap().child_count, 1);
    assert_eq!(status(&engine, 2), TaskStatus::Pending);
    run(&mut engine, 1);
    assert_eq!(status(&engine, 2), TaskStatus::Ready);
    // Such a task is cancelled along with its parent.
    let mut engine = TaskEngine::new();
    engine.create_at(TaskId(1), 0, make_spec("a")).unwrap();
    engine.create_at(TaskId(2), 0, spec()).unwrap();
    engine.cancel_at(TaskId(1), 3, 1).unwrap();
    assert_eq!(status(&engine, 2), TaskStatus::Cancelled { reason: 3 });
}

#[test]
fn a_chain_of_tasks_runs_through() {
    let mut engine = TaskEngine::new();
    engine.create_at(TaskId(0), 0, make_spec("t")).unwrap();
    for id in 1..50 {
        engine.create_at(TaskId(id), 0, spec_on("t", vec![TaskId(id - 1)])).unwrap();
    }
    for id in 0..50 {
        assert_eq!(engine.take_ready(), vec![TaskId(id)]);
        let mut guard = engine.start(TaskId(id), WorkerId(1)).unwrap();
        guard.complete(&mut engine, DONE);
    }
    assert_eq!(engine.stats().completed, 50);
}

#[test]
fn a_spec_with_too_many_dependencies_is_recognised() {
    let engine = TaskEngine::new();
    let many = |n: u128| spec_on("b", (0..n).map(TaskId).collect());
    assert!(engine.can_create(&many(65535)));
    assert!(!engine.can_create(&many(65536)));
    // A dependency that is listed more than once counts once.
    assert!(engine.can_create(&spec_on("b", vec![TaskId(1); 65536])));
}

#[test]
fn the_default_configuration() {
    let c = EngineConfig::default();
    assert_eq!(c.data_dir, ".");
    assert_eq!(c.journal_max_segment_bytes, 64 * 1024 * 1024);
    assert_eq!(c.snapshot_interval_records, 10_000);
    assert_eq!(c.shutdown_timeout_secs, 30);
    assert_eq!(c.uds_path, "/tmp/tasker.sock");
    assert_eq!(c.tcp_addr, "0.0.0.0:7878");
    assert_eq!(c.heartbeat_timeout_secs, 30);
    assert_eq!(c.clone().uds_path, c.uds_path);
}

#[test]
fn clock_readings_are_clamped() {
    assert_eq!(tasker::clock::clamp_millis(5), 5);
    assert_eq!(tasker::clock::clamp_millis(u64::MAX as u128), u64::MAX);
    assert_eq!(tasker::clock::clamp_millis(u64::MAX as u128 + 1), u64::MAX);
}

#[test]
fn test_status_report_via_direct_api() {
    let mut engine = TaskEngine::new();
    let id = engine.create(make_spec("test")).unwrap();
    let _guard = engine.start(id, WorkerId(1)).unwrap();
    engine
        .update_status(
            id,
            TaskStatus::Completed {
                result: TaskResult::Success { output_ref: 42 },
            },
        )
        .unwrap();
    let stats = engine.stats();
    assert_eq!(stats.completed, 1);
}

#[test]
fn test_dispatch_unblocks_dependent_via_status_report() {
    let mut engine = TaskEngine::new();
    let a = engine.create(make_spec("a")).unwrap();
    let _b = engine
        .create(TaskSpec {
            blocking_on: vec![a],
            ..make_spec("b")
        })
        .unwrap();
    let _guard = engine.start(a, WorkerId(1)).unwrap();
    engine
        .update_status(
            a,
            TaskStatus::Completed {
                result: TaskResult::Success { output_ref: 1 },
            },
        )
        .unwrap();
    let stats = engine.stats();
    assert!(stats.ready > 0 || stats.completed >= 1);
    assert_eq!((stats.ready, stats.completed), (1, 1));
}

#[test]
fn a_removed_parent_edge_does_not_come_back_with_a_dependency() {
    let mut engine = TaskEngine::new();
    let p = engine.create(make_spec("p")).unwrap();
    let c = engine.create(child_of(p)).unwrap();
    let edge = engine.get_edge(p, c).unwrap();
    assert_eq!(edge.kind, EdgeKind::Parent);
    engine.remove_dep(edge.id).unwrap();
    engine.depends_on(p, c, EdgeKind::Blocking).unwrap();
    assert_eq!(engine.get_task(c).unwrap().status, TaskStatus::Pending);
    engine.cancel(p, 42).unwrap();
    assert_eq!(engine.get_task(p).unwrap().status, TaskStatus::Cancelled { reason: 42 });
    assert_eq!(engine.get_task(c).unwrap().status, TaskStatus::Pending);
}

#[test]
fn soft_edges_take_nobody_along() {
    for kind in [
        EdgeKind::Preference,
        EdgeKind::Artifact {
            artifact_type: 1,
            artifact_id: 2,
        },
    ] {
        let mut engine = TaskEngine::new();
        engine.create_at(TaskId(1), 0, make_spec("p")).unwrap();
        engine.create_at(TaskId(2), 0, child_of(TaskId(1))).unwrap();
        let edge = engine.get_edge(TaskId(1), TaskId(2)).unwrap();
        engine.remove_dep_at(edge.id, 1).unwrap();
        engine.depends_on_at(TaskId(1), TaskId(2), kind, 2).unwrap();
        let _guard = engine.start_at(TaskId(2), WorkerId(1), 3).unwrap();
        engine.cancel_at(TaskId(1), 42, 4).unwrap();
        assert_eq!(status(&engine, 2), TaskStatus::Running { worker_id: WorkerId(1) });
    }
}

#[test]
fn removing_an_edge_for_two_relations_ends_both() {
    let mut engine = TaskEngine::new();
    engine.create_at(TaskId(1), 0, make_spec("a")).unwrap();
    engine
        .create_at(
            TaskId(2),
            0,
            TaskSpec {
                parent: Some(TaskId(1)),
                ..spec_on("b", vec![TaskId(1)])
            },
        )
        .unwrap();
    let edge = engine.get_edge(TaskId(1), TaskId(2)).unwrap();
    engine.remove_dep_at(edge.id, 1).unwrap();
    assert_eq!(status(&engine, 2), TaskStatus::Ready);
    engine.depends_on_at(TaskId(1), TaskId(2), EdgeKind::Blocking, 2).unwrap();
    assert_eq!(status(&engine, 2), TaskStatus::Pending);
    engine.cancel_at(TaskId(1), 3, 3).unwrap();
    assert_eq!(status(&engine, 2), TaskStatus::Pending);
    // A parent edge takes the task along again.
    let mut engine = TaskEngine::new();
    engine.create_at(TaskId(1), 0, make_spec("a")).unwrap();
    engine.create_at(TaskId(2), 0, make_spec("b")).unwrap();
    engine.depends_on_at(TaskId(1), TaskId(2), EdgeKind::Parent, 1).unwrap();
    let _guard = engine.start_at(TaskId(2), WorkerId(1), 2).unwrap();
    engine.cancel_at(TaskId(1), 3, 3).unwrap();
    assert_eq!(status(&engine, 2), TaskStatus::Cancelled { reason: 3 });
}

#[test]
fn a_guard_from_an_earlier_start_has_no_effect() {
    let mut engine = TaskEngine::new();
    engine.create_at(TaskId(1), 0, make_spec("a")).unwrap();
    engine.create_at(TaskId(2), 0, make_spec("b")).unwrap();
    let mut completes = engine.start_at(TaskId(2), WorkerId(7), 1).unwrap();
    // A dependency takes the task from its worker; another worker gets it later.
    engine.depends_on_at(TaskId(1), TaskId(2), EdgeKind::Blocking, 2).unwrap();
    assert_eq!(status(&engine, 2), TaskStatus::Pending);
    run(&mut engine, 1);
    let mut holder = engine.start_at(TaskId(2), WorkerId(8), 4).unwrap();
    let running = TaskStatus::Running { worker_id: WorkerId(8) };
    completes.complete_at(&mut engine, DONE, 5);
    assert_eq!(status(&engine, 2), running);
    completes.release_at(&mut engine, 6);
    assert_eq!(status(&engine, 2), running);
    holder.complete(&mut engine, DONE);
    assert_eq!(status(&engine, 2), TaskStatus::Completed { result: DONE });
}

#[test]
fn giving_up_a_guard_from_an_earlier_start_has_no_effect() {
    let mut engine = TaskEngine::new();
    engine.create_at(TaskId(1), 0, make_spec("a")).unwrap();
    engine.create_at(TaskId(2), 0, make_spec("b")).unwrap();
    let early = engine.start_at(TaskId(2), WorkerId(7), 1).unwrap();
    engine.depends_on_at(TaskId(1), TaskId(2), EdgeKind::Blocking, 2).unwrap();
    run(&mut engine, 1);
    let holder = engine.start_at(TaskId(2), WorkerId(8), 4).unwrap();
    early.release(&mut engine);
    assert_eq!(status(&engine, 2), TaskStatus::Running { worker_id: WorkerId(8) });
    holder.release(&mut engine);
    assert_eq!(
        status(&engine, 2),
        TaskStatus::Completed {
            result: TaskResult::Failed {
                error_code: 0,
                output_ref: None,
            },
        }
    );
}
