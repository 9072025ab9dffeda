use tasker::journal::{
    encode_record, header_bytes, latest_segment, max_seq, purge_segments, read_journal, read_segment, segment_id,
    segment_ids, segment_name, JournalRecord, JournalWriter, SegmentEnd,
};
use tasker::snapshot::{read_snapshot, snapshot_fits, write_snapshot, SnapshotError};
use tasker::types::{
    Dependency, EdgeId, EdgeKind, Priority, Task, TaskId, TaskResult, TaskSpec, TaskStatus, WorkerId,
};

fn make_spec(task_type: &str) -> TaskSpec {
    TaskSpec {
        task_type: task_type.to_string(),
        payload: vec![],
        priority: Priority(0),
        parent: None,
        blocking_on: vec![],
        metadata: vec![],
    }
}

/// A journal held in memory: the segments by number, and the writer.
struct Files {
    writer: JournalWriter,
    segments: Vec<Vec<u8>>,
}

impl Files {
    fn new(max_segment_bytes: u64) -> Files {
        Files {
            writer: JournalWriter::new(max_segment_bytes),
            segments: vec![header_bytes()],
        }
    }

    fn append(&mut self, record: &JournalRecord) {
        let write = self.writer.append(&to_bytes(record));
        self.segments.last_mut().unwrap().extend(write.record);
        if write.rotate {
            self.segments.push(header_bytes());
        }
    }

    fn read(&self) -> (Vec<JournalRecord>, u64) {
        let read = read_journal(&self.segments);
        assert!(!read.truncated);
        let records: Vec<JournalRecord> = read.payloads.iter().map(|p| from_bytes(p)).collect();
        let max = max_seq(&records);
        (records, max)
    }

    fn names(&self) -> Vec<String> {
        (1..self.segments.len() as u32 + 1).map(segment_name).collect()
    }
}

/// Records of tasks and edges as payloads. The id of an edge comes after its
/// snapshot, which does not hold it.
fn to_bytes(record: &JournalRecord) -> Vec<u8> {
    match record {
        JournalRecord::TaskCreated { seq, task } => write_snapshot(*seq, &[task.clone()], &[]),
        JournalRecord::EdgeCreated { seq, edge } => {
            let mut bytes = write_snapshot(*seq, &[], &[edge.clone()]);
            bytes.extend(edge.id.0.to_le_bytes());
            bytes
        }
        other => panic!("unexpected {:?}", other),
    }
}

fn from_bytes(payload: &[u8]) -> JournalRecord {
    let mut data = read_snapshot(payload).unwrap();
    match data.tasks.pop() {
        Some(task) => JournalRecord::TaskCreated { seq: data.seq, task },
        None => {
            let id = u64::from_le_bytes(payload[payload.len() - 8..].try_into().unwrap());
            JournalRecord::EdgeCreated {
                seq: data.seq,
                edge: Dependency { id: EdgeId(id), ..data.edges.pop().unwrap() },
            }
        }
    }
}

#[test]
fn test_journal_write_and_read() {
    let mut writer = Files::new(1024 * 1024);

    let task = Task {
        id: TaskId(42),
        spec: make_spec("test"),
        status: TaskStatus::Ready,
        created_at: 1000,
        updated_at: 1000,
        seq: 1,
        child_count: 0,
        edge_in_degree: 0,
    };

    writer.append(&JournalRecord::TaskCreated {
        seq: 1,
        task: task.clone(),
    });

    let edge = Dependency {
        id: EdgeId(100),
        from: TaskId(1),
        to: TaskId(2),
        kind: EdgeKind::Blocking,
        seq: 2,
    };

    writer.append(&JournalRecord::EdgeCreated {
        seq: 2,
        edge: edge.clone(),
    });

    let (records, max_seq) = writer.read();
    assert_eq!(records.len(), 2);
    assert_eq!(max_seq, 2);

    match &records[0] {
        JournalRecord::TaskCreated { task: t, .. } => {
            assert_eq!(t.id, TaskId(42));
            assert!(matches!(t.status, TaskStatus::Ready));
        }
        _ => panic!("expected TaskCreated"),
    }

    match &records[1] {
        JournalRecord::EdgeCreated { edge: e, .. } => {
            assert_eq!(e.id, EdgeId(100));
            assert!(matches!(e.kind, EdgeKind::Blocking));
        }
        _ => panic!("expected EdgeCreated"),
    }
}

#[test]
fn test_snapshot_roundtrip() {
    let tasks = vec![
        Task {
            id: TaskId(1),
            spec: make_spec("root"),
            status: TaskStatus::Completed {
                result: TaskResult::Success { output_ref: 42 },
            },
            created_at: 1000,
            updated_at: 2000,
            seq: 5,
            child_count: 1,
            edge_in_degree: 0,
        },
        Task {
            id: TaskId(2),
            spec: TaskSpec {
                task_type: "child".into(),
                payload: b"hello".to_vec(),
                priority: Priority(1),
                parent: Some(TaskId(1)),
                blocking_on: vec![],
                metadata: vec![("key".into(), b"val".to_vec())],
            },
            status: TaskStatus::Ready,
            created_at: 1500,
            updated_at: 1500,
            seq: 3,
            child_count: 0,
            edge_in_degree: 0,
        },
    ];

    let edges = vec![Dependency {
        id: EdgeId(10),
        from: TaskId(1),
        to: TaskId(2),
        kind: EdgeKind::Parent,
        seq: 4,
    }];

    let bytes = write_snapshot(10, &tasks, &edges);

    let data = read_snapshot(&bytes).unwrap();
    assert_eq!(data.seq, 10);
    assert_eq!(data.tasks.len(), 2);
    assert_eq!(data.edges.len(), 1);

    assert_eq!(data.tasks[0].id, TaskId(1));
    assert!(matches!(
        data.tasks[0].status,
        TaskStatus::Completed {
            result: TaskResult::Success { output_ref: 42 }
        }
    ));

    assert_eq!(data.tasks[1].id, TaskId(2));
    assert_eq!(data.tasks[1].spec.task_type, "child");
    assert_eq!(data.tasks[1].spec.payload, b"hello");
    assert_eq!(data.tasks[1].spec.priority, Priority(1));
    assert_eq!(data.tasks[1].spec.parent, Some(TaskId(1)));
    assert_eq!(data.tasks[1].spec.metadata.len(), 1);
    assert_eq!(data.tasks[1].spec.metadata[0].0, "key");
    assert_eq!(data.tasks[1].spec.metadata[0].1, b"val");

    assert_eq!(data.edges[0].kind, EdgeKind::Parent);
    assert_eq!(data.edges[0].from, TaskId(1));
    assert_eq!(data.edges[0].to, TaskId(2));
}

#[test]
fn test_snapshot_with_running_and_cancelled() {
    let tasks = vec![
        Task {
            id: TaskId(1),
            spec: make_spec("running"),
            status: TaskStatus::Running {
                worker_id: WorkerId(42),
            },
            created_at: 100,
            updated_at: 200,
            seq: 1,
            child_count: 0,
            edge_in_degree: 0,
        },
        Task {
            id: TaskId(2),
            spec: make_spec("cancelled"),
            status: TaskStatus::Cancelled { reason: 99 },
            created_at: 100,
            updated_at: 200,
            seq: 2,
            child_count: 0,
            edge_in_degree: 0,
        },
        Task {
            id: TaskId(3),
            spec: make_spec("failed"),
            status: TaskStatus::Completed {
                result: TaskResult::Failed {
                    error_code: 5,
                    output_ref: Some(12345678901234567890),
                },
            },
            created_at: 100,
            updated_at: 200,
            seq: 3,
            child_count: 0,
            edge_in_degree: 0,
        },
    ];

    let bytes = write_snapshot(5, &tasks, &[]);
    let data = read_snapshot(&bytes).unwrap();

    assert!(matches!(
        data.tasks[0].status,
        TaskStatus::Running {
            worker_id: WorkerId(42)
        }
    ));
    assert!(matches!(
        data.tasks[1].status,
        TaskStatus::Cancelled { reason: 99 }
    ));
    assert!(matches!(
        data.tasks[2].status,
        TaskStatus::Completed {
            result: TaskResult::Failed {
                error_code: 5,
                output_ref: Some(12345678901234567890)
            }
        }
    ));
}

fn numbered_task(i: u64) -> Task {
    Task {
        id: TaskId(i as u128),
        spec: make_spec(&format!("task_{}", i)),
        status: TaskStatus::Ready,
        created_at: i * 100,
        updated_at: i * 100,
        seq: i,
        child_count: 0,
        edge_in_degree: 0,
    }
}

#[test]
fn test_journal_segment_rotation() {
    // Very small segment size to force rotation.
    let mut writer = Files::new(64);

    for i in 0..20 {
        writer.append(&JournalRecord::TaskCreated {
            seq: i,
            task: numbered_task(i),
        });
    }

    // Should have multiple segment files.
    let count = writer.names().iter().filter(|n| n.starts_with("journal-")).count();
    assert!(count > 1, "expected multiple segments, got {}", count);

    // All records should be readable.
    let (records, _) = writer.read();
    assert_eq!(records.len(), 20);
}

#[test]
fn test_journal_purge_segments() {
    let mut writer = Files::new(64);

    for i in 0..30 {
        writer.append(&JournalRecord::TaskCreated {
            seq: i,
            task: numbered_task(i),
        });
    }

    // Purge segments older than 5.
    let names = writer.names();
    let purged = purge_segments(&names, 5);
    let remaining: Vec<&String> = names.iter().filter(|n| !purged.contains(n)).collect();

    assert!(!remaining.is_empty());
    for name in remaining {
        let id: u32 = name
            .strip_prefix("journal-")
            .unwrap()
            .strip_suffix(".log")
            .unwrap()
            .parse()
            .unwrap();
        assert!(id >= 5, "segment {} should have been purged", id);
    }
}

#[test]
fn segment_names_and_numbers() {
    assert_eq!(segment_name(1), "journal-000001.log");
    assert_eq!(segment_name(1234567), "journal-1234567.log");
    assert_eq!(segment_name(0), "journal-000000.log");
    for id in [0, 1, 42, 999_999, 1_000_000, u32::MAX] {
        assert_eq!(segment_id(&segment_name(id)), Some(id));
    }
    assert_eq!(segment_id("journal-7.log"), Some(7));
    assert_eq!(segment_id("journal-+7.log"), Some(7));
    assert_eq!(segment_id("journal-4294967296.log"), None);
    assert_eq!(segment_id("journal-.log"), None);
    assert_eq!(segment_id("journal-+.log"), None);
    assert_eq!(segment_id("journal-7.tmp"), None);
    assert_eq!(segment_id("journal--7.log"), None);
    assert_eq!(segment_id("snapshot-000001.tsk"), None);
    assert_eq!(segment_id("journal-7\u{e9}.log"), None);
    assert_eq!(segment_id(""), None);
}

#[test]
fn segments_are_sorted_by_number() {
    let names: Vec<String> = ["journal-000010.log", "x", "journal-2.log", "journal-000002.log", "journal-000001.log"]
        .iter()
        .map(|s| s.to_string())
        .collect();
    assert_eq!(segment_ids(&names), vec![1, 2, 2, 10]);
    assert_eq!(latest_segment(&names), Some(10));
    assert_eq!(latest_segment(&vec!["x".to_string()]), None);
    assert_eq!(purge_segments(&names, 3), vec!["journal-2.log", "journal-000002.log", "journal-000001.log"]);
}

#[test]
fn a_record_is_checksum_length_and_payload() {
    // The CRC-32 of "123456789" is 0xcbf43926.
    let record = encode_record(b"123456789");
    assert_eq!(record[..8], [0x26, 0x39, 0xf4, 0xcb, 9, 0, 0, 0]);
    assert_eq!(&record[8..], b"123456789");
    assert_eq!(header_bytes(), b"JLOG\x01");
}

#[test]
fn the_writer_counts_bytes_and_rotates_when_full() {
    let mut w = JournalWriter::new(30);
    assert_eq!((w.current_segment, w.current_bytes), (1, 5));
    assert!(!w.append(&[0; 4]).rotate);
    assert_eq!((w.current_segment, w.current_bytes), (1, 17));
    // 17 + 8 + 5 reaches the limit.
    assert!(w.append(&[0; 5]).rotate);
    assert_eq!((w.current_segment, w.current_bytes), (2, 5));
    w.rotate();
    assert_eq!((w.current_segment, w.current_bytes), (3, 5));
    let resumed = JournalWriter::open_or_create(Some((7, 100)), 30);
    assert_eq!((resumed.current_segment, resumed.current_bytes, resumed.max_segment_bytes), (7, 100, 30));
    assert_eq!(JournalWriter::open_or_create(None, 30), JournalWriter::new(30));
}

#[test]
fn damaged_segments() {
    let mut good = header_bytes();
    good.extend(encode_record(b"one"));
    good.extend(encode_record(b"two"));
    assert_eq!(read_segment(&good).payloads, vec![b"one".to_vec(), b"two".to_vec()]);
    assert_eq!(read_segment(&good).end, SegmentEnd::Clean);
    // Cut within the checksum of a record: the record is as if never begun.
    let read = read_segment(&good[..good.len() - 8]);
    assert_eq!((read.payloads.len(), read.end), (1, SegmentEnd::Clean));
    // Cut within the length or the payload.
    let read = read_segment(&good[..good.len() - 5]);
    assert_eq!((read.payloads.len(), read.end), (1, SegmentEnd::Truncated));
    let read = read_segment(&good[..good.len() - 1]);
    assert_eq!((read.payloads.len(), read.end), (1, SegmentEnd::Truncated));
    // A flipped bit stops the reading of the segment.
    let mut bad = good.clone();
    bad[13] ^= 1;
    let read = read_segment(&bad);
    assert_eq!((read.payloads.len(), read.end), (0, SegmentEnd::Corrupt));
    // Headers.
    assert_eq!(read_segment(b"JLO").end, SegmentEnd::Truncated);
    assert_eq!(read_segment(b"JLOG").end, SegmentEnd::Truncated);
    assert_eq!(read_segment(b"XLOG").end, SegmentEnd::Foreign);
    assert_eq!(read_segment(b"JLOG\x02").end, SegmentEnd::Foreign);
    // A corrupt or foreign segment does not keep later ones from being read.
    let read = read_journal(&vec![bad, b"XLOG".to_vec(), good.clone()]);
    assert_eq!((read.payloads.len(), read.truncated), (2, false));
    let read = read_journal(&vec![good.clone(), good[..good.len() - 1].to_vec(), good]);
    assert_eq!((read.payloads.len(), read.truncated), (3, true));
}

#[test]
fn sequence_numbers_of_records() {
    assert_eq!(max_seq(&vec![]), 0);
    let records = vec![
        JournalRecord::SnapshotTaken { seq: 3 },
        JournalRecord::EdgeRemoved { seq: 9, edge_id: EdgeId(1) },
        JournalRecord::TaskStatusChanged {
            seq: 4,
            id: TaskId(1),
            from: TaskStatus::Ready,
            to: TaskStatus::Pending,
        },
    ];
    assert_eq!(max_seq(&records), 9);
}

#[test]
fn snapshot_bytes_of_a_task() {
    let task = Task {
        id: TaskId(0x0102),
        spec: TaskSpec {
            task_type: "ab".into(),
            payload: vec![9],
            priority: Priority(-1),
            parent: None,
            blocking_on: vec![TaskId(3)],
            metadata: vec![],
        },
        status: TaskStatus::Cancelled { reason: 7 },
        created_at: 1,
        updated_at: 2,
        seq: 3,
        child_count: 4,
        edge_in_degree: 5,
    };
    let bytes = write_snapshot(6, &[task], &[]);
    let mut expected = b"TSK1".to_vec();
    expected.extend([6, 0, 0, 0, 0, 0, 0, 0, 1, 0, 0, 0, 0, 0, 0, 0]);
    expected.extend([2, 1, 0, 0, 0, 0, 0, 0, 0, 0, 0, 0, 0, 0, 0, 0]);
    expected.extend([2, 0, b'a', b'b', 1, 0, 0, 0, 9, 5, 4, 0, 7, 0, 0, 0, 0xff]);
    expected.extend([1, 0, 0, 0, 0, 0, 0, 0, 2, 0, 0, 0, 0, 0, 0, 0, 3, 0, 0, 0, 0, 0, 0, 0]);
    expected.extend([4, 0, 5, 0, 0, 0, 0]);
    expected.extend(crc32fast::hash(&expected).to_le_bytes());
    assert_eq!(bytes, expected);
    // What a task is blocked on is not written.
    let back = read_snapshot(&bytes).unwrap();
    assert_eq!(back.tasks[0].spec.blocking_on, vec![]);
    assert_eq!(back.tasks[0].spec.priority, Priority(-1));
    assert_eq!(back.tasks[0].edge_in_degree, 5);
}

#[test]
fn an_empty_snapshot_is_a_header_and_a_checksum() {
    let bytes = write_snapshot(10, &[], &[]);
    let mut expected = b"TSK1".to_vec();
    expected.extend([10, 0, 0, 0, 0, 0, 0, 0, 0, 0, 0, 0, 0, 0, 0, 0]);
    expected.extend(crc32fast::hash(&expected).to_le_bytes());
    assert_eq!(bytes.len(), 24);
    assert_eq!(bytes, expected);
    assert_eq!(read_snapshot(&bytes).unwrap().seq, 10);
}

#[test]
fn every_status_and_every_kind_is_read_back() {
    let statuses = [
        TaskStatus::Pending,
        TaskStatus::Ready,
        TaskStatus::Running { worker_id: WorkerId(u64::MAX) },
        TaskStatus::Completed { result: TaskResult::Success { output_ref: u128::MAX - 1 } },
        TaskStatus::Completed { result: TaskResult::Failed { error_code: 8, output_ref: None } },
        TaskStatus::Completed { result: TaskResult::Failed { error_code: 8, output_ref: Some(1 << 100) } },
        TaskStatus::Cancelled { reason: u32::MAX },
    ];
    let tasks: Vec<Task> = statuses
        .iter()
        .map(|s| Task { status: *s, ..numbered_task(1) })
        .collect();
    let kinds = [
        EdgeKind::Blocking,
        EdgeKind::Preference,
        EdgeKind::Artifact { artifact_type: 5, artifact_id: 1 << 90 },
        EdgeKind::Parent,
    ];
    let edges: Vec<Dependency> = kinds
        .iter()
        .map(|k| Dependency { id: EdgeId(1), from: TaskId(1 << 70), to: TaskId(2), kind: *k, seq: 17 })
        .collect();
    let mut bytes = write_snapshot(1, &tasks, &edges);
    bytes.push(0xaa);
    let data = read_snapshot(&bytes).unwrap();
    for (task, status) in data.tasks.iter().zip(statuses) {
        assert_eq!(task.status, status);
    }
    for (edge, kind) in data.edges.iter().zip(kinds) {
        assert_eq!(edge.kind, kind);
        assert_eq!(edge.from, TaskId(1 << 70));
        // The sequence number stands for the id.
        assert_eq!(edge.id, EdgeId(17));
    }
}

#[test]
fn bytes_that_are_not_a_snapshot() {
    let bytes = write_snapshot(1, &[numbered_task(1)], &[]);
    for n in 0..bytes.len() {
        assert_eq!(read_snapshot(&bytes[..n]).unwrap_err(), SnapshotError::Truncated);
    }
    assert_eq!(read_snapshot(b"TSK2\x01").unwrap_err(), SnapshotError::InvalidMagic);
    // A changed number is noticed by the checksum.
    let mut bad = bytes.clone();
    bad[4] = 9;
    assert_eq!(read_snapshot(&bad).unwrap_err(), SnapshotError::ChecksumMismatch);
    // The header takes up 20 bytes, the id 16, then comes the type "task_1".
    let mut bad = bytes.clone();
    bad[38] = 0xff;
    assert_eq!(read_snapshot(&bad).unwrap_err(), SnapshotError::InvalidText);
    // The status tag comes after the type and the empty payload.
    let mut bad = bytes.clone();
    bad[48] = 6;
    assert_eq!(read_snapshot(&bad).unwrap_err(), SnapshotError::UnknownStatusTag(6));
    bad[48] = 2;
    assert_eq!(read_snapshot(&bad).unwrap_err(), SnapshotError::ShortStatus);
    let edge = Dependency { id: EdgeId(1), from: TaskId(1), to: TaskId(2), kind: EdgeKind::Parent, seq: 1 };
    let mut bad = write_snapshot(1, &[], &[edge]);
    bad[52] = 4;
    assert_eq!(read_snapshot(&bad).unwrap_err(), SnapshotError::UnknownEdgeKind(4));
}

#[test]
fn what_fits_a_snapshot() {
    let task = |type_len: usize, metadata: Vec<(String, Vec<u8>)>| Task {
        spec: TaskSpec {
            metadata,
            ..make_spec(&"t".repeat(type_len))
        },
        ..numbered_task(1)
    };
    let fits = |t: Task| {
        let fits = snapshot_fits(&[numbered_task(0), t.clone()]);
        let back = read_snapshot(&write_snapshot(5, &[t.clone()], &[]));
        assert_eq!(fits, back.is_ok_and(|s| s.tasks[0].spec.task_type == t.spec.task_type));
        fits
    };
    assert!(snapshot_fits(&[]));
    assert!(fits(task(0xffff, vec![])));
    assert!(!fits(task(0x1_0000, vec![])));
    assert!(fits(task(1, vec![("k".repeat(0xffff), vec![7; 0xffff])])));
    assert!(!fits(task(1, vec![("k".repeat(0x1_0000), vec![])])));
    assert!(!fits(task(1, vec![("k".to_string(), vec![7; 0x1_0000])])));
    assert!(fits(task(1, vec![("k".to_string(), vec![]); 0xffff])));
    assert!(!snapshot_fits(&[task(1, vec![("k".to_string(), vec![]); 0x1_0000])]));
    // The length that counts is that of the bytes.
    assert!(!fits(task(1, vec![("é".repeat(0x8000), vec![])])));
}
