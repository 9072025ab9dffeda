//! The snapshot format: the whole state of an engine as bytes.
//!
//! A snapshot begins with `TSK1`, the sequence number, the number of tasks and
//! the number of edges; the tasks follow, then the edges, then the CRC-32 of all
//! of that. Numbers are little-endian.
use crate::checksum::{checksum, crc32};
use crate::codec::{
    capacity, from_le, get_bytes, get_u128, get_u16, get_u32, get_u64, get_u8, law_four_bytes, law_two_bytes, le,
    lemma_capacities, lemma_from_le_le, lemma_le_len, lemma_take_bytes, lemma_take_number,
    put_bytes, put_len16, put_len32, put_u128, put_u16, put_u32, put_u64, take_bytes, take_number,
};
use crate::text::text_of;
use crate::types::{
    entry_model, Dependency, EdgeId, EdgeKind, Priority, SpecModel, Task, TaskId, TaskModel, TaskResult, TaskSpec,
    TaskStatus, WorkerId,
};
use vstd::prelude::*;
use vstd::slice::slice_subrange;
use vstd::utf8::{decode_utf8, encode_utf8, valid_utf8};

verus! {

/// The bytes that a snapshot begins with: `TSK1`.
pub open spec fn snapshot_magic() -> Seq<u8> {
    seq![0x54, 0x53, 0x4b, 0x31]
}

/// Why bytes are not a snapshot.
#[derive(Debug, Clone, Copy, PartialEq, Eq, Structural)]
pub enum SnapshotError {
    /// The bytes end too early.
    Truncated,
    /// The bytes do not begin with `TSK1`.
    InvalidMagic,
    /// A text is not valid UTF-8.
    InvalidText,
    /// There is no status with this tag.
    UnknownStatusTag(u8),
    /// The payload of a status is too short for the status.
    ShortStatus,
    /// There is no kind of edge with this tag.
    UnknownEdgeKind(u8),
    /// The bytes are not those that were written.
    ChecksumMismatch,
}

/// What a snapshot holds.
#[derive(Debug)]
pub struct SnapshotData {
    pub seq: u64,
    pub tasks: Vec<Task>,
    pub edges: Vec<Dependency>,
}

/// The value of a [`SnapshotData`].
#[verifier::ext_equal]
pub struct SnapshotModel {
    pub seq: u64,
    pub tasks: Seq<TaskModel>,
    pub edges: Seq<Dependency>,
}

/// The values of some tasks.
pub open spec fn task_models(tasks: Seq<Task>) -> Seq<TaskModel> {
    tasks.map_values(|t: Task| t@)
}

impl View for SnapshotData {
    type V = SnapshotModel;

    open spec fn view(&self) -> SnapshotModel {
        SnapshotModel { seq: self.seq, tasks: task_models(self.tasks@), edges: self.edges@ }
    }
}

// What is written.

/// A text, after its length in bytes.
pub open spec fn encoded_text(text: Seq<char>) -> Seq<u8> {
    le(encode_utf8(text).len(), 2) + encode_utf8(text)
}

/// Some bytes, after their number in four bytes.
pub open spec fn encoded_blob(bytes: Seq<u8>) -> Seq<u8> {
    le(bytes.len(), 4) + bytes
}

/// Some bytes, after their number in two bytes.
pub open spec fn encoded_short(bytes: Seq<u8>) -> Seq<u8> {
    le(bytes.len(), 2) + bytes
}

/// The tag of a status.
pub open spec fn status_tag(status: TaskStatus) -> u8 {
    match status {
        TaskStatus::Pending => 0,
        TaskStatus::Ready => 1,
        TaskStatus::Running { .. } => 2,
        TaskStatus::Completed { result: TaskResult::Success { .. } } => 3,
        TaskStatus::Completed { result: TaskResult::Failed { .. } } => 4,
        TaskStatus::Cancelled { .. } => 5,
    }
}

/// What a status carries.
pub open spec fn status_payload(status: TaskStatus) -> Seq<u8> {
    match status {
        TaskStatus::Pending => Seq::empty(),
        TaskStatus::Ready => Seq::empty(),
        TaskStatus::Running { worker_id } => le(worker_id.0 as nat, 8),
        TaskStatus::Completed { result } => match result {
            TaskResult::Success { output_ref } => le(output_ref as nat, 16),
            TaskResult::Failed { error_code, output_ref } => match output_ref {
                Some(output) => le(error_code as nat, 4) + le(output as nat, 16),
                None => le(error_code as nat, 4),
            },
        },
        TaskStatus::Cancelled { reason } => le(reason as nat, 4),
    }
}

/// A status: its tag, and what it carries after its length.
pub open spec fn encoded_status(status: TaskStatus) -> Seq<u8> {
    seq![status_tag(status)] + encoded_short(status_payload(status))
}

/// A priority as a byte in two's complement.
pub open spec fn priority_byte(priority: Priority) -> u8 {
    if priority.0 >= 0 {
        priority.0 as u8
    } else {
        (priority.0 + 256) as u8
    }
}

/// The priority that a byte stands for.
pub open spec fn byte_priority(byte: u8) -> Priority {
    if byte < 128 {
        Priority(byte as i8)
    } else {
        Priority((byte - 256) as i8)
    }
}

/// The priority, the times and the counts of a task.
pub open spec fn encoded_numbers(task: TaskModel) -> Seq<u8> {
    seq![priority_byte(task.spec.priority)] + le(task.created_at as nat, 8) + le(task.updated_at as nat, 8) + le(
        task.seq as nat,
        8,
    ) + le(task.child_count as nat, 2) + le(task.edge_in_degree as nat, 2)
}

/// A parent, after a byte that says whether there is one.
pub open spec fn encoded_parent(parent: Option<TaskId>) -> Seq<u8> {
    match parent {
        Some(id) => seq![1u8] + le(id.0 as nat, 16),
        None => seq![0u8],
    }
}

/// Metadata entries.
pub open spec fn encoded_entries(entries: Seq<(Seq<char>, Seq<u8>)>) -> Seq<u8>
    decreases entries.len(),
{
    if entries.len() == 0 {
        Seq::empty()
    } else {
        encoded_text(entries[0].0) + encoded_short(entries[0].1) + encoded_entries(entries.drop_first())
    }
}

/// A task. What it is blocked on is not written: the edges say it.
#[verifier::opaque]
pub open spec fn encoded_task(task: TaskModel) -> Seq<u8> {
    le(task.id.0 as nat, 16) + encoded_text(task.spec.task_type) + encoded_blob(task.spec.payload) + encoded_status(
        task.status,
    ) + encoded_numbers(task) + encoded_parent(task.spec.parent) + le(task.spec.metadata.len(), 2) + encoded_entries(
        task.spec.metadata,
    )
}

/// The kind of an edge: a tag, and for an artifact what it is.
pub open spec fn encoded_kind(kind: EdgeKind) -> Seq<u8> {
    match kind {
        EdgeKind::Blocking => seq![0u8],
        EdgeKind::Preference => seq![1u8],
        EdgeKind::Artifact { artifact_type, artifact_id } => seq![2u8] + le(artifact_type as nat, 4) + le(
            artifact_id as nat,
            16,
        ),
        EdgeKind::Parent => seq![3u8],
    }
}

/// An edge. Its id is not written.
pub open spec fn encoded_edge(edge: Dependency) -> Seq<u8> {
    le(edge.from.0 as nat, 16) + le(edge.to.0 as nat, 16) + encoded_kind(edge.kind) + le(edge.seq as nat, 8)
}

/// Tasks, one after the other.
pub open spec fn encoded_tasks(tasks: Seq<TaskModel>) -> Seq<u8>
    decreases tasks.len(),
{
    if tasks.len() == 0 {
        Seq::empty()
    } else {
        encoded_task(tasks[0]) + encoded_tasks(tasks.drop_first())
    }
}

/// Edges, one after the other.
pub open spec fn encoded_edges(edges: Seq<Dependency>) -> Seq<u8>
    decreases edges.len(),
{
    if edges.len() == 0 {
        Seq::empty()
    } else {
        encoded_edge(edges[0]) + encoded_edges(edges.drop_first())
    }
}

/// The beginning of a snapshot.
pub open spec fn encoded_header(seq: u64, tasks: nat, edges: nat) -> Seq<u8> {
    snapshot_magic() + le(seq as nat, 8) + le(tasks, 4) + le(edges, 4)
}

/// A snapshot without its checksum.
pub open spec fn snapshot_body(seq: u64, tasks: Seq<TaskModel>, edges: Seq<Dependency>) -> Seq<u8> {
    encoded_header(seq, tasks.len(), edges.len()) + encoded_tasks(tasks) + encoded_edges(edges)
}

/// A snapshot.
pub open spec fn encoded_snapshot(seq: u64, tasks: Seq<TaskModel>, edges: Seq<Dependency>) -> Seq<u8> {
    let body = snapshot_body(seq, tasks, edges);
    body + le(crc32(body) as nat, 4)
}

// What is read.

/// Bytes after their number, which takes up `width` bytes.
pub open spec fn parsed_blob(b: Seq<u8>, width: nat) -> Result<(Seq<u8>, Seq<u8>), SnapshotError> {
    match take_number(b, width) {
        None => Err(SnapshotError::Truncated),
        Some((len, rest)) => match take_bytes(rest, len) {
            None => Err(SnapshotError::Truncated),
            Some(x) => Ok(x),
        },
    }
}

/// A text after its length.
pub open spec fn parsed_text(b: Seq<u8>) -> Result<(Seq<char>, Seq<u8>), SnapshotError> {
    match parsed_blob(b, 2) {
        Err(e) => Err(e),
        Ok((bytes, rest)) => if valid_utf8(bytes) {
            Ok((decode_utf8(bytes), rest))
        } else {
            Err(SnapshotError::InvalidText)
        },
    }
}

/// The status with the given tag that carries `body`, of which bytes after
/// those that the status needs are ignored.
pub open spec fn status_of(tag: nat, body: Seq<u8>) -> Result<TaskStatus, SnapshotError> {
    if tag == 2 {
        if body.len() < 8 {
            Err(SnapshotError::ShortStatus)
        } else {
            Ok(TaskStatus::Running { worker_id: WorkerId(from_le(body.take(8)) as u64) })
        }
    } else if tag == 3 {
        if body.len() < 16 {
            Err(SnapshotError::ShortStatus)
        } else {
            Ok(
                TaskStatus::Completed {
                    result: TaskResult::Success { output_ref: from_le(body.take(16)) as u128 },
                },
            )
        }
    } else if tag == 4 {
        if body.len() < 4 || 4 < body.len() < 20 {
            Err(SnapshotError::ShortStatus)
        } else {
            Ok(
                TaskStatus::Completed {
                    result: TaskResult::Failed {
                        error_code: from_le(body.take(4)) as u32,
                        output_ref: if body.len() == 4 {
                            None
                        } else {
                            Some(from_le(body.skip(4).take(16)) as u128)
                        },
                    },
                },
            )
        }
    } else {
        if body.len() < 4 {
            Err(SnapshotError::ShortStatus)
        } else {
            Ok(TaskStatus::Cancelled { reason: from_le(body.take(4)) as u32 })
        }
    }
}

/// A status: its tag, the length of what it carries and, unless it is pending
/// or ready, as many bytes.
pub open spec fn parsed_status(b: Seq<u8>) -> Result<(TaskStatus, Seq<u8>), SnapshotError> {
    match take_number(b, 1) {
        None => Err(SnapshotError::Truncated),
        Some((tag, tagged)) => match take_number(tagged, 2) {
            None => Err(SnapshotError::Truncated),
            Some((len, rest)) => if tag == 0 {
                Ok((TaskStatus::Pending, rest))
            } else if tag == 1 {
                Ok((TaskStatus::Ready, rest))
            } else if tag > 5 {
                Err(SnapshotError::UnknownStatusTag(tag as u8))
            } else {
                match take_bytes(rest, len) {
                    None => Err(SnapshotError::Truncated),
                    Some((body, after)) => match status_of(tag, body) {
                        Err(e) => Err(e),
                        Ok(status) => Ok((status, after)),
                    },
                }
            },
        },
    }
}

/// The priority, the times and the counts of a task.
#[derive(Clone, Copy)]
pub struct Numbers {
    pub priority: Priority,
    pub created_at: u64,
    pub updated_at: u64,
    pub seq: u64,
    pub child_count: u16,
    pub edge_in_degree: u16,
}

/// The priority, the times and the counts of a task, which take up 29 bytes.
pub open spec fn parsed_numbers(b: Seq<u8>) -> Result<(Numbers, Seq<u8>), SnapshotError> {
    if b.len() < 29 {
        Err(SnapshotError::Truncated)
    } else {
        Ok(
            (
                Numbers {
                    priority: byte_priority(b[0]),
                    created_at: from_le(b.subrange(1, 9)) as u64,
                    updated_at: from_le(b.subrange(9, 17)) as u64,
                    seq: from_le(b.subrange(17, 25)) as u64,
                    child_count: from_le(b.subrange(25, 27)) as u16,
                    edge_in_degree: from_le(b.subrange(27, 29)) as u16,
                },
                b.skip(29),
            ),
        )
    }
}

/// A parent, if the first byte is 1.
pub open spec fn parsed_parent(b: Seq<u8>) -> Result<(Option<TaskId>, Seq<u8>), SnapshotError> {
    match take_number(b, 1) {
        None => Err(SnapshotError::Truncated),
        Some((flag, rest)) => if flag == 1 {
            match take_number(rest, 16) {
                None => Err(SnapshotError::Truncated),
                Some((id, after)) => Ok((Some(TaskId(id as u128)), after)),
            }
        } else {
            Ok((None, rest))
        },
    }
}

/// `n` metadata entries.
pub open spec fn parsed_entries(b: Seq<u8>, n: nat) -> Result<(Seq<(Seq<char>, Seq<u8>)>, Seq<u8>), SnapshotError>
    decreases n,
{
    if n == 0 {
        Ok((Seq::empty(), b))
    } else {
        match parsed_text(b) {
            Err(e) => Err(e),
            Ok((key, rest)) => match parsed_blob(rest, 2) {
                Err(e) => Err(e),
                Ok((value, after)) => match parsed_entries(after, (n - 1) as nat) {
                    Err(e) => Err(e),
                    Ok((entries, end)) => Ok((seq![(key, value)] + entries, end)),
                },
            },
        }
    }
}

/// The parent and the metadata of a task.
pub open spec fn parsed_tail(b: Seq<u8>) -> Result<
    ((Option<TaskId>, Seq<(Seq<char>, Seq<u8>)>), Seq<u8>),
    SnapshotError,
> {
    match parsed_parent(b) {
        Err(e) => Err(e),
        Ok((parent, counted)) => match take_number(counted, 2) {
            None => Err(SnapshotError::Truncated),
            Some((count, rest)) => match parsed_entries(rest, count) {
                Err(e) => Err(e),
                Ok((entries, end)) => Ok(((parent, entries), end)),
            },
        },
    }
}

/// A task. It is not blocked on anything yet.
#[verifier::opaque]
pub open spec fn parsed_task(b: Seq<u8>) -> Result<(TaskModel, Seq<u8>), SnapshotError> {
    match take_number(b, 16) {
        None => Err(SnapshotError::Truncated),
        Some((id, typed)) => match parsed_text(typed) {
            Err(e) => Err(e),
            Ok((task_type, loaded)) => match parsed_blob(loaded, 4) {
                Err(e) => Err(e),
                Ok((payload, stated)) => match parsed_status(stated) {
                    Err(e) => Err(e),
                    Ok((status, numbered)) => match parsed_numbers(numbered) {
                        Err(e) => Err(e),
                        Ok((numbers, rest)) => match parsed_tail(rest) {
                            Err(e) => Err(e),
                            Ok(((parent, metadata), end)) => Ok(
                                (
                                    TaskModel {
                                        id: TaskId(id as u128),
                                        spec: SpecModel {
                                            task_type,
                                            payload,
                                            priority: numbers.priority,
                                            parent,
                                            blocking_on: Seq::empty(),
                                            metadata,
                                        },
                                        status,
                                        created_at: numbers.created_at,
                                        updated_at: numbers.updated_at,
                                        seq: numbers.seq,
                                        child_count: numbers.child_count,
                                        edge_in_degree: numbers.edge_in_degree,
                                    },
                                    end,
                                ),
                            ),
                        },
                    },
                },
            },
        },
    }
}

/// The kind of an edge.
pub open spec fn parsed_kind(b: Seq<u8>) -> Result<(EdgeKind, Seq<u8>), SnapshotError> {
    match take_number(b, 1) {
        None => Err(SnapshotError::Truncated),
        Some((tag, rest)) => if tag == 0 {
            Ok((EdgeKind::Blocking, rest))
        } else if tag == 1 {
            Ok((EdgeKind::Preference, rest))
        } else if tag == 2 {
            match take_number(rest, 4) {
                None => Err(SnapshotError::Truncated),
                Some((artifact_type, after)) => match take_number(after, 16) {
                    None => Err(SnapshotError::Truncated),
                    Some((artifact_id, end)) => Ok(
                        (
                            EdgeKind::Artifact {
                                artifact_type: artifact_type as u32,
                                artifact_id: artifact_id as u128,
                            },
                            end,
                        ),
                    ),
                },
            }
        } else if tag == 3 {
            Ok((EdgeKind::Parent, rest))
        } else {
            Err(SnapshotError::UnknownEdgeKind(tag as u8))
        },
    }
}

/// An edge. Its sequence number becomes its id.
pub open spec fn parsed_edge(b: Seq<u8>) -> Result<(Dependency, Seq<u8>), SnapshotError> {
    match take_number(b, 16) {
        None => Err(SnapshotError::Truncated),
        Some((from, ended)) => match take_number(ended, 16) {
            None => Err(SnapshotError::Truncated),
            Some((to, tagged)) => match parsed_kind(tagged) {
                Err(e) => Err(e),
                Ok((kind, rest)) => match take_number(rest, 8) {
                    None => Err(SnapshotError::Truncated),
                    Some((seq, end)) => Ok(
                        (
                            Dependency {
                                id: EdgeId(seq as u64),
                                from: TaskId(from as u128),
                                to: TaskId(to as u128),
                                kind,
                                seq: seq as u64,
                            },
                            end,
                        ),
                    ),
                },
            },
        },
    }
}

/// `n` tasks.
pub open spec fn parsed_tasks(b: Seq<u8>, n: nat) -> Result<(Seq<TaskModel>, Seq<u8>), SnapshotError>
    decreases n,
{
    if n == 0 {
        Ok((Seq::empty(), b))
    } else {
        match parsed_task(b) {
            Err(e) => Err(e),
            Ok((task, rest)) => match parsed_tasks(rest, (n - 1) as nat) {
                Err(e) => Err(e),
                Ok((tasks, end)) => Ok((seq![task] + tasks, end)),
            },
        }
    }
}

/// `n` edges.
pub open spec fn parsed_edges(b: Seq<u8>, n: nat) -> Result<(Seq<Dependency>, Seq<u8>), SnapshotError>
    decreases n,
{
    if n == 0 {
        Ok((Seq::empty(), b))
    } else {
        match parsed_edge(b) {
            Err(e) => Err(e),
            Ok((edge, rest)) => match parsed_edges(rest, (n - 1) as nat) {
                Err(e) => Err(e),
                Ok((edges, end)) => Ok((seq![edge] + edges, end)),
            },
        }
    }
}

/// The beginning of a snapshot: the sequence number, the number of tasks and
/// the number of edges.
pub open spec fn parsed_header(b: Seq<u8>) -> Result<((nat, nat, nat), Seq<u8>), SnapshotError> {
    if b.len() < 4 {
        Err(SnapshotError::Truncated)
    } else if b.take(4) != snapshot_magic() {
        Err(SnapshotError::InvalidMagic)
    } else if b.len() < 20 {
        Err(SnapshotError::Truncated)
    } else {
        Ok(
            (
                (from_le(b.subrange(4, 12)), from_le(b.subrange(12, 16)), from_le(b.subrange(16, 20))),
                b.skip(20),
            ),
        )
    }
}

/// A snapshot. Bytes after it are ignored.
pub open spec fn parsed_snapshot(b: Seq<u8>) -> Result<SnapshotModel, SnapshotError> {
    match parsed_header(b) {
        Err(e) => Err(e),
        Ok(((seq, task_count, edge_count), body)) => match parsed_tasks(body, task_count) {
            Err(e) => Err(e),
            Ok((tasks, rest)) => match parsed_edges(rest, edge_count) {
                Err(e) => Err(e),
                Ok((edges, end)) => match take_number(end, 4) {
                    None => Err(SnapshotError::Truncated),
                    Some((crc, _)) => if crc != crc32(b.take(b.len() - end.len())) {
                        Err(SnapshotError::ChecksumMismatch)
                    } else {
                        Ok(SnapshotModel { seq: seq as u64, tasks, edges })
                    },
                },
            },
        },
    }
}

// Writing.

/// Appends a text after its length.
fn put_text(buf: &mut Vec<u8>, text: &String)
    ensures
        final(buf)@ == old(buf)@ + encoded_text(text@),
{
    let bytes: &[u8] = text.as_str().as_bytes();
    put_len16(buf, bytes.len());
    put_bytes(buf, bytes);
    assert(buf@ =~= old(buf)@ + encoded_text(text@));
}

/// Appends bytes after their number in four bytes.
fn put_blob(buf: &mut Vec<u8>, bytes: &Vec<u8>)
    ensures
        final(buf)@ == old(buf)@ + encoded_blob(bytes@),
{
    put_len32(buf, bytes.len());
    put_bytes(buf, bytes.as_slice());
    assert(buf@ =~= old(buf)@ + encoded_blob(bytes@));
}

/// Appends bytes after their number in two bytes.
fn put_short(buf: &mut Vec<u8>, bytes: &Vec<u8>)
    ensures
        final(buf)@ == old(buf)@ + encoded_short(bytes@),
{
    put_len16(buf, bytes.len());
    put_bytes(buf, bytes.as_slice());
    assert(buf@ =~= old(buf)@ + encoded_short(bytes@));
}

/// Appends a status.
fn put_status(buf: &mut Vec<u8>, status: TaskStatus)
    ensures
        final(buf)@ == old(buf)@ + encoded_status(status),
{
    let tag: u8 = match status {
        TaskStatus::Pending => 0,
        TaskStatus::Ready => 1,
        TaskStatus::Running { .. } => 2,
        TaskStatus::Completed { result } => match result {
            TaskResult::Success { .. } => 3,
            TaskResult::Failed { .. } => 4,
        },
        TaskStatus::Cancelled { .. } => 5,
    };
    let mut body: Vec<u8> = Vec::new();
    match status {
        TaskStatus::Running { worker_id } => {
            put_u64(&mut body, worker_id.0);
        },
        TaskStatus::Completed { result } => match result {
            TaskResult::Success { output_ref } => {
                put_u128(&mut body, output_ref);
            },
            TaskResult::Failed { error_code, output_ref } => {
                put_u32(&mut body, error_code);
                if let Some(output) = output_ref {
                    put_u128(&mut body, output);
                }
            },
        },
        TaskStatus::Cancelled { reason } => {
            put_u32(&mut body, reason);
        },
        _ => {},
    }
    assert(body@ =~= status_payload(status));
    buf.push(tag);
    put_short(buf, &body);
    assert(buf@ =~= old(buf)@ + encoded_status(status));
}

/// Appends the priority, the times and the counts of a task.
fn put_numbers(buf: &mut Vec<u8>, task: &Task)
    ensures
        final(buf)@ == old(buf)@ + encoded_numbers(task@),
{
    let priority: i8 = task.spec.priority.0;
    let byte: u8 = if priority >= 0 {
        priority as u8
    } else {
        (priority as i16 + 256) as u8
    };
    buf.push(byte);
    put_u64(buf, task.created_at);
    put_u64(buf, task.updated_at);
    put_u64(buf, task.seq);
    put_u16(buf, task.child_count);
    put_u16(buf, task.edge_in_degree);
    assert(buf@ =~= old(buf)@ + encoded_numbers(task@));
}

/// Appends a parent.
fn put_parent(buf: &mut Vec<u8>, parent: Option<TaskId>)
    ensures
        final(buf)@ == old(buf)@ + encoded_parent(parent),
{
    match parent {
        Some(id) => {
            buf.push(1);
            put_u128(buf, id.0);
        },
        None => {
            buf.push(0);
        },
    }
    assert(buf@ =~= old(buf)@ + encoded_parent(parent));
}

/// The encoding of entries, by the last one.
proof fn lemma_encoded_entries_push(entries: Seq<(Seq<char>, Seq<u8>)>, last: (Seq<char>, Seq<u8>))
    ensures
        encoded_entries(entries.push(last)) == encoded_entries(entries) + encoded_text(last.0) + encoded_short(last.1),
    decreases entries.len(),
{
    if entries.len() == 0 {
        assert(entries.push(last).drop_first() =~= Seq::empty());
        assert(encoded_entries(entries.push(last).drop_first()) =~= Seq::empty());
        assert(encoded_entries(entries.push(last)) =~= encoded_entries(entries) + encoded_text(last.0) + encoded_short(
            last.1,
        ));
    } else {
        lemma_encoded_entries_push(entries.drop_first(), last);
        assert(entries.push(last).drop_first() =~= entries.drop_first().push(last));
        assert(encoded_entries(entries.push(last)) =~= encoded_entries(entries) + encoded_text(last.0) + encoded_short(
            last.1,
        ));
    }
}

/// Appends metadata entries.
fn put_entries(buf: &mut Vec<u8>, task: &Task)
    ensures
        final(buf)@ == old(buf)@ + encoded_entries(task@.spec.metadata),
{
    let ghost all = task@.spec.metadata;
    assert(encoded_entries(all.take(0)) =~= Seq::empty());
    for i in 0..task.spec.metadata.len()
        invariant
            all == task@.spec.metadata,
            all.len() == task.spec.metadata@.len(),
            buf@ == old(buf)@ + encoded_entries(all.take(i as int)),
    {
        put_text(buf, &task.spec.metadata[i].0);
        put_short(buf, &task.spec.metadata[i].1);
        proof {
            assert(all[i as int] == entry_model(task.spec.metadata@[i as int]));
            assert(all.take(i as int + 1) =~= all.take(i as int).push(all[i as int]));
            lemma_encoded_entries_push(all.take(i as int), all[i as int]);
            assert(buf@ =~= old(buf)@ + encoded_entries(all.take(i as int + 1)));
        }
    }
    assert(all.take(all.len() as int) =~= all);
}

/// Appends a task.
fn write_task(buf: &mut Vec<u8>, task: &Task)
    ensures
        final(buf)@ == old(buf)@ + encoded_task(task@),
{
    put_u128(buf, task.id.0);
    put_text(buf, &task.spec.task_type);
    put_blob(buf, &task.spec.payload);
    put_status(buf, task.status);
    put_numbers(buf, task);
    put_parent(buf, task.spec.parent);
    put_len16(buf, task.spec.metadata.len());
    put_entries(buf, task);
    proof {
        reveal(encoded_task);
        assert(buf@ =~= old(buf)@ + encoded_task(task@));
    }
}

/// Appends an edge.
fn write_edge(buf: &mut Vec<u8>, edge: &Dependency)
    ensures
        final(buf)@ == old(buf)@ + encoded_edge(*edge),
{
    put_u128(buf, edge.from.0);
    put_u128(buf, edge.to.0);
    match edge.kind {
        EdgeKind::Blocking => {
            buf.push(0);
        },
        EdgeKind::Preference => {
            buf.push(1);
        },
        EdgeKind::Artifact { artifact_type, artifact_id } => {
            buf.push(2);
            put_u32(buf, artifact_type);
            put_u128(buf, artifact_id);
        },
        EdgeKind::Parent => {
            buf.push(3);
        },
    }
    put_u64(buf, edge.seq);
    assert(buf@ =~= old(buf)@ + encoded_edge(*edge));
}

/// The encoding of tasks, by the last one.
proof fn lemma_encoded_tasks_push(tasks: Seq<TaskModel>, last: TaskModel)
    ensures
        encoded_tasks(tasks.push(last)) == encoded_tasks(tasks) + encoded_task(last),
    decreases tasks.len(),
{
    if tasks.len() == 0 {
        assert(tasks.push(last).drop_first() =~= Seq::empty());
        assert(encoded_tasks(tasks.push(last).drop_first()) =~= Seq::empty());
    } else {
        lemma_encoded_tasks_push(tasks.drop_first(), last);
        assert(tasks.push(last).drop_first() =~= tasks.drop_first().push(last));
    }
    assert(encoded_tasks(tasks.push(last)) =~= encoded_tasks(tasks) + encoded_task(last));
}

/// The encoding of edges, by the last one.
proof fn lemma_encoded_edges_push(edges: Seq<Dependency>, last: Dependency)
    ensures
        encoded_edges(edges.push(last)) == encoded_edges(edges) + encoded_edge(last),
    decreases edges.len(),
{
    if edges.len() == 0 {
        assert(edges.push(last).drop_first() =~= Seq::empty());
        assert(encoded_edges(edges.push(last).drop_first()) =~= Seq::empty());
    } else {
        lemma_encoded_edges_push(edges.drop_first(), last);
        assert(edges.push(last).drop_first() =~= edges.drop_first().push(last));
    }
    assert(encoded_edges(edges.push(last)) =~= encoded_edges(edges) + encoded_edge(last));
}

/// A snapshot of an engine as bytes. Of a length only the bytes that the format
/// has room for are written; [`snapshot_fits`] tells whether there is room for
/// all of them.
pub fn write_snapshot(seq: u64, tasks: &[Task], edges: &[Dependency]) -> (r: Vec<u8>)
    ensures
        r@ == encoded_snapshot(seq, task_models(tasks@), edges@),
{
    let ghost models = task_models(tasks@);
    let mut buf: Vec<u8> = Vec::new();
    buf.push(0x54);
    buf.push(0x53);
    buf.push(0x4b);
    buf.push(0x31);
    put_u64(&mut buf, seq);
    put_len32(&mut buf, tasks.len());
    put_len32(&mut buf, edges.len());
    let ghost header = encoded_header(seq, tasks@.len(), edges@.len());
    assert(buf@ =~= header);
    assert(buf@ =~= header + encoded_tasks(models.take(0)));
    for i in 0..tasks.len()
        invariant
            models == task_models(tasks@),
            buf@ == header + encoded_tasks(models.take(i as int)),
    {
        write_task(&mut buf, &tasks[i]);
        proof {
            assert(models.take(i as int + 1) =~= models.take(i as int).push(models[i as int]));
            lemma_encoded_tasks_push(models.take(i as int), models[i as int]);
            assert(buf@ =~= header + encoded_tasks(models.take(i as int + 1)));
        }
    }
    assert(models.take(models.len() as int) =~= models);
    let ghost front = buf@;
    assert(buf@ =~= front + encoded_edges(edges@.take(0)));
    for i in 0..edges.len()
        invariant
            buf@ == front + encoded_edges(edges@.take(i as int)),
    {
        write_edge(&mut buf, &edges[i]);
        proof {
            assert(edges@.take(i as int + 1) =~= edges@.take(i as int).push(edges@[i as int]));
            lemma_encoded_edges_push(edges@.take(i as int), edges@[i as int]);
            assert(buf@ =~= front + encoded_edges(edges@.take(i as int + 1)));
        }
    }
    assert(edges@.take(edges@.len() as int) =~= edges@);
    let crc: u32 = checksum(buf.as_slice());
    put_u32(&mut buf, crc);
    buf
}

// Reading.

/// Reads bytes after their number, which takes up four bytes.
fn read_blob(b: &[u8]) -> (r: Result<(Vec<u8>, &[u8]), SnapshotError>)
    ensures
        match r {
            Ok((v, rest)) => parsed_blob(b@, 4) == Ok::<_, SnapshotError>((v@, rest@)),
            Err(e) => parsed_blob(b@, 4) == Err::<(Seq<u8>, Seq<u8>), SnapshotError>(e),
        },
{
    match get_u32(b) {
        None => Err(SnapshotError::Truncated),
        Some((len, rest)) => match get_bytes(rest, len as usize) {
            None => Err(SnapshotError::Truncated),
            Some((v, end)) => Ok((v, end)),
        },
    }
}

/// Reads bytes after their number, which takes up two bytes.
fn read_short(b: &[u8]) -> (r: Result<(Vec<u8>, &[u8]), SnapshotError>)
    ensures
        match r {
            Ok((v, rest)) => parsed_blob(b@, 2) == Ok::<_, SnapshotError>((v@, rest@)),
            Err(e) => parsed_blob(b@, 2) == Err::<(Seq<u8>, Seq<u8>), SnapshotError>(e),
        },
{
    match get_u16(b) {
        None => Err(SnapshotError::Truncated),
        Some((len, rest)) => match get_bytes(rest, len as usize) {
            None => Err(SnapshotError::Truncated),
            Some((v, end)) => Ok((v, end)),
        },
    }
}

/// Reads a text after its length.
fn read_text(b: &[u8]) -> (r: Result<(String, &[u8]), SnapshotError>)
    ensures
        match r {
            Ok((v, rest)) => parsed_text(b@) == Ok::<_, SnapshotError>((v@, rest@)),
            Err(e) => parsed_text(b@) == Err::<(Seq<char>, Seq<u8>), SnapshotError>(e),
        },
{
    match get_u16(b) {
        None => Err(SnapshotError::Truncated),
        Some((len, rest)) => match get_bytes(rest, len as usize) {
            None => Err(SnapshotError::Truncated),
            Some((bytes, end)) => match text_of(bytes) {
                None => Err(SnapshotError::InvalidText),
                Some(text) => Ok((text, end)),
            },
        },
    }
}

/// The status with the given tag that carries `body`.
fn read_status_body(tag: u8, body: &[u8]) -> (r: Result<TaskStatus, SnapshotError>)
    requires
        2 <= tag <= 5,
    ensures
        r == status_of(tag as nat, body@),
{
    if tag == 2 {
        match get_u64(body) {
            None => Err(SnapshotError::ShortStatus),
            Some((worker, _)) => Ok(TaskStatus::Running { worker_id: WorkerId(worker) }),
        }
    } else if tag == 3 {
        match get_u128(body) {
            None => Err(SnapshotError::ShortStatus),
            Some((output_ref, _)) => Ok(TaskStatus::Completed { result: TaskResult::Success { output_ref } }),
        }
    } else if tag == 4 {
        match get_u32(body) {
            None => Err(SnapshotError::ShortStatus),
            Some((error_code, rest)) => if body.len() == 4 {
                Ok(TaskStatus::Completed { result: TaskResult::Failed { error_code, output_ref: None } })
            } else {
                match get_u128(rest) {
                    None => Err(SnapshotError::ShortStatus),
                    Some((output, _)) => Ok(
                        TaskStatus::Completed {
                            result: TaskResult::Failed { error_code, output_ref: Some(output) },
                        },
                    ),
                }
            },
        }
    } else {
        match get_u32(body) {
            None => Err(SnapshotError::ShortStatus),
            Some((reason, _)) => Ok(TaskStatus::Cancelled { reason }),
        }
    }
}

/// Reads a status.
fn read_status(b: &[u8]) -> (r: Result<(TaskStatus, &[u8]), SnapshotError>)
    ensures
        match r {
            Ok((v, rest)) => parsed_status(b@) == Ok::<_, SnapshotError>((v, rest@)),
            Err(e) => parsed_status(b@) == Err::<(TaskStatus, Seq<u8>), SnapshotError>(e),
        },
{
    let (tag, tagged) = match get_u8(b) {
        None => {
            return Err(SnapshotError::Truncated);
        },
        Some(x) => x,
    };
    let (len, rest) = match get_u16(tagged) {
        None => {
            return Err(SnapshotError::Truncated);
        },
        Some(x) => x,
    };
    if tag == 0 {
        return Ok((TaskStatus::Pending, rest));
    }
    if tag == 1 {
        return Ok((TaskStatus::Ready, rest));
    }
    if tag > 5 {
        return Err(SnapshotError::UnknownStatusTag(tag));
    }
    match get_bytes(rest, len as usize) {
        None => Err(SnapshotError::Truncated),
        Some((body, end)) => match read_status_body(tag, body.as_slice()) {
            Err(e) => Err(e),
            Ok(status) => Ok((status, end)),
        },
    }
}

/// Reads the priority, the times and the counts of a task.
fn read_numbers(b: &[u8]) -> (r: Result<(Numbers, &[u8]), SnapshotError>)
    ensures
        match r {
            Ok((v, rest)) => parsed_numbers(b@) == Ok::<_, SnapshotError>((v, rest@)),
            Err(e) => parsed_numbers(b@) == Err::<(Numbers, Seq<u8>), SnapshotError>(e),
        },
{
    if b.len() < 29 {
        return Err(SnapshotError::Truncated);
    }
    let byte: u8 = b[0];
    let priority: Priority = if byte < 128 {
        Priority(byte as i8)
    } else {
        Priority((byte as i16 - 256) as i8)
    };
    match get_u8(b) {
        Some((_, b1)) => match get_u64(b1) {
            Some((created_at, b2)) => match get_u64(b2) {
                Some((updated_at, b3)) => match get_u64(b3) {
                    Some((seq, b4)) => match get_u16(b4) {
                        Some((child_count, b5)) => match get_u16(b5) {
                            Some((edge_in_degree, b6)) => {
                                proof {
                                    assert(b1@.take(8) =~= b@.subrange(1, 9));
                                    assert(b2@.take(8) =~= b@.subrange(9, 17));
                                    assert(b3@.take(8) =~= b@.subrange(17, 25));
                                    assert(b4@.take(2) =~= b@.subrange(25, 27));
                                    assert(b5@.take(2) =~= b@.subrange(27, 29));
                                    assert(b6@ =~= b@.skip(29));
                                }
                                Ok(
                                    (
                                        Numbers {
                                            priority,
                                            created_at,
                                            updated_at,
                                            seq,
                                            child_count,
                                            edge_in_degree,
                                        },
                                        b6,
                                    ),
                                )
                            },
                            None => Err(SnapshotError::Truncated),
                        },
                        None => Err(SnapshotError::Truncated),
                    },
                    None => Err(SnapshotError::Truncated),
                },
                None => Err(SnapshotError::Truncated),
            },
            None => Err(SnapshotError::Truncated),
        },
        None => Err(SnapshotError::Truncated),
    }
}

/// Reads a parent.
fn read_parent(b: &[u8]) -> (r: Result<(Option<TaskId>, &[u8]), SnapshotError>)
    ensures
        match r {
            Ok((v, rest)) => parsed_parent(b@) == Ok::<_, SnapshotError>((v, rest@)),
            Err(e) => parsed_parent(b@) == Err::<(Option<TaskId>, Seq<u8>), SnapshotError>(e),
        },
{
    match get_u8(b) {
        None => Err(SnapshotError::Truncated),
        Some((flag, rest)) => if flag == 1 {
            match get_u128(rest) {
                None => Err(SnapshotError::Truncated),
                Some((id, end)) => Ok((Some(TaskId(id)), end)),
            }
        } else {
            Ok((None, rest))
        },
    }
}

/// The values of some metadata entries.
pub open spec fn entry_models(entries: Seq<(String, Vec<u8>)>) -> Seq<(Seq<char>, Seq<u8>)> {
    entries.map_values(|e: (String, Vec<u8>)| entry_model(e))
}

/// Reading `k` entries and then the others is reading all of them.
spec fn entries_go_on(b: Seq<u8>, n: nat, read: Seq<(Seq<char>, Seq<u8>)>, rest: Seq<u8>) -> bool {
    read.len() <= n && parsed_entries(b, n) == match parsed_entries(rest, (n - read.len()) as nat) {
        Err(e) => Err(e),
        Ok((entries, end)) => Ok((read + entries, end)),
    }
}

/// Reads `n` metadata entries.
#[verifier::rlimit(30)]
fn read_entries(b: &[u8], n: u16) -> (r: Result<(Vec<(String, Vec<u8>)>, &[u8]), SnapshotError>)
    ensures
        match r {
            Ok((v, rest)) => parsed_entries(b@, n as nat) == Ok::<_, SnapshotError>((entry_models(v@), rest@)),
            Err(e) => parsed_entries(b@, n as nat) == Err::<(Seq<(Seq<char>, Seq<u8>)>, Seq<u8>), SnapshotError>(e),
        },
{
    let mut v: Vec<(String, Vec<u8>)> = Vec::new();
    let mut rest: &[u8] = b;
    proof {
        assert(entry_models(v@) =~= Seq::empty());
        match parsed_entries(b@, n as nat) {
            Ok((entries, end)) => {
                assert(Seq::empty() + entries =~= entries);
            },
            Err(e) => {},
        }
    }
    for i in 0..n
        invariant
            v@.len() == i,
            entries_go_on(b@, n as nat, entry_models(v@), rest@),
    {
        let ghost before = entry_models(v@);
        let ghost here = rest@;
        let (key, valued) = match read_text(rest) {
            Err(e) => {
                return Err(e);
            },
            Ok(x) => x,
        };
        let (value, after) = match read_short(valued) {
            Err(e) => {
                return Err(e);
            },
            Ok(x) => x,
        };
        v.push((key, value));
        rest = after;
        proof {
            assert(entry_models(v@) =~= before.push((key@, value@)));
            match parsed_entries(rest@, (n - i - 1) as nat) {
                Ok((entries, end)) => {
                    assert(before + (seq![(key@, value@)] + entries) =~= entry_models(v@) + entries);
                },
                Err(e) => {},
            }
        }
    }
    assert(entry_models(v@) + Seq::empty() =~= entry_models(v@));
    Ok((v, rest))
}

/// Reads the parent and the metadata of a task.
fn read_tail(b: &[u8]) -> (r: Result<((Option<TaskId>, Vec<(String, Vec<u8>)>), &[u8]), SnapshotError>)
    ensures
        match r {
            Ok((v, rest)) => parsed_tail(b@) == Ok::<_, SnapshotError>(((v.0, entry_models(v.1@)), rest@)),
            Err(e) => parsed_tail(b@) == Err::<
                ((Option<TaskId>, Seq<(Seq<char>, Seq<u8>)>), Seq<u8>),
                SnapshotError,
            >(e),
        },
{
    match read_parent(b) {
        Err(e) => Err(e),
        Ok((parent, counted)) => match get_u16(counted) {
            None => Err(SnapshotError::Truncated),
            Some((count, rest)) => match read_entries(rest, count) {
                Err(e) => Err(e),
                Ok((entries, end)) => Ok(((parent, entries), end)),
            },
        },
    }
}

/// Reads a task.
#[verifier::rlimit(30)]
fn read_task(b: &[u8]) -> (r: Result<(Task, &[u8]), SnapshotError>)
    ensures
        match r {
            Ok((v, rest)) => parsed_task(b@) == Ok::<_, SnapshotError>((v@, rest@)),
            Err(e) => parsed_task(b@) == Err::<(TaskModel, Seq<u8>), SnapshotError>(e),
        },
{
    proof {
        reveal(parsed_task);
    }
    let (id, typed) = match get_u128(b) {
        None => {
            return Err(SnapshotError::Truncated);
        },
        Some(x) => x,
    };
    let (task_type, loaded) = match read_text(typed) {
        Err(e) => {
            return Err(e);
        },
        Ok(x) => x,
    };
    let (payload, stated) = match read_blob(loaded) {
        Err(e) => {
            return Err(e);
        },
        Ok(x) => x,
    };
    let (status, numbered) = match read_status(stated) {
        Err(e) => {
            return Err(e);
        },
        Ok(x) => x,
    };
    let (numbers, rest) = match read_numbers(numbered) {
        Err(e) => {
            return Err(e);
        },
        Ok(x) => x,
    };
    match read_tail(rest) {
        Err(e) => Err(e),
        Ok(((parent, metadata), end)) => {
            let blocking_on: Vec<TaskId> = Vec::new();
            let task = Task {
                id: TaskId(id),
                spec: TaskSpec { task_type, payload, priority: numbers.priority, parent, blocking_on, metadata },
                status,
                created_at: numbers.created_at,
                updated_at: numbers.updated_at,
                seq: numbers.seq,
                child_count: numbers.child_count,
                edge_in_degree: numbers.edge_in_degree,
            };
            assert(task@.spec.blocking_on =~= Seq::empty());
            Ok((task, end))
        },
    }
}

/// Reads the kind of an edge.
fn read_kind(b: &[u8]) -> (r: Result<(EdgeKind, &[u8]), SnapshotError>)
    ensures
        match r {
            Ok((v, rest)) => parsed_kind(b@) == Ok::<_, SnapshotError>((v, rest@)),
            Err(e) => parsed_kind(b@) == Err::<(EdgeKind, Seq<u8>), SnapshotError>(e),
        },
{
    match get_u8(b) {
        None => Err(SnapshotError::Truncated),
        Some((tag, rest)) => if tag == 0 {
            Ok((EdgeKind::Blocking, rest))
        } else if tag == 1 {
            Ok((EdgeKind::Preference, rest))
        } else if tag == 2 {
            match get_u32(rest) {
                None => Err(SnapshotError::Truncated),
                Some((artifact_type, after)) => match get_u128(after) {
                    None => Err(SnapshotError::Truncated),
                    Some((artifact_id, end)) => Ok((EdgeKind::Artifact { artifact_type, artifact_id }, end)),
                },
            }
        } else if tag == 3 {
            Ok((EdgeKind::Parent, rest))
        } else {
            Err(SnapshotError::UnknownEdgeKind(tag))
        },
    }
}

/// Reads an edge.
fn read_edge(b: &[u8]) -> (r: Result<(Dependency, &[u8]), SnapshotError>)
    ensures
        match r {
            Ok((v, rest)) => parsed_edge(b@) == Ok::<_, SnapshotError>((v, rest@)),
            Err(e) => parsed_edge(b@) == Err::<(Dependency, Seq<u8>), SnapshotError>(e),
        },
{
    match get_u128(b) {
        None => Err(SnapshotError::Truncated),
        Some((from, ended)) => match get_u128(ended) {
            None => Err(SnapshotError::Truncated),
            Some((to, tagged)) => match read_kind(tagged) {
                Err(e) => Err(e),
                Ok((kind, rest)) => match get_u64(rest) {
                    None => Err(SnapshotError::Truncated),
                    Some((seq, end)) => Ok(
                        (Dependency { id: EdgeId(seq), from: TaskId(from), to: TaskId(to), kind, seq }, end),
                    ),
                },
            },
        },
    }
}

/// Reads the beginning of a snapshot.
fn read_header(b: &[u8]) -> (r: Result<((u64, u32, u32), &[u8]), SnapshotError>)
    ensures
        match r {
            Ok((v, rest)) => parsed_header(b@) == Ok::<_, SnapshotError>(
                ((v.0 as nat, v.1 as nat, v.2 as nat), rest@),
            ),
            Err(e) => parsed_header(b@) == Err::<((nat, nat, nat), Seq<u8>), SnapshotError>(e),
        },
{
    if b.len() < 4 {
        return Err(SnapshotError::Truncated);
    }
    if b[0] != 0x54 || b[1] != 0x53 || b[2] != 0x4b || b[3] != 0x31 {
        proof {
            if b@.take(4) == snapshot_magic() {
                assert(b@[0] == b@.take(4)[0] && b@[1] == b@.take(4)[1] && b@[2] == b@.take(4)[2] && b@[3] == b@.take(
                    4,
                )[3]);
            }
        }
        return Err(SnapshotError::InvalidMagic);
    }
    assert(b@.take(4) =~= snapshot_magic());
    match get_bytes(b, 4) {
        None => Err(SnapshotError::Truncated),
        Some((_, b1)) => match get_u64(b1) {
            None => Err(SnapshotError::Truncated),
            Some((seq, b2)) => match get_u32(b2) {
                None => Err(SnapshotError::Truncated),
                Some((tasks, b3)) => match get_u32(b3) {
                    None => Err(SnapshotError::Truncated),
                    Some((edges, b4)) => {
                        proof {
                            assert(b1@.take(8) =~= b@.subrange(4, 12));
                            assert(b2@.take(4) =~= b@.subrange(12, 16));
                            assert(b3@.take(4) =~= b@.subrange(16, 20));
                            assert(b4@ =~= b@.skip(20));
                        }
                        Ok(((seq, tasks, edges), b4))
                    },
                },
            },
        },
    }
}

/// Reading some tasks and then the others is reading all of them.
spec fn tasks_go_on(b: Seq<u8>, n: nat, read: Seq<TaskModel>, rest: Seq<u8>) -> bool {
    read.len() <= n && parsed_tasks(b, n) == match parsed_tasks(rest, (n - read.len()) as nat) {
        Err(e) => Err(e),
        Ok((tasks, end)) => Ok((read + tasks, end)),
    }
}

/// Reads `n` tasks.
#[verifier::rlimit(30)]
fn read_tasks(b: &[u8], n: u32) -> (r: Result<(Vec<Task>, &[u8]), SnapshotError>)
    ensures
        match r {
            Ok((v, rest)) => parsed_tasks(b@, n as nat) == Ok::<_, SnapshotError>((task_models(v@), rest@)),
            Err(e) => parsed_tasks(b@, n as nat) == Err::<(Seq<TaskModel>, Seq<u8>), SnapshotError>(e),
        },
{
    let mut v: Vec<Task> = Vec::new();
    let mut rest: &[u8] = b;
    proof {
        assert(task_models(v@) =~= Seq::empty());
        match parsed_tasks(b@, n as nat) {
            Ok((tasks, end)) => {
                assert(Seq::empty() + tasks =~= tasks);
            },
            Err(e) => {},
        }
    }
    for i in 0..n
        invariant
            v@.len() == i,
            tasks_go_on(b@, n as nat, task_models(v@), rest@),
    {
        let ghost before = task_models(v@);
        let (task, after) = match read_task(rest) {
            Err(e) => {
                return Err(e);
            },
            Ok(x) => x,
        };
        let ghost model = task@;
        v.push(task);
        rest = after;
        proof {
            assert(task_models(v@) =~= before.push(model));
            match parsed_tasks(rest@, (n - i - 1) as nat) {
                Ok((tasks, end)) => {
                    assert(before + (seq![model] + tasks) =~= task_models(v@) + tasks);
                },
                Err(e) => {},
            }
        }
    }
    assert(task_models(v@) + Seq::empty() =~= task_models(v@));
    Ok((v, rest))
}

/// Reading some edges and then the others is reading all of them.
spec fn edges_go_on(b: Seq<u8>, n: nat, read: Seq<Dependency>, rest: Seq<u8>) -> bool {
    read.len() <= n && parsed_edges(b, n) == match parsed_edges(rest, (n - read.len()) as nat) {
        Err(e) => Err(e),
        Ok((edges, end)) => Ok((read + edges, end)),
    }
}

/// Reads `n` edges.
#[verifier::rlimit(30)]
fn read_edges(b: &[u8], n: u32) -> (r: Result<(Vec<Dependency>, &[u8]), SnapshotError>)
    ensures
        match r {
            Ok((v, rest)) => parsed_edges(b@, n as nat) == Ok::<_, SnapshotError>((v@, rest@)),
            Err(e) => parsed_edges(b@, n as nat) == Err::<(Seq<Dependency>, Seq<u8>), SnapshotError>(e),
        },
{
    let mut v: Vec<Dependency> = Vec::new();
    let mut rest: &[u8] = b;
    proof {
        match parsed_edges(b@, n as nat) {
            Ok((edges, end)) => {
                assert(v@ + edges =~= edges);
            },
            Err(e) => {},
        }
    }
    for i in 0..n
        invariant
            v@.len() == i,
            edges_go_on(b@, n as nat, v@, rest@),
    {
        let ghost before = v@;
        let (edge, after) = match read_edge(rest) {
            Err(e) => {
                return Err(e);
            },
            Ok(x) => x,
        };
        v.push(edge);
        rest = after;
        proof {
            match parsed_edges(rest@, (n - i - 1) as nat) {
                Ok((edges, end)) => {
                    assert(before + (seq![edge] + edges) =~= v@ + edges);
                },
                Err(e) => {},
            }
        }
    }
    assert(v@ + Seq::empty() =~= v@);
    Ok((v, rest))
}

/// Reading entries leaves no more than there was.
proof fn lemma_entries_shorter(b: Seq<u8>, n: nat)
    ensures
        parsed_entries(b, n) matches Ok((_, rest)) ==> rest.len() <= b.len(),
    decreases n,
{
    if n > 0 {
        if let Ok((key, rest)) = parsed_text(b) {
            if let Ok((value, after)) = parsed_blob(rest, 2) {
                lemma_entries_shorter(after, (n - 1) as nat);
            }
        }
    }
}

/// Reading a task leaves no more than there was.
proof fn lemma_task_shorter(b: Seq<u8>)
    ensures
        parsed_task(b) matches Ok((_, rest)) ==> rest.len() <= b.len(),
{
    reveal(parsed_task);
    if let Some((id, typed)) = take_number(b, 16) {
        if let Ok((task_type, loaded)) = parsed_text(typed) {
            if let Ok((payload, stated)) = parsed_blob(loaded, 4) {
                if let Ok((status, numbered)) = parsed_status(stated) {
                    if let Ok((numbers, rest)) = parsed_numbers(numbered) {
                        if let Ok((parent, counted)) = parsed_parent(rest) {
                            if let Some((count, entries)) = take_number(counted, 2) {
                                lemma_entries_shorter(entries, count);
                            }
                        }
                    }
                }
            }
        }
    }
}

/// Reading tasks leaves no more than there was.
proof fn lemma_tasks_shorter(b: Seq<u8>, n: nat)
    ensures
        parsed_tasks(b, n) matches Ok((_, rest)) ==> rest.len() <= b.len(),
    decreases n,
{
    if n > 0 {
        lemma_task_shorter(b);
        if let Ok((task, rest)) = parsed_task(b) {
            lemma_tasks_shorter(rest, (n - 1) as nat);
        }
    }
}

/// Reading edges leaves no more than there was.
proof fn lemma_edges_shorter(b: Seq<u8>, n: nat)
    ensures
        parsed_edges(b, n) matches Ok((_, rest)) ==> rest.len() <= b.len(),
    decreases n,
{
    if n > 0 {
        if let Ok((edge, rest)) = parsed_edge(b) {
            lemma_edges_shorter(rest, (n - 1) as nat);
        }
    }
}

/// Reads a snapshot. Bytes after it are ignored.
pub fn read_snapshot(b: &[u8]) -> (r: Result<SnapshotData, SnapshotError>)
    ensures
        match r {
            Ok(data) => parsed_snapshot(b@) == Ok::<SnapshotModel, SnapshotError>(data@),
            Err(e) => parsed_snapshot(b@) == Err::<SnapshotModel, SnapshotError>(e),
        },
{
    let ((seq, task_count, edge_count), body) = match read_header(b) {
        Err(e) => {
            return Err(e);
        },
        Ok(x) => x,
    };
    let (tasks, rest) = match read_tasks(body, task_count) {
        Err(e) => {
            return Err(e);
        },
        Ok(x) => x,
    };
    let (edges, end) = match read_edges(rest, edge_count) {
        Err(e) => {
            return Err(e);
        },
        Ok(x) => x,
    };
    proof {
        lemma_tasks_shorter(body@, task_count as nat);
        lemma_edges_shorter(rest@, edge_count as nat);
    }
    let n: usize = b.len() - end.len();
    assert(b@.subrange(0, n as int) =~= b@.take(n as int));
    match get_u32(end) {
        None => Err(SnapshotError::Truncated),
        Some((crc, _)) => if crc != checksum(slice_subrange(b, 0, n)) {
            Err(SnapshotError::ChecksumMismatch)
        } else {
            Ok(SnapshotData { seq, tasks, edges })
        },
    }
}

// Reading what was written.

/// Whether a text, a blob and their lengths fit the format.
pub open spec fn entry_fits(entry: (Seq<char>, Seq<u8>)) -> bool {
    encode_utf8(entry.0).len() <= 0xffff && entry.1.len() <= 0xffff
}

/// Whether the lengths in a task fit the format.
pub open spec fn task_fits(task: TaskModel) -> bool {
    &&& encode_utf8(task.spec.task_type).len() <= 0xffff
    &&& task.spec.payload.len() <= 0xffff_ffff
    &&& task.spec.metadata.len() <= 0xffff
    &&& forall|i: int| 0 <= i < task.spec.metadata.len() ==> entry_fits(#[trigger] task.spec.metadata[i])
}

/// Whether the lengths in a task fit the format.
fn lengths_fit(task: &Task) -> (r: bool)
    ensures
        r == task_fits(task@),
{
    let spec: &TaskSpec = &task.spec;
    assert(task@.spec == spec@);
    if spec.task_type.as_str().as_bytes().len() > 0xffff || spec.payload.len() > 0xffff_ffff || spec.metadata.len()
        > 0xffff {
        return false;
    }
    for i in 0..spec.metadata.len()
        invariant
            task@.spec == spec@,
            forall|j: int| 0 <= j < i ==> entry_fits(#[trigger] task@.spec.metadata[j]),
    {
        let entry: &(String, Vec<u8>) = &spec.metadata[i];
        assert(task@.spec.metadata[i as int] == entry_model(*entry));
        if entry.0.as_str().as_bytes().len() > 0xffff || entry.1.len() > 0xffff {
            assert(!entry_fits(task@.spec.metadata[i as int]));
            return false;
        }
    }
    true
}

/// Whether the lengths in all of `tasks` fit the format, so that reading a
/// snapshot of them gives them back.
pub fn snapshot_fits(tasks: &[Task]) -> (r: bool)
    ensures
        r == forall|i: int| 0 <= i < tasks@.len() ==> task_fits((#[trigger] tasks@[i])@),
{
    for i in 0..tasks.len()
        invariant
            forall|j: int| 0 <= j < i ==> task_fits((#[trigger] tasks@[j])@),
    {
        if !lengths_fit(&tasks[i]) {
            assert(!task_fits(tasks@[i as int]@));
            return false;
        }
    }
    true
}

/// A task without what it is blocked on.
pub open spec fn stored_task(task: TaskModel) -> TaskModel {
    TaskModel { spec: SpecModel { blocking_on: Seq::empty(), ..task.spec }, ..task }
}

/// An edge with its sequence number for its id.
pub open spec fn stored_edge(edge: Dependency) -> Dependency {
    Dependency { id: EdgeId(edge.seq), ..edge }
}

/// Runs of bytes can be joined in any grouping.
proof fn lemma_join(a: Seq<u8>, b: Seq<u8>, c: Seq<u8>)
    ensures
        (a + b) + c == a + (b + c),
{
    assert((a + b) + c =~= a + (b + c));
}

/// A blob is read back.
proof fn lemma_blob_back(bytes: Seq<u8>, rest: Seq<u8>)
    requires
        bytes.len() <= 0xffff_ffff,
    ensures
        parsed_blob(encoded_blob(bytes) + rest, 4) == Ok::<(Seq<u8>, Seq<u8>), SnapshotError>((bytes, rest)),
{
    lemma_capacities();
    lemma_take_number(bytes.len(), 4, bytes + rest);
    lemma_take_bytes(bytes, rest);
    assert(encoded_blob(bytes) + rest =~= le(bytes.len(), 4) + (bytes + rest));
}

/// A short blob is read back.
proof fn lemma_short_back(bytes: Seq<u8>, rest: Seq<u8>)
    requires
        bytes.len() <= 0xffff,
    ensures
        parsed_blob(encoded_short(bytes) + rest, 2) == Ok::<(Seq<u8>, Seq<u8>), SnapshotError>((bytes, rest)),
{
    lemma_capacities();
    lemma_take_number(bytes.len(), 2, bytes + rest);
    lemma_take_bytes(bytes, rest);
    assert(encoded_short(bytes) + rest =~= le(bytes.len(), 2) + (bytes + rest));
}

/// A text is read back.
proof fn lemma_text_back(text: Seq<char>, rest: Seq<u8>)
    requires
        encode_utf8(text).len() <= 0xffff,
    ensures
        parsed_text(encoded_text(text) + rest) == Ok::<(Seq<char>, Seq<u8>), SnapshotError>((text, rest)),
{
    let bytes = encode_utf8(text);
    lemma_capacities();
    lemma_take_number(bytes.len(), 2, bytes + rest);
    lemma_take_bytes(bytes, rest);
    vstd::utf8::encode_utf8_valid_utf8(text);
    vstd::utf8::encode_utf8_decode_utf8(text);
    assert(encoded_text(text) + rest =~= le(bytes.len(), 2) + (bytes + rest));
}

/// One byte is read back.
proof fn lemma_byte_back(byte: u8, rest: Seq<u8>)
    ensures
        take_number(seq![byte] + rest, 1) == Some((byte as nat, rest)),
{
    let b = seq![byte] + rest;
    assert(b.take(1).drop_first() =~= Seq::<u8>::empty());
    assert(b.take(1)[0] == byte);
    reveal_with_fuel(from_le, 2);
    assert(b.skip(1) =~= rest);
}

/// The number in bytes that were written for it.
proof fn lemma_number_back(x: nat, n: nat)
    requires
        x < capacity(n),
    ensures
        from_le(le(x, n).take(n as int)) == x,
        le(x, n).len() == n,
{
    lemma_le_len(x, n);
    lemma_from_le_le(x, n);
    assert(le(x, n).take(n as int) =~= le(x, n));
}

/// A status is read back.
proof fn lemma_status_back(status: TaskStatus, rest: Seq<u8>)
    ensures
        parsed_status(encoded_status(status) + rest) == Ok::<(TaskStatus, Seq<u8>), SnapshotError>((status, rest)),
{
    let tag = status_tag(status);
    let body = status_payload(status);
    lemma_capacities();
    match status {
        TaskStatus::Running { worker_id } => {
            lemma_number_back(worker_id.0 as nat, 8);
        },
        TaskStatus::Completed { result } => match result {
            TaskResult::Success { output_ref } => {
                lemma_number_back(output_ref as nat, 16);
            },
            TaskResult::Failed { error_code, output_ref } => {
                lemma_number_back(error_code as nat, 4);
                if let Some(output) = output_ref {
                    lemma_number_back(output as nat, 16);
                    assert(body.take(4) =~= le(error_code as nat, 4).take(4));
                    assert(body.skip(4).take(16) =~= le(output as nat, 16).take(16));
                }
            },
        },
        TaskStatus::Cancelled { reason } => {
            lemma_number_back(reason as nat, 4);
        },
        _ => {},
    }
    let blob = encoded_short(body) + rest;
    lemma_byte_back(tag, blob);
    assert(encoded_status(status) + rest =~= seq![tag] + blob);
    lemma_take_number(body.len(), 2, body + rest);
    lemma_take_bytes(body, rest);
    assert(blob =~= le(body.len(), 2) + (body + rest));
    if body.len() == 0 {
        assert(body + rest =~= rest);
    }
}

/// The priority, the times and the counts of a task are read back.
proof fn lemma_numbers_back(task: TaskModel, rest: Seq<u8>)
    ensures
        parsed_numbers(encoded_numbers(task) + rest) == Ok::<(Numbers, Seq<u8>), SnapshotError>(
            (
                Numbers {
                    priority: task.spec.priority,
                    created_at: task.created_at,
                    updated_at: task.updated_at,
                    seq: task.seq,
                    child_count: task.child_count,
                    edge_in_degree: task.edge_in_degree,
                },
                rest,
            ),
        ),
{
    lemma_capacities();
    let b = encoded_numbers(task) + rest;
    lemma_number_back(task.created_at as nat, 8);
    lemma_number_back(task.updated_at as nat, 8);
    lemma_number_back(task.seq as nat, 8);
    lemma_number_back(task.child_count as nat, 2);
    lemma_number_back(task.edge_in_degree as nat, 2);
    assert(b[0] == priority_byte(task.spec.priority));
    assert(b.subrange(1, 9) =~= le(task.created_at as nat, 8).take(8));
    assert(b.subrange(9, 17) =~= le(task.updated_at as nat, 8).take(8));
    assert(b.subrange(17, 25) =~= le(task.seq as nat, 8).take(8));
    assert(b.subrange(25, 27) =~= le(task.child_count as nat, 2).take(2));
    assert(b.subrange(27, 29) =~= le(task.edge_in_degree as nat, 2).take(2));
    assert(b.skip(29) =~= rest);
}

/// A parent is read back.
proof fn lemma_parent_back(parent: Option<TaskId>, rest: Seq<u8>)
    ensures
        parsed_parent(encoded_parent(parent) + rest) == Ok::<(Option<TaskId>, Seq<u8>), SnapshotError>(
            (parent, rest),
        ),
{
    match parent {
        Some(id) => {
            lemma_capacities();
            lemma_byte_back(1, le(id.0 as nat, 16) + rest);
            lemma_take_number(id.0 as nat, 16, rest);
            assert(encoded_parent(parent) + rest =~= seq![1u8] + (le(id.0 as nat, 16) + rest));
        },
        None => {
            lemma_byte_back(0, rest);
        },
    }
}

/// Whether reading a text from `b` gives `text` and leaves `rest`.
#[verifier::opaque]
spec fn reads_text(b: Seq<u8>, text: Seq<char>, rest: Seq<u8>) -> bool {
    parsed_text(b) == Ok::<(Seq<char>, Seq<u8>), SnapshotError>((text, rest))
}

/// Whether reading a blob from `b` gives `bytes` and leaves `rest`.
#[verifier::opaque]
spec fn reads_blob(b: Seq<u8>, bytes: Seq<u8>, rest: Seq<u8>) -> bool {
    parsed_blob(b, 4) == Ok::<(Seq<u8>, Seq<u8>), SnapshotError>((bytes, rest))
}

/// Whether reading a short blob from `b` gives `bytes` and leaves `rest`.
#[verifier::opaque]
spec fn reads_short(b: Seq<u8>, bytes: Seq<u8>, rest: Seq<u8>) -> bool {
    parsed_blob(b, 2) == Ok::<(Seq<u8>, Seq<u8>), SnapshotError>((bytes, rest))
}

/// Whether reading entries from `b` gives `entries` and leaves `rest`.
#[verifier::opaque]
spec fn reads_entries(b: Seq<u8>, entries: Seq<(Seq<char>, Seq<u8>)>, rest: Seq<u8>) -> bool {
    parsed_entries(b, entries.len()) == Ok::<(Seq<(Seq<char>, Seq<u8>)>, Seq<u8>), SnapshotError>((entries, rest))
}

/// Whether reading a task from `b` gives `task` and leaves `rest`.
#[verifier::opaque]
spec fn reads_task(b: Seq<u8>, task: TaskModel, rest: Seq<u8>) -> bool {
    parsed_task(b) == Ok::<(TaskModel, Seq<u8>), SnapshotError>((task, rest))
}

/// Whether reading tasks from `b` gives `tasks` and leaves `rest`.
#[verifier::opaque]
spec fn reads_tasks(b: Seq<u8>, tasks: Seq<TaskModel>, rest: Seq<u8>) -> bool {
    parsed_tasks(b, tasks.len()) == Ok::<(Seq<TaskModel>, Seq<u8>), SnapshotError>((tasks, rest))
}

/// An entry and then others are read.
#[verifier::rlimit(30)]
proof fn lemma_entries_step(
    b: Seq<u8>,
    first: (Seq<char>, Seq<u8>),
    valued: Seq<u8>,
    others: Seq<(Seq<char>, Seq<u8>)>,
    after: Seq<u8>,
    rest: Seq<u8>,
)
    requires
        reads_text(b, first.0, valued),
        reads_short(valued, first.1, after),
        reads_entries(after, others, rest),
    ensures
        reads_entries(b, seq![first] + others, rest),
{
    reveal(reads_text);
    reveal(reads_short);
    reveal(reads_entries);
    let all = seq![first] + others;
    assert(all.len() == others.len() + 1);
    assert(seq![(first.0, first.1)] + others =~= all);
}

/// Metadata entries are read back.
proof fn lemma_entries_back(entries: Seq<(Seq<char>, Seq<u8>)>, rest: Seq<u8>)
    requires
        forall|i: int| 0 <= i < entries.len() ==> entry_fits(#[trigger] entries[i]),
    ensures
        reads_entries(encoded_entries(entries) + rest, entries, rest),
    decreases entries.len(),
{
    if entries.len() == 0 {
        reveal(reads_entries);
        assert(encoded_entries(entries) + rest =~= rest);
        assert(entries =~= Seq::empty());
    } else {
        let first = entries[0];
        let others = entries.drop_first();
        assert(entry_fits(entries[0]));
        assert forall|i: int| 0 <= i < others.len() implies entry_fits(#[trigger] others[i]) by {
            assert(others[i] == entries[i + 1]);
        }
        lemma_entries_back(others, rest);
        let after = encoded_entries(others) + rest;
        let valued = encoded_short(first.1) + after;
        assert(reads_short(valued, first.1, after)) by {
            reveal(reads_short);
            lemma_short_back(first.1, after);
        }
        assert(reads_text(encoded_text(first.0) + valued, first.0, valued)) by {
            reveal(reads_text);
            lemma_text_back(first.0, valued);
        }
        lemma_entries_step(encoded_text(first.0) + valued, first, valued, others, after, rest);
        lemma_join(encoded_text(first.0) + encoded_short(first.1), encoded_entries(others), rest);
        lemma_join(encoded_text(first.0), encoded_short(first.1), after);
        assert(seq![first] + others =~= entries);
    }
}

/// The parts of a task, read one after the other, make up the task.
#[verifier::rlimit(30)]
proof fn lemma_task_read(
    b: Seq<u8>,
    task: TaskModel,
    typed: Seq<u8>,
    loaded: Seq<u8>,
    stated: Seq<u8>,
    numbered: Seq<u8>,
    tail: Seq<u8>,
    counted: Seq<u8>,
    entries: Seq<u8>,
    rest: Seq<u8>,
)
    requires
        task.spec.blocking_on.len() == 0,
        take_number(b, 16) == Some((task.id.0 as nat, typed)),
        reads_text(typed, task.spec.task_type, loaded),
        reads_blob(loaded, task.spec.payload, stated),
        parsed_status(stated) == Ok::<(TaskStatus, Seq<u8>), SnapshotError>((task.status, numbered)),
        parsed_numbers(numbered) == Ok::<(Numbers, Seq<u8>), SnapshotError>(
            (
                Numbers {
                    priority: task.spec.priority,
                    created_at: task.created_at,
                    updated_at: task.updated_at,
                    seq: task.seq,
                    child_count: task.child_count,
                    edge_in_degree: task.edge_in_degree,
                },
                tail,
            ),
        ),
        parsed_parent(tail) == Ok::<(Option<TaskId>, Seq<u8>), SnapshotError>((task.spec.parent, counted)),
        take_number(counted, 2) == Some((task.spec.metadata.len(), entries)),
        reads_entries(entries, task.spec.metadata, rest),
    ensures
        reads_task(b, task, rest),
{
    reveal(reads_text);
    reveal(reads_blob);
    reveal(reads_entries);
    reveal(reads_task);
    reveal(parsed_task);
    assert(task.spec.blocking_on =~= Seq::empty());
}

/// A task is read back.
#[verifier::rlimit(30)]
proof fn lemma_task_back(task: TaskModel, rest: Seq<u8>)
    requires
        task_fits(task),
    ensures
        reads_task(encoded_task(task) + rest, stored_task(task), rest),
{
    let entries = encoded_entries(task.spec.metadata) + rest;
    let counted = le(task.spec.metadata.len(), 2) + entries;
    let tail = encoded_parent(task.spec.parent) + counted;
    let numbered = encoded_numbers(task) + tail;
    let stated = encoded_status(task.status) + numbered;
    let loaded = encoded_blob(task.spec.payload) + stated;
    let typed = encoded_text(task.spec.task_type) + loaded;
    let whole = le(task.id.0 as nat, 16) + typed;
    lemma_entries_back(task.spec.metadata, rest);
    lemma_head_back(task, typed, counted, entries);
    lemma_parent_back(task.spec.parent, counted);
    lemma_numbers_back(task, tail);
    lemma_status_back(task.status, numbered);
    assert(reads_blob(loaded, task.spec.payload, stated)) by {
        reveal(reads_blob);
        lemma_blob_back(task.spec.payload, stated);
    }
    assert(reads_text(typed, task.spec.task_type, loaded)) by {
        reveal(reads_text);
        lemma_text_back(task.spec.task_type, loaded);
    }
    lemma_task_read(
        whole,
        stored_task(task),
        typed,
        loaded,
        stated,
        numbered,
        tail,
        counted,
        entries,
        rest,
    );
    lemma_task_joined(task, rest);
}

/// The id of a task and the number of its entries are read back.
proof fn lemma_head_back(task: TaskModel, typed: Seq<u8>, counted: Seq<u8>, entries: Seq<u8>)
    requires
        task.spec.metadata.len() <= 0xffff,
        counted == le(task.spec.metadata.len(), 2) + entries,
    ensures
        take_number(le(task.id.0 as nat, 16) + typed, 16) == Some((task.id.0 as nat, typed)),
        take_number(counted, 2) == Some((task.spec.metadata.len(), entries)),
{
    lemma_capacities();
    lemma_take_number(task.id.0 as nat, 16, typed);
    lemma_take_number(task.spec.metadata.len(), 2, entries);
}

/// The parts of a task and what follows, grouped from the end.
proof fn lemma_task_joined(task: TaskModel, rest: Seq<u8>)
    ensures
        encoded_task(task) + rest == le(task.id.0 as nat, 16) + (encoded_text(task.spec.task_type) + (encoded_blob(
            task.spec.payload,
        ) + (encoded_status(task.status) + (encoded_numbers(task) + (encoded_parent(task.spec.parent) + (le(
            task.spec.metadata.len(),
            2,
        ) + (encoded_entries(task.spec.metadata) + rest))))))),
{
    reveal(encoded_task);
    let p1 = le(task.id.0 as nat, 16);
    let p2 = encoded_text(task.spec.task_type);
    let p3 = encoded_blob(task.spec.payload);
    let p4 = encoded_status(task.status);
    let p5 = encoded_numbers(task);
    let p6 = encoded_parent(task.spec.parent);
    let p7 = le(task.spec.metadata.len(), 2);
    let p8 = encoded_entries(task.spec.metadata);
    let r7 = p8 + rest;
    let r6 = p7 + r7;
    let r5 = p6 + r6;
    let r4 = p5 + r5;
    let r3 = p4 + r4;
    let r2 = p3 + r3;
    lemma_join(p1 + p2 + p3 + p4 + p5 + p6 + p7, p8, rest);
    lemma_join(p1 + p2 + p3 + p4 + p5 + p6, p7, r7);
    lemma_join(p1 + p2 + p3 + p4 + p5, p6, r6);
    lemma_join(p1 + p2 + p3 + p4, p5, r5);
    lemma_join(p1 + p2 + p3, p4, r4);
    lemma_join(p1 + p2, p3, r3);
    lemma_join(p1, p2, r2);
}

/// An edge is read back.
proof fn lemma_edge_back(edge: Dependency, rest: Seq<u8>)
    ensures
        parsed_edge(encoded_edge(edge) + rest) == Ok::<(Dependency, Seq<u8>), SnapshotError>(
            (stored_edge(edge), rest),
        ),
{
    lemma_capacities();
    let last = le(edge.seq as nat, 8) + rest;
    let tagged = encoded_kind(edge.kind) + last;
    let ended = le(edge.to.0 as nat, 16) + tagged;
    lemma_take_number(edge.seq as nat, 8, rest);
    match edge.kind {
        EdgeKind::Blocking => {
            lemma_byte_back(0, last);
        },
        EdgeKind::Preference => {
            lemma_byte_back(1, last);
        },
        EdgeKind::Artifact { artifact_type, artifact_id } => {
            let id = le(artifact_id as nat, 16) + last;
            lemma_take_number(artifact_id as nat, 16, last);
            lemma_take_number(artifact_type as nat, 4, id);
            lemma_byte_back(2, le(artifact_type as nat, 4) + id);
            assert(tagged =~= seq![2u8] + (le(artifact_type as nat, 4) + id));
        },
        EdgeKind::Parent => {
            lemma_byte_back(3, last);
        },
    }
    lemma_take_number(edge.to.0 as nat, 16, tagged);
    lemma_take_number(edge.from.0 as nat, 16, ended);
    assert(encoded_edge(edge) + rest =~= le(edge.from.0 as nat, 16) + ended);
}

/// A task and then others are read.
#[verifier::rlimit(30)]
proof fn lemma_tasks_step(
    b: Seq<u8>,
    first: TaskModel,
    after: Seq<u8>,
    others: Seq<TaskModel>,
    rest: Seq<u8>,
)
    requires
        reads_task(b, first, after),
        reads_tasks(after, others, rest),
    ensures
        reads_tasks(b, seq![first] + others, rest),
{
    reveal(reads_task);
    reveal(reads_tasks);
    assert((seq![first] + others).len() == others.len() + 1);
}

/// Tasks are read back.
proof fn lemma_tasks_back(tasks: Seq<TaskModel>, rest: Seq<u8>)
    requires
        forall|i: int| 0 <= i < tasks.len() ==> task_fits(#[trigger] tasks[i]),
    ensures
        reads_tasks(encoded_tasks(tasks) + rest, tasks.map_values(|t: TaskModel| stored_task(t)), rest),
    decreases tasks.len(),
{
    let stored = tasks.map_values(|t: TaskModel| stored_task(t));
    if tasks.len() == 0 {
        reveal(reads_tasks);
        assert(encoded_tasks(tasks) + rest =~= rest);
        assert(stored =~= Seq::empty());
    } else {
        let others = tasks.drop_first();
        let after = encoded_tasks(others) + rest;
        assert(task_fits(tasks[0]));
        assert forall|i: int| 0 <= i < others.len() implies task_fits(#[trigger] others[i]) by {
            assert(others[i] == tasks[i + 1]);
        }
        lemma_tasks_back(others, rest);
        lemma_task_back(tasks[0], after);
        lemma_tasks_step(
            encoded_task(tasks[0]) + after,
            stored_task(tasks[0]),
            after,
            others.map_values(|t: TaskModel| stored_task(t)),
            rest,
        );
        lemma_join(encoded_task(tasks[0]), encoded_tasks(others), rest);
        assert(stored =~= seq![stored_task(tasks[0])] + others.map_values(|t: TaskModel| stored_task(t)));
    }
}

/// Edges are read back.
proof fn lemma_edges_back(edges: Seq<Dependency>, rest: Seq<u8>)
    ensures
        parsed_edges(encoded_edges(edges) + rest, edges.len()) == Ok::<(Seq<Dependency>, Seq<u8>), SnapshotError>(
            (edges.map_values(|e: Dependency| stored_edge(e)), rest),
        ),
    decreases edges.len(),
{
    let stored = edges.map_values(|e: Dependency| stored_edge(e));
    if edges.len() == 0 {
        assert(encoded_edges(edges) + rest =~= rest);
        assert(stored =~= Seq::empty());
    } else {
        let others = edges.drop_first();
        lemma_edges_back(others, rest);
        lemma_edge_back(edges[0], encoded_edges(others) + rest);
        lemma_join(encoded_edge(edges[0]), encoded_edges(others), rest);
        assert(stored =~= seq![stored_edge(edges[0])] + others.map_values(|e: Dependency| stored_edge(e)));
    }
}

/// The beginning of a snapshot is read back.
proof fn lemma_header_back(seq: u64, tasks: nat, edges: nat, body: Seq<u8>)
    requires
        tasks <= 0xffff_ffff,
        edges <= 0xffff_ffff,
    ensures
        parsed_header(encoded_header(seq, tasks, edges) + body) == Ok::<((nat, nat, nat), Seq<u8>), SnapshotError>(
            ((seq as nat, tasks, edges), body),
        ),
{
    lemma_capacities();
    let b = encoded_header(seq, tasks, edges) + body;
    lemma_number_back(seq as nat, 8);
    lemma_number_back(tasks, 4);
    lemma_number_back(edges, 4);
    assert(b.take(4) =~= snapshot_magic());
    assert(b.subrange(4, 12) =~= le(seq as nat, 8).take(8));
    assert(b.subrange(12, 16) =~= le(tasks, 4).take(4));
    assert(b.subrange(16, 20) =~= le(edges, 4).take(4));
    assert(b.skip(20) =~= body);
}

/// The parts of a snapshot, read one after the other, make up the snapshot.
proof fn lemma_snapshot_read(
    b: Seq<u8>,
    data: SnapshotModel,
    body: Seq<u8>,
    rest: Seq<u8>,
    end: Seq<u8>,
)
    requires
        parsed_header(b) == Ok::<((nat, nat, nat), Seq<u8>), SnapshotError>(
            ((data.seq as nat, data.tasks.len(), data.edges.len()), body),
        ),
        reads_tasks(body, data.tasks, rest),
        parsed_edges(rest, data.edges.len()) == Ok::<(Seq<Dependency>, Seq<u8>), SnapshotError>((data.edges, end)),
        take_number(end, 4) matches Some((crc, _)) && crc == crc32(b.take(b.len() - end.len())),
    ensures
        parsed_snapshot(b) == Ok::<SnapshotModel, SnapshotError>(data),
{
    reveal(reads_tasks);
}

/// Reading a snapshot gives back what was written, as long as the lengths in it
/// fit the format: the tasks without what they are blocked on, which the edges
/// say, and the edges with their sequence numbers for their ids. Bytes after
/// the snapshot do not matter.
pub proof fn law_snapshot_round_trip(
    seq: u64,
    tasks: Seq<TaskModel>,
    edges: Seq<Dependency>,
    trailing: Seq<u8>,
)
    requires
        tasks.len() <= 0xffff_ffff,
        edges.len() <= 0xffff_ffff,
        forall|i: int| 0 <= i < tasks.len() ==> task_fits(#[trigger] tasks[i]),
    ensures
        parsed_snapshot(encoded_snapshot(seq, tasks, edges) + trailing) == Ok::<SnapshotModel, SnapshotError>(
            SnapshotModel {
                seq,
                tasks: tasks.map_values(|t: TaskModel| stored_task(t)),
                edges: edges.map_values(|e: Dependency| stored_edge(e)),
            },
        ),
{
    let whole = snapshot_body(seq, tasks, edges);
    let crc = crc32(whole);
    let end = le(crc as nat, 4) + trailing;
    let rest = encoded_edges(edges) + end;
    let body = encoded_tasks(tasks) + rest;
    let header = encoded_header(seq, tasks.len(), edges.len());
    lemma_join(whole, le(crc as nat, 4), trailing);
    lemma_join(header + encoded_tasks(tasks), encoded_edges(edges), end);
    lemma_join(header, encoded_tasks(tasks), rest);
    lemma_header_back(seq, tasks.len(), edges.len(), body);
    lemma_tasks_back(tasks, rest);
    lemma_edges_back(edges, end);
    let data = SnapshotModel {
        seq,
        tasks: tasks.map_values(|t: TaskModel| stored_task(t)),
        edges: edges.map_values(|e: Dependency| stored_edge(e)),
    };
    let b = header + body;
    lemma_capacities();
    lemma_take_number(crc as nat, 4, trailing);
    assert(b == whole + end);
    assert(b.take(b.len() - end.len()) =~= whole);
    lemma_snapshot_read(b, data, body, rest, end);
}

// What the format promises.

/// Which lengths the format has room for: 65535 bytes in the type of a task and
/// in the keys and values of its metadata, 65535 metadata entries, and payloads
/// of less than four gigabytes.
pub proof fn law_what_fits(task: TaskModel)
    ensures
        task_fits(task) <==> {
            &&& encode_utf8(task.spec.task_type).len() <= 65535
            &&& task.spec.payload.len() <= 4294967295
            &&& task.spec.metadata.len() <= 65535
            &&& forall|i: int|
                0 <= i < task.spec.metadata.len() ==> encode_utf8((#[trigger] task.spec.metadata[i]).0).len() <= 65535
                    && task.spec.metadata[i].1.len() <= 65535
        },
{
    if forall|i: int|
        0 <= i < task.spec.metadata.len() ==> encode_utf8((#[trigger] task.spec.metadata[i]).0).len() <= 65535
            && task.spec.metadata[i].1.len() <= 65535 {
        assert forall|i: int| 0 <= i < task.spec.metadata.len() implies entry_fits(#[trigger] task.spec.metadata[i]) by {}
    }
    if forall|i: int| 0 <= i < task.spec.metadata.len() ==> entry_fits(#[trigger] task.spec.metadata[i]) {
        assert forall|i: int| 0 <= i < task.spec.metadata.len() implies encode_utf8(
            (#[trigger] task.spec.metadata[i]).0,
        ).len() <= 65535 && task.spec.metadata[i].1.len() <= 65535 by {
            assert(entry_fits(task.spec.metadata[i]));
        }
    }
}

/// Whatever was written and has room in the format is read again: the sequence
/// number; every task with its id, type, payload, priority, parent, metadata,
/// status, times and counts; and every edge with its ends, its kind and its
/// sequence number, which is its id now. Only what a task is blocked on is left
/// to the edges.
#[verifier::rlimit(60)]
pub proof fn law_snapshot_keeps(
    seq: u64,
    tasks: Seq<TaskModel>,
    edges: Seq<Dependency>,
    trailing: Seq<u8>,
)
    requires
        tasks.len() <= 4294967295,
        edges.len() <= 4294967295,
        forall|i: int|
            0 <= i < tasks.len() ==> {
                let spec = (#[trigger] tasks[i]).spec;
                &&& encode_utf8(spec.task_type).len() <= 65535
                &&& spec.payload.len() <= 4294967295
                &&& spec.metadata.len() <= 65535
                &&& forall|j: int|
                    0 <= j < spec.metadata.len() ==> encode_utf8((#[trigger] spec.metadata[j]).0).len() <= 65535
                        && spec.metadata[j].1.len() <= 65535
            },
    ensures
        parsed_snapshot(encoded_snapshot(seq, tasks, edges) + trailing) is Ok,
        ({
            let m = parsed_snapshot(encoded_snapshot(seq, tasks, edges) + trailing)->Ok_0;
            &&& m.seq == seq
            &&& m.tasks.len() == tasks.len()
            &&& m.edges.len() == edges.len()
            &&& forall|i: int|
                0 <= i < tasks.len() ==> {
                    &&& (#[trigger] m.tasks[i]).id == tasks[i].id
                    &&& m.tasks[i].spec.task_type == tasks[i].spec.task_type
                    &&& m.tasks[i].spec.payload == tasks[i].spec.payload
                    &&& m.tasks[i].spec.priority == tasks[i].spec.priority
                    &&& m.tasks[i].spec.parent == tasks[i].spec.parent
                    &&& m.tasks[i].spec.metadata == tasks[i].spec.metadata
                    &&& m.tasks[i].spec.blocking_on.len() == 0
                    &&& m.tasks[i].status == tasks[i].status
                    &&& m.tasks[i].created_at == tasks[i].created_at
                    &&& m.tasks[i].updated_at == tasks[i].updated_at
                    &&& m.tasks[i].seq == tasks[i].seq
                    &&& m.tasks[i].child_count == tasks[i].child_count
                    &&& m.tasks[i].edge_in_degree == tasks[i].edge_in_degree
                }
            &&& forall|i: int|
                0 <= i < edges.len() ==> {
                    &&& (#[trigger] m.edges[i]).from == edges[i].from
                    &&& m.edges[i].to == edges[i].to
                    &&& m.edges[i].kind == edges[i].kind
                    &&& m.edges[i].seq == edges[i].seq
                    &&& m.edges[i].id == EdgeId(edges[i].seq)
                }
        }),
{
    assert forall|i: int| 0 <= i < tasks.len() implies task_fits(#[trigger] tasks[i]) by {
        law_what_fits(tasks[i]);
    }
    law_snapshot_round_trip(seq, tasks, edges, trailing);
}

/// What reading the body of a snapshot comes to, by what follows it.
#[verifier::rlimit(60)]
proof fn lemma_snapshot_end(seq: u64, tasks: Seq<TaskModel>, edges: Seq<Dependency>, end: Seq<u8>)
    requires
        tasks.len() <= 0xffff_ffff,
        edges.len() <= 0xffff_ffff,
        forall|i: int| 0 <= i < tasks.len() ==> task_fits(#[trigger] tasks[i]),
    ensures
        take_number(end, 4) is None ==> parsed_snapshot(snapshot_body(seq, tasks, edges) + end) == Err::<
            SnapshotModel,
            SnapshotError,
        >(SnapshotError::Truncated),
        take_number(end, 4) matches Some((crc, _)) ==> crc != crc32(snapshot_body(seq, tasks, edges))
            ==> parsed_snapshot(snapshot_body(seq, tasks, edges) + end) == Err::<SnapshotModel, SnapshotError>(
            SnapshotError::ChecksumMismatch,
        ),
{
    let whole = snapshot_body(seq, tasks, edges);
    let rest = encoded_edges(edges) + end;
    let body = encoded_tasks(tasks) + rest;
    let header = encoded_header(seq, tasks.len(), edges.len());
    lemma_join(header + encoded_tasks(tasks), encoded_edges(edges), end);
    lemma_join(header, encoded_tasks(tasks), rest);
    lemma_header_back(seq, tasks.len(), edges.len(), body);
    lemma_tasks_back(tasks, rest);
    lemma_edges_back(edges, end);
    let b = header + body;
    assert(b == whole + end);
    assert(b.take(b.len() - end.len()) =~= whole);
    reveal(reads_tasks);
    let stored = tasks.map_values(|t: TaskModel| stored_task(t));
    assert(stored.len() == tasks.len());
}

/// A snapshot whose checksum is missing is cut off, and one whose checksum is not
/// that of what comes before it was damaged: neither is read. The checksum is
/// that of everything before it.
pub proof fn law_snapshot_checked(seq: u64, tasks: Seq<TaskModel>, edges: Seq<Dependency>, end: Seq<u8>)
    requires
        tasks.len() <= 0xffff_ffff,
        edges.len() <= 0xffff_ffff,
        forall|i: int| 0 <= i < tasks.len() ==> task_fits(#[trigger] tasks[i]),
    ensures
        ({
            let s = encoded_snapshot(seq, tasks, edges);
            let n = s.len() - 4;
            let b = s.take(n) + end;
            let sum = end[0] + 256 * (end[1] + 256 * (end[2] + 256 * end[3]));
            &&& n >= 20
            &&& s[n] + 256 * (s[n + 1] + 256 * (s[n + 2] + 256 * s[n + 3])) == crc32(s.take(n))
            &&& end.len() < 4 ==> parsed_snapshot(b) == Err::<SnapshotModel, SnapshotError>(SnapshotError::Truncated)
            &&& end.len() >= 4 && sum != crc32(s.take(n)) ==> parsed_snapshot(b) == Err::<
                SnapshotModel,
                SnapshotError,
            >(SnapshotError::ChecksumMismatch)
        }),
{
    let whole = snapshot_body(seq, tasks, edges);
    let s = encoded_snapshot(seq, tasks, edges);
    let n = s.len() - 4;
    lemma_capacities();
    lemma_le_len(crc32(whole) as nat, 4);
    lemma_le_len(seq as nat, 8);
    lemma_le_len(tasks.len(), 4);
    lemma_le_len(edges.len(), 4);
    lemma_from_le_le(crc32(whole) as nat, 4);
    assert(s.take(n) =~= whole);
    assert(s.subrange(n, n + 4) =~= le(crc32(whole) as nat, 4));
    law_four_bytes(s.subrange(n, n + 4));
    lemma_snapshot_end(seq, tasks, edges, end);
    if end.len() >= 4 {
        law_four_bytes(end.take(4));
    }
}

/// What is refused at once: fewer than twenty bytes, and bytes that do not begin
/// with `TSK1`.
pub proof fn law_snapshot_refused(b: Seq<u8>)
    ensures
        b.len() < 4 ==> parsed_snapshot(b) == Err::<SnapshotModel, SnapshotError>(SnapshotError::Truncated),
        b.len() >= 4 && !(b[0] == 0x54 && b[1] == 0x53 && b[2] == 0x4b && b[3] == 0x31) ==> parsed_snapshot(b) == Err::<
            SnapshotModel,
            SnapshotError,
        >(SnapshotError::InvalidMagic),
        4 <= b.len() < 20 && b[0] == 0x54 && b[1] == 0x53 && b[2] == 0x4b && b[3] == 0x31 ==> parsed_snapshot(b)
            == Err::<SnapshotModel, SnapshotError>(SnapshotError::Truncated),
{
    if b.len() >= 4 {
        let front = b.take(4);
        assert(front[0] == b[0] && front[1] == b[1] && front[2] == b[2] && front[3] == b[3]);
        if b[0] == 0x54 && b[1] == 0x53 && b[2] == 0x4b && b[3] == 0x31 {
            assert(front =~= snapshot_magic());
        }
    }
}

/// How a snapshot begins: `TSK1`, the sequence number in eight bytes, and the
/// numbers of tasks and edges in four bytes each. Tasks and edges follow in
/// their order, and the checksum of all of that.
pub proof fn law_snapshot_layout(seq: u64, tasks: Seq<TaskModel>, edges: Seq<Dependency>)
    requires
        tasks.len() <= 4294967295,
        edges.len() <= 4294967295,
    ensures
        ({
            let s = encoded_snapshot(seq, tasks, edges);
            &&& s.len() >= 24
            &&& s[0] == 0x54 && s[1] == 0x53 && s[2] == 0x4b && s[3] == 0x31
            &&& s.subrange(4, 12) == le(seq as nat, 8)
            &&& s[12] + 256 * (s[13] + 256 * (s[14] + 256 * s[15])) == tasks.len()
            &&& s[16] + 256 * (s[17] + 256 * (s[18] + 256 * s[19])) == edges.len()
            &&& s.subrange(20, s.len() - 4) == encoded_tasks(tasks) + encoded_edges(edges)
        }),
        encoded_tasks(Seq::<TaskModel>::empty()).len() == 0,
        encoded_edges(Seq::<Dependency>::empty()).len() == 0,
        tasks.len() > 0 ==> encoded_tasks(tasks) == encoded_task(tasks[0]) + encoded_tasks(tasks.skip(1)),
        edges.len() > 0 ==> encoded_edges(edges) == encoded_edge(edges[0]) + encoded_edges(edges.skip(1)),
{
    let whole = snapshot_body(seq, tasks, edges);
    let s = encoded_snapshot(seq, tasks, edges);
    lemma_capacities();
    lemma_le_len(crc32(whole) as nat, 4);
    lemma_le_len(seq as nat, 8);
    lemma_le_len(tasks.len(), 4);
    lemma_le_len(edges.len(), 4);
    lemma_from_le_le(tasks.len(), 4);
    lemma_from_le_le(edges.len(), 4);
    assert(s.subrange(4, 12) =~= le(seq as nat, 8));
    assert(s.subrange(12, 16) =~= le(tasks.len(), 4));
    assert(s.subrange(16, 20) =~= le(edges.len(), 4));
    assert(s.subrange(20, s.len() - 4) =~= encoded_tasks(tasks) + encoded_edges(edges));
    law_four_bytes(s.subrange(12, 16));
    law_four_bytes(s.subrange(16, 20));
    if tasks.len() > 0 {
        assert(tasks.skip(1) =~= tasks.drop_first());
    }
    if edges.len() > 0 {
        assert(edges.skip(1) =~= edges.drop_first());
    }
}

/// How a status is written: a tag from 0 to 5 for pending, ready, running,
/// succeeded, failed and cancelled, the number of bytes that follow in two
/// bytes, and the worker, the output, the error code with the output if there
/// is one, or the reason.
pub proof fn law_status_layout(status: TaskStatus)
    ensures
        match status {
            TaskStatus::Pending => encoded_status(status) == seq![0u8, 0, 0],
            TaskStatus::Ready => encoded_status(status) == seq![1u8, 0, 0],
            TaskStatus::Running { worker_id } => encoded_status(status) == seq![2u8, 8, 0] + le(worker_id.0 as nat, 8),
            TaskStatus::Completed { result: TaskResult::Success { output_ref } } => encoded_status(status)
                == seq![3u8, 16, 0] + le(output_ref as nat, 16),
            TaskStatus::Completed { result: TaskResult::Failed { error_code, output_ref: None } } => encoded_status(
                status,
            ) == seq![4u8, 4, 0] + le(error_code as nat, 4),
            TaskStatus::Completed { result: TaskResult::Failed { error_code, output_ref: Some(output) } } =>
                encoded_status(status) == seq![4u8, 20, 0] + le(error_code as nat, 4) + le(output as nat, 16),
            TaskStatus::Cancelled { reason } => encoded_status(status) == seq![5u8, 4, 0] + le(reason as nat, 4),
        },
{
    let body = status_payload(status);
    lemma_short_numbers();
    match status {
        TaskStatus::Pending => {
            assert(encoded_status(status) =~= seq![0u8, 0, 0]);
        },
        TaskStatus::Ready => {
            assert(encoded_status(status) =~= seq![1u8, 0, 0]);
        },
        TaskStatus::Running { worker_id } => {
            lemma_le_len(worker_id.0 as nat, 8);
            assert(encoded_status(status) =~= seq![2u8, 8, 0] + body);
        },
        TaskStatus::Completed { result } => match result {
            TaskResult::Success { output_ref } => {
                lemma_le_len(output_ref as nat, 16);
                assert(encoded_status(status) =~= seq![3u8, 16, 0] + body);
            },
            TaskResult::Failed { error_code, output_ref } => {
                lemma_le_len(error_code as nat, 4);
                match output_ref {
                    Some(output) => {
                        lemma_le_len(output as nat, 16);
                        assert(encoded_status(status) =~= seq![4u8, 20, 0] + le(error_code as nat, 4) + le(
                            output as nat,
                            16,
                        ));
                    },
                    None => {
                        assert(encoded_status(status) =~= seq![4u8, 4, 0] + body);
                    },
                }
            },
        },
        TaskStatus::Cancelled { reason } => {
            lemma_le_len(reason as nat, 4);
            assert(encoded_status(status) =~= seq![5u8, 4, 0] + body);
        },
    }
}

/// Small numbers in two bytes.
proof fn lemma_short_numbers()
    ensures
        le(0, 2) == seq![0u8, 0],
        le(4, 2) == seq![4u8, 0],
        le(8, 2) == seq![8u8, 0],
        le(16, 2) == seq![16u8, 0],
        le(20, 2) == seq![20u8, 0],
{
    reveal_with_fuel(le, 3);
    assert(le(0, 2) =~= seq![0u8, 0]);
    assert(le(4, 2) =~= seq![4u8, 0]);
    assert(le(8, 2) =~= seq![8u8, 0]);
    assert(le(16, 2) =~= seq![16u8, 0]);
    assert(le(20, 2) =~= seq![20u8, 0]);
}

/// How an edge is written: its two ends, a tag from 0 to 3 for blocking,
/// preference, artifact and parent, for an artifact its type and its id, and
/// the sequence number.
pub proof fn law_edge_layout(edge: Dependency)
    ensures
        ({
            let ends = le(edge.from.0 as nat, 16) + le(edge.to.0 as nat, 16);
            let seq = le(edge.seq as nat, 8);
            match edge.kind {
                EdgeKind::Blocking => encoded_edge(edge) == ends + seq![0u8] + seq,
                EdgeKind::Preference => encoded_edge(edge) == ends + seq![1u8] + seq,
                EdgeKind::Artifact { artifact_type, artifact_id } => encoded_edge(edge) == ends + seq![2u8] + le(
                    artifact_type as nat,
                    4,
                ) + le(artifact_id as nat, 16) + seq,
                EdgeKind::Parent => encoded_edge(edge) == ends + seq![3u8] + seq,
            }
        }),
{
    let ends = le(edge.from.0 as nat, 16) + le(edge.to.0 as nat, 16);
    if let EdgeKind::Artifact { artifact_type, artifact_id } = edge.kind {
        assert(encoded_edge(edge) =~= ends + seq![2u8] + le(artifact_type as nat, 4) + le(artifact_id as nat, 16) + le(
            edge.seq as nat,
            8,
        ));
    }
}

/// How a task is written: its id in sixteen bytes; its type and its payload,
/// each after its length, in two and in four bytes; its status; its priority in
/// a byte; when it was created and updated, and its sequence number, in eight
/// bytes each; its children and its in-degree in two bytes each; a byte that
/// says whether there is a parent, and the parent; and its metadata after the
/// number of entries, each key and value after its length in two bytes.
pub proof fn law_task_layout(task: TaskModel)
    ensures
        ({
            let kind = encode_utf8(task.spec.task_type);
            let priority = if task.spec.priority.0 < 0 {
                task.spec.priority.0 + 256
            } else {
                task.spec.priority.0 as int
            };
            encoded_task(task) == le(task.id.0 as nat, 16) + (le(kind.len(), 2) + kind) + (le(
                task.spec.payload.len(),
                4,
            ) + task.spec.payload) + encoded_status(task.status) + (seq![priority as u8] + le(
                task.created_at as nat,
                8,
            ) + le(task.updated_at as nat, 8) + le(task.seq as nat, 8) + le(task.child_count as nat, 2) + le(
                task.edge_in_degree as nat,
                2,
            )) + (match task.spec.parent {
                Some(id) => seq![1u8] + le(id.0 as nat, 16),
                None => seq![0u8],
            }) + le(task.spec.metadata.len(), 2) + encoded_entries(task.spec.metadata)
        }),
        task.spec.metadata.len() == 0 ==> encoded_entries(task.spec.metadata).len() == 0,
        task.spec.metadata.len() > 0 ==> {
            let (key, value) = task.spec.metadata[0];
            encoded_entries(task.spec.metadata) == (le(encode_utf8(key).len(), 2) + encode_utf8(key)) + (le(
                value.len(),
                2,
            ) + value) + encoded_entries(task.spec.metadata.skip(1))
        },
{
    reveal(encoded_task);
    if task.spec.metadata.len() > 0 {
        assert(task.spec.metadata.skip(1) =~= task.spec.metadata.drop_first());
    }
}

/// Which tags are refused: those of statuses above 5, and those of edges above
/// 3; the error names the tag. A text that is not UTF-8 is refused too.
pub proof fn law_tags_refused(b: Seq<u8>)
    ensures
        b.len() >= 3 && b[0] > 5 ==> parsed_status(b) == Err::<(TaskStatus, Seq<u8>), SnapshotError>(
            SnapshotError::UnknownStatusTag(b[0]),
        ),
        b.len() >= 1 && b[0] > 3 ==> parsed_kind(b) == Err::<(EdgeKind, Seq<u8>), SnapshotError>(
            SnapshotError::UnknownEdgeKind(b[0]),
        ),
        b.len() < 3 ==> parsed_status(b) == Err::<(TaskStatus, Seq<u8>), SnapshotError>(SnapshotError::Truncated),
        b.len() == 0 ==> parsed_kind(b) == Err::<(EdgeKind, Seq<u8>), SnapshotError>(SnapshotError::Truncated),
        b.len() >= 2 ==> {
            let n = b[0] + 256 * b[1];
            &&& b.len() < 2 + n ==> parsed_text(b) == Err::<(Seq<char>, Seq<u8>), SnapshotError>(
                SnapshotError::Truncated,
            )
            &&& b.len() >= 2 + n && !valid_utf8(b.subrange(2, 2 + n)) ==> parsed_text(b) == Err::<
                (Seq<char>, Seq<u8>),
                SnapshotError,
            >(SnapshotError::InvalidText)
            &&& b.len() >= 2 + n && valid_utf8(b.subrange(2, 2 + n)) ==> parsed_text(b) == Ok::<
                (Seq<char>, Seq<u8>),
                SnapshotError,
            >((decode_utf8(b.subrange(2, 2 + n)), b.skip(2 + n)))
        },
{
    reveal_with_fuel(from_le, 2);
    if b.len() >= 1 {
        assert(b.take(1)[0] == b[0]);
        assert(b.take(1).drop_first().len() == 0);
        assert(from_le(b.take(1)) == b[0]);
    }
    if b.len() >= 2 {
        let n = b[0] + 256 * b[1];
        law_two_bytes(b.take(2));
        let rest = b.skip(2);
        if b.len() >= 2 + n {
            assert(rest.take(n) =~= b.subrange(2, 2 + n));
            assert(rest.skip(n) =~= b.skip(2 + n));
        }
    }
}

/// The values of tasks are those of each, in order, and the value of a snapshot
/// holds all of it.
pub proof fn law_snapshot_values(tasks: Seq<Task>, data: SnapshotData)
    ensures
        task_models(tasks).len() == tasks.len(),
        forall|i: int| 0 <= i < tasks.len() ==> #[trigger] task_models(tasks)[i] == tasks[i]@,
        data@.seq == data.seq,
        data@.tasks.len() == data.tasks@.len(),
        forall|i: int| 0 <= i < data.tasks@.len() ==> #[trigger] data@.tasks[i] == data.tasks@[i]@,
        data@.edges == data.edges@,
{
}

// Snapshots that were cut off.

/// Further bytes do not change what is read from the front.
proof fn lemma_more_bytes(b: Seq<u8>, n: nat, more: Seq<u8>)
    ensures
        take_number(b, n) matches Some((x, rest)) ==> take_number(b + more, n) == Some((x, rest + more)),
        take_bytes(b, n) matches Some((x, rest)) ==> take_bytes(b + more, n) == Some((x, rest + more)),
{
    if b.len() >= n {
        assert((b + more).take(n as int) =~= b.take(n as int));
        assert((b + more).skip(n as int) =~= b.skip(n as int) + more);
    }
}

/// Further bytes do not change what blob is read.
proof fn lemma_more_blob(b: Seq<u8>, width: nat, more: Seq<u8>)
    ensures
        parsed_blob(b, width) matches Ok((x, rest)) ==> parsed_blob(b + more, width) == Ok::<
            (Seq<u8>, Seq<u8>),
            SnapshotError,
        >((x, rest + more)),
{
    lemma_more_bytes(b, width, more);
    if let Some((len, rest)) = take_number(b, width) {
        lemma_more_bytes(rest, len, more);
    }
}

/// Further bytes do not change what text is read.
proof fn lemma_more_text(b: Seq<u8>, more: Seq<u8>)
    ensures
        parsed_text(b) matches Ok((x, rest)) ==> parsed_text(b + more) == Ok::<(Seq<char>, Seq<u8>), SnapshotError>(
            (x, rest + more),
        ),
{
    lemma_more_blob(b, 2, more);
}

/// Further bytes do not change what status is read.
proof fn lemma_more_status(b: Seq<u8>, more: Seq<u8>)
    ensures
        parsed_status(b) matches Ok((x, rest)) ==> parsed_status(b + more) == Ok::<(TaskStatus, Seq<u8>), SnapshotError>(
            (x, rest + more),
        ),
{
    lemma_more_bytes(b, 1, more);
    if let Some((tag, tagged)) = take_number(b, 1) {
        lemma_more_bytes(tagged, 2, more);
        if let Some((len, rest)) = take_number(tagged, 2) {
            lemma_more_bytes(rest, len, more);
        }
    }
}

/// Further bytes do not change what numbers are read.
proof fn lemma_more_numbers(b: Seq<u8>, more: Seq<u8>)
    ensures
        parsed_numbers(b) matches Ok((x, rest)) ==> parsed_numbers(b + more) == Ok::<(Numbers, Seq<u8>), SnapshotError>(
            (x, rest + more),
        ),
{
    let c = b + more;
    if b.len() >= 29 {
        assert(c.subrange(1, 9) =~= b.subrange(1, 9));
        assert(c.subrange(9, 17) =~= b.subrange(9, 17));
        assert(c.subrange(17, 25) =~= b.subrange(17, 25));
        assert(c.subrange(25, 27) =~= b.subrange(25, 27));
        assert(c.subrange(27, 29) =~= b.subrange(27, 29));
        assert(c.skip(29) =~= b.skip(29) + more);
    }
}

/// Further bytes do not change what metadata is read.
proof fn lemma_more_entries(b: Seq<u8>, n: nat, more: Seq<u8>)
    ensures
        parsed_entries(b, n) matches Ok((x, rest)) ==> parsed_entries(b + more, n) == Ok::<
            (Seq<(Seq<char>, Seq<u8>)>, Seq<u8>),
            SnapshotError,
        >((x, rest + more)),
    decreases n,
{
    if n > 0 {
        lemma_more_text(b, more);
        if let Ok((key, rest)) = parsed_text(b) {
            lemma_more_blob(rest, 2, more);
            if let Ok((value, after)) = parsed_blob(rest, 2) {
                lemma_more_entries(after, (n - 1) as nat, more);
            }
        }
    }
}

/// Further bytes do not change what parent and what metadata are read.
proof fn lemma_more_tail(b: Seq<u8>, more: Seq<u8>)
    ensures
        parsed_tail(b) matches Ok((x, rest)) ==> parsed_tail(b + more) == Ok::<
            ((Option<TaskId>, Seq<(Seq<char>, Seq<u8>)>), Seq<u8>),
            SnapshotError,
        >((x, rest + more)),
{
    lemma_more_bytes(b, 1, more);
    if let Some((flag, rest)) = take_number(b, 1) {
        lemma_more_bytes(rest, 16, more);
    }
    if let Ok((parent, counted)) = parsed_parent(b) {
        assert(parsed_parent(b + more) == Ok::<(Option<TaskId>, Seq<u8>), SnapshotError>((parent, counted + more)));
        lemma_more_bytes(counted, 2, more);
        if let Some((count, rest)) = take_number(counted, 2) {
            lemma_more_entries(rest, count, more);
        }
    }
}

/// Further bytes do not change what task is read.
#[verifier::rlimit(60)]
proof fn lemma_more_task(b: Seq<u8>, more: Seq<u8>)
    ensures
        parsed_task(b) matches Ok((x, rest)) ==> parsed_task(b + more) == Ok::<(TaskModel, Seq<u8>), SnapshotError>(
            (x, rest + more),
        ),
{
    reveal(parsed_task);
    lemma_more_bytes(b, 16, more);
    if let Some((id, typed)) = take_number(b, 16) {
        lemma_more_text(typed, more);
        if let Ok((task_type, loaded)) = parsed_text(typed) {
            lemma_more_blob(loaded, 4, more);
            if let Ok((payload, stated)) = parsed_blob(loaded, 4) {
                lemma_more_status(stated, more);
                if let Ok((status, numbered)) = parsed_status(stated) {
                    lemma_more_numbers(numbered, more);
                    if let Ok((numbers, rest)) = parsed_numbers(numbered) {
                        lemma_more_tail(rest, more);
                    }
                }
            }
        }
    }
}

/// Further bytes do not change what tasks are read.
proof fn lemma_more_tasks(b: Seq<u8>, n: nat, more: Seq<u8>)
    ensures
        parsed_tasks(b, n) matches Ok((x, rest)) ==> parsed_tasks(b + more, n) == Ok::<
            (Seq<TaskModel>, Seq<u8>),
            SnapshotError,
        >((x, rest + more)),
    decreases n,
{
    if n > 0 {
        lemma_more_task(b, more);
        if let Ok((task, rest)) = parsed_task(b) {
            lemma_more_tasks(rest, (n - 1) as nat, more);
        }
    }
}

/// Further bytes do not change what edge is read.
proof fn lemma_more_edge(b: Seq<u8>, more: Seq<u8>)
    ensures
        parsed_edge(b) matches Ok((x, rest)) ==> parsed_edge(b + more) == Ok::<(Dependency, Seq<u8>), SnapshotError>(
            (x, rest + more),
        ),
{
    lemma_more_bytes(b, 16, more);
    if let Some((from, ended)) = take_number(b, 16) {
        lemma_more_bytes(ended, 16, more);
        if let Some((to, tagged)) = take_number(ended, 16) {
            lemma_more_bytes(tagged, 1, more);
            if let Some((tag, rest)) = take_number(tagged, 1) {
                lemma_more_bytes(rest, 4, more);
                if let Some((artifact_type, after)) = take_number(rest, 4) {
                    lemma_more_bytes(after, 16, more);
                }
            }
            if let Ok((kind, rest)) = parsed_kind(tagged) {
                assert(parsed_kind(tagged + more) == Ok::<(EdgeKind, Seq<u8>), SnapshotError>((kind, rest + more)));
                lemma_more_bytes(rest, 8, more);
            }
        }
    }
}

/// Further bytes do not change what edges are read.
proof fn lemma_more_edges(b: Seq<u8>, n: nat, more: Seq<u8>)
    ensures
        parsed_edges(b, n) matches Ok((x, rest)) ==> parsed_edges(b + more, n) == Ok::<
            (Seq<Dependency>, Seq<u8>),
            SnapshotError,
        >((x, rest + more)),
    decreases n,
{
    if n > 0 {
        lemma_more_edge(b, more);
        if let Ok((edge, rest)) = parsed_edge(b) {
            lemma_more_edges(rest, (n - 1) as nat, more);
        }
    }
}

/// A snapshot that was cut off anywhere is not read: no part of it is taken for
/// the whole.
#[verifier::rlimit(60)]
pub proof fn law_cut_snapshot_refused(seq: u64, tasks: Seq<TaskModel>, edges: Seq<Dependency>, n: int)
    requires
        tasks.len() <= 0xffff_ffff,
        edges.len() <= 0xffff_ffff,
        forall|i: int| 0 <= i < tasks.len() ==> task_fits(#[trigger] tasks[i]),
        0 <= n < encoded_snapshot(seq, tasks, edges).len(),
    ensures
        parsed_snapshot(encoded_snapshot(seq, tasks, edges).take(n)) is Err,
{
    let s = encoded_snapshot(seq, tasks, edges);
    let b = s.take(n);
    let more = s.skip(n);
    assert(b + more =~= s);
    if parsed_snapshot(b) is Ok {
        let whole = snapshot_body(seq, tasks, edges);
        let end = le(crc32(whole) as nat, 4);
        let rest = encoded_edges(edges) + end;
        let body = encoded_tasks(tasks) + rest;
        let header = encoded_header(seq, tasks.len(), edges.len());
        lemma_le_len(crc32(whole) as nat, 4);
        lemma_join(header + encoded_tasks(tasks), encoded_edges(edges), end);
        lemma_join(header, encoded_tasks(tasks), rest);
        assert(s == header + body);
        lemma_header_back(seq, tasks.len(), edges.len(), body);
        lemma_tasks_back(tasks, rest);
        lemma_edges_back(edges, end);
        reveal(reads_tasks);
        let stored = tasks.map_values(|t: TaskModel| stored_task(t));
        assert(stored.len() == tasks.len());
        // The part reads on just as the whole does.
        let (counts, cut) = parsed_header(b)->Ok_0;
        assert(s.take(4) =~= b.take(4));
        assert(s.subrange(4, 12) =~= b.subrange(4, 12));
        assert(s.subrange(12, 16) =~= b.subrange(12, 16));
        assert(s.subrange(16, 20) =~= b.subrange(16, 20));
        assert(cut + more =~= s.skip(20));
        assert(counts == (seq as nat, tasks.len(), edges.len()));
        assert(cut + more == body);
        lemma_more_tasks(cut, tasks.len(), more);
        let (read, left) = parsed_tasks(cut, tasks.len())->Ok_0;
        assert(left + more == rest);
        lemma_more_edges(left, edges.len(), more);
        let (read_edges, tail) = parsed_edges(left, edges.len())->Ok_0;
        assert(tail + more == end);
        assert((tail + more).len() == 4);
    }
}

// Reading whatever bytes there are.

/// How a status is read: the tag, and the number of bytes that follow. Pending
/// and ready go by the tag alone. A worker takes eight bytes, an output sixteen,
/// an error code four, after which an output follows or nothing does, and a
/// reason four; fewer are too short, and more are passed over.
pub proof fn law_status_read(b: Seq<u8>)
    requires
        b.len() >= 3,
    ensures
        ({
            let n = b[1] + 256 * b[2];
            let body = b.subrange(3, 3 + n);
            let after = b.skip(3 + n);
            let needed: int = if b[0] == 2 {
                8
            } else if b[0] == 3 {
                16
            } else {
                4
            };
            &&& b[0] == 0 ==> parsed_status(b) == Ok::<(TaskStatus, Seq<u8>), SnapshotError>(
                (TaskStatus::Pending, b.skip(3)),
            )
            &&& b[0] == 1 ==> parsed_status(b) == Ok::<(TaskStatus, Seq<u8>), SnapshotError>(
                (TaskStatus::Ready, b.skip(3)),
            )
            &&& 2 <= b[0] <= 5 && b.len() < 3 + n ==> parsed_status(b) == Err::<(TaskStatus, Seq<u8>), SnapshotError>(
                SnapshotError::Truncated,
            )
            &&& 2 <= b[0] <= 5 && b.len() >= 3 + n && (n < needed || (b[0] == 4 && 4 < n < 20)) ==> parsed_status(b)
                == Err::<(TaskStatus, Seq<u8>), SnapshotError>(SnapshotError::ShortStatus)
            &&& b[0] == 2 && b.len() >= 3 + n && n >= 8 ==> parsed_status(b) == Ok::<
                (TaskStatus, Seq<u8>),
                SnapshotError,
            >((TaskStatus::Running { worker_id: WorkerId(from_le(body.take(8)) as u64) }, after))
            &&& b[0] == 3 && b.len() >= 3 + n && n >= 16 ==> parsed_status(b) == Ok::<
                (TaskStatus, Seq<u8>),
                SnapshotError,
            >(
                (
                    TaskStatus::Completed {
                        result: TaskResult::Success { output_ref: from_le(body.take(16)) as u128 },
                    },
                    after,
                ),
            )
            &&& b[0] == 4 && b.len() >= 3 + n && n == 4 ==> parsed_status(b) == Ok::<
                (TaskStatus, Seq<u8>),
                SnapshotError,
            >(
                (
                    TaskStatus::Completed {
                        result: TaskResult::Failed { error_code: from_le(body.take(4)) as u32, output_ref: None },
                    },
                    after,
                ),
            )
            &&& b[0] == 4 && b.len() >= 3 + n && n >= 20 ==> parsed_status(b) == Ok::<
                (TaskStatus, Seq<u8>),
                SnapshotError,
            >(
                (
                    TaskStatus::Completed {
                        result: TaskResult::Failed {
                            error_code: from_le(body.take(4)) as u32,
                            output_ref: Some(from_le(body.subrange(4, 20)) as u128),
                        },
                    },
                    after,
                ),
            )
            &&& b[0] == 5 && b.len() >= 3 + n && n >= 4 ==> parsed_status(b) == Ok::<
                (TaskStatus, Seq<u8>),
                SnapshotError,
            >((TaskStatus::Cancelled { reason: from_le(body.take(4)) as u32 }, after))
        }),
{
    let n = b[1] + 256 * b[2];
    reveal_with_fuel(from_le, 2);
    let tagged = b.skip(1);
    let rest = tagged.skip(2);
    assert(b.take(1)[0] == b[0]);
    assert(b.take(1).drop_first().len() == 0);
    assert(from_le(b.take(1)) == b[0]);
    law_two_bytes(tagged.take(2));
    assert(take_number(b, 1) == Some((b[0] as nat, tagged)));
    assert(take_number(tagged, 2) == Some((n as nat, rest)));
    assert(rest =~= b.skip(3));
    if b.len() >= 3 + n {
        let body = b.subrange(3, 3 + n);
        assert(rest.take(n) =~= body);
        assert(rest.skip(n) =~= b.skip(3 + n));
        if n >= 20 {
            assert(body.skip(4).take(16) =~= body.subrange(4, 20));
        }
    }
}

/// How the other parts of a task and of an edge are read: a parent follows a 1
/// and nothing else; the priority, the times and the counts stand in their
/// bytes; and an artifact has its type and its id after the tag 2.
pub proof fn law_parts_read(b: Seq<u8>)
    ensures
        b.len() == 0 ==> parsed_parent(b) == Err::<(Option<TaskId>, Seq<u8>), SnapshotError>(SnapshotError::Truncated),
        b.len() > 0 && b[0] != 1 ==> parsed_parent(b) == Ok::<(Option<TaskId>, Seq<u8>), SnapshotError>(
            (None, b.skip(1)),
        ),
        0 < b.len() < 17 && b[0] == 1 ==> parsed_parent(b) == Err::<(Option<TaskId>, Seq<u8>), SnapshotError>(
            SnapshotError::Truncated,
        ),
        b.len() >= 17 && b[0] == 1 ==> parsed_parent(b) == Ok::<(Option<TaskId>, Seq<u8>), SnapshotError>(
            (Some(TaskId(from_le(b.subrange(1, 17)) as u128)), b.skip(17)),
        ),
        b.len() < 29 ==> parsed_numbers(b) is Err,
        b.len() >= 29 ==> {
            &&& parsed_numbers(b) matches Ok((numbers, rest))
            &&& numbers.priority.0 == if b[0] < 128 {
                b[0] as int
            } else {
                b[0] - 256
            }
            &&& numbers.created_at == from_le(b.subrange(1, 9)) as u64
            &&& numbers.updated_at == from_le(b.subrange(9, 17)) as u64
            &&& numbers.seq == from_le(b.subrange(17, 25)) as u64
            &&& numbers.child_count == from_le(b.subrange(25, 27)) as u16
            &&& numbers.edge_in_degree == from_le(b.subrange(27, 29)) as u16
            &&& rest == b.skip(29)
        },
        b.len() > 0 && b[0] == 0 ==> parsed_kind(b) == Ok::<(EdgeKind, Seq<u8>), SnapshotError>(
            (EdgeKind::Blocking, b.skip(1)),
        ),
        b.len() > 0 && b[0] == 1 ==> parsed_kind(b) == Ok::<(EdgeKind, Seq<u8>), SnapshotError>(
            (EdgeKind::Preference, b.skip(1)),
        ),
        b.len() > 0 && b[0] == 3 ==> parsed_kind(b) == Ok::<(EdgeKind, Seq<u8>), SnapshotError>(
            (EdgeKind::Parent, b.skip(1)),
        ),
        0 < b.len() < 21 && b[0] == 2 ==> parsed_kind(b) == Err::<(EdgeKind, Seq<u8>), SnapshotError>(
            SnapshotError::Truncated,
        ),
        b.len() >= 21 && b[0] == 2 ==> parsed_kind(b) == Ok::<(EdgeKind, Seq<u8>), SnapshotError>(
            (
                EdgeKind::Artifact {
                    artifact_type: from_le(b.subrange(1, 5)) as u32,
                    artifact_id: from_le(b.subrange(5, 21)) as u128,
                },
                b.skip(21),
            ),
        ),
{
    reveal_with_fuel(from_le, 2);
    if b.len() > 0 {
        let rest = b.skip(1);
        assert(b.take(1)[0] == b[0]);
        assert(b.take(1).drop_first().len() == 0);
        assert(from_le(b.take(1)) == b[0]);
        assert(take_number(b, 1) == Some((b[0] as nat, rest)));
        if b.len() >= 17 {
            assert(rest.take(16) =~= b.subrange(1, 17));
            assert(rest.skip(16) =~= b.skip(17));
        }
        if b.len() >= 21 {
            assert(rest.take(4) =~= b.subrange(1, 5));
            assert(rest.skip(4).take(16) =~= b.subrange(5, 21));
            assert(rest.skip(4).skip(16) =~= b.skip(21));
        }
    }
}

} // verus!
