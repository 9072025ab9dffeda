//! The journal: an append-only log of records in numbered segments.
//!
//! A segment is a file `journal-NNNNNN.log`. It begins with `JLOG` and a version
//! byte; records follow. A record is the CRC-32 of its payload, the length of
//! its payload and the payload. Numbers are little-endian.
use crate::checksum::{checksum, crc32};
use crate::codec::{
    from_le, get_bytes, get_u32, law_four_bytes, le, lemma_capacities, lemma_from_le_le, lemma_le_len,
    lemma_take_bytes, lemma_take_number, put_bytes, put_len32, put_u32, take_bytes, take_number,
};
use crate::text::{
    chars_of, decimal_value, law_number_read, law_padded, lemma_decimal_back, lemma_padded_back, number_of, padded,
    padded_text, parse_number,
};
use crate::types::{Dependency, EdgeId, Task, TaskId, TaskStatus};
use vstd::prelude::*;
use vstd::slice::slice_subrange;
use vstd::string::StringExecFns;

verus! {

/// The version of the format.
pub const JOURNAL_VERSION: u8 = 1;

/// The number of bytes at the beginning of a segment.
pub const SEGMENT_HEADER_SIZE: u64 = 5;

/// What happened to the engine.
#[derive(Debug)]
pub enum JournalRecord {
    TaskCreated { seq: u64, task: Task },
    TaskStatusChanged { seq: u64, id: TaskId, from: TaskStatus, to: TaskStatus },
    EdgeCreated { seq: u64, edge: Dependency },
    EdgeRemoved { seq: u64, edge_id: EdgeId },
    SnapshotTaken { seq: u64 },
}

/// The sequence number of a record.
pub open spec fn record_seq(record: JournalRecord) -> u64 {
    match record {
        JournalRecord::TaskCreated { seq, .. } => seq,
        JournalRecord::TaskStatusChanged { seq, .. } => seq,
        JournalRecord::EdgeCreated { seq, .. } => seq,
        JournalRecord::EdgeRemoved { seq, .. } => seq,
        JournalRecord::SnapshotTaken { seq } => seq,
    }
}

impl JournalRecord {
    /// The sequence number of this record.
    pub fn seq(&self) -> (r: u64)
        ensures
            r == record_seq(*self),
            match *self {
                JournalRecord::TaskCreated { seq, task } => r == seq,
                JournalRecord::TaskStatusChanged { seq, id, from, to } => r == seq,
                JournalRecord::EdgeCreated { seq, edge } => r == seq,
                JournalRecord::EdgeRemoved { seq, edge_id } => r == seq,
                JournalRecord::SnapshotTaken { seq } => r == seq,
            },
    {
        match self {
            JournalRecord::TaskCreated { seq, .. } => *seq,
            JournalRecord::TaskStatusChanged { seq, .. } => *seq,
            JournalRecord::EdgeCreated { seq, .. } => *seq,
            JournalRecord::EdgeRemoved { seq, .. } => *seq,
            JournalRecord::SnapshotTaken { seq } => *seq,
        }
    }
}

/// The sequence number of a record is the one that it was made with, whatever
/// the record is about.
pub proof fn law_record_keeps_seq(
    seq: u64,
    task: Task,
    id: TaskId,
    from: TaskStatus,
    to: TaskStatus,
    edge: Dependency,
    edge_id: EdgeId,
)
    ensures
        record_seq(JournalRecord::TaskCreated { seq, task }) == seq,
        record_seq(JournalRecord::TaskStatusChanged { seq, id, from, to }) == seq,
        record_seq(JournalRecord::EdgeCreated { seq, edge }) == seq,
        record_seq(JournalRecord::EdgeRemoved { seq, edge_id }) == seq,
        record_seq(JournalRecord::SnapshotTaken { seq }) == seq,
{
}

/// The largest sequence number of some records; 0 for none.
pub fn max_seq(records: &Vec<JournalRecord>) -> (r: u64)
    ensures
        forall|i: int| 0 <= i < records@.len() ==> record_seq(#[trigger] records@[i]) <= r,
        records@.len() == 0 ==> r == 0,
        records@.len() > 0 ==> exists|i: int| 0 <= i < records@.len() && record_seq(#[trigger] records@[i]) == r,
        forall|i: int|
            0 <= i < records@.len() ==> match #[trigger] records@[i] {
                JournalRecord::TaskCreated { seq, task } => seq <= r,
                JournalRecord::TaskStatusChanged { seq, id, from, to } => seq <= r,
                JournalRecord::EdgeCreated { seq, edge } => seq <= r,
                JournalRecord::EdgeRemoved { seq, edge_id } => seq <= r,
                JournalRecord::SnapshotTaken { seq } => seq <= r,
            },
{
    let mut r: u64 = 0;
    for i in 0..records.len()
        invariant
            forall|j: int| 0 <= j < i ==> record_seq(#[trigger] records@[j]) <= r,
            i == 0 ==> r == 0,
            i > 0 ==> exists|j: int| 0 <= j < i && record_seq(#[trigger] records@[j]) == r,
            forall|j: int|
                0 <= j < i ==> match #[trigger] records@[j] {
                    JournalRecord::TaskCreated { seq, task } => seq <= r,
                    JournalRecord::TaskStatusChanged { seq, id, from, to } => seq <= r,
                    JournalRecord::EdgeCreated { seq, edge } => seq <= r,
                    JournalRecord::EdgeRemoved { seq, edge_id } => seq <= r,
                    JournalRecord::SnapshotTaken { seq } => seq <= r,
                },
    {
        let seq: u64 = records[i].seq();
        assert(record_seq(records@[i as int]) == seq);
        if seq > r || i == 0 {
            r = seq;
        }
    }
    r
}

// Names of segments.

/// The name of the file of a segment.
pub open spec fn name_of(id: u32) -> Seq<char> {
    "journal-"@ + padded(id as nat, 6) + ".log"@
}

/// The segment that a file name stands for, if any.
pub open spec fn segment_of(name: Seq<char>) -> Option<u32> {
    let n = name.len() as int;
    if n >= 12 && name.take(8) == "journal-"@ && name.skip(n - 4) == ".log"@ {
        number_of(name.subrange(8, n - 4))
    } else {
        None
    }
}

/// The name of the file of a segment.
pub fn segment_name(id: u32) -> (r: String)
    ensures
        r@ == name_of(id),
{
    let mut text: String = String::from_str("journal-");
    let number: String = padded_text(id as u128, 6);
    text.append(number.as_str());
    text.append(".log");
    text
}

/// The segment that a file name stands for, if any.
pub fn segment_id(name: &str) -> (r: Option<u32>)
    ensures
        r == segment_of(name@),
{
    proof {
        reveal_strlit("journal-");
        reveal_strlit(".log");
    }
    let c: Vec<char> = chars_of(name);
    let n: usize = c.len();
    if n < 12 {
        return None;
    }
    let ghost front = name@.take(8);
    let ghost back = name@.skip(n - 4);
    if !(c[0] == 'j' && c[1] == 'o' && c[2] == 'u' && c[3] == 'r' && c[4] == 'n' && c[5] == 'a' && c[6] == 'l' && c[7]
        == '-') {
        proof {
            if front == "journal-"@ {
                assert(front[0] == 'j' && front[1] == 'o' && front[2] == 'u' && front[3] == 'r' && front[4] == 'n'
                    && front[5] == 'a' && front[6] == 'l' && front[7] == '-');
            }
        }
        return None;
    }
    assert(front =~= "journal-"@);
    if !(c[n - 4] == '.' && c[n - 3] == 'l' && c[n - 2] == 'o' && c[n - 1] == 'g') {
        proof {
            if back == ".log"@ {
                assert(back[0] == '.' && back[1] == 'l' && back[2] == 'o' && back[3] == 'g');
            }
        }
        return None;
    }
    assert(back =~= ".log"@);
    parse_number(&c, 8, n - 4)
}

/// A segment is found again by the name of its file.
pub proof fn law_segment_name_round_trip(id: u32)
    ensures
        segment_of(name_of(id)) == Some(id),
{
    reveal_strlit("journal-");
    reveal_strlit(".log");
    let name = name_of(id);
    let number = padded(id as nat, 6);
    lemma_padded_back(id, 6);
    lemma_decimal_back(id as nat);
    let n = name.len() as int;
    assert(name.take(8) =~= "journal-"@);
    assert(name.skip(n - 4) =~= ".log"@);
    assert(name.subrange(8, n - 4) =~= number);
}

/// How the name of a segment reads: `journal-`, the number in six decimal
/// digits or as many more as it takes, and `.log`. No other segment has that
/// name.
pub proof fn law_segment_name_reads(id: u32, other: u32)
    ensures
        ({
            let name = name_of(id);
            let n = name.len() as int;
            &&& n >= 18
            &&& name.take(8) == "journal-"@
            &&& name.skip(n - 4) == ".log"@
            &&& forall|i: int| 8 <= i < n - 4 ==> '0' <= #[trigger] name[i] <= '9'
            &&& decimal_value(name.subrange(8, n - 4)) == id
            &&& n > 18 ==> id >= 100_000
            &&& name == name_of(other) ==> id == other
        }),
{
    reveal_strlit("journal-");
    reveal_strlit(".log");
    let name = name_of(id);
    let number = padded(id as nat, 6);
    let n = name.len() as int;
    law_segment_name_round_trip(id);
    law_segment_name_round_trip(other);
    lemma_padded_back(id, 6);
    lemma_decimal_back(id as nat);
    law_padded(id as nat, 6);
    assert(name.take(8) =~= "journal-"@);
    assert(name.skip(n - 4) =~= ".log"@);
    assert(name.subrange(8, n - 4) =~= number);
    assert forall|i: int| 8 <= i < n - 4 implies '0' <= #[trigger] name[i] <= '9' by {
        assert(name[i] == number[i - 8]);
    }
}

/// A name that stands for a segment begins with `journal-`, ends with `.log`, and
/// has one or more decimal digits between them, after a plus sign or not, whose
/// value is the number of the segment. Every name of that form with a number
/// of 32 bits stands for one.
pub proof fn law_segment_named(name: Seq<char>, digits: Seq<char>)
    requires
        name.len() > 12 && name[8] == '+' ==> digits == name.subrange(9, name.len() - 4),
        name.len() >= 12 && !(name.len() > 12 && name[8] == '+') ==> digits == name.subrange(8, name.len() - 4),
    ensures
        segment_of(name) is Some <==> {
            &&& name.len() >= 12
            &&& name.take(8) == "journal-"@
            &&& name.skip(name.len() - 4) == ".log"@
            &&& digits.len() > 0
            &&& forall|i: int| 0 <= i < digits.len() ==> '0' <= #[trigger] digits[i] <= '9'
            &&& decimal_value(digits) <= u32::MAX
        },
        segment_of(name) matches Some(id) ==> decimal_value(digits) == id,
{
    let n = name.len() as int;
    if n >= 12 {
        let middle = name.subrange(8, n - 4);
        if n > 12 {
            assert(middle[0] == name[8]);
            assert(middle.skip(1) =~= name.subrange(9, n - 4));
        }
        law_number_read(middle, digits);
    }
}

// Lists of segments.

/// The values of some names.
pub open spec fn texts(names: Seq<String>) -> Seq<Seq<char>> {
    names.map_values(|n: String| n@)
}

/// The segments that some file names stand for, in the order of the names.
pub open spec fn segments_of(names: Seq<Seq<char>>) -> Seq<u32>
    decreases names.len(),
{
    if names.len() == 0 {
        Seq::empty()
    } else {
        let before = segments_of(names.drop_last());
        match segment_of(names.last()) {
            Some(id) => before.push(id),
            None => before,
        }
    }
}

/// A segment is listed exactly if one of the names stands for it.
pub proof fn law_segments_listed(names: Seq<Seq<char>>, id: u32)
    ensures
        segments_of(names).contains(id) <==> exists|i: int|
            0 <= i < names.len() && segment_of(#[trigger] names[i]) == Some(id),
        segments_of(names).len() <= names.len(),
    decreases names.len(),
{
    let all = segments_of(names);
    if names.len() > 0 {
        let shorter = names.drop_last();
        let before = segments_of(shorter);
        law_segments_listed(shorter, id);
        if before.contains(id) {
            let k = choose|k: int| 0 <= k < before.len() && before[k] == id;
            assert(all[k] == id);
            let i = choose|i: int| 0 <= i < shorter.len() && segment_of(#[trigger] shorter[i]) == Some(id);
            assert(segment_of(names[i]) == Some(id));
        }
        if segment_of(names.last()) == Some(id) {
            assert(all[before.len() as int] == id);
            assert(segment_of(names[names.len() - 1]) == Some(id));
        }
        if all.contains(id) && !before.contains(id) {
            let k = choose|k: int| 0 <= k < all.len() && all[k] == id;
            if k < before.len() {
                assert(before[k] == id);
            }
        }
        if exists|i: int| 0 <= i < names.len() && segment_of(#[trigger] names[i]) == Some(id) {
            let i = choose|i: int| 0 <= i < names.len() && segment_of(#[trigger] names[i]) == Some(id);
            if i < shorter.len() {
                assert(segment_of(shorter[i]) == Some(id));
            }
        }
    }
}

/// Whether numbers are in ascending order.
pub open spec fn ascending(ids: Seq<u32>) -> bool {
    forall|i: int, j: int| 0 <= i <= j < ids.len() ==> ids[i] <= ids[j]
}

/// A number put into a list is one more number in it.
proof fn lemma_insert_multiset(s: Seq<u32>, i: int, a: u32)
    requires
        0 <= i <= s.len(),
    ensures
        s.insert(i, a).to_multiset() == s.to_multiset().insert(a),
{
    broadcast use vstd::seq_lib::group_to_multiset_ensures;

    let t = s.insert(i, a);
    assert(t[i] == a);
    assert(t.remove(i) =~= s);
    assert(t.remove(i).to_multiset() =~= t.to_multiset().remove(a));
    assert(t.contains(a));
    assert(t.to_multiset() =~= s.to_multiset().insert(a));
}

/// Puts a number into its place in an ascending list.
fn put_in_order(ids: &mut Vec<u32>, id: u32)
    requires
        ascending(old(ids)@),
    ensures
        ascending(final(ids)@),
        final(ids)@.to_multiset() == old(ids)@.to_multiset().insert(id),
{
    let mut i: usize = ids.len();
    while i > 0 && ids[i - 1] > id
        invariant
            i <= ids@.len(),
            ascending(ids@),
            forall|j: int| i <= j < ids@.len() ==> id < #[trigger] ids@[j],
        decreases i,
    {
        i = i - 1;
    }
    proof {
        lemma_insert_multiset(ids@, i as int, id);
    }
    ids.insert(i, id);
}

/// The segments that some file names stand for, in ascending order.
pub fn segment_ids(names: &Vec<String>) -> (r: Vec<u32>)
    ensures
        ascending(r@),
        r@.to_multiset() == segments_of(texts(names@)).to_multiset(),
{
    let ghost all = texts(names@);
    let mut ids: Vec<u32> = Vec::new();
    assert(segments_of(all.take(0)) =~= Seq::empty());
    for i in 0..names.len()
        invariant
            all == texts(names@),
            ascending(ids@),
            ids@.to_multiset() == segments_of(all.take(i as int)).to_multiset(),
    {
        let ghost before = segments_of(all.take(i as int));
        proof {
            assert(all.take(i as int + 1).drop_last() =~= all.take(i as int));
            assert(all.take(i as int + 1).last() == names@[i as int]@);
        }
        if let Some(id) = segment_id(names[i].as_str()) {
            put_in_order(&mut ids, id);
            proof {
                assert(segments_of(all.take(i as int + 1)) == before.push(id));
                vstd::seq_lib::to_multiset_build(before, id);
            }
        }
    }
    assert(all.take(all.len() as int) =~= all);
    ids
}

/// The segment with the largest number, if there is any: the one to go on
/// with.
pub fn latest_segment(names: &Vec<String>) -> (r: Option<u32>)
    ensures
        match r {
            Some(id) => segments_of(texts(names@)).contains(id) && forall|other: u32| #[trigger]
                segments_of(texts(names@)).contains(other) ==> other <= id,
            None => segments_of(texts(names@)).len() == 0,
        },
{
    broadcast use vstd::seq_lib::group_to_multiset_ensures;

    let ids: Vec<u32> = segment_ids(names);
    let ghost all = segments_of(texts(names@));
    proof {
        assert(ids@.len() == ids@.to_multiset().len());
        assert(all.len() == all.to_multiset().len());
    }
    if ids.len() == 0 {
        None
    } else {
        let last: u32 = ids[ids.len() - 1];
        proof {
            assert(ids@.contains(last));
            assert(ids@.to_multiset().count(last) > 0);
            assert forall|other: u32| #[trigger] all.contains(other) implies other <= last by {
                assert(all.to_multiset().count(other) > 0);
                assert(ids@.contains(other));
            }
        }
        Some(last)
    }
}

/// The names of segments before `keep_after`, in the order of the names.
pub open spec fn purged(names: Seq<Seq<char>>, keep_after: u32) -> Seq<Seq<char>>
    decreases names.len(),
{
    if names.len() == 0 {
        Seq::empty()
    } else {
        let before = purged(names.drop_last(), keep_after);
        match segment_of(names.last()) {
            Some(id) => if id < keep_after {
                before.push(names.last())
            } else {
                before
            },
            None => before,
        }
    }
}

/// The files to delete so that no segment before `keep_after` is left.
pub fn purge_segments(names: &Vec<String>, keep_after: u32) -> (r: Vec<String>)
    ensures
        texts(r@) == purged(texts(names@), keep_after),
{
    let ghost all = texts(names@);
    let mut r: Vec<String> = Vec::new();
    assert(texts(r@) =~= purged(all.take(0), keep_after));
    for i in 0..names.len()
        invariant
            all == texts(names@),
            texts(r@) == purged(all.take(i as int), keep_after),
    {
        proof {
            assert(all.take(i as int + 1).drop_last() =~= all.take(i as int));
        }
        if let Some(id) = segment_id(names[i].as_str()) {
            if id < keep_after {
                let ghost before = r@;
                r.push(names[i].clone());
                assert(texts(r@) =~= texts(before).push(all[i as int]));
            }
        }
    }
    assert(all.take(all.len() as int) =~= all);
    r
}

/// A further name is deleted after those before it, if it stands for a segment
/// before `keep_after`, and not at all otherwise; and it adds one segment to the
/// list of segments, if it stands for one.
pub proof fn law_names_one_by_one(names: Seq<Seq<char>>, name: Seq<char>, keep_after: u32)
    ensures
        purged(Seq::<Seq<char>>::empty(), keep_after).len() == 0,
        segments_of(Seq::<Seq<char>>::empty()).len() == 0,
        match segment_of(name) {
            Some(id) => {
                &&& segments_of(names.push(name)) == segments_of(names).push(id)
                &&& id < keep_after ==> purged(names.push(name), keep_after) == purged(names, keep_after).push(name)
                &&& id >= keep_after ==> purged(names.push(name), keep_after) == purged(names, keep_after)
            },
            None => {
                &&& segments_of(names.push(name)) == segments_of(names)
                &&& purged(names.push(name), keep_after) == purged(names, keep_after)
            },
        },
{
    assert(names.push(name).drop_last() =~= names);
}

/// The values of names and of blobs are those of each, in order.
pub proof fn law_list_values(names: Seq<String>, v: Seq<Vec<u8>>)
    ensures
        texts(names).len() == names.len(),
        forall|i: int| 0 <= i < names.len() ==> #[trigger] texts(names)[i] == names[i]@,
        blobs(v).len() == v.len(),
        forall|i: int| 0 <= i < v.len() ==> #[trigger] blobs(v)[i] == v[i]@,
{
}

/// What is deleted is exactly the files of segments before `keep_after`.
pub proof fn law_purge_exact(names: Seq<Seq<char>>, keep_after: u32, name: Seq<char>)
    ensures
        purged(names, keep_after).contains(name) <==> names.contains(name) && (segment_of(name) matches Some(id)
            && id < keep_after),
    decreases names.len(),
{
    if names.len() > 0 {
        let shorter = names.drop_last();
        let before = purged(shorter, keep_after);
        let after = purged(names, keep_after);
        law_purge_exact(shorter, keep_after, name);
        assert(names.contains(name) <==> shorter.contains(name) || name == names.last()) by {
            if names.contains(name) {
                let k = choose|k: int| 0 <= k < names.len() && names[k] == name;
                if k < shorter.len() {
                    assert(shorter[k] == name);
                }
            }
            if shorter.contains(name) {
                let k = choose|k: int| 0 <= k < shorter.len() && shorter[k] == name;
                assert(names[k] == name);
            }
            if name == names.last() {
                assert(names[names.len() - 1] == name);
            }
        }
        if after != before {
            assert(after == before.push(names.last()));
            if after.contains(name) {
                let k = choose|k: int| 0 <= k < after.len() && after[k] == name;
                if k < before.len() {
                    assert(before[k] == name);
                }
            }
            if before.contains(name) {
                let k = choose|k: int| 0 <= k < before.len() && before[k] == name;
                assert(after[k] == name);
            }
            if name == names.last() {
                assert(after[before.len() as int] == name);
            }
        }
    }
}

// Writing.

/// The bytes that a segment begins with: `JLOG` and the version.
pub open spec fn segment_header() -> Seq<u8> {
    seq![0x4a, 0x4c, 0x4f, 0x47, JOURNAL_VERSION]
}

/// A record.
pub open spec fn record_bytes(payload: Seq<u8>) -> Seq<u8> {
    le(crc32(payload) as nat, 4) + le(payload.len(), 4) + payload
}

/// The bytes that a segment begins with.
pub fn header_bytes() -> (r: Vec<u8>)
    ensures
        r@ == segment_header(),
{
    let mut r: Vec<u8> = Vec::new();
    r.push(0x4a);
    r.push(0x4c);
    r.push(0x4f);
    r.push(0x47);
    r.push(JOURNAL_VERSION);
    assert(r@ =~= segment_header());
    r
}

/// A record with the given payload. Of its length the low four bytes are
/// written.
pub fn encode_record(payload: &[u8]) -> (r: Vec<u8>)
    ensures
        r@ == record_bytes(payload@),
{
    let mut r: Vec<u8> = Vec::new();
    put_u32(&mut r, checksum(payload));
    put_len32(&mut r, payload.len());
    put_bytes(&mut r, payload);
    assert(r@ =~= record_bytes(payload@));
    r
}

/// Where things stand in a segment: `JLOG` and the version 1 at its beginning;
/// and in each record the checksum of the payload in four bytes, its length in
/// four, and the payload. Numbers have their low byte first.
pub proof fn law_record_layout(payload: Seq<u8>)
    requires
        payload.len() <= 0xffff_ffff,
    ensures
        segment_header() == seq![0x4au8, 0x4c, 0x4f, 0x47, 1],
        ({
            let b = record_bytes(payload);
            &&& b.len() == 8 + payload.len()
            &&& b[0] + 256 * (b[1] + 256 * (b[2] + 256 * b[3])) == crc32(payload)
            &&& b[4] + 256 * (b[5] + 256 * (b[6] + 256 * b[7])) == payload.len()
            &&& b.skip(8) == payload
        }),
{
    let b = record_bytes(payload);
    lemma_capacities();
    lemma_le_len(crc32(payload) as nat, 4);
    lemma_le_len(payload.len(), 4);
    lemma_from_le_le(crc32(payload) as nat, 4);
    lemma_from_le_le(payload.len(), 4);
    assert(b.subrange(0, 4) =~= le(crc32(payload) as nat, 4));
    assert(b.subrange(4, 8) =~= le(payload.len(), 4));
    assert(b.skip(8) =~= payload);
    law_four_bytes(b.subrange(0, 4));
    law_four_bytes(b.subrange(4, 8));
}

/// Where a journal is being written: the number and the size of the last
/// segment, and the size at which the next one begins.
#[derive(Debug, Clone, Copy, PartialEq, Eq, Structural)]
pub struct JournalWriter {
    pub current_segment: u32,
    pub max_segment_bytes: u64,
    pub current_bytes: u64,
}

/// What one append has to write.
#[derive(Debug)]
pub struct Append {
    /// The bytes to add to the current segment.
    pub record: Vec<u8>,
    /// Whether to begin the next segment after that.
    pub rotate: bool,
}

/// The writer once the next segment has begun.
pub open spec fn rotated(w: JournalWriter) -> JournalWriter {
    JournalWriter {
        current_segment: (w.current_segment + 1) as u32,
        current_bytes: SEGMENT_HEADER_SIZE,
        ..w
    }
}

/// Whether a record with a payload of the given length fills the segment.
pub open spec fn fills(w: JournalWriter, len: nat) -> bool {
    w.current_bytes + 8 + len >= w.max_segment_bytes
}

/// The writer once a record with a payload of the given length was added.
pub open spec fn appended(w: JournalWriter, len: nat) -> JournalWriter {
    if fills(w, len) {
        rotated(w)
    } else {
        JournalWriter { current_bytes: (w.current_bytes + 8 + len) as u64, ..w }
    }
}

/// A record counts for its payload and eight bytes. It stays in the segment
/// that is being written; if that has reached the largest size then, the next
/// segment has begun, with the five bytes of its header, and otherwise the same
/// one has grown by the record. The largest size stays.
pub proof fn law_append_rotates(w: JournalWriter, len: nat)
    requires
        w.current_bytes + 8 + len <= u64::MAX,
        w.current_segment < u32::MAX,
    ensures
        appended(w, len).max_segment_bytes == w.max_segment_bytes,
        fills(w, len) <==> w.current_bytes + 8 + len >= w.max_segment_bytes,
        w.current_bytes + 8 + len >= w.max_segment_bytes ==> appended(w, len).current_segment == w.current_segment + 1
            && appended(w, len).current_bytes == 5,
        w.current_bytes + 8 + len < w.max_segment_bytes ==> appended(w, len).current_segment == w.current_segment
            && appended(w, len).current_bytes == w.current_bytes + 8 + len,
        rotated(w).current_segment == w.current_segment + 1,
        rotated(w).current_bytes == 5,
        rotated(w).max_segment_bytes == w.max_segment_bytes,
{
}

impl JournalWriter {
    /// The writer of a new journal, whose first segment has its header.
    pub fn new(max_segment_bytes: u64) -> (w: JournalWriter)
        ensures
            w == (JournalWriter { current_segment: 1, max_segment_bytes, current_bytes: SEGMENT_HEADER_SIZE }),
    {
        JournalWriter { current_segment: 1, max_segment_bytes, current_bytes: SEGMENT_HEADER_SIZE }
    }

    /// The writer of the journal in a directory: it goes on with the latest
    /// segment, given by its number and its size, or begins a new journal if
    /// there is none.
    pub fn open_or_create(latest: Option<(u32, u64)>, max_segment_bytes: u64) -> (w: JournalWriter)
        ensures
            w == match latest {
                Some((segment, size)) => JournalWriter {
                    current_segment: segment,
                    max_segment_bytes,
                    current_bytes: size,
                },
                None => JournalWriter { current_segment: 1, max_segment_bytes, current_bytes: SEGMENT_HEADER_SIZE },
            },
    {
        match latest {
            Some((segment, size)) => JournalWriter {
                current_segment: segment,
                max_segment_bytes,
                current_bytes: size,
            },
            None => JournalWriter::new(max_segment_bytes),
        }
    }

    /// Adds a record with the given payload.
    pub fn append(&mut self, payload: &[u8]) -> (r: Append)
        requires
            old(self).current_bytes + 8 + payload@.len() <= u64::MAX,
            fills(*old(self), payload@.len()) ==> old(self).current_segment < u32::MAX,
        ensures
            *final(self) == appended(*old(self), payload@.len()),
            r.record@ == record_bytes(payload@),
            r.rotate == fills(*old(self), payload@.len()),
    {
        let record: Vec<u8> = encode_record(payload);
        self.current_bytes = self.current_bytes + (8 + payload.len() as u64);
        let rotate: bool = self.current_bytes >= self.max_segment_bytes;
        if rotate {
            self.rotate();
        }
        Append { record, rotate }
    }

    /// Begins the next segment.
    pub fn rotate(&mut self)
        requires
            old(self).current_segment < u32::MAX,
        ensures
            *final(self) == rotated(*old(self)),
    {
        self.current_segment = self.current_segment + 1;
        self.current_bytes = SEGMENT_HEADER_SIZE;
    }
}

// Reading.

/// How the reading of a segment ended.
#[derive(Debug, Clone, Copy, PartialEq, Eq, Structural)]
pub enum SegmentEnd {
    /// The file is not a segment of this version; it is passed over.
    Foreign,
    /// All records were read.
    Clean,
    /// A record does not match its checksum; the rest is passed over.
    Corrupt,
    /// The file ends within its header or within a record.
    Truncated,
}

/// The payloads in a segment, and how the reading ended.
#[derive(Debug)]
pub struct SegmentRead {
    pub payloads: Vec<Vec<u8>>,
    pub end: SegmentEnd,
}

/// The value of a [`SegmentRead`].
#[verifier::ext_equal]
pub struct SegmentModel {
    pub payloads: Seq<Seq<u8>>,
    pub end: SegmentEnd,
}

/// The values of some byte strings.
pub open spec fn blobs(v: Seq<Vec<u8>>) -> Seq<Seq<u8>> {
    v.map_values(|b: Vec<u8>| b@)
}

impl View for SegmentRead {
    type V = SegmentModel;

    open spec fn view(&self) -> SegmentModel {
        SegmentModel { payloads: blobs(self.payloads@), end: self.end }
    }
}

/// The payloads of records, one after the other. Up to three bytes after the
/// last record are ignored.
pub open spec fn records_in(b: Seq<u8>) -> SegmentModel
    decreases b.len(),
{
    match take_number(b, 4) {
        None => SegmentModel { payloads: Seq::empty(), end: SegmentEnd::Clean },
        Some((crc, sized)) => match take_number(sized, 4) {
            None => SegmentModel { payloads: Seq::empty(), end: SegmentEnd::Truncated },
            Some((len, body)) => match take_bytes(body, len) {
                None => SegmentModel { payloads: Seq::empty(), end: SegmentEnd::Truncated },
                Some((payload, rest)) => if crc32(payload) != crc {
                    SegmentModel { payloads: Seq::empty(), end: SegmentEnd::Corrupt }
                } else {
                    let more = records_in(rest);
                    SegmentModel { payloads: seq![payload] + more.payloads, end: more.end }
                },
            },
        },
    }
}

/// What a file holds that should be a segment.
pub open spec fn segment_in(b: Seq<u8>) -> SegmentModel {
    if b.len() < 4 {
        SegmentModel { payloads: Seq::empty(), end: SegmentEnd::Truncated }
    } else if b.take(4) != segment_header().take(4) {
        SegmentModel { payloads: Seq::empty(), end: SegmentEnd::Foreign }
    } else if b.len() < 5 {
        SegmentModel { payloads: Seq::empty(), end: SegmentEnd::Truncated }
    } else if b[4] != JOURNAL_VERSION {
        SegmentModel { payloads: Seq::empty(), end: SegmentEnd::Foreign }
    } else {
        records_in(b.skip(5))
    }
}

/// Reads records, one after the other.
fn read_records(b: &[u8]) -> (r: SegmentRead)
    ensures
        r@ == records_in(b@),
{
    let mut payloads: Vec<Vec<u8>> = Vec::new();
    let mut rest: &[u8] = b;
    proof {
        assert(blobs(payloads@) + records_in(b@).payloads =~= records_in(b@).payloads);
    }
    loop
        invariant
            records_in(b@).payloads == blobs(payloads@) + records_in(rest@).payloads,
            records_in(b@).end == records_in(rest@).end,
        decreases rest@.len(),
    {
        let ghost before = blobs(payloads@);
        let ghost here = rest@;
        proof {
            assert(before + Seq::empty() =~= before);
        }
        let (crc, sized) = match get_u32(rest) {
            None => {
                return SegmentRead { payloads, end: SegmentEnd::Clean };
            },
            Some(x) => x,
        };
        let (len, body) = match get_u32(sized) {
            None => {
                return SegmentRead { payloads, end: SegmentEnd::Truncated };
            },
            Some(x) => x,
        };
        let (payload, next) = match get_bytes(body, len as usize) {
            None => {
                return SegmentRead { payloads, end: SegmentEnd::Truncated };
            },
            Some(x) => x,
        };
        if checksum(payload.as_slice()) != crc {
            return SegmentRead { payloads, end: SegmentEnd::Corrupt };
        }
        let ghost value = payload@;
        payloads.push(payload);
        rest = next;
        proof {
            assert(blobs(payloads@) =~= before.push(value));
            let more = records_in(rest@).payloads;
            assert(before + (seq![value] + more) =~= blobs(payloads@) + more);
        }
    }
}

/// Reads the payloads in a segment.
pub fn read_segment(b: &[u8]) -> (r: SegmentRead)
    ensures
        r@ == segment_in(b@),
{
    let payloads: Vec<Vec<u8>> = Vec::new();
    assert(blobs(payloads@) =~= Seq::empty());
    let ghost magic = segment_header().take(4);
    if b.len() < 4 {
        return SegmentRead { payloads, end: SegmentEnd::Truncated };
    }
    if b[0] != 0x4a || b[1] != 0x4c || b[2] != 0x4f || b[3] != 0x47 {
        proof {
            if b@.take(4) == magic {
                assert(b@[0] == magic[0] && b@[1] == magic[1] && b@[2] == magic[2] && b@[3] == magic[3]) by {
                    assert(b@.take(4)[0] == b@[0] && b@.take(4)[1] == b@[1] && b@.take(4)[2] == b@[2] && b@.take(4)[3]
                        == b@[3]);
                }
            }
        }
        return SegmentRead { payloads, end: SegmentEnd::Foreign };
    }
    assert(b@.take(4) =~= magic);
    if b.len() < 5 {
        return SegmentRead { payloads, end: SegmentEnd::Truncated };
    }
    if b[4] != JOURNAL_VERSION {
        return SegmentRead { payloads, end: SegmentEnd::Foreign };
    }
    let body: &[u8] = slice_subrange(b, 5, b.len());
    assert(body@ =~= b@.skip(5));
    read_records(body)
}

/// The payloads in a journal, and whether the reading broke off because a
/// segment ends too early.
#[derive(Debug)]
pub struct JournalRead {
    pub payloads: Vec<Vec<u8>>,
    pub truncated: bool,
}

/// The payloads in segments, in order, up to one that ends too early.
pub open spec fn payloads_in(segments: Seq<Seq<u8>>) -> Seq<Seq<u8>>
    decreases segments.len(),
{
    if segments.len() == 0 {
        Seq::empty()
    } else {
        let first = segment_in(segments[0]);
        if first.end is Truncated {
            first.payloads
        } else {
            first.payloads + payloads_in(segments.drop_first())
        }
    }
}

/// Whether a segment ends too early.
pub open spec fn breaks_off(segments: Seq<Seq<u8>>) -> bool {
    exists|i: int| 0 <= i < segments.len() && segment_in(#[trigger] segments[i]).end is Truncated
}

/// Reads the payloads in the segments of a journal, given in ascending order.
pub fn read_journal(segments: &Vec<Vec<u8>>) -> (r: JournalRead)
    ensures
        blobs(r.payloads@) == payloads_in(blobs(segments@)),
        r.truncated == breaks_off(blobs(segments@)),
{
    let ghost all = blobs(segments@);
    let mut payloads: Vec<Vec<u8>> = Vec::new();
    proof {
        assert(blobs(payloads@) + payloads_in(all) =~= payloads_in(all));
        assert(all.skip(0) =~= all);
    }
    for i in 0..segments.len()
        invariant
            all == blobs(segments@),
            payloads_in(all) == blobs(payloads@) + payloads_in(all.skip(i as int)),
            forall|j: int| 0 <= j < i ==> !(segment_in(#[trigger] all[j]).end is Truncated),
    {
        let ghost before = blobs(payloads@);
        let read: SegmentRead = read_segment(segments[i].as_slice());
        let mut more: Vec<Vec<u8>> = read.payloads;
        let ghost first = blobs(more@);
        let end: SegmentEnd = read.end;
        payloads.append(&mut more);
        proof {
            assert(blobs(payloads@) =~= before + first);
            let tail = all.skip(i as int);
            assert(tail[0] == all[i as int]);
            assert(tail.drop_first() =~= all.skip(i as int + 1));
            let later = payloads_in(all.skip(i as int + 1));
            assert(before + (first + later) =~= (before + first) + later);
        }
        if let SegmentEnd::Truncated = end {
            proof {
                assert(segment_in(all[i as int]).end is Truncated);
            }
            return JournalRead { payloads, truncated: true };
        }
    }
    proof {
        assert(all.skip(all.len() as int) =~= Seq::empty());
        assert(blobs(payloads@) + Seq::empty() =~= blobs(payloads@));
    }
    JournalRead { payloads, truncated: false }
}

// Reading what was written.

/// Records with the given payloads, one after the other.
pub open spec fn encoded_records(payloads: Seq<Seq<u8>>) -> Seq<u8>
    decreases payloads.len(),
{
    if payloads.len() == 0 {
        Seq::empty()
    } else {
        record_bytes(payloads[0]) + encoded_records(payloads.drop_first())
    }
}

/// Whether the length of each payload fits the format.
pub open spec fn payloads_fit(payloads: Seq<Seq<u8>>) -> bool {
    forall|i: int| 0 <= i < payloads.len() ==> (#[trigger] payloads[i]).len() <= 0xffff_ffff
}

/// One record is read back, and what follows it is read after it.
proof fn lemma_record_back(payload: Seq<u8>, rest: Seq<u8>)
    requires
        payload.len() <= 0xffff_ffff,
    ensures
        records_in(record_bytes(payload) + rest) == (SegmentModel {
            payloads: seq![payload] + records_in(rest).payloads,
            end: records_in(rest).end,
        }),
{
    let body = payload + rest;
    let sized = le(payload.len(), 4) + body;
    let b = le(crc32(payload) as nat, 4) + sized;
    assert(take_number(b, 4) == Some((crc32(payload) as nat, sized)) && take_number(sized, 4) == Some(
        (payload.len(), body),
    )) by {
        lemma_capacities();
        lemma_take_number(payload.len(), 4, body);
        lemma_take_number(crc32(payload) as nat, 4, sized);
    }
    lemma_take_bytes(payload, rest);
    assert(record_bytes(payload) + rest =~= b) by {
        assert((le(crc32(payload) as nat, 4) + le(payload.len(), 4) + payload) + rest =~= le(
            crc32(payload) as nat,
            4,
        ) + (le(payload.len(), 4) + (payload + rest)));
    }
}

/// Records are read back, and what follows them is read after them.
pub proof fn lemma_records_back(payloads: Seq<Seq<u8>>, tail: Seq<u8>)
    requires
        payloads_fit(payloads),
    ensures
        records_in(encoded_records(payloads) + tail) == (SegmentModel {
            payloads: payloads + records_in(tail).payloads,
            end: records_in(tail).end,
        }),
    decreases payloads.len(),
{
    if payloads.len() == 0 {
        assert(encoded_records(payloads) + tail =~= tail);
        assert(payloads + records_in(tail).payloads =~= records_in(tail).payloads);
    } else {
        let first = payloads[0];
        let others = payloads.drop_first();
        assert(payloads_fit(others)) by {
            assert forall|i: int| 0 <= i < others.len() implies (#[trigger] others[i]).len() <= 0xffff_ffff by {
                assert(others[i] == payloads[i + 1]);
            }
        }
        lemma_records_back(others, tail);
        let rest = encoded_records(others) + tail;
        assert(payloads[0].len() <= 0xffff_ffff);
        lemma_record_back(first, rest);
        assert(encoded_records(payloads) + tail =~= record_bytes(first) + rest);
        assert(seq![first] + (others + records_in(tail).payloads) =~= payloads + records_in(tail).payloads);
    }
}

/// How records are read, one at a time. Fewer than four bytes are the end. A
/// record whose length or payload is not all there is a segment that breaks
/// off. A record whose payload does not have its checksum is corrupt; it and
/// what follows is passed over. Otherwise its payload comes first, and the
/// records after it follow.
pub proof fn law_records_read(b: Seq<u8>)
    ensures
        b.len() < 4 ==> records_in(b).payloads.len() == 0 && records_in(b).end == SegmentEnd::Clean,
        4 <= b.len() < 8 ==> records_in(b).payloads.len() == 0 && records_in(b).end == SegmentEnd::Truncated,
        b.len() >= 8 ==> {
            let sum = b[0] + 256 * (b[1] + 256 * (b[2] + 256 * b[3]));
            let n = b[4] + 256 * (b[5] + 256 * (b[6] + 256 * b[7]));
            let payload = b.subrange(8, 8 + n);
            &&& b.len() < 8 + n ==> records_in(b).payloads.len() == 0 && records_in(b).end == SegmentEnd::Truncated
            &&& b.len() >= 8 + n && sum != crc32(payload) ==> records_in(b).payloads.len() == 0 && records_in(b).end
                == SegmentEnd::Corrupt
            &&& b.len() >= 8 + n && sum == crc32(payload) ==> records_in(b).payloads == seq![payload] + records_in(
                b.skip(8 + n),
            ).payloads && records_in(b).end == records_in(b.skip(8 + n)).end
        },
{
    if b.len() >= 8 {
        let sized = b.skip(4);
        let body = sized.skip(4);
        let n = b[4] + 256 * (b[5] + 256 * (b[6] + 256 * b[7]));
        law_four_bytes(b.take(4));
        law_four_bytes(sized.take(4));
        assert(take_number(b, 4) == Some((from_le(b.take(4)), sized)));
        assert(take_number(sized, 4) == Some((n as nat, body)));
        if b.len() >= 8 + n {
            assert(body.take(n) =~= b.subrange(8, 8 + n));
            assert(body.skip(n) =~= b.skip(8 + n));
        }
    }
}

/// What is taken for a segment: a file that begins with `JLOG` and the version 1,
/// whose records follow. A file that begins otherwise is passed over, and one
/// that ends before that can be told breaks off.
pub proof fn law_segment_recognized(b: Seq<u8>)
    ensures
        ({
            let magic = b[0] == 0x4a && b[1] == 0x4c && b[2] == 0x4f && b[3] == 0x47;
            &&& b.len() < 4 ==> segment_in(b).payloads.len() == 0 && segment_in(b).end == SegmentEnd::Truncated
            &&& b.len() >= 4 && !magic ==> segment_in(b).payloads.len() == 0 && segment_in(b).end
                == SegmentEnd::Foreign
            &&& b.len() == 4 && magic ==> segment_in(b).payloads.len() == 0 && segment_in(b).end
                == SegmentEnd::Truncated
            &&& b.len() >= 5 && magic && b[4] != 1 ==> segment_in(b).payloads.len() == 0 && segment_in(b).end
                == SegmentEnd::Foreign
            &&& b.len() >= 5 && magic && b[4] == 1 ==> segment_in(b) == records_in(b.skip(5))
        }),
{
    let magic = segment_header().take(4);
    if b.len() >= 4 {
        let front = b.take(4);
        assert(magic[0] == 0x4a && magic[1] == 0x4c && magic[2] == 0x4f && magic[3] == 0x47);
        assert(front[0] == b[0] && front[1] == b[1] && front[2] == b[2] && front[3] == b[3]);
        if b[0] == 0x4a && b[1] == 0x4c && b[2] == 0x4f && b[3] == 0x47 {
            assert(front =~= magic);
        }
    }
}

/// A journal is read segment by segment: a further segment adds its payloads at
/// the end, unless one before it breaks off; then nothing is read after that
/// one.
pub proof fn law_journal_read(files: Seq<Seq<u8>>, last: Seq<u8>)
    ensures
        payloads_in(Seq::<Seq<u8>>::empty()).len() == 0,
        !breaks_off(Seq::<Seq<u8>>::empty()),
        breaks_off(files.push(last)) <==> breaks_off(files) || segment_in(last).end == SegmentEnd::Truncated,
        !breaks_off(files) ==> payloads_in(files.push(last)) == payloads_in(files) + segment_in(last).payloads,
        breaks_off(files) ==> payloads_in(files.push(last)) == payloads_in(files),
    decreases files.len(),
{
    let all = files.push(last);
    if !breaks_off(files) {
        lemma_payloads_push(files, last);
        if segment_in(last).end is Truncated {
            assert(segment_in(all[files.len() as int]).end is Truncated);
        }
    } else {
        let i = choose|i: int| 0 <= i < files.len() && segment_in(#[trigger] files[i]).end is Truncated;
        assert(segment_in(all[i]).end is Truncated);
        let others = files.drop_first();
        assert(all[0] == files[0]);
        assert(all.drop_first() =~= others.push(last));
        if !(segment_in(files[0]).end is Truncated) {
            assert(segment_in(others[i - 1]).end is Truncated);
            law_journal_read(others, last);
        }
    }
}

/// Reading a segment gives back the payloads that were written to it, in
/// order. A record that was being written when the writing broke off is lost:
/// as if it had not been begun, if less than its checksum was written.
#[verifier::spinoff_prover]
#[verifier::rlimit(40)]
pub proof fn law_segment_round_trip(payloads: Seq<Seq<u8>>, tail: Seq<u8>)
    requires
        payloads_fit(payloads),
        tail.len() < 4,
    ensures
        segment_in(segment_header() + encoded_records(payloads) + tail) == (SegmentModel {
            payloads,
            end: SegmentEnd::Clean,
        }),
{
    let b = segment_header() + encoded_records(payloads) + tail;
    lemma_records_back(payloads, tail);
    assert(b.take(4) =~= segment_header().take(4));
    assert(b[4] == JOURNAL_VERSION);
    assert(b.skip(5) =~= encoded_records(payloads) + tail);
    assert(payloads + Seq::empty() =~= payloads);
}

/// A journal on disk and its writer.
#[verifier::ext_equal]
pub struct JournalModel {
    pub writer: JournalWriter,
    pub files: Seq<Seq<u8>>,
}

/// A new journal.
pub open spec fn begun(max_segment_bytes: u64) -> JournalModel {
    JournalModel {
        writer: JournalWriter { current_segment: 1, max_segment_bytes, current_bytes: SEGMENT_HEADER_SIZE },
        files: seq![segment_header()],
    }
}

/// The journal once a record was added: the record goes to the last segment,
/// and if that fills it the next segment begins.
pub open spec fn logged(j: JournalModel, payload: Seq<u8>) -> JournalModel {
    let grown = j.files.drop_last().push(j.files.last() + record_bytes(payload));
    JournalModel {
        writer: appended(j.writer, payload.len()),
        files: if fills(j.writer, payload.len()) {
            grown.push(segment_header())
        } else {
            grown
        },
    }
}

/// A new journal once some records were added.
pub open spec fn logged_all(max_segment_bytes: u64, payloads: Seq<Seq<u8>>) -> JournalModel
    decreases payloads.len(),
{
    if payloads.len() == 0 {
        begun(max_segment_bytes)
    } else {
        logged(logged_all(max_segment_bytes, payloads.drop_last()), payloads.last())
    }
}

/// Reading a further segment.
proof fn lemma_payloads_push(files: Seq<Seq<u8>>, last: Seq<u8>)
    requires
        !breaks_off(files),
    ensures
        payloads_in(files.push(last)) == payloads_in(files) + segment_in(last).payloads,
        !(segment_in(last).end is Truncated) ==> !breaks_off(files.push(last)),
    decreases files.len(),
{
    let all = files.push(last);
    if files.len() == 0 {
        assert(all.drop_first() =~= Seq::empty());
        assert(payloads_in(all.drop_first()) =~= Seq::empty());
        assert(payloads_in(all) =~= payloads_in(files) + segment_in(last).payloads);
    } else {
        let others = files.drop_first();
        assert(!breaks_off(others)) by {
            if breaks_off(others) {
                let i = choose|i: int| 0 <= i < others.len() && segment_in(#[trigger] others[i]).end is Truncated;
                assert(segment_in(files[i + 1]).end is Truncated);
            }
        }
        lemma_payloads_push(others, last);
        assert(all.drop_first() =~= others.push(last));
        assert(all[0] == files[0]);
        assert(!(segment_in(files[0]).end is Truncated));
        assert(payloads_in(all) =~= payloads_in(files) + segment_in(last).payloads);
    }
    if !(segment_in(last).end is Truncated) && breaks_off(all) {
        let i = choose|i: int| 0 <= i < all.len() && segment_in(#[trigger] all[i]).end is Truncated;
        if i < files.len() {
            assert(segment_in(files[i]).end is Truncated);
        }
    }
}

/// The records, by the last one.
proof fn lemma_encoded_records_push(payloads: Seq<Seq<u8>>, last: Seq<u8>)
    ensures
        encoded_records(payloads.push(last)) == encoded_records(payloads) + record_bytes(last),
    decreases payloads.len(),
{
    if payloads.len() == 0 {
        assert(payloads.push(last).drop_first() =~= Seq::empty());
        assert(encoded_records(payloads.push(last).drop_first()) =~= Seq::empty());
    } else {
        lemma_encoded_records_push(payloads.drop_first(), last);
        assert(payloads.push(last).drop_first() =~= payloads.drop_first().push(last));
    }
    assert(encoded_records(payloads.push(last)) =~= encoded_records(payloads) + record_bytes(last));
}

/// The shape of a journal: whole segments, and a last one with the payloads
/// that are returned.
proof fn lemma_journal_shape(max_segment_bytes: u64, payloads: Seq<Seq<u8>>) -> (open: Seq<Seq<u8>>)
    requires
        payloads_fit(payloads),
    ensures
        ({
            let files = logged_all(max_segment_bytes, payloads).files;
            &&& files.len() > 0
            &&& payloads_fit(open)
            &&& files.last() == segment_header() + encoded_records(open)
            &&& !breaks_off(files.drop_last())
            &&& payloads_in(files.drop_last()) + open == payloads
        }),
    decreases payloads.len(),
{
    if payloads.len() == 0 {
        let files = begun(max_segment_bytes).files;
        let open = Seq::<Seq<u8>>::empty();
        assert(files.drop_last() =~= Seq::empty());
        assert(files.last() =~= segment_header() + encoded_records(open));
        assert(payloads_in(files.drop_last()) + open =~= payloads);
        open
    } else {
        let shorter = payloads.drop_last();
        let p = payloads[payloads.len() - 1];
        assert(p.len() <= 0xffff_ffff);
        assert(payloads_fit(shorter)) by {
            assert forall|i: int| 0 <= i < shorter.len() implies (#[trigger] shorter[i]).len() <= 0xffff_ffff by {
                assert(shorter[i] == payloads[i]);
            }
        }
        let before = lemma_journal_shape(max_segment_bytes, shorter);
        let j = logged_all(max_segment_bytes, shorter);
        let files = logged(j, p).files;
        let whole = j.files.drop_last();
        let grown = before.push(p);
        let last = segment_header() + encoded_records(grown);
        lemma_encoded_records_push(before, p);
        assert(j.files.last() + record_bytes(p) =~= last);
        assert(payloads_in(whole) + grown =~= payloads) by {
            assert(payloads_in(whole) + grown =~= (payloads_in(whole) + before).push(p));
            assert(shorter.push(p) =~= payloads);
        }
        if fills(j.writer, p.len()) {
            law_segment_round_trip(grown, Seq::empty());
            assert(last + Seq::empty() =~= last);
            lemma_payloads_push(whole, last);
            let open = Seq::<Seq<u8>>::empty();
            assert(files.drop_last() =~= whole.push(last));
            assert(files.last() =~= segment_header() + encoded_records(open));
            assert(payloads_in(files.drop_last()) + open =~= payloads);
            open
        } else {
            assert(files.drop_last() =~= whole);
            grown
        }
    }
}

/// Reading a journal gives back every record that was added to it, in order,
/// however the records were spread over segments.
pub proof fn law_journal_round_trip(max_segment_bytes: u64, payloads: Seq<Seq<u8>>)
    requires
        payloads_fit(payloads),
    ensures
        payloads_in(logged_all(max_segment_bytes, payloads).files) == payloads,
        !breaks_off(logged_all(max_segment_bytes, payloads).files),
{
    let open = lemma_journal_shape(max_segment_bytes, payloads);
    let files = logged_all(max_segment_bytes, payloads).files;
    law_segment_round_trip(open, Seq::empty());
    assert(files.last() + Seq::empty() =~= files.last());
    lemma_payloads_push(files.drop_last(), files.last());
    assert(files.drop_last().push(files.last()) =~= files);
}

/// Whether the writer of a new journal can take all of some records.
pub open spec fn takes_all(max_segment_bytes: u64, payloads: Seq<Seq<u8>>) -> bool
    decreases payloads.len(),
{
    payloads.len() > 0 ==> {
        let w = logged_all(max_segment_bytes, payloads.drop_last()).writer;
        &&& takes_all(max_segment_bytes, payloads.drop_last())
        &&& w.current_bytes + 8 + payloads.last().len() <= u64::MAX
        &&& fills(w, payloads.last().len()) ==> w.current_segment < u32::MAX
    }
}

/// The writer knows the number of segments and the size of the last one, and no
/// segment but the last has room left.
pub proof fn law_writer_keeps_count(max_segment_bytes: u64, payloads: Seq<Seq<u8>>)
    requires
        takes_all(max_segment_bytes, payloads),
    ensures
        ({
            let j = logged_all(max_segment_bytes, payloads);
            &&& j.files.len() == j.writer.current_segment
            &&& j.files.last().len() == j.writer.current_bytes
            &&& j.writer.max_segment_bytes == max_segment_bytes
            &&& forall|i: int| 0 <= i < j.files.len() - 1 ==> (#[trigger] j.files[i]).len() >= max_segment_bytes
        }),
    decreases payloads.len(),
{
    if payloads.len() > 0 {
        let shorter = payloads.drop_last();
        let p = payloads.last();
        law_writer_keeps_count(max_segment_bytes, shorter);
        let j = logged_all(max_segment_bytes, shorter);
        let k = logged_all(max_segment_bytes, payloads);
        lemma_le_len(crc32(p) as nat, 4);
        lemma_le_len(p.len(), 4);
        let grown = j.files.last() + record_bytes(p);
        assert(grown.len() == j.files.last().len() + 8 + p.len());
        assert forall|i: int| 0 <= i < k.files.len() - 1 implies (#[trigger] k.files[i]).len()
            >= max_segment_bytes by {
            if i < j.files.len() - 1 {
                assert(k.files[i] == j.files[i]);
            } else {
                assert(k.files[i] == grown);
            }
        }
    }
}

} // verus!
