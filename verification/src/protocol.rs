//! The wire protocol: messages in frames.
//!
//! A frame is `TASK`, a version byte, the message type, the stream id (two
//! bytes), the length of the payload (four bytes), the payload, and the CRC-32
//! of all of that (four bytes). Numbers are little-endian.
use crate::buffers::{
    buffer_bytes, buffer_extend, buffer_freeze, buffer_new, buffer_put_u16, buffer_put_u32, buffer_put_u8,
    buffer_split_to, buffered, bytes_clone, contents,
};
use crate::checksum::{checksum, crc32};
use crate::codec::{
    from_le, get_u16, get_u32, law_four_bytes, law_two_bytes, le, len32, lemma_capacities, lemma_from_le_le,
    lemma_le_len,
};
use bytes::{Bytes, BytesMut};
use vstd::prelude::*;
use vstd::slice::slice_subrange;

verus! {

/// The bytes that a frame begins with: `TASK`.
pub const MAGIC: [u8; 4] = [0x54, 0x41, 0x53, 0x4b];

/// The version of the protocol.
pub const VERSION: u8 = 1;

/// The number of bytes that a frame adds to its payload: twelve before it and
/// a checksum of four after it.
pub const HEADER_SIZE: usize = 16;

/// Message types for the wire protocol.
#[derive(Debug, Clone, Copy, PartialEq, Eq, Hash, Structural)]
pub enum MsgType {
    Create,
    Start,
    Complete,
    Cancel,
    DependsOn,
    RemoveDep,
    Watch,
    Stats,
    Shutdown,
    Register,
    Unregister,
    Dispatch,
    StatusReport,
    Heartbeat,
    ResponseOk,
    ResponseErr,
    Event,
}

/// The byte that stands for a message type.
pub open spec fn msg_code(msg_type: MsgType) -> u8 {
    match msg_type {
        MsgType::Create => 0x01,
        MsgType::Start => 0x02,
        MsgType::Complete => 0x03,
        MsgType::Cancel => 0x04,
        MsgType::DependsOn => 0x05,
        MsgType::RemoveDep => 0x06,
        MsgType::Watch => 0x07,
        MsgType::Stats => 0x08,
        MsgType::Shutdown => 0x0f,
        MsgType::Register => 0x10,
        MsgType::Unregister => 0x11,
        MsgType::Dispatch => 0x12,
        MsgType::StatusReport => 0x13,
        MsgType::Heartbeat => 0x14,
        MsgType::ResponseOk => 0x80,
        MsgType::ResponseErr => 0x81,
        MsgType::Event => 0x82,
    }
}

/// The message type that a byte stands for.
pub open spec fn msg_type_of(code: u8) -> Result<MsgType, ProtocolError> {
    if code == 0x01 {
        Ok(MsgType::Create)
    } else if code == 0x02 {
        Ok(MsgType::Start)
    } else if code == 0x03 {
        Ok(MsgType::Complete)
    } else if code == 0x04 {
        Ok(MsgType::Cancel)
    } else if code == 0x05 {
        Ok(MsgType::DependsOn)
    } else if code == 0x06 {
        Ok(MsgType::RemoveDep)
    } else if code == 0x07 {
        Ok(MsgType::Watch)
    } else if code == 0x08 {
        Ok(MsgType::Stats)
    } else if code == 0x0f {
        Ok(MsgType::Shutdown)
    } else if code == 0x10 {
        Ok(MsgType::Register)
    } else if code == 0x11 {
        Ok(MsgType::Unregister)
    } else if code == 0x12 {
        Ok(MsgType::Dispatch)
    } else if code == 0x13 {
        Ok(MsgType::StatusReport)
    } else if code == 0x14 {
        Ok(MsgType::Heartbeat)
    } else if code == 0x80 {
        Ok(MsgType::ResponseOk)
    } else if code == 0x81 {
        Ok(MsgType::ResponseErr)
    } else if code == 0x82 {
        Ok(MsgType::Event)
    } else {
        Err(ProtocolError::UnknownMsgType(code))
    }
}

impl MsgType {
    /// The byte that stands for this message type.
    pub fn code(self) -> (r: u8)
        ensures
            r == msg_code(self),
    {
        match self {
            MsgType::Create => 0x01,
            MsgType::Start => 0x02,
            MsgType::Complete => 0x03,
            MsgType::Cancel => 0x04,
            MsgType::DependsOn => 0x05,
            MsgType::RemoveDep => 0x06,
            MsgType::Watch => 0x07,
            MsgType::Stats => 0x08,
            MsgType::Shutdown => 0x0f,
            MsgType::Register => 0x10,
            MsgType::Unregister => 0x11,
            MsgType::Dispatch => 0x12,
            MsgType::StatusReport => 0x13,
            MsgType::Heartbeat => 0x14,
            MsgType::ResponseOk => 0x80,
            MsgType::ResponseErr => 0x81,
            MsgType::Event => 0x82,
        }
    }
}

impl TryFrom<u8> for MsgType {
    type Error = ProtocolError;

    fn try_from(v: u8) -> (r: Result<MsgType, ProtocolError>) {
        match v {
            0x01 => Ok(MsgType::Create),
            0x02 => Ok(MsgType::Start),
            0x03 => Ok(MsgType::Complete),
            0x04 => Ok(MsgType::Cancel),
            0x05 => Ok(MsgType::DependsOn),
            0x06 => Ok(MsgType::RemoveDep),
            0x07 => Ok(MsgType::Watch),
            0x08 => Ok(MsgType::Stats),
            0x0f => Ok(MsgType::Shutdown),
            0x10 => Ok(MsgType::Register),
            0x11 => Ok(MsgType::Unregister),
            0x12 => Ok(MsgType::Dispatch),
            0x13 => Ok(MsgType::StatusReport),
            0x14 => Ok(MsgType::Heartbeat),
            0x80 => Ok(MsgType::ResponseOk),
            0x81 => Ok(MsgType::ResponseErr),
            0x82 => Ok(MsgType::Event),
            _ => Err(ProtocolError::UnknownMsgType(v)),
        }
    }
}

impl vstd::std_specs::convert::TryFromSpecImpl<u8> for MsgType {
    open spec fn obeys_try_from_spec() -> bool {
        true
    }

    open spec fn try_from_spec(v: u8) -> Result<MsgType, ProtocolError> {
        msg_type_of(v)
    }
}

/// What can be wrong with bytes from the wire.
#[derive(Debug, Clone, Copy, PartialEq, Eq, Structural)]
pub enum ProtocolError {
    InvalidMagic,
    UnsupportedVersion(u8),
    ChecksumMismatch,
    IncompleteFrame,
    UnknownMsgType(u8),
}

/// A message from the wire.
#[derive(Debug)]
pub struct Frame {
    pub msg_type: MsgType,
    pub stream_id: u16,
    pub payload: Bytes,
}

/// The value of a [`Frame`].
#[verifier::ext_equal]
pub struct FrameModel {
    pub msg_type: MsgType,
    pub stream_id: u16,
    pub payload: Seq<u8>,
}

impl View for Frame {
    type V = FrameModel;

    open spec fn view(&self) -> FrameModel {
        FrameModel { msg_type: self.msg_type, stream_id: self.stream_id, payload: contents(self.payload) }
    }
}

impl Clone for Frame {
    fn clone(&self) -> (r: Self)
        ensures
            r@ == self@,
    {
        Frame { msg_type: self.msg_type, stream_id: self.stream_id, payload: bytes_clone(&self.payload) }
    }
}

/// A frame without its checksum.
pub open spec fn frame_body(msg_type: MsgType, stream_id: u16, payload: Seq<u8>) -> Seq<u8> {
    MAGIC@ + seq![VERSION, msg_code(msg_type)] + le(stream_id as nat, 2) + le(payload.len(), 4) + payload
}

/// A frame.
pub open spec fn encoded_frame(msg_type: MsgType, stream_id: u16, payload: Seq<u8>) -> Seq<u8> {
    let body = frame_body(msg_type, stream_id, payload);
    body + le(crc32(body) as nat, 4)
}

/// Encodes a frame. Of the length of the payload the low four bytes are
/// written.
pub fn encode_frame(msg_type: MsgType, stream_id: u16, payload: &[u8]) -> (r: Bytes)
    requires
        payload@.len() + HEADER_SIZE <= isize::MAX,
    ensures
        contents(r) == encoded_frame(msg_type, stream_id, payload@),
{
    proof {
        lemma_le_len(stream_id as nat, 2);
        lemma_le_len(payload@.len(), 4);
    }
    let mut buf: BytesMut = buffer_new();
    buffer_extend(&mut buf, &MAGIC);
    buffer_put_u8(&mut buf, VERSION);
    buffer_put_u8(&mut buf, msg_type.code());
    buffer_put_u16(&mut buf, stream_id);
    buffer_put_u32(&mut buf, len32(payload.len()));
    buffer_extend(&mut buf, payload);
    assert(buffered(buf) =~= frame_body(msg_type, stream_id, payload@));
    let crc: u32 = checksum(buffer_bytes(&buf));
    buffer_put_u32(&mut buf, crc);
    buffer_freeze(buf)
}

/// The length that a frame whose first bytes are `b` has.
pub open spec fn frame_len(b: Seq<u8>) -> nat {
    HEADER_SIZE as nat + from_le(b.subrange(8, 12))
}

/// Whether `b` begins with a whole frame.
pub open spec fn has_frame(b: Seq<u8>) -> bool {
    b.len() >= HEADER_SIZE && b.len() >= frame_len(b)
}

/// The message in a whole frame, or what is wrong with it.
pub open spec fn opened(f: Seq<u8>) -> Result<FrameModel, ProtocolError> {
    let n = f.len() - 4;
    if f.take(4) != MAGIC@ {
        Err(ProtocolError::InvalidMagic)
    } else if f[4] != VERSION {
        Err(ProtocolError::UnsupportedVersion(f[4]))
    } else {
        match msg_type_of(f[5]) {
            Err(e) => Err(e),
            Ok(msg_type) => if from_le(f.skip(n)) != crc32(f.take(n)) {
                Err(ProtocolError::ChecksumMismatch)
            } else {
                Ok(
                    FrameModel {
                        msg_type,
                        stream_id: from_le(f.subrange(6, 8)) as u16,
                        payload: f.subrange(12, n),
                    },
                )
            },
        }
    }
}

/// Opens a whole frame.
fn open_frame(frame: BytesMut) -> (r: Result<Frame, ProtocolError>)
    requires
        buffered(frame).len() >= HEADER_SIZE,
    ensures
        match r {
            Ok(f) => opened(buffered(frame)) == Ok::<FrameModel, ProtocolError>(f@),
            Err(e) => opened(buffered(frame)) == Err::<FrameModel, ProtocolError>(e),
        },
{
    let ghost f = buffered(frame);
    let bytes: &[u8] = buffer_bytes(&frame);
    let n: usize = bytes.len() - 4;
    if bytes[0] != 0x54 || bytes[1] != 0x41 || bytes[2] != 0x53 || bytes[3] != 0x4b {
        proof {
            if f.take(4) == MAGIC@ {
                assert(f[0] == f.take(4)[0] && f[1] == f.take(4)[1] && f[2] == f.take(4)[2] && f[3] == f.take(4)[3]);
            }
        }
        return Err(ProtocolError::InvalidMagic);
    }
    assert(f.take(4) =~= MAGIC@);
    if bytes[4] != VERSION {
        return Err(ProtocolError::UnsupportedVersion(bytes[4]));
    }
    let msg_type: MsgType = match MsgType::try_from(bytes[5]) {
        Ok(msg_type) => msg_type,
        Err(e) => {
            return Err(e);
        },
    };
    let stream_id: u16 = match get_u16(slice_subrange(bytes, 6, 8)) {
        Some((v, _)) => v,
        None => 0,
    };
    let expected: u32 = match get_u32(slice_subrange(bytes, n, bytes.len())) {
        Some((v, _)) => v,
        None => 0,
    };
    proof {
        assert(f.subrange(6, 8).take(2) =~= f.subrange(6, 8));
        assert(f.subrange(n as int, f.len() as int).take(4) =~= f.skip(n as int));
        assert(f.subrange(0, n as int) =~= f.take(n as int));
    }
    if expected != checksum(slice_subrange(bytes, 0, n)) {
        return Err(ProtocolError::ChecksumMismatch);
    }
    let mut frame: BytesMut = frame;
    let mut body: BytesMut = buffer_split_to(&mut frame, n);
    let _ = buffer_split_to(&mut body, 12);
    assert(buffered(body) =~= f.subrange(12, n as int));
    Ok(Frame { msg_type, stream_id, payload: buffer_freeze(body) })
}

/// Takes one frame from the front of `buf`: a message if there is a whole
/// frame and it is sound, nothing if more bytes are needed, an error if the
/// frame is corrupt. A corrupt frame is taken out of the buffer as well.
pub fn decode_frame(buf: &mut BytesMut) -> (r: Result<Option<Frame>, ProtocolError>)
    ensures
        ({
            let b = buffered(*old(buf));
            if !has_frame(b) {
                r == Ok::<Option<Frame>, ProtocolError>(None) && buffered(*final(buf)) == b
            } else {
                &&& buffered(*final(buf)) == b.skip(frame_len(b) as int)
                &&& match opened(b.take(frame_len(b) as int)) {
                    Ok(f) => r matches Ok(Some(frame)) && frame@ == f,
                    Err(e) => r == Err::<Option<Frame>, ProtocolError>(e),
                }
            }
        }),
{
    let bytes: &[u8] = buffer_bytes(buf);
    let len: usize = bytes.len();
    if len < HEADER_SIZE {
        return Ok(None);
    }
    let payload_len: u32 = match get_u32(slice_subrange(bytes, 8, 12)) {
        Some((v, _)) => v,
        None => 0,
    };
    assert(bytes@.subrange(8, 12).take(4) =~= bytes@.subrange(8, 12));
    if len - HEADER_SIZE < payload_len as usize {
        return Ok(None);
    }
    let total: usize = HEADER_SIZE + payload_len as usize;
    let frame: BytesMut = buffer_split_to(buf, total);
    match open_frame(frame) {
        Ok(frame) => Ok(Some(frame)),
        Err(e) => Err(e),
    }
}

/// A message type is found again by its byte.
pub proof fn law_msg_type_round_trip(msg_type: MsgType)
    ensures
        msg_type_of(msg_code(msg_type)) == Ok::<MsgType, ProtocolError>(msg_type),
{
}

/// A frame has the length that its first bytes announce, and opening it gives
/// the message back, as long as the length of the payload fits in four bytes.
/// Whatever bytes follow a frame, it is the frame that is taken from their
/// front, and they are left.
pub proof fn law_frame_round_trip(msg_type: MsgType, stream_id: u16, payload: Seq<u8>, rest: Seq<u8>)
    requires
        payload.len() <= 0xffff_ffff,
    ensures
        ({
            let b = encoded_frame(msg_type, stream_id, payload) + rest;
            &&& has_frame(b)
            &&& b.skip(frame_len(b) as int) == rest
            &&& opened(b.take(frame_len(b) as int)) == Ok::<FrameModel, ProtocolError>(
                FrameModel { msg_type, stream_id, payload },
            )
        }),
{
    let body = frame_body(msg_type, stream_id, payload);
    let f = encoded_frame(msg_type, stream_id, payload);
    let b = f + rest;
    let crc = crc32(body);
    lemma_capacities();
    lemma_le_len(stream_id as nat, 2);
    lemma_le_len(payload.len(), 4);
    lemma_le_len(crc as nat, 4);
    lemma_from_le_le(stream_id as nat, 2);
    lemma_from_le_le(payload.len(), 4);
    lemma_from_le_le(crc as nat, 4);
    assert(b.subrange(8, 12) =~= le(payload.len(), 4));
    assert(b.skip(f.len() as int) =~= rest);
    assert(b.take(f.len() as int) =~= f);
    assert(f.take(4) =~= MAGIC@);
    assert(f[4] == VERSION && f[5] == msg_code(msg_type));
    assert(f.subrange(6, 8) =~= le(stream_id as nat, 2));
    assert(f.skip(f.len() - 4) =~= le(crc as nat, 4));
    assert(f.take(f.len() - 4) =~= body);
    assert(f.subrange(12, f.len() - 4) =~= payload);
}

/// Nothing is taken from a buffer before the last byte of a frame has arrived.
pub proof fn law_partial_frame_waits(msg_type: MsgType, stream_id: u16, payload: Seq<u8>, n: int)
    requires
        payload.len() <= 0xffff_ffff,
        0 <= n < encoded_frame(msg_type, stream_id, payload).len(),
    ensures
        !has_frame(encoded_frame(msg_type, stream_id, payload).take(n)),
{
    let f = encoded_frame(msg_type, stream_id, payload);
    lemma_capacities();
    lemma_le_len(stream_id as nat, 2);
    lemma_le_len(payload.len(), 4);
    lemma_le_len(crc32(frame_body(msg_type, stream_id, payload)) as nat, 4);
    lemma_from_le_le(payload.len(), 4);
    if n >= 16 {
        assert(f.take(n).subrange(8, 12) =~= le(payload.len(), 4));
    }
}

/// Which byte stands for which message type: each type has one of its own, and
/// every other byte is refused with that byte.
pub proof fn law_msg_codes(code: u8)
    ensures
        msg_code(MsgType::Create) == 1,
        msg_code(MsgType::Start) == 2,
        msg_code(MsgType::Complete) == 3,
        msg_code(MsgType::Cancel) == 4,
        msg_code(MsgType::DependsOn) == 5,
        msg_code(MsgType::RemoveDep) == 6,
        msg_code(MsgType::Watch) == 7,
        msg_code(MsgType::Stats) == 8,
        msg_code(MsgType::Shutdown) == 15,
        msg_code(MsgType::Register) == 16,
        msg_code(MsgType::Unregister) == 17,
        msg_code(MsgType::Dispatch) == 18,
        msg_code(MsgType::StatusReport) == 19,
        msg_code(MsgType::Heartbeat) == 20,
        msg_code(MsgType::ResponseOk) == 128,
        msg_code(MsgType::ResponseErr) == 129,
        msg_code(MsgType::Event) == 130,
        msg_type_of(code) matches Ok(msg_type) ==> msg_code(msg_type) == code,
        msg_type_of(code) is Err ==> msg_type_of(code) == Err::<MsgType, ProtocolError>(
            ProtocolError::UnknownMsgType(code),
        ),
        msg_type_of(code) is Ok <==> 1 <= code <= 8 || 15 <= code <= 20 || 128 <= code <= 130,
{
}

/// Where things stand in a frame: `TASK`, the version, the type, the stream and
/// the length of the payload take up the first twelve bytes; the payload and
/// the checksum of all of that follow, and nothing else. Numbers have their low
/// byte first.
pub proof fn law_frame_layout(msg_type: MsgType, stream_id: u16, payload: Seq<u8>)
    requires
        payload.len() <= 0xffff_ffff,
    ensures
        ({
            let f = encoded_frame(msg_type, stream_id, payload);
            let n = payload.len() as int;
            let crc = crc32(f.take(12 + n));
            &&& f.len() == 16 + n
            &&& f[0] == 0x54 && f[1] == 0x41 && f[2] == 0x53 && f[3] == 0x4b
            &&& f[4] == 1
            &&& f[5] == msg_code(msg_type)
            &&& f[6] + 256 * f[7] == stream_id
            &&& f[8] + 256 * (f[9] + 256 * (f[10] + 256 * f[11])) == n
            &&& f.subrange(12, 12 + n) == payload
            &&& f[12 + n] + 256 * (f[13 + n] + 256 * (f[14 + n] + 256 * f[15 + n])) == crc
        }),
{
    let body = frame_body(msg_type, stream_id, payload);
    let f = encoded_frame(msg_type, stream_id, payload);
    let n = payload.len() as int;
    let crc = crc32(body);
    lemma_capacities();
    lemma_le_len(stream_id as nat, 2);
    lemma_le_len(payload.len(), 4);
    lemma_le_len(crc as nat, 4);
    lemma_from_le_le(stream_id as nat, 2);
    lemma_from_le_le(payload.len(), 4);
    lemma_from_le_le(crc as nat, 4);
    assert(f.take(12 + n) =~= body);
    assert(f.subrange(12, 12 + n) =~= payload);
    assert(f.subrange(6, 8) =~= le(stream_id as nat, 2));
    assert(f.subrange(8, 12) =~= le(payload.len(), 4));
    assert(f.subrange(12 + n, 16 + n) =~= le(crc as nat, 4));
    law_two_bytes(f.subrange(6, 8));
    law_four_bytes(f.subrange(8, 12));
    law_four_bytes(f.subrange(12 + n, 16 + n));
}

/// When the bytes at the front of a buffer are taken for a frame: as soon as
/// there are as many as the length in them announces, and sixteen at least.
pub proof fn law_frame_announced(b: Seq<u8>)
    ensures
        b.len() < 16 ==> !has_frame(b),
        b.len() >= 16 ==> {
            let n = b[8] + 256 * (b[9] + 256 * (b[10] + 256 * b[11]));
            &&& frame_len(b) == 16 + n
            &&& has_frame(b) <==> b.len() >= 16 + n
        },
{
    if b.len() >= 16 {
        law_four_bytes(b.subrange(8, 12));
    }
}

/// What opening a whole frame gives, in this order of reasons: an error if it
/// does not begin with `TASK`; then if it is of another version, or of an
/// unknown type, which the error names; then if the checksum at its end is not
/// that of what comes before. Otherwise the type, the stream and the payload
/// that stand in it.
pub proof fn law_frame_opened(f: Seq<u8>)
    requires
        f.len() >= 16,
    ensures
        ({
            let n = f.len() as int;
            let magic = f[0] == 0x54 && f[1] == 0x41 && f[2] == 0x53 && f[3] == 0x4b;
            let known = 1 <= f[5] <= 8 || 15 <= f[5] <= 20 || 128 <= f[5] <= 130;
            let sum = f[n - 4] + 256 * (f[n - 3] + 256 * (f[n - 2] + 256 * f[n - 1]));
            &&& !magic ==> opened(f) == Err::<FrameModel, ProtocolError>(ProtocolError::InvalidMagic)
            &&& magic && f[4] != 1 ==> opened(f) == Err::<FrameModel, ProtocolError>(
                ProtocolError::UnsupportedVersion(f[4]),
            )
            &&& magic && f[4] == 1 && !known ==> opened(f) == Err::<FrameModel, ProtocolError>(
                ProtocolError::UnknownMsgType(f[5]),
            )
            &&& magic && f[4] == 1 && known && sum != crc32(f.take(n - 4)) ==> opened(f) == Err::<
                FrameModel,
                ProtocolError,
            >(ProtocolError::ChecksumMismatch)
            &&& magic && f[4] == 1 && known && sum == crc32(f.take(n - 4)) ==> {
                &&& opened(f) matches Ok(m)
                &&& msg_code(m.msg_type) == f[5]
                &&& m.stream_id == f[6] + 256 * f[7]
                &&& m.payload == f.subrange(12, n - 4)
            }
        }),
{
    let n = f.len() as int;
    law_msg_codes(f[5]);
    law_four_bytes(f.skip(n - 4));
    law_two_bytes(f.subrange(6, 8));
    let front = f.take(4);
    if f[0] == 0x54 && f[1] == 0x41 && f[2] == 0x53 && f[3] == 0x4b {
        assert(front =~= MAGIC@);
    } else if front == MAGIC@ {
        assert(front[0] == f[0] && front[1] == f[1] && front[2] == f[2] && front[3] == f[3]);
    }
}

/// The value of a frame holds its type, its stream and the bytes of its payload.
pub proof fn law_frame_values(f: Frame)
    ensures
        f@.msg_type == f.msg_type,
        f@.stream_id == f.stream_id,
        f@.payload == contents(f.payload),
{
}

} // verus!
