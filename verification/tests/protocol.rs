use bytes::BytesMut;
use tasker::protocol::{decode_frame, encode_frame, MsgType, ProtocolError, HEADER_SIZE, MAGIC, VERSION};

const ALL: [(MsgType, u8); 17] = [
    (MsgType::Create, 0x01),
    (MsgType::Start, 0x02),
    (MsgType::Complete, 0x03),
    (MsgType::Cancel, 0x04),
    (MsgType::DependsOn, 0x05),
    (MsgType::RemoveDep, 0x06),
    (MsgType::Watch, 0x07),
    (MsgType::Stats, 0x08),
    (MsgType::Shutdown, 0x0f),
    (MsgType::Register, 0x10),
    (MsgType::Unregister, 0x11),
    (MsgType::Dispatch, 0x12),
    (MsgType::StatusReport, 0x13),
    (MsgType::Heartbeat, 0x14),
    (MsgType::ResponseOk, 0x80),
    (MsgType::ResponseErr, 0x81),
    (MsgType::Event, 0x82),
];

#[test]
fn message_types_have_codes() {
    for (msg_type, code) in ALL {
        assert_eq!(msg_type.code(), code);
        assert_eq!(MsgType::try_from(code), Ok(msg_type));
    }
    let known = (0..=255u8).filter(|c| MsgType::try_from(*c).is_ok()).count();
    assert_eq!(known, ALL.len());
    assert_eq!(MsgType::try_from(0x09), Err(ProtocolError::UnknownMsgType(0x09)));
}

#[test]
fn the_layout_of_a_frame() {
    assert_eq!(&MAGIC, b"TASK");
    let frame = encode_frame(MsgType::Stats, 0x0203, b"hello");
    assert_eq!(frame.len(), HEADER_SIZE + 5);
    assert_eq!(frame[..12], [b'T', b'A', b'S', b'K', VERSION, 0x08, 0x03, 0x02, 5, 0, 0, 0]);
    assert_eq!(&frame[12..17], b"hello");
    let crc = crc32fast::hash(&frame[..17]);
    assert_eq!(frame[17..], crc.to_le_bytes());
}

#[test]
fn frames_are_decoded_one_after_the_other() {
    let mut buf = BytesMut::new();
    buf.extend_from_slice(&encode_frame(MsgType::Create, 1, b"first"));
    buf.extend_from_slice(&encode_frame(MsgType::Heartbeat, 65535, b""));
    buf.extend_from_slice(b"TASK");
    let first = decode_frame(&mut buf).unwrap().unwrap();
    assert_eq!((first.msg_type, first.stream_id), (MsgType::Create, 1));
    assert_eq!(&first.payload[..], b"first");
    assert_eq!(&first.clone().payload[..], b"first");
    let second = decode_frame(&mut buf).unwrap().unwrap();
    assert_eq!((second.msg_type, second.stream_id), (MsgType::Heartbeat, 65535));
    assert_eq!(second.payload.len(), 0);
    assert!(decode_frame(&mut buf).unwrap().is_none());
    assert_eq!(&buf[..], b"TASK");
}

#[test]
fn a_frame_is_decoded_once_its_last_byte_is_there() {
    let frame = encode_frame(MsgType::Event, 9, b"payload");
    let mut buf = BytesMut::new();
    for (i, byte) in frame.iter().enumerate() {
        assert!(decode_frame(&mut buf).unwrap().is_none());
        assert_eq!(buf.len(), i);
        buf.extend_from_slice(&[*byte]);
    }
    let decoded = decode_frame(&mut buf).unwrap().unwrap();
    assert_eq!(&decoded.payload[..], b"payload");
    assert_eq!(buf.len(), 0);
}

fn decode_changed(at: usize, value: u8) -> (ProtocolError, usize) {
    let mut bytes = encode_frame(MsgType::Create, 1, b"x").to_vec();
    bytes[at] = value;
    let mut buf = BytesMut::from(&bytes[..]);
    buf.extend_from_slice(b"rest");
    let err = decode_frame(&mut buf).unwrap_err();
    (err, buf.len())
}

#[test]
fn corrupt_frames_are_refused_and_taken_out() {
    assert_eq!(decode_changed(0, b'X'), (ProtocolError::InvalidMagic, 4));
    assert_eq!(decode_changed(4, 2), (ProtocolError::UnsupportedVersion(2), 4));
    assert_eq!(decode_changed(5, 0x33), (ProtocolError::UnknownMsgType(0x33), 4));
    assert_eq!(decode_changed(12, b'y'), (ProtocolError::ChecksumMismatch, 4));
    assert_eq!(decode_changed(6, 2), (ProtocolError::ChecksumMismatch, 4));
    assert_eq!(decode_changed(16, decode_crc_byte() ^ 1), (ProtocolError::ChecksumMismatch, 4));
}

fn decode_crc_byte() -> u8 {
    encode_frame(MsgType::Create, 1, b"x")[16]
}
