use protohack::road_codec::{Codec, ReqValue, RespValue};
use protohack::road_conn::{handle_request, ConnState};
use protohack::road_dispatch::DispatcherRegistry;
use protohack::road_plate::PlateStorage;
use protohack::ticket::Ticket;

fn put_u32(buf: &mut Vec<u8>, x: u32) {
    buf.extend_from_slice(&x.to_be_bytes());
}

#[test]
fn test_decode_heartbeat() {
    let mut codec = Codec;
    let mut buf: Vec<u8> = Vec::with_capacity(5);
    buf.push(0x40);
    put_u32(&mut buf, 123456);

    let val = codec.decode(&mut buf).unwrap();
    assert_eq!(val, Some(ReqValue::WantHeartbeat(123456)));
    assert_eq!(buf.len(), 0); // buffer should be consumed
}

#[test]
fn test_unknown_opcode_errors() {
    let mut codec = Codec;
    let mut buf: Vec<u8> = vec![0x99];

    let err = codec.decode(&mut buf).unwrap_err();
    assert!(err.message().contains("Unknown Req type"));
}

#[test]
fn test_multiple_heartbeat_messages() {
    let mut codec = Codec;
    let mut buf: Vec<u8> = Vec::with_capacity(10);
    buf.push(0x40);
    put_u32(&mut buf, 42);
    buf.push(0x40);
    put_u32(&mut buf, 99);

    let first = codec.decode(&mut buf).unwrap();
    assert_eq!(first, Some(ReqValue::WantHeartbeat(42)));

    let second = codec.decode(&mut buf).unwrap();
    assert_eq!(second, Some(ReqValue::WantHeartbeat(99)));

    assert_eq!(buf.len(), 0);
}

#[test]
fn test_empty_buffer() {
    let mut codec = Codec;
    let mut buf: Vec<u8> = Vec::new();

    let val = codec.decode(&mut buf).unwrap();
    assert_eq!(val, None);
}

fn assert_opcode(buf: &[u8], expected: u8) {
    assert_eq!(buf[0], expected, "Unexpected opcode");
}

fn assert_length(buf: &[u8], expected_len: usize) {
    assert_eq!(buf[1] as usize, expected_len, "Unexpected length byte");
}

fn assert_be_bytes(actual: &[u8], expected: &[u8], field_name: &str) {
    assert_eq!(actual, expected, "Mismatch in field {}", field_name);
}

#[test]
fn encode_error() {
    let mut codec = Codec;
    let mut buf: Vec<u8> = Vec::new();

    let err_msg = "some error occurred";
    let item = RespValue::Error(err_msg.to_string());

    codec.encode(item, &mut buf).unwrap();

    assert_opcode(&buf, 0x10);
    assert_length(&buf, err_msg.len());
    assert_eq!(&buf[2..], err_msg.as_bytes());
}

#[test]
fn encode_ticket() {
    let mut codec = Codec;
    let mut buf: Vec<u8> = Vec::new();

    let plate = "ABC123".to_string();
    let road: u16 = 123;
    let mile1: u16 = 456;
    let timestamp1: u32 = 789;
    let mile2: u16 = 1011;
    let timestamp2: u32 = 1213;
    let speed: u16 = 88;
    let ticket = Ticket {
        plate: plate.clone(),
        road,
        mile1,
        timestamp1,
        mile2,
        timestamp2,
        speed,
    };

    codec.encode(RespValue::Ticket(ticket), &mut buf).unwrap();

    assert_opcode(&buf, 0x21);
    assert_length(&buf, plate.len());
    assert_eq!(&buf[2..2 + plate.len()], plate.as_bytes());

    let rem = &buf[(2 + plate.len())..];
    assert_be_bytes(&rem[0..2], &road.to_be_bytes(), "road");
    assert_be_bytes(&rem[2..4], &mile1.to_be_bytes(), "mile1");
    assert_be_bytes(&rem[4..8], &timestamp1.to_be_bytes(), "timestamp1");
    assert_be_bytes(&rem[8..10], &mile2.to_be_bytes(), "mile2");
    assert_be_bytes(&rem[10..14], &timestamp2.to_be_bytes(), "timestamp2");
    assert_be_bytes(&rem[14..16], &speed.to_be_bytes(), "speed");
}

#[test]
fn encode_error_too_long() {
    let mut codec = Codec;
    let mut buf: Vec<u8> = Vec::new();

    let long_err = "a".repeat(300);

    let item = RespValue::Error(long_err);

    let result = codec.encode(item, &mut buf);

    assert!(
        result.is_err(),
        "Encoding should fail on too long error message"
    );
}

#[test]
fn test_frame_finished_and_consumption_consistency() {
    let mut codec = Codec;

    // Helper to build plate frame: opcode(1) + length(1) + plate + timestamp(4)
    fn build_plate_frame(plate: &str, timestamp: u32) -> Vec<u8> {
        let mut buf: Vec<u8> = Vec::new();
        buf.push(0x20);
        buf.push(plate.len() as u8);
        buf.extend_from_slice(plate.as_bytes());
        put_u32(&mut buf, timestamp);
        buf
    }

    let plate = "EZ24TEG";
    let timestamp = 0x08_4B_A4; // arbitrary

    let mut buf = build_plate_frame(plate, timestamp);

    // Check frame_finished returns true for full frame
    assert!(
        protohack::road_codec::frame_finished(&buf),
        "frame_finished should be true for complete plate frame"
    );

    // Decode and check buffer fully consumed
    let before_len = buf.len();
    let decoded = codec.decode(&mut buf).unwrap();
    let after_len = buf.len();
    assert!(decoded.is_some(), "decode should return Some on full frame");
    assert_eq!(
        decoded.unwrap(),
        ReqValue::Plate(plate.to_string(), timestamp)
    );
    assert_eq!(
        after_len, 0,
        "Buffer should be fully consumed, got {} bytes leftover",
        after_len
    );
    assert_eq!(
        before_len - after_len,
        before_len,
        "Consumed bytes must equal initial buffer length"
    );
}

#[test]
fn test_incomplete_plate_frame_returns_none() {
    let mut codec = Codec;
    // Build frame but chop off last byte to simulate incomplete frame
    let mut buf: Vec<u8> = Vec::new();
    buf.push(0x20);
    buf.push(3);
    buf.extend_from_slice(b"ABC");
    put_u32(&mut buf, 123456);
    buf.truncate(buf.len() - 1); // remove last byte

    assert!(
        !protohack::road_codec::frame_finished(&buf),
        "frame_finished should be false for incomplete plate frame"
    );
    let decoded = codec.decode(&mut buf).unwrap();
    assert!(
        decoded.is_none(),
        "decode should return None for incomplete plate frame"
    );
}

#[test]
fn test_unknown_opcode_error() {
    let mut codec = Codec;
    let mut buf: Vec<u8> = vec![0x99, 0x00, 0x00];

    let res = codec.decode(&mut buf);
    assert!(res.is_err(), "decode should error on unknown opcode");
    assert!(
        res.unwrap_err().message().contains("Unknown Req type"),
        "error should mention unknown req type"
    );
}

#[test]
fn test_decode_camera_and_dispatcher() {
    let mut codec = Codec;
    let mut buf: Vec<u8> = vec![0x80, 0x00, 0x7b, 0x00, 0x08, 0x00, 0x3c];
    let val = codec.decode(&mut buf).unwrap();
    assert_eq!(val, Some(ReqValue::IAmCamera(123, 8, 60)));
    assert_eq!(buf.len(), 0);

    let mut buf: Vec<u8> = vec![0x81, 0x02, 0x00, 0x7b, 0x01, 0x00];
    let val = codec.decode(&mut buf).unwrap();
    assert_eq!(val, Some(ReqValue::IAmDispatcher(vec![123, 256])));
    assert_eq!(buf.len(), 0);
}

#[test]
fn test_plate_must_be_text() {
    let mut codec = Codec;
    // A complete plate frame whose plate bytes are not valid UTF-8.
    let mut buf: Vec<u8> = vec![0x20, 0x02, 0xff, 0xfe];
    put_u32(&mut buf, 7);
    let err = codec.decode(&mut buf).unwrap_err();
    assert_eq!(err, protohack::road_codec::DecodeError::BadPlateText);
}

#[test]
fn test_incomplete_heartbeat_returns_none() {
    // A heartbeat frame needs five bytes; a shorter buffer is a partial
    // frame: the decoder waits and consumes nothing.
    let mut codec = Codec;
    let mut buf: Vec<u8> = vec![0x40, 0x00, 0x01];

    let val = codec.decode(&mut buf).unwrap();
    assert_eq!(val, None);
    assert_eq!(buf, vec![0x40, 0x00, 0x01]);
}

#[test]
fn test_extra_bytes_after_frame_error() {
    // The decoder is streaming: it consumes exactly one frame and leaves
    // trailing bytes for the next call.
    let mut codec = Codec;
    let mut buf: Vec<u8> = Vec::new();
    buf.push(0x20);
    buf.push(3);
    buf.extend_from_slice(b"XYZ");
    put_u32(&mut buf, 999);
    buf.extend_from_slice(b"extra");

    assert!(
        protohack::road_codec::frame_finished(&buf),
        "frame_finished should be true even with extra bytes"
    );

    let decoded = codec.decode(&mut buf).unwrap();
    assert_eq!(decoded, Some(ReqValue::Plate("XYZ".to_string(), 999)));
    assert_eq!(buf, b"extra".to_vec(), "trailing bytes stay for the next frame");
}

#[test]
fn encode_heartbeat() {
    // A heartbeat frame is the bare opcode with no payload.
    let mut codec = Codec;
    let mut buf: Vec<u8> = Vec::new();

    codec.encode(RespValue::Heartbeat, &mut buf).unwrap();

    assert_opcode(&buf, 0x41);
    assert_eq!(buf.len(), 1);
}

#[test]
fn zero_interval_starts_no_heartbeat() {
    let mut conn = ConnState::new();
    let mut storage = PlateStorage::new();
    let mut registry = DispatcherRegistry::new();
    let out = handle_request(&mut conn, &mut storage, &mut registry, 1, ReqValue::WantHeartbeat(0));
    assert!(!out.fatal);
    assert_eq!(out.start_heartbeat, None);
}
