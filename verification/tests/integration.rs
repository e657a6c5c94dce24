//! The public API across module boundaries: frames, wire encoding, ring
//! buffer and error paths working together.

use conduit_core::{
    frame_pack, frame_unpack, Decode, Encode, Error, FrameHeader, MsgType, RingBuffer,
    FRAME_HEADER_SIZE, PROTOCOL_VERSION,
};

#[test]
fn full_frame_roundtrip() {
    let payload = b"integration-test-payload";
    let header = FrameHeader {
        version: PROTOCOL_VERSION,
        reserved: 0,
        msg_type: MsgType::Request,
        sequence: 1001,
        payload_len: payload.len() as u32,
    };

    let wire = frame_pack(&header, payload);
    assert_eq!(wire.len(), FRAME_HEADER_SIZE + payload.len());

    let (parsed_header, parsed_payload) = frame_unpack(&wire).unwrap();
    assert_eq!(parsed_header.version, PROTOCOL_VERSION);
    assert_eq!(parsed_header.reserved, 0);
    assert_eq!(parsed_header.msg_type, MsgType::Request);
    assert_eq!(parsed_header.sequence, 1001);
    assert_eq!(parsed_header.payload_len, payload.len() as u32);
    assert_eq!(parsed_payload, payload);
}

#[test]
fn frame_roundtrip_all_msg_types() {
    for msg_type in [
        MsgType::Request,
        MsgType::Response,
        MsgType::Push,
        MsgType::Error,
        MsgType::Other(0x10),
        MsgType::Other(0xFF),
    ] {
        let payload = b"type-check";
        let header = FrameHeader {
            version: PROTOCOL_VERSION,
            reserved: 0,
            msg_type,
            sequence: 0,
            payload_len: payload.len() as u32,
        };
        let wire = frame_pack(&header, payload);
        let (h, p) = frame_unpack(&wire).unwrap();
        assert_eq!(h.msg_type, msg_type);
        assert_eq!(p, payload);
    }
}

#[test]
fn frame_roundtrip_empty_payload() {
    let header = FrameHeader {
        version: PROTOCOL_VERSION,
        reserved: 0,
        msg_type: MsgType::Response,
        sequence: 42,
        payload_len: 0,
    };
    let wire = frame_pack(&header, &[]);
    assert_eq!(wire.len(), FRAME_HEADER_SIZE);

    let (h, p) = frame_unpack(&wire).unwrap();
    assert_eq!(h.payload_len, 0);
    assert!(p.is_empty());
}

#[test]
fn encode_struct_fields_in_frame() {
    // A struct with fields: id (u32), name (String), active (bool).
    let id: u32 = 7;
    let name = String::from("conduit");
    let active: bool = true;

    // Encode all fields into a payload buffer.
    let mut payload = Vec::new();
    id.encode(&mut payload);
    name.encode(&mut payload);
    active.encode(&mut payload);

    let expected_size = id.encode_size() + name.encode_size() + active.encode_size();
    assert_eq!(payload.len(), expected_size);

    // Wrap in a frame.
    let header = FrameHeader {
        version: PROTOCOL_VERSION,
        reserved: 0,
        msg_type: MsgType::Request,
        sequence: 1,
        payload_len: payload.len() as u32,
    };
    let wire = frame_pack(&header, &payload);

    // Unwrap the frame.
    let (_, decoded_payload) = frame_unpack(&wire).unwrap();

    // Decode the fields back.
    let mut offset = 0;

    let (dec_id, consumed) = u32::decode(&decoded_payload[offset..]).unwrap();
    offset += consumed;
    assert_eq!(dec_id, 7);

    let (dec_name, consumed) = String::decode(&decoded_payload[offset..]).unwrap();
    offset += consumed;
    assert_eq!(dec_name, "conduit");

    let (dec_active, consumed) = bool::decode(&decoded_payload[offset..]).unwrap();
    offset += consumed;
    assert!(dec_active);

    // The whole payload was consumed.
    assert_eq!(offset, decoded_payload.len());
}

#[test]
fn encode_bytes_in_frame() {
    let data: Vec<u8> = vec![0xDE, 0xAD, 0xBE, 0xEF];
    let mut payload = Vec::new();
    data.encode(&mut payload);

    let header = FrameHeader {
        version: PROTOCOL_VERSION,
        reserved: 0,
        msg_type: MsgType::Push,
        sequence: 99,
        payload_len: payload.len() as u32,
    };
    let wire = frame_pack(&header, &payload);
    let (h, p) = frame_unpack(&wire).unwrap();
    assert_eq!(h.msg_type, MsgType::Push);

    let (decoded, _) = Vec::<u8>::decode(p).unwrap();
    assert_eq!(decoded, vec![0xDE, 0xAD, 0xBE, 0xEF]);
}

#[test]
fn ringbuffer_stores_and_drains_framed_data() {
    let mut rb = RingBuffer::new(4096);

    // Push three framed messages.
    for seq in 0u32..3 {
        let payload = format!("msg-{seq}");
        let header = FrameHeader {
            version: PROTOCOL_VERSION,
            reserved: 0,
            msg_type: MsgType::Push,
            sequence: seq,
            payload_len: payload.len() as u32,
        };
        let frame = frame_pack(&header, payload.as_bytes());
        let _ = rb.push(&frame);
    }

    assert_eq!(rb.frame_count(), 3);

    // Drain and check each frame.
    let blob = rb.drain_all();
    assert!(!blob.is_empty());

    // The drain format: [u32 count] [u32 len][bytes]...
    let count = u32::from_le_bytes(blob[0..4].try_into().unwrap()) as usize;
    assert_eq!(count, 3);

    let mut offset = 4;
    for seq in 0u32..3 {
        let len = u32::from_le_bytes(blob[offset..offset + 4].try_into().unwrap()) as usize;
        offset += 4;
        let frame_bytes = &blob[offset..offset + len];
        offset += len;

        // Each drained record is a whole frame.
        let (h, p) = frame_unpack(frame_bytes).unwrap();
        assert_eq!(h.msg_type, MsgType::Push);
        assert_eq!(h.sequence, seq);
        let expected_payload = format!("msg-{seq}");
        assert_eq!(p, expected_payload.as_bytes());
    }

    assert_eq!(rb.frame_count(), 0);
}

#[test]
fn ringbuffer_pop_yields_intact_frames() {
    let mut rb = RingBuffer::new(4096);

    let payload = b"pop-test";
    let header = FrameHeader {
        version: PROTOCOL_VERSION,
        reserved: 0,
        msg_type: MsgType::Response,
        sequence: 77,
        payload_len: payload.len() as u32,
    };
    let frame = frame_pack(&header, payload);
    let _ = rb.push(&frame);

    let popped = rb.try_pop().unwrap();
    let (h, p) = frame_unpack(&popped).unwrap();
    assert_eq!(h.sequence, 77);
    assert_eq!(p, b"pop-test");
}

#[test]
fn truncated_frame_header() {
    // Fewer than FRAME_HEADER_SIZE bytes.
    let short = vec![PROTOCOL_VERSION, 0, 0x00];
    assert!(frame_unpack(&short).is_none());
}

#[test]
fn truncated_frame_payload() {
    // A header claiming 100 bytes of payload, but only 5 provided.
    let header = FrameHeader {
        version: PROTOCOL_VERSION,
        reserved: 0,
        msg_type: MsgType::Request,
        sequence: 0,
        payload_len: 100,
    };
    let mut wire = Vec::new();
    header.write_to(&mut wire);
    wire.extend_from_slice(b"short"); // only 5 bytes, not 100
    assert!(frame_unpack(&wire).is_none());
}

#[test]
fn decode_truncated_data() {
    // u32 needs 4 bytes, give it 2.
    assert!(u32::decode(&[0x01, 0x02]).is_none());

    // A String whose length prefix claims 10 bytes, with only 2 data bytes.
    let mut buf = Vec::new();
    10u32.encode(&mut buf); // length prefix = 10
    buf.extend_from_slice(&[0x41, 0x42]); // only 2 bytes
    assert!(String::decode(&buf).is_none());
}

#[test]
fn conduit_error_variants() {
    let e1 = Error::AuthFailed;
    assert_eq!(e1.to_string(), "authentication failed");

    let e2 = Error::UnknownCommand("test_cmd".into());
    assert!(e2.to_string().contains("test_cmd"));

    let e3 = Error::DecodeFailed;
    assert_eq!(e3.to_string(), "frame decode failed");
}

#[test]
fn bool_decode_invalid_value() {
    // bool only accepts 0 or 1.
    assert!(bool::decode(&[2]).is_none());
    assert!(bool::decode(&[0xFF]).is_none());
    assert!(bool::decode(&[]).is_none());
}

#[test]
fn wrong_version_is_not_a_frame() {
    let header = FrameHeader {
        version: PROTOCOL_VERSION,
        reserved: 0,
        msg_type: MsgType::Push,
        sequence: 3,
        payload_len: 1,
    };
    let mut wire = frame_pack(&header, b"x");
    wire[0] = 2;
    assert!(FrameHeader::read_from(&wire).is_none());
    assert!(frame_unpack(&wire).is_none());
}
