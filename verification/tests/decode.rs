use protodeck::{decode_proto, ProtoPart, ProtoValue};
use protodeck::varint::encode_varint;

fn expect_varint(part: &ProtoPart, index: u64, offset: usize, value: u64) {
    assert_eq!(part.index, index);
    assert_eq!(part.offset, offset);
    match &part.value {
        ProtoValue::VarInt(v) => assert_eq!(*v, value),
        other => panic!("expected a varint value, got {:?}", other),
    }
}

fn expect_string(part: &ProtoPart, index: u64, offset: usize, value: &str) {
    assert_eq!(part.index, index);
    assert_eq!(part.offset, offset);
    match &part.value {
        ProtoValue::String(s) => assert_eq!(s, value),
        other => panic!("expected a string value, got {:?}", other),
    }
}

#[test]
fn varint_field_150() {
    let (parts, leftover) = decode_proto(&[0x08, 0x96, 0x01]);
    assert_eq!(parts.len(), 1);
    expect_varint(&parts[0], 1, 1, 150);
    assert!(leftover.is_empty());
}

#[test]
fn string_field_abc() {
    let (parts, leftover) = decode_proto(&[0x12, 0x03, b'a', b'b', b'c']);
    assert_eq!(parts.len(), 1);
    expect_string(&parts[0], 2, 2, "abc");
    assert!(leftover.is_empty());
}

#[test]
fn fixed32_field_big_endian() {
    let (parts, leftover) = decode_proto(&[0x0d, 0x01, 0x02, 0x03, 0x04]);
    assert_eq!(parts.len(), 1);
    assert_eq!(parts[0].index, 1);
    assert_eq!(parts[0].offset, 1);
    match parts[0].value {
        ProtoValue::Fixed32(v) => assert_eq!(v, 0x0102_0304),
        ref other => panic!("expected a fixed32 value, got {:?}", other),
    }
    assert!(leftover.is_empty());
}

#[test]
fn fixed64_field_big_endian() {
    let (parts, leftover) = decode_proto(&[0x09, 0x01, 0x02, 0x03, 0x04, 0x05, 0x06, 0x07, 0x08]);
    assert_eq!(parts.len(), 1);
    assert_eq!(parts[0].index, 1);
    assert_eq!(parts[0].offset, 1);
    match parts[0].value {
        ProtoValue::Fixed64(v) => assert_eq!(v, 0x0102_0304_0506_0708),
        ref other => panic!("expected a fixed64 value, got {:?}", other),
    }
    assert!(leftover.is_empty());
}

#[test]
fn varint_round_trip() {
    let cases: [u64; 7] = [0, 1, 127, 128, 300, (1 << 63) - 1, u64::MAX];
    for &v in cases.iter() {
        let mut buf = vec![0x08];
        buf.extend(encode_varint(v));
        let (parts, leftover) = decode_proto(&buf);
        assert_eq!(parts.len(), 1);
        expect_varint(&parts[0], 1, 1, v);
        assert!(leftover.is_empty());
    }
}

#[test]
fn varint_minimal_encodings() {
    assert_eq!(encode_varint(0), vec![0x00]);
    assert_eq!(encode_varint(127), vec![0x7f]);
    assert_eq!(encode_varint(128), vec![0x80, 0x01]);
    assert_eq!(encode_varint(150), vec![0x96, 0x01]);
    assert_eq!(encode_varint(u64::MAX).len(), 10);
}

#[test]
fn varint_accumulation_wraps() {
    // Eleven continuation groups push the value past 64 bits: 2 * 128^10 is
    // 2^71, which is 0 modulo 2^64.
    let buf = [
        0x08, 0x80, 0x80, 0x80, 0x80, 0x80, 0x80, 0x80, 0x80, 0x80, 0x80, 0x02,
    ];
    let (parts, leftover) = decode_proto(&buf);
    assert_eq!(parts.len(), 1);
    expect_varint(&parts[0], 1, 1, 0);
    assert!(leftover.is_empty());
}

#[test]
fn three_fields_concatenated() {
    let buf = [
        0x08, 0x96, 0x01, // field 1, varint 150
        0x12, 0x03, b'a', b'b', b'c', // field 2, string "abc"
        0x0d, 0x01, 0x02, 0x03, 0x04, // field 1, fixed32
    ];
    let (parts, leftover) = decode_proto(&buf);
    assert_eq!(parts.len(), 3);
    expect_varint(&parts[0], 1, 1, 150);
    expect_string(&parts[1], 2, 5, "abc");
    match parts[2].value {
        ProtoValue::Fixed32(v) => assert_eq!(v, 0x0102_0304),
        ref other => panic!("expected a fixed32 value, got {:?}", other),
    }
    assert!(leftover.is_empty());
}

#[test]
fn garbage_suffix_left_over() {
    // 0x07 names wire type 7, which no field can start with.
    let buf = [0x08, 0x96, 0x01, 0x07, 0xff];
    let (parts, leftover) = decode_proto(&buf);
    assert_eq!(parts.len(), 1);
    expect_varint(&parts[0], 1, 1, 150);
    assert_eq!(leftover, &[0x07, 0xff]);
}

#[test]
fn truncated_tail_left_over() {
    // A trailing tag whose value bytes are missing is left untouched.
    let buf = [0x08, 0x96, 0x01, 0x08];
    let (parts, leftover) = decode_proto(&buf);
    assert_eq!(parts.len(), 1);
    assert_eq!(leftover, &[0x08]);
}

#[test]
fn unknown_wire_type_consumes_nothing() {
    let buf = [0x0b, 0x01, 0x02];
    let (parts, leftover) = decode_proto(&buf);
    assert!(parts.is_empty());
    assert_eq!(leftover, &buf[..]);
}

#[test]
fn empty_input() {
    let (parts, leftover) = decode_proto(&[]);
    assert!(parts.is_empty());
    assert!(leftover.is_empty());
}

#[test]
fn nested_message_fully_consumed() {
    // The payload is itself one complete field encoding, so it becomes
    // nested fields; the child's offset is relative to the payload.
    let buf = [0x12, 0x03, 0x08, 0x96, 0x01];
    let (parts, leftover) = decode_proto(&buf);
    assert_eq!(parts.len(), 1);
    assert_eq!(parts[0].index, 2);
    assert_eq!(parts[0].offset, 2);
    match &parts[0].value {
        ProtoValue::Parts(children) => {
            assert_eq!(children.len(), 1);
            expect_varint(&children[0], 1, 1, 150);
        },
        other => panic!("expected nested fields, got {:?}", other),
    }
    assert!(leftover.is_empty());
}

#[test]
fn text_payload_stays_string() {
    // "abc" does not decode as fields, so it stays a string (see
    // string_field_abc); a payload that decodes only partially does too.
    let buf = [0x12, 0x04, 0x08, 0x96, 0x01, 0xff];
    let (parts, _) = decode_proto(&buf);
    assert_eq!(parts.len(), 1);
    match &parts[0].value {
        ProtoValue::String(_) => {},
        other => panic!("expected a string value, got {:?}", other),
    }
}

#[test]
fn empty_payload_is_empty_string() {
    let (parts, leftover) = decode_proto(&[0x12, 0x00]);
    assert_eq!(parts.len(), 1);
    expect_string(&parts[0], 2, 2, "");
    assert!(leftover.is_empty());
}

#[test]
fn invalid_utf8_is_replaced() {
    let (parts, _) = decode_proto(&[0x12, 0x01, 0xff]);
    assert_eq!(parts.len(), 1);
    expect_string(&parts[0], 2, 2, "\u{fffd}");
}

#[test]
fn nested_payload_sees_no_framing_header() {
    // Five zero bytes inside a length-delimited payload decode as two
    // zero fields plus a leftover byte, so the payload stays a string;
    // the framing header is only recognised at the very start of the
    // whole buffer.
    let buf = [0x12, 0x05, 0x00, 0x00, 0x00, 0x00, 0x00];
    let (parts, _) = decode_proto(&buf);
    assert_eq!(parts.len(), 1);
    expect_string(&parts[0], 2, 2, "\0\0\0\0\0");
}

#[test]
fn framing_header_skipped() {
    let buf = [0x00, 0x00, 0x00, 0x00, 0x03, 0x08, 0x96, 0x01];
    let (parts, leftover) = decode_proto(&buf);
    assert_eq!(parts.len(), 1);
    // Offsets are absolute in the whole buffer, header included.
    expect_varint(&parts[0], 1, 6, 150);
    assert!(leftover.is_empty());
}

#[test]
fn framing_header_false_positive() {
    // The announced length exceeds what remains, so nothing is skipped and
    // the zero bytes decode as fields of their own.
    let buf = [0x00, 0x00, 0x00, 0x00, 0x09];
    let (parts, leftover) = decode_proto(&buf);
    assert_eq!(parts.len(), 2);
    expect_varint(&parts[0], 0, 1, 0);
    expect_varint(&parts[1], 0, 3, 0);
    assert_eq!(leftover, &[0x09]);
}

#[test]
fn framing_header_short_buffer() {
    // A lone zero byte is not a framing header; it decodes as field 0.
    let buf = [0x00, 0x00];
    let (parts, leftover) = decode_proto(&buf);
    assert_eq!(parts.len(), 1);
    expect_varint(&parts[0], 0, 1, 0);
    assert!(leftover.is_empty());
}
