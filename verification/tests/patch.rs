use protodeck::{decode_proto, ProtoValue};

#[test]
fn patch_fixed32_in_place() {
    let mut buf = vec![0x0d, 0x01, 0x02, 0x03, 0x04];
    let (parts, _) = decode_proto(&buf.clone());
    let r = parts[0].write(ProtoValue::Fixed32(0xaabb_ccdd), &mut buf);
    assert!(r.is_ok());
    assert_eq!(buf, vec![0x0d, 0xaa, 0xbb, 0xcc, 0xdd]);
}

#[test]
fn patch_varint_writes_eight_bytes() {
    // A varint replacement is written as a full 8-byte big-endian word, not
    // re-encoded as a varint.
    let mut buf = vec![0x08, 0x96, 0x01, 0x00, 0x00, 0x00, 0x00, 0x00, 0x00, 0x11];
    let (parts, _) = decode_proto(&buf.clone());
    let r = parts[0].write(ProtoValue::VarInt(5), &mut buf);
    assert!(r.is_ok());
    assert_eq!(
        buf,
        vec![0x08, 0x00, 0x00, 0x00, 0x00, 0x00, 0x00, 0x00, 0x05, 0x11]
    );
}

#[test]
fn patch_fixed64_in_place() {
    let mut buf = vec![0x09, 0, 0, 0, 0, 0, 0, 0, 0];
    let (parts, _) = decode_proto(&buf.clone());
    let r = parts[0].write(ProtoValue::Fixed64(0x0102_0304_0506_0708), &mut buf);
    assert!(r.is_ok());
    assert_eq!(buf, vec![0x09, 1, 2, 3, 4, 5, 6, 7, 8]);
}

#[test]
fn patch_string_same_length() {
    let mut buf = vec![0x12, 0x03, b'a', b'b', b'c'];
    let (parts, _) = decode_proto(&buf.clone());
    let r = parts[0].write(ProtoValue::String(String::from("xyz")), &mut buf);
    assert!(r.is_ok());
    assert_eq!(buf, vec![0x12, 0x03, b'x', b'y', b'z']);
}

#[test]
fn patch_fails_when_it_does_not_fit() {
    // Eight bytes starting at offset 1 do not fit in a 3-byte buffer; the
    // buffer is left untouched.
    let mut buf = vec![0x08, 0x96, 0x01];
    let (parts, _) = decode_proto(&buf.clone());
    let r = parts[0].write(ProtoValue::VarInt(5), &mut buf);
    assert!(r.is_err());
    assert_eq!(buf, vec![0x08, 0x96, 0x01]);
}
