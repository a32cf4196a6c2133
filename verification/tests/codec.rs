//! Codec tests: varint vectors, round trips, UUID decoding, and
//! cross-checks against the crates the wire format interoperates with.

use bytes::BufMut;
use kafka_broker::codec::{
    put_i16, put_i32, put_i64, put_u16, put_u32, put_u64, uuid_to_string, zigzag_decode,
    zigzag_encode, Cursor, DecodeError, ReadVarint, WriteVarint,
};

#[test]
fn cursor_read_uuid() {
    let data: Vec<u8> = vec![
        0xa0, 0xe9, 0xcc, 0xc6, 0x6e, 0x0a, 0x47, 0xe5, 0x81, 0xd4, 0xf1, 0x2d, 0x93, 0x42, 0xcc,
        0x7e,
    ];
    let mut cursor = Cursor::new(data);
    let res = cursor.read_uuid().unwrap();
    assert_eq!(
        uuid_to_string(res),
        "a0e9ccc6-6e0a-47e5-81d4-f12d9342cc7e".to_string()
    );
}

#[test]
fn cursor_read_uvarint() {
    let data = vec![0xAC, 0x02];
    let mut cursor = Cursor::new(data);
    let result = cursor.read_uvarint().unwrap();
    assert_eq!(result, 300);

    let data = vec![0x04];
    let mut cursor = Cursor::new(data);
    let result = cursor.read_uvarint().unwrap();
    assert_eq!(result, 4);

    let data = vec![0x12];
    let mut cursor = Cursor::new(data);
    let result = cursor.read_uvarint().unwrap();
    assert_eq!(result, 18);
}

#[test]
fn cursor_read_varint() {
    let data = vec![0x30];
    let mut cursor = Cursor::new(data);
    let result = cursor.read_varint().unwrap();
    assert_eq!(result, 24);

    let data = vec![0x01];
    let mut cursor = Cursor::new(data);
    let result = cursor.read_varint().unwrap();
    assert_eq!(result, -1);

    let data = vec![0x3a];
    let mut cursor = Cursor::new(data);
    let result = cursor.read_varint().unwrap();
    assert_eq!(result, 29);

    let data = vec![0x02];
    let mut cursor = Cursor::new(data);
    let result = cursor.read_uvarint().unwrap();
    assert_eq!(result, 2);
}

#[test]
fn cluster_read_uuid() {
    let data: Vec<u8> = vec![
        0xa0, 0xe9, 0xcc, 0xc6, 0x6e, 0x0a, 0x47, 0xe5, 0x81, 0xd4, 0xf1, 0x2d, 0x93, 0x42, 0xcc,
        0x7e,
    ];
    let mut cursor = Cursor::new(data);
    let res = cursor.read_uuid().unwrap();
    assert_eq!(
        uuid_to_string(res),
        "a0e9ccc6-6e0a-47e5-81d4-f12d9342cc7e".to_string()
    );
}

#[test]
fn cluster_read_uvarint() {
    let data = vec![0xAC, 0x02];
    let mut cursor = Cursor::new(data);
    let result = cursor.read_uvarint().unwrap();
    assert_eq!(result, 300);

    let data = vec![0x04];
    let mut cursor = Cursor::new(data);
    let result = cursor.read_uvarint().unwrap();
    assert_eq!(result, 4);
}

#[test]
fn cluster_read_varint() {
    let data = vec![0x30];
    let mut cursor = Cursor::new(data);
    let result = cursor.read_varint().unwrap();
    assert_eq!(result, 24);

    let data = vec![0x01];
    let mut cursor = Cursor::new(data);
    let result = cursor.read_varint().unwrap();
    assert_eq!(result, -1);

    let data = vec![0x3a];
    let mut cursor = Cursor::new(data);
    let result = cursor.read_varint().unwrap();
    assert_eq!(result, 29);
}

#[test]
fn uvarint_round_trips() {
    for u in [0u64, 1, 127, 128, 300, 16383, 16384, u64::MAX] {
        let mut buf: Vec<u8> = Vec::new();
        buf.write_uvarint(u);
        let mut cursor = Cursor::new(buf);
        assert_eq!(cursor.read_uvarint().unwrap(), u);
        assert!(!cursor.has_remaining());
    }
}

#[test]
fn varint_round_trips() {
    for i in [-1i64, 0, 1, -2, 2, 24, 29, i64::MIN, i64::MAX] {
        let mut buf: Vec<u8> = Vec::new();
        buf.write_varint(i);
        let mut cursor = Cursor::new(buf);
        assert_eq!(cursor.read_varint().unwrap(), i);
        assert!(!cursor.has_remaining());
    }
}

#[test]
fn uvarint_encoding_bytes() {
    let mut buf: Vec<u8> = Vec::new();
    buf.write_uvarint(300);
    assert_eq!(buf, vec![0xAC, 0x02]);
    let mut buf: Vec<u8> = Vec::new();
    buf.write_varint(24);
    assert_eq!(buf, vec![0x30]);
    let mut buf: Vec<u8> = Vec::new();
    buf.write_varint(-1);
    assert_eq!(buf, vec![0x01]);
    let mut buf: Vec<u8> = Vec::new();
    buf.write_varint(29);
    assert_eq!(buf, vec![0x3A]);
}

#[test]
fn zigzag_vectors() {
    assert_eq!(zigzag_encode(0), 0);
    assert_eq!(zigzag_encode(-1), 1);
    assert_eq!(zigzag_encode(1), 2);
    assert_eq!(zigzag_encode(-2), 3);
    assert_eq!(zigzag_decode(0), 0);
    assert_eq!(zigzag_decode(1), -1);
    assert_eq!(zigzag_decode(2), 1);
    assert_eq!(zigzag_decode(3), -2);
    assert_eq!(zigzag_decode(zigzag_encode(i64::MIN)), i64::MIN);
    assert_eq!(zigzag_decode(zigzag_encode(i64::MAX)), i64::MAX);
}

#[test]
fn uvarint_truncated_input() {
    let data = vec![0xAC];
    let mut cursor = Cursor::new(data);
    assert_eq!(cursor.read_uvarint().unwrap_err(), DecodeError::UnexpectedEnd);
}

#[test]
fn uvarint_too_wide() {
    // Eleven continuation groups never fit a 64-bit value.
    let data = vec![0x80, 0x80, 0x80, 0x80, 0x80, 0x80, 0x80, 0x80, 0x80, 0x80, 0x01];
    let mut cursor = Cursor::new(data);
    assert_eq!(cursor.read_uvarint().unwrap_err(), DecodeError::Overflow);
}

#[test]
fn uuid_string_against_uuid_crate() {
    for x in [
        0u128,
        1,
        0xa0e9ccc66e0a47e581d4f12d9342cc7e,
        u128::MAX,
        0x0123456789abcdef_fedcba9876543210,
    ] {
        assert_eq!(uuid_to_string(x), uuid::Uuid::from_u128(x).to_string());
    }
}

#[test]
fn big_endian_against_bytes_crate() {
    let mut ours: Vec<u8> = Vec::new();
    put_u16(&mut ours, 0xBEEF);
    put_u32(&mut ours, 0xDEADBEEF);
    put_u64(&mut ours, 0x0123456789ABCDEF);
    put_i16(&mut ours, -2);
    put_i32(&mut ours, -100000);
    put_i64(&mut ours, i64::MIN);
    let mut theirs: Vec<u8> = Vec::new();
    theirs.put_u16(0xBEEF);
    theirs.put_u32(0xDEADBEEF);
    theirs.put_u64(0x0123456789ABCDEF);
    theirs.put_i16(-2);
    theirs.put_i32(-100000);
    theirs.put_i64(i64::MIN);
    assert_eq!(ours, theirs);
}

#[test]
fn cursor_reads_fixed_widths() {
    let mut buf: Vec<u8> = Vec::new();
    put_u16(&mut buf, 513);
    put_u32(&mut buf, 70000);
    put_i16(&mut buf, -1);
    put_i32(&mut buf, i32::MIN);
    put_i64(&mut buf, -42);
    let mut cursor = Cursor::new(buf);
    assert_eq!(cursor.read_u16().unwrap(), 513);
    assert_eq!(cursor.read_u32().unwrap(), 70000);
    assert_eq!(cursor.read_i16().unwrap(), -1);
    assert_eq!(cursor.read_i32().unwrap(), i32::MIN);
    assert_eq!(cursor.read_i64().unwrap(), -42);
    assert!(!cursor.has_remaining());
}
