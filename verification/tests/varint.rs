use curvepress::varint::{read_varint, write_varint, zigzag_decode, zigzag_encode};

#[test]
fn zigzag_roundtrip() {
    for v in [0i64, 1, -1, i64::MAX, i64::MIN, 127, -128, 1_000_000, -1_000_000] {
        assert_eq!(zigzag_decode(zigzag_encode(v)), v);
    }
}

#[test]
fn varint_roundtrip() {
    let values = [0u64, 1, 127, 128, 255, 16383, 16384, u64::MAX];
    for &v in &values {
        let mut buf = Vec::new();
        write_varint(&mut buf, v);
        let mut pos = 0;
        assert_eq!(read_varint(&buf, &mut pos), Some(v));
        assert_eq!(pos, buf.len());
    }
}

#[test]
fn zigzag_exact_codes() {
    assert_eq!(zigzag_encode(0), 0);
    assert_eq!(zigzag_encode(-1), 1);
    assert_eq!(zigzag_encode(1), 2);
    assert_eq!(zigzag_encode(-2), 3);
    assert_eq!(zigzag_encode(-64), 127);
    assert_eq!(zigzag_encode(i64::MAX), u64::MAX - 1);
    assert_eq!(zigzag_encode(i64::MIN), u64::MAX);
    assert_eq!(zigzag_decode(3), -2);
    assert_eq!(zigzag_decode(u64::MAX), i64::MIN);
}

#[test]
fn zigzag_decode_then_encode_is_identity() {
    for u in [0u64, 1, 2, 3, 1000, 1001, u64::MAX - 1, u64::MAX] {
        assert_eq!(zigzag_encode(zigzag_decode(u)), u);
    }
}

#[test]
fn varint_exact_bytes() {
    let mut buf = vec![0xEEu8];
    write_varint(&mut buf, 300);
    assert_eq!(buf, vec![0xEE, 0xAC, 0x02]);
    let mut buf = Vec::new();
    write_varint(&mut buf, 127);
    assert_eq!(buf, vec![0x7F]);
    let mut buf = Vec::new();
    write_varint(&mut buf, u64::MAX);
    assert_eq!(buf, vec![0xFF, 0xFF, 0xFF, 0xFF, 0xFF, 0xFF, 0xFF, 0xFF, 0xFF, 0x01]);
}

#[test]
fn varint_read_stops_at_terminal_byte() {
    let data = [0x05u8, 0xAC, 0x02, 0x7F];
    let mut pos = 1;
    assert_eq!(read_varint(&data, &mut pos), Some(300));
    assert_eq!(pos, 3);
    assert_eq!(read_varint(&data, &mut pos), Some(127));
    assert_eq!(pos, 4);
}

#[test]
fn varint_truncated_is_none() {
    let data = [0x80u8, 0x80];
    let mut pos = 0;
    assert_eq!(read_varint(&data, &mut pos), None);
    assert_eq!(pos, 2);
    let mut pos = 5;
    assert_eq!(read_varint(&data, &mut pos), None);
    assert_eq!(pos, 5);
}

#[test]
fn varint_overlong_is_none() {
    let data = [0x80u8; 12];
    let mut pos = 0;
    assert_eq!(read_varint(&data, &mut pos), None);
    assert_eq!(pos, 10);
}

#[test]
fn varint_tenth_byte_keeps_low_bit_only() {
    // Ten bytes whose last payload group has more than one bit: the excess is shifted out.
    let data = [0xFFu8, 0xFF, 0xFF, 0xFF, 0xFF, 0xFF, 0xFF, 0xFF, 0xFF, 0x7F];
    let mut pos = 0;
    assert_eq!(read_varint(&data, &mut pos), Some(u64::MAX));
    assert_eq!(pos, 10);
}
