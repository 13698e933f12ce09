use suffix_fst::varint::{read_varint, read_varint_u32, varint_len, write_varint};

#[test]
fn roundtrip_edges() {
    let values: Vec<u64> = vec![
        0, 1, 127, 128, 129, 255, 256, 16383, 16384, 2097151, 2097152,
        268435455, 268435456, u32::MAX as u64 - 1, u32::MAX as u64,
        u32::MAX as u64 + 1, u64::MAX / 2, u64::MAX,
    ];
    let mut buf = Vec::new();
    for v in &values {
        write_varint(&mut buf, *v);
    }
    let mut pos = 0;
    for v in &values {
        assert_eq!(read_varint(&buf, &mut pos), Some(*v), "value {v}");
    }
    assert_eq!(pos, buf.len(), "no byte left over");

    let mut n = 0;
    for v in &values {
        n += varint_len(*v);
    }
    assert_eq!(n, buf.len(), "varint_len must agree with what was written");
}

#[test]
fn truncated_and_overlong_return_none() {
    let mut buf = Vec::new();
    write_varint(&mut buf, u64::MAX);
    // Cut the last byte: the continuation bit is set on every byte left.
    let mut pos = 0;
    assert_eq!(read_varint(&buf[..buf.len() - 1], &mut pos), None);
    // Eleven continuation bytes: longer than any u64 encoding.
    let overlong = vec![0xffu8; 12];
    let mut pos = 0;
    assert_eq!(read_varint(&overlong, &mut pos), None);
    // Empty input.
    let mut pos = 0;
    assert_eq!(read_varint(&[], &mut pos), None);
}

#[test]
fn u32_reader_refuses_a_wider_value() {
    let mut buf = Vec::new();
    write_varint(&mut buf, u32::MAX as u64);
    write_varint(&mut buf, u32::MAX as u64 + 1);
    let mut pos = 0;
    assert_eq!(read_varint_u32(&buf, &mut pos), Some(u32::MAX));
    assert_eq!(read_varint_u32(&buf, &mut pos), None);
}
