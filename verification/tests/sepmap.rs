use suffix_fst::sepmap::{SepMapReader, SepMapWriter};

#[test]
fn test_sepmap_roundtrip() {
    let mut writer = SepMapWriter::new();
    writer.ensure_capacity(3);
    writer.record_gap(0, b" ");         // space after token 0
    writer.record_gap(1, b"");          // contiguous after token 1
    writer.record_gap(2, b"\n  ");      // newline + spaces after token 2

    let data = writer.serialize();
    let reader = SepMapReader::open(&data).unwrap();

    // Token 0: space separator
    assert!(!reader.has_contiguous(0));
    assert!(reader.sep_bytes_in_ranges(0, &[(b' ', b' ')])); // space in range
    assert!(!reader.sep_bytes_in_ranges(0, &[(b'a', b'z')])); // space not in [a-z]

    // Token 1: contiguous only
    assert!(reader.has_contiguous(1));
    assert!(reader.only_contiguous(1));
    assert!(reader.sep_bytes_in_ranges(1, &[(b'a', b'z')])); // contiguous → OK for any range

    // Token 2: newline + spaces
    assert!(!reader.has_contiguous(2));
    assert!(!reader.sep_bytes_in_ranges(2, &[(b'a', b'z')])); // newline/space not in [a-z]
}

#[test]
fn test_sepmap_or_merge() {
    let mut w1 = SepMapWriter::new();
    w1.record_gap(0, b" ");
    let mut w2 = SepMapWriter::new();
    w2.record_gap(0, b"\n");

    let d1 = w1.serialize();
    let d2 = w2.serialize();
    let r1 = SepMapReader::open(&d1).unwrap();
    let r2 = SepMapReader::open(&d2).unwrap();

    // Merge via OR
    let mut merged = SepMapWriter::new();
    merged.ensure_capacity(1);
    merged.or_bitmap(0, &r1.bitmap(0).unwrap());
    merged.or_bitmap(0, &r2.bitmap(0).unwrap());
    let data = merged.serialize();
    let reader = SepMapReader::open(&data).unwrap();

    // Should have both space and newline
    assert!(reader.bitmap(0).unwrap()[b' ' as usize / 8] & (1 << (b' ' % 8)) != 0);
    assert!(reader.bitmap(0).unwrap()[b'\n' as usize / 8] & (1 << (b'\n' % 8)) != 0);
}
