use suffix_fst::gapmap::{GapMapReader, GapMapWriter, VALUE_BOUNDARY, is_value_boundary};

// ── Single-value tests (backward compatible) ──

#[test]
fn test_roundtrip_simple() {
    let mut writer = GapMapWriter::new();
    writer.add_doc(&[b"", b" ", b" ", b" '", b"_", b"';"]);

    let bytes = writer.serialize();
    let reader = GapMapReader::open(&bytes);

    assert_eq!(reader.num_docs(), 1);
    assert_eq!(reader.num_tokens(0), 5);
    assert_eq!(reader.num_values(0), 1);
    assert_eq!(reader.read_gap(0, 0), b"");
    assert_eq!(reader.read_gap(0, 1), b" ");
    assert_eq!(reader.read_gap(0, 2), b" ");
    assert_eq!(reader.read_gap(0, 3), b" '");
    assert_eq!(reader.read_gap(0, 4), b"_");
    assert_eq!(reader.read_gap(0, 5), b"';");
}

#[test]
fn test_roundtrip_empty_doc() {
    let mut writer = GapMapWriter::new();
    writer.add_empty_doc();

    let bytes = writer.serialize();
    let reader = GapMapReader::open(&bytes);

    assert_eq!(reader.num_docs(), 1);
    assert_eq!(reader.num_tokens(0), 0);
    assert_eq!(reader.num_values(0), 1);
}

#[test]
fn test_roundtrip_multi_docs() {
    let mut writer = GapMapWriter::new();
    writer.add_doc(&[b"", b" ", b""]);
    writer.add_doc(&[b"  ", b"\n", b";"]);
    writer.add_empty_doc();

    let bytes = writer.serialize();
    let reader = GapMapReader::open(&bytes);

    assert_eq!(reader.num_docs(), 3);
    assert_eq!(reader.num_tokens(0), 2);
    assert_eq!(reader.read_gap(0, 1), b" ");
    assert_eq!(reader.num_tokens(1), 2);
    assert_eq!(reader.read_gap(1, 0), b"  ");
    assert_eq!(reader.read_gap(1, 1), b"\n");
    assert_eq!(reader.num_tokens(2), 0);
}

#[test]
fn test_read_all_gaps() {
    let mut writer = GapMapWriter::new();
    writer.add_doc(&[b"", b" ", b"_", b""]);

    let bytes = writer.serialize();
    let reader = GapMapReader::open(&bytes);

    let gaps = reader.read_all_gaps(0);
    assert_eq!(gaps, vec![b"".as_slice(), b" ", b"_", b""]);
}

#[test]
fn test_long_gap_extended_length() {
    let long_sep = vec![b'x'; 300];
    let mut writer = GapMapWriter::new();
    writer.add_doc(&[b"", long_sep.as_slice(), b""]);

    let bytes = writer.serialize();
    let reader = GapMapReader::open(&bytes);

    assert_eq!(reader.num_tokens(0), 2);
    assert_eq!(reader.read_gap(0, 1), long_sep.as_slice());
}

#[test]
fn test_empty_gaps() {
    let mut writer = GapMapWriter::new();
    writer.add_doc(&[b"", b"", b""]);

    let bytes = writer.serialize();
    let reader = GapMapReader::open(&bytes);

    assert_eq!(reader.read_gap(0, 0), b"");
    assert_eq!(reader.read_gap(0, 1), b"");
    assert_eq!(reader.read_gap(0, 2), b"");
}

#[test]
fn test_separator_single_value() {
    let mut writer = GapMapWriter::new();
    writer.add_doc(&[b"", b" ", b"_", b""]);

    let bytes = writer.serialize();
    let reader = GapMapReader::open(&bytes);

    // Sep between Ti=0 and Ti=1
    assert_eq!(reader.read_separator(0, 0, 1), Some(b" ".as_slice()));
    // Sep between Ti=1 and Ti=2
    assert_eq!(reader.read_separator(0, 1, 2), Some(b"_".as_slice()));
    // Non-consecutive → None
    assert_eq!(reader.read_separator(0, 0, 2), None);
}

// ── Multi-value tests ──

#[test]
fn test_multi_value_basic() {
    let mut writer = GapMapWriter::new();
    // Value 0: "hello world" → tokens hello(Ti=0), world(Ti=1)
    // Value 1: "foo bar"     → tokens foo(Ti=3), bar(Ti=4)  (POSITION_GAP=1, so Ti=2+1=3)
    writer.add_doc_multi(
        &[
            vec![b"".as_slice(), b" ", b""],       // value 0: prefix, sep, suffix
            vec![b"".as_slice(), b" ", b""],       // value 1: prefix, sep, suffix
        ],
        &[0, 3], // ti_starts: value 0 starts at Ti=0, value 1 at Ti=3
    );

    let bytes = writer.serialize();
    let reader = GapMapReader::open(&bytes);

    assert_eq!(reader.num_docs(), 1);
    assert_eq!(reader.num_tokens(0), 4); // hello, world, foo, bar
    assert_eq!(reader.num_values(0), 2);

    // All gaps including VALUE_BOUNDARY
    let gaps = reader.read_all_gaps(0);
    // value 0: ["", " ", ""], boundary, value 1: ["", " ", ""]
    assert_eq!(gaps.len(), 7); // 3 + 1 boundary + 3
    assert_eq!(gaps[0], b"");
    assert_eq!(gaps[1], b" ");
    assert_eq!(gaps[2], b"");
    assert!(is_value_boundary(gaps[3])); // VALUE_BOUNDARY
    assert_eq!(gaps[4], b"");
    assert_eq!(gaps[5], b" ");
    assert_eq!(gaps[6], b"");
}

#[test]
fn test_multi_value_separator() {
    let mut writer = GapMapWriter::new();
    writer.add_doc_multi(
        &[
            vec![b"".as_slice(), b"_", b""],
            vec![b"".as_slice(), b".", b""],
        ],
        &[0, 3],
    );

    let bytes = writer.serialize();
    let reader = GapMapReader::open(&bytes);

    // Within value 0: Ti=0→Ti=1 → sep "_"
    assert_eq!(reader.read_separator(0, 0, 1), Some(b"_".as_slice()));
    // Cross-value: Ti=1→Ti=2 → not consecutive (2 ≠ 1+1... wait, 2 == 1+1)
    // BUT Ti=2 doesn't exist (POSITION_GAP skips it). Ti goes 0,1,3,4.
    // So Ti=1→Ti=3 : not consecutive (3 ≠ 2) → None
    assert_eq!(reader.read_separator(0, 1, 3), None);
    // Within value 1: Ti=3→Ti=4 → sep "."
    assert_eq!(reader.read_separator(0, 3, 4), Some(b".".as_slice()));
}

#[test]
fn test_multi_value_ti_to_seq() {
    let mut writer = GapMapWriter::new();
    // 3 values: tokens at Ti=0,1 | Ti=3,4,5 | Ti=7
    writer.add_doc_multi(
        &[
            vec![b"".as_slice(), b" ", b""],          // 2 tokens
            vec![b"".as_slice(), b" ", b" ", b""],    // 3 tokens
            vec![b"".as_slice(), b""],                // 1 token
        ],
        &[0, 3, 7],
    );

    let bytes = writer.serialize();
    let reader = GapMapReader::open(&bytes);

    assert_eq!(reader.num_tokens(0), 6);
    assert_eq!(reader.num_values(0), 3);

    // Within value 0: Ti=0→1 → sep " "
    assert_eq!(reader.read_separator(0, 0, 1), Some(b" ".as_slice()));
    // Within value 1: Ti=3→4 → sep " "
    assert_eq!(reader.read_separator(0, 3, 4), Some(b" ".as_slice()));
    // Within value 1: Ti=4→5 → sep " "
    assert_eq!(reader.read_separator(0, 4, 5), Some(b" ".as_slice()));
    // Cross value 0→1: Ti=1→3 → None (not consecutive)
    assert_eq!(reader.read_separator(0, 1, 3), None);
    // Cross value 1→2: Ti=5→7 → None (not consecutive)
    assert_eq!(reader.read_separator(0, 5, 7), None);
}

#[test]
fn test_gap_254_bytes_not_confused_with_boundary() {
    // A gap of exactly 254 bytes should NOT be confused with VALUE_BOUNDARY
    let gap_254 = vec![b'y'; 254];
    let mut writer = GapMapWriter::new();
    writer.add_doc(&[b"", gap_254.as_slice(), b""]);

    let bytes = writer.serialize();
    let reader = GapMapReader::open(&bytes);

    let gap = reader.read_gap(0, 1);
    assert_eq!(gap.len(), 254);
    assert!(!is_value_boundary(gap));
}

#[test]
fn values_that_meet_have_no_separator_between_them() {
    let mut w = GapMapWriter::new();
    w.add_doc_multi(&[vec![b"", b"_", b""], vec![b"", b".", b""]], &[0, 2]);
    let bytes = w.serialize();
    let r = GapMapReader::open(&bytes);
    assert_eq!(r.read_separator(0, 0, 1), Some(b"_".as_slice()));
    assert_eq!(r.read_separator(0, 1, 2), None);
    assert_eq!(r.read_separator(0, 2, 3), Some(b".".as_slice()));
    let gaps: Vec<&[u8]> = vec![b"", b"_", b"", &VALUE_BOUNDARY, b"", b".", b""];
    assert_eq!(r.read_all_gaps(0), gaps);
    assert!(r.validate().is_empty());
}

#[test]
fn gaps_past_the_end_are_found() {
    let mut w = GapMapWriter::new();
    w.add_doc_raw(&[1, 0, 1, 0, 5, b'a']);
    w.add_doc(&[b"", b"x"]);
    w.add_doc_raw(&[1, 0, 1, 0, 255, 3, 0, b'a', b'b']);
    w.add_doc_raw(&[1, 0, 1, 0, 255, 3]);
    let bytes = w.serialize();
    let r = GapMapReader::open(&bytes);
    let e = r.validate_doc(0).unwrap_err();
    assert_eq!(e.doc_id, 0);
    assert_eq!(e.message, "gap decode overflows: cursor=4, data_len=6, gaps_so_far=1");
    assert!(r.validate_doc(1).is_ok());
    assert_eq!(r.validate_doc(2).unwrap_err().message, "gap decode overflows: cursor=4, data_len=9, gaps_so_far=1");
    assert_eq!(r.validate_doc(3).unwrap_err().message, "extended gap header overflows at cursor=4, data_len=6");
    assert_eq!(r.validate().iter().map(|e| e.doc_id).collect::<Vec<u32>>(), vec![0, 2, 3]);
}
