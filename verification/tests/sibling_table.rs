use suffix_fst::sibling_index::{SiblingIndex, TokenIndex};
use suffix_fst::sibling_table::{SiblingEntry, SiblingTableReader, SiblingTableWriter};
use suffix_fst::termtexts::TermTextsWriter;

/// A gap-less table takes the `SIB3` layout and reads back the same
/// links; one gap anywhere keeps `SIB2`, gaps included.
#[test]
fn gapless_tables_take_sib3_and_read_alike() {
    let links = [(0u32, 5u32), (0, 9), (0, 5), (2, 3), (2, 1_000_000), (4, 4)];
    let mut w3 = SiblingTableWriter::new(5);
    for &(a, b) in &links { w3.add(a, b, 0); }
    let d3 = w3.serialize();
    assert_eq!(&d3[4..8], b"SIB3");
    let mut w2 = SiblingTableWriter::new(5);
    for &(a, b) in &links { w2.add(a, b, 0); }
    w2.add(4, 2, 7);
    let d2 = w2.serialize();
    assert_eq!(&d2[4..8], b"SIB2");

    let r3 = SiblingTableReader::open(&d3).unwrap();
    let r2 = SiblingTableReader::open(&d2).unwrap();
    assert!(r3.has_no_gaps() && !r2.has_no_gaps());
    for ord in 0..5 {
        let a: Vec<u32> = r3.siblings(ord).iter().map(|s| s.next_ordinal).collect();
        let b: Vec<u32> = r2.siblings(ord).iter().filter(|s| s.gap_len == 0).map(|s| s.next_ordinal).collect();
        assert_eq!(a, b, "ordinal {ord}");
    }
    assert_eq!(r3.siblings(0).iter().map(|s| s.next_ordinal).collect::<Vec<_>>(), vec![5, 9]);
    assert_eq!(r3.siblings(2).iter().map(|s| s.next_ordinal).collect::<Vec<_>>(), vec![3, 1_000_000]);
    assert_eq!(r3.siblings(1), vec![]);
    assert_eq!(r2.siblings(4), vec![SiblingEntry { next_ordinal: 2, gap_len: 7 }, SiblingEntry { next_ordinal: 4, gap_len: 0 }]);
    assert!(r3.siblings(0).iter().all(|s| s.gap_len == 0));
    // 3 links × 1-2 bytes for ordinal 0 and 2 against the SIB2 shape with its gap bits.
    assert!(d3.len() < d2.len());
}

#[test]
fn sibling_table_test_roundtrip_empty() {
    let mut writer = SiblingTableWriter::new(3);
    let data = writer.serialize();
    let reader = SiblingTableReader::open(&data).unwrap();
    assert_eq!(reader.num_ordinals(), 3);
    assert!(reader.siblings(0).is_empty());
    assert!(reader.siblings(1).is_empty());
    assert!(reader.siblings(2).is_empty());
}

#[test]
fn test_roundtrip_single_sibling() {
    let mut writer = SiblingTableWriter::new(3);
    writer.add(0, 1, 0); // token 0 → token 1, contiguous
    let data = writer.serialize();
    let reader = SiblingTableReader::open(&data).unwrap();

    let s = reader.siblings(0);
    assert_eq!(s.len(), 1);
    assert_eq!(s[0], SiblingEntry { next_ordinal: 1, gap_len: 0 });
    assert!(reader.siblings(1).is_empty());
    assert!(reader.siblings(2).is_empty());

    assert_eq!(reader.contiguous_siblings(0), vec![1]);
}

#[test]
fn test_roundtrip_multiple_siblings() {
    let mut writer = SiblingTableWriter::new(4);
    // "get" → "Element" (contiguous) AND "Value" (contiguous)
    writer.add(0, 1, 0);
    writer.add(0, 2, 0);
    // "get" → "Config" (separated by space)
    writer.add(0, 3, 1);

    let data = writer.serialize();
    let reader = SiblingTableReader::open(&data).unwrap();

    let s = reader.siblings(0);
    assert_eq!(s.len(), 3);

    let contiguous = reader.contiguous_siblings(0);
    assert_eq!(contiguous.len(), 2);
    assert!(contiguous.contains(&1));
    assert!(contiguous.contains(&2));
}

/// A table of the first layout, which is only read.
fn write_v1(num: u32, pairs: &mut Vec<(u32, u32, u16)>) -> Vec<u8> {
    pairs.sort_unstable();
    pairs.dedup();
    let mut offsets = Vec::new();
    let mut entries_data: Vec<u8> = Vec::new();
    let mut cursor = 0usize;
    for ord in 0..num {
        offsets.push(entries_data.len() as u32);
        while cursor < pairs.len() && pairs[cursor].0 == ord {
            entries_data.extend_from_slice(&pairs[cursor].1.to_le_bytes());
            entries_data.extend_from_slice(&pairs[cursor].2.to_le_bytes());
            cursor += 1;
        }
    }
    offsets.push(entries_data.len() as u32);
    let mut buf = Vec::new();
    buf.extend_from_slice(&num.to_le_bytes());
    for off in &offsets {
        buf.extend_from_slice(&off.to_le_bytes());
    }
    buf.extend_from_slice(&entries_data);
    buf
}

/// Links over several ordinals: contiguous ones (the common case), a few
/// with a gap, ordinals with none, and one very long run.
fn sample_pairs() -> Vec<(u32, u32, u16)> {
    let mut v = Vec::new();
    for ord in [0u32, 1, 5, 9] {
        for i in 0..(3 + ord * 7) {
            let next = ord * 13 + i * 3 + 1;
            let gap = if i % 5 == 4 { (i % 7 + 1) as u16 } else { 0 };
            v.push((ord, next, gap));
        }
    }
    // A run long enough that the deltas dominate, and a large ordinal.
    for i in 0..500u32 {
        v.push((3, i * 2 + 1, if i % 11 == 10 { 300 } else { 0 }));
    }
    v.push((7, 4_000_000, 65535));
    v.push((7, 4_000_001, 0));
    v
}

#[test]
fn v2_matches_v1_exactly_and_is_smaller() {
    let num = 12;
    let pairs = sample_pairs();
    let mut w = SiblingTableWriter::new(num);
    for (o, n, g) in &pairs {
        w.add(*o, *n, *g);
    }
    let v2 = w.serialize();
    assert_eq!(&v2[0..4], &u32::MAX.to_le_bytes(), "SIB2 must start with the sentinel");
    assert_eq!(&v2[4..8], b"SIB2");

    let mut p = pairs.clone();
    let v1 = write_v1(num, &mut p);

    let r2 = SiblingTableReader::open(&v2).unwrap();
    let r1 = SiblingTableReader::open(&v1).unwrap();
    assert_eq!(r2.num_ordinals(), num);
    for ord in 0..num + 3 {
        assert_eq!(r2.siblings(ord), r1.siblings(ord), "ordinal {ord}: siblings differ");
        assert_eq!(
            r2.contiguous_siblings(ord), r1.contiguous_siblings(ord),
            "ordinal {ord}: contiguous_siblings differ"
        );
    }
    // The links of ordinal 3 are a long ascending run: exactly what the
    // deltas are for.
    assert_eq!(r2.siblings(3).len(), 500);
    assert!(v2.len() < v1.len(), "SIB2 {} B is not smaller than v1 {} B", v2.len(), v1.len());
}

#[test]
fn v2_reader_still_reads_v1() {
    let mut pairs = sample_pairs();
    let v1 = write_v1(12, &mut pairs);
    let r = SiblingTableReader::open(&v1).unwrap();
    assert_eq!(r.siblings(0).len(), 3);
    assert_eq!(r.siblings(3).len(), 500);
    assert_eq!(r.siblings(7), vec![
        SiblingEntry { next_ordinal: 4_000_000, gap_len: 65535 },
        SiblingEntry { next_ordinal: 4_000_001, gap_len: 0 },
    ]);
}

#[test]
fn v2_survives_a_truncated_file() {
    let mut w = SiblingTableWriter::new(12);
    for (o, n, g) in sample_pairs() {
        w.add(o, n, g);
    }
    let data = w.serialize();
    for cut in [data.len() / 3, data.len() / 2, data.len() - 1] {
        if let Some(r) = SiblingTableReader::open(&data[..cut]) {
            for ord in 0..12 {
                let _ = r.siblings(ord);
                let _ = r.contiguous_siblings(ord);
            }
        }
    }
}

#[test]
fn sibling_table_test_out_of_bounds() {
    let mut writer = SiblingTableWriter::new(2);
    let data = writer.serialize();
    let reader = SiblingTableReader::open(&data).unwrap();
    assert!(reader.siblings(99).is_empty());
}

#[test]
fn merged_links_are_between_the_texts() {
    let texts = |all: &[&str]| {
        let mut w = TermTextsWriter::new();
        for (i, t) in all.iter().enumerate() {
            w.add(i as u32, t);
        }
        w.serialize()
    };
    let links = |num: u32, all: &[(u32, u32, u16)]| {
        let mut w = SiblingTableWriter::new(num);
        for &(a, b, gap) in all {
            w.add(a, b, gap);
        }
        w.serialize()
    };
    let merged_tokens: Vec<String> = ["core", "from", "import", "rag"].iter().map(|t| t.to_string()).collect();
    let index = TokenIndex::new(&merged_tokens);
    let tables = vec![
        Some(links(2, &[(0, 1, 1)])),
        None,
        Some(links(3, &[(1, 0, 1), (1, 2, 0), (2, 1, 0)])),
    ];
    let sources = vec![
        // "import" is followed by "rag" at a gap of one.
        Some(texts(&["import", "rag"])),
        Some(texts(&["core"])),
        // "import" to "rag" again, and to "gone", which no merged token is.
        Some(texts(&["rag", "import", "gone"])),
    ];
    let mut merged = SiblingIndex::new();
    merged.merge_from_sources(&tables, &sources, &index);
    let data = merged.serialize();
    let reader = SiblingTableReader::open(&data).unwrap();
    assert_eq!(reader.num_ordinals(), 4);
    assert_eq!(reader.siblings(2), vec![SiblingEntry { next_ordinal: 3, gap_len: 1 }]);
    for ord in [0, 1, 3, 4] {
        assert_eq!(reader.siblings(ord), vec![]);
    }
}

#[test]
fn the_same_links_give_the_same_bytes() {
    let mut a = SiblingTableWriter::new(4);
    for (o, n, g) in [(2, 3, 0), (0, 1, 4), (2, 1, 0), (0, 1, 4)] {
        a.add(o, n, g);
    }
    let mut b = SiblingTableWriter::new(4);
    for (o, n, g) in [(0, 1, 4), (2, 1, 0), (2, 3, 0), (2, 3, 0)] {
        b.add(o, n, g);
    }
    let first = a.serialize();
    assert_eq!(first, b.serialize());
    assert_eq!(first, a.serialize());
}
