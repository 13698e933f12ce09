use suffix_fst::overlap_siblings::{OverlapSiblingReader, OverlapSiblingWriter};

#[test]
fn overlap_siblings_test_roundtrip_empty() {
    let writer = OverlapSiblingWriter::new(3);
    let data = writer.serialize();
    let reader = OverlapSiblingReader::open(&data).unwrap();
    assert_eq!(reader.num_content_ords(), 3);
    assert!(reader.siblings(0).is_empty());
    assert!(!reader.has_siblings(0));
}

#[test]
fn test_single_variant() {
    let mut writer = OverlapSiblingWriter::new(2);
    writer.add(0, 5); // content_ord 0 → intern_ord 5
    writer.add(1, 8); // content_ord 1 → intern_ord 8
    let data = writer.serialize();
    let reader = OverlapSiblingReader::open(&data).unwrap();

    assert_eq!(reader.siblings(0), vec![5]);
    assert!(!reader.has_siblings(0)); // only one variant
    assert_eq!(reader.siblings(1), vec![8]);
}

#[test]
fn test_multiple_variants() {
    let mut writer = OverlapSiblingWriter::new(2);
    // content_ord 0 has 3 overlap variants
    writer.add(0, 5);  // "ptr<Co"
    writer.add(0, 12); // "ptr<ra"
    writer.add(0, 17); // "ptr<Va"
    // content_ord 1 has 1 variant
    writer.add(1, 8);
    let data = writer.serialize();
    let reader = OverlapSiblingReader::open(&data).unwrap();

    assert_eq!(reader.siblings(0), vec![5, 12, 17]);
    assert!(reader.has_siblings(0));
    assert_eq!(reader.siblings(1), vec![8]);
    assert!(!reader.has_siblings(1));
    assert_eq!(writer.num_multi_groups(), 1);
}

#[test]
fn overlap_siblings_test_out_of_bounds() {
    let writer = OverlapSiblingWriter::new(2);
    let data = writer.serialize();
    let reader = OverlapSiblingReader::open(&data).unwrap();
    assert!(reader.siblings(99).is_empty());
    assert!(!reader.has_siblings(99));
}
