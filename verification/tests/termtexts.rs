use suffix_fst::termtexts::{TermTextsReader, TermTextsWriter};

#[test]
fn test_termtexts_roundtrip() {
    let mut writer = TermTextsWriter::new();
    writer.add(0, "hello");
    writer.add(1, "rag3");
    writer.add(2, "weaver");
    writer.add(3, "rag3weaver");

    let data = writer.serialize();
    let reader = TermTextsReader::open(&data).unwrap();

    assert_eq!(reader.num_terms(), 4);
    assert_eq!(reader.text(0), Some("hello"));
    assert_eq!(reader.text(1), Some("rag3"));
    assert_eq!(reader.text(2), Some("weaver"));
    assert_eq!(reader.text(3), Some("rag3weaver"));
    assert_eq!(reader.text(4), None);
}

#[test]
fn test_termtexts_empty() {
    let writer = TermTextsWriter::new();
    let data = writer.serialize();
    let reader = TermTextsReader::open(&data).unwrap();
    assert_eq!(reader.num_terms(), 0);
    assert_eq!(reader.text(0), None);
}
