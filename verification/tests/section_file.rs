use suffix_fst::section_file::{SectionDesc, SectionFileReader, SectionFileWriter, detect_sfx_version, detect_termtexts_version};

const TEST_MAGIC: [u8; 4] = *b"TEST";

#[test]
fn test_empty_file() {
    let writer = SectionFileWriter::new(TEST_MAGIC, 1);
    let bytes = writer.serialize();

    let reader = SectionFileReader::open(&bytes, &TEST_MAGIC).unwrap();
    assert_eq!(reader.version(), 1);
    assert_eq!(reader.num_sections(), 0);
    assert_eq!(reader.find_section(0), None);
}

#[test]
fn test_single_section() {
    let mut writer = SectionFileWriter::new(TEST_MAGIC, 3);
    writer.add_section(42, b"hello world");

    let bytes = writer.serialize();
    let reader = SectionFileReader::open(&bytes, &TEST_MAGIC).unwrap();

    assert_eq!(reader.version(), 3);
    assert_eq!(reader.num_sections(), 1);

    let desc = reader.find_section(42).unwrap();
    assert_eq!(desc.id, 42);
    assert_eq!(desc.length, 11);

    let data = reader.section_data(&desc).unwrap();
    assert_eq!(data, b"hello world");
}

#[test]
fn test_multiple_sections() {
    let mut writer = SectionFileWriter::new(TEST_MAGIC, 1);
    writer.add_section(1, b"FST data here");
    writer.add_section(2, b"parent list");
    writer.add_section(10, b"word map");

    let bytes = writer.serialize();
    let reader = SectionFileReader::open(&bytes, &TEST_MAGIC).unwrap();

    assert_eq!(reader.num_sections(), 3);

    assert_eq!(reader.get_section(1).unwrap(), b"FST data here");
    assert_eq!(reader.get_section(2).unwrap(), b"parent list");
    assert_eq!(reader.get_section(10).unwrap(), b"word map");
    assert_eq!(reader.get_section(99), None);
}

#[test]
fn test_has_section() {
    let mut writer = SectionFileWriter::new(TEST_MAGIC, 1);
    writer.add_section(5, b"data");

    let bytes = writer.serialize();
    let reader = SectionFileReader::open(&bytes, &TEST_MAGIC).unwrap();

    assert!(reader.has_section(5));
    assert!(!reader.has_section(6));
}

#[test]
fn test_wrong_magic() {
    let writer = SectionFileWriter::new(TEST_MAGIC, 1);
    let bytes = writer.serialize();

    assert!(SectionFileReader::open(&bytes, b"NOPE").is_none());
}

#[test]
fn test_sections_iterator() {
    let mut writer = SectionFileWriter::new(TEST_MAGIC, 1);
    writer.add_section(1, b"aaa");
    writer.add_section(2, b"bb");
    writer.add_section(3, b"c");

    let bytes = writer.serialize();
    let reader = SectionFileReader::open(&bytes, &TEST_MAGIC).unwrap();

    let descs: Vec<SectionDesc> = reader.sections();
    assert_eq!(descs.len(), 3);
    assert_eq!(descs[0].id, 1);
    assert_eq!(descs[0].length, 3);
    assert_eq!(descs[1].id, 2);
    assert_eq!(descs[1].length, 2);
    assert_eq!(descs[2].id, 3);
    assert_eq!(descs[2].length, 1);
}

#[test]
fn test_large_section() {
    let mut writer = SectionFileWriter::new(TEST_MAGIC, 1);
    let big = vec![0xAB_u8; 100_000];
    writer.add_section(1, &big);

    let bytes = writer.serialize();
    let reader = SectionFileReader::open(&bytes, &TEST_MAGIC).unwrap();

    let data = reader.get_section(1).unwrap();
    assert_eq!(data.len(), 100_000);
    assert!(data.iter().all(|&b| b == 0xAB));
}

#[test]
fn test_empty_section() {
    let mut writer = SectionFileWriter::new(TEST_MAGIC, 1);
    writer.add_section(1, b"content");
    writer.add_section(2, b""); // empty section
    writer.add_section(3, b"more");

    let bytes = writer.serialize();
    let reader = SectionFileReader::open(&bytes, &TEST_MAGIC).unwrap();

    assert_eq!(reader.get_section(2).unwrap(), b"");
    assert_eq!(reader.get_section(3).unwrap(), b"more");
}

#[test]
fn test_detect_sfx_version() {
    assert_eq!(detect_sfx_version(b"SFX1xxxxx"), Some(1));
    assert_eq!(detect_sfx_version(b"SFX2xxxxx"), Some(2));
    assert_eq!(detect_sfx_version(b"SFX3xxxxx"), Some(3));
    assert_eq!(detect_sfx_version(b"NOPE"), None);
    assert_eq!(detect_sfx_version(b"SF"), None);
}

#[test]
fn test_detect_termtexts_version() {
    assert_eq!(detect_termtexts_version(b"TTXTxxxxx"), Some(1));
    assert_eq!(detect_termtexts_version(b"TTX3xxxxx"), Some(3));
    assert_eq!(detect_termtexts_version(b"NOPE"), None);
}

#[test]
fn test_truncated_file() {
    let mut writer = SectionFileWriter::new(TEST_MAGIC, 1);
    writer.add_section(1, b"data");

    let bytes = writer.serialize();
    // Truncate before section table is complete
    assert!(SectionFileReader::open(&bytes[..10], &TEST_MAGIC).is_none());
    // Truncate header
    assert!(SectionFileReader::open(&bytes[..3], &TEST_MAGIC).is_none());
}
