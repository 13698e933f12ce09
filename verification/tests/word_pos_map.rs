use suffix_fst::word_pos_map::{SPAN_OVERFLOW, WordPosMapReader, WordPosMapWriter};

#[test]
fn test_roundtrip() {
    let mut w = WordPosMapWriter::new();
    // Doc 0: "mutex_lock" → word 0 = "mutex_" (2 chunks), word 1 = "lock" (1 chunk)
    w.add(0, 0, 0); // pos 0 → word 0
    w.add(0, 1, 1); // pos 1 → word 1
    // Doc 1: "hello_world" → word 0 = "hello_" (1 chunk), word 1 = "world" (1 chunk)
    w.add(1, 0, 0);
    w.add(1, 1, 1);

    let data = w.serialize();
    let r = WordPosMapReader::open(&data).unwrap();

    assert_eq!(r.word_at(0, 0), Some(0));
    assert_eq!(r.word_at(0, 1), Some(1));
    assert_eq!(r.word_at(1, 0), Some(0));
    assert_eq!(r.word_at(1, 1), Some(1));
    assert_eq!(r.word_at(0, 99), None);
    assert_eq!(r.word_at(99, 0), None);
}

#[test]
fn test_word_start_at() {
    let mut w = WordPosMapWriter::new();
    // "internationalization" → one word of 3 chunks, ordinal 7, at positions 0..=2
    w.add_word(0, 0, 2, 7);
    // "mutex_lock" → two one-chunk words, ordinals 11 and 12
    w.add_word(0, 3, 3, 11);
    w.add_word(0, 4, 4, 12);

    let data = w.serialize();
    let r = WordPosMapReader::open(&data).unwrap();

    assert_eq!(r.word_start_at(0, 0), Some((7, 2)));
    assert_eq!(r.word_start_at(0, 1), None); // inside a word, no word starts here
    assert_eq!(r.word_start_at(0, 2), None);
    assert_eq!(r.word_start_at(0, 3), Some((11, 0)));
    assert_eq!(r.word_start_at(0, 4), Some((12, 0)));
    assert_eq!(r.word_start_at(0, 5), None);
    assert_eq!(r.word_start_at(1, 0), None);
}

#[test]
fn test_span_overflow_and_ordinal_overflow() {
    let mut w = WordPosMapWriter::new();
    w.add_word(0, 0, 1000, 3);
    let r_data = w.serialize();
    let r = WordPosMapReader::open(&r_data).unwrap();
    assert_eq!(r.word_start_at(0, 0), Some((3, SPAN_OVERFLOW)));

    // A span of 15 already overflows a WMP3 slot; 14 does not.
    let mut w = WordPosMapWriter::new();
    w.add_word(0, 0, 15, 3);
    w.add_word(0, 16, 30, 4);
    let r_data = w.serialize();
    let r = WordPosMapReader::open(&r_data).unwrap();
    assert_eq!(r.word_start_at(0, 0), Some((3, SPAN_OVERFLOW)));
    assert_eq!(r.word_start_at(0, 16), Some((4, 14)));

    // An ordinal beyond 24 bits fits (28 bits); one beyond 28 disables the map.
    let mut w = WordPosMapWriter::new();
    w.add_word(0, 0, 2, 1 << 24);
    let r_data = w.serialize();
    assert_eq!(WordPosMapReader::open(&r_data).unwrap().word_start_at(0, 0), Some((1 << 24, 2)));
    let mut w = WordPosMapWriter::new();
    w.add_word(0, 0, 0, 1 << 28);
    assert!(w.serialize().is_empty());
    assert!(WordPosMapReader::open(&w.serialize()).is_none());
}

/// A `WMP2` file (24-bit ordinal, 8-bit span) still reads, with 255 as
/// its overflow.
#[test]
fn wmp2_still_reads() {
    let mut buf = Vec::new();
    buf.extend_from_slice(b"WMP2");
    buf.extend_from_slice(&1u32.to_le_bytes());
    buf.extend_from_slice(&0u64.to_le_bytes());
    buf.extend_from_slice(&8u64.to_le_bytes());
    buf.extend_from_slice(&(7u32 | (2 << 24)).to_le_bytes());
    buf.extend_from_slice(&(9u32 | (255 << 24)).to_le_bytes());
    let r = WordPosMapReader::open(&buf).unwrap();
    assert_eq!(r.word_start_at(0, 0), Some((7, 2)));
    assert_eq!(r.word_start_at(0, 1), Some((9, SPAN_OVERFLOW)));
}
