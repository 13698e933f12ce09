use suffix_fst::freqmap::{FreqMapReader, FreqMapWriter};

#[test]
fn test_freqmap_roundtrip() {
    let mut writer = FreqMapWriter::new();
    // Token 0 appears in doc 0 (tf=3) and doc 2 (tf=1)
    writer.add(0, 0); writer.add(0, 0); writer.add(0, 0);
    writer.add(0, 2);
    // Token 1 appears in doc 1 (tf=2)
    writer.add(1, 1); writer.add(1, 1);
    // Token 2 appears in doc 0 (tf=1), doc 1 (tf=1), doc 2 (tf=1)
    writer.add(2, 0); writer.add(2, 1); writer.add(2, 2);

    let data = writer.serialize();
    let reader = FreqMapReader::open(&data).unwrap();

    assert_eq!(reader.num_terms(), 3);

    // doc_freq
    assert_eq!(reader.doc_freq(0), 2);  // token 0 in 2 docs
    assert_eq!(reader.doc_freq(1), 1);  // token 1 in 1 doc
    assert_eq!(reader.doc_freq(2), 3);  // token 2 in 3 docs
    assert_eq!(reader.doc_freq(3), 0);  // out of bounds

    // term_freq
    assert_eq!(reader.term_freq(0, 0), 3);
    assert_eq!(reader.term_freq(0, 1), 0);  // token 0 not in doc 1
    assert_eq!(reader.term_freq(0, 2), 1);
    assert_eq!(reader.term_freq(1, 1), 2);
    assert_eq!(reader.term_freq(2, 0), 1);
    assert_eq!(reader.term_freq(2, 1), 1);
    assert_eq!(reader.term_freq(2, 2), 1);

    // total_term_freq
    assert_eq!(reader.total_term_freq(0), 4); // 3+1
    assert_eq!(reader.total_term_freq(1), 2);
    assert_eq!(reader.total_term_freq(2), 3); // 1+1+1
}

#[test]
fn test_freqmap_empty() {
    let writer = FreqMapWriter::new();
    let data = writer.serialize();
    assert!(data.is_empty());
}

#[test]
fn test_freqmap_single_entry() {
    let mut writer = FreqMapWriter::new();
    writer.add(0, 42);
    let data = writer.serialize();
    let reader = FreqMapReader::open(&data).unwrap();
    assert_eq!(reader.doc_freq(0), 1);
    assert_eq!(reader.term_freq(0, 42), 1);
    assert_eq!(reader.term_freq(0, 0), 0);
}

#[test]
fn the_order_of_adds_does_not_matter() {
    let adds = [(1u32, 4u32), (0, 2), (1, 4), (0, 0), (1, 1), (1, 4)];
    let mut forward = FreqMapWriter::new();
    for &(token, doc) in adds.iter() {
        forward.add(token, doc);
    }
    let mut backward = FreqMapWriter::new();
    for &(token, doc) in adds.iter().rev() {
        backward.add(token, doc);
    }
    let data = forward.serialize();
    assert_eq!(data, backward.serialize());

    let reader = FreqMapReader::open(&data).unwrap();
    assert_eq!(reader.total_term_freq(0), 2);
    assert_eq!(reader.total_term_freq(1), 4);
}
