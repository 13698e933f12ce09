use suffix_fst::collector_v3::{Chunk, ChunkMeta, SfxCollectorV3};
use suffix_fst::section_file::SectionFileWriter;
use suffix_fst::termtexts_v3::{SECTION_META, SECTION_TEXTS, TermMetaV3, TermTextsReaderV3, TermTextsWriterV3, WORD_SUFFIX_CAP};

/// A file of layout 1 (TEXTS + META apart); the reader must give the same
/// texts, meta and `has_content` as the layout-2 file of the same tokens.
fn serialize_layout_1(all: &[&str], metas: &[TermMetaV3]) -> Vec<u8> {
    let mut file = SectionFileWriter::new(*b"TTX3", 1);
    let num = all.len() as u32;
    let mut texts = num.to_le_bytes().to_vec();
    let mut off = 0u32;
    for t in all { texts.extend_from_slice(&off.to_le_bytes()); off += t.len() as u32; }
    texts.extend_from_slice(&off.to_le_bytes());
    for t in all { texts.extend_from_slice(t.as_bytes()); }
    file.add_section(SECTION_TEXTS, &texts);
    let mut meta = num.to_le_bytes().to_vec();
    for m in metas {
        meta.extend_from_slice(&m.own_len.to_le_bytes());
        meta.push(m.sep_len); meta.push(m.overlap_len);
        meta.push(m.is_word_start as u8); meta.push(m.is_word_stripped as u8);
    }
    file.add_section(SECTION_META, &meta);
    file.serialize()
}

#[test]
fn layout_1_and_layout_2_read_alike() {
    let mut w = TermTextsWriterV3::new();
    let metas = [
        TermMetaV3 { own_len: 6, sep_len: 1, overlap_len: 2, is_word_start: true, is_word_stripped: false },
        TermMetaV3 { own_len: 3, sep_len: 3, overlap_len: 0, is_word_start: false, is_word_stripped: false },
        TermMetaV3 { own_len: 300, sep_len: 0, overlap_len: 2, is_word_start: true, is_word_stripped: true },
        TermMetaV3 { own_len: 0, sep_len: 0, overlap_len: 0, is_word_start: false, is_word_stripped: false },
    ];
    let all = ["mutex_lo", "___", "internationalization", ""];
    for (i, (text, m)) in all.iter().zip(metas).enumerate() {
        w.add(i as u32, text, m);
    }
    let d2 = w.serialize();
    let d1 = serialize_layout_1(&all, &metas);
    let (r2, r1) = (TermTextsReaderV3::open(&d2).unwrap(), TermTextsReaderV3::open(&d1).unwrap());
    assert!(r2.has_inline_meta() && !r1.has_inline_meta());
    assert_eq!(r2.num_terms(), 4);
    for ord in 0..5u32 {
        assert_eq!(r2.text(ord), r1.text(ord), "text {ord}");
        assert_eq!(r2.meta(ord), r1.meta(ord), "meta {ord}");
        assert_eq!(r2.has_content(ord), r1.has_content(ord), "has_content {ord}");
    }
    assert_eq!(r2.meta(2), Some(metas[2]));
    assert!(r2.has_content(0) && !r2.has_content(1) && !r2.has_content(3) && r2.has_content(4));
    assert_eq!(r2.iter().len(), r1.iter().len());
    // 8 bytes per ordinal against 4 + 6.
    assert!(d2.len() < d1.len());
}

#[test]
fn test_roundtrip_basic() {
    let mut writer = TermTextsWriterV3::new();
    writer.add(0, "mutex_lo", TermMetaV3 {
        own_len: 6, sep_len: 1, overlap_len: 2, is_word_start: true, is_word_stripped: true });
    writer.add(1, "lock", TermMetaV3 {
        own_len: 4, sep_len: 0, overlap_len: 0, is_word_start: true, is_word_stripped: false });

    let bytes = writer.serialize();
    let reader = TermTextsReaderV3::open(&bytes).unwrap();

    assert_eq!(reader.num_terms(), 2);
    assert_eq!(reader.text(0), Some("mutex_lo"));
    assert_eq!(reader.text(1), Some("lock"));

    let meta0 = reader.meta(0).unwrap();
    assert_eq!(meta0.own_len, 6);
    assert_eq!(meta0.sep_len, 1);
    assert_eq!(meta0.overlap_len, 2);
    assert!(meta0.is_word_start);

    let meta1 = reader.meta(1).unwrap();
    assert_eq!(meta1.own_len, 4);
    assert_eq!(meta1.sep_len, 0);
    assert_eq!(meta1.overlap_len, 0);
    assert!(meta1.is_word_start);

    // The partition tag must survive the round-trip: it is the only thing that
    // tells a reader whether an ordinal's postings live in .sfxpost (chunk) or
    // .word_sfxpost (word-stripped). Losing it is what lets a text-keyed
    // structure fuse the two halves of the model.
    assert!(meta0.is_word_stripped, "partition tag lost for ordinal 0");
    assert!(!meta1.is_word_stripped, "partition tag wrong for ordinal 1");
}

#[test]
fn test_roundtrip_many() {
    let mut writer = TermTextsWriterV3::new();
    for i in 0..100 {
        let text = format!("token_{i}");
        writer.add(i, &text, TermMetaV3 {
            own_len: text.len() as u16,
            sep_len: 0,
            overlap_len: if i < 99 { 2 } else { 0 },
            is_word_start: i % 3 == 0,
            is_word_stripped: i % 7 == 0,
        });
    }

    let bytes = writer.serialize();
    let reader = TermTextsReaderV3::open(&bytes).unwrap();

    assert_eq!(reader.num_terms(), 100);
    for i in 0..100u32 {
        assert_eq!(reader.meta(i).unwrap().is_word_stripped, i % 7 == 0,
            "partition tag mismatch at ordinal {i}");
    }
    for i in 0..100 {
        let expected = format!("token_{i}");
        assert_eq!(reader.text(i), Some(expected.as_str()));
        let meta = reader.meta(i).unwrap();
        assert_eq!(meta.is_word_start, i % 3 == 0);
        assert_eq!(meta.overlap_len, if i < 99 { 2 } else { 0 });
    }
}

#[test]
fn test_entry() {
    let mut writer = TermTextsWriterV3::new();
    writer.add(0, "getEleme", TermMetaV3 {
        own_len: 8, sep_len: 0, overlap_len: 2, is_word_start: true, is_word_stripped: false });

    let bytes = writer.serialize();
    let reader = TermTextsReaderV3::open(&bytes).unwrap();

    let (text, meta) = reader.entry(0).unwrap();
    assert_eq!(text, "getEleme");
    assert!(meta.is_word_start);
    assert_eq!(meta.overlap_len, 2);
}

#[test]
fn test_iter() {
    let mut writer = TermTextsWriterV3::new();
    writer.add(0, "aaa", TermMetaV3 { own_len: 3, sep_len: 0, overlap_len: 0, is_word_start: true, is_word_stripped: false });
    writer.add(1, "bbb", TermMetaV3 { own_len: 3, sep_len: 0, overlap_len: 0, is_word_start: false, is_word_stripped: false });

    let bytes = writer.serialize();
    let reader = TermTextsReaderV3::open(&bytes).unwrap();

    let entries = reader.iter();
    assert_eq!(entries.len(), 2);
    assert_eq!(entries[0].1, "aaa");
    assert!(entries[0].2.is_word_start);
    assert_eq!(entries[1].1, "bbb");
    assert!(!entries[1].2.is_word_start);
}

#[test]
fn termtexts_v3_test_out_of_bounds() {
    let mut writer = TermTextsWriterV3::new();
    writer.add(0, "hello", TermMetaV3 { own_len: 5, sep_len: 0, overlap_len: 0, is_word_start: true, is_word_stripped: false });

    let bytes = writer.serialize();
    let reader = TermTextsReaderV3::open(&bytes).unwrap();

    assert_eq!(reader.text(1), None);
    assert_eq!(reader.meta(1), None);
    assert_eq!(reader.entry(1), None);
}

#[test]
fn test_empty() {
    let writer = TermTextsWriterV3::new();
    let bytes = writer.serialize();
    let reader = TermTextsReaderV3::open(&bytes).unwrap();

    assert_eq!(reader.num_terms(), 0);
    assert_eq!(reader.text(0), None);
}

#[test]
fn test_utf8_text() {
    let mut writer = TermTextsWriterV3::new();
    writer.add(0, "café_la", TermMetaV3 {
        own_len: 6, sep_len: 1, overlap_len: 2, is_word_start: true, is_word_stripped: false });

    let bytes = writer.serialize();
    let reader = TermTextsReaderV3::open(&bytes).unwrap();

    assert_eq!(reader.text(0), Some("café_la"));
}

/// A chunk as segmentation gives it.
fn chunk(text: &str, content_len: usize, sep_len: usize, is_word_start: bool, word_id: usize) -> Chunk {
    Chunk { text: text.to_string(), meta: ChunkMeta { content_len, sep_len, is_word_start, word_id } }
}

#[test]
fn test_collector_to_termtexts() {
    let mut c = SfxCollectorV3::new();
    c.begin_doc();
    c.add_value(&vec![
        chunk("mutex_", 5, 1, true, 0),
        chunk("lock_", 4, 1, true, 1),
        chunk("init", 4, 0, true, 2),
    ]);
    c.end_doc();

    let data = c.into_data();

    // Write termtexts v3 from collector data
    let mut writer = TermTextsWriterV3::new();
    for &intern_ord in &data.sorted_indices {
        let text = &data.token_texts[intern_ord as usize];
        let meta = &data.token_meta[intern_ord as usize];
        let content_ord = data.intern_to_final[intern_ord as usize];
        writer.add(content_ord, text, TermMetaV3 {
            own_len: meta.own_len,
            sep_len: meta.sep_len,
            overlap_len: meta.overlap_len,
            is_word_start: meta.is_word_start, is_word_stripped: false });
    }

    let bytes = writer.serialize();
    let reader = TermTextsReaderV3::open(&bytes).unwrap();

    // All tokens should be readable with metadata
    for ord in 0..reader.num_terms() {
        let (text, meta) = reader.entry(ord).unwrap();
        assert!(!text.is_empty());
        assert!(meta.own_len > 0 || meta.sep_len > 0);
    }
}

#[test]
fn stats_section_records_longest_word() {
    let meta = |own: u16, ws: bool| TermMetaV3 {
        own_len: own, sep_len: 1, overlap_len: 0, is_word_start: true, is_word_stripped: ws,
    };
    let mut w = TermTextsWriterV3::new();
    w.add(0, "chunk", meta(300, false)); // chunk shapes never count
    w.add(1, "short", meta(6, true));
    let bytes = w.serialize();
    let r = TermTextsReaderV3::open(&bytes).unwrap();
    assert_eq!(r.max_word_content_len(), Some(5));
    assert!(!r.may_have_long_words());

    let mut w = TermTextsWriterV3::new();
    w.add(0, "long", meta(WORD_SUFFIX_CAP + 2, true)); // content = cap + 1
    let bytes = w.serialize();
    let r = TermTextsReaderV3::open(&bytes).unwrap();
    assert_eq!(r.max_word_content_len(), Some(WORD_SUFFIX_CAP + 1));
    assert!(r.may_have_long_words());

    // Empty file: no word at all, still provable.
    let bytes = TermTextsWriterV3::new().serialize();
    let r = TermTextsReaderV3::open(&bytes).unwrap();
    assert!(!r.may_have_long_words());
}
