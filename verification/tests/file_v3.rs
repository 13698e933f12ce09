use std::collections::BTreeMap;

use suffix_fst::collector_v3::{Chunk, ChunkMeta, SfxCollectorV3};
use suffix_fst::dictionary_lookup::ParentEntryV3;
use suffix_fst::file_v3::{
    ParentRefV3, RecordLayout, SfxFileReaderV3, SfxFileWriterV3, SfxV3Error, SECTION_FST, SECTION_PARENTS,
};
use suffix_fst::parents_table::push_record;
use suffix_fst::section_file::SectionFileWriter;
use suffix_fst::suffix_terms::SuffixTerms;

fn chunk(text: &str, content_len: usize, word_id: usize) -> Chunk {
    Chunk {
        text: text.to_string(),
        meta: ChunkMeta { content_len, sep_len: text.len() - content_len, is_word_start: true, word_id },
    }
}

/// The chunks of a value of two words with `_` between them.
fn two_words(value: &str) -> Vec<Chunk> {
    let cut = value.find('_').unwrap();
    vec![chunk(&value[..cut + 1], cut, 0), chunk(&value[cut + 1..], value.len() - cut - 1, 1)]
}

/// The suffix terms of what a collector gives for these values, each suffix
/// with the overlap behind it.
fn collected_terms(values: &[&str]) -> SuffixTerms<ParentEntryV3> {
    let mut collector = SfxCollectorV3::new();
    for v in values {
        collector.begin_doc();
        collector.add_value(&two_words(v));
        collector.end_doc();
    }
    let data = collector.into_data();
    let mut map: BTreeMap<Vec<u8>, Vec<ParentEntryV3>> = BTreeMap::new();
    for &t in &data.sorted_indices {
        let meta = &data.token_meta[t as usize];
        if meta.is_word_stripped {
            continue;
        }
        let text = &data.token_texts[t as usize];
        for sti in 0..meta.own_len {
            let mut key = vec![(sti > 0) as u8];
            key.extend_from_slice(&text.as_bytes()[sti as usize..]);
            map.entry(key).or_default().push(ParentEntryV3 {
                raw_ordinal: data.intern_to_final[t as usize] as u64,
                sti,
                own_len: meta.own_len,
                sep_len: meta.sep_len,
                overlap_len: meta.overlap_len,
                is_word_start: meta.is_word_start,
            });
        }
    }
    SuffixTerms::new(map.into_iter().collect()).unwrap()
}

fn fine(_: &[u8]) -> Option<String> {
    None
}

fn build_sfx_v3() -> Vec<u8> {
    SfxFileWriterV3::new(b"fst".to_vec(), b"parents".to_vec()).to_bytes()
}

#[test]
fn test_write_read_roundtrip() {
    let bytes = build_sfx_v3();
    let reader = SfxFileReaderV3::open(&bytes, &fine).unwrap().with_terms(collected_terms(&["mutex_lock"]));

    assert!(reader.num_suffix_terms() > 0);
}

#[test]
fn test_resolve_suffix() {
    let bytes = build_sfx_v3();
    let reader = SfxFileReaderV3::open(&bytes, &fine).unwrap().with_terms(collected_terms(&["mutex_lock"]));

    // "mutex_lo" should be findable at SI=0
    let parents = reader.resolve_suffix("mutex_lo");
    assert!(!parents.is_empty(), "should find mutex_lo");
    assert!(parents.iter().any(|p| p.sti == 0 && p.is_word_start));

    // "x_lo" should be findable (cross-boundary via overlap)
    let parents = reader.resolve_suffix("x_lo");
    assert!(!parents.is_empty(), "should find x_lo (overlap trigram)");

    // In any case of letters.
    assert_eq!(reader.resolve_suffix("Mutex_LO"), reader.resolve_suffix("mutex_lo"));
}

#[test]
fn test_parent_metadata() {
    let bytes = build_sfx_v3();
    let reader = SfxFileReaderV3::open(&bytes, &fine).unwrap().with_terms(collected_terms(&["mutex_lock"]));

    let parents = reader.resolve_suffix("mutex_lo");
    let p = parents.iter().find(|p| p.sti == 0).unwrap();
    assert_eq!(p.own_len, 6);
    assert_eq!(p.sep_len, 1);
    assert_eq!(p.overlap_len, 2);
    assert!(p.is_word_start);
    assert_eq!(p.content_len(), 5);
}

#[test]
fn file_v3_test_multi_doc() {
    let bytes = build_sfx_v3();
    let terms = collected_terms(&["mutex_lock", "mutex_core", "hello_world"]);
    let reader = SfxFileReaderV3::open(&bytes, &fine).unwrap().with_terms(terms);

    // "mutex_lo" from doc 0
    assert!(!reader.resolve_suffix("mutex_lo").is_empty());
    // "mutex_co" from doc 1
    assert!(!reader.resolve_suffix("mutex_co").is_empty());
    // "hello_wo" from doc 2
    assert!(!reader.resolve_suffix("hello_wo").is_empty());
}

/// Files of the versions before the current one still open and decode their
/// parents in the layout of their version.
#[test]
fn version_3_file_still_reads_its_parents() {
    let a = ParentEntryV3 { raw_ordinal: 7, sti: 0, own_len: 6, sep_len: 1, overlap_len: 2, is_word_start: true };
    let b = ParentEntryV3 { raw_ordinal: 9, sti: 2, own_len: 8, sep_len: 0, overlap_len: 2, is_word_start: false };

    // Fixed-width record: [u32 count] + 11 bytes per parent.
    let mut record = 2u32.to_le_bytes().to_vec();
    for p in [&a, &b] {
        record.extend_from_slice(&(p.raw_ordinal as u32).to_le_bytes());
        record.extend_from_slice(&p.sti.to_le_bytes());
        record.extend_from_slice(&p.own_len.to_le_bytes());
        record.push(p.sep_len);
        record.push(p.overlap_len);
        record.push(if p.is_word_start { 1 } else { 0 });
    }
    let fixed = |record: &[u8]| -> Vec<ParentEntryV3> {
        let n = u32::from_le_bytes(record[..4].try_into().unwrap()) as usize;
        record[4..]
            .chunks(11)
            .take(n)
            .map(|e| ParentEntryV3 {
                raw_ordinal: u32::from_le_bytes(e[..4].try_into().unwrap()) as u64,
                sti: u16::from_le_bytes(e[4..6].try_into().unwrap()),
                own_len: u16::from_le_bytes(e[6..8].try_into().unwrap()),
                sep_len: e[8],
                overlap_len: e[9],
                is_word_start: e[10] == 1,
            })
            .collect()
    };
    let mut table = Vec::new();
    let offset = table.len() as u64;
    push_record(&mut table, &record);

    let file_of = |version: u8, parents: &[u8]| {
        let mut file = SectionFileWriter::new(*b"SFX3", version);
        file.add_section(SECTION_FST, b"fst");
        file.add_section(SECTION_PARENTS, parents);
        file.serialize()
    };
    let decode = |layout: RecordLayout, record: &[u8]| match layout {
        RecordLayout::Fixed => fixed(record),
        RecordLayout::Packed => vec![b],
        RecordLayout::Delta => vec![a],
    };
    let bytes = file_of(3, &table);
    let reader = SfxFileReaderV3::open(&bytes, &fine).unwrap();
    assert_eq!(reader.container_version(), 3);
    let found = reader.decode_parents(ParentRefV3::Multi { offset }, &decode);
    assert_eq!(found, vec![a, b]);
    let terms = SuffixTerms::new(vec![(b"\x01lo".to_vec(), found), (b"\x01mu".to_vec(), vec![a])]).unwrap();
    let reader = reader.with_terms(terms);
    assert_eq!(reader.resolve_suffix("lo"), vec![a, b]);
    assert_eq!(reader.resolve_suffix("mu"), vec![a]);
    assert_eq!(reader.decode_parents(ParentRefV3::Single(a), &decode), vec![a]);

    let bytes4 = file_of(4, &table);
    let reader4 = SfxFileReaderV3::open(&bytes4, &fine).unwrap();
    assert_eq!(reader4.container_version(), 4);
    assert_eq!(reader4.decode_parents(ParentRefV3::Multi { offset }, &decode), vec![b]);

    // And a freshly written file says 5.
    let bytes5 = SfxFileWriterV3::new(b"fst".to_vec(), table.clone()).to_bytes();
    let fresh = SfxFileReaderV3::open(&bytes5, &fine).unwrap();
    assert_eq!(fresh.container_version(), 5);
    assert_eq!(fresh.decode_parents(ParentRefV3::Multi { offset }, &decode), vec![a]);

    // Versions outside the known ones read as the nearest.
    assert_eq!(SfxFileReaderV3::open(&file_of(1, &table), &fine).unwrap().container_version(), 3);
    assert_eq!(SfxFileReaderV3::open(&file_of(9, &table), &fine).unwrap().container_version(), 5);
}

#[test]
fn test_empty_sfx() {
    let writer = SfxFileWriterV3::new(Vec::new(), Vec::new());
    let bytes = writer.to_bytes();
    // Without bytes there is nothing to open.
    let never = |_: &[u8]| -> Option<String> { panic!("no FST to open") };
    let reader = SfxFileReaderV3::open(&bytes, &never).unwrap();
    assert_eq!(reader.num_suffix_terms(), 0);
    assert!(reader.fst_data().is_empty());
}

#[test]
fn opening_fails_in_order() {
    let message = |r: Result<SfxFileReaderV3<'_>, SfxV3Error>| r.err().unwrap().to_string();
    assert_eq!(message(SfxFileReaderV3::open(b"nothing", &fine)), "invalid SFX3 format");
    let empty = SectionFileWriter::new(*b"SFX3", 5).serialize();
    assert_eq!(message(SfxFileReaderV3::open(&empty, &fine)), "missing section: FST");
    let mut file = SectionFileWriter::new(*b"SFX3", 5);
    file.add_section(SECTION_FST, b"fst");
    let bytes = file.serialize();
    assert_eq!(message(SfxFileReaderV3::open(&bytes, &fine)), "missing section: PARENTS");
    let broken = |b: &[u8]| Some(format!("{} bad bytes", b.len()));
    assert_eq!(message(SfxFileReaderV3::open(&bytes, &broken)), "FST error: 3 bad bytes");
}

/// Where the FST does not open and the parents are missing too, the FST decides.
#[test]
fn a_bad_fst_comes_before_missing_parents() {
    let mut w = SectionFileWriter::new(*b"SFX3", 8);
    w.add_section(SECTION_FST, b"fst");
    let bytes = w.serialize();
    let bad = |_: &[u8]| Some("bad".to_string());
    assert!(matches!(SfxFileReaderV3::open(&bytes, &bad), Err(SfxV3Error::FstError(e)) if e == "bad"));
    let good = |_: &[u8]| None;
    assert!(matches!(SfxFileReaderV3::open(&bytes, &good), Err(SfxV3Error::MissingSection("PARENTS"))));
}
