use suffix_fst::collector_v3::TokenMetaV3;
use suffix_fst::dictionary::{SfxDictionary, SfxDictionaryMeta};
use suffix_fst::dictionary_lookup::ParentEntryV3;
use suffix_fst::dictionary_parts::{can_open, index_source, open_field, IndexSource, ReadPart};
use suffix_fst::dictionary_pidx::{GroupHeader, GroupIndexBuilder};
use suffix_fst::intern_key::intern_key;
use suffix_fst::termtexts_v3::{TermMetaV3, TermTextsWriterV3};

fn texts(list: &[(u32, &str)]) -> Vec<u8> {
    let mut w = TermTextsWriterV3::new();
    for (i, (_, t)) in list.iter().enumerate() {
        let m = TermMetaV3 {
            own_len: t.len() as u16,
            sep_len: 0,
            overlap_len: 0,
            is_word_start: true,
            is_word_stripped: false,
        };
        w.add(i as u32, t, m);
    }
    w.with_ids(list.iter().map(|e| e.0).collect()).serialize()
}

fn part(suffixes: Option<bool>, termtexts: Option<Vec<u8>>, is_generation: bool) -> ReadPart {
    ReadPart { suffixes, termtexts, group_index: None, is_generation, index_built: false }
}

fn info(field_ids: Vec<u32>) -> SfxDictionaryMeta {
    SfxDictionaryMeta {
        generations: vec![1, 4],
        next_generation: 5,
        next_ids: vec![(3, 9)],
        field_ids,
        pending_segments: vec!["seg".to_string()],
    }
}

/// The generations come before the pending segments, which have no group
/// index.
#[test]
fn parts_are_named_in_their_order() {
    let files = info(vec![3]).part_files(3);
    assert_eq!(files.len(), 3);
    assert_eq!(files[0].group_index.is_some(), true);
    assert_eq!(files[1].group_index.is_some(), true);
    assert_eq!(files[2].sfx, "seg.3.newsfx");
    assert_eq!(files[2].termtexts, "seg.3.newtexts");
    assert_eq!(files[2].group_index, None);
}

/// The texts of all parts that could be read answer for a field.
#[test]
fn a_dictionary_opens_over_the_parts_that_were_read() {
    let read = vec![
        vec![
            part(Some(true), Some(texts(&[(0, "alpha"), (2, "gamma")])), true),
            part(None, Some(texts(&[(8, "lost")])), true),
            part(Some(true), Some(texts(&[(1, "beta")])), false),
        ],
        vec![],
    ];
    let dict = SfxDictionary::open(info(vec![3, 5]), &read, None);
    let field = dict.field(3).unwrap();
    assert_eq!(field.termtexts().unwrap().text(0), Some("alpha"));
    assert_eq!(field.termtexts().unwrap().text(1), Some("beta"));
    assert_eq!(field.termtexts().unwrap().text(2), Some("gamma"));
    assert_eq!(field.termtexts().unwrap().text(8), None);
    assert!(dict.field(5).is_none());
    assert_eq!(dict.next_ids(), vec![(3, 9)]);
}

/// A field is not there without suffixes that open, or where those of a part
/// stand in the way.
#[test]
fn suffixes_that_do_not_open_leave_the_field_out() {
    let bad = vec![part(Some(false), Some(texts(&[(0, "alpha")])), true)];
    assert!(open_field(&bad).is_none());
    let none: Vec<ReadPart> = vec![part(None, None, true)];
    assert!(open_field(&none).is_none());
    let pending = vec![
        part(Some(true), Some(texts(&[(0, "alpha")])), true),
        part(Some(false), Some(texts(&[(1, "beta")])), false),
    ];
    assert!(open_field(&pending).is_none());
}

/// A generation from which a group index cannot be built is left out, but not
/// its texts.
#[test]
fn a_generation_that_does_not_open_is_passed_over() {
    let parts = vec![
        part(Some(true), Some(texts(&[(0, "alpha")])), true),
        part(Some(false), Some(texts(&[(1, "beta")])), true),
    ];
    let field = open_field(&parts).unwrap();
    assert_eq!(field.termtexts().unwrap().text(0), Some("alpha"));
    assert_eq!(field.termtexts().unwrap().text(1), Some("beta"));
}

/// A field whose texts do not open finds no token.
#[test]
fn texts_that_do_not_open_find_nothing() {
    let read = vec![vec![part(Some(true), Some(vec![1, 2, 3]), true)]];
    let dict = SfxDictionary::open(info(vec![3]), &read, None);
    let field = dict.field(3).unwrap();
    assert!(field.termtexts().is_none());
    let meta = TokenMetaV3 {
        own_len: 5,
        sep_len: 0,
        overlap_len: 0,
        is_word_start: true,
        word_id: 0,
        is_word_stripped: false,
    };
    assert_eq!(field.lookup("alpha", &meta, &|_: Vec<u8>, _: Vec<u8>| Vec::new()), None);
    assert!(!dict.verify(3, 0, "alpha", &meta));
}

/// A generation has its index file, or what was built; a pending segment none.
#[test]
fn group_indexes_are_looked_for() {
    let mut b = GroupIndexBuilder::new();
    let headers: Vec<GroupHeader> = (0..20)
        .map(|i| GroupHeader { header_pos: i, prev_first: i as u64, overlap: vec![b'a' + i as u8] })
        .collect();
    b.add(0, &[0; 40], &headers);
    let index = b.finish();
    let mut p = part(Some(true), Some(texts(&[(0, "alpha")])), true);
    assert_eq!(index_source(&p), IndexSource::Build);
    p.index_built = true;
    assert_eq!(index_source(&p), IndexSource::Kept);
    p.group_index = Some(index);
    assert_eq!(index_source(&p), IndexSource::File);
    p.group_index = Some(vec![9]);
    assert_eq!(index_source(&p), IndexSource::Kept);
    p.is_generation = false;
    assert_eq!(index_source(&p), IndexSource::Scan);
}

/// A token of the parts is found by the first lookup after they were opened,
/// which makes the filter, and by those after it.
#[test]
fn written_tokens_are_found_after_opening() {
    let read = vec![vec![part(Some(true), Some(texts(&[(0, "alpha"), (2, "gamma")])), true)]];
    assert!(can_open(&read[0]));
    let mut dict = SfxDictionary::open(info(vec![3]), &read, None);
    let meta = TokenMetaV3 {
        own_len: 5,
        sep_len: 0,
        overlap_len: 0,
        is_word_start: true,
        word_id: 0,
        is_word_stripped: false,
    };
    let walk = |key: Vec<u8>, _: Vec<u8>| {
        let parents = |raw_ordinal| {
            vec![ParentEntryV3 { raw_ordinal, sti: 0, own_len: 5, sep_len: 0, overlap_len: 0, is_word_start: true }]
        };
        if key.ends_with(b"alpha") {
            vec![parents(0)]
        } else if key.ends_with(b"gamma") {
            vec![parents(2)]
        } else {
            vec![Vec::new()]
        }
    };
    let key = |t: &str| intern_key(t, false, 5, 0, true);
    assert_eq!(dict.lookup_or_mint(3, &key("gamma"), "gamma", &meta, &walk), (2, false));
    assert_eq!(dict.lookup_or_mint(3, &key("alpha"), "alpha", &meta, &walk), (0, false));
    assert_eq!(dict.lookup_or_mint(3, &key("delta"), "delta", &meta, &walk), (9, true));
    assert_eq!(dict.lookup_or_mint(3, &key("alpha"), "alpha", &meta, &walk), (0, false));
    assert_eq!(dict.lookup_or_mint(3, &key("delta"), "delta", &meta, &walk), (9, false));
    assert_eq!(dict.next_ids(), vec![(3, 10)]);
}

#[test]
fn texts_that_cannot_be_read_through_are_told() {
    assert!(can_open(&vec![part(None, None, true), part(Some(true), Some(vec![1, 2]), true)]));
    let mut w = TermTextsWriterV3::new();
    let m = TermMetaV3 { own_len: 1, sep_len: 2, overlap_len: 0, is_word_start: true, is_word_stripped: true };
    w.add(0, "a", m);
    assert!(!can_open(&vec![part(Some(true), Some(w.serialize()), true)]));
}
