use suffix_fst::collector_v3::TokenMetaV3;
use suffix_fst::dictionary::{DictionaryField, SfxDictionary, SfxDictionaryMeta};
use suffix_fst::dictionary_fold::{DictionaryFold, Settling};
use suffix_fst::dictionary_lookup::ParentEntryV3;
use suffix_fst::dictionary_names::{
    dictionary_bundle_id, dictionary_file_name, pending_file_name, GENERATION_EXTENSIONS, GROUP_INDEX_EXT,
};
use suffix_fst::dictionary_stats::{take, Snapshot};
use suffix_fst::intern_key::intern_key;
use suffix_fst::lookup_cache::LookupCache;
use suffix_fst::newtexts::{decode_newtexts, encode_newtexts};
use suffix_fst::termtexts_v3::{TermMetaV3, TermTextsReaderV3, TermTextsWriterV3};

fn meta(own_len: u16) -> TokenMetaV3 {
    TokenMetaV3 { own_len, sep_len: 0, overlap_len: 0, is_word_start: true, word_id: 0, is_word_stripped: false }
}

/// No part has any parent.
fn nowhere(_: Vec<u8>, _: Vec<u8>) -> Vec<Vec<ParentEntryV3>> {
    Vec::new()
}

/// The pending texts live by commit epoch: a commit that starts turns the
/// epoch, and once it has named its pairs everything minted before the turn is
/// dropped, whole epochs, while what was minted after stays.
#[test]
fn pending_texts_are_forgotten_by_commit_epoch() {
    let mut dict = SfxDictionary::empty();
    let key = |t: &str| intern_key(t, false, t.len() as u16, 0, true);
    let (a, minted_a) = dict.lookup_or_mint(7, &key("alpha"), "alpha", &meta(5), &nowhere);
    let (b, minted_b) = dict.lookup_or_mint(7, &key("beta"), "beta", &meta(4), &nowhere);
    assert!(minted_a && minted_b && a != b);
    assert_eq!(dict.pending_len(), 2);
    // Found while pending, from any epoch.
    assert_eq!(dict.lookup_or_mint(7, &key("alpha"), "alpha", &meta(5), &nowhere), (a, false));

    let epoch = dict.begin_commit_epoch();
    assert_eq!(epoch, 2);
    let (c, minted_c) = dict.lookup_or_mint(7, &key("gamma"), "gamma", &meta(5), &nowhere);
    assert!(minted_c);
    assert_eq!(dict.pending_len(), 3);
    // Still found across the turn, before the commit names its pairs.
    assert_eq!(dict.lookup_or_mint(7, &key("beta"), "beta", &meta(4), &nowhere), (b, false));

    dict.forget_committed_pending();
    assert_eq!(dict.pending_len(), 1, "the epoch before the turn is gone, the current one stays");
    assert_eq!(dict.lookup_or_mint(7, &key("gamma"), "gamma", &meta(5), &nowhere), (c, false));
    // A second commit with nothing minted in between forgets the rest.
    dict.begin_commit_epoch();
    dict.forget_committed_pending();
    assert_eq!(dict.pending_len(), 0);
    // Ids never go backwards.
    let (d, _) = dict.lookup_or_mint(7, &key("delta"), "delta", &meta(5), &nowhere);
    assert!(d > c);
}

/// Enough texts to grow the table many times over: each one is still found
/// afterwards, minted once.
#[test]
fn pending_texts_survive_table_growth() {
    let mut dict = SfxDictionary::empty();
    let n = 200_000u32;
    let mut ids = Vec::with_capacity(n as usize);
    for i in 0..n {
        let text = format!("t{i}_");
        let key = intern_key(&text, false, text.len() as u16, 1, i % 2 == 0);
        let (id, minted) = dict.lookup_or_mint(3, &key, &text, &meta(text.len() as u16), &nowhere);
        assert!(minted, "{text} minted twice");
        ids.push(id);
    }
    assert_eq!(dict.pending_len(), n as usize);
    for i in 0..n {
        let text = format!("t{i}_");
        let key = intern_key(&text, false, text.len() as u16, 1, i % 2 == 0);
        assert_eq!(
            dict.lookup_or_mint(3, &key, &text, &meta(text.len() as u16), &nowhere),
            (ids[i as usize], false),
            "{text} lost"
        );
    }
    assert_eq!(dict.pending_len(), n as usize);
}

fn term_meta(own_len: u16) -> TermMetaV3 {
    TermMetaV3 { own_len, sep_len: 0, overlap_len: 0, is_word_start: true, is_word_stripped: false }
}

/// A token that a part has is found there, case and all, and a token that
/// differs in case gets an id of its own.
#[test]
fn tokens_of_the_parts_are_found() {
    let mut w = TermTextsWriterV3::new();
    w.add(0, "Mutex", term_meta(5));
    let bytes = w.with_ids(vec![17]).serialize();
    let texts = TermTextsReaderV3::open(&bytes).unwrap();
    let fields = vec![(7u32, DictionaryField { texts: Some(texts) })];
    let info = SfxDictionaryMeta {
        generations: vec![1],
        next_generation: 2,
        next_ids: vec![(7, 18)],
        field_ids: vec![7],
        pending_segments: vec![],
    };
    let mut dict = SfxDictionary::over(info, fields, None);
    let walk = |key: Vec<u8>, overlap: Vec<u8>| {
        assert_eq!(key, b"\0mutex");
        assert!(overlap.is_empty());
        vec![vec![ParentEntryV3 {
            raw_ordinal: 17,
            sti: 0,
            own_len: 5,
            sep_len: 0,
            overlap_len: 0,
            is_word_start: true,
        }]]
    };
    let key = |t: &str| intern_key(t, false, t.len() as u16, 0, true);
    assert_eq!(dict.lookup_or_mint(7, &key("Mutex"), "Mutex", &meta(5), &walk), (17, false));
    assert!(dict.verify(7, 17, "Mutex", &meta(5)));
    assert!(!dict.verify(7, 17, "mutex", &meta(5)));
    assert_eq!(dict.lookup_or_mint(7, &key("mutex"), "mutex", &meta(5), &walk), (18, true));
    assert_eq!(dict.next_ids(), vec![(7, 19)]);
    let field = dict.field(7).unwrap();
    assert_eq!(field.lookup("Mutex", &meta(5), &walk), Some(17));
    assert_eq!(field.lookup("mUtex", &meta(5), &walk), None);
    assert_eq!(field.termtexts().unwrap().text(17), Some("Mutex"));
    assert!(dict.field(8).is_none());
    assert_eq!(dict.generations(), &[1]);
    assert_eq!(dict.meta().next_generation, 2);
}

/// A key that the filter says was never given an id is not looked for.
#[test]
fn the_filter_saves_the_walk() {
    let mut w = TermTextsWriterV3::new();
    w.add(0, "alpha", term_meta(5));
    let bytes = w.with_ids(vec![0]).serialize();
    let texts = TermTextsReaderV3::open(&bytes).unwrap();
    let info = SfxDictionaryMeta {
        generations: vec![],
        next_generation: 1,
        next_ids: vec![(1, 1)],
        field_ids: vec![1],
        pending_segments: vec![],
    };
    let mut dict = SfxDictionary::over(info, vec![(1u32, DictionaryField { texts: Some(texts) })], None);
    dict.filter(1);
    let never = |_: Vec<u8>, _: Vec<u8>| -> Vec<Vec<ParentEntryV3>> { panic!("walked") };
    let key = intern_key("omega", false, 5, 0, true);
    assert_eq!(dict.lookup_or_mint(1, &key, "omega", &meta(5), &never), (1, true));
    assert_eq!(dict.lookup_or_mint(1, &key, "omega", &meta(5), &nowhere), (1, false));
}

#[test]
fn parts_are_compared_by_name() {
    let dict = SfxDictionary::empty();
    let mut info = SfxDictionaryMeta {
        generations: vec![],
        next_generation: 9,
        next_ids: vec![],
        field_ids: vec![],
        pending_segments: vec![],
    };
    assert!(dict.same_parts(&info));
    info.pending_segments = vec!["seg".to_string()];
    assert!(!dict.same_parts(&info));
    info.pending_segments.clear();
    info.generations = vec![1];
    assert!(!dict.same_parts(&info));
    let parts = info.part_files(7);
    assert_eq!(parts.len(), 1);
    assert_eq!(parts[0].sfx, dictionary_file_name(1, 7, "sfx"));
}

#[test]
fn a_fold_runs_alone() {
    let mut fold = DictionaryFold::default();
    assert!(fold.begin());
    assert!(!fold.begin());
    assert!(fold.in_flight());
    assert_eq!(fold.wait_settled(true), Settling::Fold);
    assert_eq!(fold.wait(), None);
    fold.mark_changed();
    fold.set_persist_pending();
    fold.finish();
    assert!(!fold.in_flight());
    assert_eq!(fold.wait_settled(false), Settling::Persist);
    assert_eq!(fold.wait_settled(true), Settling::Done);
    fold.persisted();
    assert_eq!(fold.wait_settled(false), Settling::Done);
    assert_eq!(fold.wait(), Some(true));
    assert_eq!(fold.wait(), Some(false));
    assert!(fold.begin());
}

#[test]
fn cached_ids_come_back() {
    let mut cache = LookupCache::new();
    assert_eq!(cache.get(5), None);
    cache.insert(5, 77);
    assert_eq!(cache.get(5), Some(77));
    cache.insert(0, 78);
    assert_eq!(cache.get(0), Some(78));
    assert_eq!(cache.stats(), (2, 1, 0));
    assert_eq!(cache.stats(), (0, 0, 0));
}

#[test]
fn file_names_of_a_generation() {
    assert_eq!(dictionary_file_name(3, 7, "sfx"), "dict-3.7.sfx");
    assert_eq!(dictionary_bundle_id(3), "dict-3.");
    assert!(!dictionary_file_name(31, 7, "sfx").starts_with(&dictionary_bundle_id(3)));
    assert_eq!(pending_file_name("seg", 7, "newsfx"), "seg.7.newsfx");
    assert!(GENERATION_EXTENSIONS.contains(&"sfx"));
    assert_eq!(GROUP_INDEX_EXT, "pidx");
}

#[test]
fn new_texts_read_back() {
    let list = vec![(3u32, "alpha", term_meta(5)), (9, "bé", term_meta(3)), (u32::MAX, "omega", term_meta(5))];
    let bytes = encode_newtexts(&list);
    let back = decode_newtexts(&bytes).unwrap();
    assert_eq!(back.len(), 3);
    assert_eq!((back[2].0, back[2].1.as_str()), (u32::MAX, "omega"));
    assert_eq!(TermTextsReaderV3::open(&bytes).unwrap().ids(), vec![3, 9, u32::MAX]);
    assert_eq!((back[1].0, back[1].1.as_str(), back[1].2), (9, "bé", term_meta(3)));
    assert!(decode_newtexts(b"none of it").is_none());
}

#[test]
fn counters_are_taken_once() {
    let mut counters = Snapshot::default();
    counters.calls = 4;
    counters.mints = 1;
    let taken = take(&mut counters);
    assert_eq!((taken.calls, taken.mints), (4, 1));
    assert_eq!(counters, Snapshot::default());
}
