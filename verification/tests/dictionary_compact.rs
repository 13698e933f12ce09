use std::collections::BTreeMap;

use suffix_fst::dictionary_compact::{
    choose_compaction, generation_bytes, merge_sfx, merge_termtexts, remove_leftovers, suffix_tokens,
    texts_can_merge, write_generation, CompactReport, SfxPart, SuffixToken, TextsError, UnionEntry,
};
use suffix_fst::dictionary_names::generation_files;
use suffix_fst::dictionary_generation::{compact_generations, compact_parts, generation_sfx_bytes, FoundPart};
use suffix_fst::dictionary_lookup::ParentEntryV3;
use suffix_fst::file_v3::{SfxFileReaderV3, SfxFileWriterV3};
use suffix_fst::newtexts::decode_newtexts;
use suffix_fst::parents_table::{push_record, read_record};
use suffix_fst::termtexts_v3::TermMetaV3;

#[test]
fn choose_compaction_takes_the_smallest_and_halves_the_count() {
    assert_eq!(choose_compaction(&vec![(1, 900), (2, 20)], 8), None);
    let live: Vec<(u64, u64)> =
        vec![(10, 900), (11, 160), (12, 140), (13, 140), (14, 140), (15, 140), (16, 140), (17, 20), (18, 20)];
    assert_eq!(choose_compaction(&live, 8), Some(vec![12, 13, 14, 15, 17, 18]));
    // Three at most (the integration tests): everything merges into one.
    assert_eq!(choose_compaction(&vec![(1, 5), (2, 5), (3, 5), (4, 5)], 3), Some(vec![1, 2, 3, 4]));
    assert_eq!(choose_compaction(&vec![(1, 5), (2, 5)], 1), Some(vec![1, 2]));
    // Ties break on the generation number: deterministic.
    assert_eq!(choose_compaction(&vec![(3, 5), (1, 5), (2, 5), (4, 5), (5, 5)], 4), Some(vec![1, 2, 3, 4]));
}

fn meta(own_len: u16, sep_len: u8, overlap_len: u8, is_word_start: bool, is_word_stripped: bool) -> TermMetaV3 {
    TermMetaV3 { own_len, sep_len, overlap_len, is_word_start, is_word_stripped }
}

/// Entries spread over three generations with interleaved ids: keys shared
/// across generations, word-stripped entries and chunks with overlaps.
fn synthetic() -> Vec<Vec<(u32, String, TermMetaV3)>> {
    let mut all: Vec<(u32, String, TermMetaV3)> = Vec::new();
    let mut id = 0u32;
    let mut push = |all: &mut Vec<_>, text: &str, m: TermMetaV3| {
        all.push((id, text.to_string(), m));
        id += 1;
    };
    let words = [
        "mutex_", "Mutex_", "MUTEX_", "lock(", "spin_", "sched", "printk", "return", "if (", "kernel_", "Lock(",
        "regist", "er_dev", "ice_",
    ];
    for (i, w) in words.iter().enumerate() {
        let sep = w.bytes().rev().take_while(|b| !b.is_ascii_alphanumeric()).count() as u8;
        push(&mut all, w, meta(w.len() as u16, sep, 0, i % 2 == 0, false));
        let ext = format!("{w}ab");
        push(&mut all, &ext, meta(w.len() as u16, sep, 2, i % 3 == 0, false));
        let ext = format!("{w}xy");
        push(&mut all, &ext, meta(w.len() as u16, sep, 2, true, false));
        if sep > 0 {
            let content = &w[..w.len() - sep as usize];
            push(&mut all, &format!("{content}zz"), meta(w.len() as u16, sep, 2, true, true));
            push(&mut all, content, meta(w.len() as u16, sep, 0, false, true));
        } else {
            push(&mut all, w, meta(w.len() as u16, 0, 0, true, true));
        }
    }
    for i in 0..40u32 {
        let ov = format!("{}{}", (b'a' + (i % 26) as u8) as char, (b'a' + (i / 26) as u8) as char);
        push(&mut all, &format!("x_{ov}"), meta(2, 1, 2, i % 4 == 0, false));
    }
    let mut gens = vec![Vec::new(), Vec::new(), Vec::new()];
    for e in all {
        gens[(e.0 % 3) as usize].push(e);
    }
    gens
}

/// The bytes of a key and its parents, whatever order they come in.
fn toy_record(mut all: Vec<ParentEntryV3>, key: Vec<u8>) -> Vec<u8> {
    all.sort_by_key(|p| (p.raw_ordinal, p.sti));
    let mut r = key;
    for p in all {
        r.extend_from_slice(&(p.raw_ordinal as u32).to_le_bytes());
        r.extend_from_slice(&p.sti.to_le_bytes());
        r.extend_from_slice(&p.own_len.to_le_bytes());
        r.extend_from_slice(&[p.sep_len, p.overlap_len, p.is_word_start as u8]);
    }
    r
}

/// The parents in a record of a key.
fn toy_parents(record: &[u8], key: &[u8]) -> Vec<ParentEntryV3> {
    record[key.len()..]
        .chunks_exact(11)
        .map(|b| ParentEntryV3 {
            raw_ordinal: u32::from_le_bytes([b[0], b[1], b[2], b[3]]) as u64,
            sti: u16::from_le_bytes([b[4], b[5]]),
            own_len: u16::from_le_bytes([b[6], b[7]]),
            sep_len: b[8],
            overlap_len: b[9],
            is_word_start: b[10] != 0,
        })
        .collect()
}

/// The suffixes of tokens: each lower-cased suffix of a token's own text is a
/// key, with where its record starts, and the table of the records.
fn toy_suffixes(tokens: &[SuffixToken]) -> (Vec<(Vec<u8>, u64)>, Vec<u8>) {
    let mut by_key: BTreeMap<Vec<u8>, Vec<ParentEntryV3>> = BTreeMap::new();
    for t in tokens {
        let own = t.text.len().min(t.meta.own_len as usize);
        for sti in 0..own {
            let mut key = vec![if t.is_word_stripped { 2u8 } else { (sti > 0) as u8 }];
            key.extend(t.text.as_bytes()[sti..own].to_ascii_lowercase());
            by_key.entry(key).or_default().push(ParentEntryV3 {
                raw_ordinal: t.ordinal,
                sti: sti as u16,
                own_len: t.meta.own_len,
                sep_len: t.meta.sep_len,
                overlap_len: t.meta.overlap_len,
                is_word_start: t.meta.is_word_start,
            });
        }
    }
    let mut table = Vec::new();
    let mut entries = Vec::new();
    for (key, all) in by_key {
        entries.push((key.clone(), table.len() as u64));
        push_record(&mut table, &toy_record(all, key));
    }
    (entries, table)
}

/// The keys with their values, as bytes.
fn toy_map(entries: &[(Vec<u8>, u64)]) -> Vec<u8> {
    let mut out = Vec::new();
    for (key, value) in entries {
        out.push(key.len() as u8);
        out.extend_from_slice(key);
        out.extend_from_slice(&value.to_le_bytes());
    }
    out
}

/// The suffix file of a generation.
fn toy_sfx(entries: &Vec<(u32, String, TermMetaV3)>) -> Vec<u8> {
    let build = |t: Vec<SuffixToken>| {
        let (keys, table) = toy_suffixes(&t);
        Ok((toy_map(&keys), table))
    };
    generation_sfx_bytes(entries, &build).unwrap()
}

/// What merging generations makes: the suffix file, the texts and the report.
fn toy_merge(gens: &[Vec<(u32, String, TermMetaV3)>], texts: &Vec<Vec<u8>>) -> (Vec<u8>, Vec<u8>, CompactReport) {
    let built: Vec<_> = gens.iter().map(|g| toy_suffixes(&suffix_tokens(g))).collect();
    let parts: Vec<SfxPart> = built.iter().map(|(_, table)| SfxPart { table, current: true }).collect();
    let mut held: BTreeMap<Vec<u8>, Vec<(usize, u64)>> = BTreeMap::new();
    for (p, (keys, _)) in built.iter().enumerate() {
        for (key, at) in keys {
            held.entry(key.clone()).or_default().push((p, *at));
        }
    }
    let union: Vec<UnionEntry> = held.into_iter().map(|(key, held)| UnionEntry { key, held }).collect();
    let shared = union.iter().filter(|e| e.held.len() > 1).count() as u64;
    let decode = |part: usize, value: u64, key: Vec<u8>| {
        toy_parents(read_record(&built[part].1, value as usize).unwrap(), &key)
    };
    let encode = |all: Vec<ParentEntryV3>, key: Vec<u8>| toy_record(all, key);
    let done = compact_parts(&parts, &union, texts, &decode, &encode).ok().unwrap();
    let m = done.suffixes.unwrap();
    assert_eq!(done.report.keys, union.len() as u64);
    assert_eq!(done.report.keys_merged, shared);
    let sfx = SfxFileWriterV3::new(toy_map(&m.entries), m.table).to_bytes();
    (sfx, done.texts.unwrap(), done.report)
}

/// Merged generations are, file by file, one generation of all entries.
#[test]
fn streamed_merge_equals_the_rebuild() {
    let gens = synthetic();
    let mut files = Vec::new();
    for (i, entries) in gens.iter().enumerate() {
        let written = write_generation(i as u64 + 1, 7, toy_sfx(entries), entries);
        assert_eq!(written[0].0, format!("dict-{}.7.sfx", i + 1));
        assert_eq!(written[0].1, toy_sfx(entries));
        assert_eq!(written[1].0, format!("dict-{}.7.termtexts", i + 1));
        files.push(written[1].1.clone());
    }
    assert!(texts_can_merge(&files));
    let (sfx, merged, report) = toy_merge(&gens, &files);
    assert_eq!(report.parts, 3);

    let mut all: Vec<(u32, String, TermMetaV3)> = gens.into_iter().flatten().collect();
    all.sort_by_key(|e| e.0);
    let whole = write_generation(11, 7, toy_sfx(&all), &all);
    assert_eq!(merged, whole[1].1, ".termtexts differ");
    assert_eq!(sfx, whole[0].1, ".sfx differ");
    assert_eq!(report.texts as usize, all.len());
    assert!(report.keys_merged > 0, "the synthetic data shares keys across generations");
    assert_eq!(report.termtexts_bytes as usize, merged.len());
    let (alone, texts_report) = merge_termtexts(&files).unwrap();
    assert_eq!(alone, merged);
    assert_eq!(texts_report.texts, report.texts);
    // Reading back: every id, text and meta.
    let decoded = decode_newtexts(&merged).unwrap();
    assert_eq!(decoded, all);
    assert_eq!(merge_termtexts(&vec![b"no texts".to_vec()]), Err(TextsError::Unreadable));
}

#[test]
fn a_generation_without_the_field_is_skipped() {
    let found = vec![
        FoundPart { sfx: Some(vec![1]), termtexts: Some(vec![11]) },
        FoundPart { sfx: Some(vec![2]), termtexts: None },
        FoundPart { sfx: None, termtexts: Some(vec![13]) },
        FoundPart { sfx: Some(vec![4]), termtexts: Some(vec![14]) },
    ];
    assert_eq!(compact_generations(found), (vec![vec![1], vec![4]], vec![vec![11], vec![14]]));
    // None with it: nothing is written.
    let decode = |_: usize, _: u64, _: Vec<u8>| -> Vec<ParentEntryV3> { panic!("decoded") };
    let encode = |_: Vec<ParentEntryV3>, _: Vec<u8>| -> Vec<u8> { panic!("encoded") };
    let none = compact_parts(&vec![], &vec![], &vec![], &decode, &encode).ok().unwrap();
    assert_eq!(none.report.parts, 0);
    assert!(none.suffixes.is_none() && none.texts.is_none());

    // Two of three generations have the field.
    let gens = synthetic();
    let found: Vec<FoundPart> = gens
        .iter()
        .enumerate()
        .map(|(i, g)| FoundPart {
            sfx: if i < 2 { Some(toy_sfx(g)) } else { None },
            termtexts: if i < 2 { Some(write_generation(1, 7, Vec::new(), g)[1].1.clone()) } else { None },
        })
        .collect();
    let (sfx, texts) = compact_generations(found);
    assert_eq!(sfx, vec![toy_sfx(&gens[0]), toy_sfx(&gens[1])]);
    let (merged, _, report) = toy_merge(&gens[..2], &texts);
    assert_eq!(report.parts, 2);
    let mut two: Vec<_> = gens[0].iter().chain(&gens[1]).cloned().collect();
    two.sort_by_key(|e| e.0);
    assert_eq!(merged, toy_sfx(&two));
}

fn parent(raw_ordinal: u64) -> ParentEntryV3 {
    ParentEntryV3 { raw_ordinal, sti: 0, own_len: 1, sep_len: 0, overlap_len: 0, is_word_start: true }
}

/// A record that one part has is copied, one that several have is written anew
/// from all their parents.
#[test]
fn merged_records_hold_the_parents_of_all_parts() {
    let mut a = Vec::new();
    push_record(&mut a, b"one");
    let mut b = Vec::new();
    push_record(&mut b, b"skip");
    let at = b.len() as u64;
    push_record(&mut b, b"two");
    let parts = vec![SfxPart { table: &a, current: true }, SfxPart { table: &b, current: true }];
    let union = vec![
        UnionEntry { key: b"\0k".to_vec(), held: vec![(0, 0)] },
        UnionEntry { key: b"\0m".to_vec(), held: vec![(0, 0), (1, at)] },
    ];
    let decode = |part: usize, value: u64, _: Vec<u8>| vec![parent(part as u64 * 10 + value)];
    let encode = |all: Vec<ParentEntryV3>, key: Vec<u8>| {
        let mut r = key;
        r.extend(all.iter().map(|p| p.raw_ordinal as u8));
        r
    };
    let m = merge_sfx(&parts, &union, &decode, &encode);
    assert_eq!((m.keys, m.keys_merged), (2, 1));
    assert_eq!(read_record(&m.table, m.entries[0].1 as usize), Some(&b"one"[..]));
    let mut want = b"\0m".to_vec();
    want.extend([0u8, 10 + at as u8]);
    assert_eq!(read_record(&m.table, m.entries[1].1 as usize), Some(&want[..]));

    let gens = synthetic();
    let texts = vec![write_generation(1, 7, Vec::new(), &gens[0])[1].1.clone()];
    let done = compact_parts(&parts, &union, &texts, &decode, &encode).ok().unwrap();
    assert_eq!((done.report.parts, done.report.keys, done.report.keys_merged), (2, 2, 1));
    assert_eq!(done.report.texts as usize, gens[0].len());
    assert_eq!(done.texts.unwrap(), texts[0]);
}

#[test]
fn suffixes_of_a_generation_are_built_from_its_tokens() {
    let entries = vec![
        (4u32, "mutex_lo".to_string(), meta(6, 1, 2, true, false)),
        (5, "mutexlo".to_string(), meta(6, 1, 2, true, true)),
    ];
    let tokens = suffix_tokens(&entries);
    assert_eq!((tokens[0].text, tokens[0].overlap, tokens[0].ordinal), ("mutex_lo", "", 4));
    assert_eq!((tokens[1].text, tokens[1].overlap, tokens[1].ordinal), ("mutex", "lo", 5));
    let bytes = generation_sfx_bytes(&entries, &|t| Ok((vec![t.len() as u8], b"parents".to_vec()))).unwrap();
    let r = SfxFileReaderV3::open(&bytes, &|_: &[u8]| None).unwrap();
    assert_eq!(r.fst_data(), &[2]);
    assert_eq!(generation_sfx_bytes(&entries, &|_| Err("full".to_string())), Err("full".to_string()));
}

#[test]
fn leftovers_are_named_and_sizes_added() {
    let names = remove_leftovers(3, &vec![7, 8]);
    assert_eq!(names.len(), 10);
    assert!(names.contains(&"dict-3.7.pidx".to_string()));
    assert!(names.contains(&"dict-3.7.sfx.fst.tmp".to_string()));
    assert!(names.contains(&"dict-3.8.termtexts".to_string()));
    for name in generation_files(3, &[7, 8]) {
        assert!(names.contains(&name));
    }
    assert_eq!(generation_files(2, &[1]), ["dict-2.1.sfx", "dict-2.1.termtexts", "dict-2.1.pidx"]);
    assert_eq!(generation_bytes(&vec![Some(3), None, Some(4)]), 7);
    assert_eq!(CompactReport::default().parts, 0);
}

/// Parts built from suffixes merge into what building all suffixes at once
/// gives, though the parts come in another order.
#[test]
fn a_merge_is_a_build_of_all_suffixes() {
    let write = |mut all: Vec<ParentEntryV3>, key: Vec<u8>| {
        all.sort_by_key(|p| p.raw_ordinal);
        let mut r = key;
        r.extend(all.iter().map(|p| p.raw_ordinal as u8));
        r
    };
    let build = |suffixes: &[(&str, u64)]| {
        let mut by_key: BTreeMap<Vec<u8>, Vec<ParentEntryV3>> = BTreeMap::new();
        for &(key, ordinal) in suffixes {
            by_key.entry(key.as_bytes().to_vec()).or_default().push(parent(ordinal));
        }
        let mut table = Vec::new();
        let mut entries = Vec::new();
        for (key, all) in by_key {
            entries.push((key.clone(), table.len() as u64));
            push_record(&mut table, &write(all, key));
        }
        (entries, table)
    };
    let given: [&[(&str, u64)]; 3] =
        [&[("lock", 5), ("ock", 5), ("lock", 2)], &[("clock", 1), ("lock", 1), ("ock", 1)], &[("rag", 9)]];
    let built: Vec<_> = given.iter().map(|s| build(s)).collect();
    let parts: Vec<SfxPart> = built.iter().map(|(_, table)| SfxPart { table, current: true }).collect();
    let mut held: BTreeMap<Vec<u8>, Vec<(usize, u64)>> = BTreeMap::new();
    for (p, (entries, _)) in built.iter().enumerate().rev() {
        for (key, at) in entries {
            held.entry(key.clone()).or_default().push((p, *at));
        }
    }
    let union: Vec<UnionEntry> = held.into_iter().map(|(key, held)| UnionEntry { key, held }).collect();
    let decode = |part: usize, value: u64, key: Vec<u8>| {
        let record = read_record(&built[part].1, value as usize).unwrap();
        record[key.len()..].iter().map(|b| parent(*b as u64)).collect()
    };
    let m = merge_sfx(&parts, &union, &decode, &write);

    let mut all: Vec<(&str, u64)> = given.iter().flat_map(|s| s.iter().copied()).collect();
    all.sort_by_key(|s| s.1);
    let (entries, table) = build(&all);
    assert_eq!(m.entries, entries);
    assert_eq!(m.table, table);
    assert_eq!((m.keys, m.keys_merged), (4, 2));
}
