use std::collections::BTreeMap;

use suffix_fst::file::{ParentEntry, ParentRef, SfxError, SfxFileReader, SfxFileWriter};
use suffix_fst::file_postings::SfxPostingsReader;
use suffix_fst::gapmap::GapMapWriter;
use suffix_fst::parents_table::push_record;
use suffix_fst::sibling_table::SiblingTableWriter;
use suffix_fst::suffix_terms::{increment_prefix, SuffixTerms};
use suffix_fst::term_dictionary::Automaton;

/// The suffix terms of tokens, by their position: whole tokens under byte 0,
/// suffixes of at least `min` bytes that start later under byte 1.
fn suffix_terms(tokens: &[&str], min: usize) -> SuffixTerms<ParentEntry> {
    let mut map: BTreeMap<Vec<u8>, Vec<ParentEntry>> = BTreeMap::new();
    for (ord, t) in tokens.iter().enumerate() {
        for si in 0..t.len() {
            if !t.is_char_boundary(si) || (si > 0 && t.len() - si < min) {
                continue;
            }
            let mut key = vec![(si > 0) as u8];
            key.extend_from_slice(&t.as_bytes()[si..]);
            map.entry(key).or_default().push(ParentEntry {
                raw_ordinal: ord as u64,
                si: si as u16,
                token_len: t.len() as u16,
            });
        }
    }
    SuffixTerms::new(map.into_iter().collect()).unwrap()
}

const TOKENS: [&str; 4] = ["import", "rag3db", "from", "core"];

fn build_test_sfx() -> Vec<u8> {
    let mut gapmap_writer = GapMapWriter::new();
    gapmap_writer.add_doc(&[b"", b" ", b" ", b" '", b"_", b"';"]);
    SfxFileWriter::new(b"fst".to_vec(), b"parents".to_vec(), gapmap_writer.serialize(), 1, 4).to_bytes()
}

fn open<'a>(bytes: &'a [u8], tokens: &[&str]) -> SfxFileReader<'a> {
    SfxFileReader::open(bytes).unwrap().with_terms(Ok(suffix_terms(tokens, 3))).unwrap()
}

#[test]
fn test_sfx_roundtrip() {
    let bytes = build_test_sfx();
    let reader = open(&bytes, &TOKENS);

    assert_eq!(reader.num_docs(), 1);

    // Resolve "g3db" → parent "rag3db" (ordinal=1), SI=2
    let parents = reader.resolve_suffix("g3db");
    assert_eq!(parents.len(), 1);
    assert_eq!(parents[0], ParentEntry { raw_ordinal: 1, si: 2, token_len: 6 });

    // Resolve "rag3db" → parent "rag3db" (ordinal=1), SI=0
    let parents = reader.resolve_suffix("rag3db");
    assert_eq!(parents.len(), 1);
    assert_eq!(parents[0], ParentEntry { raw_ordinal: 1, si: 0, token_len: 6 });

    // Resolve nonexistent
    assert!(reader.resolve_suffix("xyz").is_empty());
}

#[test]
fn test_sfx_prefix_walk() {
    let bytes = build_test_sfx();
    let reader = open(&bytes, &TOKENS);

    // Prefix walk "g3d" → should find "g3db"
    let results = reader.prefix_walk("g3d");
    assert_eq!(results.len(), 1);
    assert_eq!(results[0].0, "g3db");
    assert_eq!(results[0].1[0], ParentEntry { raw_ordinal: 1, si: 2, token_len: 6 });

    // Prefix walk "rag" → should find "rag3db"
    let results = reader.prefix_walk("rag");
    assert_eq!(results.len(), 1);
    assert_eq!(results[0].0, "rag3db");

    // Prefix walk "or" → should find "ore" (suffix of "core") and "ort" (suffix of "import")
    let results = reader.prefix_walk("or");
    assert_eq!(results.len(), 2);
    let terms: Vec<&str> = results.iter().map(|(t, _)| t.as_str()).collect();
    assert!(terms.contains(&"ore"));
    assert!(terms.contains(&"ort"));
}

#[test]
fn test_sfx_gapmap_access() {
    let bytes = build_test_sfx();
    let reader = open(&bytes, &TOKENS);

    assert_eq!(reader.gapmap().read_gap(0, 0), b"");
    assert_eq!(reader.gapmap().read_gap(0, 1), b" ");
    assert_eq!(reader.gapmap().read_gap(0, 4), b"_");
    assert_eq!(reader.gapmap().read_gap(0, 5), b"';");
}

#[test]
fn test_sfx_invalid_magic() {
    let bytes = vec![0u8; 100];
    assert!(SfxFileReader::open(&bytes).is_err());
}

#[test]
fn test_sfx_multi_parent() {
    let mut gapmap_writer = GapMapWriter::new();
    gapmap_writer.add_empty_doc();
    let file_writer = SfxFileWriter::new(Vec::new(), Vec::new(), gapmap_writer.serialize(), 1, 2);
    let bytes = file_writer.to_bytes();
    let reader = open(&bytes, &["core", "hardcore"]);

    // "core" should have 2 parents
    let parents = reader.resolve_suffix("core");
    assert_eq!(parents.len(), 2);
    assert!(parents.contains(&ParentEntry { raw_ordinal: 0, si: 0, token_len: 4 }));
    assert!(parents.contains(&ParentEntry { raw_ordinal: 1, si: 4, token_len: 8 }));

    // Prefix walk "cor" → finds "core" with 2 parents
    let results = reader.prefix_walk("cor");
    assert_eq!(results.len(), 1);
    assert_eq!(results[0].0, "core");
    assert_eq!(results[0].1.len(), 2);
}

#[test]
fn test_falling_walk_cross_token() {
    let bytes = build_test_sfx();
    let reader = open(&bytes, &TOKENS);

    // "rag3db" is 6 chars. Query "rag3dbfr" crosses "rag3db"|"from" boundary.
    let candidates = reader.falling_walk("rag3dbfr");
    assert!(!candidates.is_empty(), "should find cross-token split for 'rag3dbfr'");

    let best = &candidates[0];
    assert_eq!(best.prefix_len, 6, "should split after 'rag3db' (6 bytes)");
    assert_eq!(best.parent.raw_ordinal, 1, "should be ordinal 1 (rag3db)");
    assert_eq!(best.parent.si, 0);
    assert_eq!(best.parent.token_len, 6);
}

#[test]
fn test_falling_walk_suffix_cross_token() {
    let bytes = build_test_sfx();
    let reader = open(&bytes, &TOKENS);

    // "3dbfr" → "3db" is a suffix of "rag3db" at SI=3.
    let candidates = reader.falling_walk("3dbfr");
    assert!(!candidates.is_empty(), "should find cross-token split for '3dbfr'");

    let found = candidates.iter().find(|c| c.prefix_len == 3);
    assert!(found.is_some(), "should have split at prefix_len=3 ('3db')");
    let c = found.unwrap();
    assert_eq!(c.parent.si, 3);
    assert_eq!(c.parent.token_len, 6);
}

#[test]
fn test_falling_walk_no_cross_token() {
    let bytes = build_test_sfx();
    let reader = open(&bytes, &TOKENS);

    let candidates = reader.falling_walk("importx");
    assert!(!candidates.is_empty(), "should find split for 'importx'");
    assert_eq!(candidates[0].prefix_len, 6);
}

#[test]
fn test_falling_walk_nonexistent() {
    let bytes = build_test_sfx();
    let reader = open(&bytes, &TOKENS);

    // "zzzzz" doesn't match any suffix
    let candidates = reader.falling_walk("zzzzz");
    assert!(candidates.is_empty());
}

#[test]
fn a_written_file_has_its_sections() {
    let mut siblings = SiblingTableWriter::new(2);
    siblings.add(0, 1, 0);
    let mut gaps = GapMapWriter::new();
    gaps.add_empty_doc();
    let w = SfxFileWriter::new(b"FFF".to_vec(), b"PP".to_vec(), gaps.serialize(), 7, 9)
        .with_sibling_data(siblings.serialize());
    let bytes = w.to_bytes();
    assert_eq!(&bytes[..5], b"SFX1\x01");
    assert_eq!(&bytes[53..58], b"FFFPP");
    let r = SfxFileReader::open(&bytes).unwrap();
    assert_eq!((r.num_docs(), r.num_suffix_terms()), (7, 9));
    assert_eq!(r.fst_data(), b"FFF");
    assert_eq!(r.parent_list_data(), b"PP");
    assert_eq!(r.sibling_table().unwrap().contiguous_siblings(0), vec![1]);
    assert_eq!(r.gapmap().num_docs(), 1);
    assert_eq!(r.fst().len(), 0);
    let mut appended = vec![1u8];
    w.write_to(&mut appended);
    assert_eq!(&appended[1..], &bytes[..]);
    // Without a sibling table the GapMap follows the parent lists.
    let plain = build_test_sfx();
    assert!(SfxFileReader::open(&plain).unwrap().sibling_table().is_none());
}

#[test]
fn errors_have_their_messages() {
    let e = SfxFileReader::open(b"SFX1").err().unwrap();
    assert!(matches!(e, SfxError::InvalidMagic));
    assert_eq!(e.to_string(), "invalid .sfx magic bytes");
    assert_eq!(SfxError::UnsupportedVersion(12).to_string(), "unsupported .sfx version: 12");
    let bytes = build_test_sfx();
    let e = SfxFileReader::open(&bytes).unwrap().with_terms(Err("bad node".to_string())).err().unwrap();
    assert_eq!(e.to_string(), "FST error: bad node");
}

#[test]
fn a_reference_leads_to_its_parents() {
    let one = ParentEntry { raw_ordinal: 3, si: 1, token_len: 9 };
    let two = ParentEntry { raw_ordinal: 4, si: 0, token_len: 4 };
    let mut table = Vec::new();
    push_record(&mut table, b"other");
    let offset = table.len() as u64;
    push_record(&mut table, b"12");
    let mut gaps = GapMapWriter::new();
    gaps.add_empty_doc();
    let bytes = SfxFileWriter::new(Vec::new(), table, gaps.serialize(), 1, 1).to_bytes();
    let r = SfxFileReader::open(&bytes).unwrap();
    let decode = |record: &[u8]| {
        assert_eq!(record, b"12");
        vec![one, two]
    };
    assert_eq!(r.decode_parents(ParentRef::Single(one), &decode), vec![one]);
    assert_eq!(r.decode_parents(ParentRef::Multi { offset }, &decode), vec![one, two]);
}

#[test]
fn whole_tokens_only_from_their_start() {
    let bytes = build_test_sfx();
    let r = open(&bytes, &TOKENS);
    assert_eq!(r.resolve_suffix_si0("core").len(), 1);
    assert!(r.resolve_suffix_si0("ore").is_empty());
    let terms: Vec<String> = r.prefix_walk_si0("").into_iter().map(|(t, _)| t).collect();
    assert_eq!(terms, vec!["core", "from", "import", "rag3db"]);
}

#[test]
fn fuzzy_walks_allow_edits_within_a_partition() {
    let bytes = build_test_sfx();
    let r = open(&bytes, &TOKENS);
    let terms = |v: Vec<(String, Vec<ParentEntry>)>| v.into_iter().map(|(t, _)| t).collect::<Vec<_>>();
    assert_eq!(terms(r.fuzzy_walk_si0("rag4db", 1)), vec!["rag3db"]);
    assert_eq!(terms(r.fuzzy_walk_si0("rag4db", 0)), Vec::<String>::new());
    // A transposition is one edit.
    assert_eq!(terms(r.fuzzy_walk_si0("ipmort", 1)), vec!["import"]);
    // Suffixes come too, but not among whole tokens.
    assert_eq!(terms(r.fuzzy_walk("mpurt", 1)), vec!["mport"]);
    assert!(r.fuzzy_walk_si0("mpurt", 1).iter().all(|(t, _)| t != "mport"));
    // Each term once, in order, with the parents of both partitions.
    let both = open(&bytes, &["core", "hardcore"]);
    let found = both.fuzzy_walk("cure", 1);
    assert_eq!(found.len(), 1);
    assert_eq!(found[0].1.len(), 2);
}

/// An automaton that reads a query with at most one byte replaced; a state is
/// how many bytes it has read, and how many of them differ.
struct OneReplaced(Vec<u8>);

impl Automaton for OneReplaced {
    type State = (usize, u8);

    // The first four are for contracts only and never run.
    fn first(&self) -> (usize, u8) {
        unreachable!()
    }

    fn accepts_in(&self, _: (usize, u8)) -> bool {
        unreachable!()
    }

    fn lives_in(&self, _: (usize, u8)) -> bool {
        unreachable!()
    }

    fn next(&self, _: (usize, u8), _: u8) -> (usize, u8) {
        unreachable!()
    }

    fn start(&self) -> (usize, u8) {
        (0, 0)
    }

    fn is_match(&self, state: &(usize, u8)) -> bool {
        state.0 == self.0.len() && state.1 <= 1
    }

    fn can_match(&self, state: &(usize, u8)) -> bool {
        state.0 < self.0.len() && state.1 <= 1
    }

    fn accept(&self, state: &(usize, u8), byte: u8) -> (usize, u8) {
        (state.0 + 1, state.1 + (self.0.get(state.0) != Some(&byte)) as u8)
    }
}

fn one_replaced(query: &str, distance: u8) -> Option<OneReplaced> {
    assert_eq!(distance, 1);
    if query.len() > 60 {
        None
    } else {
        Some(OneReplaced(query.as_bytes().to_vec()))
    }
}

fn read_so_far(_: &OneReplaced, state: (usize, u8)) -> usize {
    if state.1 <= 1 {
        state.0
    } else {
        0
    }
}

#[test]
fn fuzzy_falling_walk_sorts_and_drops_repeats() {
    let bytes = build_test_sfx();
    let r = open(&bytes, &["core", "score", "cure", "cora", "cu"]);
    let found = r.fuzzy_falling_walk("curex", 1, &one_replaced, &read_so_far);
    let got: Vec<(usize, u64)> = found.iter().map(|c| (c.prefix_len, c.parent.raw_ordinal)).collect();
    // Of two terms that part, the walk takes the one with the greater byte
    // first; whole tokens come before later suffixes.
    assert_eq!(got, vec![(4, 2), (4, 0), (4, 1), (2, 4)]);
    assert!(r.fuzzy_falling_walk(&"x".repeat(61), 1, &one_replaced, &read_so_far).is_empty());
    // Without edits the walk is the exact one.
    let exact = r.fuzzy_falling_walk("corex", 0, &one_replaced, &read_so_far);
    assert_eq!(exact, r.falling_walk("corex"));
    assert!(!exact.is_empty());

    let p = ParentEntry { raw_ordinal: 7, si: 0, token_len: 4 };
    let terms = SuffixTerms::new(vec![(b"\0core".to_vec(), vec![p, p])]).unwrap();
    let r = SfxFileReader::open(&bytes).unwrap().with_terms(Ok(terms)).unwrap();
    assert_eq!(r.fuzzy_falling_walk("cores", 1, &one_replaced, &read_so_far).len(), 1);
    assert_eq!(r.falling_walk("cores").len(), 2);
}

#[test]
fn splits_come_longest_start_first() {
    let bytes = build_test_sfx();
    let r = open(&bytes, &["core", "corexy", "hardcore"]);
    let lens: Vec<usize> = r.falling_walk("corexyz").iter().map(|c| c.prefix_len).collect();
    assert_eq!(lens, vec![6, 4, 4]);
}

#[test]
fn prefixes_bound_the_keys_that_start_with_them() {
    assert_eq!(increment_prefix(b"ab"), Some(b"ac".to_vec()));
    assert_eq!(increment_prefix(b"a\xff\xff"), Some(b"b".to_vec()));
    assert_eq!(increment_prefix(b"\xff\xff"), None);
    assert_eq!(increment_prefix(b""), None);
    let t: SuffixTerms<u8> = SuffixTerms::new(vec![
        (b"a".to_vec(), vec![]),
        (b"ab".to_vec(), vec![]),
        (b"ab\xff".to_vec(), vec![]),
        (b"ac".to_vec(), vec![]),
    ])
    .unwrap();
    assert_eq!(t.prefix_range(b"ab"), (1, 3));
    assert_eq!(t.prefix_range(b"zz"), (4, 4));
    assert!(SuffixTerms::new(vec![(b"b".to_vec(), vec![0u8]), (b"a".to_vec(), vec![])]).is_none());
    assert!(SuffixTerms::new(vec![(Vec::new(), vec![0u8])]).is_none());
}

#[test]
fn first_postings_layout_reads() {
    let mut data = 2u32.to_le_bytes().to_vec();
    let entries = [[1u8, 2, 3, 4], [1, 5, 6, 7], [9, 0, 0, 1]];
    for off in [0u32, 12, 12] {
        data.extend_from_slice(&off.to_le_bytes());
    }
    for e in &entries {
        data.extend_from_slice(e);
    }
    let r = SfxPostingsReader::open(&data).unwrap();
    assert_eq!(r.num_terms(), 2);
    let e = r.entries(0);
    assert_eq!(e.len(), 3);
    assert_eq!((e[1].doc_id, e[1].token_index, e[1].byte_from, e[1].byte_to), (1, 5, 6, 7));
    assert_eq!(r.doc_freq(0), 2);
    assert!(r.entries(1).is_empty());
    assert!(r.entries(2).is_empty());
    assert!(SfxPostingsReader::open(&data[..10]).is_err());
    // A number of two bytes, and an entry that is cut short.
    let mut wide = 1u32.to_le_bytes().to_vec();
    wide.extend_from_slice(&0u32.to_le_bytes());
    wide.extend_from_slice(&7u32.to_le_bytes());
    wide.extend_from_slice(&[0x81, 0x01, 2, 3, 4, 5, 6]);
    let r = SfxPostingsReader::open(&wide).unwrap();
    let e = r.entries(0);
    assert_eq!(e.len(), 1);
    assert_eq!(e[0].doc_id, 129);
}

#[test]
fn every_document_counts_once() {
    let bytes = [1, 0, 0, 0, 0, 0, 0, 0, 8, 0, 0, 0, 0xFF, 0xFF, 0xFF, 0xFF, 0x0F, 0, 0, 1];
    let r = SfxPostingsReader::open(&bytes).unwrap();
    assert_eq!(r.entries(0)[0].doc_id, u32::MAX);
    assert_eq!(r.doc_freq(0), 1);
    let bytes = [1, 0, 0, 0, 0, 0, 0, 0, 12, 0, 0, 0, 2, 0, 0, 1, 2, 1, 2, 3, 5, 0, 0, 1];
    assert_eq!(SfxPostingsReader::open(&bytes).unwrap().doc_freq(0), 2);
}

#[test]
fn splits_are_the_suffixes_that_resolve_and_reach_an_end() {
    let bytes = build_test_sfx();
    let r = open(&bytes, &TOKENS);
    for query in ["rag3dbfr", "3dbfr", "portfrom", "ore", "zzz", "b"] {
        let found = r.falling_walk(query);
        let mut want = Vec::new();
        for n in (1..=query.len()).rev() {
            for p in r.resolve_suffix(&query[..n]) {
                if p.si as usize + n == p.token_len as usize {
                    want.push((n, p));
                }
            }
        }
        let got: Vec<(usize, ParentEntry)> = found.iter().map(|c| (c.prefix_len, c.parent)).collect();
        assert_eq!(got, want, "{query}");
    }
}
