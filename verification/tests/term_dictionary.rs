use std::collections::BTreeMap;

use levenshtein_automata::{Distance, LevenshteinAutomatonBuilder, DFA, SINK_STATE};
use suffix_fst::file::{ParentEntry, SfxFileReader, SfxFileWriter};
use suffix_fst::gapmap::GapMapWriter;
use suffix_fst::suffix_terms::SuffixTerms;
use suffix_fst::term_dictionary::{Automaton, NotText, SfxTermDictionary, TermTable};

/// A Levenshtein automaton.
struct SfxDfaWrapper(DFA);

impl Automaton for SfxDfaWrapper {
    type State = u32;

    // The first four are for contracts only and never run.
    fn first(&self) -> u32 {
        unreachable!()
    }

    fn accepts_in(&self, _: u32) -> bool {
        unreachable!()
    }

    fn lives_in(&self, _: u32) -> bool {
        unreachable!()
    }

    fn next(&self, _: u32, _: u8) -> u32 {
        unreachable!()
    }

    fn start(&self) -> u32 {
        self.0.initial_state()
    }

    fn is_match(&self, state: &u32) -> bool {
        matches!(self.0.distance(*state), Distance::Exact(_))
    }

    fn can_match(&self, state: &u32) -> bool {
        *state != SINK_STATE
    }

    fn accept(&self, state: &u32, byte: u8) -> u32 {
        self.0.transition(*state, byte)
    }
}

/// The terms of "import rag3db from core" and "rag3db is cool", sorted.
const TERMS: [&str; 6] = ["cool", "core", "from", "import", "is", "rag3db"];

fn term_table(terms: &[&str]) -> TermTable<u32> {
    TermTable {
        terms: terms.iter().map(|t| t.as_bytes().to_vec()).collect(),
        infos: (0..terms.len() as u32).map(|i| 100 + i).collect(),
    }
}

/// The suffix terms of terms in lower case.
fn suffix_terms(terms: &[&str], min: usize) -> SuffixTerms<ParentEntry> {
    let mut map: BTreeMap<Vec<u8>, Vec<ParentEntry>> = BTreeMap::new();
    for (ord, t) in terms.iter().enumerate() {
        let t = t.to_lowercase();
        for si in 0..t.len() {
            if si > 0 && t.len() - si < min {
                continue;
            }
            let mut key = vec![(si > 0) as u8];
            key.extend_from_slice(&t.as_bytes()[si..]);
            map.entry(key).or_default().push(ParentEntry {
                raw_ordinal: ord as u64,
                si: si as u16,
                token_len: t.len() as u16,
            });
        }
    }
    SuffixTerms::new(map.into_iter().collect()).unwrap()
}

fn file(num_terms: u32) -> Vec<u8> {
    let mut gaps = GapMapWriter::new();
    gaps.add_empty_doc();
    SfxFileWriter::new(Vec::new(), Vec::new(), gaps.serialize(), 2, num_terms).to_bytes()
}

#[test]
fn test_sfx_term_dict_get_exact() {
    let bytes = file(6);
    let table = term_table(&TERMS);
    let sfx_reader = SfxFileReader::open(&bytes).unwrap().with_terms(Ok(suffix_terms(&TERMS, 2))).unwrap();
    let sfx_dict = SfxTermDictionary::new(&sfx_reader, &table);

    assert_eq!(sfx_dict.num_terms(), 6);
    // Exact lookup: "import" should return what the table keeps of it
    assert_eq!(sfx_dict.get(b"import"), Ok(Some(103)));
    // "rag3db" should also match
    assert_eq!(sfx_dict.get(b"rag3db"), Ok(Some(105)));
    // Suffix "g3db" should NOT match (SI>0)
    assert_eq!(sfx_dict.get(b"g3db"), Ok(None));
    // Nonexistent term
    assert_eq!(sfx_dict.get(b"nonexistent"), Ok(None));
    assert_eq!(sfx_dict.get(b"\xff"), Err(NotText));
    assert_eq!(sfx_dict.term_info_from_ord(2), 102);
}

#[test]
fn test_sfx_term_dict_range_scan() {
    let bytes = file(6);
    let table = term_table(&TERMS);
    let sfx_reader = SfxFileReader::open(&bytes).unwrap().with_terms(Ok(suffix_terms(&TERMS, 2))).unwrap();
    let sfx_dict = SfxTermDictionary::new(&sfx_reader, &table);

    // Range "im" to "in" should find "import" (SI=0) but not "mport" (SI>0)
    let results = sfx_dict.range_scan(b"im", Some(b"in"));
    assert_eq!(results.len(), 1);
    assert_eq!(results[0].0, "import");

    // All whole tokens, and no suffix.
    let all: Vec<String> = sfx_dict.stream_all().into_iter().map(|(t, _)| t).collect();
    assert_eq!(all, TERMS.to_vec());
    let from: Vec<(String, u64)> = sfx_dict.range_scan_ordinals(b"i", None);
    assert_eq!(from, vec![("import".to_string(), 3), ("is".to_string(), 4), ("rag3db".to_string(), 5)]);
    assert!(sfx_dict.range_scan_ordinals(b"z", Some(b"a")).is_empty());
}

#[test]
fn test_sfx_term_dict_search_automaton() {
    let bytes = file(6);
    let table = term_table(&TERMS);
    let sfx_reader = SfxFileReader::open(&bytes).unwrap().with_terms(Ok(suffix_terms(&TERMS, 2))).unwrap();
    let sfx_dict = SfxTermDictionary::new(&sfx_reader, &table);

    // Fuzzy search "importt" d=1 → should find "import"
    let builder = LevenshteinAutomatonBuilder::new(1, true);
    let automaton = SfxDfaWrapper(builder.build_dfa("importt"));
    let results = sfx_dict.search_automaton(&automaton);

    assert!(results.iter().any(|(k, _)| k == "import"), "fuzzy d=1 should find 'import'");
    // Should NOT contain suffixes like "mport"
    assert!(!results.iter().any(|(k, _)| k == "mport"), "should not contain suffixes");
    assert_eq!(sfx_dict.search_automaton_ordinals(&automaton), vec![("import".to_string(), 3)]);
}

/// Every term of the table is found by `get`.
#[test]
fn test_parity_all_terms_get() {
    let bytes = file(6);
    let table = term_table(&TERMS);
    let sfx_reader = SfxFileReader::open(&bytes).unwrap().with_terms(Ok(suffix_terms(&TERMS, 2))).unwrap();
    let sfx_dict = SfxTermDictionary::new(&sfx_reader, &table);
    for (i, t) in TERMS.iter().enumerate() {
        assert_eq!(sfx_dict.get(t.as_bytes()), Ok(Some(100 + i as u32)), "{t}");
        assert_eq!(sfx_dict.term_ord(t.as_bytes()), Ok(Some(i as u64)), "{t}");
    }
}

/// Terms that differ in case only are told apart.
#[test]
fn test_parity_case_sensitive() {
    let terms = ["HELLO", "WORLD", "hello", "world"];
    let bytes = file(4);
    let table = term_table(&terms);
    let sfx_reader = SfxFileReader::open(&bytes).unwrap().with_terms(Ok(suffix_terms(&terms, 2))).unwrap();
    let sfx_dict = SfxTermDictionary::new(&sfx_reader, &table);

    let ti_upper = sfx_dict.get(b"HELLO").unwrap().expect("HELLO should exist");
    let ti_lower = sfx_dict.get(b"hello").unwrap().expect("hello should exist");
    assert_ne!(ti_upper, ti_lower, "HELLO and hello should have different TermInfos");
    assert_eq!(ti_upper, 100, "HELLO parity");
    assert_eq!(ti_lower, 102, "hello parity");
    assert_eq!(sfx_dict.get(b"Hello"), Ok(None));
    // Without regard to case the first of them.
    assert_eq!(sfx_dict.get_ordinal(b"Hello"), Ok(Some(0)));
    assert_eq!(sfx_dict.get_ordinal(b"ello"), Ok(None));
    assert_eq!(sfx_dict.get_ordinal(b"\xc3"), Err(NotText));
}

/// A walk from a state in the middle of the automaton.
#[test]
fn test_search_continuation_basic() {
    let bytes = file(6);
    let table = term_table(&TERMS);
    let sfx_reader = SfxFileReader::open(&bytes).unwrap().with_terms(Ok(suffix_terms(&TERMS, 2))).unwrap();
    let sfx_dict = SfxTermDictionary::new(&sfx_reader, &table);

    // Build a DFA for "cool" d=0 (exact)
    let builder = LevenshteinAutomatonBuilder::new(0, true);
    let automaton = SfxDfaWrapper(builder.build_dfa("cool"));

    // Walk from start state, SI=0 only → should find "cool"
    let start = automaton.start();
    let results = sfx_dict.search_continuation(&automaton, start, true);
    let accepting: Vec<_> = results.iter().filter(|m| m.is_accepting).collect();
    assert_eq!(accepting.len(), 1, "should find 'cool' as accepting");
    assert_eq!(accepting[0].si, 0);

    // Now simulate continuation: advance DFA through "co" manually,
    // then walk from that state → should find entries starting with "ol"
    let mut state = automaton.start();
    state = automaton.accept(&state, b'c');
    state = automaton.accept(&state, b'o');
    assert!(automaton.can_match(&state), "DFA should be alive after 'co'");
    assert!(!automaton.is_match(&state), "DFA should not accept after 'co'");

    // Walk from mid-state, any SI → should find suffix "ol" (from "cool" SI=2)
    let results = sfx_dict.search_continuation(&automaton, state, false);
    let alive: Vec<_> = results.iter().filter(|m| m.si > 0).collect();
    assert!(!alive.is_empty(), "should find suffixes matching continuation from 'co'");

    // Among them, "ol" with SI=2 should lead to an accepting state
    let accepting: Vec<_> = results.iter().filter(|m| m.is_accepting).collect();
    assert!(!accepting.is_empty(), "should find accepting continuation after 'co'");
}

/// A walk gives what is alive but does not accept.
#[test]
fn test_search_continuation_alive_not_accepting() {
    let bytes = file(6);
    let table = term_table(&TERMS);
    let sfx_reader = SfxFileReader::open(&bytes).unwrap().with_terms(Ok(suffix_terms(&TERMS, 2))).unwrap();
    let sfx_dict = SfxTermDictionary::new(&sfx_reader, &table);

    // DFA for "rag3dbiscool" d=0 — this spans 3 tokens ("rag3db" + "is" + "cool")
    let builder = LevenshteinAutomatonBuilder::new(0, true);
    let automaton = SfxDfaWrapper(builder.build_dfa("rag3dbiscool"));

    let start = automaton.start();
    let results = sfx_dict.search_continuation(&automaton, start, true);

    // "rag3db" should be alive but not accepting (6/12 chars consumed)
    let rag3db_matches: Vec<_> =
        results.iter().filter(|m| table.terms[m.raw_ordinal as usize] == b"rag3db").collect();
    assert!(!rag3db_matches.is_empty(), "rag3db should be found");
    assert!(
        rag3db_matches.iter().any(|m| !m.is_accepting && automaton.can_match(&m.end_state)),
        "rag3db should be alive but not accepting"
    );
}
