use std::collections::{BTreeMap, BTreeSet, HashMap};

use suffix_fst::file::{ParentEntry, SfxFileReader, SfxFileWriter};
use suffix_fst::gapmap::GapMapWriter;
use suffix_fst::suffix_terms::SuffixTerms;

/// The file of documents, and their tokens.
struct Index {
    bytes: Vec<u8>,
    tokens: Vec<String>,
}

/// Document, first byte and end of each occurrence, by ordinal.
type Postings = HashMap<u64, Vec<(u32, usize, usize)>>;

/// The suffix terms of tokens: suffixes of at least three bytes.
fn suffix_terms(tokens: &[String]) -> SuffixTerms<ParentEntry> {
    let mut map: BTreeMap<Vec<u8>, Vec<ParentEntry>> = BTreeMap::new();
    for (ord, t) in tokens.iter().enumerate() {
        for si in 0..t.len() {
            if !t.is_char_boundary(si) || t.len() - si < 3 {
                continue;
            }
            let mut key = vec![(si > 0) as u8];
            key.extend_from_slice(&t.as_bytes()[si..]);
            map.entry(key).or_default().push(ParentEntry {
                raw_ordinal: ord as u64,
                si: si as u16,
                token_len: t.len() as u16,
            });
        }
    }
    SuffixTerms::new(map.into_iter().collect()).unwrap()
}

/// The index of documents, each a text and its tokens with their bytes.
fn build_index(docs: &[(&str, &[(&str, usize, usize)])]) -> (Index, Postings) {
    let mut gaps = GapMapWriter::new();
    let mut all: BTreeSet<String> = BTreeSet::new();
    for (text, tokens) in docs {
        let mut own: Vec<&[u8]> = Vec::new();
        let mut end = 0;
        for (t, from, to) in tokens.iter() {
            own.push(&text.as_bytes()[end..*from]);
            all.insert(t.to_string());
            end = *to;
        }
        own.push(&text.as_bytes()[end..]);
        gaps.add_doc(&own);
    }
    let tokens: Vec<String> = all.into_iter().collect();
    let mut postings: Postings = HashMap::new();
    for (d, (_, list)) in docs.iter().enumerate() {
        for (t, from, to) in list.iter() {
            let ord = tokens.iter().position(|x| x == t).unwrap() as u64;
            postings.entry(ord).or_default().push((d as u32, *from, *to));
        }
    }
    let bytes = SfxFileWriter::new(
        b"fst".to_vec(),
        b"parents".to_vec(),
        gaps.serialize(),
        docs.len() as u32,
        tokens.len() as u32,
    )
    .to_bytes();
    (Index { bytes, tokens }, postings)
}

/// Where a query occurs in tokens: document, first byte and end.
fn search(index: &Index, postings: &Postings, query: &str) -> Vec<(u32, usize, usize)> {
    let reader =
        SfxFileReader::open(&index.bytes).unwrap().with_terms(Ok(suffix_terms(&index.tokens))).unwrap();
    let lower = query.to_lowercase();
    let mut found = BTreeSet::new();
    for (_, parents) in reader.prefix_walk(&lower) {
        for p in parents {
            for &(doc, from, _) in &postings[&p.raw_ordinal] {
                let at = from + p.si as usize;
                found.insert((doc, at, at + lower.len()));
            }
        }
    }
    found.into_iter().collect()
}

#[test]
fn test_all_occurrences_same_token_repeated() {
    let (sfx, postings) = build_index(&[
        ("rag3db and rag3db", &[("rag3db", 0, 6), ("and", 7, 10), ("rag3db", 11, 17)]),
        ("also rag3db here rag3db", &[("also", 0, 4), ("rag3db", 5, 11), ("here", 12, 16), ("rag3db", 17, 23)]),
    ]);

    let results = search(&sfx, &postings, "rag3db");
    assert_eq!(results.len(), 4);
    assert_eq!(results[0], (0, 0, 6));
    assert_eq!(results[1], (0, 11, 17));
    assert_eq!(results[2], (1, 5, 11));
    assert_eq!(results[3], (1, 17, 23));
}

#[test]
fn test_all_occurrences_substring() {
    let (sfx, postings) = build_index(&[
        ("rag3db x rag3db", &[("rag3db", 0, 6), ("x", 7, 8), ("rag3db", 9, 15)]),
    ]);

    let results = search(&sfx, &postings, "g3d");
    assert_eq!(results.len(), 2);
    assert_eq!(results[0], (0, 2, 5));
    assert_eq!(results[1], (0, 11, 14));
}

#[test]
fn test_suffix_overlap_port_import_export() {
    let (sfx, postings) = build_index(&[
        ("import export port", &[
            ("import", 0, 6), ("export", 7, 13), ("port", 14, 18),
        ]),
    ]);

    let results = search(&sfx, &postings, "port");
    assert_eq!(results.len(), 3);
    assert_eq!(results[0], (0, 2, 6));
    assert_eq!(results[1], (0, 9, 13));
    assert_eq!(results[2], (0, 14, 18));
}

#[test]
fn test_suffix_overlap_core_hardcore() {
    let (sfx, postings) = build_index(&[
        ("core hardcore", &[
            ("core", 0, 4), ("hardcore", 5, 13),
        ]),
    ]);

    let results = search(&sfx, &postings, "core");
    assert_eq!(results.len(), 2);
    assert_eq!(results[0], (0, 0, 4));
    assert_eq!(results[1], (0, 9, 13));

    let (sfx2, postings2) = build_index(&[
        ("unicode", &[("unicode", 0, 7)]),
    ]);
    let results = search(&sfx2, &postings2, "code");
    assert_eq!(results.len(), 1);
    assert_eq!(results[0], (0, 3, 7));
    assert!(search(&sfx2, &postings2, "core").is_empty());
}

#[test]
fn test_prefix_of_suffix() {
    let (sfx, postings) = build_index(&[
        ("framework", &[("framework", 0, 9)]),
    ]);

    let results = search(&sfx, &postings, "frame");
    assert_eq!(results.len(), 1);
    assert_eq!(results[0], (0, 0, 5));
}

#[test]
fn test_prefix_of_mid_suffix() {
    let (sfx, postings) = build_index(&[
        ("framework worker", &[("framework", 0, 9), ("worker", 10, 16)]),
    ]);

    let results = search(&sfx, &postings, "work");
    assert_eq!(results.len(), 2);
    assert_eq!(results[0], (0, 5, 9));
    assert_eq!(results[1], (0, 10, 14));
}

#[test]
fn test_min_suffix_len_3_filters_short() {
    let (sfx, postings) = build_index(&[
        ("rag3db", &[("rag3db", 0, 6)]),
    ]);

    let results = search(&sfx, &postings, "db");
    assert!(results.is_empty());
}

#[test]
fn test_min_suffix_len_3_exact_boundary() {
    let (sfx, postings) = build_index(&[
        ("rag3db", &[("rag3db", 0, 6)]),
    ]);

    let results = search(&sfx, &postings, "3db");
    assert_eq!(results.len(), 1);
    assert_eq!(results[0], (0, 3, 6));
}

#[test]
fn test_no_match() {
    let (sfx, postings) = build_index(&[
        ("hello world", &[("hello", 0, 5), ("world", 6, 11)]),
    ]);

    assert!(search(&sfx, &postings, "xyz").is_empty());
    assert!(search(&sfx, &postings, "helloworld").is_empty());
}

#[test]
fn test_exact_full_token() {
    let (sfx, postings) = build_index(&[
        ("hello", &[("hello", 0, 5)]),
    ]);

    let results = search(&sfx, &postings, "hello");
    assert_eq!(results.len(), 1);
    assert_eq!(results[0], (0, 0, 5));
}

#[test]
fn test_query_longer_than_any_token() {
    let (sfx, postings) = build_index(&[
        ("hi there", &[("hi", 0, 2), ("there", 3, 8)]),
    ]);

    assert!(search(&sfx, &postings, "hithere").is_empty());
}

#[test]
fn test_gapmap_all_separators_correct() {
    let (sfx, _) = build_index(&[
        ("import rag3db from 'rag3db_core';", &[
            ("import", 0, 6), ("rag3db", 7, 13), ("from", 14, 18),
            ("rag3db", 20, 26), ("core", 27, 31),
        ]),
    ]);
    let reader = SfxFileReader::open(&sfx.bytes).unwrap();
    let gm = reader.gapmap();

    assert_eq!(gm.read_gap(0, 0), b"");
    assert_eq!(gm.read_gap(0, 1), b" ");
    assert_eq!(gm.read_gap(0, 2), b" ");
    assert_eq!(gm.read_gap(0, 3), b" '");
    assert_eq!(gm.read_gap(0, 4), b"_");
    assert_eq!(gm.read_gap(0, 5), b"';");
}

#[test]
fn test_gapmap_separator_d0_space_vs_underscore() {
    let (sfx, _) = build_index(&[
        ("foo_bar foo bar", &[
            ("foo", 0, 3), ("bar", 4, 7), ("foo", 8, 11), ("bar", 12, 15),
        ]),
    ]);
    let reader = SfxFileReader::open(&sfx.bytes).unwrap();
    let gm = reader.gapmap();

    assert_eq!(gm.read_separator(0, 0, 1), Some(b"_".as_slice()));
    assert_eq!(gm.read_separator(0, 2, 3), Some(b" ".as_slice()));
    assert_eq!(gm.read_separator(0, 0, 2), None);
    assert_eq!(gm.read_separator(0, 1, 3), None);
}

#[test]
fn test_gapmap_separator_empty() {
    let (sfx, _) = build_index(&[
        ("foo.bar", &[("foo", 0, 3), ("bar", 4, 7)]),
    ]);
    let reader = SfxFileReader::open(&sfx.bytes).unwrap();
    let gm = reader.gapmap();

    assert_eq!(gm.read_separator(0, 0, 1), Some(b".".as_slice()));
}

#[test]
fn test_gapmap_separator_multichar() {
    let (sfx, _) = build_index(&[
        ("foo := bar", &[("foo", 0, 3), ("bar", 7, 10)]),
    ]);
    let reader = SfxFileReader::open(&sfx.bytes).unwrap();
    let gm = reader.gapmap();

    assert_eq!(gm.read_separator(0, 0, 1), Some(b" := ".as_slice()));
}

#[test]
fn test_gapmap_prefix_and_suffix() {
    let (sfx, _) = build_index(&[
        ("  hello  ", &[("hello", 2, 7)]),
    ]);
    let reader = SfxFileReader::open(&sfx.bytes).unwrap();
    let gm = reader.gapmap();

    assert_eq!(gm.read_gap(0, 0), b"  ");
    assert_eq!(gm.read_gap(0, 1), b"  ");
}

#[test]
fn test_multi_value_separators_isolated() {
    let mut gaps = GapMapWriter::new();
    gaps.add_doc_multi(&[vec![b"", b"_", b""], vec![b"", b" ", b""]], &[0, 3]);
    let sfx_bytes = SfxFileWriter::new(b"fst".to_vec(), b"parents".to_vec(), gaps.serialize(), 1, 0).to_bytes();
    let reader = SfxFileReader::open(&sfx_bytes).unwrap();
    let gm = reader.gapmap();

    assert_eq!(gm.read_separator(0, 0, 1), Some(b"_".as_slice()));
    assert_eq!(gm.read_separator(0, 3, 4), Some(b" ".as_slice()));
    assert_eq!(gm.read_separator(0, 1, 3), None);
    assert_eq!(gm.read_separator(0, 1, 2), Some(b"".as_slice()));
}

#[test]
fn test_utf8_accented_characters() {
    let (sfx, postings) = build_index(&[
        ("café résumé", &[("café", 0, 5), ("résumé", 6, 14)]),
    ]);

    let results = search(&sfx, &postings, "afé");
    assert_eq!(results.len(), 1);
    assert_eq!(results[0].0, 0);
    assert_eq!(results[0].1, 1);
    assert_eq!(results[0].2, 5);

    let results = search(&sfx, &postings, "sumé");
    assert_eq!(results.len(), 1);
    assert_eq!(results[0].1, 6 + 3);
}

#[test]
fn test_long_camelcase_identifier() {
    let (sfx, postings) = build_index(&[
        ("getUserProfileByIdAndName", &[
            ("getuserprofilebyidandname", 0, 25),
        ]),
    ]);

    let results = search(&sfx, &postings, "userprofile");
    assert_eq!(results.len(), 1);
    assert_eq!(results[0], (0, 3, 14));

    let results = search(&sfx, &postings, "byidandname");
    assert_eq!(results.len(), 1);
    assert_eq!(results[0], (0, 14, 25));

    let results = search(&sfx, &postings, "profilebyid");
    assert_eq!(results.len(), 1);
    assert_eq!(results[0], (0, 7, 18));

    let results = search(&sfx, &postings, "ProfileById");
    assert_eq!(results.len(), 1);
}

#[test]
fn test_many_docs_exhaustive() {
    let docs: Vec<(&str, Vec<(&str, usize, usize)>)> = (0..20)
        .map(|i| {
            if i % 2 == 0 {
                ("hello world", vec![("hello", 0, 5), ("world", 6, 11)])
            } else {
                ("world hello", vec![("world", 0, 5), ("hello", 6, 11)])
            }
        })
        .collect();

    let docs_refs: Vec<(&str, &[(&str, usize, usize)])> = docs
        .iter()
        .map(|(text, tokens)| (*text, tokens.as_slice()))
        .collect();

    let (sfx, postings) = build_index(&docs_refs);

    let results = search(&sfx, &postings, "hello");
    assert_eq!(results.len(), 20);

    let results = search(&sfx, &postings, "ello");
    assert_eq!(results.len(), 20);

    let results = search(&sfx, &postings, "world");
    assert_eq!(results.len(), 20);

    for (i, r) in results.iter().enumerate() {
        if i % 2 == 0 {
            assert_eq!(r.1, 6);
        } else {
            assert_eq!(r.1, 0);
        }
    }
}

#[test]
fn test_token_equals_suffix_of_another() {
    let (sfx, postings) = build_index(&[
        ("rag3db db", &[("rag3db", 0, 6), ("db", 7, 9)]),
    ]);

    let results = search(&sfx, &postings, "db");
    assert!(results.is_empty());
}

#[test]
fn test_token_equals_suffix_of_another_above_min() {
    let (sfx, postings) = build_index(&[
        ("changelog log", &[("changelog", 0, 9), ("log", 10, 13)]),
    ]);

    let results = search(&sfx, &postings, "log");
    assert_eq!(results.len(), 2);
    assert_eq!(results[0], (0, 6, 9));
    assert_eq!(results[1], (0, 10, 13));
}

#[test]
fn test_no_duplicate_results() {
    let (sfx, postings) = build_index(&[
        ("test", &[("test", 0, 4)]),
    ]);

    let results = search(&sfx, &postings, "test");
    assert_eq!(results.len(), 1);
}
