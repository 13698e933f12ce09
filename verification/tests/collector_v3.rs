use std::collections::HashMap;

use suffix_fst::collector_v3::{extract_content_prefix, Chunk, ChunkMeta, SfxCollectorV3};

/// A value in chunks: words of letters and digits with the separators behind
/// them, words of more than eight bytes divided evenly.
fn chunks(value: &str) -> Vec<Chunk> {
    let mut out = Vec::new();
    let mut word_id = 0usize;
    let mut rest = value;
    while !rest.is_empty() {
        let content = rest.find(|c: char| !c.is_alphanumeric()).unwrap_or(rest.len());
        let seps = rest[content..].find(|c: char| c.is_alphanumeric()).unwrap_or(rest.len() - content);
        let word = &rest[..content + seps];
        rest = &rest[content + seps..];
        let parts = word.len().div_ceil(8);
        let mut from = 0;
        for k in 0..parts {
            let mut to = (k + 1) * word.len() / parts;
            while !word.is_char_boundary(to) {
                to -= 1;
            }
            let content_len = content.clamp(from, to) - from;
            out.push(Chunk {
                text: word[from..to].to_string(),
                meta: ChunkMeta {
                    content_len,
                    sep_len: to - from - content_len,
                    is_word_start: k == 0,
                    word_id,
                },
            });
            from = to;
        }
        word_id += 1;
    }
    out
}

fn collect(docs: &[&[&str]]) -> SfxCollectorV3 {
    let mut c = SfxCollectorV3::new();
    for values in docs {
        c.begin_doc();
        for v in *values {
            c.add_value(&chunks(v));
        }
        c.end_doc();
    }
    c
}

#[test]
fn test_basic_collection() {
    let c = collect(&[&["mutex_lock"]]);
    assert_eq!(c.num_docs(), 1);
    // "mutex_" (6) + overlap "lo" → "mutex_lo"
    // "lock" (4) no overlap → "lock"
    assert!(c.num_unique_tokens() >= 2);
}

#[test]
fn test_extended_tokens_interned() {
    let c = collect(&[&["mutex_lock"]]);
    // Check that "mutex_lo" (extended) is interned, not "mutex_"
    assert!(c.chunk_ord("mutex_lo").is_some(), "should intern extended token");
    assert!(!c.chunk_ord("mutex_").is_some(), "should NOT intern base token");
    assert!(c.chunk_ord("lock").is_some(), "last token has no overlap");
}

#[test]
fn test_overlap_bytes() {
    let c = collect(&[&["mutex_lock_init"]]);
    // "mutex_" + overlap "lo" → "mutex_lo"
    assert!(c.chunk_ord("mutex_lo").is_some());
    // "lock_" + overlap "in" → "lock_in"
    assert!(c.chunk_ord("lock_in").is_some());
    // "init" → no overlap
    assert!(c.chunk_ord("init").is_some());
}

#[test]
fn test_metadata_preserved() {
    let c = collect(&[&["mutex_lock"]]);
    let ord = c.chunk_ord("mutex_lo").unwrap();
    let meta = c.token_meta(ord);
    assert_eq!(meta.own_len, 6); // "mutex_" = 6 bytes
    assert_eq!(meta.sep_len, 1); // "_"
    assert_eq!(meta.overlap_len, 2); // "lo"
    assert!(meta.is_word_start);
    assert_eq!(meta.word_id, 0);

    let ord = c.chunk_ord("lock").unwrap();
    let meta = c.token_meta(ord);
    assert_eq!(meta.own_len, 4);
    assert_eq!(meta.sep_len, 0);
    assert_eq!(meta.overlap_len, 0);
    assert!(meta.is_word_start);
    assert_eq!(meta.word_id, 1);
}

/// A very long word (a Chinese line, no separator inside, over 264 bytes, so
/// it gets a tail entry) whose trailing separators spill into a chunk of their
/// own: every word posting's `first_position` must be the chunk holding its
/// `byte_from`.
#[test]
fn word_position_when_separators_spill_into_the_next_chunk() {
    let text = format!("{}解。\n\n.. toctree::\n", "可以理".repeat(30));
    let text = text.as_str();
    let chunks = chunks(text);
    let mut c = SfxCollectorV3::new();
    c.begin_doc();
    c.add_value(&chunks);
    c.end_doc();
    let mut offsets = Vec::new();
    let mut off = 0u32;
    for chunk in &chunks {
        offsets.push(off);
        off += chunk.text.len() as u32;
    }
    let data = c.into_data();
    let mut seen = 0;
    for posts in &data.word_postings {
        for p in posts {
            let start = offsets[p.first_position as usize];
            let end = offsets.get(p.first_position as usize + 1).copied().unwrap_or(text.len() as u32);
            assert!(
                start <= p.byte_from && p.byte_from < end,
                "the word's first position must be the chunk its bytes start in: from {}, chunk {} is {start}..{end}",
                p.byte_from,
                p.first_position
            );
            seen += 1;
        }
    }
    assert!(seen >= 3, "two words and a tail");
}

#[test]
fn test_postings_correct() {
    let c = collect(&[&["mutex_lock"]]);
    let ord = c.chunk_ord("mutex_lo").unwrap();
    let postings = c.token_postings(ord);
    assert_eq!(postings.len(), 1);
    assert_eq!(postings[0].0, 0); // doc_id = 0
    assert_eq!(postings[0].1, 0); // ti = 0
    assert_eq!(postings[0].2, 0); // byte_from = 0
    assert_eq!(postings[0].3, 6); // byte_to = 6 ("mutex_")

    let ord = c.chunk_ord("lock").unwrap();
    let postings = c.token_postings(ord);
    assert_eq!(postings[0].1, 1); // ti = 1
    assert_eq!(postings[0].2, 6); // byte_from = 6
    assert_eq!(postings[0].3, 10); // byte_to = 10 ("lock")
}

#[test]
fn collector_v3_test_multi_doc() {
    let c = collect(&[&["mutex_lock"], &["mutex_core"]]);
    assert_eq!(c.num_docs(), 2);
    // "mutex_" followed by "lock" → "mutex_lo"
    // "mutex_" followed by "core" → "mutex_co"
    // These are DIFFERENT extended tokens → different ordinals
    assert!(c.chunk_ord("mutex_lo").is_some());
    assert!(c.chunk_ord("mutex_co").is_some());
}

#[test]
fn test_multi_value() {
    let c = collect(&[&["hello_world", "foo_bar"]]);
    // Value 0: ti=0,1 → value boundary → ti=3,4
    let data = c.into_data();
    // Check postings for "foo_ba" (foo_ + overlap "ba")
    // Its ti should be 3 (after value boundary gap at ti=2)
    let intern_ord = data.token_texts.iter().position(|t| t == "foo_ba").unwrap();
    let content_ord = data.intern_to_final[intern_ord] as usize;
    let postings = &data.content_postings[content_ord];
    assert_eq!(postings[0].1, 3); // ti = 3 (after boundary)
}

#[test]
fn test_into_data_sorted() {
    let c = collect(&[&["zebra_alpha"], &["zebra alphazeb ra"]]);
    let data = c.into_data();
    // `sorted_indices` orders the extended texts for the FST builder, and
    // every final ordinal has a text and a posting list.
    assert_eq!(data.tokens.len(), data.content_postings.len());
    assert_eq!(data.tokens.len(), data.num_content_ords);
    assert!(data.tokens.iter().all(|t| !t.is_empty()));
    for w in data.sorted_indices.windows(2) {
        let (a, b) = (&data.token_texts[w[0] as usize], &data.token_texts[w[1] as usize]);
        assert!(a <= b, "sorted_indices out of order: {a:?} > {b:?}");
    }
}

#[test]
fn test_long_separator() {
    let c = collect(&[&["a________b"]]);
    // "a________" (9 bytes > 8) → split into 2 chunks by equal division
    // "b" → 1 chunk
    assert!(c.num_unique_tokens() >= 2);
}

#[test]
fn test_empty_value() {
    let c = collect(&[&["", "hello"]]);
    assert_eq!(c.num_docs(), 1);
}

/// One word entry per word-stripped ordinal, the first occurrence's, and its
/// shape is the one the ordinal has. A word followed by different separators
/// is one ordinal: the separator is not in the key.
#[test]
fn one_word_entry_per_ordinal_with_the_first_occurrence_shape() {
    let c = collect(&[
        &["value 0x00000000\n\t\tnext"],
        &["value 0x00000000 next"],
        &["value 0x00000000\n\t\tnext"],
    ]);
    let data = c.into_data();
    let mut per_ordinal = HashMap::new();
    for ws in &data.word_stripped {
        assert!(
            per_ordinal.insert(ws.first_intern_ord, ws).is_none(),
            "ordinal {} entered twice",
            ws.first_intern_ord
        );
        let final_ord = data.intern_to_final[ws.first_intern_ord as usize] as usize;
        assert_eq!(
            ws.first_own_len, data.own_lens[final_ord],
            "entry {:?}: own_len differs from the ordinal's meta",
            ws.word_content
        );
        assert_eq!(ws.last_sep_len, data.token_meta[ws.first_intern_ord as usize].sep_len);
    }
    let zeros: Vec<_> = data.word_stripped.iter().filter(|w| w.word_content == "0x00000000").collect();
    assert_eq!(zeros.len(), 1, "one ordinal for the word whatever follows it");
    assert_eq!((zeros[0].first_own_len, zeros[0].last_sep_len), (13, 3), "the first occurrence's separators");
}

#[test]
fn test_same_extended_token_shared() {
    let c = collect(&[&["mutex_lock"], &["mutex_lock"]]);
    // Same text → same extended tokens → shared ordinals
    let ord = c.chunk_ord("mutex_lo").unwrap();
    assert_eq!(c.token_postings(ord).len(), 2); // 2 docs
}

#[test]
fn final_ordinals_put_chunks_before_words() {
    let data = collect(&[&["mutex_lock"]]).into_data();
    let n = data.num_content_ords;
    let mut words = vec![false; n];
    for (t, m) in data.token_meta.iter().enumerate() {
        words[data.intern_to_final[t] as usize] = m.is_word_stripped;
    }
    assert_eq!(data.tokens, vec!["lock", "mutex_lo", "lock", "mutexlo"]);
    assert_eq!(words, vec![false, false, true, true]);
    assert_eq!(data.content_postings[1], vec![(0, 0)]);
    assert_eq!(data.max_word_content_len, Some(5));
}

#[test]
fn without_positions_no_files_are_made() {
    let mut c = SfxCollectorV3::new().without_positions();
    c.begin_doc();
    c.add_value(&chunks("mutex_lock"));
    c.end_doc();
    let data = c.into_data();
    assert!(!data.positions);
    assert!(data.sibling_v3.is_empty() && data.word_pos_map.is_empty());
}

#[test]
fn ids_of_a_dictionary_order_the_tokens() {
    let mut c = SfxCollectorV3::new().with_dictionary();
    c.begin_doc();
    c.add_value(&chunks("mutex_lock"));
    c.end_doc();
    let mut id = 40u64;
    while c.token_without_id().is_some() {
        c.assign_id(id, id % 2 == 0);
        id -= 10;
    }
    let data = c.into_data();
    let globals = data.globals.unwrap();
    assert!(globals.windows(2).all(|w| w[0] < w[1]));
    assert_eq!(globals, vec![10, 20, 30, 40]);
    assert_eq!(data.newtexts.len(), 4);
}

#[test]
fn a_content_prefix_stops_at_the_first_separator() {
    let letters = |c: char| c.is_alphanumeric();
    assert_eq!(extract_content_prefix("ab_cd", &letters), "ab");
    assert_eq!(extract_content_prefix("_cd", &letters), "");
    assert_eq!(extract_content_prefix("é1", &letters), "é1");
}

/// Every token has a final ordinal, no two the same, and its text stands there.
#[test]
fn every_token_has_its_final_ordinal() {
    let data = collect(&[&["alpha_beta gamma", "beta"], &["gamma alphabetical beta"]]).into_data();
    assert_eq!(data.intern_to_final.len(), data.token_texts.len());
    assert_eq!(data.num_content_ords, data.token_texts.len());
    let mut finals = data.intern_to_final.clone();
    finals.sort();
    assert_eq!(finals, (0..data.token_texts.len() as u32).collect::<Vec<_>>());
    for (token, last) in data.intern_to_final.iter().enumerate() {
        assert_eq!(data.tokens[*last as usize], data.token_texts[token]);
    }
}
