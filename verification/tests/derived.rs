use suffix_fst::collector_v3::{Chunk, ChunkMeta, SfxCollectorV3};
use suffix_fst::derived::{rebuild, DerivedFiles};
use suffix_fst::index_registry::build_derived_indexes_v3;
use suffix_fst::sfxpost_v2::{SfxPostReaderV2, SfxPostWriterV2};
use suffix_fst::word_pos_map::WordPosMapReader;

/// A value in chunks: words of letters and digits with the separators behind
/// them, words of more than eight bytes divided evenly.
fn chunks(value: &str) -> Vec<Chunk> {
    let mut out = Vec::new();
    let mut word_id = 0usize;
    let mut rest = value;
    while !rest.is_empty() {
        let content = rest.find(|c: char| !c.is_alphanumeric()).unwrap_or(rest.len());
        let seps = rest[content..].find(|c: char| c.is_alphanumeric()).unwrap_or(rest.len() - content);
        let word = &rest[..content + seps];
        rest = &rest[content + seps..];
        let parts = word.len().div_ceil(8);
        let mut from = 0;
        for k in 0..parts {
            let mut to = (k + 1) * word.len() / parts;
            while !word.is_char_boundary(to) {
                to -= 1;
            }
            let content_len = content.clamp(from, to) - from;
            out.push(Chunk {
                text: word[from..to].to_string(),
                meta: ChunkMeta {
                    content_len,
                    sep_len: to - from - content_len,
                    is_word_start: k == 0,
                    word_id,
                },
            });
            from = to;
        }
        word_id += 1;
    }
    out
}

#[test]
fn rebuild_matches_the_collector() {
    let long_cjk = format!("{}解。\n\n.. toctree::\n", "可以理".repeat(30));
    let docs: Vec<Vec<&str>> = vec![
        vec!["mutex_lock(&dev->lock);\n\treturn -ENOMEM;"],
        vec!["hello_world", "foo_bar baz", "hello_world again"],
        vec![],
        vec!["", "spin lock init; spin_lock_init(x)"],
        vec![long_cjk.as_str(), "après le mot long, déjà vu"],
        vec!["a________b   c  d", "rag3weaver rag3_weaver rag3-weaver"],
    ];
    let mut c = SfxCollectorV3::new();
    for values in &docs {
        c.begin_doc();
        for v in values {
            c.add_value(&chunks(v));
        }
        c.end_doc();
    }
    let data = c.into_data();
    let mut pw = SfxPostWriterV2::positions_only(data.num_content_ords);
    for (ord, postings) in data.content_postings.iter().enumerate() {
        for &(d, ti) in postings {
            pw.add_position(ord as u32, d, ti);
        }
    }
    let sfxpost = pw.finish();
    let derived = build_derived_indexes_v3(&data.tokens, Some(&sfxpost), Some(&data.own_lens), &|_| Vec::new());
    let posmap = derived.iter().find(|(e, _)| e == "posmap").map(|(_, d)| d.clone()).unwrap_or_default();
    let written = DerivedFiles {
        posmap,
        word_pos_map: data.word_pos_map.clone(),
        sibling_v3: data.sibling_v3.clone(),
    };
    let sp = SfxPostReaderV2::open_slice(&sfxpost).unwrap();
    let own_lens = data.own_lens.clone();
    let rebuilt = rebuild(&sp, Some(&data.word_postings), &|o: u32| own_lens.get(o as usize).copied());
    assert_eq!(&rebuilt.posmap[0..4], b"PMP4");
    assert_eq!(rebuilt.posmap, written.posmap, ".posmap differs");
    assert_eq!(rebuilt.word_pos_map, written.word_pos_map, ".word_pos_map differs");
    assert_eq!(rebuilt.sibling_v3, written.sibling_v3, ".sibling_v3 differs");
    assert!(!rebuilt.sibling_v3.is_empty() && !rebuilt.word_pos_map.is_empty());
}

#[test]
fn rebuild_without_words_has_no_word_map_entries() {
    let mut pw = SfxPostWriterV2::positions_only(2);
    pw.add_position(0, 0, 0);
    pw.add_position(1, 0, 1);
    let sfxpost = pw.finish();
    let sp = SfxPostReaderV2::open_slice(&sfxpost).unwrap();
    let files = rebuild(&sp, None, &|_: u32| Some(3));
    assert_eq!(&files.posmap[0..4], b"PMP4");
    let words = WordPosMapReader::open(&files.word_pos_map).unwrap();
    assert_eq!(words.word_start_at(0, 0), None);
}
