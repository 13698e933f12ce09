use suffix_fst::block_offsets::{encode, BlockOffsets};
use suffix_fst::collector_v3::TokenMetaV3;
use suffix_fst::dictionary_lookup::fst_key;
use suffix_fst::dictionary_names::{dictionary_bundle_id, dictionary_file_name};
use suffix_fst::dictionary_pending::PendingTexts;
use suffix_fst::gapmap::{GapMapIndex, GapMapReader, GapMapWriter};
use suffix_fst::intern_key::intern_key;
use suffix_fst::newtexts::decode_newtexts;
use suffix_fst::word_stripped::build_word_stripped_pub;

fn token(text: &str, sep: u8, overlap: u8, word: usize, start: bool) -> (String, TokenMetaV3) {
    let meta = TokenMetaV3 {
        own_len: text.len() as u16 - overlap as u16,
        sep_len: sep,
        overlap_len: overlap,
        is_word_start: start,
        word_id: word,
        is_word_stripped: false,
    };
    (text.to_string(), meta)
}

/// The chunks of a word make one entry, which borrows from the next word.
#[test]
fn chunks_of_a_word_are_joined() {
    let (texts, metas): (Vec<String>, Vec<TokenMetaV3>) = [
        token("function", 0, 0, 0, true),
        token("ality ", 1, 0, 0, false),
        token("of", 0, 0, 1, true),
    ]
    .into_iter()
    .unzip();
    let words = build_word_stripped_pub(&texts, &metas, 2);
    assert_eq!(words.len(), 2);
    assert_eq!(words[0].word_content, "functionality");
    assert_eq!(words[0].content_overlap, "of");
    assert_eq!(words[0].num_chunks, 2);
    assert_eq!(words[0].last_sep_len, 1);
    assert_eq!(words[0].first_own_len, 8);
    assert_eq!(words[1].word_content, "of");
    assert_eq!(words[1].content_overlap, "");
    assert!(build_word_stripped_pub(&Vec::new(), &Vec::new(), 2).is_empty());
}

#[test]
fn offsets_in_blocks_read_back() {
    let offsets: Vec<u32> = (0..300u32).map(|i| i * i).collect();
    let bytes = encode(&offsets);
    let (table, used) = BlockOffsets::parse(&bytes).unwrap();
    assert_eq!(used, bytes.len());
    assert_eq!(table.len(), 300);
    for (i, &x) in offsets.iter().enumerate() {
        assert_eq!(table.get(i as u32), x);
    }
    assert!(BlockOffsets::parse(&bytes[..3]).is_none());
}

/// A key in lower case behind the byte of its partition; a word's key is its
/// content only.
#[test]
fn keys_are_in_lower_case() {
    assert_eq!(fst_key("ÉTAT", false, 5, 0), [&[0u8][..], "état".as_bytes()].concat());
    assert_eq!(fst_key("MUTEXab", true, 5, 2), b"\x02mutex");
}

#[test]
fn shapes_make_different_keys() {
    let keys = [
        intern_key("init", false, 4, 0, true),
        intern_key("init", false, 4, 0, false),
        intern_key("init", false, 4, 1, true),
        intern_key("init", false, 2, 0, true),
        intern_key("init", true, 4, 0, true),
        intern_key("init", true, 2, 0, true),
    ];
    for i in 0..keys.len() {
        for j in 0..i {
            assert_ne!(keys[i], keys[j]);
        }
    }
    assert_eq!(intern_key("init", true, 4, 0, true), intern_key("init", true, 4, 0, false));
    assert_eq!(intern_key("init", false, 4, 1, true), "init\x004:1:1");
}

#[test]
fn broken_new_texts_do_not_decode() {
    assert!(decode_newtexts(b"nothing").is_none());
}

#[test]
fn bundles_hold_one_generation() {
    let name = dictionary_file_name(7, 3, "sfx");
    assert!(name.starts_with(&dictionary_bundle_id(7)));
    assert!(!dictionary_file_name(70, 3, "sfx").starts_with(&dictionary_bundle_id(7)));
    assert_ne!(name, dictionary_file_name(7, 4, "sfx"));
}

#[test]
fn pending_texts_leave_with_their_epoch() {
    let mut p = PendingTexts::new();
    p.insert(1, 0, b"alpha", 10);
    p.insert(1, 1, b"alpha", 20);
    p.insert(2, 0, b"beta", 11);
    assert_eq!(p.get(0, b"alpha"), Some(10));
    assert_eq!(p.get(1, b"alpha"), Some(20));
    assert_eq!(p.len(), 3);
    p.forget_before(2);
    assert_eq!(p.get(0, b"alpha"), None);
    assert_eq!(p.get(0, b"beta"), Some(11));
    assert_eq!(p.len(), 1);
}

/// Documents of two segments, in the order of the merge.
#[test]
fn gaps_move_with_their_documents() {
    let mut a = GapMapWriter::new();
    a.add_doc(&[b"", b" ", b""]);
    let a = a.serialize();
    let mut b = GapMapWriter::new();
    b.add_doc(&[b"(", b", ", b")"]);
    b.add_doc(&[b"x", b"y"]);
    let b = b.serialize();
    let out = GapMapIndex.merge(&[Some(&a), Some(&b), None], &[(1, 1), (2, 0), (0, 0), (1, 0)]);
    let map = GapMapReader::open(&out);
    assert_eq!(map.num_docs(), 4);
    assert_eq!(map.read_all_gaps(0), vec![b"x", b"y"]);
    assert_eq!(map.read_separator(2, 0, 1), Some(&b" "[..]));
    assert_eq!(map.read_gap(3, 1), b", ");
    assert!(map.validate().is_empty());
}

/// A document whose data is cut off is reported.
#[test]
fn cut_gaps_are_reported() {
    let mut w = GapMapWriter::new();
    w.add_doc_raw(&[1, 0]);
    w.add_doc_raw(&[2, 0, 0]);
    w.add_doc_raw(&[2, 0, 9]);
    w.add_doc_raw(&[3, 0, 1, 0]);
    let bytes = w.serialize();
    let map = GapMapReader::open(&bytes);
    let errors: Vec<String> = map.validate().iter().map(|e| e.to_string()).collect();
    assert_eq!(errors[0], "gapmap doc_0: doc_data too short: 2 bytes (min 3)");
    assert_eq!(errors[1], "gapmap doc_1: num_values=0 but num_tokens=2");
    assert!(errors[2].starts_with("gapmap doc_2: value_offsets table overflows: cursor=3, table_size="));
    assert_eq!(errors[3], "gapmap doc_3: too few gaps: found 1, tokens=3, values=1, expected>=3");
    let mut out = Vec::new();
    w.write_to(&mut out);
    assert_eq!(out, bytes);
}
