use suffix_fst::index_registry::{
    all_indexes, build_derived_indexes, build_derived_indexes_v3, effective_text, or_merge_indexes, MergeStrategy, SfxIndexFile,
};
use suffix_fst::own_lens::OwnLens;
use suffix_fst::posmap::PosMapReader;
use suffix_fst::sepmap::{SepMapReader, SepMapWriter};
use suffix_fst::sfxpost_v2::SfxPostWriterV2;
use suffix_fst::sibling_table::{SiblingTableReader, SiblingTableWriter};
use suffix_fst::termtexts::{TermTextsReader, TermTextsWriter};

/// Stands for a writer of byte maps.
fn joined(tokens: Vec<(u32, String)>) -> Vec<u8> {
    tokens.iter().flat_map(|(o, t)| format!("{o}{t};").into_bytes()).collect()
}

fn names(list: &[&str]) -> Vec<String> {
    list.iter().map(|t| t.to_string()).collect()
}

#[test]
fn every_index_is_registered_once() {
    let all = all_indexes();
    let ids: Vec<&str> = all.iter().map(|i| i.id()).collect();
    assert_eq!(
        ids,
        vec![
            "sfxpost", "gapmap", "sibling", "sepmap", "posmap", "bytemap", "termtexts", "word_pos_map",
            "word_sfxpost", "sibling_v3",
        ]
    );
    for i in &all {
        assert_eq!(i.id(), i.extension());
    }
    assert!(all.iter().any(|i| i.merge_strategy() == MergeStrategy::OrMergeWithRemap));
    let built: Vec<&str> =
        all.iter().filter(|i| i.merge_strategy() == MergeStrategy::EventDriven).map(|i| i.id()).collect();
    assert_eq!(built, vec!["posmap", "bytemap", "termtexts"]);
    let old_only: Vec<&str> = all.iter().filter(|i| !i.written_for(3)).map(|i| i.id()).collect();
    assert_eq!(old_only, vec!["gapmap", "sibling", "sepmap"]);
    let new_only: Vec<&str> = all.iter().filter(|i| !i.written_for(2)).map(|i| i.id()).collect();
    assert_eq!(new_only, vec!["word_pos_map", "word_sfxpost", "sibling_v3"]);
}

#[test]
fn positions_and_texts_are_built_in_one_pass() {
    let mut w = SfxPostWriterV2::new(2);
    w.add_entry(0, 0, 1, 4, 7);
    w.add_entry(1, 0, 0, 0, 3);
    let post = w.finish();
    let out = build_derived_indexes(&names(&["bar", "foo"]), Some(&post), &joined);
    assert_eq!(out[0].0, "posmap");
    let map = PosMapReader::open(&out[0].1).unwrap();
    assert_eq!(map.ordinal_at(0, 0), Some(1));
    assert_eq!(map.ordinal_at(0, 1), Some(0));
    assert_eq!(map.ordinal_at(0, 2), None);
    assert_eq!(out[1].0, "bytemap");
    assert_eq!(out[1].1, b"0bar;1foo;");
    assert_eq!(out[2].0, "termtexts");
    let texts = TermTextsReader::open(&out[2].1).unwrap();
    assert_eq!(texts.text(1), Some("foo"));

    // A byte map without bytes is left out.
    let out = build_derived_indexes(&names(&["bar"]), None, &|_| Vec::new());
    let ids: Vec<&str> = out.iter().map(|o| o.0.as_str()).collect();
    assert_eq!(ids, vec!["posmap", "termtexts"]);
}

/// The byte map of tokens with own lengths is that of the tokens cut to them.
#[test]
fn overlaps_stay_out_of_the_byte_map() {
    let lens: Vec<u16> = vec![3, 2];
    let out = build_derived_indexes_v3(&names(&["fooba", "déjà", "zoo"]), None, Some(&lens), &joined);
    let cut = build_derived_indexes_v3(&names(&["foo", "dé", "zoo"]), None, None, &joined);
    assert_eq!(out.len(), 2);
    assert_eq!(out[1].0, "bytemap");
    assert_eq!(out[1].1, "0foo;1dé;2zoo;".as_bytes());
    assert_eq!(out[1].1, cut[1].1);
    for (name, data) in &out {
        assert!(name != "termtexts" && name != "sibling" && name != "sepmap");
        assert!(!data.is_empty());
    }
}

#[test]
fn own_text_ends_behind_a_character() {
    assert_eq!(effective_text("déjà", None), "déjà");
    assert_eq!(effective_text("déjà", Some(2)), "dé");
    assert_eq!(effective_text("déjà", Some(3)), "dé");
    assert_eq!(effective_text("ab", Some(9)), "ab");
}

#[test]
fn own_lengths_end_with_the_list() {
    let lens: Vec<u16> = vec![4, 9];
    assert_eq!(lens.own_len(1), Some(9));
    assert_eq!(lens.own_len(2), None);
}

/// The links and separators of two segments, under the ordinals that their
/// tokens have in the merged one.
#[test]
fn merged_links_follow_the_texts() {
    let segment = |texts: &[&str], link: (u32, u32), mark: (u32, u8)| {
        let mut t = TermTextsWriter::new();
        for (i, x) in texts.iter().enumerate() {
            t.add(i as u32, x);
        }
        let mut s = SiblingTableWriter::new(texts.len() as u32);
        s.add(link.0, link.1, 0);
        let mut m = SepMapWriter::new();
        m.ensure_capacity(texts.len() as u32);
        m.record_byte(mark.0, mark.1);
        (Some(t.serialize()), Some(s.serialize()), Some(m.serialize()))
    };
    let a = segment(&["bar", "foo"], (0, 1), (0, b'-'));
    let b = segment(&["bar", "zoo"], (1, 0), (0, b' '));
    let texts = vec![a.0, b.0];
    let links = vec![a.1, b.1];
    let seps = vec![a.2, b.2];
    let out = or_merge_indexes(&links, &seps, &texts, &names(&["bar", "foo", "zoo"]));
    assert_eq!(out[0].0, "sibling");
    let table = SiblingTableReader::open(&out[0].1).unwrap();
    assert_eq!(table.siblings(0)[0].next_ordinal, 1);
    assert_eq!(table.siblings(2)[0].next_ordinal, 0);
    assert_eq!(out[1].0, "sepmap");
    let map = SepMapReader::open(&out[1].1).unwrap();
    assert!(map.sep_bytes_in_ranges(0, &[(b'-', b'-')]) || map.sep_bytes_in_ranges(0, &[(b' ', b'-')]));
    assert_eq!(out[2].0, "word_pos_map");
}
