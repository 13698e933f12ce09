use suffix_fst::collector_ids::assign_ids;
use suffix_fst::collector_v3::{Chunk, ChunkMeta, SfxCollectorV3};
use suffix_fst::dictionary::SfxDictionary;
use suffix_fst::dictionary_lookup::ParentEntryV3;

fn chunk(text: &str, sep_len: usize, word_id: usize) -> Chunk {
    Chunk {
        text: text.to_string(),
        meta: ChunkMeta { content_len: text.len() - sep_len, sep_len, is_word_start: true, word_id },
    }
}

fn nowhere(_: Vec<u8>, _: Vec<u8>) -> Vec<Vec<ParentEntryV3>> {
    Vec::new()
}

fn collect(values: &[&[Chunk]]) -> SfxCollectorV3 {
    let mut c = SfxCollectorV3::new().with_dictionary();
    c.begin_doc();
    for v in values {
        c.add_value(&v.to_vec());
    }
    c.end_doc();
    c
}

/// Tokens get the ids in the order in which they were collected, and a second
/// collector finds them.
#[test]
fn tokens_get_ids_once() {
    let mut dict = SfxDictionary::empty();
    let value = [chunk("spin_", 1, 0), chunk("lock", 0, 1)];
    let mut first = collect(&[&value]);
    assign_ids(&mut first, &mut dict, 5, &nowhere);
    assert!(first.token_without_id().is_none());
    let tokens = first.num_unique_tokens() as u64;
    assert_eq!(dict.next_ids(), vec![(5, tokens)]);
    assert_eq!(dict.pending_len() as u64, tokens);
    let data = first.into_data();
    let globals = data.globals.unwrap();
    assert_eq!(globals, (0..tokens as u32).collect::<Vec<u32>>());
    assert_eq!(data.newtexts.len() as u64, tokens);

    let mut again = collect(&[&value]);
    assign_ids(&mut again, &mut dict, 5, &nowhere);
    assert_eq!(dict.next_ids(), vec![(5, tokens)]);
    let data = again.into_data();
    assert_eq!(data.globals.unwrap(), globals);
    assert!(data.newtexts.is_empty());
}

/// Only tokens that have no id are looked up.
#[test]
fn given_ids_stay() {
    let mut dict = SfxDictionary::empty();
    let mut c = collect(&[&[chunk("alpha", 0, 0)]]);
    c.assign_id(40, false);
    assign_ids(&mut c, &mut dict, 1, &nowhere);
    let data = c.into_data();
    let globals = data.globals.unwrap();
    assert!(globals.contains(&40) && globals.contains(&0));
    assert_eq!(dict.next_ids(), vec![(1, data.num_content_ords as u64 - 1)]);
}
