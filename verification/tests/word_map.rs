use suffix_fst::word_map::{ChunkWordEntry, ChunkWordMapReader, ChunkWordMapWriter, NextWordMapReader, NextWordMapWriter, verify_chain_adjacency};

#[test]
fn test_chunk_word_map_roundtrip() {
    let mut writer = ChunkWordMapWriter::new(3);
    writer.add(0, 10, 0, 2); // ord 0 = chunk 0/2 of word 10
    writer.add(0, 20, 1, 3); // ord 0 = chunk 1/3 of word 20
    writer.add(1, 10, 1, 2); // ord 1 = chunk 1/2 of word 10
    writer.add(2, 30, 0, 1); // ord 2 = chunk 0/1 of word 30

    let data = writer.serialize();
    let reader = ChunkWordMapReader::open(&data).unwrap();

    let e0 = reader.lookup(0);
    assert_eq!(e0.len(), 2);
    assert_eq!(e0[0], ChunkWordEntry { word_id: 10, chunk_index: 0, total_chunks: 2 });
    assert_eq!(e0[1], ChunkWordEntry { word_id: 20, chunk_index: 1, total_chunks: 3 });

    let e1 = reader.lookup(1);
    assert_eq!(e1.len(), 1);
    assert_eq!(e1[0].word_id, 10);

    assert!(reader.lookup(99).is_empty());
}

#[test]
fn test_next_word_map_roundtrip() {
    let mut writer = NextWordMapWriter::new(3);
    writer.add(0, 1); // word 0 → word 1
    writer.add(0, 2); // word 0 → word 2
    writer.add(1, 2); // word 1 → word 2

    let data = writer.serialize();
    let reader = NextWordMapReader::open(&data).unwrap();

    assert!(reader.contains(0, 1));
    assert!(reader.contains(0, 2));
    assert!(reader.contains(1, 2));
    assert!(!reader.contains(1, 0));
    assert!(!reader.contains(2, 0));
}

#[test]
fn test_verify_intra_word() {
    let mut cw = ChunkWordMapWriter::new(2);
    cw.add(0, 10, 0, 2); // ord 0 = chunk 0 of word 10 (2 chunks)
    cw.add(1, 10, 1, 2); // ord 1 = chunk 1 of word 10

    let nw = NextWordMapWriter::new(1);

    let cw_data = cw.serialize();
    let nw_data = nw.serialize();
    let cw_r = ChunkWordMapReader::open(&cw_data).unwrap();
    let nw_r = NextWordMapReader::open(&nw_data).unwrap();

    assert!(verify_chain_adjacency(&cw_r, &nw_r, 0, 1)); // chunk 0 → chunk 1 of same word
    assert!(!verify_chain_adjacency(&cw_r, &nw_r, 1, 0)); // chunk 1 → chunk 0 = wrong order
}

#[test]
fn test_verify_inter_word() {
    let mut cw = ChunkWordMapWriter::new(3);
    cw.add(0, 10, 0, 1); // ord 0 = only chunk of word 10
    cw.add(1, 20, 0, 1); // ord 1 = only chunk of word 20
    cw.add(2, 30, 0, 1); // ord 2 = only chunk of word 30

    let mut nw = NextWordMapWriter::new(3);
    nw.add(10, 20); // word 10 → word 20

    let cw_data = cw.serialize();
    let nw_data = nw.serialize();
    let cw_r = ChunkWordMapReader::open(&cw_data).unwrap();
    let nw_r = NextWordMapReader::open(&nw_data).unwrap();

    assert!(verify_chain_adjacency(&cw_r, &nw_r, 0, 1)); // word 10 → word 20 OK
    assert!(!verify_chain_adjacency(&cw_r, &nw_r, 0, 2)); // word 10 → word 30 not in next_map
    assert!(!verify_chain_adjacency(&cw_r, &nw_r, 1, 0)); // word 20 → word 10 not in next_map
}

#[test]
fn test_dedup() {
    let mut cw = ChunkWordMapWriter::new(1);
    cw.add(0, 10, 0, 2);
    cw.add(0, 10, 0, 2); // duplicate
    cw.add(0, 10, 0, 2); // duplicate

    let data = cw.serialize();
    let reader = ChunkWordMapReader::open(&data).unwrap();
    assert_eq!(reader.lookup(0).len(), 1); // deduped
}
