use std::collections::HashSet;

use suffix_fst::sfxpost_v2::{decode_vint, SfxPostReaderV2, SfxPostWriterV2, CHECKPOINT_EVERY};
use suffix_fst::varint::write_varint;

#[test]
fn test_v2_roundtrip_single_ordinal() {
    let mut writer = SfxPostWriterV2::new(1);
    writer.add_entry(0, 10, 0, 0, 5);
    writer.add_entry(0, 10, 1, 6, 12);
    writer.add_entry(0, 20, 0, 0, 8);
    let data = writer.finish();

    let reader = SfxPostReaderV2::open(data.clone()).unwrap();
    assert_eq!(reader.num_terms(), 1);

    let entries = reader.entries(0);
    assert_eq!(entries.len(), 3);
    assert_eq!(entries[0].doc_id, 10);
    assert_eq!(entries[0].token_index, 0);
    assert_eq!(entries[1].doc_id, 10);
    assert_eq!(entries[1].token_index, 1);
    assert_eq!(entries[2].doc_id, 20);
}

/// `SFP5` keeps every position of `SFP4` and answers the position
/// accessors alike; it holds no span, says so, and is smaller.
#[test]
fn positions_only_layout_reads_like_the_spanned_one() {
    let mut full = SfxPostWriterV2::new(3);
    let mut bare = SfxPostWriterV2::positions_only(3);
    let mut expect: Vec<Vec<(u32, u32)>> = vec![Vec::new(); 3];
    for doc in 0..50u32 {
        for k in 0..(doc % 4) {
            let ti = doc * 3 + k * 7;
            let bf = ti * 5;
            let ord = (doc + k) % 3;
            full.add_entry(ord, doc, ti, bf, bf + 4);
            bare.add_entry(ord, doc, ti, bf, bf + 4);
            expect[ord as usize].push((doc, ti));
        }
    }
    let (a, b) = (full.finish(), bare.finish());
    assert_eq!(&a[0..4], b"SFP4");
    assert_eq!(&b[0..4], b"SFP5");
    assert!(b.len() < a.len(), "SFP5 {} B is not smaller than SFP4 {} B", b.len(), a.len());
    let (ra, rb) = (SfxPostReaderV2::open(a).unwrap(), SfxPostReaderV2::open(b).unwrap());
    assert!(ra.has_byte_spans());
    assert!(!rb.has_byte_spans());
    for ord in 0..3u32 {
        expect[ord as usize].sort_unstable();
        let pos = |r: &SfxPostReaderV2| r.positions_filtered(ord, None).iter()
            .map(|e| (e.doc_id, e.token_index)).collect::<Vec<_>>();
        assert_eq!(pos(&ra), expect[ord as usize], "ord {ord}: SFP4 positions");
        assert_eq!(pos(&rb), expect[ord as usize], "ord {ord}: SFP5 positions");
        assert_eq!(ra.doc_freq(ord), rb.doc_freq(ord));
        let filter: HashSet<u32> = [3, 17, 46].into();
        assert_eq!(
            rb.positions_filtered(ord, Some(&filter)),
            ra.positions_filtered(ord, Some(&filter)),
        );
        for doc in [0u32, 7, 17, 49, 50] {
            assert_eq!(rb.positions_for_doc(ord, doc), ra.positions_for_doc(ord, doc), "ord {ord} doc {doc}");
            assert_eq!(rb.has_doc(ord, doc), ra.has_doc(ord, doc));
            for ti in [0u32, 21, 28, 35, 1000] {
                assert_eq!(rb.has_position(ord, doc, ti), ra.has_position(ord, doc, ti), "ord {ord} doc {doc} ti {ti}");
                assert_eq!(rb.entry_at(ord, doc, ti).is_some(), ra.entry_at(ord, doc, ti).is_some());
            }
        }
        let walked = rb.for_each_position(ord);
        assert_eq!(walked, expect[ord as usize]);
        // The span-carrying accessors hand back zero spans, not garbage.
        assert!(rb.entries(ord).iter().all(|e| e.byte_from == 0 && e.byte_to == 0));
        assert_eq!(rb.entries(ord).len(), expect[ord as usize].len());
    }
}

#[test]
fn test_v2_filtered_resolve() {
    let mut writer = SfxPostWriterV2::new(1);
    for doc in 0..100u32 {
        writer.add_entry(0, doc, 0, 0, 5);
    }
    let data = writer.finish();
    let reader = SfxPostReaderV2::open(data.clone()).unwrap();

    // Filter to only 3 docs
    let filter: HashSet<u32> = [10, 50, 99].into();
    let entries = reader.entries_filtered(0, Some(&filter));
    assert_eq!(entries.len(), 3);
    assert_eq!(entries[0].doc_id, 10);
    assert_eq!(entries[1].doc_id, 50);
    assert_eq!(entries[2].doc_id, 99);
}

#[test]
fn test_v2_single_doc_lookup() {
    let mut writer = SfxPostWriterV2::new(1);
    writer.add_entry(0, 10, 0, 0, 5);
    writer.add_entry(0, 10, 2, 10, 15);
    writer.add_entry(0, 20, 1, 5, 10);
    writer.add_entry(0, 30, 0, 0, 3);
    let data = writer.finish();
    let reader = SfxPostReaderV2::open(data.clone()).unwrap();

    let entries = reader.entries_for_doc(0, 10);
    assert_eq!(entries.len(), 2);
    assert_eq!(entries[0].token_index, 0);
    assert_eq!(entries[1].token_index, 2);

    let entries = reader.entries_for_doc(0, 20);
    assert_eq!(entries.len(), 1);

    let entries = reader.entries_for_doc(0, 99);
    assert!(entries.is_empty());
}

#[test]
fn test_v2_has_doc() {
    let mut writer = SfxPostWriterV2::new(1);
    writer.add_entry(0, 10, 0, 0, 5);
    writer.add_entry(0, 20, 0, 0, 5);
    let data = writer.finish();
    let reader = SfxPostReaderV2::open(data.clone()).unwrap();

    assert!(reader.has_doc(0, 10));
    assert!(reader.has_doc(0, 20));
    assert!(!reader.has_doc(0, 15));
    assert!(!reader.has_doc(0, 99));
}

#[test]
fn test_v2_doc_freq() {
    let mut writer = SfxPostWriterV2::new(2);
    writer.add_entry(0, 10, 0, 0, 5);
    writer.add_entry(0, 10, 1, 5, 10);
    writer.add_entry(0, 20, 0, 0, 5);
    writer.add_entry(1, 30, 0, 0, 5);
    let data = writer.finish();
    let reader = SfxPostReaderV2::open(data.clone()).unwrap();

    assert_eq!(reader.doc_freq(0), 2); // docs 10, 20
    assert_eq!(reader.doc_freq(1), 1); // doc 30
}

#[test]
fn test_v2_multiple_ordinals() {
    let mut writer = SfxPostWriterV2::new(3);
    writer.add_entry(0, 1, 0, 0, 5);
    writer.add_entry(1, 2, 0, 0, 5);
    writer.add_entry(2, 3, 0, 0, 5);
    let data = writer.finish();
    let reader = SfxPostReaderV2::open(data.clone()).unwrap();

    assert_eq!(reader.entries(0).len(), 1);
    assert_eq!(reader.entries(0)[0].doc_id, 1);
    assert_eq!(reader.entries(1)[0].doc_id, 2);
    assert_eq!(reader.entries(2)[0].doc_id, 3);
}

#[test]
fn test_v2_empty_ordinal() {
    let writer = SfxPostWriterV2::new(2);
    // Don't add any entries to ordinal 0
    let data = writer.finish();
    let reader = SfxPostReaderV2::open(data.clone()).unwrap();

    assert!(reader.entries(0).is_empty());
    assert!(reader.entries(1).is_empty());
}

/// A number in groups of seven bits, the lowest first.
fn encode_vint(v: u32, out: &mut Vec<u8>) {
    write_varint(out, v as u64);
}

/// A file of the second layout, which is only read.
fn write_v2(ordinals: &[Vec<(u32, u32, u32, u32)>]) -> Vec<u8> {
    let mut entry_data = Vec::new();
    let mut offset_table: Vec<u32> = Vec::new();
    for entries in ordinals {
        offset_table.push(entry_data.len() as u32);
        let mut sorted = entries.clone();
        sorted.sort_unstable();
        let mut docs: Vec<(u32, Vec<(u32, u32, u32)>)> = Vec::new();
        for &(doc_id, ti, bf, bt) in sorted.iter() {
            if docs.last().is_none_or(|d| d.0 != doc_id) {
                docs.push((doc_id, Vec::new()));
            }
            docs.last_mut().unwrap().1.push((ti, bf, bt));
        }
        entry_data.extend_from_slice(&(docs.len() as u32).to_le_bytes());
        for &(doc_id, _) in &docs {
            entry_data.extend_from_slice(&doc_id.to_le_bytes());
        }
        let mut payloads: Vec<Vec<u8>> = Vec::new();
        for (_, de) in &docs {
            let mut payload = Vec::new();
            for &(ti, bf, bt) in de {
                encode_vint(ti, &mut payload);
                encode_vint(bf, &mut payload);
                encode_vint(bt, &mut payload);
            }
            payloads.push(payload);
        }
        let mut cumulative = 0u32;
        for payload in &payloads {
            entry_data.extend_from_slice(&cumulative.to_le_bytes());
            cumulative += payload.len() as u32;
        }
        for (_, de) in &docs {
            entry_data.extend_from_slice(&(de.len() as u16).to_le_bytes());
        }
        for payload in &payloads {
            entry_data.extend_from_slice(payload);
        }
    }
    offset_table.push(entry_data.len() as u32);
    let mut out = Vec::new();
    out.extend_from_slice(b"SFP2");
    out.extend_from_slice(&(ordinals.len() as u32).to_le_bytes());
    for &off in &offset_table {
        out.extend_from_slice(&off.to_le_bytes());
    }
    out.extend_from_slice(&entry_data);
    out
}

/// `n` documents, several entries each, spanning more than one checkpoint
/// run, with a token index that jumps and a byte offset that occasionally
/// goes backwards — so the wrapping deltas are exercised.
fn sample(n: u32) -> Vec<(u32, u32, u32, u32)> {
    let mut v = Vec::new();
    for d in 0..n {
        let doc = d * 3 + 1;
        for k in 0..(1 + d % 4) {
            let ti = k * 5 + d % 7;
            let bf = if d % 29 == 28 { 3 } else { ti * 9 + 11 };
            v.push((doc, ti, bf, bf + 4 + k % 3));
        }
    }
    v.sort_unstable();
    v.dedup();
    v
}

#[test]
fn v3_matches_v2_exactly() {
    for n in [1u32, 2, 31, 32, 33, 64, 65, 200, 1000] {
        let entries = sample(n);
        let mut w = SfxPostWriterV2::new(2);
        for &(d, ti, bf, bt) in &entries {
            w.add_entry(1, d, ti, bf, bt);
        }
        let v3 = w.finish();
        assert_eq!(&v3[0..4], b"SFP4", "the writer must emit SFP4");
        let v2 = write_v2(&[Vec::new(), entries.clone()]);

        let r3 = SfxPostReaderV2::open(v3.clone()).unwrap();
        let r2 = SfxPostReaderV2::open(v2.clone()).unwrap();

        assert_eq!(r3.entries(1), r2.entries(1), "n={n}: entries()");
        assert_eq!(r3.doc_freq(1), r2.doc_freq(1), "n={n}: doc_freq()");
        assert!(r3.entries(0).is_empty(), "n={n}: empty ordinal");

        let w3 = r3.for_each_entry(1);
        let w2 = r2.for_each_entry(1);
        assert_eq!(w3, w2, "n={n}: for_each_entry");
        assert_eq!(w3, entries, "n={n}: for_each_entry against the source");

        // Every document, present and absent, through every lookup path.
        for d in 0..(n * 3 + 4) {
            assert_eq!(r3.has_doc(1, d), r2.has_doc(1, d), "n={n}: has_doc({d})");
            assert_eq!(r3.entries_for_doc(1, d), r2.entries_for_doc(1, d), "n={n}: entries_for_doc({d})");
            for pos in 0..8 {
                assert_eq!(r3.entry_at(1, d, pos), r2.entry_at(1, d, pos), "n={n}: entry_at({d}, {pos})");
            }
        }

        // Filtered resolve takes the binary-search branch or the scan
        // depending on the filter's size: exercise both.
        for take in [1usize, 3, n as usize] {
            let filter: HashSet<u32> = entries.iter().map(|e| e.0).take(take).collect();
            assert_eq!(
                r3.entries_filtered(1, Some(&filter)), r2.entries_filtered(1, Some(&filter)),
                "n={n}: entries_filtered with {} docs", filter.len()
            );
        }

        if n > CHECKPOINT_EVERY as u32 {
            assert!(v3.len() < v2.len(), "n={n}: SFP3 {} B is not smaller than SFP2 {} B", v3.len(), v2.len());
        }
    }
}

#[test]
fn v3_reader_still_reads_v2() {
    let entries = sample(100);
    let v2 = write_v2(&[entries.clone()]);
    let r = SfxPostReaderV2::open(v2).unwrap();
    let got = r.for_each_entry(0);
    assert_eq!(got, entries);
}

#[test]
fn v3_survives_a_truncated_file() {
    let mut w = SfxPostWriterV2::new(1);
    for &(d, ti, bf, bt) in &sample(200) {
        w.add_entry(0, d, ti, bf, bt);
    }
    let data = w.finish();
    for cut in [data.len() / 3, data.len() / 2, data.len() - 1] {
        if let Some(r) = SfxPostReaderV2::open(data[..cut].to_vec()) {
            let _ = r.entries(0);
            let _ = r.doc_freq(0);
            let _ = r.has_doc(0, 7);
            let _ = r.entry_at(0, 7, 2);
            let _ = r.for_each_entry(0);
        }
    }
}

/// A corrupt `num_docs` or `headers_len` must be refused, not trusted.
#[test]
fn v3_refuses_corrupt_block_counts() {
    let mut w = SfxPostWriterV2::new(1);
    for &(d, ti, bf, bt) in &sample(20) {
        w.add_entry(0, d, ti, bf, bt);
    }
    let good = w.finish();
    let entry_data_start = 8 + 2 * 4;
    for bad in [u32::MAX as u64, u32::MAX as u64 - 1, 1u64 << 40, 100_000] {
        // Overwrite the block's leading varint(s) with `bad`.
        let mut data = good[..entry_data_start].to_vec();
        write_varint(&mut data, bad);
        write_varint(&mut data, bad);
        data.extend_from_slice(&good[entry_data_start + 2..]);
        if let Some(r) = SfxPostReaderV2::open(data) {
            assert!(r.entries(0).is_empty(), "bad count {bad} must read as an empty ordinal");
            assert!(!r.has_doc(0, 1));
            assert_eq!(r.doc_freq(0), 0);
        }
    }
    // Six continuation bytes in a payload: `decode_vint` must stop.
    let r = SfxPostReaderV2::open(good.clone()).unwrap();
    let payload = [0xFFu8; 12];
    let mut pos = 0;
    while pos < payload.len() {
        let (_, n) = decode_vint(&payload[pos..]);
        assert!(n > 0 && n <= 5);
        pos += n;
    }
    assert!(!r.entries(0).is_empty());
}

#[test]
fn test_v2_not_v2_format() {
    // V1 data doesn't start with "SFP2"
    let v1_data = vec![0u8; 100];
    assert!(SfxPostReaderV2::open(v1_data).is_none());
}

#[test]
fn the_order_of_entries_does_not_matter() {
    let entries = [(7u32, 1u32, 4u32, 9u32), (2, 0, 0, 3), (7, 0, 0, 3), (5, 3, 1, 2), (2, 0, 0, 3)];
    let mut forward = SfxPostWriterV2::new(2);
    for &(doc, pos, from, to) in entries.iter() {
        forward.add_entry(1, doc, pos, from, to);
    }
    let mut backward = SfxPostWriterV2::new(2);
    for &(doc, pos, from, to) in entries.iter().rev() {
        backward.add_entry(1, doc, pos, from, to);
    }
    let data = forward.finish();
    assert_eq!(data, backward.finish());

    let reader = SfxPostReaderV2::open(data).unwrap();
    assert_eq!(reader.doc_freq(0), 0);
    assert_eq!(reader.doc_freq(1), 3); // docs 2, 5, 7
}
