use suffix_fst::index_registry::PosMapIndex;
use suffix_fst::posmap::{PosMapReader, PosMapWriter};

#[test]
fn test_posmap_roundtrip() {
    let mut writer = PosMapWriter::new();
    // Doc 0: 3 tokens
    writer.add(0, 0, 10); // pos 0 = ordinal 10
    writer.add(0, 1, 20); // pos 1 = ordinal 20
    writer.add(0, 2, 30); // pos 2 = ordinal 30
    // Doc 1: 2 tokens
    writer.add(1, 0, 5);
    writer.add(1, 1, 15);

    let data = writer.serialize();
    let reader = PosMapReader::open(&data).unwrap();

    assert_eq!(reader.ordinal_at(0, 0), Some(10));
    assert_eq!(reader.ordinal_at(0, 1), Some(20));
    assert_eq!(reader.ordinal_at(0, 2), Some(30));
    assert_eq!(reader.ordinal_at(0, 3), None); // out of bounds
    assert_eq!(reader.ordinal_at(1, 0), Some(5));
    assert_eq!(reader.ordinal_at(1, 1), Some(15));
    assert_eq!(reader.ordinal_at(2, 0), None); // no doc 2

    let range = reader.ordinals_range(0, 1, 3);
    assert_eq!(range, vec![(1, 20), (2, 30)]);
}

/// Ordinals under 2^24 get 3-byte slots; one wider ordinal keeps the
/// 4-byte layout; both read back the same, empty slots included.
#[test]
fn narrow_and_wide_layouts_read_alike() {
    let fill = |w: &mut PosMapWriter| {
        w.add(0, 0, 7);
        w.add(0, 2, 0xFF_FFFE); // position 1 stays empty
        w.add_empty_doc();
        w.add(2, 0, 0);
    };
    let mut narrow = PosMapWriter::new(); fill(&mut narrow);
    let n = narrow.serialize();
    assert_eq!(&n[0..4], b"PMP3");
    let mut wide = PosMapWriter::new(); fill(&mut wide); wide.add(2, 1, 0x100_0000);
    let w = wide.serialize();
    assert_eq!(&w[0..4], b"PMAP");
    let (rn, rw) = (PosMapReader::open(&n).unwrap(), PosMapReader::open(&w).unwrap());
    assert_eq!((rn.slot_width(), rw.slot_width()), (3, 4));
    for (doc, pos) in [(0, 0), (0, 1), (0, 2), (0, 3), (1, 0), (2, 0), (3, 0)] {
        assert_eq!(rn.ordinal_at(doc, pos), rw.ordinal_at(doc, pos), "doc {doc} pos {pos}");
    }
    assert_eq!(rn.ordinal_at(0, 1), None);
    assert_eq!(rn.ordinal_at(0, 2), Some(0xFF_FFFE));
    assert_eq!(rw.ordinal_at(2, 1), Some(0x100_0000));
    assert_eq!(rn.ordinals_range(0, 0, 3), vec![(0, 7), (2, 0xFF_FFFE)]);
    assert_eq!(rn.num_tokens(0), 3);
    assert_eq!(rn.num_tokens(1), 0);
}

/// `PMP4`: the byte offset of every position derives from the
/// checkpoints and the lengths, across checkpoints and across a value
/// boundary (an empty slot restarts at 0); `PMP3` answers `None`.
#[test]
fn byte_offsets_derive_from_checkpoints_and_lengths() {
    // Ordinal o has own_len o + 1.
    let own_len = |o: u32| Some((o + 1) as u16);
    let mut w = PosMapWriter::new();
    // Doc 0: 40 positions, ordinal = position % 5; position 23 is a
    // value boundary (empty).
    let mut expect: Vec<Option<u32>> = Vec::new();
    let mut acc = 0u32;
    for p in 0..40u32 {
        if p == 23 { expect.push(None); acc = 0; continue; }
        let o = p % 5;
        w.add(0, p, o);
        expect.push(Some(acc));
        acc += o + 1;
    }
    w.add_empty_doc();
    w.add(2, 0, 4);
    w.add(2, 1, 4);
    let bytes = w.serialize_with_lens(Some(&own_len));
    assert_eq!(&bytes[0..4], b"PMP4");
    let r = PosMapReader::open(&bytes).unwrap();
    assert!(r.has_byte_checkpoints());
    assert_eq!(r.num_tokens(0), 40);
    assert_eq!(r.num_tokens(1), 0);
    assert_eq!(r.num_tokens(2), 2);
    for p in 0..40u32 {
        assert_eq!(r.ordinal_at(0, p), if p == 23 { None } else { Some(p % 5) }, "ordinal at {p}");
        assert_eq!(r.byte_at(0, p, own_len), expect[p as usize], "byte at {p}");
    }
    assert_eq!(r.byte_at(0, 40, own_len), None);
    assert_eq!(r.byte_at(1, 0, own_len), None);
    assert_eq!(r.byte_at(2, 0, own_len), Some(0));
    assert_eq!(r.byte_at(2, 1, own_len), Some(5));
    assert_eq!(r.byte_at(3, 0, own_len), None);
    // An unknown length makes the derivation refuse rather than guess.
    assert_eq!(r.byte_at(0, 3, |o| if o == 1 { None } else { own_len(o) }), None);
    assert_eq!(r.byte_at(0, 1, |o| if o == 1 { None } else { own_len(o) }), Some(1));
    assert_eq!(r.ordinals_range(0, 22, 25), vec![(22, 2), (24, 4)]);

    let plain_bytes = w.serialize();
    let plain = PosMapReader::open(&plain_bytes).unwrap();
    assert!(!plain.has_byte_checkpoints());
    assert_eq!(plain.byte_at(0, 5, own_len), None);
    assert_eq!(plain.ordinal_at(0, 5), Some(0));
}

/// The registry adapter writes `PMP4` once it has been told the lengths,
/// `PMP3` otherwise.
#[test]
fn registry_adapter_writes_checkpoints_when_lengths_are_known() {
    let mut idx = PosMapIndex::new();
    idx.on_posting(7, 0, 0, 0, 0);
    idx.on_posting(3, 0, 1, 0, 0);
    let plain = idx.serialize();
    assert_eq!(&plain[0..4], b"PMP3");
    idx.on_own_len(7, 9);
    idx.on_own_len(3, 2);
    let bytes = idx.serialize();
    assert_eq!(&bytes[0..4], b"PMP4");
    let r = PosMapReader::open(&bytes).unwrap();
    let lens = |o: u32| Some(if o == 7 { 9 } else { 2 });
    assert_eq!(r.byte_at(0, 1, lens), Some(9));
}

#[test]
fn test_posmap_empty_doc() {
    let mut writer = PosMapWriter::new();
    writer.add(0, 0, 42);
    writer.add_empty_doc(); // doc 1 is empty
    writer.add(2, 0, 99);

    let data = writer.serialize();
    let reader = PosMapReader::open(&data).unwrap();

    assert_eq!(reader.ordinal_at(0, 0), Some(42));
    assert_eq!(reader.num_tokens(1), 0);
    assert_eq!(reader.ordinal_at(2, 0), Some(99));
}
