use suffix_fst::gmap::{GmapReader, encode};

#[test]
fn round_trip_and_lookup() {
    let globals = [3u32, 7, 8, 100, 4_000_000];
    let bytes = encode(&globals, Some(12));
    let r = GmapReader::open(&bytes).unwrap();
    assert_eq!(r.len(), 5);
    assert_eq!(r.max_word_content_len(), Some(12));
    for (i, &g) in globals.iter().enumerate() {
        assert_eq!(r.global(i as u32), g);
        assert_eq!(r.local(g), Some(i as u32));
    }
    assert_eq!(r.local(0), None);
    assert_eq!(r.local(9), None);
    assert_eq!(r.local(5_000_000), None);
    assert!(GmapReader::open(&bytes[..6]).is_none());
    assert!(GmapReader::open(b"NOPE\0\0\0\0").is_none());
    let e = encode(&[], None);
    assert!(GmapReader::open(&e).unwrap().is_empty());
    assert_eq!(GmapReader::open(&e).unwrap().max_word_content_len(), None);
}

/// Layout 1 still opens, without heads or statistic.
#[test]
fn layout_1_still_opens() {
    let globals = [1u32, 5, 9];
    let mut bytes = Vec::new();
    bytes.extend_from_slice(b"GMAP");
    bytes.extend_from_slice(&3u32.to_le_bytes());
    for g in globals { bytes.extend_from_slice(&g.to_le_bytes()); }
    let r = GmapReader::open(&bytes).unwrap();
    assert_eq!(r.max_word_content_len(), None);
    assert_eq!(r.local(5), Some(1));
    assert_eq!(r.lower_bound_from(0, 6), 2);
}

/// Block heads and galloping agree with a plain search on a map wider
/// than several blocks, for every from/target shape.
#[test]
fn lower_bound_with_heads_matches_linear() {
    let globals: Vec<u32> = (0..1000u32).map(|i| i * 7 + (i % 3)).collect();
    let bytes = encode(&globals, None);
    let r = GmapReader::open(&bytes).unwrap();
    for &from in &[0u32, 1, 63, 64, 65, 500, 999] {
        for target in (0..3100u32).step_by(13) {
            let expect = (from..1000).find(|&j| globals[j as usize] >= target).unwrap_or(1000);
            assert_eq!(r.lower_bound_from(from, target), expect, "from {from} target {target}");
        }
    }
    for (i, &g) in globals.iter().enumerate() {
        assert_eq!(r.local(g), Some(i as u32));
        assert_eq!(r.local(g + 1).map(|l| globals[l as usize]), globals.get(i + 1).filter(|&&x| x == g + 1).copied());
    }
}
