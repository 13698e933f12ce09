use suffix_fst::postings_measure::{measure_sfxpost, Tally};
use suffix_fst::sfxpost_v2::SfxPostWriterV2;

/// Two entries: each of the four bytes of their spans counts once written, and
/// none without spans.
#[test]
fn spans_are_weighed() {
    let mut w = SfxPostWriterV2::new(1);
    w.add_entry(0, 0, 0, 300, 305);
    w.add_entry(0, 4, 2, 10, 12);
    let bytes = w.finish();
    let mut bare = SfxPostWriterV2::new(1);
    bare.add_entry(0, 0, 0, 0, 0);
    bare.add_entry(0, 4, 2, 0, 0);
    let zeros = bare.finish().len() as u64;
    let mut t = Tally::default();
    measure_sfxpost(&bytes, &mut t);
    assert_eq!(t.files, 1);
    assert_eq!(t.entries, 2);
    assert_eq!(t.on_disk, bytes.len() as u64);
    assert_eq!(t.reencoded, bytes.len() as u64);
    assert_eq!(t.without_spans, zeros - 4);
    measure_sfxpost(b"no postings", &mut t);
    assert_eq!(t.files, 1);
    measure_sfxpost(&bytes, &mut t);
    assert_eq!((t.files, t.entries), (2, 4));
}
