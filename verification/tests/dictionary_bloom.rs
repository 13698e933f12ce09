use suffix_fst::dictionary_bloom::ScalableBloom;

#[test]
fn never_a_false_negative_and_few_false_positives() {
    let mut f = ScalableBloom::with_capacity(1000);
    let keys: Vec<Vec<u8>> = (0..600_000u32).map(|i| format!("\x00key-{i}").into_bytes()).collect();
    for k in &keys {
        f.insert(k);
    }
    assert!(keys.iter().all(|k| f.maybe_contains(k)), "a false negative");
    let absent = (0..100_000u32).filter(|i| f.maybe_contains(format!("\x00nope-{i}").as_bytes())).count();
    assert!(absent < 3_000, "{absent} false positives in 100 000 (chain of filters, ~1 % each)");
    let (n, bytes) = f.stats();
    assert_eq!(n, 600_000);
    assert!(bytes < 4 << 20, "{bytes} bytes for 600 000 keys");
}

#[test]
fn hashes_of_a_key_decide() {
    let mut f = ScalableBloom::with_capacity(10);
    let (a, b) = ScalableBloom::hashes(b"key");
    assert_eq!(b, ScalableBloom::finalize(a));
    assert_eq!(b & 1, 1);
    assert!(!f.maybe_contains_hashed(a, b));
    f.insert_hashed(a, b);
    assert!(f.maybe_contains_hashed(a, b));
    assert!(f.maybe_contains(b"key"));
    assert_ne!(ScalableBloom::hashes(b"other").0, a);
}
