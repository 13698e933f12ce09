use suffix_fst::dictionary_lookup::ParentEntryV3;
use suffix_fst::dictionary_pidx::{Checkpoint, GroupHeader, GroupIndex, GroupIndexBuilder, STRIDE};
use suffix_fst::parents_table::push_record;

#[test]
fn foreign_bytes_do_not_open() {
    assert!(GroupIndex::open(b"SFX3....".to_vec()).is_none());
    assert!(GroupIndex::open(Vec::new()).is_none());
    let empty = GroupIndexBuilder::new().finish();
    let idx = GroupIndex::open(empty.clone()).unwrap();
    assert_eq!((idx.num_records(), idx.num_entries()), (0, 0));
    let decode = |_: Checkpoint| -> Vec<ParentEntryV3> { panic!("decoded") };
    assert!(idx.parents_with_overlap(0, b"", &decode).is_none());
}

/// A grouped record of this many groups: a byte that says so, the number of
/// groups, and filling.
fn record(groups: usize) -> Vec<u8> {
    let mut bytes = vec![0x80, groups as u8, (groups / 256) as u8];
    bytes.resize(3 + groups, 0);
    bytes
}

/// The headers of a record's groups: one overlap each, in their order.
fn headers_of(record: Vec<u8>) -> Vec<GroupHeader> {
    let groups = record[1] as usize + 256 * record[2] as usize;
    (0..groups)
        .map(|g| GroupHeader {
            header_pos: 5 + g,
            prev_first: 100 * g as u64,
            overlap: vec![b'a' + (g / 26) as u8, b'a' + (g % 26) as u8],
        })
        .collect()
}

/// The parents of the one group with an overlap, from group `from` on.
fn scan(groups: usize, from: usize, want: &[u8]) -> Vec<ParentEntryV3> {
    headers_of(record(groups))
        .iter()
        .enumerate()
        .skip(from)
        .filter(|(_, h)| h.overlap == want)
        .map(|(g, _)| ParentEntryV3 {
            raw_ordinal: g as u64,
            sti: 0,
            own_len: 5,
            sep_len: 1,
            overlap_len: 2,
            is_word_start: true,
        })
        .collect()
}

#[test]
fn index_answers_like_the_scan() {
    let mut table = Vec::new();
    let mut recs = Vec::new();
    for &groups in &[1usize, 5, 16, 17, 33, 100, 300] {
        recs.push((table.len() as u64, groups));
        push_record(&mut table, &record(groups));
    }
    let index = GroupIndex::build(&table, &headers_of);
    assert_eq!(index.num_records(), 4, "records over {STRIDE} groups");
    for &(off, groups) in &recs {
        let mut probes: Vec<Vec<u8>> = headers_of(record(groups)).into_iter().map(|h| h.overlap).collect();
        for more in ["", "zzzz", "a", "ab", "m_"] {
            probes.push(more.as_bytes().to_vec());
        }
        for want in &probes {
            let expected = scan(groups, 0, want);
            let decode = |c: Checkpoint| {
                assert_eq!((c.prev_first, c.header_pos), (100 * c.group as u64, 5 + c.group));
                assert_eq!(c.group % STRIDE, 0);
                scan(groups, c.group, want)
            };
            match index.parents_with_overlap(off, want, &decode) {
                Some(found) => {
                    assert!(groups > STRIDE);
                    assert_eq!(found, expected, "index, {groups} groups, want {want:?}");
                }
                None => assert!(groups <= STRIDE, "{groups} groups not indexed"),
            }
        }
    }
}

#[test]
fn incremental_build_equals_table_build() {
    let mut table = Vec::new();
    let mut b = GroupIndexBuilder::new();
    for i in 0..40usize {
        let rec = record(3 + i * 2);
        b.add(table.len() as u64, &rec, &headers_of(rec.clone()));
        push_record(&mut table, &rec);
    }
    let bytes = GroupIndexBuilder::build_from_table(&table, &headers_of);
    assert_eq!(b.finish(), bytes);
    let built = GroupIndex::build(&table, &headers_of);
    let index = GroupIndex::open(bytes.clone()).unwrap();
    assert_eq!(built.num_records(), index.num_records());
    assert_eq!(built.num_entries(), index.num_entries());
    assert_eq!(built.num_bytes(), index.num_bytes());
    assert_eq!(index.num_records(), (0..40usize).filter(|i| 3 + i * 2 > STRIDE).count());
    assert!(index.num_entries() > index.num_records());
    assert_eq!(index.num_bytes(), bytes.len());
}
