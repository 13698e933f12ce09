//! An index of checkpoints answers like a scan of the records.

use vstd::prelude::*;

use crate::bytes;
use crate::dictionary_lookup::{MAX_OVERLAP_BYTES, ParentEntryV3};
use crate::dictionary_pidx;
use crate::dictionary_pidx::{Checkpoint, GroupHeader, GroupIndexBuilder, Point};
use crate::parents_table;
use crate::text_order;

verus! {

/// The parents of the first group from `g` on that has the overlap; none where
/// no group has it.
pub open spec fn scanned_from(
    headers: Seq<GroupHeader>,
    parents: Seq<Seq<ParentEntryV3>>,
    g: int,
    want: Seq<u8>,
) -> Seq<ParentEntryV3>
    decreases headers.len() - g,
{
    if g >= headers.len() {
        Seq::empty()
    } else if headers[g].overlap@ == want {
        parents[g]
    } else {
        scanned_from(headers, parents, g + 1, want)
    }
}

/// Whether each overlap comes before the next.
pub open spec fn overlaps_ascend(headers: Seq<GroupHeader>) -> bool {
    forall|i: int, j: int|
        0 <= i < j < headers.len() ==> text_order::lex_lt(
            (#[trigger] headers[i]).overlap@,
            (#[trigger] headers[j]).overlap@,
        )
}

/// Whether a checkpoint is the header of group `g`.
pub open spec fn is_header(c: Checkpoint, headers: Seq<GroupHeader>, g: int) -> bool {
    &&& 0 <= g < headers.len()
    &&& c.group == g
    &&& c.prev_first == headers[g].prev_first
    &&& c.header_pos == headers[g].header_pos
}

/// Whether `decode` reads a record from the header of a group on, up to the
/// group that has the overlap.
pub open spec fn reads_groups<G: Fn(Checkpoint) -> Vec<ParentEntryV3>>(
    decode: G,
    headers: Seq<GroupHeader>,
    parents: Seq<Seq<ParentEntryV3>>,
    want: Seq<u8>,
) -> bool {
    forall|c: Checkpoint, g: int, v: Vec<ParentEntryV3>| #[trigger]
        is_header(c, headers, g) && #[trigger] call_ensures(decode, (c,), v) ==> v@ == scanned_from(
            headers,
            parents,
            g,
            want,
        )
}

/// Whether the records stand one after the other, where a table can have them.
pub open spec fn in_table_order(recs: Seq<(int, Seq<u8>)>) -> bool {
    &&& forall|i: int| 0 <= i < recs.len() ==> 0 <= (#[trigger] recs[i]).0 <= u64::MAX
    &&& forall|i: int, j: int|
        0 <= i < j < recs.len() ==> (#[trigger] recs[i]).0 < (#[trigger] recs[j]).0
}

/// Whether all overlaps can be kept.
pub open spec fn overlaps_short(headers: Seq<Seq<GroupHeader>>) -> bool {
    forall|i: int, g: int|
        0 <= i < headers.len() && 0 <= g < headers[i].len() ==> (#[trigger] headers[i][g]).overlap@.len()
            <= MAX_OVERLAP_BYTES
}

/// The file of the index of records with these headers.
pub open spec fn index_file(recs: Seq<(int, Seq<u8>)>, headers: Seq<Seq<GroupHeader>>) -> Seq<u8> {
    let (records, points) = dictionary_pidx::built(recs, headers, recs.len() as int);
    dictionary_pidx::index_bytes(records, points)
}

/// Whether the records and the checkpoints can be counted.
pub open spec fn index_fits(recs: Seq<(int, Seq<u8>)>, headers: Seq<Seq<GroupHeader>>) -> bool {
    let (records, points) = dictionary_pidx::built(recs, headers, recs.len() as int);
    records.len() <= u32::MAX && points.len() <= u32::MAX
}

proof fn lemma_points_at(headers: Seq<GroupHeader>, n: int, j: int)
    requires
        0 <= n <= headers.len(),
    ensures
        dictionary_pidx::points_upto(headers, n).len() == (n + 15) / 16,
        0 <= j < (n + 15) / 16 ==> 16 * j < n && dictionary_pidx::points_upto(headers, n)[j]
            == dictionary_pidx::point_of(headers[16 * j]),
    decreases n,
{
    if n > 0 {
        lemma_points_at(headers, n - 1, j);
    }
}

/// What a record that is indexed has in the index.
proof fn lemma_entry(
    recs: Seq<(int, Seq<u8>)>,
    headers: Seq<Seq<GroupHeader>>,
    i: int,
    n: int,
)
    requires
        0 <= i < n <= recs.len(),
        recs.len() == headers.len(),
        dictionary_pidx::indexed(recs[i].1, headers[i]),
        dictionary_pidx::built(recs, headers, n).1.len() <= u32::MAX,
    ensures
        ({
            let (records, points) = dictionary_pidx::built(recs, headers, n);
            let r = dictionary_pidx::built(recs, headers, i).0.len() as int;
            let a = dictionary_pidx::built(recs, headers, i).1.len() as int;
            let own = dictionary_pidx::points_upto(headers[i], headers[i].len() as int);
            &&& r < records.len()
            &&& records[r] == (recs[i].0 as u64, a as u32)
            &&& a + own.len() <= points.len()
            &&& points.subrange(a, a + own.len()) == own
            &&& if r + 1 < records.len() {
                records[r + 1].1 == a + own.len()
            } else {
                points.len() == a + own.len()
            }
        }),
    decreases n,
{
    let (records, points) = dictionary_pidx::built(recs, headers, n);
    let a = dictionary_pidx::built(recs, headers, i).1.len() as int;
    let own = dictionary_pidx::points_upto(headers[i], headers[i].len() as int);
    if n == i + 1 {
        assert(points.subrange(a, a + own.len()) =~= own);
    } else {
        lemma_entry(recs, headers, i, n - 1);
        let before = dictionary_pidx::built(recs, headers, n - 1).1;
        assert(points.subrange(a, a + own.len()) =~= before.subrange(a, a + own.len()));
    }
}

/// The index has the offsets of indexed records alone, in order.
proof fn lemma_offsets(
    recs: Seq<(int, Seq<u8>)>,
    headers: Seq<Seq<GroupHeader>>,
    i: int,
    n: int,
)
    requires
        0 <= i < recs.len(),
        0 <= n <= recs.len(),
        recs.len() == headers.len(),
        in_table_order(recs),
    ensures
        ({
            let records = dictionary_pidx::built(recs, headers, n).0;
            &&& forall|r: int, t: int|
                0 <= r < t < records.len() ==> (#[trigger] records[r]).0 < (#[trigger] records[t]).0
            &&& forall|r: int, m: int|
                0 <= r < records.len() && n <= m < recs.len() ==> (#[trigger] records[r]).0 < (
                #[trigger] recs[m]).0
            &&& forall|r: int|
                0 <= r < records.len() && (#[trigger] records[r]).0 == recs[i].0
                    ==> dictionary_pidx::indexed(recs[i].1, headers[i])
        }),
    decreases n,
{
    if n > 0 {
        lemma_offsets(recs, headers, i, n - 1);
        let before = dictionary_pidx::built(recs, headers, n - 1).0;
        let records = dictionary_pidx::built(recs, headers, n).0;
        assert(0 <= recs[n - 1].0 <= u64::MAX);
        assert(0 <= recs[i].0 <= u64::MAX);
        assert forall|r: int, t: int| 0 <= r < t < records.len() implies (#[trigger] records[r]).0 < (
        #[trigger] records[t]).0 by {
            if t < before.len() {
                assert(before[r].0 < before[t].0);
            } else {
                assert(before[r].0 < recs[n - 1].0);
            }
        }
        assert forall|r: int, m: int| 0 <= r < records.len() && n <= m < recs.len() implies (
        #[trigger] records[r]).0 < (#[trigger] recs[m]).0 by {
            if r < before.len() {
                assert(before[r].0 < recs[m].0);
            } else {
                assert(recs[n - 1].0 < recs[m].0);
            }
        }
        assert forall|r: int| 0 <= r < records.len() && (#[trigger] records[r]).0 == recs[i].0 implies dictionary_pidx::indexed(
            recs[i].1,
            headers[i],
        ) by {
            if r < before.len() {
                assert(before[r].0 == recs[i].0);
            } else {
                if i < n - 1 {
                    assert(recs[i].0 < recs[n - 1].0);
                }
                if n - 1 < i {
                    assert(recs[n - 1].0 < recs[i].0);
                }
            }
        }
    }
}

proof fn lemma_overlaps_kept(recs: Seq<(int, Seq<u8>)>, headers: Seq<Seq<GroupHeader>>, n: int)
    requires
        0 <= n <= headers.len(),
        overlaps_short(headers),
    ensures
        dictionary_pidx::overlaps_fit(dictionary_pidx::built(recs, headers, n).1),
    decreases n,
{
    if n > 0 {
        lemma_overlaps_kept(recs, headers, n - 1);
        let before = dictionary_pidx::built(recs, headers, n - 1).1;
        let points = dictionary_pidx::built(recs, headers, n).1;
        let h = headers[n - 1];
        lemma_points_at(h, h.len() as int, 0);
        assert forall|k: int| 0 <= k < points.len() implies (#[trigger] points[k]).overlap.len()
            <= MAX_OVERLAP_BYTES by {
            if k < before.len() {
                assert(points[k] == before[k]);
            } else {
                let j = k - before.len();
                lemma_points_at(h, h.len() as int, j);
                assert(headers[n - 1][16 * j].overlap@.len() <= MAX_OVERLAP_BYTES);
            }
        }
    }
}

proof fn lemma_scan_skips(
    headers: Seq<GroupHeader>,
    parents: Seq<Seq<ParentEntryV3>>,
    a: int,
    b: int,
    want: Seq<u8>,
)
    requires
        0 <= a <= b <= headers.len(),
        forall|j: int| a <= j < b ==> (#[trigger] headers[j]).overlap@ != want,
    ensures
        scanned_from(headers, parents, a, want) == scanned_from(headers, parents, b, want),
    decreases b - a,
{
    if a < b {
        assert(headers[a].overlap@ != want);
        lemma_scan_skips(headers, parents, a + 1, b, want);
    }
}

/// Law: a record is found in the index of a table exactly if it is indexed. The
/// last checkpoint that is not past an overlap is the header of one of its
/// groups, from which on a scan finds what a scan of all groups finds; where all
/// checkpoints are past the overlap no group has it.
#[verifier::spinoff_prover]
#[verifier::rlimit(50)]
pub proof fn checkpoints_keep_what_a_scan_finds(
    recs: Seq<(int, Seq<u8>)>,
    headers: Seq<Seq<GroupHeader>>,
    i: int,
    parents: Seq<Seq<ParentEntryV3>>,
    want: Seq<u8>,
)
    requires
        0 <= i < recs.len(),
        recs.len() == headers.len(),
        in_table_order(recs),
        overlaps_short(headers),
        index_fits(recs, headers),
        overlaps_ascend(headers[i]),
    ensures
        ({
            let s = index_file(recs, headers);
            match dictionary_pidx::find_record(
                s,
                0,
                dictionary_pidx::records_in(s),
                recs[i].0 as u64,
            ) {
                None => !dictionary_pidx::indexed(recs[i].1, headers[i]),
                Some(r) => {
                    let (a, b) = dictionary_pidx::span_in(s, r);
                    let k = dictionary_pidx::first_past(s, a, b, want);
                    &&& dictionary_pidx::indexed(recs[i].1, headers[i])
                    &&& a < b <= dictionary_pidx::points_in(s)
                    &&& a <= k <= b
                    &&& k == a ==> scanned_from(headers[i], parents, 0, want) == Seq::<
                        ParentEntryV3,
                    >::empty()
                    &&& k > a ==> 0 <= 16 * (k - 1 - a) < headers[i].len() && dictionary_pidx::point_in(
                        s,
                        k - 1,
                    ) == dictionary_pidx::point_of(headers[i][16 * (k - 1 - a)]) && scanned_from(
                        headers[i],
                        parents,
                        16 * (k - 1 - a),
                        want,
                    ) == scanned_from(headers[i], parents, 0, want)
                },
            }
        }),
{
    let n = recs.len() as int;
    let (records, points) = dictionary_pidx::built(recs, headers, n);
    let s = index_file(recs, headers);
    let h = headers[i];
    let off = recs[i].0 as u64;
    assert(0 <= recs[i].0 <= u64::MAX);
    lemma_offsets(recs, headers, i, n);
    lemma_overlaps_kept(recs, headers, n);
    dictionary_pidx::written_index_reads_back(records, points, 0, 0);
    let count = records.len() as int;
    assert forall|x: int, y: int| 0 <= x < y < count implies #[trigger] dictionary_pidx::offset_in(s, x)
        < #[trigger] dictionary_pidx::offset_in(s, y) by {
        dictionary_pidx::written_index_reads_back(records, points, x, 0);
        dictionary_pidx::written_index_reads_back(records, points, y, 0);
        assert(records[x].0 < records[y].0);
    }
    dictionary_pidx::record_is_found_by_its_offset(s, 0, count, off);
    match dictionary_pidx::find_record(s, 0, count, off) {
        None => {
            if dictionary_pidx::indexed(recs[i].1, h) {
                lemma_entry(recs, headers, i, n);
                let r = dictionary_pidx::built(recs, headers, i).0.len() as int;
                dictionary_pidx::written_index_reads_back(records, points, r, 0);
                assert(dictionary_pidx::offset_in(s, r) == off);
            }
        },
        Some(r) => {
            dictionary_pidx::written_index_reads_back(records, points, r, 0);
            assert(records[r].0 == recs[i].0);
            lemma_entry(recs, headers, i, n);
            let q = dictionary_pidx::built(recs, headers, i).0.len() as int;
            let a = dictionary_pidx::built(recs, headers, i).1.len() as int;
            let own = dictionary_pidx::points_upto(h, h.len() as int);
            if q < r {
                assert(records[q].0 < records[r].0);
            }
            if r < q {
                assert(records[r].0 < records[q].0);
            }
            assert(q == r);
            lemma_points_at(h, h.len() as int, 0);
            let b = a + own.len();
            if r + 1 < count {
                dictionary_pidx::written_index_reads_back(records, points, r + 1, 0);
            }
            assert(dictionary_pidx::span_in(s, r) == (a, b));
            assert forall|k: int| a <= k < b implies #[trigger] dictionary_pidx::point_in(s, k)
                == dictionary_pidx::point_of(h[16 * (k - a)]) && 16 * (k - a) < h.len() by {
                dictionary_pidx::written_index_reads_back(records, points, r, k);
                assert(points[k] == points.subrange(a, b)[k - a]);
                lemma_points_at(h, h.len() as int, k - a);
            }
            assert forall|x: int, y: int| a <= x < y < b implies text_order::lex_lt(
                (#[trigger] dictionary_pidx::point_in(s, x)).overlap,
                (#[trigger] dictionary_pidx::point_in(s, y)).overlap,
            ) by {
                assert(text_order::lex_lt(h[16 * (x - a)].overlap@, h[16 * (y - a)].overlap@));
            }
            dictionary_pidx::checkpoints_split_at_the_overlap(s, a, b, want);
            let k = dictionary_pidx::first_past(s, a, b, want);
            if k == a {
                assert(text_order::lex_lt(want, dictionary_pidx::point_in(s, a).overlap));
                assert forall|j: int| 0 <= j < h.len() implies (#[trigger] h[j]).overlap@ != want by {
                    text_order::lemma_lex_irreflexive(want);
                    if j > 0 {
                        assert(text_order::lex_lt(h[0].overlap@, h[j].overlap@));
                        text_order::lemma_lex_transitive(want, h[0].overlap@, h[j].overlap@);
                    }
                }
                lemma_scan_skips(h, parents, 0, h.len() as int, want);
            } else {
                let g = 16 * (k - 1 - a);
                assert(!text_order::lex_lt(want, dictionary_pidx::point_in(s, k - 1).overlap));
                assert forall|j: int| 0 <= j < g implies (#[trigger] h[j]).overlap@ != want by {
                    assert(text_order::lex_lt(h[j].overlap@, h[g].overlap@));
                }
                lemma_scan_skips(h, parents, 0, g, want);
            }
        },
    }
}

/// Law: the index of a table answers like a scan: nothing where a record has no
/// checkpoints, which is where it is not grouped, has too few groups or has
/// numbers that do not fit, and else the parents of the group that has the
/// overlap, if one has it.
pub proof fn the_index_answers_like_a_scan<G: Fn(Checkpoint) -> Vec<ParentEntryV3>>(
    recs: Seq<(int, Seq<u8>)>,
    headers: Seq<Seq<GroupHeader>>,
    i: int,
    parents: Seq<Seq<ParentEntryV3>>,
    want: Seq<u8>,
    decode: G,
    r: Option<Vec<ParentEntryV3>>,
)
    requires
        0 <= i < recs.len(),
        recs.len() == headers.len(),
        in_table_order(recs),
        overlaps_short(headers),
        index_fits(recs, headers),
        overlaps_ascend(headers[i]),
        headers[i].len() <= usize::MAX,
        reads_groups(decode, headers[i], parents, want),
        dictionary_pidx::answered(
            index_file(recs, headers),
            recs[i].0 as u64,
            want,
            decode,
            r,
        ),
    ensures
        r is None <==> !dictionary_pidx::indexed(recs[i].1, headers[i]),
        r matches Some(v) ==> v@ == scanned_from(headers[i], parents, 0, want),
{
    let s = index_file(recs, headers);
    checkpoints_keep_what_a_scan_finds(recs, headers, i, parents, want);
    match dictionary_pidx::find_record(s, 0, dictionary_pidx::records_in(s), recs[i].0 as u64) {
        None => {},
        Some(at) => {
            let (a, b) = dictionary_pidx::span_in(s, at);
            let k = dictionary_pidx::first_past(s, a, b, want);
            if k == a {
                assert(r->0@ =~= Seq::<ParentEntryV3>::empty());
            } else {
                let g = 16 * (k - 1 - a);
                let c = dictionary_pidx::checkpoint_before(s, a, k);
                let (records, points) = dictionary_pidx::built(recs, headers, recs.len() as int);
                lemma_overlaps_kept(recs, headers, recs.len() as int);
                dictionary_pidx::lemma_parts(records, points);
                assert(dictionary_pidx::header_fits(headers[i][g]));
                let stride = s[5] as int;
                assert((k - 1 - a) * stride == g) by (nonlinear_arith)
                    requires
                        stride == 16,
                        g == 16 * (k - 1 - a),
                ;
                assert(is_header(c, headers[i], g));
                assert(call_ensures(decode, (c,), r->0));
            }
        },
    }
}

/// Law: the index of a written table is the one that adding its records one by
/// one, each with where it starts, builds.
pub proof fn a_table_builds_what_its_records_build(
    records: Seq<Seq<u8>>,
    headers: Seq<Seq<GroupHeader>>,
    builders: Seq<GroupIndexBuilder>,
)
    requires
        forall|k: int| 0 <= k < records.len() ==> (#[trigger] records[k]).len() <= u64::MAX,
        builders.len() == records.len() + 1,
        builders[0].records() == Seq::<(u64, u32)>::empty(),
        builders[0].points() == Seq::<Point>::empty(),
        forall|i: int|
            0 <= i < records.len() ==> {
                let before = #[trigger] builders[i];
                let after = builders[i + 1];
                if dictionary_pidx::indexed(records[i], headers[i]) {
                    &&& after.records() == before.records().push(
                        (
                            parents_table::record_start(records, i) as u64,
                            before.points().len() as u32,
                        ),
                    )
                    &&& after.points() == before.points() + dictionary_pidx::points_upto(
                        headers[i],
                        headers[i].len() as int,
                    )
                } else {
                    after.records() == before.records() && after.points() == before.points()
                }
            },
    ensures
        index_file(dictionary_pidx::scan(parents_table::table_of(records), 0), headers)
            == dictionary_pidx::index_bytes(builders.last().records(), builders.last().points()),
{
    let n = records.len() as int;
    let recs = dictionary_pidx::scan(parents_table::table_of(records), 0);
    let f = parents_table::frames(records);
    bytes::lemma_start_ends(f);
    dictionary_pidx::written_table_is_scanned(records, 0);
    assert(recs =~= Seq::new(
        records.len(),
        |k: int| (parents_table::record_start(records, k), records[k]),
    ));
    dictionary_pidx::adding_in_order_builds_the_index(builders, recs, headers, n);
}

} // verus!
