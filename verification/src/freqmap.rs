//! Frequency map: in how many documents an ordinal occurs, and how often in
//! each.
//!
//! ```text
//! [4 bytes] magic "FREQ"
//! [4 bytes] number of terms
//! [4 bytes × number] documents per ordinal
//! [4 bytes × (number + 1)] offsets into the frequencies
//! frequencies, per ordinal: (document, how often), 4 bytes each, ascending by
//! document
//! ```

use vstd::prelude::*;
use vstd::multiset::*;

use crate::bytes;
use crate::bytes::{has_tag, part, push_u32, push_u32s, read_u32};
use crate::offset_table;
use crate::offset_table::{empty_lists, has_table, push_runs, push_to, read_offset};
use crate::order;
use crate::order::{Ordered, sort};

verus! {

/// `FREQ`.
pub const FREQ_MAGIC: u32 = 0x51455246;

/// How often `(ord, doc)` was recorded.
pub open spec fn times(adds: Seq<(u32, u32)>, ord: u32, doc: u32) -> nat {
    adds.to_multiset().count((ord, doc))
}

/// The documents recorded for `ord`, as they came.
pub open spec fn docs_of(adds: Seq<(u32, u32)>, ord: u32) -> Seq<u32>
    decreases adds.len(),
{
    if adds.len() == 0 {
        Seq::empty()
    } else if adds.last().0 == ord {
        docs_of(adds.drop_last(), ord).push(adds.last().1)
    } else {
        docs_of(adds.drop_last(), ord)
    }
}

/// One past the largest ordinal recorded; 0 without any.
pub open spec fn terms_in(adds: Seq<(u32, u32)>) -> int
    decreases adds.len(),
{
    if adds.len() == 0 {
        0
    } else if adds.last().0 >= terms_in(adds.drop_last()) {
        adds.last().0 + 1
    } else {
        terms_in(adds.drop_last())
    }
}

/// The values of a sequence with how long each stays the same.
pub open spec fn run_lengths(s: Seq<u32>) -> Seq<(u32, nat)>
    decreases s.len(),
{
    if s.len() == 0 {
        Seq::empty()
    } else {
        let d = run_lengths(s.drop_last());
        if d.len() > 0 && d.last().0 == s.last() {
            d.drop_last().push((s.last(), d.last().1 + 1))
        } else {
            d.push((s.last(), 1))
        }
    }
}

/// The documents of `ord` in order, with how often it occurs in each.
pub open spec fn row(adds: Seq<(u32, u32)>, ord: u32) -> Seq<(u32, nat)> {
    run_lengths(order::sorted(docs_of(adds, ord)))
}

/// The bytes of a row.
pub open spec fn row_bytes(r: Seq<(u32, nat)>) -> Seq<u8>
    decreases r.len(),
{
    if r.len() == 0 {
        Seq::empty()
    } else {
        row_bytes(r.drop_last()) + (bytes::le32(r.last().0) + bytes::le32(r.last().1 as u32))
    }
}

/// The bytes of the rows of all ordinals below `n`.
pub open spec fn row_runs(adds: Seq<(u32, u32)>, n: int) -> Seq<Seq<u8>> {
    Seq::new(n as nat, |o: int| row_bytes(row(adds, o as u32)))
}

/// The number of documents of all ordinals below `n`.
pub open spec fn doc_freqs(adds: Seq<(u32, u32)>, n: int) -> Seq<u32> {
    Seq::new(n as nat, |o: int| row(adds, o as u32).len() as u32)
}

/// The file of what was recorded; empty where nothing was.
pub open spec fn freqmap_bytes(adds: Seq<(u32, u32)>) -> Seq<u8> {
    let n = terms_in(adds);
    if n == 0 {
        Seq::empty()
    } else {
        bytes::le32(FREQ_MAGIC) + bytes::le32(n as u32) + bytes::le32s(doc_freqs(adds, n)) + offset_table::runs_bytes(row_runs(adds, n))
    }
}

/// Number of terms a file is for.
pub open spec fn count_in(s: Seq<u8>) -> u32 {
    bytes::get32(s, 4)
}

/// Where the offsets stand.
pub open spec fn offsets_at(s: Seq<u8>) -> int {
    8 + 4 * count_in(s)
}

/// Whether the data holds the magic, a count and its whole tables.
pub open spec fn opens(s: Seq<u8>) -> bool {
    s.len() >= 8 && bytes::tagged(s, FREQ_MAGIC) && offset_table::table_fits(s, offsets_at(s), count_in(s) as int)
}

/// The documents per ordinal.
pub open spec fn doc_freq_in(s: Seq<u8>, ordinal: u32) -> u32 {
    if ordinal >= count_in(s) {
        0
    } else {
        bytes::get32(s, 8 + 4 * ordinal)
    }
}

/// The frequencies of `ordinal`; none past the table or where they are not all
/// there.
pub open spec fn freqs_in(s: Seq<u8>, ordinal: u32) -> Seq<u8> {
    let start = offset_table::offset_at(s, offsets_at(s), ordinal as int);
    let end = offset_table::offset_at(s, offsets_at(s), ordinal + 1);
    let rest = offset_table::after_table(s, offsets_at(s), count_in(s) as int);
    if ordinal >= count_in(s) || start >= end || end > rest.len() {
        Seq::empty()
    } else {
        rest.subrange(start, end)
    }
}

/// The documents of a run of frequencies.
pub open spec fn docs_in(run: Seq<u8>) -> Seq<u32> {
    Seq::new(run.len() / 8, |i: int| bytes::get32(run, 8 * i))
}

/// How often, for each document of a run of frequencies.
pub open spec fn counts_in(run: Seq<u8>) -> Seq<u32> {
    Seq::new(run.len() / 8, |i: int| bytes::get32(run, 8 * i + 4))
}

/// Where halving from `lo` to `hi` looks for `doc`.
pub open spec fn halve(docs: Seq<u32>, lo: int, hi: int, doc: u32) -> int
    decreases hi - lo,
{
    if lo >= hi {
        lo
    } else {
        let mid = lo + (hi - lo) / 2;
        if docs[mid] < doc {
            halve(docs, mid + 1, hi, doc)
        } else {
            halve(docs, lo, mid, doc)
        }
    }
}

/// How often `ordinal` occurs in `doc`, found by halving.
pub open spec fn term_freq_in(s: Seq<u8>, ordinal: u32, doc: u32) -> u32 {
    let run = freqs_in(s, ordinal);
    let i = halve(docs_in(run), 0, docs_in(run).len() as int, doc);
    if i < docs_in(run).len() && docs_in(run)[i] == doc {
        counts_in(run)[i]
    } else {
        0
    }
}

/// The sum of the counts.
pub open spec fn total(counts: Seq<u32>) -> int
    decreases counts.len(),
{
    if counts.len() == 0 {
        0
    } else {
        total(counts.drop_last()) + counts.last()
    }
}

proof fn lemma_docs_count(adds: Seq<(u32, u32)>, ord: u32, doc: u32)
    ensures
        docs_of(adds, ord).to_multiset().count(doc) == times(adds, ord, doc),
    decreases adds.len(),
{
    broadcast use group_multiset_axioms;

    if adds.len() == 0 {
        adds.to_multiset_ensures();
        docs_of(adds, ord).to_multiset_ensures();
        if adds.to_multiset().count((ord, doc)) > 0 {
            assert(adds.contains((ord, doc)));
        }
        if docs_of(adds, ord).to_multiset().count(doc) > 0 {
            assert(docs_of(adds, ord).contains(doc));
        }
    } else {
        let d = adds.drop_last();
        lemma_docs_count(d, ord, doc);
        d.to_multiset_ensures();
        docs_of(d, ord).to_multiset_ensures();
        assert(adds =~= d.push(adds.last()));
    }
}

proof fn lemma_take_count(s: Seq<u32>, i: int, x: u32)
    requires
        0 <= i <= s.len(),
    ensures
        s.take(i).to_multiset().count(x) <= s.to_multiset().count(x),
{
    vstd::seq_lib::lemma_multiset_commutative(s.take(i), s.skip(i));
    assert(s =~= s.take(i) + s.skip(i));
}

/// On an ordered sequence the run lengths have each value once, in order, with
/// how often it occurs.
proof fn lemma_run_lengths(s: Seq<u32>)
    requires
        order::is_sorted(s),
    ensures
        run_lengths(s).len() <= s.len(),
        s.len() > 0 ==> run_lengths(s).len() > 0 && run_lengths(s).last().0 == s.last(),
        forall|i: int, j: int|
            0 <= i < j < run_lengths(s).len() ==> (#[trigger] run_lengths(s)[i]).0 < (
            #[trigger] run_lengths(s)[j]).0,
        forall|i: int|
            0 <= i < run_lengths(s).len() ==> (#[trigger] run_lengths(s)[i]).1
                == s.to_multiset().count(run_lengths(s)[i].0) && run_lengths(s)[i].1 > 0,
        forall|x: u32|
            #![trigger s.contains(x)]
            s.contains(x) ==> exists|i: int|
                0 <= i < run_lengths(s).len() && (#[trigger] run_lengths(s)[i]).0 == x,
    decreases s.len(),
{
    broadcast use group_multiset_axioms;

    if s.len() > 0 {
        let d = s.drop_last();
        let x = s.last();
        let rd = run_lengths(d);
        let r = run_lengths(s);
        assert(order::is_sorted(d)) by {
            assert forall|i: int, j: int| 0 <= i < j < d.len() implies (#[trigger] d[i]).not_after(
                #[trigger] d[j],
            ) by {
                assert(s[i].not_after(s[j]));
            }
        }
        lemma_run_lengths(d);
        d.to_multiset_ensures();
        assert(s =~= d.push(x));
        assert(s.to_multiset() =~= d.to_multiset().insert(x));
        if rd.len() > 0 {
            assert(d.len() > 0);
            assert(s[s.len() - 2].not_after(s[s.len() - 1]));
            assert(rd.last().0 <= x);
            assert forall|i: int| 0 <= i < rd.len() - 1 implies (#[trigger] rd[i]).0 < x by {
                assert(rd[i].0 < rd[rd.len() - 1].0);
            }
        }
        if !(rd.len() > 0 && rd.last().0 == x) {
            assert(!d.contains(x)) by {
                if d.contains(x) {
                    let i = choose|i: int| 0 <= i < rd.len() && (#[trigger] rd[i]).0 == x;
                    if i < rd.len() - 1 {
                        assert(rd[i].0 < rd[rd.len() - 1].0);
                    }
                }
            }
            assert(d.to_multiset().count(x) == 0);
        }
        assert forall|y: u32| #![trigger s.contains(y)] s.contains(y) implies exists|i: int|
            0 <= i < r.len() && (#[trigger] r[i]).0 == y by {
            if y == x {
                assert(r[r.len() - 1].0 == y);
            } else {
                let k = choose|k: int| 0 <= k < s.len() && s[k] == y;
                assert(d[k] == y);
                assert(d.contains(y));
                let i = choose|i: int| 0 <= i < rd.len() && (#[trigger] rd[i]).0 == y;
                assert(r[i].0 == y);
            }
        }
    }
}

/// The rows hold each document of an ordinal once, in order, with how often it
/// was recorded.
proof fn lemma_row(adds: Seq<(u32, u32)>, ord: u32)
    ensures
        forall|i: int, j: int|
            0 <= i < j < row(adds, ord).len() ==> (#[trigger] row(adds, ord)[i]).0 < (
            #[trigger] row(adds, ord)[j]).0,
        forall|i: int|
            0 <= i < row(adds, ord).len() ==> (#[trigger] row(adds, ord)[i]).1 == times(
                adds,
                ord,
                row(adds, ord)[i].0,
            ),
        forall|doc: u32|
            #![trigger times(adds, ord, doc)]
            times(adds, ord, doc) > 0 ==> exists|i: int|
                0 <= i < row(adds, ord).len() && (#[trigger] row(adds, ord)[i]).0 == doc,
{
    let docs = docs_of(adds, ord);
    let s = order::sorted(docs);
    order::lemma_sorted(docs);
    lemma_run_lengths(s);
    assert forall|doc: u32| #[trigger] times(adds, ord, doc) == s.to_multiset().count(doc) by {
        lemma_docs_count(adds, ord, doc);
    }
    s.to_multiset_ensures();
    assert forall|doc: u32|
        #![trigger times(adds, ord, doc)]
        times(adds, ord, doc) > 0 implies exists|i: int|
        0 <= i < row(adds, ord).len() && (#[trigger] row(adds, ord)[i]).0 == doc by {
        assert(s.to_multiset().count(doc) > 0);
        assert(s.contains(doc));
        let i = choose|i: int| 0 <= i < run_lengths(s).len() && (#[trigger] run_lengths(s)[i]).0 == doc;
        assert(row(adds, ord)[i].0 == doc);
    }
    assert forall|i: int| 0 <= i < row(adds, ord).len() implies (#[trigger] row(adds, ord)[i]).1
        == times(adds, ord, row(adds, ord)[i].0) by {
    }
}

proof fn lemma_row_bytes(r: Seq<(u32, nat)>, i: int)
    requires
        0 <= i < r.len(),
    ensures
        row_bytes(r).len() == 8 * r.len(),
        row_bytes(r).subrange(8 * i, 8 * i + 8) == bytes::le32(r[i].0) + bytes::le32(r[i].1 as u32),
    decreases r.len(),
{
    broadcast use bytes::group_le_len;

    let d = r.drop_last();
    if d.len() > 0 {
        lemma_row_bytes(
            d,
            if i < d.len() {
                i
            } else {
                0
            },
        );
    } else {
        assert(row_bytes(d) =~= Seq::<u8>::empty());
    }
    if i == r.len() - 1 {
        assert(row_bytes(r).subrange(8 * i, 8 * i + 8) =~= bytes::le32(r[i].0) + bytes::le32(r[i].1 as u32));
    } else {
        assert(row_bytes(r).subrange(8 * i, 8 * i + 8) =~= row_bytes(d).subrange(8 * i, 8 * i + 8));
    }
}

proof fn lemma_row_reads(r: Seq<(u32, nat)>)
    requires
        forall|i: int| 0 <= i < r.len() ==> (#[trigger] r[i]).1 <= u32::MAX,
    ensures
        row_bytes(r).len() == 8 * r.len(),
        docs_in(row_bytes(r)) == Seq::new(r.len(), |i: int| r[i].0),
        counts_in(row_bytes(r)) == Seq::new(r.len(), |i: int| r[i].1 as u32),
{
    broadcast use bytes::group_le_len;

    let b = row_bytes(r);
    if r.len() > 0 {
        lemma_row_bytes(r, 0);
    }
    assert forall|i: int| 0 <= i < r.len() implies docs_in(b)[i] == r[i].0 && counts_in(b)[i]
        == r[i].1 by {
        lemma_row_bytes(r, i);
        let e = b.subrange(8 * i, 8 * i + 8);
        assert(b.subrange(8 * i, 8 * i + 4) =~= e.subrange(0, 4));
        assert(e.subrange(0, 4) =~= bytes::le32(r[i].0));
        assert(b.subrange(8 * i + 4, 8 * i + 8) =~= e.subrange(4, 8));
        assert(e.subrange(4, 8) =~= bytes::le32(r[i].1 as u32));
        bytes::lemma_get32(b, 8 * i, r[i].0);
        bytes::lemma_get32(b, 8 * i + 4, r[i].1 as u32);
    }
    assert(docs_in(b) =~= Seq::new(r.len(), |i: int| r[i].0));
    assert(counts_in(b) =~= Seq::new(r.len(), |i: int| r[i].1 as u32));
}

proof fn lemma_halve(docs: Seq<u32>, lo: int, hi: int, doc: u32, i: int)
    requires
        0 <= lo <= hi <= docs.len(),
        forall|a: int, b: int| 0 <= a < b < docs.len() ==> (#[trigger] docs[a]) < (#[trigger] docs[b]),
        lo <= i < hi,
        docs[i] == doc,
    ensures
        halve(docs, lo, hi, doc) == i,
    decreases hi - lo,
{
    let mid = lo + (hi - lo) / 2;
    if docs[mid] < doc {
        assert(mid < i);
        lemma_halve(docs, mid + 1, hi, doc, i);
    } else if mid == i {
        lemma_halve_end(docs, lo, mid, doc);
    } else {
        if mid < i {
            assert(docs[mid] < docs[i]);
        }
        lemma_halve(docs, lo, mid, doc, i);
    }
}

proof fn lemma_halve_end(docs: Seq<u32>, lo: int, hi: int, doc: u32)
    requires
        0 <= lo <= hi < docs.len(),
        forall|a: int, b: int| 0 <= a < b < docs.len() ==> (#[trigger] docs[a]) < (#[trigger] docs[b]),
        docs[hi] == doc,
    ensures
        halve(docs, lo, hi, doc) == hi,
    decreases hi - lo,
{
    if lo < hi {
        let mid = lo + (hi - lo) / 2;
        assert(docs[mid] < docs[hi]);
        lemma_halve_end(docs, mid + 1, hi, doc);
    }
}

proof fn lemma_halve_stays(docs: Seq<u32>, lo: int, hi: int, doc: u32)
    requires
        0 <= lo <= hi <= docs.len(),
    ensures
        lo <= halve(docs, lo, hi, doc) <= hi,
    decreases hi - lo,
{
    if lo < hi {
        let mid = lo + (hi - lo) / 2;
        if docs[mid] < doc {
            lemma_halve_stays(docs, mid + 1, hi, doc);
        } else {
            lemma_halve_stays(docs, lo, mid, doc);
        }
    }
}

proof fn lemma_terms(adds: Seq<(u32, u32)>)
    ensures
        0 <= terms_in(adds) <= u32::MAX + 1,
        forall|i: int| 0 <= i < adds.len() ==> (#[trigger] adds[i]).0 < terms_in(adds),
    decreases adds.len(),
{
    if adds.len() > 0 {
        lemma_terms(adds.drop_last());
        assert forall|i: int| 0 <= i < adds.len() implies (#[trigger] adds[i]).0 < terms_in(adds) by {
            if i < adds.len() - 1 {
                assert(adds.drop_last()[i] == adds[i]);
            }
        }
    }
}

proof fn lemma_beyond(adds: Seq<(u32, u32)>, ord: u32, doc: u32)
    requires
        ord >= terms_in(adds),
    ensures
        times(adds, ord, doc) == 0,
{
    lemma_terms(adds);
    adds.to_multiset_ensures();
    if times(adds, ord, doc) > 0 {
        assert(adds.contains((ord, doc)));
        let i = choose|i: int| 0 <= i < adds.len() && adds[i] == (ord, doc);
        assert(adds[i].0 < terms_in(adds));
    }
}

/// Whether no pair was recorded more often than a count can hold.
pub open spec fn countable(adds: Seq<(u32, u32)>) -> bool {
    forall|o: u32, d: u32| #[trigger] times(adds, o, d) <= u32::MAX
}

/// The parts of a written file.
proof fn lemma_file(adds: Seq<(u32, u32)>, ordinal: u32)
    requires
        countable(adds),
        0 < terms_in(adds) <= u32::MAX,
        bytes::flat(row_runs(adds, terms_in(adds))).len() <= u32::MAX,
    ensures
        opens(freqmap_bytes(adds)),
        count_in(freqmap_bytes(adds)) == terms_in(adds),
        ordinal < terms_in(adds) ==> doc_freq_in(freqmap_bytes(adds), ordinal) == row(
            adds,
            ordinal,
        ).len() as u32,
        ordinal < terms_in(adds) ==> freqs_in(freqmap_bytes(adds), ordinal) == row_bytes(
            row(adds, ordinal),
        ),
{
    broadcast use bytes::group_le_len;

    let file = freqmap_bytes(adds);
    let n = terms_in(adds);
    let dfs = doc_freqs(adds, n);
    let runs = row_runs(adds, n);
    let head = bytes::le32(FREQ_MAGIC) + bytes::le32(n as u32) + bytes::le32s(dfs);
    bytes::lemma_le32s_len(dfs);
    bytes::lemma_le32s_len(bytes::starts32(runs));
    assert(file =~= head + offset_table::runs_bytes(runs));
    assert(file.subrange(0, 4) =~= bytes::le32(FREQ_MAGIC));
    assert(file.subrange(4, 8) =~= bytes::le32(n as u32));
    bytes::lemma_get32(file, 0, FREQ_MAGIC);
    bytes::lemma_get32(file, 4, n as u32);
    assert(file.subrange(8, 8 + 4 * n) =~= bytes::le32s(dfs));
    offset_table::written_runs_read_back(head, runs, 0);
    if ordinal < n {
        bytes::lemma_table32(file, 8, dfs, ordinal as int);
        offset_table::written_runs_read_back(head, runs, ordinal as int);
        bytes::lemma_flat_at(runs, ordinal as int);
        assert(freqs_in(file, ordinal) =~= runs[ordinal as int]);
    }
}

/// Law: of every ordinal and document, the file gives back how often the pair
/// was recorded, and of every ordinal, the number of its documents.
pub proof fn recorded_frequencies_read_back(adds: Seq<(u32, u32)>, ordinal: u32, doc: u32)
    requires
        countable(adds),
        0 < terms_in(adds) <= u32::MAX,
        bytes::flat(row_runs(adds, terms_in(adds))).len() <= u32::MAX,
    ensures
        opens(freqmap_bytes(adds)),
        count_in(freqmap_bytes(adds)) == terms_in(adds),
        term_freq_in(freqmap_bytes(adds), ordinal, doc) == times(adds, ordinal, doc),
        doc_freq_in(freqmap_bytes(adds), ordinal) == docs_of(adds, ordinal).to_set().len(),
{
    let file = freqmap_bytes(adds);
    let n = terms_in(adds);
    lemma_file(adds, ordinal);
    let r = row(adds, ordinal);
    lemma_row(adds, ordinal);
    assert forall|i: int| 0 <= i < r.len() implies (#[trigger] r[i]).1 <= u32::MAX by {
        assert(times(adds, ordinal, r[i].0) <= u32::MAX);
    }
    lemma_row_reads(r);
    lemma_row_docs(adds, ordinal);
    if ordinal < n {
        let run = row_bytes(r);
        let docs = docs_in(run);
        lemma_halve_stays(docs, 0, docs.len() as int, doc);
        if times(adds, ordinal, doc) > 0 {
            let i = choose|i: int| 0 <= i < r.len() && (#[trigger] r[i]).0 == doc;
            assert forall|a: int, b: int| 0 <= a < b < docs.len() implies (#[trigger] docs[a]) < (
            #[trigger] docs[b]) by {
                assert(r[a].0 < r[b].0);
            }
            lemma_halve(docs, 0, docs.len() as int, doc, i);
        } else {
            let i = halve(docs, 0, docs.len() as int, doc);
            if i < docs.len() && docs[i] == doc {
                assert(r[i].1 == times(adds, ordinal, r[i].0));
            }
        }
        bytes::lemma_flat_at(row_runs(adds, n), ordinal as int);
        assert(r.len() <= u32::MAX);
    } else {
        lemma_beyond(adds, ordinal, doc);
        assert(docs_of(adds, ordinal).to_set() =~= Set::empty()) by {
            assert forall|d: u32| !docs_of(adds, ordinal).contains(d) by {
                lemma_beyond(adds, ordinal, d);
                lemma_docs_count(adds, ordinal, d);
                docs_of(adds, ordinal).to_multiset_ensures();
            }
        }
    }
}

/// A row has as many entries as its ordinal has documents.
proof fn lemma_row_docs(adds: Seq<(u32, u32)>, ord: u32)
    ensures
        row(adds, ord).len() == docs_of(adds, ord).to_set().len(),
{
    let docs = docs_of(adds, ord);
    let r = row(adds, ord);
    let firsts = Seq::new(r.len(), |i: int| r[i].0);
    lemma_row(adds, ord);
    assert(firsts.no_duplicates()) by {
        assert forall|i: int, j: int| 0 <= i < firsts.len() && 0 <= j < firsts.len() && i
            != j implies firsts[i] != firsts[j] by {
            if i < j {
                assert(r[i].0 < r[j].0);
            } else {
                assert(r[j].0 < r[i].0);
            }
        }
    }
    firsts.unique_seq_to_set();
    docs.to_multiset_ensures();
    assert(firsts.to_set() =~= docs.to_set()) by {
        assert forall|d: u32| firsts.contains(d) <==> docs.contains(d) by {
            lemma_docs_count(adds, ord, d);
            if docs.contains(d) {
                assert(times(adds, ord, d) > 0);
                let i = choose|i: int| 0 <= i < r.len() && (#[trigger] r[i]).0 == d;
                assert(firsts[i] == d);
            }
            if firsts.contains(d) {
                let i = choose|i: int| 0 <= i < firsts.len() && firsts[i] == d;
                order::lemma_sorted(docs);
                lemma_run_lengths(order::sorted(docs));
                assert(r[i].1 == times(adds, ord, d));
                assert(r[i].1 > 0);
            }
        }
    }
}

/// Counts how often ordinals occur in documents.
pub struct FreqMapWriter {
    adds: Vec<(u32, u32)>,
    max_ord: u32,
}

fn encode_row(docs: &Vec<u32>) -> (r: (Vec<u8>, u32))
    requires
        order::is_sorted(docs@),
        forall|d: u32| #[trigger] docs@.to_multiset().count(d) <= u32::MAX,
    ensures
        r.0@ == row_bytes(run_lengths(docs@)),
        r.1 == run_lengths(docs@).len() as u32,
{
    let mut rows: Vec<(u32, u32)> = Vec::new();
    let mut i: usize = 0;
    assert(docs@.take(0) =~= Seq::<u32>::empty());
    while i < docs.len()
        invariant
            i <= docs@.len(),
            order::is_sorted(docs@),
            forall|d: u32| #[trigger] docs@.to_multiset().count(d) <= u32::MAX,
            rows@.len() == run_lengths(docs@.take(i as int)).len(),
            forall|k: int|
                0 <= k < rows@.len() ==> (#[trigger] rows@[k]).0 == run_lengths(
                    docs@.take(i as int),
                )[k].0 && rows@[k].1 == run_lengths(docs@.take(i as int))[k].1,
        decreases docs@.len() - i,
    {
        let d: u32 = docs[i];
        let ghost t = docs@.take(i + 1);
        let ghost rd = run_lengths(docs@.take(i as int));
        proof {
            assert(t.drop_last() =~= docs@.take(i as int));
            assert(t.last() == d);
            assert(order::is_sorted(t)) by {
                assert forall|a: int, b: int| 0 <= a < b < t.len() implies (
                #[trigger] t[a]).not_after(#[trigger] t[b]) by {
                    assert(docs@[a].not_after(docs@[b]));
                }
            }
            lemma_run_lengths(t);
            lemma_take_count(docs@, i + 1, d);
        }
        let n: usize = rows.len();
        if n > 0 && rows[n - 1].0 == d {
            let c: u32 = rows[n - 1].1;
            proof {
                assert(run_lengths(t)[n - 1].1 == t.to_multiset().count(d));
                assert(run_lengths(t)[n - 1] == (d, rd.last().1 + 1));
            }
            rows.set(n - 1, (d, c + 1));
        } else {
            rows.push((d, 1));
        }
        i += 1;
    }
    assert(docs@.take(i as int) =~= docs@);
    let ghost all = run_lengths(docs@);
    let mut out: Vec<u8> = Vec::new();
    let mut j: usize = 0;
    assert(all.take(0) =~= Seq::<(u32, nat)>::empty());
    while j < rows.len()
        invariant
            j <= rows@.len(),
            rows@.len() == all.len(),
            forall|k: int|
                0 <= k < rows@.len() ==> (#[trigger] rows@[k]).0 == all[k].0 && rows@[k].1 == all[k].1,
            out@ == row_bytes(all.take(j as int)),
        decreases rows@.len() - j,
    {
        let e = rows[j];
        push_u32(&mut out, e.0);
        push_u32(&mut out, e.1);
        j += 1;
        proof {
            assert(all.take(j as int).drop_last() =~= all.take(j - 1));
            assert(out@ =~= row_bytes(all.take(j - 1)) + (bytes::le32(e.0) + bytes::le32(e.1)));
        }
    }
    assert(all.take(j as int) =~= all);
    (out, rows.len() as u32)
}

impl FreqMapWriter {
    /// What was recorded: ordinal and document, as they came.
    pub closed spec fn adds(&self) -> Seq<(u32, u32)> {
        self.adds@
    }

    /// The counts fit, and the largest ordinal is known.
    pub closed spec fn wf(&self) -> bool {
        countable(self.adds@) && self.max_ord == terms_in(self.adds@)
    }

    /// Nothing recorded.
    pub fn new() -> (r: Self)
        ensures
            r.wf(),
            r.adds() == Seq::<(u32, u32)>::empty(),
    {
        let r = FreqMapWriter { adds: Vec::new(), max_ord: 0 };
        proof {
            assert(countable(r.adds@)) by {
                r.adds@.to_multiset_ensures();
                assert forall|o: u32, d: u32| #[trigger] times(r.adds@, o, d) <= u32::MAX by {
                    if times(r.adds@, o, d) > 0 {
                        assert(r.adds@.contains((o, d)));
                    }
                }
            }
        }
        r
    }

    /// Records one more occurrence of `ord` in `doc_id`.
    pub fn add(&mut self, ord: u32, doc_id: u32)
        requires
            old(self).wf(),
            ord < u32::MAX,
            times(old(self).adds(), ord, doc_id) < u32::MAX,
        ensures
            final(self).wf(),
            final(self).adds() == old(self).adds().push((ord, doc_id)),
    {
        broadcast use group_multiset_axioms;

        proof {
            self.adds@.to_multiset_ensures();
            assert(self.adds@.push((ord, doc_id)).drop_last() =~= self.adds@);
        }
        self.adds.push((ord, doc_id));
        if ord >= self.max_ord {
            self.max_ord = ord + 1;
        }
        proof {
            assert forall|o: u32, d: u32| #[trigger] times(self.adds@, o, d) <= u32::MAX by {
                assert(times(old(self).adds@, o, d) <= u32::MAX);
            }
        }
    }

    /// The file; empty where nothing was recorded.
    pub fn serialize(&self) -> (out: Vec<u8>)
        requires
            self.wf(),
            bytes::flat(row_runs(self.adds(), terms_in(self.adds()))).len() <= u32::MAX,
        ensures
            out@ == freqmap_bytes(self.adds()),
    {
        let num_terms: u32 = self.max_ord;
        if num_terms == 0 {
            return Vec::new();
        }
        let ghost adds = self.adds@;
        let ghost n = terms_in(adds);
        let mut per_ord = empty_lists(num_terms as usize);
        let mut i: usize = 0;
        assert(offset_table::lists_of(per_ord@).len() == per_ord@.len());
        assert(adds.take(0) =~= Seq::<(u32, u32)>::empty());
        proof {
            lemma_terms(adds);
        }
        while i < self.adds.len()
            invariant
                i <= adds.len(),
                adds == self.adds@,
                n == terms_in(adds),
                num_terms == n,
                per_ord@.len() == n,
                forall|k: int| 0 <= k < adds.len() ==> (#[trigger] adds[k]).0 < n,
                forall|o: int|
                    0 <= o < n ==> (#[trigger] offset_table::lists_of(per_ord@)[o]) == docs_of(
                        adds.take(i as int),
                        o as u32,
                    ),
            decreases adds.len() - i,
        {
            let a = self.adds[i];
            let ghost before = offset_table::lists_of(per_ord@);
            proof {
                assert(adds.take(i + 1).drop_last() =~= adds.take(i as int));
                assert(adds[i as int].0 < n);
            }
            push_to(&mut per_ord, a.0 as usize, a.1);
            i += 1;
            proof {
                assert(offset_table::lists_of(per_ord@).len() == per_ord@.len());
                assert forall|o: int| 0 <= o < n implies (#[trigger] offset_table::lists_of(per_ord@)[o]) == docs_of(
                    adds.take(i as int),
                    o as u32,
                ) by {
                    assert(before[o] == docs_of(adds.take(i - 1), o as u32));
                }
            }
        }
        assert(adds.take(i as int) =~= adds);
        let mut runs: Vec<Vec<u8>> = Vec::new();
        let mut dfs: Vec<u32> = Vec::new();
        let mut o: usize = 0;
        while o < per_ord.len()
            invariant
                o <= per_ord@.len(),
                per_ord@.len() == n,
                n <= u32::MAX,
                countable(adds),
                runs@.len() == o,
                dfs@.len() == o,
                forall|k: int|
                    0 <= k < n ==> (#[trigger] offset_table::lists_of(per_ord@)[k]) == docs_of(adds, k as u32),
                forall|k: int| 0 <= k < o ==> (#[trigger] runs@[k])@ == row_bytes(row(adds, k as u32)),
                forall|k: int| 0 <= k < o ==> (#[trigger] dfs@[k]) == row(adds, k as u32).len() as u32,
            decreases per_ord@.len() - o,
        {
            let docs = sort(&per_ord[o]);
            proof {
                let own = docs_of(adds, o as u32);
                assert(offset_table::lists_of(per_ord@)[o as int] == own);
                order::lemma_sorted(own);
                assert forall|d: u32| #[trigger] docs@.to_multiset().count(d) <= u32::MAX by {
                    lemma_docs_count(adds, o as u32, d);
                    assert(times(adds, o as u32, d) <= u32::MAX);
                }
            }
            let (run, df) = encode_row(&docs);
            runs.push(run);
            dfs.push(df);
            o += 1;
        }
        assert(bytes::deep(runs@) =~= row_runs(adds, n));
        assert(dfs@ =~= doc_freqs(adds, n));
        let mut out: Vec<u8> = Vec::new();
        push_u32(&mut out, FREQ_MAGIC);
        push_u32(&mut out, num_terms);
        push_u32s(&mut out, &dfs);
        push_runs(&mut out, &runs);
        assert(out@ =~= freqmap_bytes(adds));
        out
    }
}

/// Looks frequencies up.
pub struct FreqMapReader<'a> {
    num_terms: u32,
    data: &'a [u8],
}

impl<'a> FreqMapReader<'a> {
    /// The bytes the reader stands on.
    pub closed spec fn bytes(&self) -> Seq<u8> {
        self.data@
    }

    /// The reader holds the tables and their length.
    pub closed spec fn wf(&self) -> bool {
        opens(self.data@) && self.num_terms == count_in(self.data@)
    }

    /// Opens a file; `None` without the magic or if the data is too short for
    /// the tables.
    pub fn open(bytes: &'a [u8]) -> (r: Option<Self>)
        ensures
            r is Some <==> opens(bytes@),
            r matches Some(t) ==> t.wf() && t.bytes() == bytes@,
    {
        let len: usize = bytes.len();
        if len < 8 || !has_tag(bytes, FREQ_MAGIC) {
            return None;
        }
        let num_terms: u32 = read_u32(bytes, 4);
        if ((len - 8) / 4) as u64 <= num_terms as u64 {
            return None;
        }
        assert(8 + 4 * num_terms <= len);
        if !has_table(bytes, 8 + 4 * (num_terms as usize), num_terms) {
            return None;
        }
        Some(FreqMapReader { num_terms, data: bytes })
    }

    /// Number of terms.
    pub fn num_terms(&self) -> (n: u32)
        requires
            self.wf(),
        ensures
            n == count_in(self.bytes()),
    {
        self.num_terms
    }

    /// Number of documents of `ordinal`.
    pub fn doc_freq(&self, ordinal: u32) -> (n: u32)
        requires
            self.wf(),
        ensures
            n == doc_freq_in(self.bytes(), ordinal),
    {
        if ordinal >= self.num_terms {
            return 0;
        }
        let len: usize = self.data.len();
        assert(8 + 4 * ordinal + 4 <= len);
        read_u32(self.data, 8 + 4 * (ordinal as usize))
    }

    fn freqs(&self, ordinal: u32) -> (r: &'a [u8])
        requires
            self.wf(),
        ensures
            r@ == freqs_in(self.bytes(), ordinal),
    {
        let n: u32 = self.num_terms;
        if ordinal >= n {
            let r = part(self.data, 0, 0);
            assert(r@ =~= Seq::<u8>::empty());
            return r;
        }
        let len: usize = self.data.len();
        assert(8 + 4 * n + 4 * (n + 1) <= len);
        let at: usize = 8 + 4 * (n as usize);
        let base: usize = at + 4 * (n as usize + 1);
        let start: u32 = read_offset(self.data, at, n, ordinal);
        let end: u32 = read_offset(self.data, at, n, ordinal + 1);
        if start >= end || end as u64 > (len - base) as u64 {
            let r = part(self.data, 0, 0);
            assert(r@ =~= Seq::<u8>::empty());
            return r;
        }
        let r = part(self.data, base + start as usize, base + end as usize);
        assert(r@ =~= offset_table::after_table(self.data@, at as int, n as int).subrange(
            start as int,
            end as int,
        ));
        r
    }

    /// How often `ordinal` occurs in `doc_id`.
    pub fn term_freq(&self, ordinal: u32, doc_id: u32) -> (r: u32)
        requires
            self.wf(),
        ensures
            r == term_freq_in(self.bytes(), ordinal, doc_id),
    {
        let run = self.freqs(ordinal);
        let len: usize = run.len();
        let n: usize = len / 8;
        let ghost docs = docs_in(run@);
        let mut lo: usize = 0;
        let mut hi: usize = n;
        while lo < hi
            invariant
                len == run@.len(),
                n == len / 8,
                lo <= hi <= n,
                docs == docs_in(run@),
                halve(docs, lo as int, hi as int, doc_id) == halve(docs, 0, n as int, doc_id),
            decreases hi - lo,
        {
            let mid: usize = lo + (hi - lo) / 2;
            assert(8 * mid + 8 <= len);
            if read_u32(run, 8 * mid) < doc_id {
                lo = mid + 1;
            } else {
                hi = mid;
            }
        }
        if lo < n {
            assert(8 * lo + 8 <= len);
            if read_u32(run, 8 * lo) == doc_id {
                return read_u32(run, 8 * lo + 4);
            }
        }
        0
    }

    /// How often `ordinal` occurs in all documents.
    pub fn total_term_freq(&self, ordinal: u32) -> (r: u64)
        requires
            self.wf(),
        ensures
            r == total(counts_in(freqs_in(self.bytes(), ordinal))),
    {
        let run = self.freqs(ordinal);
        let len: usize = run.len();
        let n: usize = len / 8;
        let ghost counts = counts_in(run@);
        let mut sum: u64 = 0;
        let mut i: usize = 0;
        assert(len <= u32::MAX);
        while i < n
            invariant
                len == run@.len(),
                len <= u32::MAX,
                n == len / 8,
                i <= n,
                counts == counts_in(run@),
                sum == total(counts.take(i as int)),
                sum <= i * 4294967295,
            decreases n - i,
        {
            assert(8 * i + 8 <= len);
            let c: u32 = read_u32(run, 8 * i + 4);
            assert(counts.take(i + 1).drop_last() =~= counts.take(i as int));
            assert(sum <= 536870912 * 4294967295) by (nonlinear_arith)
                requires
                    sum <= i * 4294967295,
                    i <= 536870912,
            ;
            sum = sum + c as u64;
            i += 1;
            assert(i * 4294967295 == (i - 1) * 4294967295 + 4294967295) by (nonlinear_arith);
        }
        assert(counts.take(i as int) =~= counts);
        sum
    }
}

/// The sum of the lengths of runs.
spec fn run_sum(r: Seq<(u32, nat)>) -> int
    decreases r.len(),
{
    if r.len() == 0 {
        0
    } else {
        run_sum(r.drop_last()) + r.last().1
    }
}

proof fn lemma_run_sum(s: Seq<u32>)
    ensures
        run_sum(run_lengths(s)) == s.len(),
    decreases s.len(),
{
    if s.len() > 0 {
        lemma_run_sum(s.drop_last());
        let d = run_lengths(s.drop_last());
        let r = run_lengths(s);
        if d.len() > 0 && d.last().0 == s.last() {
            assert(r.drop_last() =~= d.drop_last());
        } else {
            assert(r.drop_last() =~= d);
        }
    }
}

proof fn lemma_total(counts: Seq<u32>, r: Seq<(u32, nat)>)
    requires
        counts.len() == r.len(),
        forall|i: int| 0 <= i < r.len() ==> (#[trigger] counts[i]) == r[i].1,
    ensures
        total(counts) == run_sum(r),
    decreases r.len(),
{
    if r.len() > 0 {
        assert(counts[r.len() - 1] == r[r.len() - 1].1);
        let a = counts.drop_last();
        let b = r.drop_last();
        assert forall|i: int| 0 <= i < b.len() implies (#[trigger] a[i]) == b[i].1 by {
            assert(counts[i] == r[i].1);
        }
        lemma_total(a, b);
    }
}

/// Law: the total frequency of an ordinal is how often it was recorded.
pub proof fn recorded_totals_read_back(adds: Seq<(u32, u32)>, ordinal: u32)
    requires
        countable(adds),
        0 < terms_in(adds) <= u32::MAX,
        bytes::flat(row_runs(adds, terms_in(adds))).len() <= u32::MAX,
    ensures
        total(counts_in(freqs_in(freqmap_bytes(adds), ordinal))) == docs_of(adds, ordinal).len(),
{
    let file = freqmap_bytes(adds);
    let n = terms_in(adds);
    lemma_file(adds, ordinal);
    let r = row(adds, ordinal);
    let docs = docs_of(adds, ordinal);
    lemma_row(adds, ordinal);
    assert forall|i: int| 0 <= i < r.len() implies (#[trigger] r[i]).1 <= u32::MAX by {
        assert(times(adds, ordinal, r[i].0) <= u32::MAX);
    }
    lemma_row_reads(r);
    order::lemma_sorted(docs);
    docs.to_multiset_ensures();
    order::sorted(docs).to_multiset_ensures();
    assert(order::sorted(docs).len() == docs.len());
    lemma_run_sum(order::sorted(docs));
    if ordinal < n {
        lemma_total(counts_in(row_bytes(r)), r);
    } else {
        assert forall|d: u32| !docs.contains(d) by {
            lemma_beyond(adds, ordinal, d);
            lemma_docs_count(adds, ordinal, d);
        }
        assert(docs.len() == 0) by {
            if docs.len() > 0 {
                assert(docs.contains(docs[0]));
            }
        }
        assert(freqs_in(file, ordinal) =~= Seq::empty());
        assert(counts_in(Seq::empty()) =~= Seq::empty());
    }
}

proof fn lemma_terms_bound(adds: Seq<(u32, u32)>)
    ensures
        terms_in(adds) >= 0,
        forall|i: int| 0 <= i < adds.len() ==> (#[trigger] adds[i]).0 < terms_in(adds),
        terms_in(adds) > 0 ==> exists|i: int|
            0 <= i < adds.len() && (#[trigger] adds[i]).0 == terms_in(adds) - 1,
    decreases adds.len(),
{
    if adds.len() > 0 {
        let d = adds.drop_last();
        lemma_terms_bound(d);
        assert forall|i: int| 0 <= i < adds.len() implies (#[trigger] adds[i]).0 < terms_in(adds) by {
            if i < d.len() {
                assert(d[i].0 < terms_in(d));
            }
        }
        if adds.last().0 >= terms_in(d) {
            assert(adds[adds.len() - 1].0 == terms_in(adds) - 1);
        } else {
            let i = choose|i: int| 0 <= i < d.len() && (#[trigger] d[i]).0 == terms_in(d) - 1;
            assert(adds[i] == d[i]);
        }
    }
}

proof fn lemma_same_terms(a: Seq<(u32, u32)>, b: Seq<(u32, u32)>)
    requires
        a.to_multiset() == b.to_multiset(),
    ensures
        terms_in(a) <= terms_in(b),
{
    lemma_terms_bound(a);
    lemma_terms_bound(b);
    if terms_in(a) > 0 {
        let i = choose|i: int| 0 <= i < a.len() && (#[trigger] a[i]).0 == terms_in(a) - 1;
        a.to_multiset_ensures();
        b.to_multiset_ensures();
        assert(a.contains(a[i]));
        assert(a.to_multiset().count(a[i]) > 0);
        assert(b.to_multiset().count(a[i]) > 0);
        assert(b.contains(a[i]));
        let j = choose|j: int| 0 <= j < b.len() && b[j] == a[i];
        assert(b[j].0 < terms_in(b));
    }
}

/// Law: the file does not depend on the order in which pairs were recorded.
pub proof fn order_of_adds_does_not_matter(a: Seq<(u32, u32)>, b: Seq<(u32, u32)>)
    requires
        a.to_multiset() == b.to_multiset(),
    ensures
        freqmap_bytes(a) == freqmap_bytes(b),
{
    lemma_same_terms(a, b);
    lemma_same_terms(b, a);
    let n = terms_in(a);
    assert forall|o: u32| #[trigger] row(a, o) == row(b, o) by {
        let x = docs_of(a, o);
        let y = docs_of(b, o);
        assert forall|d: u32| x.to_multiset().count(d) == y.to_multiset().count(d) by {
            lemma_docs_count(a, o, d);
            lemma_docs_count(b, o, d);
        }
        assert(x.to_multiset() =~= y.to_multiset());
        order::lemma_sorted(x);
        order::lemma_sorted_is(y, order::sorted(x));
    }
    assert(row_runs(a, n) =~= row_runs(b, n));
    assert(doc_freqs(a, n) =~= doc_freqs(b, n));
}

} // verus!
