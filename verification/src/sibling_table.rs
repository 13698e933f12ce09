//! Sibling table: for each ordinal, the ordinals seen right after it.
//!
//! Three layouts are read:
//! - the first: `[4 bytes] count`, `count + 1` offsets, then per ordinal
//!   records of six bytes, the next ordinal and the length of the gap;
//! - `SIB2`: `[4 bytes] 0xFFFFFFFF`, `[4 bytes] magic`, `[4 bytes] count`,
//!   `count + 1` offsets, then per link a varint, twice the distance from the
//!   ordinal before it, plus one where a varint with the gap follows;
//! - `SIB3`: the same head, and one varint per link, the distance alone.
//!
//! The links of an ordinal are written in order, each once. The writer takes
//! `SIB3` where no link has a gap and `SIB2` otherwise.

use vstd::prelude::*;

use crate::bytes;
use crate::bytes::{has_tag, push_u32, read_u16, read_u32};
use crate::offset_table;
use crate::offset_table::{has_table, push_runs, read_run};
use crate::order;
use crate::order::{Ordered, sort, without_repeats};
use crate::varint;
use crate::varint::{read_varint, write_varint};

verus! {

/// The first word of `SIB2` and `SIB3`; no first layout has as many ordinals.
pub const SENTINEL: u32 = 0xFFFFFFFF;

/// `SIB2`.
pub const MAGIC_GAPS: u32 = 0x32424953;

/// `SIB3`.
pub const MAGIC_NO_GAPS: u32 = 0x33424953;

/// A link: an ordinal is followed by `next_ordinal`, `gap_len` bytes later.
#[derive(Debug, Clone, Copy, PartialEq, Eq, Hash, Structural)]
pub struct SiblingEntry {
    /// The ordinal that follows.
    pub next_ordinal: u32,
    /// Bytes between the two; 0 where they touch.
    pub gap_len: u16,
}

/// The rows of a table: the recorded pairs in order, each once.
pub open spec fn rows(pairs: Seq<(u32, u32, u16)>) -> Seq<(u32, u32, u16)> {
    order::dedup(order::sorted(pairs))
}

/// The links of `ord` among the rows.
pub open spec fn links_of(rows: Seq<(u32, u32, u16)>, ord: u32) -> Seq<SiblingEntry> {
    links(rows.filter(of_ordinal(ord)))
}

/// Which rows are the ordinal's.
pub open spec fn of_ordinal(ord: u32) -> spec_fn((u32, u32, u16)) -> bool {
    |r: (u32, u32, u16)| r.0 == ord
}

/// The rows as links.
pub open spec fn links(rows: Seq<(u32, u32, u16)>) -> Seq<SiblingEntry> {
    Seq::new(rows.len(), |i: int| SiblingEntry { next_ordinal: rows[i].1, gap_len: rows[i].2 })
}

/// Whether some row has a gap.
pub open spec fn any_gap(rows: Seq<(u32, u32, u16)>) -> bool {
    exists|i: int| 0 <= i < rows.len() && (#[trigger] rows[i]).2 != 0
}

/// The bytes of a link after one to `prev`.
pub open spec fn link_bytes(e: SiblingEntry, prev: u32, gaps: bool) -> Seq<u8> {
    let delta = e.next_ordinal.wrapping_sub(prev);
    if !gaps {
        varint::varint(delta as u64)
    } else if e.gap_len == 0 {
        varint::varint((2 * delta) as u64)
    } else {
        varint::varint((2 * delta + 1) as u64) + varint::varint(e.gap_len as u64)
    }
}

/// The bytes of the links of one ordinal, the first after one to `prev`.
pub open spec fn links_bytes(s: Seq<SiblingEntry>, prev: u32, gaps: bool) -> Seq<u8>
    decreases s.len(),
{
    if s.len() == 0 {
        Seq::empty()
    } else {
        link_bytes(s[0], prev, gaps) + links_bytes(s.drop_first(), s[0].next_ordinal, gaps)
    }
}

/// The bytes of the links of each ordinal below `num`.
pub open spec fn link_runs(num: u32, rows: Seq<(u32, u32, u16)>) -> Seq<Seq<u8>> {
    Seq::new(num as nat, |o: int| links_bytes(links_of(rows, o as u32), 0, any_gap(rows)))
}

/// The file of the pairs, for ordinals below `num`.
pub open spec fn table_bytes(num: u32, pairs: Seq<(u32, u32, u16)>) -> Seq<u8> {
    bytes::le32(SENTINEL) + bytes::le32(
        if any_gap(rows(pairs)) {
            MAGIC_GAPS
        } else {
            MAGIC_NO_GAPS
        },
    ) + bytes::le32(num) + offset_table::runs_bytes(link_runs(num, rows(pairs)))
}

/// Where the offsets start.
pub open spec fn head_len(s: Seq<u8>) -> int {
    if bytes::tagged(s, SENTINEL) {
        12
    } else {
        4
    }
}

/// The number of ordinals a file is for.
pub open spec fn count_in(s: Seq<u8>) -> u32 {
    bytes::get32(s, head_len(s) - 4)
}

/// Whether the data holds a known head and its whole offset table.
pub open spec fn opens(s: Seq<u8>) -> bool {
    &&& s.len() >= head_len(s)
    &&& bytes::tagged(s, SENTINEL) ==> bytes::get32(s, 4) == MAGIC_GAPS || bytes::get32(s, 4) == MAGIC_NO_GAPS
    &&& offset_table::table_fits(s, head_len(s), count_in(s) as int)
}

/// Whether the file is a `SIB3`.
pub open spec fn is_gapless(s: Seq<u8>) -> bool {
    bytes::tagged(s, SENTINEL) && bytes::get32(s, 4) == MAGIC_NO_GAPS
}

/// The links written as distances, from `p` on: up to the end, or to the first
/// that does not read.
pub open spec fn distances_at(s: Seq<u8>, p: int, prev: u32) -> Seq<SiblingEntry>
    decreases s.len() - p,
{
    let r = varint::varint_at(s, p, 10);
    if p >= s.len() || r.0 is None || r.0->0 > u32::MAX {
        Seq::empty()
    } else {
        proof {
            varint::lemma_varint_end(s, p, 10);
        }
        let next = prev.wrapping_add(r.0->0 as u32);
        seq![SiblingEntry { next_ordinal: next, gap_len: 0 }] + distances_at(s, r.1, next)
    }
}

/// The links written as doubled distances with gaps, from `p` on: up to the
/// end, or to the first that does not read.
pub open spec fn gapped_at(s: Seq<u8>, p: int, prev: u32) -> Seq<SiblingEntry>
    decreases s.len() - p,
{
    let r = varint::varint_at(s, p, 10);
    if p >= s.len() || r.0 is None || r.0->0 / 2 > u32::MAX {
        Seq::empty()
    } else {
        proof {
            varint::lemma_varint_end(s, p, 10);
            varint::lemma_varint_end(s, r.1, 10);
        }
        let next = prev.wrapping_add((r.0->0 / 2) as u32);
        if r.0->0 % 2 == 0 {
            seq![SiblingEntry { next_ordinal: next, gap_len: 0 }] + gapped_at(s, r.1, next)
        } else {
            let g = varint::varint_at(s, r.1, 10);
            if g.0 is None || g.0->0 > u16::MAX {
                Seq::empty()
            } else {
                seq![SiblingEntry { next_ordinal: next, gap_len: g.0->0 as u16 }] + gapped_at(
                    s,
                    g.1,
                    next,
                )
            }
        }
    }
}

/// The links written as records of six bytes.
pub open spec fn records_in(s: Seq<u8>) -> Seq<SiblingEntry> {
    Seq::new(
        s.len() / 6,
        |i: int| SiblingEntry { next_ordinal: bytes::get32(s, 6 * i), gap_len: bytes::get16(s, 6 * i + 4) },
    )
}

/// The links of `ordinal`; none past the table.
pub open spec fn siblings_in(s: Seq<u8>, ordinal: u32) -> Seq<SiblingEntry> {
    let run = offset_table::run_in(s, head_len(s), count_in(s) as int, ordinal as int);
    if ordinal >= count_in(s) {
        Seq::empty()
    } else if is_gapless(s) {
        distances_at(run, 0, 0)
    } else if bytes::tagged(s, SENTINEL) {
        gapped_at(run, 0, 0)
    } else {
        records_in(run)
    }
}

/// The ordinals of the links without a gap.
pub open spec fn touching(s: Seq<SiblingEntry>) -> Seq<u32>
    decreases s.len(),
{
    if s.len() == 0 {
        Seq::empty()
    } else if s.last().gap_len == 0 {
        touching(s.drop_last()).push(s.last().next_ordinal)
    } else {
        touching(s.drop_last())
    }
}

proof fn lemma_wrap(a: u32, b: u32)
    ensures
        b.wrapping_add(a.wrapping_sub(b)) == a,
{
}

proof fn lemma_distances(before: Seq<u8>, s: Seq<SiblingEntry>, prev: u32)
    requires
        forall|i: int| 0 <= i < s.len() ==> (#[trigger] s[i]).gap_len == 0,
    ensures
        distances_at(before + links_bytes(s, prev, false), before.len() as int, prev) == s,
    decreases s.len(),
{
    let file = before + links_bytes(s, prev, false);
    let p = before.len() as int;
    if s.len() > 0 {
        let e = s[0];
        let rest = s.drop_first();
        let delta = e.next_ordinal.wrapping_sub(prev);
        let own = varint::varint(delta as u64);
        lemma_wrap(e.next_ordinal, prev);
        varint::lemma_varint_len(delta as u64);
        assert(file.subrange(p, p + own.len()) =~= own);
        varint::lemma_varint_read(file, p, delta as u64, 10);
        assert forall|i: int| 0 <= i < rest.len() implies (#[trigger] rest[i]).gap_len == 0 by {
            assert(rest[i] == s[i + 1]);
        }
        lemma_distances(before + own, rest, e.next_ordinal);
        assert(file =~= before + own + links_bytes(rest, e.next_ordinal, false));
        assert(distances_at(file, p, prev) =~= s);
    } else {
        assert(distances_at(file, p, prev) =~= s);
    }
}

proof fn lemma_gapped(before: Seq<u8>, s: Seq<SiblingEntry>, prev: u32)
    ensures
        gapped_at(before + links_bytes(s, prev, true), before.len() as int, prev) == s,
    decreases s.len(),
{
    let file = before + links_bytes(s, prev, true);
    let p = before.len() as int;
    if s.len() > 0 {
        let e = s[0];
        let rest = s.drop_first();
        let delta = e.next_ordinal.wrapping_sub(prev);
        let own = link_bytes(e, prev, true);
        let tail = links_bytes(rest, e.next_ordinal, true);
        lemma_wrap(e.next_ordinal, prev);
        let token: u64 = if e.gap_len == 0 {
            (2 * delta) as u64
        } else {
            (2 * delta + 1) as u64
        };
        let t = varint::varint(token);
        varint::lemma_varint_len(token);
        varint::lemma_varint_len(e.gap_len as u64);
        assert(file =~= before + own + tail);
        assert(file.subrange(p, p + t.len()) =~= t);
        varint::lemma_varint_read(file, p, token, 10);
        if e.gap_len != 0 {
            let g = varint::varint(e.gap_len as u64);
            let q = p + t.len();
            assert(file.subrange(q, q + g.len()) =~= g);
            varint::lemma_varint_read(file, q, e.gap_len as u64, 10);
        }
        lemma_gapped(before + own, rest, e.next_ordinal);
        assert(gapped_at(file, p, prev) =~= seq![e] + rest);
        assert(seq![e] + rest =~= s);
    } else {
        assert(gapped_at(file, p, prev) =~= s);
    }
}

proof fn lemma_no_gaps(rows: Seq<(u32, u32, u16)>, ord: u32)
    requires
        !any_gap(rows),
    ensures
        forall|i: int| 0 <= i < links_of(rows, ord).len() ==> (#[trigger] links_of(rows, ord)[i]).gap_len
            == 0,
{
    let keep = of_ordinal(ord);
    let kept = rows.filter(keep);
    assert forall|i: int| 0 <= i < links_of(rows, ord).len() implies (#[trigger] links_of(
        rows,
        ord,
    )[i]).gap_len == 0 by {
        rows.lemma_filter_contains_rev(keep, kept[i]);
        let k = choose|k: int| 0 <= k < rows.len() && rows[k] == kept[i];
        assert(rows[k].2 == 0);
    }
}

/// Law: the links of every ordinal that were recorded read back, in order and
/// each once.
pub proof fn written_siblings_read_back(num: u32, pairs: Seq<(u32, u32, u16)>, ordinal: u32)
    requires
        bytes::flat(link_runs(num, rows(pairs))).len() <= u32::MAX,
    ensures
        opens(table_bytes(num, pairs)),
        count_in(table_bytes(num, pairs)) == num,
        is_gapless(table_bytes(num, pairs)) == !any_gap(rows(pairs)),
        siblings_in(table_bytes(num, pairs), ordinal) == if ordinal < num {
            links_of(rows(pairs), ordinal)
        } else {
            Seq::empty()
        },
{
    let file = table_bytes(num, pairs);
    let r = rows(pairs);
    let runs = link_runs(num, r);
    let magic = if any_gap(r) {
        MAGIC_GAPS
    } else {
        MAGIC_NO_GAPS
    };
    let head = bytes::le32(SENTINEL) + bytes::le32(magic) + bytes::le32(num);
    broadcast use bytes::group_le_len;

    bytes::lemma_le32s_len(bytes::starts32(runs));
    assert(file =~= head + offset_table::runs_bytes(runs));
    assert(file.subrange(0, 4) =~= bytes::le32(SENTINEL));
    assert(file.subrange(4, 8) =~= bytes::le32(magic));
    assert(file.subrange(8, 12) =~= bytes::le32(num));
    bytes::lemma_get32(file, 0, SENTINEL);
    bytes::lemma_get32(file, 4, magic);
    bytes::lemma_get32(file, 8, num);
    if ordinal < num {
        offset_table::written_runs_read_back(head, runs, ordinal as int);
        let own = links_of(r, ordinal);
        assert(Seq::<u8>::empty() + links_bytes(own, 0, any_gap(r)) =~= runs[ordinal as int]);
        if any_gap(r) {
            lemma_gapped(Seq::empty(), own, 0);
        } else {
            lemma_no_gaps(r, ordinal);
            lemma_distances(Seq::empty(), own, 0);
        }
    }
}

/// Law: a link reads back exactly if it was recorded for its ordinal.
pub proof fn recorded_links_are_the_rows(pairs: Seq<(u32, u32, u16)>, ord: u32, e: SiblingEntry)
    ensures
        links_of(rows(pairs), ord).contains(e) <==> pairs.contains(
            (ord, e.next_ordinal, e.gap_len),
        ),
        links_of(rows(pairs), ord).no_duplicates(),
{
    let all = rows(pairs);
    let keep = of_ordinal(ord);
    let kept = all.filter(keep);
    let own = links_of(all, ord);
    order::lemma_sorted(pairs);
    order::lemma_sorted_items(pairs);
    order::lemma_dedup(order::sorted(pairs));
    let row = (ord, e.next_ordinal, e.gap_len);
    if own.contains(e) {
        let i = choose|i: int| 0 <= i < own.len() && own[i] == e;
        all.lemma_filter_contains_rev(keep, kept[i]);
        all.lemma_filter_pred(keep, i);
        assert(kept[i] == row);
        assert(all.contains(row));
    }
    if pairs.contains(row) {
        assert(all.contains(row));
        let k = choose|k: int| 0 <= k < all.len() && all[k] == row;
        all.lemma_filter_contains(keep, k);
        let i = choose|i: int| 0 <= i < kept.len() && kept[i] == row;
        assert(own[i] == e);
    }
    assert forall|i: int, j: int| 0 <= i < j < own.len() implies own[i] != own[j] by {
        all.lemma_filter_pred(keep, i);
        all.lemma_filter_pred(keep, j);
        assert(kept.no_duplicates()) by {
            order::lemma_filter_distinct(all, keep);
        }
        assert(kept[i] != kept[j]);
    }
}

proof fn lemma_run_is_filter(rows: Seq<(u32, u32, u16)>, a: int, b: int, ord: u32)
    requires
        0 <= a <= b <= rows.len(),
        forall|k: int| 0 <= k < a ==> (#[trigger] rows[k]).0 != ord,
        forall|k: int| a <= k < b ==> (#[trigger] rows[k]).0 == ord,
        forall|k: int| b <= k < rows.len() ==> (#[trigger] rows[k]).0 != ord,
    ensures
        rows.filter(of_ordinal(ord)) == rows.subrange(a, b),
    decreases rows.len(),
{
    let keep = of_ordinal(ord);
    reveal(Seq::filter);
    if rows.len() == 0 {
        assert(rows.filter(keep) =~= rows.subrange(a, b));
    } else {
        let d = rows.drop_last();
        if b == rows.len() && a < b {
            lemma_run_is_filter(d, a, b - 1, ord);
            assert(rows.subrange(a, b) =~= d.subrange(a, b - 1).push(rows.last()));
            assert(rows[rows.len() - 1].0 == ord);
        } else if b == rows.len() {
            lemma_run_is_filter(d, a - 1, b - 1, ord);
            assert(rows.subrange(a, b) =~= d.subrange(a - 1, b - 1));
            assert(rows[rows.len() - 1].0 != ord);
        } else {
            lemma_run_is_filter(d, a, b, ord);
            assert(rows.subrange(a, b) =~= d.subrange(a, b));
            assert(rows[rows.len() - 1].0 != ord);
        }
    }
}

fn encode_links(links: &Vec<SiblingEntry>, gaps: bool) -> (out: Vec<u8>)
    ensures
        out@ == links_bytes(links@, 0, gaps),
{
    let mut out: Vec<u8> = Vec::new();
    let mut prev: u32 = 0;
    let mut i: usize = 0;
    assert(links@.skip(0) =~= links@);
    while i < links.len()
        invariant
            i <= links@.len(),
            out@ + links_bytes(links@.skip(i as int), prev, gaps) == links_bytes(links@, 0, gaps),
        decreases links@.len() - i,
    {
        let e = links[i];
        let ghost rest = links@.skip(i as int);
        let ghost before = out@;
        let delta: u64 = e.next_ordinal.wrapping_sub(prev) as u64;
        if gaps {
            if e.gap_len != 0 {
                write_varint(&mut out, 2 * delta + 1);
                write_varint(&mut out, e.gap_len as u64);
            } else {
                write_varint(&mut out, 2 * delta);
            }
        } else {
            write_varint(&mut out, delta);
        }
        proof {
            assert(rest.drop_first() =~= links@.skip(i + 1));
            assert(out@ =~= before + link_bytes(e, prev, gaps));
            assert(out@ + links_bytes(links@.skip(i + 1), e.next_ordinal, gaps) =~= before
                + links_bytes(rest, prev, gaps));
        }
        prev = e.next_ordinal;
        i += 1;
    }
    assert(links@.skip(i as int).len() == 0);
    assert(out@ =~= links_bytes(links@, 0, gaps));
    out
}

fn has_gap(rows: &Vec<(u32, u32, u16)>) -> (r: bool)
    ensures
        r == any_gap(rows@),
{
    let mut i: usize = 0;
    while i < rows.len()
        invariant
            i <= rows@.len(),
            forall|k: int| 0 <= k < i ==> (#[trigger] rows@[k]).2 == 0,
        decreases rows@.len() - i,
    {
        if rows[i].2 != 0 {
            assert(rows@[i as int].2 != 0);
            return true;
        }
        i += 1;
    }
    false
}

/// Collects the links.
pub struct SiblingTableWriter {
    pairs: Vec<(u32, u32, u16)>,
    num_ordinals: u32,
}

impl SiblingTableWriter {
    /// The links recorded: ordinal, next ordinal, gap.
    pub closed spec fn pairs(&self) -> Seq<(u32, u32, u16)> {
        self.pairs@
    }

    /// The number of ordinals the table is for.
    pub closed spec fn num(&self) -> u32 {
        self.num_ordinals
    }

    /// A writer for `num_ordinals` ordinals.
    pub fn new(num_ordinals: u32) -> (r: Self)
        ensures
            r.pairs() == Seq::<(u32, u32, u16)>::empty(),
            r.num() == num_ordinals,
    {
        SiblingTableWriter { pairs: Vec::new(), num_ordinals }
    }

    /// Records that `ordinal` is followed by `next_ordinal`, `gap_len` bytes
    /// later.
    pub fn add(&mut self, ordinal: u32, next_ordinal: u32, gap_len: u16)
        ensures
            final(self).pairs() == old(self).pairs().push((ordinal, next_ordinal, gap_len)),
            final(self).num() == old(self).num(),
    {
        self.pairs.push((ordinal, next_ordinal, gap_len));
    }

    /// The file. Puts the recorded links in order and takes repeated ones out.
    pub fn serialize(&mut self) -> (out: Vec<u8>)
        requires
            bytes::flat(link_runs(old(self).num(), rows(old(self).pairs()))).len() <= u32::MAX,
        ensures
            out@ == table_bytes(old(self).num(), old(self).pairs()),
            final(self).pairs() == rows(old(self).pairs()),
            final(self).num() == old(self).num(),
    {
        let ordered = sort(&self.pairs);
        let all = without_repeats(&ordered);
        let ghost r = rows(self.pairs@);
        proof {
            order::lemma_sorted(self.pairs@);
            order::lemma_dedup(order::sorted(self.pairs@));
        }
        let gaps = has_gap(&all);
        let num: u32 = self.num_ordinals;
        let mut runs: Vec<Vec<u8>> = Vec::new();
        let mut cursor: usize = 0;
        let mut ord: u32 = 0;
        while ord < num
            invariant
                ord <= num,
                all@ == r,
                order::is_sorted(r),
                gaps == any_gap(r),
                runs@.len() == ord,
                cursor <= r.len(),
                forall|k: int| 0 <= k < cursor ==> (#[trigger] r[k]).0 < ord,
                forall|k: int| cursor <= k < r.len() ==> (#[trigger] r[k]).0 >= ord,
                forall|k: int|
                    0 <= k < ord ==> (#[trigger] runs@[k])@ == links_bytes(
                        links_of(r, k as u32),
                        0,
                        gaps,
                    ),
            decreases num - ord,
        {
            let first: usize = cursor;
            let mut own: Vec<SiblingEntry> = Vec::new();
            while cursor < all.len() && all[cursor].0 == ord
                invariant
                    all@ == r,
                    first <= cursor <= r.len(),
                    forall|k: int| first <= k < cursor ==> (#[trigger] r[k]).0 == ord,
                    own@ == links(r.subrange(first as int, cursor as int)),
                decreases r.len() - cursor,
            {
                let row = all[cursor];
                own.push(SiblingEntry { next_ordinal: row.1, gap_len: row.2 });
                cursor += 1;
                assert(own@ =~= links(r.subrange(first as int, cursor as int)));
            }
            proof {
                assert forall|k: int| cursor <= k < r.len() implies (#[trigger] r[k]).0 > ord by {
                    if k > cursor {
                        assert(order::Ordered::not_after(r[cursor as int], r[k]));
                    }
                }
                lemma_run_is_filter(r, first as int, cursor as int, ord);
                assert(own@ =~= links_of(r, ord));
            }
            let run = encode_links(&own, gaps);
            runs.push(run);
            ord += 1;
        }
        assert(bytes::deep(runs@) =~= link_runs(num, r));
        let mut out: Vec<u8> = Vec::new();
        push_u32(&mut out, SENTINEL);
        push_u32(
            &mut out,
            if gaps {
                MAGIC_GAPS
            } else {
                MAGIC_NO_GAPS
            },
        );
        push_u32(&mut out, num);
        push_runs(&mut out, &runs);
        assert(out@ =~= table_bytes(num, self.pairs@));
        self.pairs = all;
        out
    }
}

fn read_distances(run: &[u8]) -> (out: Vec<SiblingEntry>)
    ensures
        out@ == distances_at(run@, 0, 0),
{
    let mut out: Vec<SiblingEntry> = Vec::new();
    let mut pos: usize = 0;
    let mut next: u32 = 0;
    while pos < run.len()
        invariant_except_break
            out@ + distances_at(run@, pos as int, next) == distances_at(run@, 0, 0),
        ensures
            out@ == distances_at(run@, 0, 0),
        decreases run@.len() - pos,
    {
        let ghost p = pos;
        let ghost prev = next;
        let ghost before = out@;
        proof {
            varint::lemma_varint_end(run@, pos as int, 10);
            assert(before + Seq::<SiblingEntry>::empty() =~= before);
        }
        let delta: u64 = match read_varint(run, &mut pos) {
            Some(d) => d,
            None => {
                break;
            },
        };
        if delta > u32::MAX as u64 {
            break;
        }
        next = next.wrapping_add(delta as u32);
        out.push(SiblingEntry { next_ordinal: next, gap_len: 0 });
        assert(out@ + distances_at(run@, pos as int, next) =~= before + distances_at(
            run@,
            p as int,
            prev,
        ));
    }
    out
}

fn read_gapped(run: &[u8]) -> (out: Vec<SiblingEntry>)
    ensures
        out@ == gapped_at(run@, 0, 0),
{
    let mut out: Vec<SiblingEntry> = Vec::new();
    let mut pos: usize = 0;
    let mut next: u32 = 0;
    while pos < run.len()
        invariant_except_break
            out@ + gapped_at(run@, pos as int, next) == gapped_at(run@, 0, 0),
        ensures
            out@ == gapped_at(run@, 0, 0),
        decreases run@.len() - pos,
    {
        let ghost p = pos;
        let ghost prev = next;
        let ghost before = out@;
        proof {
            varint::lemma_varint_end(run@, pos as int, 10);
            varint::lemma_varint_end(run@, varint::varint_at(run@, pos as int, 10).1, 10);
            assert(before + Seq::<SiblingEntry>::empty() =~= before);
        }
        let token: u64 = match read_varint(run, &mut pos) {
            Some(d) => d,
            None => {
                break;
            },
        };
        if token / 2 > u32::MAX as u64 {
            break;
        }
        next = next.wrapping_add((token / 2) as u32);
        let gap_len: u16 = if token % 2 == 1 {
            match read_varint(run, &mut pos) {
                Some(g) => {
                    if g > u16::MAX as u64 {
                        break;
                    }
                    g as u16
                },
                None => {
                    break;
                },
            }
        } else {
            0
        };
        out.push(SiblingEntry { next_ordinal: next, gap_len });
        assert(out@ + gapped_at(run@, pos as int, next) =~= before + gapped_at(run@, p as int, prev));
    }
    out
}

fn read_records(run: &[u8]) -> (out: Vec<SiblingEntry>)
    ensures
        out@ == records_in(run@),
{
    let len: usize = run.len();
    let n: usize = len / 6;
    let mut out: Vec<SiblingEntry> = Vec::new();
    let mut i: usize = 0;
    while i < n
        invariant
            len == run@.len(),
            n == len / 6,
            i <= n,
            out@ == records_in(run@).take(i as int),
        decreases n - i,
    {
        assert(6 * i + 6 <= len);
        let next_ordinal: u32 = read_u32(run, 6 * i);
        let gap_len: u16 = read_u16(run, 6 * i + 4);
        out.push(SiblingEntry { next_ordinal, gap_len });
        i += 1;
        assert(out@ =~= records_in(run@).take(i as int));
    }
    assert(records_in(run@).take(i as int) =~= records_in(run@));
    out
}

/// Looks the links of an ordinal up.
pub struct SiblingTableReader<'a> {
    num_ordinals: u32,
    data: &'a [u8],
    head: usize,
    v2: bool,
    no_gaps: bool,
}

impl<'a> SiblingTableReader<'a> {
    /// The bytes the reader stands on.
    pub closed spec fn bytes(&self) -> Seq<u8> {
        self.data@
    }

    /// The reader holds a table and what its head says.
    pub closed spec fn wf(&self) -> bool {
        &&& opens(self.data@)
        &&& self.num_ordinals == count_in(self.data@)
        &&& self.head == head_len(self.data@)
        &&& self.v2 == bytes::tagged(self.data@, SENTINEL)
        &&& self.no_gaps == is_gapless(self.data@)
    }

    /// Opens a table; `None` with an unknown magic, or if the data is too
    /// short for the table.
    pub fn open(data: &'a [u8]) -> (r: Option<Self>)
        ensures
            r is Some <==> opens(data@),
            r matches Some(t) ==> t.wf() && t.bytes() == data@,
    {
        if data.len() < 4 {
            return None;
        }
        let v2 = has_tag(data, SENTINEL);
        let mut no_gaps = false;
        let head: usize = if v2 {
            if data.len() < 12 {
                return None;
            }
            let magic: u32 = read_u32(data, 4);
            if magic == MAGIC_NO_GAPS {
                no_gaps = true;
            } else if magic != MAGIC_GAPS {
                return None;
            }
            12
        } else {
            4
        };
        let num_ordinals: u32 = read_u32(data, head - 4);
        if !has_table(data, head, num_ordinals) {
            return None;
        }
        Some(SiblingTableReader { num_ordinals, data, head, v2, no_gaps })
    }

    /// The links of `ordinal`.
    pub fn siblings(&self, ordinal: u32) -> (out: Vec<SiblingEntry>)
        requires
            self.wf(),
        ensures
            out@ == siblings_in(self.bytes(), ordinal),
    {
        if ordinal >= self.num_ordinals {
            return Vec::new();
        }
        let run = read_run(self.data, self.head, self.num_ordinals, ordinal);
        if self.no_gaps {
            return read_distances(run);
        }
        if self.v2 {
            return read_gapped(run);
        }
        read_records(run)
    }

    /// The ordinals that touch `ordinal`.
    pub fn contiguous_siblings(&self, ordinal: u32) -> (out: Vec<u32>)
        requires
            self.wf(),
        ensures
            out@ == touching(siblings_in(self.bytes(), ordinal)),
    {
        let all = self.siblings(ordinal);
        let mut out: Vec<u32> = Vec::new();
        let mut i: usize = 0;
        assert(all@.take(0) =~= Seq::<SiblingEntry>::empty());
        while i < all.len()
            invariant
                i <= all@.len(),
                out@ == touching(all@.take(i as int)),
            decreases all@.len() - i,
        {
            let e = all[i];
            if e.gap_len == 0 {
                out.push(e.next_ordinal);
            }
            i += 1;
            assert(all@.take(i as int).drop_last() =~= all@.take(i - 1));
        }
        assert(all@.take(i as int) =~= all@);
        out
    }

    /// Whether the file's links have no gaps.
    pub fn has_no_gaps(&self) -> (r: bool)
        requires
            self.wf(),
        ensures
            r == is_gapless(self.bytes()),
    {
        self.no_gaps
    }

    /// Number of ordinals in the table.
    pub fn num_ordinals(&self) -> (n: u32)
        requires
            self.wf(),
        ensures
            n == count_in(self.bytes()),
    {
        self.num_ordinals
    }
}

/// Law: a file depends on which links were recorded alone, not on their order
/// nor on how often.
pub proof fn the_same_links_give_the_same_file(
    num: u32,
    a: Seq<(u32, u32, u16)>,
    b: Seq<(u32, u32, u16)>,
)
    requires
        forall|x: (u32, u32, u16)| #[trigger] a.contains(x) <==> b.contains(x),
    ensures
        rows(a) == rows(b),
        table_bytes(num, a) == table_bytes(num, b),
{
    order::lemma_sorted(a);
    order::lemma_sorted_items(a);
    order::lemma_dedup(order::sorted(a));
    order::lemma_sorted(b);
    order::lemma_sorted_items(b);
    order::lemma_dedup(order::sorted(b));
    assert forall|x: (u32, u32, u16)| #[trigger] rows(a).contains(x) <==> rows(b).contains(x) by {
        assert(a.contains(x) <==> b.contains(x));
    }
    order::lemma_distinct_is(rows(a), rows(b));
}

/// Law: writing the links leaves them as they are written, so that writing them
/// again gives the same file.
pub proof fn writing_again_gives_the_same_file(num: u32, pairs: Seq<(u32, u32, u16)>)
    ensures
        rows(rows(pairs)) == rows(pairs),
        table_bytes(num, rows(pairs)) == table_bytes(num, pairs),
{
    order::lemma_sorted(pairs);
    order::lemma_sorted_items(pairs);
    order::lemma_dedup(order::sorted(pairs));
    the_same_links_give_the_same_file(num, rows(pairs), pairs);
}

/// Whether links ascend, by the ordinal that follows and then by the gap.
pub open spec fn links_ascend(s: Seq<SiblingEntry>) -> bool {
    forall|i: int, j: int|
        0 <= i < j < s.len() ==> (#[trigger] s[i]).next_ordinal < (#[trigger] s[j]).next_ordinal || (
        s[i].next_ordinal == s[j].next_ordinal && s[i].gap_len < s[j].gap_len)
}

proof fn lemma_filter_sorted(rows: Seq<(u32, u32, u16)>, keep: spec_fn((u32, u32, u16)) -> bool)
    requires
        order::is_sorted(rows),
    ensures
        order::is_sorted(rows.filter(keep)),
    decreases rows.len(),
{
    reveal(Seq::filter);
    if rows.len() > 0 {
        let d = rows.drop_last();
        assert forall|i: int, j: int| 0 <= i < j < d.len() implies (#[trigger] d[i]).not_after(
            #[trigger] d[j],
        ) by {
            assert(rows[i].not_after(rows[j]));
        }
        lemma_filter_sorted(d, keep);
        let kept = d.filter(keep);
        assert forall|i: int| 0 <= i < kept.len() implies (#[trigger] kept[i]).not_after(
            rows.last(),
        ) by {
            assert(kept.contains(kept[i]));
            d.lemma_filter_contains_rev(keep, kept[i]);
            let k = choose|k: int| 0 <= k < d.len() && d[k] == kept[i];
            assert(rows[k].not_after(rows[rows.len() - 1]));
        }
    }
}

/// Law: the links of an ordinal ascend in the file.
pub proof fn written_links_ascend(pairs: Seq<(u32, u32, u16)>, ord: u32)
    ensures
        links_ascend(links_of(rows(pairs), ord)),
{
    let all = rows(pairs);
    let keep = of_ordinal(ord);
    let kept = all.filter(keep);
    let own = links_of(all, ord);
    order::lemma_sorted(pairs);
    order::lemma_dedup(order::sorted(pairs));
    lemma_filter_sorted(all, keep);
    order::lemma_filter_distinct(all, keep);
    assert forall|i: int, j: int| 0 <= i < j < own.len() implies (#[trigger] own[i]).next_ordinal < (
    #[trigger] own[j]).next_ordinal || (own[i].next_ordinal == own[j].next_ordinal && own[i].gap_len
        < own[j].gap_len) by {
        all.lemma_filter_pred(keep, i);
        all.lemma_filter_pred(keep, j);
        assert(kept[i].not_after(kept[j]));
        assert(kept[i] != kept[j]);
    }
}

proof fn lemma_touching(s: Seq<SiblingEntry>, o: u32)
    ensures
        touching(s).contains(o) <==> s.contains(SiblingEntry { next_ordinal: o, gap_len: 0 }),
        s.no_duplicates() ==> touching(s).no_duplicates(),
    decreases s.len(),
{
    if s.len() > 0 {
        let d = s.drop_last();
        let e = SiblingEntry { next_ordinal: o, gap_len: 0 };
        lemma_touching(d, o);
        if s.contains(e) {
            let i = choose|i: int| 0 <= i < s.len() && s[i] == e;
            if i < d.len() {
                assert(d[i] == e);
            } else {
                assert(touching(s)[touching(s).len() - 1] == o);
            }
        }
        if d.contains(e) {
            let i = choose|i: int| 0 <= i < d.len() && d[i] == e;
            assert(s[i] == e);
            let k = choose|k: int| 0 <= k < touching(d).len() && touching(d)[k] == o;
            assert(touching(s)[k] == o);
        }
        if touching(s).contains(o) && !touching(d).contains(o) {
            let k = choose|k: int| 0 <= k < touching(s).len() && touching(s)[k] == o;
            if k < touching(d).len() {
                assert(touching(d)[k] == o);
            }
            assert(s[s.len() - 1] == e);
        }
        if s.no_duplicates() && s.last().gap_len == 0 {
            let last = s.last().next_ordinal;
            lemma_touching(d, last);
            if touching(d).contains(last) {
                let x = SiblingEntry { next_ordinal: last, gap_len: 0 };
                assert(d.contains(x));
                let i = choose|i: int| 0 <= i < d.len() && d[i] == x;
                assert(s[i] == s[s.len() - 1]);
            }
            assert(d.no_duplicates());
        } else if s.no_duplicates() {
            assert(d.no_duplicates());
        }
    } else {
        assert(!touching(s).contains(o));
    }
}

/// Law: an ordinal touches another, by the written file, exactly if it was
/// recorded right before it, with nothing between them; each such one is given
/// once.
pub proof fn recorded_neighbours_touch(num: u32, pairs: Seq<(u32, u32, u16)>, ordinal: u32, o: u32)
    requires
        bytes::flat(link_runs(num, rows(pairs))).len() <= u32::MAX,
    ensures
        touching(siblings_in(table_bytes(num, pairs), ordinal)).contains(o) <==> ordinal < num && pairs.contains(
            (ordinal, o, 0u16),
        ),
        touching(siblings_in(table_bytes(num, pairs), ordinal)).no_duplicates(),
{
    let s = siblings_in(table_bytes(num, pairs), ordinal);
    let e = SiblingEntry { next_ordinal: o, gap_len: 0 };
    written_siblings_read_back(num, pairs, ordinal);
    recorded_links_are_the_rows(pairs, ordinal, e);
    lemma_touching(s, o);
    if ordinal >= num {
        assert(!s.contains(e));
    }
}

/// Law: a file without gaps says so, and one with a gap does not.
pub proof fn a_file_knows_whether_it_has_gaps(num: u32, pairs: Seq<(u32, u32, u16)>)
    requires
        bytes::flat(link_runs(num, rows(pairs))).len() <= u32::MAX,
    ensures
        is_gapless(table_bytes(num, pairs)) <==> forall|i: int|
            0 <= i < pairs.len() ==> (#[trigger] pairs[i]).2 == 0,
{
    written_siblings_read_back(num, pairs, 0);
    order::lemma_sorted(pairs);
    order::lemma_sorted_items(pairs);
    order::lemma_dedup(order::sorted(pairs));
    let r = rows(pairs);
    assert forall|x: (u32, u32, u16)| #[trigger] r.contains(x) <==> pairs.contains(x) by {}
    if any_gap(r) {
        let i = choose|i: int| 0 <= i < r.len() && (#[trigger] r[i]).2 != 0;
        assert(r.contains(r[i]));
        let k = choose|k: int| 0 <= k < pairs.len() && pairs[k] == r[i];
        assert(pairs[k].2 != 0);
    }
    if exists|i: int| 0 <= i < pairs.len() && (#[trigger] pairs[i]).2 != 0 {
        let k = choose|k: int| 0 <= k < pairs.len() && (#[trigger] pairs[k]).2 != 0;
        assert(pairs.contains(pairs[k]));
        assert(r.contains(pairs[k]));
        let i = choose|i: int| 0 <= i < r.len() && r[i] == pairs[k];
        assert(r[i].2 != 0);
    }
}

/// A link as a record of six bytes.
pub open spec fn record_bytes(e: SiblingEntry) -> Seq<u8> {
    bytes::le32(e.next_ordinal) + bytes::le16(e.gap_len)
}

/// Links as records, one behind the other.
pub open spec fn records_bytes(links: Seq<SiblingEntry>) -> Seq<u8>
    decreases links.len(),
{
    if links.len() == 0 {
        Seq::empty()
    } else {
        records_bytes(links.drop_last()) + record_bytes(links.last())
    }
}

proof fn lemma_records(links: Seq<SiblingEntry>)
    ensures
        records_bytes(links).len() == 6 * links.len(),
        records_in(records_bytes(links)) == links,
    decreases links.len(),
{
    broadcast use bytes::group_le_len;

    let all = records_bytes(links);
    if links.len() > 0 {
        let d = links.drop_last();
        let before = records_bytes(d);
        let e = links.last();
        lemma_records(d);
        assert forall|i: int| 0 <= i < links.len() implies records_in(all)[i] == links[i] by {
            if i < d.len() {
                reveal(bytes::get32);
                reveal(bytes::get16);
                assert(records_in(before)[i] == d[i]);
                assert(bytes::get32(all, 6 * i) == bytes::get32(before, 6 * i));
                assert(bytes::get16(all, 6 * i + 4) == bytes::get16(before, 6 * i + 4));
            } else {
                assert(all.subrange(6 * i, 6 * i + 4) =~= bytes::le32(e.next_ordinal));
                assert(all.subrange(6 * i + 4, 6 * i + 6) =~= bytes::le16(e.gap_len));
                bytes::lemma_get32(all, 6 * i, e.next_ordinal);
                bytes::lemma_get16(all, 6 * i + 4, e.gap_len);
            }
        }
        assert(all.len() / 6 == links.len());
        assert(records_in(all) =~= links);
    } else {
        assert(records_in(all) =~= links);
    }
}

/// Law: a file of records, without a head of its own, reads back the links that
/// it was written with.
pub proof fn links_as_records_read_back(lists: Seq<Seq<SiblingEntry>>, ordinal: u32)
    requires
        lists.len() < SENTINEL,
        bytes::flat(Seq::new(lists.len(), |i: int| records_bytes(lists[i]))).len() <= u32::MAX,
    ensures
        ({
            let runs = Seq::new(lists.len(), |i: int| records_bytes(lists[i]));
            let file = bytes::le32(lists.len() as u32) + offset_table::runs_bytes(runs);
            &&& opens(file)
            &&& count_in(file) == lists.len()
            &&& !is_gapless(file)
            &&& siblings_in(file, ordinal) == if ordinal < lists.len() {
                lists[ordinal as int]
            } else {
                Seq::empty()
            }
        }),
{
    broadcast use bytes::group_le_len;

    let runs = Seq::new(lists.len(), |i: int| records_bytes(lists[i]));
    let head = bytes::le32(lists.len() as u32);
    let file = head + offset_table::runs_bytes(runs);
    assert(file.subrange(0, 4) =~= head);
    bytes::lemma_get32(file, 0, lists.len() as u32);
    bytes::lemma_le32s_len(bytes::starts32(runs));
    if ordinal < lists.len() {
        offset_table::written_runs_read_back(head, runs, ordinal as int);
        lemma_records(lists[ordinal as int]);
    }
}

} // verus!
