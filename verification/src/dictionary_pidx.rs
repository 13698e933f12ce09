//! Checkpoints into long records of a parents table.
//!
//! A long record lists its groups in the order of their overlaps, and reaching
//! one means reading all headers before it. For every record of more than
//! `STRIDE` groups this index keeps each `STRIDE`th group: its overlap, where
//! its header stands, and the first ordinal of the group before it.

use vstd::prelude::*;

use crate::bytes;
use crate::bytes::{has_tag, part, push_bytes, push_u16, push_u32, push_u64, read_u32, read_u64};
use crate::dictionary_lookup::{MAX_OVERLAP_BYTES, ParentEntryV3};
use crate::parents_table;
use crate::parents_table::read_record;
use crate::text_order;
use crate::text_order::{Placed, place};
use crate::varint;
use crate::varint::read_varint;

verus! {

/// `PIDX`.
pub const MAGIC: u32 = 0x58444950;

/// The version of the files written.
pub const VERSION: u8 = 1;

/// Groups between two checkpoints.
pub const STRIDE: usize = 16;

/// Bytes before the records.
pub const HEADER_LEN: usize = 12;

/// Bytes of a record.
pub const RECORD_LEN: usize = 12;

/// Bytes of a checkpoint.
pub const ENTRY_LEN: usize = 13;

/// The header of a group of a record.
#[derive(Debug, Clone)]
pub struct GroupHeader {
    /// Where in the record it stands.
    pub header_pos: usize,
    /// The first ordinal of the group before it.
    pub prev_first: u64,
    /// The overlap of its parents.
    pub overlap: Vec<u8>,
}

/// A checkpoint.
#[verifier::ext_equal]
pub struct Point {
    /// The first ordinal of the group before.
    pub prev_first: u32,
    /// Where in the record the group's header stands.
    pub header_pos: u32,
    /// The group's overlap.
    pub overlap: Seq<u8>,
}

/// The bytes of an overlap, filled up.
pub open spec fn overlap_bytes(o: Seq<u8>) -> Seq<u8> {
    seq![o.len() as u8] + o + Seq::new((MAX_OVERLAP_BYTES - o.len()) as nat, |i: int| 0u8)
}

/// The bytes of a checkpoint.
pub open spec fn point_bytes(p: Point) -> Seq<u8> {
    bytes::le32(p.prev_first) + bytes::le32(p.header_pos) + overlap_bytes(p.overlap)
}

/// The bytes of a record: where it stands in the table, and its first
/// checkpoint.
pub open spec fn record_bytes(r: (u64, u32)) -> Seq<u8> {
    bytes::le64(r.0) + bytes::le32(r.1)
}

/// The bytes of the checkpoints.
pub open spec fn point_blobs(points: Seq<Point>) -> Seq<Seq<u8>> {
    Seq::new(points.len(), |i: int| point_bytes(points[i]))
}

/// The bytes of the records.
pub open spec fn record_blobs(records: Seq<(u64, u32)>) -> Seq<Seq<u8>> {
    Seq::new(records.len(), |i: int| record_bytes(records[i]))
}

/// The header of a file.
pub open spec fn head_bytes(n: u32) -> Seq<u8> {
    bytes::le32(MAGIC) + seq![VERSION] + seq![STRIDE as u8] + bytes::le16(0) + bytes::le32(n)
}

/// The file of the records and checkpoints.
pub open spec fn index_bytes(records: Seq<(u64, u32)>, points: Seq<Point>) -> Seq<u8> {
    head_bytes(records.len() as u32) + bytes::flat(record_blobs(records)) + bytes::le32(points.len() as u32)
        + bytes::flat(point_blobs(points))
}

/// A header as a checkpoint.
pub open spec fn point_of(h: GroupHeader) -> Point {
    Point {
        prev_first: h.prev_first as u32,
        header_pos: h.header_pos as u32,
        overlap: h.overlap@,
    }
}

/// Whether a header's numbers fit in a checkpoint.
pub open spec fn header_fits(h: GroupHeader) -> bool {
    h.prev_first <= u32::MAX && h.header_pos <= u32::MAX
}

/// The checkpoints among the first `n` headers.
pub open spec fn points_upto(headers: Seq<GroupHeader>, n: int) -> Seq<Point>
    decreases n,
{
    if n <= 0 {
        Seq::empty()
    } else if (n - 1) % (STRIDE as int) == 0 {
        points_upto(headers, n - 1).push(point_of(headers[n - 1]))
    } else {
        points_upto(headers, n - 1)
    }
}

/// Whether every checkpoint among the headers fits.
pub open spec fn all_fit(headers: Seq<GroupHeader>) -> bool {
    forall|g: int|
        0 <= g < headers.len() && g % (STRIDE as int) == 0 ==> header_fits(#[trigger] headers[g])
}

/// Whether a record gets checkpoints: it is grouped, has more than `STRIDE`
/// groups, and their numbers fit.
pub open spec fn indexed(record: Seq<u8>, headers: Seq<GroupHeader>) -> bool {
    &&& record.len() > 0 && record[0] >= 128
    &&& headers.len() > STRIDE
    &&& all_fit(headers)
}

/// Builds an index, record by record.
pub struct GroupIndexBuilder {
    records: Vec<(u64, u32)>,
    entries: Vec<u8>,
    n_entries: u32,
    model: Ghost<Seq<Point>>,
}

impl Default for GroupIndexBuilder {
    fn default() -> (r: Self)
        ensures
            r.wf(),
            r.records() == Seq::<(u64, u32)>::empty(),
            r.points() == Seq::<Point>::empty(),
    {
        Self::new()
    }
}

impl GroupIndexBuilder {
    /// The records: where each stands, and its first checkpoint.
    pub closed spec fn records(&self) -> Seq<(u64, u32)> {
        self.records@
    }

    /// The checkpoints.
    pub closed spec fn points(&self) -> Seq<Point> {
        self.model@
    }

    /// The bytes are those of the checkpoints.
    pub closed spec fn wf(&self) -> bool {
        &&& self.entries@ == bytes::flat(point_blobs(self.model@))
        &&& self.n_entries == self.model@.len()
    }

    /// No records.
    pub fn new() -> (r: Self)
        ensures
            r.wf(),
            r.records() == Seq::<(u64, u32)>::empty(),
            r.points() == Seq::<Point>::empty(),
    {
        let r = GroupIndexBuilder {
            records: Vec::new(),
            entries: Vec::new(),
            n_entries: 0,
            model: Ghost(Seq::empty()),
        };
        assert(point_blobs(Seq::empty()) =~= Seq::<Seq<u8>>::empty());
        assert(r.entries@ =~= bytes::flat(point_blobs(r.model@)));
        r
    }

    /// Considers the record at `table_offset`, given its bytes and the headers
    /// of its groups. Records come in the order of their offsets.
    pub fn add(&mut self, table_offset: u64, record: &[u8], headers: &Vec<GroupHeader>)
        requires
            old(self).wf(),
            old(self).points().len() + headers@.len() <= u32::MAX,
            forall|g: int|
                0 <= g < headers@.len() ==> (#[trigger] headers@[g]).overlap@.len()
                    <= MAX_OVERLAP_BYTES,
        ensures
            final(self).wf(),
            final(self).records() == if indexed(record@, headers@) {
                old(self).records().push((table_offset, old(self).points().len() as u32))
            } else {
                old(self).records()
            },
            final(self).points() == if indexed(record@, headers@) {
                old(self).points() + points_upto(headers@, headers@.len() as int)
            } else {
                old(self).points()
            },
    {
        if record.len() == 0 || record[0] < 128 {
            return;
        }
        let count: usize = headers.len();
        if count <= STRIDE {
            return;
        }
        let mut g: usize = 0;
        while g < count
            invariant
                g <= count,
                count == headers@.len(),
                *self == *old(self),
                self.wf(),
                forall|k: int|
                    0 <= k < g && k % (STRIDE as int) == 0 ==> header_fits(#[trigger] headers@[k]),
            decreases count - g,
        {
            if g % STRIDE == 0 && (headers[g].prev_first > 0xFFFF_FFFF || headers[g].header_pos as u64
                > 0xFFFF_FFFF) {
                assert(!header_fits(headers@[g as int]));
                return;
            }
            g += 1;
        }
        let first: u32 = self.n_entries;
        let ghost before = self.model@;
        let mut k: usize = 0;
        proof {
            assert(before + points_upto(headers@, 0) =~= before);
        }
        while k < count
            invariant
                k <= count,
                count == headers@.len(),
                all_fit(headers@),
                forall|g: int|
                    0 <= g < headers@.len() ==> (#[trigger] headers@[g]).overlap@.len()
                        <= MAX_OVERLAP_BYTES,
                before.len() + count <= u32::MAX,
                points_upto(headers@, k as int).len() <= k,
                self.wf(),
                self.records@ == old(self).records@,
                self.model@ == before + points_upto(headers@, k as int),
            decreases count - k,
        {
            let h = &headers[k];
            if k % STRIDE == 0 {
                assert(header_fits(headers@[k as int]));
                let ghost was = self.entries@;
                let ghost p = point_of(*h);
                push_u32(&mut self.entries, h.prev_first as u32);
                push_u32(&mut self.entries, h.header_pos as u32);
                self.entries.push(h.overlap.len() as u8);
                push_bytes(&mut self.entries, h.overlap.as_slice());
                let mut fill: usize = h.overlap.len();
                let ghost base = self.entries@;
                while fill < MAX_OVERLAP_BYTES
                    invariant
                        h.overlap@.len() <= fill <= MAX_OVERLAP_BYTES,
                        self.entries@ =~= base + Seq::new(
                            (fill - h.overlap@.len()) as nat,
                            |i: int| 0u8,
                        ),
                        self.n_entries == before.len() + points_upto(headers@, k as int).len(),
                        self.records@ == old(self).records@,
                        self.model@ == before + points_upto(headers@, k as int),
                    decreases MAX_OVERLAP_BYTES - fill,
                {
                    self.entries.push(0);
                    fill += 1;
                }
                self.n_entries = self.n_entries + 1;
                proof {
                    let more = self.model@.push(p);
                    assert(self.entries@ =~= was + point_bytes(p));
                    assert(point_blobs(more).drop_last() =~= point_blobs(self.model@));
                    assert(point_blobs(more).last() == point_bytes(p));
                    self.model@ = more;
                    assert(more =~= before + points_upto(headers@, k + 1));
                }
            }
            k += 1;
        }
        self.records.push((table_offset, first));
    }

    /// The file.
    pub fn finish(self) -> (out: Vec<u8>)
        requires
            self.wf(),
            self.records().len() <= u32::MAX,
        ensures
            out@ == index_bytes(self.records(), self.points()),
    {
        let mut out: Vec<u8> = Vec::new();
        push_u32(&mut out, MAGIC);
        out.push(VERSION);
        out.push(16);
        push_u16(&mut out, 0);
        push_u32(&mut out, self.records.len() as u32);
        assert(out@ =~= head_bytes(self.records@.len() as u32));
        let ghost blobs = record_blobs(self.records@);
        let ghost head = out@;
        let mut i: usize = 0;
        assert(blobs.take(0) =~= Seq::<Seq<u8>>::empty());
        assert(out@ =~= head + bytes::flat(blobs.take(0)));
        while i < self.records.len()
            invariant
                i <= self.records@.len(),
                blobs == record_blobs(self.records@),
                blobs.len() == self.records@.len(),
                out@ == head + bytes::flat(blobs.take(i as int)),
            decreases self.records@.len() - i,
        {
            let ghost before = out@;
            push_u64(&mut out, self.records[i].0);
            push_u32(&mut out, self.records[i].1);
            proof {
                let t = blobs.take(i + 1);
                assert(t.drop_last() =~= blobs.take(i as int));
                assert(t.last() == record_bytes(self.records@[i as int]));
                assert(out@ =~= before + record_bytes(self.records@[i as int]));
                assert(out@ =~= head + bytes::flat(t));
            }
            i += 1;
        }
        assert(blobs.take(i as int) =~= blobs);
        push_u32(&mut out, self.n_entries);
        push_bytes(&mut out, self.entries.as_slice());
        assert(out@ =~= index_bytes(self.records(), self.points()));
        out
    }
}

/// Number of records of a file.
pub open spec fn records_in(s: Seq<u8>) -> int {
    bytes::get32(s, 8) as int
}

/// Where the count of checkpoints stands.
pub open spec fn count_pos(s: Seq<u8>) -> int {
    HEADER_LEN + RECORD_LEN * records_in(s)
}

/// Number of checkpoints of a file.
pub open spec fn points_in(s: Seq<u8>) -> int {
    bytes::get32(s, count_pos(s)) as int
}

/// Where the checkpoints stand.
pub open spec fn points_pos(s: Seq<u8>) -> int {
    count_pos(s) + 4
}

/// Whether the data is an index: magic, version, a stride, and all its records
/// and checkpoints.
pub open spec fn opens(s: Seq<u8>) -> bool {
    &&& s.len() >= HEADER_LEN
    &&& bytes::tagged(s, MAGIC)
    &&& s[4] == VERSION
    &&& s[5] != 0
    &&& points_pos(s) <= s.len()
    &&& points_pos(s) + ENTRY_LEN * points_in(s) <= s.len()
}

/// Where record `i` stands in the table.
pub open spec fn offset_in(s: Seq<u8>, i: int) -> u64 {
    bytes::get64(s, HEADER_LEN + RECORD_LEN * i)
}

/// The first checkpoint of record `i`.
pub open spec fn first_in(s: Seq<u8>, i: int) -> int {
    bytes::get32(s, HEADER_LEN + RECORD_LEN * i + 8) as int
}

/// Checkpoint `k`.
pub open spec fn point_in(s: Seq<u8>, k: int) -> Point {
    let at = points_pos(s) + ENTRY_LEN * k;
    let n = if s[at + 8] <= MAX_OVERLAP_BYTES {
        s[at + 8] as int
    } else {
        MAX_OVERLAP_BYTES as int
    };
    Point {
        prev_first: bytes::get32(s, at),
        header_pos: bytes::get32(s, at + 4),
        overlap: s.subrange(at + 9, at + 9 + n),
    }
}

/// The record at `table_offset` among those from `lo` up to `hi`, found by
/// halving.
pub open spec fn find_record(s: Seq<u8>, lo: int, hi: int, table_offset: u64) -> Option<int>
    decreases hi - lo,
{
    if lo >= hi {
        None
    } else {
        let mid = lo + (hi - lo) / 2;
        if offset_in(s, mid) < table_offset {
            find_record(s, mid + 1, hi, table_offset)
        } else if offset_in(s, mid) > table_offset {
            find_record(s, lo, mid, table_offset)
        } else {
            Some(mid)
        }
    }
}

/// The checkpoints of record `i`.
pub open spec fn span_in(s: Seq<u8>, i: int) -> (int, int) {
    (
        first_in(s, i),
        if i + 1 < records_in(s) {
            first_in(s, i + 1)
        } else {
            points_in(s)
        },
    )
}

/// The first checkpoint from `lo` up to `hi` whose overlap is past `want`,
/// found by halving.
pub open spec fn first_past(s: Seq<u8>, lo: int, hi: int, want: Seq<u8>) -> int
    decreases hi - lo,
{
    if lo >= hi {
        lo
    } else {
        let mid = lo + (hi - lo) / 2;
        if text_order::lex_lt(want, point_in(s, mid).overlap) {
            first_past(s, lo, mid, want)
        } else {
            first_past(s, mid + 1, hi, want)
        }
    }
}

/// Where to start reading a record for the group of an overlap.
#[derive(Debug, Clone, Copy, PartialEq, Eq, Structural)]
pub struct Checkpoint {
    /// The first ordinal of the group before.
    pub prev_first: u64,
    /// Where in the record the group's header stands.
    pub header_pos: usize,
    /// Which group of the record it is.
    pub group: usize,
}

/// The checkpoint before number `k` of a record whose checkpoints start at `a`.
pub open spec fn checkpoint_before(s: Seq<u8>, a: int, k: int) -> Checkpoint {
    Checkpoint {
        prev_first: point_in(s, k - 1).prev_first as u64,
        header_pos: point_in(s, k - 1).header_pos as usize,
        group: ((k - 1 - a) * s[5]) as usize,
    }
}

/// Whether this is the answer for an overlap of the record at `table_offset`:
/// none where the record has no checkpoints, else what `decode` gives from the
/// last checkpoint that is not past the overlap, and nothing where all are.
pub open spec fn answered<G: Fn(Checkpoint) -> Vec<ParentEntryV3>>(
    s: Seq<u8>,
    table_offset: u64,
    want: Seq<u8>,
    decode: G,
    r: Option<Vec<ParentEntryV3>>,
) -> bool {
    match find_record(s, 0, records_in(s), table_offset) {
        None => r is None,
        Some(i) => {
            let (a, b) = span_in(s, i);
            let k = first_past(s, a, b, want);
            if k == a {
                r matches Some(v) && v@.len() == 0
            } else {
                r matches Some(v) && call_ensures(decode, (checkpoint_before(s, a, k),), v)
            }
        },
    }
}

/// How many records and checkpoints an index has; `None` where the data is
/// none.
fn read_counts(data: &[u8]) -> (r: Option<(usize, usize)>)
    ensures
        r is Some <==> opens(data@),
        r matches Some((n, m)) ==> n == records_in(data@) && m == points_in(data@),
{
    if data.len() < HEADER_LEN || !has_tag(data, MAGIC) || data[4] != VERSION || data[5] == 0 {
        return None;
    }
    let n: u64 = read_u32(data, 8) as u64;
    let len: u64 = data.len() as u64;
    if len < 16 + 12 * n {
        return None;
    }
    let at: usize = 12 + 12 * n as usize;
    let m: u64 = read_u32(data, at) as u64;
    if len - (16 + 12 * n) < 13 * m {
        return None;
    }
    Some((n as usize, m as usize))
}

/// Whether the data is an index.
pub(crate) fn is_index(data: &[u8]) -> (r: bool)
    ensures
        r == opens(data@),
{
    read_counts(data).is_some()
}

/// An index, read in place.
pub struct GroupIndex {
    data: Vec<u8>,
    n_records: usize,
    n_entries: usize,
}

impl GroupIndex {
    /// The bytes.
    pub closed spec fn bytes(&self) -> Seq<u8> {
        self.data@
    }

    /// The data is an index, and what is kept of it is what it says.
    pub closed spec fn wf(&self) -> bool {
        &&& opens(self.data@)
        &&& self.n_records == records_in(self.data@)
        &&& self.n_entries == points_in(self.data@)
    }

    /// Whether the checkpoints of the record at `table_offset` are there.
    pub open spec fn spans_ok(&self, table_offset: u64) -> bool {
        find_record(self.bytes(), 0, records_in(self.bytes()), table_offset) matches Some(i) ==> {
            let (a, b) = span_in(self.bytes(), i);
            a <= b <= points_in(self.bytes())
        }
    }

    /// Opens an index; `None` where the data is none.
    pub fn open(data: Vec<u8>) -> (r: Option<Self>)
        ensures
            r is Some <==> opens(data@),
            r matches Some(t) ==> t.wf() && t.bytes() == data@,
    {
        match read_counts(data.as_slice()) {
            None => None,
            Some((n_records, n_entries)) => Some(GroupIndex { data, n_records, n_entries }),
        }
    }

    /// Number of records.
    pub fn num_records(&self) -> (n: usize)
        requires
            self.wf(),
        ensures
            n == records_in(self.bytes()),
    {
        self.n_records
    }

    /// Number of checkpoints.
    pub fn num_entries(&self) -> (n: usize)
        requires
            self.wf(),
        ensures
            n == points_in(self.bytes()),
    {
        self.n_entries
    }

    /// Bytes of the index.
    pub fn num_bytes(&self) -> (n: usize)
        ensures
            n == self.bytes().len(),
    {
        self.data.len()
    }

    /// Where record `i` stands in the table.
    fn record_offset(&self, i: usize) -> (r: u64)
        requires
            self.wf(),
            i < records_in(self.bytes()),
        ensures
            r == offset_in(self.bytes(), i as int),
    {
        assert(self.data.len() == self.data@.len());
        read_u64(self.data.as_slice(), HEADER_LEN + RECORD_LEN * i)
    }

    /// The first checkpoint of record `i`.
    fn record_entry_start(&self, i: usize) -> (r: usize)
        requires
            self.wf(),
            i < records_in(self.bytes()),
        ensures
            r == first_in(self.bytes(), i as int),
    {
        assert(self.data.len() == self.data@.len());
        read_u32(self.data.as_slice(), HEADER_LEN + RECORD_LEN * i + 8) as usize
    }

    /// Checkpoint `k`.
    fn entry(&self, k: usize) -> (r: (u64, usize, &[u8]))
        requires
            self.wf(),
            k < points_in(self.bytes()),
        ensures
            r.0 == point_in(self.bytes(), k as int).prev_first,
            r.1 == point_in(self.bytes(), k as int).header_pos,
            r.2@ == point_in(self.bytes(), k as int).overlap,
    {
        assert(self.data.len() == self.data@.len());
        let at: usize = HEADER_LEN + RECORD_LEN * self.n_records + 4 + ENTRY_LEN * k;
        let n: usize = if self.data[at + 8] as usize <= MAX_OVERLAP_BYTES {
            self.data[at + 8] as usize
        } else {
            MAX_OVERLAP_BYTES
        };
        (
            read_u32(self.data.as_slice(), at) as u64,
            read_u32(self.data.as_slice(), at + 4) as usize,
            part(self.data.as_slice(), at + 9, at + 9 + n),
        )
    }

    /// The checkpoints of the record at `table_offset`, if it has any.
    fn entries_of(&self, table_offset: u64) -> (r: Option<(usize, usize)>)
        requires
            self.wf(),
        ensures
            match find_record(self.bytes(), 0, records_in(self.bytes()), table_offset) {
                Some(i) => r matches Some((a, b)) && a == span_in(self.bytes(), i).0 && b == span_in(
                    self.bytes(),
                    i,
                ).1,
                None => r is None,
            },
    {
        let ghost s = self.bytes();
        let mut lo: usize = 0;
        let mut hi: usize = self.n_records;
        while lo < hi
            invariant
                lo <= hi <= self.n_records,
                self.wf(),
                s == self.bytes(),
                self.n_records == records_in(s),
                find_record(s, 0, records_in(s), table_offset) == find_record(
                    s,
                    lo as int,
                    hi as int,
                    table_offset,
                ),
            decreases hi - lo,
        {
            let mid: usize = lo + (hi - lo) / 2;
            let at: u64 = self.record_offset(mid);
            if at < table_offset {
                lo = mid + 1;
            } else if at > table_offset {
                hi = mid;
            } else {
                let start: usize = self.record_entry_start(mid);
                let end: usize = if mid + 1 < self.n_records {
                    self.record_entry_start(mid + 1)
                } else {
                    self.n_entries
                };
                return Some((start, end));
            }
        }
        None
    }

    /// Where to start reading the record at `table_offset` for the group of
    /// the overlap `want`: `None` where the record has no checkpoints,
    /// `Some(None)` where no group can have the overlap.
    pub fn checkpoint(&self, table_offset: u64, want: &[u8]) -> (r: Option<Option<Checkpoint>>)
        requires
            self.wf(),
            self.spans_ok(table_offset),
            points_in(self.bytes()) * 255 <= usize::MAX,
        ensures
            match find_record(self.bytes(), 0, records_in(self.bytes()), table_offset) {
                None => r is None,
                Some(i) => {
                    let (a, b) = span_in(self.bytes(), i);
                    let k = first_past(self.bytes(), a, b, want@);
                    if k == a {
                        r == Some(None::<Checkpoint>)
                    } else {
                        r == Some(Some(checkpoint_before(self.bytes(), a, k)))
                    }
                },
            },
    {
        let ghost s = self.bytes();
        let (start, end) = match self.entries_of(table_offset) {
            Some(span) => span,
            None => {
                return None;
            },
        };
        let mut lo: usize = start;
        let mut hi: usize = end;
        while lo < hi
            invariant
                start <= lo <= hi <= end,
                self.wf(),
                s == self.bytes(),
                end <= points_in(s),
                first_past(s, start as int, end as int, want@) == first_past(
                    s,
                    lo as int,
                    hi as int,
                    want@,
                ),
            decreases hi - lo,
        {
            let mid: usize = lo + (hi - lo) / 2;
            let e = self.entry(mid);
            match place(want, e.2) {
                Placed::Before => {
                    hi = mid;
                },
                _ => {
                    proof {
                        text_order::lemma_lex_total(want@, e.2@);
                        text_order::lemma_lex_irreflexive(want@);
                    }
                    lo = mid + 1;
                },
            }
        }
        if lo == start {
            return Some(None);
        }
        let k: usize = lo - 1;
        let (prev_first, header_pos, _) = self.entry(k);
        let stride: usize = self.data[5] as usize;
        proof {
            assert((k - start) * stride <= points_in(s) * 255) by (nonlinear_arith)
                requires
                    0 <= k - start <= points_in(s),
                    0 <= stride <= 255,
            ;
        }
        Some(Some(Checkpoint { prev_first, header_pos, group: (k - start) * stride }))
    }

    /// The parents of the record at `table_offset` that have the overlap
    /// `want`, read from a checkpoint on by `decode`; `None` where the record
    /// has no checkpoints.
    pub fn parents_with_overlap<G: Fn(Checkpoint) -> Vec<ParentEntryV3>>(
        &self,
        table_offset: u64,
        want: &[u8],
        decode: &G,
    ) -> (r: Option<Vec<ParentEntryV3>>)
        requires
            self.wf(),
            self.spans_ok(table_offset),
            points_in(self.bytes()) * 255 <= usize::MAX,
            forall|c: Checkpoint| #[trigger] call_requires(*decode, (c,)),
        ensures
            answered(self.bytes(), table_offset, want@, *decode, r),
    {
        match self.checkpoint(table_offset, want) {
            None => None,
            Some(None) => Some(Vec::new()),
            Some(Some(c)) => Some(decode(c)),
        }
    }
}

proof fn lemma_even_start(blobs: Seq<Seq<u8>>, n: int, i: int)
    requires
        0 <= i <= blobs.len(),
        forall|k: int| 0 <= k < blobs.len() ==> (#[trigger] blobs[k]).len() == n,
    ensures
        bytes::start_of(blobs, i) == n * i,
    decreases i,
{
    bytes::lemma_start_ends(blobs);
    if i > 0 {
        lemma_even_start(blobs, n, i - 1);
        bytes::lemma_start_step(blobs, i - 1);
        assert(n * (i - 1) + n == n * i) by (nonlinear_arith);
    } else {
        assert(n * 0 == 0) by (nonlinear_arith);
    }
}

/// Whether the checkpoints' overlaps are kept whole.
pub open spec fn overlaps_fit(points: Seq<Point>) -> bool {
    forall|k: int| 0 <= k < points.len() ==> (#[trigger] points[k]).overlap.len() <= MAX_OVERLAP_BYTES
}

/// The parts of a written index.
pub proof fn lemma_parts(records: Seq<(u64, u32)>, points: Seq<Point>)
    requires
        records.len() <= u32::MAX,
        points.len() <= u32::MAX,
        overlaps_fit(points),
    ensures
        ({
            let s = index_bytes(records, points);
            &&& opens(s)
            &&& s[5] == STRIDE
            &&& records_in(s) == records.len()
            &&& points_in(s) == points.len()
            &&& points_pos(s) == 16 + 12 * (records.len() as int)
            &&& s.len() == 16 + 12 * (records.len() as int) + 13 * points.len()
            &&& s.subrange(12, 12 + 12 * (records.len() as int)) == bytes::flat(record_blobs(records))
            &&& s.subrange(16 + 12 * (records.len() as int), s.len() as int) == bytes::flat(point_blobs(points))
        }),
{
    broadcast use bytes::group_le_len;

    let s = index_bytes(records, points);
    let n = records.len() as u32;
    let m = points.len() as u32;
    let head = head_bytes(n);
    let a = bytes::flat(record_blobs(records));
    let b = bytes::flat(point_blobs(points));
    assert(head.len() == 12);
    lemma_even_start(record_blobs(records), 12, records.len() as int);
    bytes::lemma_start_ends(record_blobs(records));
    assert forall|k: int| 0 <= k < points.len() implies (#[trigger] point_blobs(points)[k]).len() == 13 by {
        assert(points[k].overlap.len() <= MAX_OVERLAP_BYTES);
    }
    lemma_even_start(point_blobs(points), 13, points.len() as int);
    bytes::lemma_start_ends(point_blobs(points));
    assert(s.subrange(0, 4) =~= bytes::le32(MAGIC));
    bytes::lemma_get32(s, 0, MAGIC);
    assert(s[4] == VERSION);
    assert(s[5] == STRIDE as u8);
    assert(s.subrange(8, 12) =~= bytes::le32(n));
    bytes::lemma_get32(s, 8, n);
    let at = 12 + 12 * (records.len() as int);
    assert(s.subrange(at, at + 4) =~= bytes::le32(m));
    bytes::lemma_get32(s, at, m);
    assert(s.subrange(12, at) =~= a);
    assert(s.subrange(at + 4, s.len() as int) =~= b);
}

/// A written index opens and gives back every record and every checkpoint.
pub proof fn written_index_reads_back(
    records: Seq<(u64, u32)>,
    points: Seq<Point>,
    i: int,
    k: int,
)
    requires
        records.len() <= u32::MAX,
        points.len() <= u32::MAX,
        overlaps_fit(points),
    ensures
        opens(index_bytes(records, points)),
        records_in(index_bytes(records, points)) == records.len(),
        points_in(index_bytes(records, points)) == points.len(),
        0 <= i < records.len() ==> offset_in(index_bytes(records, points), i) == records[i].0
            && first_in(index_bytes(records, points), i) == records[i].1,
        0 <= k < points.len() ==> point_in(index_bytes(records, points), k) == points[k],
{
    broadcast use bytes::group_le_len;

    let s = index_bytes(records, points);
    lemma_parts(records, points);
    if 0 <= i < records.len() {
        let blobs = record_blobs(records);
        let r = records[i];
        let p = 12 + 12 * i;
        bytes::lemma_flat_at(blobs, i);
        lemma_even_start(blobs, 12, i);
        lemma_even_start(blobs, 12, i + 1);
        assert(s.subrange(p, p + 12) =~= s.subrange(12, 12 + 12 * (records.len() as int)).subrange(
            12 * i,
            12 * i + 12,
        ));
        assert(s.subrange(p, p + 12) == record_bytes(r));
        assert(s.subrange(p, p + 8) =~= record_bytes(r).subrange(0, 8));
        assert(record_bytes(r).subrange(0, 8) =~= bytes::le64(r.0));
        assert(s.subrange(p + 8, p + 12) =~= record_bytes(r).subrange(8, 12));
        assert(record_bytes(r).subrange(8, 12) =~= bytes::le32(r.1));
        bytes::lemma_get64(s, p, r.0);
        bytes::lemma_get32(s, p + 8, r.1);
    }
    if 0 <= k < points.len() {
        let blobs = point_blobs(points);
        let e = points[k];
        let base = 16 + 12 * (records.len() as int);
        let p = base + 13 * k;
        assert(e.overlap.len() <= MAX_OVERLAP_BYTES);
        assert forall|j: int| 0 <= j < points.len() implies (#[trigger] blobs[j]).len() == 13 by {
            assert(points[j].overlap.len() <= MAX_OVERLAP_BYTES);
        }
        bytes::lemma_flat_at(blobs, k);
        lemma_even_start(blobs, 13, k);
        lemma_even_start(blobs, 13, k + 1);
        let b = point_bytes(e);
        assert(s.subrange(p, p + 13) =~= s.subrange(base, s.len() as int).subrange(
            13 * k,
            13 * k + 13,
        ));
        assert(s.subrange(p, p + 13) == b);
        assert(s.subrange(p, p + 4) =~= b.subrange(0, 4));
        assert(b.subrange(0, 4) =~= bytes::le32(e.prev_first));
        assert(s.subrange(p + 4, p + 8) =~= b.subrange(4, 8));
        assert(b.subrange(4, 8) =~= bytes::le32(e.header_pos));
        bytes::lemma_get32(s, p, e.prev_first);
        bytes::lemma_get32(s, p + 4, e.header_pos);
        assert(s[p + 8] == s.subrange(p, p + 13)[8]);
        assert(b[8] == e.overlap.len());
        let n = e.overlap.len() as int;
        assert(s.subrange(p + 9, p + 9 + n) =~= b.subrange(9, 9 + n));
        assert(b.subrange(9, 9 + n) =~= e.overlap);
        assert(point_in(s, k) =~= e);
    }
}

/// Where the offsets of the records ascend, a record is found exactly where
/// its offset stands.
pub proof fn record_is_found_by_its_offset(s: Seq<u8>, lo: int, hi: int, table_offset: u64)
    requires
        0 <= lo <= hi,
        forall|i: int, j: int|
            lo <= i < j < hi ==> #[trigger] offset_in(s, i) < #[trigger] offset_in(s, j),
    ensures
        match find_record(s, lo, hi, table_offset) {
            Some(i) => lo <= i < hi && offset_in(s, i) == table_offset,
            None => forall|i: int| lo <= i < hi ==> #[trigger] offset_in(s, i) != table_offset,
        },
    decreases hi - lo,
{
    if lo < hi {
        let mid = lo + (hi - lo) / 2;
        if offset_in(s, mid) < table_offset {
            record_is_found_by_its_offset(s, mid + 1, hi, table_offset);
        } else if offset_in(s, mid) > table_offset {
            record_is_found_by_its_offset(s, lo, mid, table_offset);
        }
    }
}

/// Where the overlaps of the checkpoints ascend, those before the first one
/// past `want` are not past it, and all from it on are.
pub proof fn checkpoints_split_at_the_overlap(s: Seq<u8>, lo: int, hi: int, want: Seq<u8>)
    requires
        0 <= lo <= hi,
        forall|i: int, j: int|
            lo <= i < j < hi ==> text_order::lex_lt(
                (#[trigger] point_in(s, i)).overlap,
                (#[trigger] point_in(s, j)).overlap,
            ),
    ensures
        lo <= first_past(s, lo, hi, want) <= hi,
        forall|i: int|
            lo <= i < first_past(s, lo, hi, want) ==> !text_order::lex_lt(
                want,
                (#[trigger] point_in(s, i)).overlap,
            ),
        forall|i: int|
            first_past(s, lo, hi, want) <= i < hi ==> text_order::lex_lt(
                want,
                (#[trigger] point_in(s, i)).overlap,
            ),
    decreases hi - lo,
{
    if lo < hi {
        let mid = lo + (hi - lo) / 2;
        let m = point_in(s, mid).overlap;
        if text_order::lex_lt(want, m) {
            checkpoints_split_at_the_overlap(s, lo, mid, want);
            assert forall|i: int| mid <= i < hi implies text_order::lex_lt(
                want,
                (#[trigger] point_in(s, i)).overlap,
            ) by {
                if i > mid {
                    text_order::lemma_lex_transitive(want, m, point_in(s, i).overlap);
                }
            }
        } else {
            checkpoints_split_at_the_overlap(s, mid + 1, hi, want);
            assert forall|i: int| lo <= i <= mid implies !text_order::lex_lt(
                want,
                (#[trigger] point_in(s, i)).overlap,
            ) by {
                if i < mid && text_order::lex_lt(want, point_in(s, i).overlap) {
                    text_order::lemma_lex_transitive(want, point_in(s, i).overlap, m);
                }
            }
        }
    }
}

/// The records of a table from `at` on, each with where it starts.
pub open spec fn scan(table: Seq<u8>, at: int) -> Seq<(int, Seq<u8>)>
    decreases table.len() - at,
{
    let (len, p) = varint::varint_at(table, at, 10);
    if at < 0 || at >= table.len() || parents_table::record_at(table, at) is None {
        Seq::empty()
    } else {
        proof {
            varint::lemma_varint_end(table, at, 10);
        }
        seq![(at, parents_table::record_at(table, at)->0)] + scan(table, p + (parents_table::record_at(table, at)->0).len())
    }
}

/// The records and checkpoints after the first `k` records of a table, given
/// the group headers of each.
pub open spec fn built(recs: Seq<(int, Seq<u8>)>, headers: Seq<Seq<GroupHeader>>, k: int) -> (
    Seq<(u64, u32)>,
    Seq<Point>,
)
    decreases k,
{
    if k <= 0 {
        (Seq::empty(), Seq::empty())
    } else {
        let (records, points) = built(recs, headers, k - 1);
        let h = headers[k - 1];
        if indexed(recs[k - 1].1, h) {
            (
                records.push((recs[k - 1].0 as u64, points.len() as u32)),
                points + points_upto(h, h.len() as int),
            )
        } else {
            (records, points)
        }
    }
}

/// Scanning a written table gives every record with where it starts.
pub proof fn written_table_is_scanned(records: Seq<Seq<u8>>, i: int)
    requires
        0 <= i <= records.len(),
        forall|k: int| 0 <= k < records.len() ==> (#[trigger] records[k]).len() <= u64::MAX,
    ensures
        scan(parents_table::table_of(records), parents_table::record_start(records, i)) == Seq::new(
            (records.len() - i) as nat,
            |k: int| (parents_table::record_start(records, i + k), records[i + k]),
        ),
    decreases records.len() - i,
{
    let t = parents_table::table_of(records);
    let at = parents_table::record_start(records, i);
    let f = parents_table::frames(records);
    bytes::lemma_start_ends(f);
    if i < records.len() {
        parents_table::written_record_is_found(records, i);
        written_table_is_scanned(records, i + 1);
        bytes::lemma_flat_at(f, i);
        let r = records[i];
        let head = varint::varint(r.len() as u64);
        varint::lemma_varint_len(r.len() as u64);
        assert(t.subrange(at, at + head.len()) =~= f[i].subrange(0, head.len() as int));
        assert(f[i].subrange(0, head.len() as int) =~= head);
        varint::lemma_varint_read(t, at, r.len() as u64, 10);
        assert(parents_table::record_start(records, i + 1) == at + head.len() + r.len());
        assert(scan(t, at) =~= Seq::new(
            (records.len() - i) as nat,
            |k: int| (parents_table::record_start(records, i + k), records[i + k]),
        ));
    } else {
        assert(scan(t, at) =~= Seq::empty());
    }
}

/// Whether the headers were given for each record.
pub open spec fn headers_given<H: Fn(Vec<u8>) -> Vec<GroupHeader>>(
    headers_of: H,
    recs: Seq<(int, Seq<u8>)>,
    headers: Seq<Seq<GroupHeader>>,
) -> bool {
    &&& headers.len() == recs.len()
    &&& forall|i: int| 0 <= i < recs.len() ==> given(headers_of, recs[i].1, #[trigger] headers[i])
}

/// Whether the headers are what `headers_of` gives for a record.
pub open spec fn given<H: Fn(Vec<u8>) -> Vec<GroupHeader>>(
    headers_of: H,
    record: Seq<u8>,
    headers: Seq<GroupHeader>,
) -> bool {
    exists|r: Vec<u8>, h: Vec<GroupHeader>|
        r@ == record && h@ == headers && #[trigger] call_ensures(headers_of, (r,), h)
}

impl GroupIndexBuilder {
    /// The file of the index of a whole parents table: `headers_of` gives the
    /// headers of a record's groups, of which each takes a byte of the record at
    /// least.
    pub fn build_from_table<H: Fn(Vec<u8>) -> Vec<GroupHeader>>(table: &[u8], headers_of: &H) -> (out:
        Vec<u8>)
        requires
            forall|r: Vec<u8>| #[trigger] call_requires(*headers_of, (r,)),
            forall|r: Vec<u8>, h: Vec<GroupHeader>, g: int|
                #[trigger] call_ensures(*headers_of, (r,), h) && 0 <= g < h@.len() ==> (
                #[trigger] h@[g]).overlap@.len() <= MAX_OVERLAP_BYTES,
            forall|r: Vec<u8>, h: Vec<GroupHeader>|
                #[trigger] call_ensures(*headers_of, (r,), h) ==> h@.len() <= r@.len(),
            table@.len() <= u32::MAX,
        ensures
            exists|headers: Seq<Seq<GroupHeader>>| #[trigger]
                headers_given(*headers_of, scan(table@, 0), headers) && {
                    let (records, points) = built(
                        scan(table@, 0),
                        headers,
                        scan(table@, 0).len() as int,
                    );
                    out@ == index_bytes(records, points)
                },
            opens(out@),
    {
        let ghost recs = scan(table@, 0);
        let ghost mut headers: Seq<Seq<GroupHeader>> = Seq::empty();
        let mut b = GroupIndexBuilder::new();
        let mut at: usize = 0;
        let ghost mut k: int = 0;
        assert(recs.take(0) + scan(table@, 0) =~= recs);
        while at < table.len()
            invariant_except_break
                recs == recs.take(k) + scan(table@, at as int),
            invariant
                recs == scan(table@, 0),
                table@.len() <= u32::MAX,
                0 <= k <= recs.len(),
                at <= table@.len(),
                k <= at,
                forall|r: Vec<u8>| #[trigger] call_requires(*headers_of, (r,)),
                forall|r: Vec<u8>, h: Vec<GroupHeader>, g: int|
                    #[trigger] call_ensures(*headers_of, (r,), h) && 0 <= g < h@.len() ==> (
                    #[trigger] h@[g]).overlap@.len() <= MAX_OVERLAP_BYTES,
                forall|r: Vec<u8>, h: Vec<GroupHeader>|
                    #[trigger] call_ensures(*headers_of, (r,), h) ==> h@.len() <= r@.len(),
                b.wf(),
                b.points().len() <= at,
                overlaps_fit(b.points()),
                headers.len() == k,
                forall|i: int|
                    0 <= i < k ==> given(*headers_of, recs[i].1, #[trigger] headers[i]),
                b.records().len() <= k,
                (b.records(), b.points()) == built(recs, headers, k),
            ensures
                recs == recs.take(k),
            decreases table@.len() - at,
        {
            match read_record(table, at) {
                None => {
                    proof {
                        assert(scan(table@, at as int) =~= Seq::empty());
                        assert(recs.take(k) + Seq::<(int, Seq<u8>)>::empty() =~= recs.take(k));
                    }
                    break ;
                },
                Some(record) => {
                    let mut copy: Vec<u8> = Vec::new();
                    push_bytes(&mut copy, record);
                    assert(copy@ =~= record@);
                    let ghost given_record = copy;
                    let hs = headers_of(copy);
                    assert(call_ensures(*headers_of, (given_record,), hs));
                    proof {
                        varint::lemma_varint_end(table@, at as int, 10);
                        lemma_points_len(hs@, hs@.len() as int);
                        lemma_points_fit(hs@, hs@.len() as int);
                    }
                    let ghost old_headers = headers;
                    let ghost rest = scan(table@, at as int);
                    proof {
                        assert(rest[0] == (at as int, record@));
                        assert(recs[k] == (recs.take(k) + rest)[k]);
                        headers = headers.push(hs@);
                        assert(given(*headers_of, record@, hs@));
                        assert forall|i: int| 0 <= i < k + 1 implies given(
                            *headers_of,
                            recs[i].1,
                            #[trigger] headers[i],
                        ) by {
                            if i < k {
                                assert(headers[i] == old_headers[i]);
                            }
                        }
                        lemma_built_prefix(recs, old_headers, hs@, k);
                    }
                    b.add(at as u64, record, &hs);
                    let len: usize = record.len();
                    let mut p: usize = at;
                    let _ = read_varint(table, &mut p);
                    let ghost next = p + len;
                    proof {
                        assert(rest =~= seq![(at as int, record@)] + scan(table@, next as int));
                        assert(recs.take(k + 1) =~= recs.take(k).push((at as int, record@)));
                        assert(recs =~= recs.take(k + 1) + scan(table@, next as int));
                        k = k + 1;
                    }
                    at = p + len;
                },
            }
        }
        proof {
            assert(recs.take(k) =~= recs);
            assert(headers_given(*headers_of, recs, headers));
            lemma_parts(b.records(), b.points());
        }
        b.finish()
    }
}

impl GroupIndex {
    /// The index of a whole parents table, built in memory.
    pub fn build<H: Fn(Vec<u8>) -> Vec<GroupHeader>>(table: &[u8], headers_of: &H) -> (index: Self)
        requires
            forall|r: Vec<u8>| #[trigger] call_requires(*headers_of, (r,)),
            forall|r: Vec<u8>, h: Vec<GroupHeader>, g: int|
                #[trigger] call_ensures(*headers_of, (r,), h) && 0 <= g < h@.len() ==> (
                #[trigger] h@[g]).overlap@.len() <= MAX_OVERLAP_BYTES,
            forall|r: Vec<u8>, h: Vec<GroupHeader>|
                #[trigger] call_ensures(*headers_of, (r,), h) ==> h@.len() <= r@.len(),
            table@.len() <= u32::MAX,
        ensures
            index.wf(),
            exists|headers: Seq<Seq<GroupHeader>>| #[trigger]
                headers_given(*headers_of, scan(table@, 0), headers) && {
                    let (records, points) = built(
                        scan(table@, 0),
                        headers,
                        scan(table@, 0).len() as int,
                    );
                    index.bytes() == index_bytes(records, points)
                },
    {
        let bytes = GroupIndexBuilder::build_from_table(table, headers_of);
        GroupIndex::open(bytes).unwrap()
    }
}

/// Law: adding the records of a table one by one, in their order, builds the
/// index that the whole table gives.
pub proof fn adding_in_order_builds_the_index(
    builders: Seq<GroupIndexBuilder>,
    recs: Seq<(int, Seq<u8>)>,
    headers: Seq<Seq<GroupHeader>>,
    n: int,
)
    requires
        0 <= n < builders.len(),
        builders[0].records() == Seq::<(u64, u32)>::empty(),
        builders[0].points() == Seq::<Point>::empty(),
        forall|i: int|
            0 <= i < n ==> {
                let before = #[trigger] builders[i];
                let after = builders[i + 1];
                if indexed(recs[i].1, headers[i]) {
                    &&& after.records() == before.records().push(
                        (recs[i].0 as u64, before.points().len() as u32),
                    )
                    &&& after.points() == before.points() + points_upto(
                        headers[i],
                        headers[i].len() as int,
                    )
                } else {
                    after.records() == before.records() && after.points() == before.points()
                }
            },
    ensures
        (builders[n].records(), builders[n].points()) == built(recs, headers, n),
    decreases n,
{
    if n > 0 {
        adding_in_order_builds_the_index(builders, recs, headers, n - 1);
        let before = builders[n - 1];
    }
}

proof fn lemma_points_fit(headers: Seq<GroupHeader>, n: int)
    requires
        0 <= n <= headers.len(),
        forall|g: int|
            0 <= g < headers.len() ==> (#[trigger] headers[g]).overlap@.len() <= MAX_OVERLAP_BYTES,
    ensures
        overlaps_fit(points_upto(headers, n)),
    decreases n,
{
    if n > 0 {
        lemma_points_fit(headers, n - 1);
        assert(headers[n - 1].overlap@.len() <= MAX_OVERLAP_BYTES);
    }
}

proof fn lemma_points_len(headers: Seq<GroupHeader>, n: int)
    ensures
        points_upto(headers, n).len() <= if n <= 0 {
            0
        } else {
            n
        },
    decreases n,
{
    if n > 0 {
        lemma_points_len(headers, n - 1);
    }
}

proof fn lemma_built_prefix(
    recs: Seq<(int, Seq<u8>)>,
    headers: Seq<Seq<GroupHeader>>,
    h: Seq<GroupHeader>,
    k: int,
)
    requires
        0 <= k <= headers.len(),
    ensures
        built(recs, headers.push(h), k) == built(recs, headers, k),
    decreases k,
{
    if k > 0 {
        lemma_built_prefix(recs, headers, h, k - 1);
        assert(headers.push(h)[k - 1] == headers[k - 1]);
    }
}

} // verus!
