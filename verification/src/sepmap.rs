//! Separator map: for each ordinal, which bytes occur in the separators after
//! it.
//!
//! A bitmap of 256 bits per ordinal, over all documents. The bit of byte 0
//! says that the ordinal was seen with another right after it, without a
//! separator. It tells whether a pattern over a gap can cross the boundary
//! after a token without reading the gaps themselves.
//!
//! ```text
//! [4 bytes] magic "SMAP"
//! [4 bytes] number of ordinals
//! [32 bytes × number] bitmaps
//! ```

use vstd::prelude::*;

use crate::bytes;
use crate::bytes::{has_tag, push_bytes, push_u32, read_u32};
use crate::gapmap;
use crate::gapmap::GapMapReader;
use crate::offset_table;
use crate::posmap;
use crate::posmap::PosMapReader;

verus! {

/// `SMAP`.
pub const SEPMAP_MAGIC: u32 = 0x50414D53;

/// The byte whose bit says that no separator was seen.
pub const CONTIGUOUS_FLAG: u8 = 0;

/// Whether byte `b` is marked in a bitmap.
pub open spec fn marked(bm: Seq<u8>, b: u8) -> bool {
    bit_of(bm[b as int / 8], (b % 8) as u8)
}

/// Bit `i` of a byte.
pub open spec fn bit_of(x: u8, i: u8) -> bool {
    (x >> i) & 1 == 1
}

/// A bitmap without marks.
pub open spec fn unmarked() -> Seq<u8> {
    Seq::new(32, |i: int| 0u8)
}

/// The bitmap with byte `b` marked.
pub open spec fn with_mark(bm: Seq<u8>, b: u8) -> Seq<u8> {
    bm.update(b as int / 8, bm[b as int / 8] | (1u8 << ((b % 8) as u8)))
}

/// The bitmap with the bytes of a gap marked, or with the flag for none where
/// the gap is empty.
pub open spec fn with_gap(bm: Seq<u8>, gap: Seq<u8>) -> Seq<u8>
    decreases gap.len(),
{
    if gap.len() == 0 {
        with_mark(bm, CONTIGUOUS_FLAG)
    } else {
        with_bytes(bm, gap)
    }
}

/// The bitmap with the given bytes marked.
pub open spec fn with_bytes(bm: Seq<u8>, gap: Seq<u8>) -> Seq<u8>
    decreases gap.len(),
{
    if gap.len() == 0 {
        bm
    } else {
        with_mark(with_bytes(bm, gap.drop_last()), gap.last())
    }
}

/// The marks of both bitmaps.
pub open spec fn joined(a: Seq<u8>, b: Seq<u8>) -> Seq<u8> {
    Seq::new(32, |i: int| a[i] | b[i])
}

/// The file of the bitmaps.
pub open spec fn sepmap_bytes(maps: Seq<Seq<u8>>) -> Seq<u8> {
    bytes::le32(SEPMAP_MAGIC) + bytes::le32(maps.len() as u32) + bytes::flat(maps)
}

/// Number of ordinals of a file.
pub open spec fn count_in(s: Seq<u8>) -> u32 {
    bytes::get32(s, 4)
}

/// Whether the data holds the magic, a count and all its bitmaps.
pub open spec fn opens(s: Seq<u8>) -> bool {
    s.len() >= 8 && bytes::tagged(s, SEPMAP_MAGIC) && 8 + 32 * count_in(s) <= s.len()
}

/// The bitmap of `ordinal`; `None` past the table.
pub open spec fn bitmap_in(s: Seq<u8>, ordinal: u32) -> Option<Seq<u8>> {
    if ordinal >= count_in(s) {
        None
    } else {
        Some(s.subrange(8 + 32 * ordinal, 8 + 32 * ordinal + 32))
    }
}

/// Whether `b` lies in one of the ranges, both ends included.
pub open spec fn in_ranges(ranges: Seq<(u8, u8)>, b: u8) -> bool {
    exists|i: int| 0 <= i < ranges.len() && (#[trigger] ranges[i]).0 <= b <= ranges[i].1
}

/// Whether the flag for no separator is the only mark.
pub open spec fn only_flagged(bm: Seq<u8>) -> bool {
    forall|b: u8| #[trigger] marked(bm, b) == (b == CONTIGUOUS_FLAG)
}

/// Law: a mark adds its byte to the marked ones and changes no other.
pub proof fn a_mark_adds_its_byte(bm: Seq<u8>, b: u8, x: u8)
    requires
        bm.len() == 32,
    ensures
        with_mark(bm, b).len() == 32,
        marked(with_mark(bm, b), x) <==> marked(bm, x) || x == b,
{
    let v = bm[b as int / 8];
    let i = (b % 8) as u8;
    let j = (x % 8) as u8;
    assert((((v | (1u8 << i)) >> j) & 1 == 1) <==> ((v >> j) & 1 == 1 || i == j)) by (bit_vector)
        requires
            i < 8,
            j < 8,
    ;
    if x / 8 == b / 8 {
        assert(i == j <==> x == b);
    }
}

/// Law: joined bitmaps mark what one of the two marks.
pub proof fn joined_marks_are_both(a: Seq<u8>, b: Seq<u8>, x: u8)
    requires
        a.len() == 32,
        b.len() == 32,
    ensures
        marked(joined(a, b), x) <==> marked(a, x) || marked(b, x),
{
    let u = a[x as int / 8];
    let v = b[x as int / 8];
    let i = (x % 8) as u8;
    assert((((u | v) >> i) & 1 == 1) <==> ((u >> i) & 1 == 1 || (v >> i) & 1 == 1)) by (bit_vector)
        requires
            i < 8,
    ;
}

/// Law: a bitmap without marks marks nothing.
pub proof fn an_empty_bitmap_marks_nothing(x: u8)
    ensures
        !marked(unmarked(), x),
{
    let i = (x % 8) as u8;
    assert((0u8 >> i) & 1 == 0) by (bit_vector)
        requires
            i < 8,
    ;
}

/// Law: after a gap was recorded, its bytes are marked too, or the flag where
/// it was empty.
pub proof fn a_gap_marks_its_bytes(bm: Seq<u8>, gap: Seq<u8>, x: u8)
    requires
        bm.len() == 32,
    ensures
        with_gap(bm, gap).len() == 32,
        marked(with_gap(bm, gap), x) <==> marked(bm, x) || (if gap.len() == 0 {
            x == CONTIGUOUS_FLAG
        } else {
            gap.contains(x)
        }),
{
    if gap.len() == 0 {
        a_mark_adds_its_byte(bm, CONTIGUOUS_FLAG, x);
    } else {
        lemma_with_bytes(bm, gap, x);
    }
}

proof fn lemma_with_bytes(bm: Seq<u8>, gap: Seq<u8>, x: u8)
    requires
        bm.len() == 32,
    ensures
        with_bytes(bm, gap).len() == 32,
        marked(with_bytes(bm, gap), x) <==> marked(bm, x) || gap.contains(x),
    decreases gap.len(),
{
    if gap.len() > 0 {
        let d = gap.drop_last();
        lemma_with_bytes(bm, d, x);
        a_mark_adds_its_byte(with_bytes(bm, d), gap.last(), x);
        if gap.contains(x) {
            let k = choose|k: int| 0 <= k < gap.len() && gap[k] == x;
            if k < d.len() {
                assert(d[k] == x);
            }
        }
        if d.contains(x) {
            let k = choose|k: int| 0 <= k < d.len() && d[k] == x;
            assert(gap[k] == x);
        }
        assert(gap[gap.len() - 1] == gap.last());
    }
}

proof fn lemma_even_starts(maps: Seq<Seq<u8>>, i: int)
    requires
        forall|k: int| 0 <= k < maps.len() ==> (#[trigger] maps[k]).len() == 32,
        0 <= i <= maps.len(),
    ensures
        bytes::start_of(maps, i) == 32 * i,
    decreases i,
{
    bytes::lemma_start_ends(maps);
    if i > 0 {
        lemma_even_starts(maps, i - 1);
        bytes::lemma_start_step(maps, i - 1);
    }
}

/// Law: every bitmap that was written reads back.
pub proof fn written_bitmaps_read_back(maps: Seq<Seq<u8>>, ordinal: u32)
    requires
        maps.len() <= u32::MAX,
        forall|k: int| 0 <= k < maps.len() ==> (#[trigger] maps[k]).len() == 32,
    ensures
        opens(sepmap_bytes(maps)),
        count_in(sepmap_bytes(maps)) == maps.len(),
        bitmap_in(sepmap_bytes(maps), ordinal) == if ordinal < maps.len() {
            Some(maps[ordinal as int])
        } else {
            None
        },
{
    broadcast use bytes::group_le_len;

    let file = sepmap_bytes(maps);
    assert(file.subrange(0, 4) =~= bytes::le32(SEPMAP_MAGIC));
    assert(file.subrange(4, 8) =~= bytes::le32(maps.len() as u32));
    bytes::lemma_get32(file, 0, SEPMAP_MAGIC);
    bytes::lemma_get32(file, 4, maps.len() as u32);
    lemma_even_starts(maps, maps.len() as int);
    bytes::lemma_start_ends(maps);
    if ordinal < maps.len() {
        let o = ordinal as int;
        lemma_even_starts(maps, o);
        bytes::lemma_flat_at(maps, o);
        assert(file.subrange(8 + 32 * o, 8 + 32 * o + 32) =~= bytes::flat(maps).subrange(
            32 * o,
            32 * o + 32,
        ));
    }
}

/// The contents of the arrays.
pub open spec fn maps_of(v: Seq<[u8; 32]>) -> Seq<Seq<u8>> {
    Seq::new(v.len(), |i: int| v[i]@)
}

/// Collects the bytes of separators.
pub struct SepMapWriter {
    bitmaps: Vec<[u8; 32]>,
}

impl SepMapWriter {
    /// The bitmap of each ordinal.
    pub closed spec fn maps(&self) -> Seq<Seq<u8>> {
        maps_of(self.bitmaps@)
    }

    /// No ordinals.
    pub fn new() -> (r: Self)
        ensures
            r.maps() == Seq::<Seq<u8>>::empty(),
    {
        let r = SepMapWriter { bitmaps: Vec::new() };
        assert(r.maps() =~= Seq::<Seq<u8>>::empty());
        r
    }

    /// Adds unmarked bitmaps up to `num_ordinals`.
    pub fn ensure_capacity(&mut self, num_ordinals: u32)
        ensures
            final(self).maps() == offset_table::padded(old(self).maps(), num_ordinals as int, unmarked()),
    {
        self.grow(num_ordinals as usize);
    }

    fn grow(&mut self, n: usize)
        ensures
            final(self).maps() == offset_table::padded(old(self).maps(), n as int, unmarked()),
    {
        let ghost first = self.maps();
        assert(first =~= offset_table::padded(first, first.len() as int, unmarked()));
        while self.bitmaps.len() < n
            invariant
                self.maps() == offset_table::padded(first, self.bitmaps@.len() as int, unmarked()),
                first.len() <= self.bitmaps@.len(),
                self.bitmaps@.len() <= n || self.bitmaps@.len() == first.len(),
            decreases n - self.bitmaps@.len(),
        {
            let ghost before = self.maps();
            let fresh: [u8; 32] = [0u8; 32];
            assert(fresh@ =~= unmarked());
            self.bitmaps.push(fresh);
            assert(self.maps() =~= before.push(unmarked()));
            assert(self.maps() =~= offset_table::padded(first, self.bitmaps@.len() as int, unmarked()));
        }
    }

    /// Marks a byte seen after `ordinal`.
    pub fn record_byte(&mut self, ordinal: u32, byte: u8)
        requires
            ordinal < usize::MAX,
        ensures
            final(self).maps() == offset_table::padded(old(self).maps(), ordinal + 1, unmarked()).update(
                ordinal as int,
                with_mark(
                    offset_table::padded(old(self).maps(), ordinal + 1, unmarked())[ordinal as int],
                    byte,
                ),
            ),
    {
        let o: usize = ordinal as usize;
        self.grow(o + 1);
        let ghost mid = self.maps();
        assert(mid.len() == self.bitmaps@.len());
        let mut bm: [u8; 32] = self.bitmaps[o];
        let at: usize = (byte / 8) as usize;
        let bit: u8 = 1u8 << (byte % 8);
        bm[at] = bm[at] | bit;
        self.bitmaps.set(o, bm);
        assert(bm@ =~= with_mark(mid[o as int], byte));
        assert(self.maps() =~= mid.update(o as int, with_mark(mid[o as int], byte)));
    }

    /// Marks that another token was seen right after `ordinal`.
    pub fn record_contiguous(&mut self, ordinal: u32)
        requires
            ordinal < usize::MAX,
        ensures
            final(self).maps() == offset_table::padded(old(self).maps(), ordinal + 1, unmarked()).update(
                ordinal as int,
                with_mark(
                    offset_table::padded(old(self).maps(), ordinal + 1, unmarked())[ordinal as int],
                    CONTIGUOUS_FLAG,
                ),
            ),
    {
        self.record_byte(ordinal, CONTIGUOUS_FLAG);
    }

    /// Marks the bytes of the gap after `ordinal`, or that there was none.
    pub fn record_gap(&mut self, ordinal: u32, gap_bytes: &[u8])
        requires
            ordinal < usize::MAX,
        ensures
            final(self).maps() == offset_table::padded(old(self).maps(), ordinal + 1, unmarked()).update(
                ordinal as int,
                with_gap(
                    offset_table::padded(old(self).maps(), ordinal + 1, unmarked())[ordinal as int],
                    gap_bytes@,
                ),
            ),
    {
        if gap_bytes.len() == 0 {
            self.record_contiguous(ordinal);
            return;
        }
        let ghost g = offset_table::padded(self.maps(), ordinal + 1, unmarked());
        let ghost o = ordinal as int;
        self.grow(ordinal as usize + 1);
        let mut i: usize = 0;
        assert(gap_bytes@.take(0) =~= Seq::<u8>::empty());
        assert(self.maps() =~= g.update(o, with_bytes(g[o], gap_bytes@.take(0))));
        while i < gap_bytes.len()
            invariant
                i <= gap_bytes@.len(),
                o == ordinal,
                ordinal < usize::MAX,
                o < g.len(),
                self.maps() == g.update(o, with_bytes(g[o], gap_bytes@.take(i as int))),
            decreases gap_bytes@.len() - i,
        {
            let ghost before = self.maps();
            self.record_byte(ordinal, gap_bytes[i]);
            i += 1;
            proof {
                assert(gap_bytes@.take(i as int).drop_last() =~= gap_bytes@.take(i - 1));
                assert(offset_table::padded(before, o + 1, unmarked()) =~= before);
                assert(self.maps() =~= g.update(o, with_bytes(g[o], gap_bytes@.take(i as int))));
            }
        }
        assert(gap_bytes@.take(i as int) =~= gap_bytes@);
    }

    /// Adds the marks of a bitmap to those of `ordinal`.
    pub fn or_bitmap(&mut self, ordinal: u32, bitmap: &[u8; 32])
        requires
            ordinal < usize::MAX,
        ensures
            final(self).maps() == offset_table::padded(old(self).maps(), ordinal + 1, unmarked()).update(
                ordinal as int,
                joined(
                    offset_table::padded(old(self).maps(), ordinal + 1, unmarked())[ordinal as int],
                    bitmap@,
                ),
            ),
    {
        let o: usize = ordinal as usize;
        self.grow(o + 1);
        let ghost mid = self.maps();
        assert(mid.len() == self.bitmaps@.len());
        let mut bm: [u8; 32] = self.bitmaps[o];
        let mut i: usize = 0;
        while i < 32
            invariant
                i <= 32,
                o < mid.len(),
                mid[o as int].len() == 32,
                forall|k: int| 0 <= k < i ==> #[trigger] bm@[k] == mid[o as int][k] | bitmap@[k],
                forall|k: int| i <= k < 32 ==> #[trigger] bm@[k] == mid[o as int][k],
            decreases 32 - i,
        {
            bm[i] = bm[i] | bitmap[i];
            i += 1;
        }
        self.bitmaps.set(o, bm);
        assert(bm@ =~= joined(mid[o as int], bitmap@));
        assert(self.maps() =~= mid.update(o as int, joined(mid[o as int], bitmap@)));
    }

    /// The bitmaps, by ordinal.
    pub fn bitmaps_ref(&self) -> (r: &[[u8; 32]])
        ensures
            maps_of(r@) == self.maps(),
    {
        self.bitmaps.as_slice()
    }

    /// The file.
    pub fn serialize(&self) -> (out: Vec<u8>)
        requires
            self.maps().len() <= u32::MAX,
        ensures
            out@ == sepmap_bytes(self.maps()),
    {
        let ghost maps = self.maps();
        let mut out: Vec<u8> = Vec::new();
        push_u32(&mut out, SEPMAP_MAGIC);
        push_u32(&mut out, self.bitmaps.len() as u32);
        let ghost head = out@;
        let mut i: usize = 0;
        assert(maps.take(0) =~= Seq::<Seq<u8>>::empty());
        assert(out@ =~= head + bytes::flat(maps.take(0)));
        while i < self.bitmaps.len()
            invariant
                i <= self.bitmaps@.len(),
                maps == maps_of(self.bitmaps@),
                out@ == head + bytes::flat(maps.take(i as int)),
            decreases self.bitmaps@.len() - i,
        {
            push_bytes(&mut out, self.bitmaps[i].as_slice());
            i += 1;
            proof {
                assert(maps.take(i as int).drop_last() =~= maps.take(i - 1));
                assert(maps.take(i as int).last() == self.bitmaps@[i - 1]@);
                assert(out@ =~= head + bytes::flat(maps.take(i as int)));
            }
        }
        assert(maps.take(i as int) =~= maps);
        assert(out@ =~= sepmap_bytes(maps));
        out
    }
}

fn is_marked(bm: &[u8; 32], b: u8) -> (r: bool)
    ensures
        r == marked(bm@, b),
{
    (bm[(b / 8) as usize] >> (b % 8)) & 1 == 1
}

/// Looks the bytes after an ordinal up.
pub struct SepMapReader<'a> {
    num_ordinals: u32,
    data: &'a [u8],
}

impl<'a> SepMapReader<'a> {
    /// The bytes the reader stands on.
    pub closed spec fn bytes(&self) -> Seq<u8> {
        self.data@
    }

    /// The reader holds the bitmaps and how many they are.
    pub closed spec fn wf(&self) -> bool {
        opens(self.data@) && self.num_ordinals == count_in(self.data@)
    }

    /// Opens a file; `None` without the magic or if the data is too short for
    /// the bitmaps.
    pub fn open(bytes: &'a [u8]) -> (r: Option<Self>)
        ensures
            r is Some <==> opens(bytes@),
            r matches Some(t) ==> t.wf() && t.bytes() == bytes@,
    {
        let len: usize = bytes.len();
        if len < 8 || !has_tag(bytes, SEPMAP_MAGIC) {
            return None;
        }
        let num_ordinals: u32 = read_u32(bytes, 4);
        if (((len - 8) / 32) as u64) < num_ordinals as u64 {
            return None;
        }
        Some(SepMapReader { num_ordinals, data: bytes })
    }

    /// The bitmap of `ordinal`; `None` past the table.
    pub fn bitmap(&self, ordinal: u32) -> (r: Option<[u8; 32]>)
        requires
            self.wf(),
        ensures
            r is Some <==> bitmap_in(self.bytes(), ordinal) is Some,
            r matches Some(bm) ==> bitmap_in(self.bytes(), ordinal) == Some(bm@),
    {
        if ordinal >= self.num_ordinals {
            return None;
        }
        let len: usize = self.data.len();
        assert(8 + 32 * ordinal + 32 <= len);
        let at: usize = 8 + 32 * (ordinal as usize);
        let mut bm: [u8; 32] = [0u8; 32];
        let mut i: usize = 0;
        while i < 32
            invariant
                i <= 32,
                len == self.data@.len(),
                at + 32 <= len,
                forall|k: int| 0 <= k < i ==> #[trigger] bm@[k] == self.data@[at + k],
            decreases 32 - i,
        {
            bm[i] = self.data[at + i];
            i += 1;
        }
        assert(bm@ =~= self.data@.subrange(at as int, at + 32));
        Some(bm)
    }

    /// Whether `ordinal` was seen with another right after it.
    pub fn has_contiguous(&self, ordinal: u32) -> (r: bool)
        requires
            self.wf(),
        ensures
            r == (bitmap_in(self.bytes(), ordinal) matches Some(bm) && marked(bm, CONTIGUOUS_FLAG)),
    {
        match self.bitmap(ordinal) {
            Some(bm) => is_marked(&bm, CONTIGUOUS_FLAG),
            None => false,
        }
    }

    /// Whether all separator bytes after `ordinal` lie in the ranges; the flag
    /// for none does not count, and neither does an ordinal past the table.
    pub fn sep_bytes_in_ranges(&self, ordinal: u32, ranges: &[(u8, u8)]) -> (r: bool)
        requires
            self.wf(),
        ensures
            r == (bitmap_in(self.bytes(), ordinal) matches Some(bm) ==> forall|b: u8|
                b != CONTIGUOUS_FLAG && marked(bm, b) ==> #[trigger] in_ranges(ranges@, b)),
    {
        let bm = match self.bitmap(ordinal) {
            Some(bm) => bm,
            None => {
                return true;
            },
        };
        let mut b: u8 = 0;
        while b < 255
            invariant
                bitmap_in(self.bytes(), ordinal) == Some(bm@),
                forall|x: u8| 1 <= x <= b && marked(bm@, x) ==> #[trigger] in_ranges(ranges@, x),
            decreases 255 - b,
        {
            b += 1;
            if is_marked(&bm, b) {
                let mut found: bool = false;
                let mut i: usize = 0;
                while i < ranges.len()
                    invariant
                        i <= ranges@.len(),
                        found == (exists|k: int|
                            0 <= k < i && (#[trigger] ranges@[k]).0 <= b <= ranges@[k].1),
                    decreases ranges@.len() - i,
                {
                    let (lo, hi) = ranges[i];
                    if lo <= b && b <= hi {
                        assert(ranges@[i as int].0 <= b <= ranges@[i as int].1);
                        found = true;
                    }
                    i += 1;
                }
                if !found {
                    assert(!in_ranges(ranges@, b));
                    return false;
                }
                assert(in_ranges(ranges@, b));
            }
        }
        true
    }

    /// Whether `ordinal` was seen with another right after it and never with a
    /// separator.
    pub fn only_contiguous(&self, ordinal: u32) -> (r: bool)
        requires
            self.wf(),
        ensures
            r == (bitmap_in(self.bytes(), ordinal) matches Some(bm) && only_flagged(bm)),
    {
        let bm = match self.bitmap(ordinal) {
            Some(bm) => bm,
            None => {
                return false;
            },
        };
        if !is_marked(&bm, CONTIGUOUS_FLAG) {
            assert(!marked(bm@, CONTIGUOUS_FLAG) && !only_flagged(bm@));
            return false;
        }
        let mut b: u8 = 0;
        while b < 255
            invariant
                bitmap_in(self.bytes(), ordinal) == Some(bm@),
                marked(bm@, CONTIGUOUS_FLAG),
                forall|x: u8| 1 <= x <= b ==> !#[trigger] marked(bm@, x),
            decreases 255 - b,
        {
            b += 1;
            if is_marked(&bm, b) {
                assert(marked(bm@, b) && !only_flagged(bm@));
                return false;
            }
        }
        true
    }

    /// Number of ordinals.
    pub fn num_ordinals(&self) -> (n: u32)
        requires
            self.wf(),
        ensures
            n == count_in(self.bytes()),
    {
        self.num_ordinals
    }
}

/// The separator map of a segment: taken over as it was collected, and joined
/// by a merge.
pub struct SepMapIndex;

/// The first of a segment's ordinals that became `new_ord`.
pub open spec fn old_ordinal(map: Seq<(u32, u32)>, new_ord: u32, i: int) -> Option<u32>
    decreases map.len() - i,
{
    if i >= map.len() {
        None
    } else if map[i].1 == new_ord {
        Some(map[i].0)
    } else {
        old_ordinal(map, new_ord, i + 1)
    }
}

/// The marks of `new_ord` in one segment.
pub open spec fn source_marks(source: Option<Seq<u8>>, map: Seq<(u32, u32)>, new_ord: u32) -> Option<
    Seq<u8>,
> {
    match source {
        Some(s) if opens(s) => match old_ordinal(map, new_ord, 0) {
            Some(o) => bitmap_in(s, o),
            None => None,
        },
        _ => None,
    }
}

/// The bitmaps after the first `k` segments gave the marks of `new_ord`.
pub open spec fn after_sources(
    maps: Seq<Seq<u8>>,
    sources: Seq<Option<&[u8]>>,
    ordinal_maps: Seq<Vec<(u32, u32)>>,
    new_ord: u32,
    k: int,
) -> Seq<Seq<u8>>
    decreases k,
{
    if k <= 0 {
        maps
    } else {
        let before = after_sources(maps, sources, ordinal_maps, new_ord, k - 1);
        match source_marks(view_of(sources[k - 1]), ordinal_maps[k - 1]@, new_ord) {
            Some(bm) => {
                let g = offset_table::padded(before, new_ord + 1, unmarked());
                g.update(new_ord as int, joined(g[new_ord as int], bm))
            },
            None => before,
        }
    }
}

/// The bytes of a source, where there is one.
pub open spec fn view_of(source: Option<&[u8]>) -> Option<Seq<u8>> {
    match source {
        Some(s) => Some(s@),
        None => None,
    }
}

/// The bitmaps after the first `k` merged ordinals.
pub open spec fn merged_maps(
    sources: Seq<Option<&[u8]>>,
    ordinal_maps: Seq<Vec<(u32, u32)>>,
    terms: Seq<u32>,
    k: int,
) -> Seq<Seq<u8>>
    decreases k,
{
    if k <= 0 {
        offset_table::padded(Seq::empty(), terms.len() as int, unmarked())
    } else {
        after_sources(
            merged_maps(sources, ordinal_maps, terms, k - 1),
            sources,
            ordinal_maps,
            terms[k - 1],
            sources.len() as int,
        )
    }
}

impl SepMapIndex {
    /// The file that was collected; nothing where there is none.
    pub fn build(&self, sepmap_data: Option<&[u8]>) -> (out: Vec<u8>)
        ensures
            out@ == match sepmap_data {
                Some(d) => d@,
                None => Seq::empty(),
            },
    {
        let mut out: Vec<u8> = Vec::new();
        match sepmap_data {
            Some(d) => {
                push_bytes(&mut out, d);
                assert(out@ =~= d@);
            },
            None => {},
        }
        out
    }

    /// Joins the marks of the segments. `ordinal_maps` says for each segment
    /// which of its ordinals became which merged one; a segment whose file
    /// does not open gives no marks.
    pub fn merge(
        &self,
        sources: &[Option<&[u8]>],
        merged_terms: &[u32],
        ordinal_maps: &[Vec<(u32, u32)>],
    ) -> (out: Vec<u8>)
        requires
            ordinal_maps@.len() >= sources@.len(),
            merged_terms@.len() <= u32::MAX,
            forall|i: int| 0 <= i < merged_terms@.len() ==> (#[trigger] merged_terms@[i]) < u32::MAX,
        ensures
            out@ == sepmap_bytes(
                merged_maps(
                    sources@,
                    ordinal_maps@,
                    merged_terms@,
                    merged_terms@.len() as int,
                ),
            ),
    {
        let mut writer = SepMapWriter::new();
        writer.ensure_capacity(merged_terms.len() as u32);
        let mut t: usize = 0;
        while t < merged_terms.len()
            invariant
                t <= merged_terms@.len(),
                ordinal_maps@.len() >= sources@.len(),
                merged_terms@.len() <= u32::MAX,
                forall|i: int|
                    0 <= i < merged_terms@.len() ==> (#[trigger] merged_terms@[i]) < u32::MAX,
                writer.maps() == merged_maps(sources@, ordinal_maps@, merged_terms@, t as int),
                writer.maps().len() <= u32::MAX,
            decreases merged_terms@.len() - t,
        {
            let new_ord: u32 = merged_terms[t];
            let ghost first = writer.maps();
            let mut seg: usize = 0;
            while seg < sources.len()
                invariant
                    seg <= sources@.len(),
                    ordinal_maps@.len() >= sources@.len(),
                    new_ord < u32::MAX,
                    writer.maps() == after_sources(
                        first,
                        sources@,
                        ordinal_maps@,
                        new_ord,
                        seg as int,
                    ),
                    writer.maps().len() <= u32::MAX,
                decreases sources@.len() - seg,
            {
                if let Some(bytes) = sources[seg] {
                    if let Some(reader) = SepMapReader::open(bytes) {
                        if let Some(old_ord) = find_old(&ordinal_maps[seg], new_ord) {
                            if let Some(bm) = reader.bitmap(old_ord) {
                                writer.or_bitmap(new_ord, &bm);
                            }
                        }
                    }
                }
                seg += 1;
            }
            t += 1;
        }
        writer.serialize()
    }
}

fn find_old(map: &Vec<(u32, u32)>, new_ord: u32) -> (r: Option<u32>)
    ensures
        r == old_ordinal(map@, new_ord, 0),
{
    let mut i: usize = 0;
    while i < map.len()
        invariant
            i <= map@.len(),
            old_ordinal(map@, new_ord, i as int) == old_ordinal(map@, new_ord, 0),
        decreases map@.len() - i,
    {
        if map[i].1 == new_ord {
            return Some(map[i].0);
        }
        i += 1;
    }
    None
}

/// The gap after the token at a position; `None` at the end of a value.
pub open spec fn separator_after(gaps: Seq<u8>, doc_id: int, position: u32) -> Option<Seq<u8>> {
    gapmap::separator(gapmap::doc_in(gaps, doc_id), position)
}

/// The bitmaps after the first `p` positions of a document.
pub open spec fn after_positions(
    maps: Seq<Seq<u8>>,
    posmap: Seq<u8>,
    gaps: Seq<u8>,
    doc_id: u32,
    p: int,
) -> Seq<Seq<u8>>
    decreases p,
{
    if p <= 0 {
        maps
    } else {
        let before = after_positions(maps, posmap, gaps, doc_id, p - 1);
        match posmap::local_at(posmap, doc_id, (p - 1) as u32) {
            None => before,
            Some(ord) => {
                let g = offset_table::padded(before, ord + 1, unmarked());
                match separator_after(gaps, doc_id as int, (p - 1) as u32) {
                    None => g,
                    Some(gap) => g.update(ord as int, with_gap(g[ord as int], gap)),
                }
            },
        }
    }
}

/// The bitmaps after the first `n` documents: for each position but the last,
/// the gap after it goes to the ordinal that stands there.
pub open spec fn derived_maps(maps: Seq<Seq<u8>>, posmap: Seq<u8>, gaps: Seq<u8>, n: int) -> Seq<
    Seq<u8>,
>
    decreases n,
{
    if n <= 0 {
        maps
    } else {
        after_positions(
            derived_maps(maps, posmap, gaps, n - 1),
            posmap,
            gaps,
            (n - 1) as u32,
            bytes::get16(gapmap::doc_in(gaps, n - 1), 0) - 1,
        )
    }
}

/// Whether the gap data of a document is whole, as far as its positions hold
/// ordinals.
pub open spec fn gaps_whole(posmap: Seq<u8>, gaps: Seq<u8>, doc_id: u32) -> bool {
    &&& gapmap::doc_ok(gaps, doc_id as int)
    &&& gapmap::doc_in(gaps, doc_id as int).len() >= 2
    &&& forall|p: u32|
        p + 1 < bytes::get16(gapmap::doc_in(gaps, doc_id as int), 0) && (#[trigger] posmap::local_at(posmap, doc_id, p)) is Some
            ==> gapmap::has_gap_after(gapmap::doc_in(gaps, doc_id as int), p)
}

/// A separator map built from the position map and the gap map.
pub struct DerivedSepMap {
    writer: SepMapWriter,
}

impl DerivedSepMap {
    /// The bitmap of each ordinal.
    pub closed spec fn maps(&self) -> Seq<Seq<u8>> {
        self.writer.maps()
    }

    /// No ordinals.
    pub fn new() -> (r: Self)
        ensures
            r.maps() == Seq::<Seq<u8>>::empty(),
    {
        DerivedSepMap { writer: SepMapWriter::new() }
    }

    /// Marks the separators of `num_docs` documents. Without a position map
    /// that opens, or without gap data, nothing changes.
    pub fn build_from_deps(&mut self, posmap: Option<&[u8]>, gapmap_data: &[u8], num_docs: u32)
        requires
            gapmap_data@.len() == 0 || gapmap_data@.len() >= 4,
            posmap is Some && gapmap_data@.len() > 0 && posmap::opens(posmap->0@) ==> forall|d: u32|
                d < num_docs ==> #[trigger] gaps_whole(posmap->0@, gapmap_data@, d),
        ensures
            final(self).maps() == (if posmap is Some && gapmap_data@.len() > 0 && posmap::opens(
                posmap->0@,
            ) {
                derived_maps(old(self).maps(), posmap->0@, gapmap_data@, num_docs as int)
            } else {
                old(self).maps()
            }),
    {
        let bytes = match posmap {
            Some(b) => b,
            None => {
                return;
            },
        };
        let reader = match PosMapReader::open(bytes) {
            Some(r) => r,
            None => {
                return;
            },
        };
        if gapmap_data.len() == 0 {
            return;
        }
        let gapmap = GapMapReader::open(gapmap_data);
        let ghost first = self.maps();
        let ghost pm = bytes@;
        let ghost gaps = gapmap_data@;
        let mut doc_id: u32 = 0;
        while doc_id < num_docs
            invariant
                doc_id <= num_docs,
                pm == bytes@,
                gaps == gapmap_data@,
                reader.wf(),
                reader.bytes() == pm,
                reader.ids() is None,
                gapmap.wf(),
                gapmap.bytes() == gaps,
                forall|d: u32| d < num_docs ==> #[trigger] gaps_whole(pm, gaps, d),
                self.maps() == derived_maps(first, pm, gaps, doc_id as int),
            decreases num_docs - doc_id,
        {
            assert(gaps_whole(pm, gaps, doc_id));
            let n: u32 = gapmap.num_tokens(doc_id) as u32;
            let ghost start = self.maps();
            let stop: u32 = if n == 0 {
                0
            } else {
                n - 1
            };
            let mut pos: u32 = 0;
            while pos < stop
                invariant
                    pos <= stop,
                    n == bytes::get16(gapmap::doc_in(gaps, doc_id as int), 0),
                    stop == if n == 0 {
                        0
                    } else {
                        n - 1
                    },
                    doc_id < num_docs,
                    gaps_whole(pm, gaps, doc_id),
                    reader.wf(),
                    reader.bytes() == pm,
                    reader.ids() is None,
                    gapmap.wf(),
                    gapmap.bytes() == gaps,
                    self.maps() == after_positions(start, pm, gaps, doc_id, pos as int),
                decreases stop - pos,
            {
                let ghost before = self.maps();
                match reader.ordinal_at(doc_id, pos) {
                    Some(ord) => {
                        proof {
                            assert(posmap::local_at(pm, doc_id, pos) == Some(ord));
                            posmap::lemma_local_below(pm, doc_id, pos);
                        }
                        self.writer.ensure_capacity(ord + 1);
                        let ghost g = self.maps();
                        if let Some(gap) = gapmap.read_separator(doc_id, pos, pos + 1) {
                            self.writer.record_gap(ord, gap);
                            assert(offset_table::padded(g, ord + 1, unmarked()) =~= g);
                        }
                    },
                    None => {},
                }
                pos += 1;
            }
            doc_id += 1;
        }
    }

    /// The file.
    pub fn serialize(&self) -> (out: Vec<u8>)
        requires
            self.maps().len() <= u32::MAX,
        ensures
            out@ == sepmap_bytes(self.maps()),
    {
        self.writer.serialize()
    }
}

/// Whether the bitmap of an ordinal marks the byte.
pub open spec fn marks(maps: Seq<Seq<u8>>, ord: u32, x: u8) -> bool {
    ord < maps.len() && marked(maps[ord as int], x)
}

/// Whether entry `i` of a segment's ordinals is the first that became
/// `new_ord`, and the segment's file opens and marks the byte for the ordinal
/// that it was.
pub open spec fn gives_mark(source: Option<&[u8]>, map: Seq<(u32, u32)>, i: int, new_ord: u32, x: u8) -> bool {
    &&& 0 <= i < map.len()
    &&& map[i].1 == new_ord
    &&& forall|j: int| 0 <= j < i ==> (#[trigger] map[j]).1 != new_ord
    &&& source matches Some(s) && (opens(s@) && (bitmap_in(s@, map[i].0) matches Some(bm) && marked(bm, x)))
}

proof fn lemma_old_ordinal(map: Seq<(u32, u32)>, new_ord: u32, i: int)
    requires
        0 <= i <= map.len(),
        forall|j: int| 0 <= j < i ==> (#[trigger] map[j]).1 != new_ord,
    ensures
        match old_ordinal(map, new_ord, i) {
            Some(o) => exists|k: int|
                0 <= k < map.len() && (#[trigger] map[k]) == (o, new_ord) && forall|j: int|
                    0 <= j < k ==> (#[trigger] map[j]).1 != new_ord,
            None => forall|j: int| 0 <= j < map.len() ==> (#[trigger] map[j]).1 != new_ord,
        },
    decreases map.len() - i,
{
    if i < map.len() {
        if map[i].1 == new_ord {
            assert(map[i] == (map[i].0, new_ord));
        } else {
            lemma_old_ordinal(map, new_ord, i + 1);
        }
    }
}

proof fn lemma_source_marks(source: Option<&[u8]>, map: Seq<(u32, u32)>, new_ord: u32, x: u8)
    ensures
        source_marks(view_of(source), map, new_ord) matches Some(bm) ==> bm.len() == 32,
        (source_marks(view_of(source), map, new_ord) matches Some(bm) && marked(bm, x)) <==> exists|i: int|
            #[trigger] gives_mark(source, map, i, new_ord, x),
{
    lemma_old_ordinal(map, new_ord, 0);
    match old_ordinal(map, new_ord, 0) {
        Some(o) => {
            let k = choose|k: int|
                0 <= k < map.len() && (#[trigger] map[k]) == (o, new_ord) && forall|j: int|
                    0 <= j < k ==> (#[trigger] map[j]).1 != new_ord;
            assert(map[k] == (o, new_ord));
            assert forall|i: int| #[trigger] gives_mark(source, map, i, new_ord, x) implies i == k by {
                assert(map[i].1 == new_ord);
                if i < k {
                    assert(map[i].1 != new_ord);
                } else if k < i {
                    assert(map[k].1 != new_ord);
                }
            }
            if source_marks(view_of(source), map, new_ord) matches Some(bm) && marked(bm, x) {
                assert(gives_mark(source, map, k, new_ord, x));
            }
        },
        None => {},
    }
}

proof fn lemma_after_sources(
    maps: Seq<Seq<u8>>,
    sources: Seq<Option<&[u8]>>,
    ordinal_maps: Seq<Vec<(u32, u32)>>,
    new_ord: u32,
    k: int,
    ord: u32,
    x: u8,
)
    requires
        0 <= k <= sources.len(),
        forall|i: int| 0 <= i < maps.len() ==> (#[trigger] maps[i]).len() == 32,
    ensures
        ({
            let m = after_sources(maps, sources, ordinal_maps, new_ord, k);
            &&& m.len() >= maps.len()
            &&& forall|i: int| 0 <= i < m.len() ==> (#[trigger] m[i]).len() == 32
            &&& marks(m, ord, x) <==> marks(maps, ord, x) || (ord == new_ord && exists|s: int, i: int|
                0 <= s < k && #[trigger] gives_mark(sources[s], ordinal_maps[s]@, i, new_ord, x))
        }),
    decreases k,
{
    if k > 0 {
        let before = after_sources(maps, sources, ordinal_maps, new_ord, k - 1);
        lemma_after_sources(maps, sources, ordinal_maps, new_ord, k - 1, ord, x);
        lemma_source_marks(sources[k - 1], ordinal_maps[k - 1]@, new_ord, x);
        an_empty_bitmap_marks_nothing(x);
        let g = offset_table::padded(before, new_ord + 1, unmarked());
        let m = after_sources(maps, sources, ordinal_maps, new_ord, k);
        match source_marks(view_of(sources[k - 1]), ordinal_maps[k - 1]@, new_ord) {
            Some(bm) => {
                joined_marks_are_both(g[new_ord as int], bm, x);
                assert(m == g.update(new_ord as int, joined(g[new_ord as int], bm)));
                assert(marks(g, ord, x) <==> marks(before, ord, x));
            },
            None => {},
        }
        if exists|i: int| #[trigger] gives_mark(sources[k - 1], ordinal_maps[k - 1]@, i, new_ord, x) {
            let i = choose|i: int| #[trigger] gives_mark(sources[k - 1], ordinal_maps[k - 1]@, i, new_ord, x);
            assert(0 <= k - 1 < k && gives_mark(sources[k - 1], ordinal_maps[k - 1]@, i, new_ord, x));
        }
    }
}

proof fn lemma_merged_marks(
    sources: Seq<Option<&[u8]>>,
    ordinal_maps: Seq<Vec<(u32, u32)>>,
    terms: Seq<u32>,
    k: int,
    ord: u32,
    x: u8,
)
    requires
        0 <= k <= terms.len(),
    ensures
        ({
            let m = merged_maps(sources, ordinal_maps, terms, k);
            &&& m.len() >= terms.len()
            &&& forall|i: int| 0 <= i < m.len() ==> (#[trigger] m[i]).len() == 32
            &&& marks(m, ord, x) <==> terms.take(k).contains(ord) && exists|s: int, i: int|
                0 <= s < sources.len() && #[trigger] gives_mark(sources[s], ordinal_maps[s]@, i, ord, x)
        }),
    decreases k,
{
    let m = merged_maps(sources, ordinal_maps, terms, k);
    if k == 0 {
        an_empty_bitmap_marks_nothing(x);
        assert(!terms.take(0).contains(ord));
    } else {
        let before = merged_maps(sources, ordinal_maps, terms, k - 1);
        lemma_merged_marks(sources, ordinal_maps, terms, k - 1, ord, x);
        lemma_after_sources(before, sources, ordinal_maps, terms[k - 1], sources.len() as int, ord, x);
        assert(terms.take(k) =~= terms.take(k - 1).push(terms[k - 1]));
        if terms[k - 1] == ord {
            assert(terms.take(k)[k - 1] == ord);
        } else if terms.take(k).contains(ord) {
            let j = choose|j: int| 0 <= j < k && terms.take(k)[j] == ord;
            assert(terms.take(k - 1)[j] == ord);
        }
        if terms.take(k - 1).contains(ord) {
            let before_k = terms.take(k - 1);
            let j = choose|j: int| 0 <= j < before_k.len() && before_k[j] == ord;
            assert(terms.take(k)[j] == ord);
        }
    }
}

/// Law: a byte is marked for a merged ordinal exactly if some segment, the
/// first or a later one, marks it for the ordinal that became the merged one.
pub proof fn merged_marks_are_those_of_all_segments(
    sources: Seq<Option<&[u8]>>,
    ordinal_maps: Seq<Vec<(u32, u32)>>,
    terms: Seq<u32>,
    new_ord: u32,
    x: u8,
)
    requires
        terms.contains(new_ord),
    ensures
        marks(merged_maps(sources, ordinal_maps, terms, terms.len() as int), new_ord, x) <==> exists|
            s: int,
            i: int,
        |
            0 <= s < sources.len() && #[trigger] gives_mark(
                sources[s],
                ordinal_maps[s]@,
                i,
                new_ord,
                x,
            ),
{
    lemma_merged_marks(sources, ordinal_maps, terms, terms.len() as int, new_ord, x);
    assert(terms.take(terms.len() as int) =~= terms);
}

/// Law: a merge marks nothing for what is no merged ordinal.
pub proof fn only_merged_ordinals_are_marked(
    sources: Seq<Option<&[u8]>>,
    ordinal_maps: Seq<Vec<(u32, u32)>>,
    terms: Seq<u32>,
    new_ord: u32,
    x: u8,
)
    requires
        !terms.contains(new_ord),
    ensures
        !marks(merged_maps(sources, ordinal_maps, terms, terms.len() as int), new_ord, x),
{
    lemma_merged_marks(sources, ordinal_maps, terms, terms.len() as int, new_ord, x);
    assert(terms.take(terms.len() as int) =~= terms);
}

/// Law: what a merge writes reads back by ordinal, a bitmap for each merged
/// ordinal.
pub proof fn a_merge_reads_back(
    sources: Seq<Option<&[u8]>>,
    ordinal_maps: Seq<Vec<(u32, u32)>>,
    terms: Seq<u32>,
    new_ord: u32,
    x: u8,
)
    requires
        merged_maps(sources, ordinal_maps, terms, terms.len() as int).len() <= u32::MAX,
        new_ord < terms.len(),
    ensures
        ({
            let maps = merged_maps(sources, ordinal_maps, terms, terms.len() as int);
            &&& opens(sepmap_bytes(maps))
            &&& bitmap_in(sepmap_bytes(maps), new_ord) matches Some(bm) && (marked(bm, x) <==> terms.contains(
                new_ord,
            ) && exists|s: int, i: int|
                0 <= s < sources.len() && #[trigger] gives_mark(
                    sources[s],
                    ordinal_maps[s]@,
                    i,
                    new_ord,
                    x,
                ))
        }),
{
    let maps = merged_maps(sources, ordinal_maps, terms, terms.len() as int);
    lemma_merged_marks(sources, ordinal_maps, terms, terms.len() as int, new_ord, x);
    assert(terms.take(terms.len() as int) =~= terms);
    written_bitmaps_read_back(maps, new_ord);
}

/// Whether the gap behind a position of a document holds the byte, or is empty
/// and the byte is the flag for that.
pub open spec fn gap_gives(posmap: Seq<u8>, gaps: Seq<u8>, d: int, p: int, ord: u32, x: u8) -> bool {
    &&& 0 <= p < bytes::get16(gapmap::doc_in(gaps, d), 0) - 1
    &&& posmap::local_at(posmap, d as u32, p as u32) == Some(ord)
    &&& separator_after(gaps, d, p as u32) matches Some(gap) && (if gap.len() == 0 {
        x == CONTIGUOUS_FLAG
    } else {
        gap.contains(x)
    })
}

proof fn lemma_after_positions(
    maps: Seq<Seq<u8>>,
    posmap: Seq<u8>,
    gaps: Seq<u8>,
    d: u32,
    p: int,
    ord: u32,
    x: u8,
)
    requires
        p < bytes::get16(gapmap::doc_in(gaps, d as int), 0),
        forall|i: int| 0 <= i < maps.len() ==> (#[trigger] maps[i]).len() == 32,
    ensures
        ({
            let m = after_positions(maps, posmap, gaps, d, p);
            &&& forall|i: int| 0 <= i < m.len() ==> (#[trigger] m[i]).len() == 32
            &&& marks(m, ord, x) <==> marks(maps, ord, x) || exists|q: int|
                q < p && #[trigger] gap_gives(posmap, gaps, d as int, q, ord, x)
        }),
    decreases p,
{
    if p > 0 {
        let before = after_positions(maps, posmap, gaps, d, p - 1);
        lemma_after_positions(maps, posmap, gaps, d, p - 1, ord, x);
        an_empty_bitmap_marks_nothing(x);
        match posmap::local_at(posmap, d, (p - 1) as u32) {
            None => {},
            Some(o) => {
                let g = offset_table::padded(before, o + 1, unmarked());
                assert(marks(g, ord, x) <==> marks(before, ord, x));
                match separator_after(gaps, d as int, (p - 1) as u32) {
                    None => {},
                    Some(gap) => {
                        a_gap_marks_its_bytes(g[o as int], gap, x);
                    },
                }
            },
        }
        if gap_gives(posmap, gaps, d as int, p - 1, ord, x) {
            assert(p - 1 < p && gap_gives(posmap, gaps, d as int, p - 1, ord, x));
        }
    }
}

/// Law: a byte is marked for an ordinal exactly if it was before or is in the
/// gap behind a position, not the last of its document, where the ordinal
/// stands; the flag exactly if such a gap is empty.
pub proof fn derived_marks_are_those_of_the_gaps(
    maps: Seq<Seq<u8>>,
    posmap: Seq<u8>,
    gaps: Seq<u8>,
    n: int,
    ord: u32,
    x: u8,
)
    requires
        0 <= n <= u32::MAX,
        forall|i: int| 0 <= i < maps.len() ==> (#[trigger] maps[i]).len() == 32,
    ensures
        forall|i: int|
            0 <= i < derived_maps(maps, posmap, gaps, n).len() ==> (#[trigger] derived_maps(maps, posmap, gaps, n)[i]).len()
                == 32,
        marks(derived_maps(maps, posmap, gaps, n), ord, x) <==> marks(maps, ord, x) || exists|d: int, p: int|
            0 <= d < n && #[trigger] gap_gives(posmap, gaps, d, p, ord, x),
    decreases n,
{
    if n > 0 {
        let before = derived_maps(maps, posmap, gaps, n - 1);
        let count = bytes::get16(gapmap::doc_in(gaps, n - 1), 0);
        derived_marks_are_those_of_the_gaps(maps, posmap, gaps, n - 1, ord, x);
        lemma_after_positions(before, posmap, gaps, (n - 1) as u32, count - 1, ord, x);
        if exists|q: int| q < count - 1 && #[trigger] gap_gives(posmap, gaps, n - 1, q, ord, x) {
            let q = choose|q: int| q < count - 1 && #[trigger] gap_gives(posmap, gaps, n - 1, q, ord, x);
            assert(0 <= n - 1 < n && gap_gives(posmap, gaps, n - 1, q, ord, x));
        }
        if exists|d: int, p: int| 0 <= d < n && #[trigger] gap_gives(posmap, gaps, d, p, ord, x) {
            let (d, p) = choose|d: int, p: int| 0 <= d < n && #[trigger] gap_gives(posmap, gaps, d, p, ord, x);
            if d == n - 1 {
                assert(p < count - 1 && gap_gives(posmap, gaps, n - 1, p, ord, x));
            }
        }
    }
}

/// Where the merged ordinals are numbered from the first on, there is a bitmap
/// for each and no more.
pub proof fn lemma_merged_len(
    sources: Seq<Option<&[u8]>>,
    ordinal_maps: Seq<Vec<(u32, u32)>>,
    terms: Seq<u32>,
    k: int,
)
    requires
        0 <= k <= terms.len(),
        forall|i: int| 0 <= i < terms.len() ==> (#[trigger] terms[i]) < terms.len(),
    ensures
        merged_maps(sources, ordinal_maps, terms, k).len() == terms.len(),
    decreases k,
{
    if k > 0 {
        lemma_merged_len(sources, ordinal_maps, terms, k - 1);
        let before = merged_maps(sources, ordinal_maps, terms, k - 1);
        assert(terms[k - 1] < terms.len());
        lemma_after_len(before, sources, ordinal_maps, terms[k - 1], sources.len() as int);
    }
}

proof fn lemma_after_len(
    maps: Seq<Seq<u8>>,
    sources: Seq<Option<&[u8]>>,
    ordinal_maps: Seq<Vec<(u32, u32)>>,
    new_ord: u32,
    k: int,
)
    requires
        new_ord < maps.len(),
    ensures
        after_sources(maps, sources, ordinal_maps, new_ord, k).len() == maps.len(),
    decreases k,
{
    if k > 0 {
        lemma_after_len(maps, sources, ordinal_maps, new_ord, k - 1);
    }
}

} // verus!
