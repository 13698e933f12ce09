//! `.gmap`: a segment's local ordinals to the shard dictionary's global ids.
//!
//! The list is sorted: local to global is an index, global to local a search.
//!
//! Layout 2 (`GMP2`):
//!
//! ```text
//! [4 bytes] magic "GMP2"
//! [4 bytes] n (u32 LE)
//! [2 bytes] longest word-stripped content of the segment, in bytes
//!           (u16 LE; 0xFFFF = unknown)
//! [2 bytes] reserved (0)
//! [4 bytes x n] global id of local ordinal i (u32 LE), strictly increasing
//! [4 bytes x ceil(n / 64)] the first id of every block of 64
//! ```
//!
//! Layout 1 (`GMAP`) had the magic, `n` and the ids only; still read.

use vstd::prelude::*;

use crate::bytes;
use crate::bytes::{has_tag, part, push_u16, push_u32, read_u16, read_u32};

verus! {

/// The magic "GMAP", read as a little-endian integer.
pub const GMAP: u32 = 0x50414D47;

/// The magic "GMP2", read as a little-endian integer.
pub const GMP2: u32 = 0x32504D47;

/// Ids per block of the head index.
const BLOCK: u32 = 64;

const UNKNOWN_WORD: u16 = 0xFFFF;

/// Each value is larger than the one before.
pub open spec fn increasing(s: Seq<u32>) -> bool {
    forall|i: int, j: int| 0 <= i < j < s.len() ==> s[i] < s[j]
}

/// How many blocks of 64 ids there are.
pub open spec fn blocks_of(n: int) -> int {
    (n + 63) / 64
}

/// The first id of every block.
pub open spec fn block_heads(ids: Seq<u32>) -> Seq<u32> {
    Seq::new(blocks_of(ids.len() as int) as nat, |b: int| ids[64 * b])
}

/// How the longest word content is stored.
pub open spec fn word_field(max_word: Option<u16>) -> u16 {
    match max_word {
        Some(m) => if m < 0xFFFE {
            m
        } else {
            0xFFFE
        },
        None => 0xFFFF,
    }
}

/// The bytes of a layout 2 file.
pub open spec fn gmap_bytes(ids: Seq<u32>, max_word: Option<u16>) -> Seq<u8> {
    bytes::le32(GMP2) + bytes::le32(ids.len() as u32) + bytes::le16(word_field(max_word)) + bytes::le16(0)
        + bytes::le32s(ids) + bytes::le32s(block_heads(ids))
}

/// Serialize a sorted list of global ids (index = local ordinal), with the
/// segment's longest word-stripped content when known.
pub fn encode(globals: &[u32], max_word_content_len: Option<u16>) -> (out: Vec<u8>)
    requires
        increasing(globals@),
        globals@.len() <= u32::MAX,
    ensures
        out@ == gmap_bytes(globals@, max_word_content_len),
{
    let n: usize = globals.len();
    let word: u16 = match max_word_content_len {
        Some(m) => if m < UNKNOWN_WORD - 1 {
            m
        } else {
            UNKNOWN_WORD - 1
        },
        None => UNKNOWN_WORD,
    };
    let mut out: Vec<u8> = Vec::new();
    push_u32(&mut out, GMP2);
    push_u32(&mut out, n as u32);
    push_u16(&mut out, word);
    push_u16(&mut out, 0);
    let ghost head = bytes::le32(GMP2) + bytes::le32(n as u32) + bytes::le16(word) + bytes::le16(0);
    assert(out@ =~= head);
    let mut i: usize = 0;
    assert(globals@.take(0) =~= Seq::<u32>::empty());
    assert(out@ =~= head + bytes::le32s(globals@.take(0)));
    while i < n
        invariant
            n == globals@.len(),
            i <= n,
            out@ == head + bytes::le32s(globals@.take(i as int)),
        decreases n - i,
    {
        push_u32(&mut out, globals[i]);
        i += 1;
        proof {
            assert(globals@.take(i as int).drop_last() =~= globals@.take(i - 1));
            assert(out@ =~= head + bytes::le32s(globals@.take(i as int)));
        }
    }
    assert(globals@.take(n as int) =~= globals@);
    let ghost body = head + bytes::le32s(globals@);
    let ghost heads = block_heads(globals@);
    let blocks: usize = n / 64 + (if n % 64 == 0 {
        0usize
    } else {
        1usize
    });
    assert(blocks == blocks_of(n as int));
    let mut b: usize = 0;
    assert(heads.take(0) =~= Seq::<u32>::empty());
    assert(out@ =~= body + bytes::le32s(heads.take(0)));
    while b < blocks
        invariant
            n == globals@.len(),
            blocks == blocks_of(n as int),
            heads == block_heads(globals@),
            b <= blocks,
            out@ == body + bytes::le32s(heads.take(b as int)),
        decreases blocks - b,
    {
        push_u32(&mut out, globals[64 * b]);
        b += 1;
        proof {
            assert(heads.take(b as int).drop_last() =~= heads.take(b - 1));
            assert(heads.take(b as int).last() == globals@[64 * (b - 1)]);
            assert(out@ =~= body + bytes::le32s(heads.take(b as int)));
        }
    }
    assert(heads.take(b as int) =~= heads);
    assert(out@ =~= gmap_bytes(globals@, max_word_content_len));
    out
}

/// Which layout the bytes hold, if they hold a whole file.
pub open spec fn layout(s: Seq<u8>) -> Option<int> {
    if s.len() < 8 {
        None
    } else if bytes::tagged(s, GMAP) {
        if s.len() >= 8 + 4 * bytes::get32(s, 4) {
            Some(1)
        } else {
            None
        }
    } else if bytes::tagged(s, GMP2) && s.len() >= 12 + 4 * bytes::get32(s, 4) + 4 * blocks_of(
        bytes::get32(s, 4) as int,
    ) {
        Some(2)
    } else {
        None
    }
}

/// The ids a file holds.
pub open spec fn ids_in(s: Seq<u8>) -> Seq<u32> {
    let at = if layout(s) == Some(1int) {
        8int
    } else {
        12int
    };
    Seq::new(bytes::get32(s, 4) as nat, |i: int| bytes::get32(s, at + 4 * i))
}

/// The block heads a file holds; layout 1 has none.
pub open spec fn heads_in(s: Seq<u8>) -> Seq<u32> {
    let n = bytes::get32(s, 4) as int;
    if layout(s) == Some(1int) {
        Seq::empty()
    } else {
        Seq::new(blocks_of(n) as nat, |b: int| bytes::get32(s, 12 + 4 * n + 4 * b))
    }
}

/// The longest word content a file states.
pub open spec fn max_word_in(s: Seq<u8>) -> Option<u16> {
    if layout(s) == Some(1int) || bytes::get16(s, 8) == 0xFFFF {
        None
    } else {
        Some(bytes::get16(s, 8))
    }
}

/// What the writer guarantees of a file: the ids increase, and the heads are
/// the first ids of the blocks.
pub open spec fn sound(ids: Seq<u32>, heads: Seq<u32>) -> bool {
    increasing(ids) && (heads.len() > 0 ==> heads == block_heads(ids))
}

/// The first index from `from` on whose id is at least `target`, or the
/// number of ids.
pub open spec fn lower_bound(ids: Seq<u32>, from: int, target: u32) -> int
    decreases ids.len() - from,
{
    if from >= ids.len() {
        ids.len() as int
    } else if ids[from] >= target {
        from
    } else {
        lower_bound(ids, from + 1, target)
    }
}

/// The first of the heads from `lo` to `hi` that is past `target`, by halving.
pub open spec fn halve_heads(heads: Seq<u32>, lo: int, hi: int, target: u32) -> int
    decreases hi - lo,
{
    if lo >= hi {
        lo
    } else {
        let mid = lo + (hi - lo) / 2;
        if heads[mid] <= target {
            halve_heads(heads, mid + 1, hi, target)
        } else {
            halve_heads(heads, lo, mid, target)
        }
    }
}

/// The place of `global` among the ids from `lo` to `hi`, by halving.
pub open spec fn halve_ids(ids: Seq<u32>, lo: int, hi: int, global: u32) -> Option<u32>
    decreases hi - lo,
{
    if lo >= hi {
        None
    } else {
        let mid = lo + (hi - lo) / 2;
        if ids[mid] == global {
            Some(mid as u32)
        } else if ids[mid] < global {
            halve_ids(ids, mid + 1, hi, global)
        } else {
            halve_ids(ids, lo, mid, global)
        }
    }
}

/// The place of `global` among the ids: by halving the block that the heads
/// name, or all of them where there are no heads.
pub open spec fn find_local(ids: Seq<u32>, heads: Seq<u32>, global: u32) -> Option<u32> {
    let n = ids.len() as int;
    if heads.len() == 0 {
        halve_ids(ids, 0, n, global)
    } else {
        let h = halve_heads(heads, 0, heads.len() as int, global);
        let b = if h == 0 {
            0
        } else {
            h - 1
        };
        halve_ids(
            ids,
            64 * b,
            if 64 * (b + 1) < n {
                64 * (b + 1)
            } else {
                n
            },
            global,
        )
    }
}

proof fn lemma_halve_heads(heads: Seq<u32>, lo: int, hi: int, target: u32)
    requires
        0 <= lo <= hi <= heads.len(),
        increasing(heads),
        forall|b: int| 0 <= b < lo ==> heads[b] <= target,
        forall|b: int| hi <= b < heads.len() ==> heads[b] > target,
    ensures
        ({
            let h = halve_heads(heads, lo, hi, target);
            &&& lo <= h <= hi
            &&& forall|b: int| 0 <= b < h ==> heads[b] <= target
            &&& forall|b: int| h <= b < heads.len() ==> heads[b] > target
        }),
    decreases hi - lo,
{
    if lo < hi {
        let mid = lo + (hi - lo) / 2;
        if heads[mid] <= target {
            lemma_halve_heads(heads, mid + 1, hi, target);
        } else {
            lemma_halve_heads(heads, lo, mid, target);
        }
    }
}

proof fn lemma_halve_ids(ids: Seq<u32>, lo: int, hi: int, global: u32)
    requires
        0 <= lo <= hi <= ids.len(),
        ids.len() <= u32::MAX,
        increasing(ids),
        forall|k: int| 0 <= k < lo ==> ids[k] != global,
        forall|k: int| hi <= k < ids.len() ==> ids[k] != global,
    ensures
        ({
            let r = halve_ids(ids, lo, hi, global);
            &&& r is Some <==> ids.contains(global)
            &&& r matches Some(i) ==> i < ids.len() && ids[i as int] == global
        }),
    decreases hi - lo,
{
    if lo < hi {
        let mid = lo + (hi - lo) / 2;
        if ids[mid] == global {
            assert(ids.contains(ids[mid]));
        } else if ids[mid] < global {
            lemma_halve_ids(ids, mid + 1, hi, global);
        } else {
            lemma_halve_ids(ids, lo, mid, global);
        }
    }
}

/// Law: on a sound map, `local` finds an id if and only if the map holds it,
/// at its place.
pub proof fn local_finds_what_is_held(ids: Seq<u32>, heads: Seq<u32>, global: u32)
    requires
        sound(ids, heads),
        ids.len() <= u32::MAX,
    ensures
        find_local(ids, heads, global) is Some <==> ids.contains(global),
        find_local(ids, heads, global) matches Some(i) ==> i < ids.len() && ids[i as int] == global,
{
    let n = ids.len() as int;
    if heads.len() == 0 {
        lemma_halve_ids(ids, 0, n, global);
    } else {
        assert forall|a: int, b: int| 0 <= a < b < heads.len() implies heads[a] < heads[b] by {
            assert(heads[a] == ids[64 * a]);
            assert(heads[b] == ids[64 * b]);
        }
        lemma_halve_heads(heads, 0, heads.len() as int, global);
        let h = halve_heads(heads, 0, heads.len() as int, global);
        let b = if h == 0 {
            0
        } else {
            h - 1
        };
        let hi = if 64 * (b + 1) < n {
            64 * (b + 1)
        } else {
            n
        };
        assert(heads[b] == ids[64 * b]);
        assert forall|k: int| 0 <= k < 64 * b implies ids[k] != global by {
            assert(ids[k] < ids[64 * b]);
        }
        assert forall|k: int| hi <= k < n implies ids[k] != global by {
            assert(heads[b + 1] == ids[64 * (b + 1)]);
            if k > 64 * (b + 1) {
                assert(ids[64 * (b + 1)] < ids[k]);
            }
        }
        lemma_halve_ids(ids, 64 * b, hi, global);
    }
}

proof fn lemma_lower_bound(ids: Seq<u32>, from: int, target: u32, r: int)
    requires
        0 <= from <= r <= ids.len(),
        forall|k: int| from <= k < r ==> ids[k] < target,
        r < ids.len() ==> ids[r] >= target,
    ensures
        lower_bound(ids, from, target) == r,
    decreases r - from,
{
    if from < r {
        lemma_lower_bound(ids, from + 1, target, r);
    }
}

/// Zero-copy reader.
#[derive(Clone, Copy)]
pub struct GmapReader<'a> {
    data: &'a [u8],
    n: u32,
    heads: &'a [u8],
    max_word: Option<u16>,
}

impl<'a> GmapReader<'a> {
    /// The tables have the lengths that the number of ids asks for.
    pub closed spec fn wf(&self) -> bool {
        &&& self.data@.len() == 4 * self.n
        &&& self.heads@.len() == 0 || self.heads@.len() == 4 * blocks_of(self.n as int)
    }

    /// The ids.
    pub closed spec fn ids(&self) -> Seq<u32> {
        Seq::new(self.n as nat, |i: int| bytes::get32(self.data@, 4 * i))
    }

    /// The block heads.
    pub closed spec fn spec_heads(&self) -> Seq<u32> {
        Seq::new((self.heads@.len() / 4) as nat, |b: int| bytes::get32(self.heads@, 4 * b))
    }

    pub closed spec fn max_word(&self) -> Option<u16> {
        self.max_word
    }

    /// Open over borrowed bytes; `None` on a bad magic or a short file.
    pub fn open(bytes: &'a [u8]) -> (r: Option<Self>)
        ensures
            r is Some <==> layout(bytes@) is Some,
            r matches Some(g) ==> g.wf() && g.ids() == ids_in(bytes@) && g.spec_heads() == heads_in(
                bytes@,
            ) && g.max_word() == max_word_in(bytes@),
    {
        if bytes.len() < 8 {
            return None;
        }
        let n: u32 = read_u32(bytes, 4);
        let len: u64 = bytes.len() as u64;
        if has_tag(bytes, GMAP) {
            if len < 8 + 4 * n as u64 {
                return None;
            }
            let data = part(bytes, 8, 8 + 4 * n as usize);
            let heads = part(bytes, 0, 0);
            let g = Self { data, n, heads, max_word: None };
            proof {
                assert forall|i: int| 0 <= i < n implies #[trigger] bytes::get32(data@, 4 * i) == bytes::get32(
                    bytes@,
                    8 + 4 * i,
                ) by {
                    assert(data@.subrange(4 * i, 4 * i + 4) =~= bytes@.subrange(
                        8 + 4 * i,
                        8 + 4 * i + 4,
                    ));
                    bytes::lemma_get32_local(data@, 4 * i, bytes@, 8 + 4 * i);
                }
                assert(g.ids() =~= ids_in(bytes@));
                assert(g.spec_heads() =~= heads_in(bytes@));
            }
            return Some(g);
        }
        if !has_tag(bytes, GMP2) {
            return None;
        }
        let blocks: u64 = (n as u64 + 63) / 64;
        if len < 12 + 4 * n as u64 + 4 * blocks {
            return None;
        }
        let mw: u16 = read_u16(bytes, 8);
        let at: usize = 12 + 4 * n as usize;
        let data = part(bytes, 12, at);
        let heads = part(bytes, at, at + 4 * blocks as usize);
        let max_word = if mw == UNKNOWN_WORD {
            None
        } else {
            Some(mw)
        };
        let g = Self { data, n, heads, max_word };
        proof {
            assert forall|i: int| 0 <= i < n implies #[trigger] bytes::get32(data@, 4 * i) == bytes::get32(
                bytes@,
                12 + 4 * i,
            ) by {
                assert(data@.subrange(4 * i, 4 * i + 4) =~= bytes@.subrange(
                    12 + 4 * i,
                    12 + 4 * i + 4,
                ));
                bytes::lemma_get32_local(data@, 4 * i, bytes@, 12 + 4 * i);
            }
            assert forall|b: int| 0 <= b < blocks implies #[trigger] bytes::get32(heads@, 4 * b) == bytes::get32(
                bytes@,
                at + 4 * b,
            ) by {
                assert(heads@.subrange(4 * b, 4 * b + 4) =~= bytes@.subrange(
                    at + 4 * b,
                    at + 4 * b + 4,
                ));
                bytes::lemma_get32_local(heads@, 4 * b, bytes@, at + 4 * b);
            }
            assert(g.ids() =~= ids_in(bytes@));
            assert(g.spec_heads() =~= heads_in(bytes@));
        }
        Some(g)
    }

    /// Number of local ordinals.
    pub fn len(&self) -> (r: u32)
        ensures
            r == self.ids().len(),
    {
        self.n
    }

    /// The segment's longest word-stripped content, when the file says.
    pub fn max_word_content_len(&self) -> (r: Option<u16>)
        ensures
            r == self.max_word(),
    {
        self.max_word
    }

    fn head(&self, block: usize) -> (r: u32)
        requires
            self.wf(),
            block < self.spec_heads().len(),
        ensures
            r == self.spec_heads()[block as int],
    {
        read_u32(self.heads, 4 * block)
    }

    /// The block whose ids may hold `target`: the last block whose head is
    /// at most `target`, searched among the blocks from `first_block` on.
    fn block_of(&self, first_block: usize, target: u32) -> (r: usize)
        requires
            self.wf(),
            first_block <= self.spec_heads().len(),
            self.spec_heads().len() > 0,
        ensures
            r < self.spec_heads().len(),
            first_block <= r + 1,
            r == (if halve_heads(
                self.spec_heads(),
                first_block as int,
                self.spec_heads().len() as int,
                target,
            ) == 0 {
                0
            } else {
                halve_heads(
                    self.spec_heads(),
                    first_block as int,
                    self.spec_heads().len() as int,
                    target,
                ) - 1
            }),
            sound(self.ids(), self.spec_heads()) ==> {
                &&& first_block <= r ==> self.spec_heads()[r as int] <= target || (r == 0
                    && self.spec_heads()[0] > target)
                &&& forall|b: int|
                    r < b < self.spec_heads().len() && first_block <= b ==> self.spec_heads()[b]
                        > target
            },
    {
        let ghost heads = self.spec_heads();
        let blocks: usize = self.heads.len() / 4;
        let mut lo: usize = first_block;
        let mut hi: usize = blocks;
        proof {
            if sound(self.ids(), heads) {
                assert forall|a: int, b: int| 0 <= a < b < heads.len() implies heads[a]
                    < heads[b] by {
                    assert(heads[a] == self.ids()[64 * a]);
                    assert(heads[b] == self.ids()[64 * b]);
                }
            }
        }
        while lo < hi
            invariant
                self.wf(),
                heads == self.spec_heads(),
                blocks == heads.len(),
                first_block <= lo <= hi <= blocks,
                halve_heads(heads, first_block as int, blocks as int, target) == halve_heads(
                    heads,
                    lo as int,
                    hi as int,
                    target,
                ),
                sound(self.ids(), heads) ==> {
                    &&& forall|a: int, b: int| 0 <= a < b < heads.len() ==> heads[a] < heads[b]
                    &&& forall|b: int| first_block <= b < lo ==> heads[b] <= target
                    &&& forall|b: int| hi <= b < blocks ==> heads[b] > target
                },
            decreases hi - lo,
        {
            let mid: usize = lo + (hi - lo) / 2;
            if self.head(mid) <= target {
                lo = mid + 1;
            } else {
                hi = mid;
            }
        }
        if lo == 0 {
            0
        } else {
            lo - 1
        }
    }

    /// The first local ordinal at or after `from` whose global id is at
    /// least `target` (`len()` when none): with the block heads, one search
    /// over the heads then one over a block; without, galloping from
    /// `from` (exponential then binary).
    ///
    /// On a file whose ids do not increase, or whose heads are not the first
    /// ids of their blocks, some ordinal is returned.
    pub fn lower_bound_from(&self, from: u32, target: u32) -> (r: u32)
        requires
            self.wf(),
        ensures
            r <= self.ids().len(),
            from >= self.ids().len() ==> r == self.ids().len(),
            sound(self.ids(), self.spec_heads()) ==> r == lower_bound(
                self.ids(),
                from as int,
                target,
            ),
    {
        let ghost ids = self.ids();
        let ghost ok = sound(ids, self.spec_heads());
        let n: u32 = self.n;
        if from >= n {
            return n;
        }
        let mut lo: u32;
        let mut hi: u32;
        if self.heads.len() > 0 {
            let ghost heads = self.spec_heads();
            // Sorted probes mostly land in the block of the previous one:
            // stay there when the next head is past the target.
            let fb: usize = (from / BLOCK) as usize;
            let blocks: usize = self.heads.len() / 4;
            assert(blocks == heads.len());
            let b: usize = if fb + 1 >= blocks || self.head(fb + 1) > target {
                fb
            } else {
                self.block_of(fb + 1, target)
            };
            let first: u32 = b as u32 * BLOCK;
            lo = if first > from {
                first
            } else {
                from
            };
            let past: u64 = (b as u64 + 1) * 64;
            hi = if past < n as u64 {
                past as u32
            } else {
                n
            };
            proof {
                if ok {
                    if b + 1 < blocks {
                        assert(heads[b + 1] == ids[64 * (b + 1)]);
                        assert(heads[b + 1] > target);
                    }
                    if first > from {
                        assert(heads[b as int] == ids[64 * b]);
                        assert(heads[b as int] <= target);
                    }
                }
            }
            if hi < lo {
                hi = lo;
            }
        } else {
            lo = from;
            hi = from;
            let mut step: u32 = 1;
            while hi < n && self.global(hi) < target
                invariant
                    self.wf(),
                    ids == self.ids(),
                    n == self.n,
                    from <= lo <= n,
                    lo <= hi || hi >= n,
                    step >= 1,
                    ok == sound(ids, self.spec_heads()),
                    ok ==> forall|k: int| from <= k < lo ==> ids[k] < target,
                ensures
                    from <= lo <= n,
                    lo <= hi || hi >= n,
                    hi < n ==> ids[hi as int] >= target,
                    ok ==> forall|k: int| from <= k < lo ==> ids[k] < target,
                decreases n - lo,
            {
                lo = hi + 1;
                hi = hi.saturating_add(step);
                step = if step < 0x8000_0000 {
                    step * 2
                } else {
                    0xFFFF_FFFF
                };
            }
            if hi > n {
                hi = n;
            }
        }
        while lo < hi
            invariant
                self.wf(),
                ids == self.ids(),
                n == self.n,
                from <= lo <= hi <= n,
                ok == sound(ids, self.spec_heads()),
                ok ==> {
                    &&& forall|k: int| from <= k < lo ==> ids[k] < target
                    &&& forall|k: int| hi <= k < n ==> ids[k] >= target
                },
            decreases hi - lo,
        {
            let mid: u32 = lo + (hi - lo) / 2;
            if self.global(mid) < target {
                lo = mid + 1;
            } else {
                hi = mid;
            }
        }
        proof {
            if ok {
                lemma_lower_bound(ids, from as int, target, lo as int);
            }
        }
        lo
    }

    /// True when the segment has no ordinal.
    pub fn is_empty(&self) -> (r: bool)
        ensures
            r == (self.ids().len() == 0),
    {
        self.n == 0
    }

    /// Global id of a local ordinal.
    pub fn global(&self, local: u32) -> (r: u32)
        requires
            self.wf(),
            local < self.ids().len(),
        ensures
            r == self.ids()[local as int],
    {
        let len: usize = self.data.len();
        assert(4 * local + 4 <= len);
        read_u32(self.data, 4 * local as usize)
    }

    /// Local ordinal of a global id, if the segment has it.
    ///
    /// On a file whose ids do not increase, or whose heads are not the first
    /// ids of their blocks, an id may be missed (`find_local`).
    pub fn local(&self, global: u32) -> (r: Option<u32>)
        requires
            self.wf(),
        ensures
            r == find_local(self.ids(), self.spec_heads(), global),
    {
        let ghost ids = self.ids();
        let ghost heads = self.spec_heads();
        if self.n == 0 {
            return None;
        }
        let mut lo: u32 = 0;
        let mut hi: u32 = self.n;
        if self.heads.len() > 0 {
            let b: usize = self.block_of(0, global);
            assert(heads.len() == blocks_of(self.n as int));
            assert(heads.len() <= 67108864);
            lo = b as u32 * BLOCK;
            let past: u64 = (b as u64 + 1) * 64;
            if past < self.n as u64 {
                hi = past as u32;
            }
        }
        let ghost want = halve_ids(ids, lo as int, hi as int, global);
        while lo < hi
            invariant
                self.wf(),
                ids == self.ids(),
                lo <= hi <= self.n,
                want == find_local(ids, self.spec_heads(), global),
                want == halve_ids(ids, lo as int, hi as int, global),
            decreases hi - lo,
        {
            let mid: u32 = lo + (hi - lo) / 2;
            let g: u32 = self.global(mid);
            if g == global {
                return Some(mid);
            } else if g < global {
                lo = mid + 1;
            } else {
                hi = mid;
            }
        }
        None
    }

    /// Every global id, in local order.
    pub fn iter(&self) -> (r: Vec<u32>)
        requires
            self.wf(),
        ensures
            r@ == self.ids(),
    {
        let mut out: Vec<u32> = Vec::new();
        let mut i: u32 = 0;
        while i < self.n
            invariant
                self.wf(),
                i <= self.n,
                out@ =~= self.ids().take(i as int),
            decreases self.n - i,
        {
            out.push(self.global(i));
            i += 1;
        }
        out
    }
}

/// Law: a written map opens with the ids, the heads and the word length that
/// were written, so that `global`, `local` and `lower_bound_from` answer for
/// the list that was given.
pub proof fn written_map_reads_back(ids: Seq<u32>, max_word: Option<u16>)
    requires
        increasing(ids),
        ids.len() <= u32::MAX,
    ensures
        ({
            let f = gmap_bytes(ids, max_word);
            &&& layout(f) == Some(2int)
            &&& ids_in(f) == ids
            &&& heads_in(f) == block_heads(ids)
            &&& sound(ids_in(f), heads_in(f))
            &&& max_word_in(f) == (match max_word {
                Some(m) => Some(
                    if m < 0xFFFE {
                        m
                    } else {
                        0xFFFEu16
                    },
                ),
                None => None,
            })
        }),
{
    broadcast use {bytes::group_le_len, bytes::lemma_le32s_len};

    let f = gmap_bytes(ids, max_word);
    let n = ids.len() as int;
    let heads = block_heads(ids);
    assert(f.subrange(0, 4) =~= bytes::le32(GMP2));
    bytes::lemma_get32(f, 0, GMP2);
    assert(f.subrange(4, 8) =~= bytes::le32(n as u32));
    bytes::lemma_get32(f, 4, n as u32);
    assert(f.subrange(8, 10) =~= bytes::le16(word_field(max_word)));
    bytes::lemma_get16(f, 8, word_field(max_word));
    assert(f.subrange(12, 12 + 4 * n) =~= bytes::le32s(ids));
    assert(f.subrange(12 + 4 * n, 12 + 4 * n + 4 * heads.len()) =~= bytes::le32s(heads));
    assert forall|i: int| 0 <= i < n implies #[trigger] ids_in(f)[i] == ids[i] by {
        bytes::lemma_table32(f, 12, ids, i);
    }
    assert forall|b: int| 0 <= b < heads.len() implies #[trigger] heads_in(f)[b] == heads[b] by {
        bytes::lemma_table32(f, 12 + 4 * n, heads, b);
    }
    assert(ids_in(f) =~= ids);
    assert(heads_in(f) =~= heads);
}

/// Law: the lower bound is the first index from where the search starts whose
/// id is not below the target; the number of ids where there is none.
pub proof fn a_lower_bound_is_the_first_not_below(ids: Seq<u32>, from: int, target: u32)
    requires
        0 <= from <= ids.len(),
    ensures
        from <= lower_bound(ids, from, target) <= ids.len(),
        forall|i: int| from <= i < lower_bound(ids, from, target) ==> (#[trigger] ids[i]) < target,
        lower_bound(ids, from, target) < ids.len() ==> ids[lower_bound(ids, from, target)] >= target,
    decreases ids.len() - from,
{
    if from < ids.len() && ids[from] < target {
        a_lower_bound_is_the_first_not_below(ids, from + 1, target);
    }
}

} // verus!
