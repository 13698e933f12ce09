//! A table of increasing 32-bit offsets in blocks of 64, each entry one, two
//! or four bytes above the block's base.
//!
//! ```text
//! [4 bytes] number of offsets (u32 LE)
//! [4 bytes] number of blocks (u32 LE)
//! [4 bytes] bytes of the blocks (u32 LE)
//! [4 bytes x blocks] where each block starts, from the first one
//! per block:
//!   [4 bytes] base: its first offset (u32 LE)
//!   [1 byte]  width: bytes per entry
//!   [width x entries] offset - base (LE)
//! ```

use vstd::prelude::*;

use crate::bytes;
use crate::bytes::{part, push_flat, push_u16, push_u32, push_u32s, read_u16, read_u32};

verus! {

/// No offset is below the one before it.
pub open spec fn ascending(s: Seq<u32>) -> bool {
    forall|i: int, j: int| 0 <= i <= j < s.len() ==> s[i] <= s[j]
}

/// How many blocks hold `n` offsets.
pub open spec fn block_count(n: int) -> int {
    (n + 63) / 64
}

/// The offsets of block `b`.
pub open spec fn block_of(offsets: Seq<u32>, b: int) -> Seq<u32> {
    offsets.subrange(
        64 * b,
        if 64 * b + 64 < offsets.len() {
            64 * b + 64
        } else {
            offsets.len() as int
        },
    )
}

/// Bytes per entry of a block whose last offset is `span` above its first.
pub open spec fn width_for(span: int) -> u8 {
    if span < 256 {
        1
    } else if span < 65536 {
        2
    } else {
        4
    }
}

/// An entry of `width` bytes.
pub open spec fn entry(v: u32, width: u8) -> Seq<u8> {
    if width == 1 {
        seq![v as u8]
    } else if width == 2 {
        bytes::le16(v as u16)
    } else {
        bytes::le32(v)
    }
}

/// The entries of a block.
pub open spec fn entries(block: Seq<u32>, base: u32, width: u8) -> Seq<u8>
    decreases block.len(),
{
    if block.len() == 0 {
        Seq::empty()
    } else {
        entries(block.drop_last(), base, width) + entry((block.last() - base) as u32, width)
    }
}

/// The bytes of a block.
pub open spec fn block_bytes(block: Seq<u32>) -> Seq<u8> {
    let width = width_for(block.last() - block[0]);
    bytes::le32(block[0]) + seq![width] + entries(block, block[0], width)
}

/// The bytes of every block.
pub open spec fn all_blocks(offsets: Seq<u32>) -> Seq<Seq<u8>> {
    Seq::new(
        block_count(offsets.len() as int) as nat,
        |b: int| block_bytes(block_of(offsets, b)),
    )
}

/// Where each block starts.
pub open spec fn directory(blocks: Seq<Seq<u8>>) -> Seq<u32> {
    Seq::new(blocks.len(), |b: int| bytes::start_of(blocks, b) as u32)
}

/// The bytes of a table.
pub open spec fn table_bytes(offsets: Seq<u32>) -> Seq<u8> {
    let blocks = all_blocks(offsets);
    bytes::le32(offsets.len() as u32) + bytes::le32(blocks.len() as u32) + bytes::le32(bytes::flat(blocks).len() as u32)
        + bytes::le32s(directory(blocks)) + bytes::flat(blocks)
}

fn push_entry(out: &mut Vec<u8>, v: u32, width: u8)
    requires
        width == 1 ==> v < 256,
        width == 2 ==> v < 65536,
    ensures
        final(out)@ == old(out)@ + entry(v, width),
{
    if width == 1 {
        out.push(v as u8);
        assert(out@ =~= old(out)@ + entry(v, width));
    } else if width == 2 {
        push_u16(out, v as u16);
    } else {
        push_u32(out, v);
    }
}

fn encode_block(offsets: &[u32], from: usize, to: usize) -> (out: Vec<u8>)
    requires
        from < to <= offsets@.len(),
        ascending(offsets@),
    ensures
        out@ == block_bytes(offsets@.subrange(from as int, to as int)),
{
    let ghost block = offsets@.subrange(from as int, to as int);
    let base: u32 = offsets[from];
    let span: u32 = offsets[to - 1] - base;
    let width: u8 = if span < 256 {
        1
    } else if span < 65536 {
        2
    } else {
        4
    };
    let mut out: Vec<u8> = Vec::new();
    push_u32(&mut out, base);
    out.push(width);
    let ghost head = bytes::le32(base) + seq![width];
    assert(out@ =~= head);
    let mut i: usize = from;
    assert(block.take(0) =~= Seq::<u32>::empty());
    assert(out@ =~= head + entries(block.take(0), base, width));
    while i < to
        invariant
            from <= i <= to <= offsets@.len(),
            ascending(offsets@),
            from < to,
            block == offsets@.subrange(from as int, to as int),
            base == offsets@[from as int],
            width == width_for(offsets@[to - 1] - base),
            out@ == head + entries(block.take(i - from), base, width),
        decreases to - i,
    {
        assert(offsets@[i as int] <= offsets@[to - 1]);
        assert(offsets@[from as int] <= offsets@[i as int]);
        push_entry(&mut out, offsets[i] - base, width);
        i += 1;
        proof {
            let t = block.take(i - from);
            assert(t.drop_last() =~= block.take(i - from - 1));
            assert(t.last() == offsets@[i - 1]);
            assert(out@ =~= head + entries(t, base, width));
        }
    }
    assert(block.take(to - from) =~= block);
    assert(out@ =~= block_bytes(block));
    out
}

/// Serialize a table of offsets, none below the one before it.
pub fn encode(offsets: &[u32]) -> (out: Vec<u8>)
    requires
        offsets@.len() <= u32::MAX,
        ascending(offsets@),
        bytes::flat(all_blocks(offsets@)).len() <= u32::MAX,
    ensures
        out@ == table_bytes(offsets@),
{
    let ghost all = all_blocks(offsets@);
    let n: usize = offsets.len();
    let count: usize = n / 64 + (if n % 64 == 0 {
        0usize
    } else {
        1usize
    });
    let mut blocks: Vec<Vec<u8>> = Vec::new();
    let mut dir: Vec<u32> = Vec::new();
    let mut total: u32 = 0;
    let mut b: usize = 0;
    proof {
        bytes::lemma_start_ends(all);
    }
    while b < count
        invariant
            n == offsets@.len(),
            ascending(offsets@),
            count == block_count(n as int),
            all == all_blocks(offsets@),
            bytes::flat(all).len() <= u32::MAX,
            b <= count,
            bytes::deep(blocks@) =~= all.take(b as int),
            dir@ =~= directory(all).take(b as int),
            total == bytes::start_of(all, b as int),
        decreases count - b,
    {
        let from: usize = 64 * b;
        let to: usize = if n - from > 64 {
            from + 64
        } else {
            n
        };
        proof {
            bytes::lemma_flat_at(all, b as int);
            assert(block_of(offsets@, b as int) =~= offsets@.subrange(from as int, to as int));
        }
        let block = encode_block(offsets, from, to);
        dir.push(total);
        total = total + block.len() as u32;
        blocks.push(block);
        b += 1;
    }
    assert(bytes::deep(blocks@) =~= all);
    assert(dir@ =~= directory(all));
    let mut out: Vec<u8> = Vec::new();
    push_u32(&mut out, n as u32);
    push_u32(&mut out, count as u32);
    push_u32(&mut out, total);
    push_u32s(&mut out, &dir);
    push_flat(&mut out, &blocks);
    assert(out@ =~= table_bytes(offsets@));
    out
}

/// Whether a whole table stands at the start of `s`.
pub open spec fn parses(s: Seq<u8>) -> bool {
    &&& s.len() >= 12
    &&& bytes::get32(s, 4) == block_count(bytes::get32(s, 0) as int)
    &&& s.len() >= 12 + 4 * bytes::get32(s, 4) + bytes::get32(s, 8)
}

/// How many bytes a table takes.
pub open spec fn table_len(s: Seq<u8>) -> int {
    12 + 4 * bytes::get32(s, 4) + bytes::get32(s, 8)
}

/// Offset `i` as the directory and the blocks give it; 0 where they do not
/// hold it.
pub open spec fn offset_in(dir: Seq<u8>, blocks: Seq<u8>, i: int) -> u32 {
    let at = 4 * (i / 64);
    if at + 4 > dir.len() {
        0
    } else {
        let start = bytes::get32(dir, at) as int;
        if start + 5 > blocks.len() {
            0
        } else {
            let width = blocks[start + 4] as int;
            let p = start + 5 + width * (i % 64);
            if p + width > blocks.len() || !(width == 1 || width == 2 || width == 4) {
                0
            } else {
                let above = if width == 1 {
                    blocks[p] as int
                } else if width == 2 {
                    bytes::get16(blocks, p) as int
                } else {
                    bytes::get32(blocks, p) as int
                };
                ((bytes::get32(blocks, start) + above) % 0x1_0000_0000) as u32
            }
        }
    }
}

/// A table, read in place.
#[derive(Clone, Copy)]
pub struct BlockOffsets<'a> {
    len: u32,
    dir: &'a [u8],
    blocks: &'a [u8],
}

impl<'a> BlockOffsets<'a> {
    pub closed spec fn spec_len(&self) -> u32 {
        self.len
    }

    /// The directory's bytes.
    pub closed spec fn dir(&self) -> Seq<u8> {
        self.dir@
    }

    /// The blocks' bytes.
    pub closed spec fn blocks(&self) -> Seq<u8> {
        self.blocks@
    }

    /// The table at the start of `bytes`, and how many bytes it takes.
    pub fn parse(bytes: &'a [u8]) -> (r: Option<(Self, usize)>)
        ensures
            r is Some <==> parses(bytes@),
            r matches Some(t) ==> {
                &&& t.1 == table_len(bytes@)
                &&& t.0.spec_len() == bytes::get32(bytes@, 0)
                &&& t.0.dir() == bytes@.subrange(12, 12 + 4 * bytes::get32(bytes@, 4))
                &&& t.0.blocks() == bytes@.subrange(
                    12 + 4 * bytes::get32(bytes@, 4),
                    table_len(bytes@),
                )
            },
    {
        if bytes.len() < 12 {
            return None;
        }
        let len: u32 = read_u32(bytes, 0);
        let count: u32 = read_u32(bytes, 4);
        let size: u32 = read_u32(bytes, 8);
        if count as u64 != (len as u64 + 63) / 64 {
            return None;
        }
        let total: u64 = 12 + 4 * count as u64 + size as u64;
        if (bytes.len() as u64) < total {
            return None;
        }
        let mid: usize = 12 + 4 * count as usize;
        let end: usize = total as usize;
        let table = Self { len, dir: part(bytes, 12, mid), blocks: part(bytes, mid, end) };
        Some((table, end))
    }

    /// A table whose directory and blocks are at hand.
    pub fn from_parts(len: u32, dir: &'a [u8], blocks: &'a [u8]) -> (r: Self)
        ensures
            r.spec_len() == len,
            r.dir() == dir@,
            r.blocks() == blocks@,
    {
        Self { len, dir, blocks }
    }

    /// Number of offsets.
    pub fn len(&self) -> (r: u32)
        ensures
            r == self.spec_len(),
    {
        self.len
    }

    /// Offset `idx`; 0 where the table's bytes do not hold it.
    pub fn get(&self, idx: u32) -> (r: u32)
        ensures
            r == offset_in(self.dir(), self.blocks(), idx as int),
    {
        let at: u64 = 4 * (idx as u64 / 64);
        if at + 4 > self.dir.len() as u64 {
            return 0;
        }
        let start: u64 = read_u32(self.dir, at as usize) as u64;
        let size: u64 = self.blocks.len() as u64;
        if start + 5 > size {
            return 0;
        }
        let width: u64 = self.blocks[(start + 4) as usize] as u64;
        let within: u64 = idx as u64 % 64;
        proof {
            assert(width * within <= 255 * 63) by (nonlinear_arith)
                requires
                    width <= 255,
                    within <= 63,
            ;
            assert(width * within >= 0) by (nonlinear_arith);
        }
        let p: u64 = start + 5 + width * within;
        if p + width > size {
            return 0;
        }
        let above: u64 = if width == 1 {
            self.blocks[p as usize] as u64
        } else if width == 2 {
            read_u16(self.blocks, p as usize) as u64
        } else if width == 4 {
            read_u32(self.blocks, p as usize) as u64
        } else {
            return 0;
        };
        let base: u64 = read_u32(self.blocks, start as usize) as u64;
        ((base + above) % 0x1_0000_0000) as u32
    }
}

proof fn lemma_entries_len(block: Seq<u32>, base: u32, width: u8)
    requires
        width == 1 || width == 2 || width == 4,
    ensures
        entries(block, base, width).len() == width * block.len(),
    decreases block.len(),
{
    broadcast use bytes::group_le_len;

    if block.len() > 0 {
        lemma_entries_len(block.drop_last(), base, width);
        assert(width * (block.len() - 1) + width == width * block.len()) by (nonlinear_arith);
    } else {
        assert(width * 0 == 0) by (nonlinear_arith);
    }
}

proof fn lemma_entries_at(block: Seq<u32>, base: u32, width: u8, j: int)
    requires
        width == 1 || width == 2 || width == 4,
        0 <= j < block.len(),
    ensures
        0 <= width * j,
        width * j + width <= entries(block, base, width).len(),
        entries(block, base, width).subrange(width * j, width * j + width) == entry(
            (block[j] - base) as u32,
            width,
        ),
    decreases block.len(),
{
    broadcast use bytes::group_le_len;

    lemma_entries_len(block, base, width);
    lemma_entries_len(block.drop_last(), base, width);
    let n = block.len() as int;
    let e = entries(block, base, width);
    assert(0 <= width * j) by (nonlinear_arith)
        requires
            0 <= j,
    ;
    assert(width * j + width <= width * n) by (nonlinear_arith)
        requires
            j < n,
    ;
    assert(width * (n - 1) + width == width * n) by (nonlinear_arith);
    if j == n - 1 {
        assert(e.subrange(width * j, width * j + width) =~= entry(
            (block.last() - base) as u32,
            width,
        ));
    } else {
        lemma_entries_at(block.drop_last(), base, width, j);
        assert(e.subrange(width * j, width * j + width) =~= entries(
            block.drop_last(),
            base,
            width,
        ).subrange(width * j, width * j + width));
    }
}

proof fn lemma_block_at(offsets: Seq<u32>, b: int, j: int)
    requires
        ascending(offsets),
        0 <= b < block_count(offsets.len() as int),
        0 <= j < 64,
        64 * b + j < offsets.len(),
    ensures
        block_of(offsets, b).len() > j,
        block_of(offsets, b)[j] == offsets[64 * b + j],
        block_of(offsets, b)[0] <= offsets[64 * b + j] <= block_of(offsets, b).last(),
{
    let block = block_of(offsets, b);
    assert(block[0] == offsets[64 * b]);
    assert(block.last() == offsets[64 * b + block.len() - 1]);
}

proof fn lemma_in_block(blocks: Seq<u8>, start: int, block: Seq<u32>, j: int)
    requires
        0 <= start,
        start + block_bytes(block).len() <= blocks.len(),
        blocks.subrange(start, start + block_bytes(block).len()) == block_bytes(block),
        0 <= j < block.len(),
        block[0] <= block[j] <= block.last(),
    ensures
        ({
            let width = width_for(block.last() - block[0]);
            let p = start + 5 + width * j;
            let v = (block[j] - block[0]) as u32;
            &&& bytes::get32(blocks, start) == block[0]
            &&& start + 5 <= blocks.len()
            &&& blocks[start + 4] == width
            &&& 0 <= p
            &&& p + width <= blocks.len()
            &&& width == 1 ==> blocks[p] == v
            &&& width == 2 ==> bytes::get16(blocks, p) == v
            &&& width == 4 ==> bytes::get32(blocks, p) == v
        }),
{
    broadcast use bytes::group_le_len;

    let base = block[0];
    let width = width_for(block.last() - base);
    let bb = block_bytes(block);
    let e = entries(block, base, width);
    lemma_entries_len(block, base, width);
    lemma_entries_at(block, base, width, j);
    assert(blocks.subrange(start, start + 4) =~= bb.subrange(0, 4));
    assert(bb.subrange(0, 4) =~= bytes::le32(base));
    bytes::lemma_get32(blocks, start, base);
    assert(blocks[start + 4] == blocks.subrange(start, start + bb.len())[4]);
    assert(bb[4] == width);
    let p = start + 5 + width * j;
    assert(bb.subrange(5, bb.len() as int) =~= e);
    assert(blocks.subrange(p, p + width) =~= e.subrange(width * j, width * j + width));
    let v = (block[j] - base) as u32;
    if width == 1 {
        assert(blocks[p] == blocks.subrange(p, p + width)[0]);
    } else if width == 2 {
        bytes::lemma_get16(blocks, p, v as u16);
    } else {
        bytes::lemma_get32(blocks, p, v);
    }
}

proof fn lemma_offset_in(offsets: Seq<u32>, dir: Seq<u8>, blocks: Seq<u8>, i: int)
    requires
        ascending(offsets),
        bytes::flat(all_blocks(offsets)).len() <= u32::MAX,
        dir == bytes::le32s(directory(all_blocks(offsets))),
        blocks == bytes::flat(all_blocks(offsets)),
        0 <= i < offsets.len(),
    ensures
        offset_in(dir, blocks, i) == offsets[i],
{
    let all = all_blocks(offsets);
    let count = block_count(offsets.len() as int);
    let b = i / 64;
    let j = i % 64;
    let block = block_of(offsets, b);
    lemma_block_at(offsets, b, j);
    bytes::lemma_flat_at(all, b);
    bytes::lemma_le32s_len(directory(all));
    assert(dir.subrange(0, 4 * count) =~= bytes::le32s(directory(all)));
    bytes::lemma_table32(dir, 0, directory(all), b);
    let start = bytes::start_of(all, b);
    assert(all[b] == block_bytes(block));
    lemma_in_block(blocks, start, block, j);
}

/// Law: a written table parses, with the number of offsets written and none of
/// the bytes after it, and every offset reads back.
pub proof fn written_table_reads_back(offsets: Seq<u32>, after: Seq<u8>)
    requires
        offsets.len() <= u32::MAX,
        ascending(offsets),
        bytes::flat(all_blocks(offsets)).len() <= u32::MAX,
    ensures
        ({
            let f = table_bytes(offsets) + after;
            let dir = f.subrange(12, 12 + 4 * bytes::get32(f, 4));
            let blocks = f.subrange(12 + 4 * bytes::get32(f, 4), table_len(f));
            &&& parses(f)
            &&& bytes::get32(f, 0) == offsets.len()
            &&& bytes::get32(f, 4) == block_count(offsets.len() as int)
            &&& table_len(f) == table_bytes(offsets).len()
            &&& forall|i: int|
                0 <= i < offsets.len() ==> #[trigger] offset_in(dir, blocks, i) == offsets[i]
        }),
{
    broadcast use {bytes::group_le_len, bytes::lemma_le32s_len};

    let f = table_bytes(offsets) + after;
    let all = all_blocks(offsets);
    let n = offsets.len() as int;
    let count = block_count(n);
    let size = bytes::flat(all).len() as int;
    assert(f.subrange(0, 4) =~= bytes::le32(n as u32));
    bytes::lemma_get32(f, 0, n as u32);
    assert(f.subrange(4, 8) =~= bytes::le32(count as u32));
    bytes::lemma_get32(f, 4, count as u32);
    assert(f.subrange(8, 12) =~= bytes::le32(size as u32));
    bytes::lemma_get32(f, 8, size as u32);
    let dir = f.subrange(12, 12 + 4 * count);
    let blocks = f.subrange(12 + 4 * count, 12 + 4 * count + size);
    assert(dir =~= bytes::le32s(directory(all)));
    assert(blocks =~= bytes::flat(all));
    assert forall|i: int| 0 <= i < n implies #[trigger] offset_in(dir, blocks, i)
        == offsets[i] by {
        lemma_offset_in(offsets, dir, blocks, i);
    }
}

proof fn lemma_entries_size(block: Seq<u32>, base: u32, width: u8)
    requires
        width == 1 || width == 2 || width == 4,
    ensures
        entries(block, base, width).len() == width * block.len(),
    decreases block.len(),
{
    broadcast use bytes::group_le_len;

    if block.len() > 0 {
        lemma_entries_size(block.drop_last(), base, width);
        let k = block.len() as int;
        assert(width * k == width * (k - 1) + width) by (nonlinear_arith);
    }
}

proof fn lemma_size_to(offsets: Seq<u32>, b: int)
    requires
        0 <= b <= block_count(offsets.len() as int),
    ensures
        ({
            let held = if 64 * b < offsets.len() {
                64 * b
            } else {
                offsets.len() as int
            };
            5 * b + held <= bytes::start_of(all_blocks(offsets), b) <= 5 * b + 4 * held
        }),
    decreases b,
{
    broadcast use bytes::group_le_len;

    let all = all_blocks(offsets);
    bytes::lemma_start_ends(all);
    if b > 0 {
        lemma_size_to(offsets, b - 1);
        bytes::lemma_start_step(all, b - 1);
        let block = block_of(offsets, b - 1);
        let width = width_for(block.last() - block[0]);
        lemma_entries_size(block, block[0], width);
        let k = block.len() as int;
        assert(k <= width * k <= 4 * k) by (nonlinear_arith)
            requires
                1 <= width <= 4,
                k >= 0,
        ;
    }
}

/// A table takes one to four bytes per offset, and five per block.
pub proof fn lemma_blocks_size(offsets: Seq<u32>)
    ensures
        offsets.len() <= bytes::flat(all_blocks(offsets)).len() <= 5 * block_count(
            offsets.len() as int,
        ) + 4 * offsets.len(),
{
    bytes::lemma_start_ends(all_blocks(offsets));
    lemma_size_to(offsets, block_count(offsets.len() as int));
}

} // verus!
