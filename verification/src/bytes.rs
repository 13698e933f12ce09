//! Little-endian integers, tables of them, and concatenated blobs.
//!
//! Every file format of this crate is made of these three pieces. The
//! specification functions say which bytes a value has (`le16`, `le32`,
//! `le64`) and which value stands at a position (`get16`, `get32`, `get64`);
//! the lemmas say that reading undoes writing wherever the bytes end up.

use vstd::prelude::*;

verus! {

/// The bytes of `v`, least significant first.
#[verifier::opaque]
pub open spec fn le16(v: u16) -> Seq<u8> {
    seq![(v % 256) as u8, (v / 256) as u8]
}

/// The bytes of `v`, least significant first.
#[verifier::opaque]
pub open spec fn le32(v: u32) -> Seq<u8> {
    seq![
        (v % 256) as u8,
        (v / 256 % 256) as u8,
        (v / 65536 % 256) as u8,
        (v / 16777216) as u8,
    ]
}

/// The three low bytes of `v`, least significant first.
#[verifier::opaque]
pub open spec fn le24(v: u32) -> Seq<u8> {
    seq![(v % 256) as u8, (v / 256 % 256) as u8, (v / 65536 % 256) as u8]
}

/// The bytes of `v`, least significant first.
#[verifier::opaque]
pub open spec fn le64(v: u64) -> Seq<u8> {
    le32((v % 4294967296) as u32) + le32((v / 4294967296) as u32)
}

/// The 16-bit value at `p`.
#[verifier::opaque]
pub open spec fn get16(s: Seq<u8>, p: int) -> u16 {
    (s[p] + 256 * s[p + 1]) as u16
}

/// The 24-bit value at `p`.
#[verifier::opaque]
pub open spec fn get24(s: Seq<u8>, p: int) -> u32 {
    (s[p] + 256 * s[p + 1] + 65536 * s[p + 2]) as u32
}

/// The 32-bit value at `p`.
#[verifier::opaque]
pub open spec fn get32(s: Seq<u8>, p: int) -> u32 {
    (s[p] + 256 * s[p + 1] + 65536 * s[p + 2] + 16777216 * s[p + 3]) as u32
}

/// The 64-bit value at `p`.
#[verifier::opaque]
pub open spec fn get64(s: Seq<u8>, p: int) -> u64 {
    (get32(s, p) + 4294967296 * get32(s, p + 4)) as u64
}

pub broadcast proof fn lemma_le16_len(v: u16)
    ensures
        #[trigger] le16(v).len() == 2,
{
    reveal(le16);
}

pub broadcast proof fn lemma_le24_len(v: u32)
    ensures
        #[trigger] le24(v).len() == 3,
{
    reveal(le24);
}

pub broadcast proof fn lemma_le32_len(v: u32)
    ensures
        #[trigger] le32(v).len() == 4,
{
    reveal(le32);
}

pub broadcast proof fn lemma_le64_len(v: u64)
    ensures
        #[trigger] le64(v).len() == 8,
{
    reveal(le64);
    reveal(le32);
}

pub broadcast group group_le_len {
    lemma_le16_len,
    lemma_le24_len,
    lemma_le32_len,
    lemma_le64_len,
}

/// Reading at a position gives the value whose bytes stand there.
pub proof fn lemma_get16(s: Seq<u8>, p: int, v: u16)
    requires
        0 <= p,
        p + 2 <= s.len(),
        s.subrange(p, p + 2) == le16(v),
    ensures
        get16(s, p) == v,
{
    reveal(le16);
    reveal(get16);
    assert(s[p] == s.subrange(p, p + 2)[0]);
    assert(s[p + 1] == s.subrange(p, p + 2)[1]);
}

/// Reading at a position gives the value whose bytes stand there.
pub proof fn lemma_get24(s: Seq<u8>, p: int, v: u32)
    requires
        0 <= p,
        p + 3 <= s.len(),
        v < 16777216,
        s.subrange(p, p + 3) == le24(v),
    ensures
        get24(s, p) == v,
{
    reveal(le24);
    reveal(get24);
    assert(s[p] == s.subrange(p, p + 3)[0]);
    assert(s[p + 1] == s.subrange(p, p + 3)[1]);
    assert(s[p + 2] == s.subrange(p, p + 3)[2]);
}

/// Reading at a position gives the value whose bytes stand there.
pub proof fn lemma_get32(s: Seq<u8>, p: int, v: u32)
    requires
        0 <= p,
        p + 4 <= s.len(),
        s.subrange(p, p + 4) == le32(v),
    ensures
        get32(s, p) == v,
{
    reveal(le32);
    reveal(get32);
    assert(s[p] == s.subrange(p, p + 4)[0]);
    assert(s[p + 1] == s.subrange(p, p + 4)[1]);
    assert(s[p + 2] == s.subrange(p, p + 4)[2]);
    assert(s[p + 3] == s.subrange(p, p + 4)[3]);
}

/// Reading at a position gives the value whose bytes stand there.
pub proof fn lemma_get64(s: Seq<u8>, p: int, v: u64)
    requires
        0 <= p,
        p + 8 <= s.len(),
        s.subrange(p, p + 8) == le64(v),
    ensures
        get64(s, p) == v,
{
    reveal(le64);
    reveal(get64);
    broadcast use group_le_len;
    let lo = (v % 4294967296) as u32;
    let hi = (v / 4294967296) as u32;
    assert(s.subrange(p, p + 4) =~= s.subrange(p, p + 8).subrange(0, 4));
    assert(s.subrange(p + 4, p + 8) =~= s.subrange(p, p + 8).subrange(4, 8));
    assert(le64(v).subrange(0, 4) =~= le32(lo));
    assert(le64(v).subrange(4, 8) =~= le32(hi));
    lemma_get32(s, p, lo);
    lemma_get32(s, p + 4, hi);
}

/// What `get32` reads depends only on the four bytes at its position.
pub proof fn lemma_get32_local(a: Seq<u8>, p: int, b: Seq<u8>, q: int)
    requires
        0 <= p,
        p + 4 <= a.len(),
        0 <= q,
        q + 4 <= b.len(),
        a.subrange(p, p + 4) == b.subrange(q, q + 4),
    ensures
        get32(a, p) == get32(b, q),
{
    reveal(get32);
    assert(a[p] == a.subrange(p, p + 4)[0]);
    assert(a[p + 1] == a.subrange(p, p + 4)[1]);
    assert(a[p + 2] == a.subrange(p, p + 4)[2]);
    assert(a[p + 3] == a.subrange(p, p + 4)[3]);
    assert(b[q] == b.subrange(q, q + 4)[0]);
    assert(b[q + 1] == b.subrange(q, q + 4)[1]);
    assert(b[q + 2] == b.subrange(q, q + 4)[2]);
    assert(b[q + 3] == b.subrange(q, q + 4)[3]);
}

/// A table of 32-bit values.
pub open spec fn le32s(s: Seq<u32>) -> Seq<u8>
    decreases s.len(),
{
    if s.len() == 0 {
        Seq::empty()
    } else {
        le32s(s.drop_last()) + le32(s.last())
    }
}

/// A table of 24-bit values.
pub open spec fn le24s(s: Seq<u32>) -> Seq<u8>
    decreases s.len(),
{
    if s.len() == 0 {
        Seq::empty()
    } else {
        le24s(s.drop_last()) + le24(s.last())
    }
}

/// A table of 64-bit values.
pub open spec fn le64s(s: Seq<u64>) -> Seq<u8>
    decreases s.len(),
{
    if s.len() == 0 {
        Seq::empty()
    } else {
        le64s(s.drop_last()) + le64(s.last())
    }
}

pub broadcast proof fn lemma_le32s_len(s: Seq<u32>)
    ensures
        #[trigger] le32s(s).len() == 4 * s.len(),
    decreases s.len(),
{
    broadcast use group_le_len;
    if s.len() > 0 {
        lemma_le32s_len(s.drop_last());
    }
}

pub broadcast proof fn lemma_le24s_len(s: Seq<u32>)
    ensures
        #[trigger] le24s(s).len() == 3 * s.len(),
    decreases s.len(),
{
    broadcast use group_le_len;
    if s.len() > 0 {
        lemma_le24s_len(s.drop_last());
    }
}

pub broadcast proof fn lemma_le64s_len(s: Seq<u64>)
    ensures
        #[trigger] le64s(s).len() == 8 * s.len(),
    decreases s.len(),
{
    broadcast use group_le_len;
    if s.len() > 0 {
        lemma_le64s_len(s.drop_last());
    }
}

/// The bytes of entry `i` of a table.
pub proof fn lemma_le32s_at(s: Seq<u32>, i: int)
    requires
        0 <= i < s.len(),
    ensures
        le32s(s).subrange(4 * i, 4 * i + 4) == le32(s[i]),
    decreases s.len(),
{
    broadcast use group_le_len;
    lemma_le32s_len(s);
    lemma_le32s_len(s.drop_last());
    if i == s.len() - 1 {
        assert(le32s(s).subrange(4 * i, 4 * i + 4) =~= le32(s.last()));
    } else {
        lemma_le32s_at(s.drop_last(), i);
        assert(le32s(s).subrange(4 * i, 4 * i + 4) =~= le32s(s.drop_last()).subrange(4 * i, 4 * i + 4));
        assert(s.drop_last()[i] == s[i]);
    }
}

/// The bytes of entry `i` of a table.
pub proof fn lemma_le24s_at(s: Seq<u32>, i: int)
    requires
        0 <= i < s.len(),
    ensures
        le24s(s).subrange(3 * i, 3 * i + 3) == le24(s[i]),
    decreases s.len(),
{
    broadcast use group_le_len;
    lemma_le24s_len(s);
    lemma_le24s_len(s.drop_last());
    if i == s.len() - 1 {
        assert(le24s(s).subrange(3 * i, 3 * i + 3) =~= le24(s.last()));
    } else {
        lemma_le24s_at(s.drop_last(), i);
        assert(le24s(s).subrange(3 * i, 3 * i + 3) =~= le24s(s.drop_last()).subrange(3 * i, 3 * i + 3));
        assert(s.drop_last()[i] == s[i]);
    }
}

/// The bytes of entry `i` of a table.
pub proof fn lemma_le64s_at(s: Seq<u64>, i: int)
    requires
        0 <= i < s.len(),
    ensures
        le64s(s).subrange(8 * i, 8 * i + 8) == le64(s[i]),
    decreases s.len(),
{
    broadcast use group_le_len;
    lemma_le64s_len(s);
    lemma_le64s_len(s.drop_last());
    if i == s.len() - 1 {
        assert(le64s(s).subrange(8 * i, 8 * i + 8) =~= le64(s.last()));
    } else {
        lemma_le64s_at(s.drop_last(), i);
        assert(le64s(s).subrange(8 * i, 8 * i + 8) =~= le64s(s.drop_last()).subrange(8 * i, 8 * i + 8));
        assert(s.drop_last()[i] == s[i]);
    }
}

/// Entry `i` of a 32-bit table that stands at `at` in `file` reads back.
pub proof fn lemma_table32(file: Seq<u8>, at: int, s: Seq<u32>, i: int)
    requires
        0 <= at,
        at + 4 * s.len() <= file.len(),
        file.subrange(at, at + 4 * s.len()) == le32s(s),
        0 <= i < s.len(),
    ensures
        get32(file, at + 4 * i) == s[i],
{
    lemma_le32s_at(s, i);
    lemma_le32s_len(s);
    assert(file.subrange(at + 4 * i, at + 4 * i + 4) =~= le32s(s).subrange(4 * i, 4 * i + 4));
    lemma_get32(file, at + 4 * i, s[i]);
}

/// Entry `i` of a 64-bit table that stands at `at` in `file` reads back.
pub proof fn lemma_table64(file: Seq<u8>, at: int, s: Seq<u64>, i: int)
    requires
        0 <= at,
        at + 8 * s.len() <= file.len(),
        file.subrange(at, at + 8 * s.len()) == le64s(s),
        0 <= i < s.len(),
    ensures
        get64(file, at + 8 * i) == s[i],
{
    lemma_le64s_at(s, i);
    lemma_le64s_len(s);
    assert(file.subrange(at + 8 * i, at + 8 * i + 8) =~= le64s(s).subrange(8 * i, 8 * i + 8));
    lemma_get64(file, at + 8 * i, s[i]);
}

/// The blobs one after the other.
pub open spec fn flat(blobs: Seq<Seq<u8>>) -> Seq<u8>
    decreases blobs.len(),
{
    if blobs.len() == 0 {
        Seq::empty()
    } else {
        flat(blobs.drop_last()) + blobs.last()
    }
}

/// Where blob `i` starts in `flat(blobs)`.
pub open spec fn start_of(blobs: Seq<Seq<u8>>, i: int) -> int {
    flat(blobs.take(i)).len() as int
}

pub proof fn lemma_start_step(blobs: Seq<Seq<u8>>, i: int)
    requires
        0 <= i < blobs.len(),
    ensures
        start_of(blobs, i + 1) == start_of(blobs, i) + blobs[i].len(),
{
    assert(blobs.take(i + 1).drop_last() =~= blobs.take(i));
    assert(blobs.take(i + 1).last() == blobs[i]);
}

pub proof fn lemma_start_ends(blobs: Seq<Seq<u8>>)
    ensures
        start_of(blobs, 0) == 0,
        start_of(blobs, blobs.len() as int) == flat(blobs).len(),
{
    assert(blobs.take(0) =~= Seq::<Seq<u8>>::empty());
    assert(blobs.take(blobs.len() as int) =~= blobs);
}

pub proof fn lemma_start_mono(blobs: Seq<Seq<u8>>, i: int, j: int)
    requires
        0 <= i <= j <= blobs.len(),
    ensures
        0 <= start_of(blobs, i) <= start_of(blobs, j) <= flat(blobs).len(),
    decreases blobs.len() - i,
{
    lemma_start_ends(blobs);
    if i < j {
        lemma_start_mono(blobs, i + 1, j);
        lemma_start_step(blobs, i);
    } else if j < blobs.len() {
        lemma_start_mono(blobs, j + 1, blobs.len() as int);
        lemma_start_step(blobs, j);
    }
}

/// Blob `i` stands between its start and the next one's.
pub proof fn lemma_flat_at(blobs: Seq<Seq<u8>>, i: int)
    requires
        0 <= i < blobs.len(),
    ensures
        0 <= start_of(blobs, i) <= start_of(blobs, i + 1) <= flat(blobs).len(),
        start_of(blobs, i + 1) == start_of(blobs, i) + blobs[i].len(),
        flat(blobs).subrange(start_of(blobs, i), start_of(blobs, i + 1)) == blobs[i],
    decreases blobs.len(),
{
    lemma_start_mono(blobs, i, i + 1);
    lemma_start_step(blobs, i);
    if i == blobs.len() - 1 {
        assert(blobs.take(i) =~= blobs.drop_last());
        assert(blobs.take(i + 1) =~= blobs);
        assert(flat(blobs).subrange(start_of(blobs, i), start_of(blobs, i + 1)) =~= blobs[i]);
    } else {
        let d = blobs.drop_last();
        lemma_flat_at(d, i);
        assert(d.take(i) =~= blobs.take(i));
        assert(d.take(i + 1) =~= blobs.take(i + 1));
        assert(flat(blobs).subrange(start_of(blobs, i), start_of(blobs, i + 1)) =~= flat(d).subrange(
            start_of(d, i),
            start_of(d, i + 1),
        ));
    }
}

/// Blobs in two runs stand in the order of the runs.
pub proof fn lemma_flat_add(a: Seq<Seq<u8>>, b: Seq<Seq<u8>>)
    ensures
        flat(a + b) == flat(a) + flat(b),
    decreases b.len(),
{
    if b.len() == 0 {
        assert(a + b =~= a);
        assert(flat(a) + flat(b) =~= flat(a));
    } else {
        lemma_flat_add(a, b.drop_last());
        assert((a + b).drop_last() =~= a + b.drop_last());
        assert((a + b).last() == b.last());
        assert(flat(a + b) =~= flat(a) + flat(b));
    }
}

/// The starts of all blobs and the end of the last one.
pub open spec fn starts32(blobs: Seq<Seq<u8>>) -> Seq<u32> {
    Seq::new(blobs.len() + 1, |i: int| start_of(blobs, i) as u32)
}

/// The starts of all blobs and the end of the last one, each moved by `base`.
pub open spec fn starts64(blobs: Seq<Seq<u8>>, base: int) -> Seq<u64> {
    Seq::new(blobs.len() + 1, |i: int| (base + start_of(blobs, i)) as u64)
}

/// The contents of the vectors.
pub open spec fn deep(v: Seq<Vec<u8>>) -> Seq<Seq<u8>> {
    Seq::new(v.len(), |i: int| v[i]@)
}

/// Appends the bytes of `v`.
pub fn push_u16(out: &mut Vec<u8>, v: u16)
    ensures
        final(out)@ == old(out)@ + le16(v),
{
    proof {
        reveal(le16);
    }
    out.push((v % 256) as u8);
    out.push((v / 256) as u8);
    assert(out@ =~= old(out)@ + le16(v));
}

/// Appends the bytes of `v`.
pub fn push_u32(out: &mut Vec<u8>, v: u32)
    ensures
        final(out)@ == old(out)@ + le32(v),
{
    proof {
        reveal(le32);
    }
    out.push((v % 256) as u8);
    out.push((v / 256 % 256) as u8);
    out.push((v / 65536 % 256) as u8);
    out.push((v / 16777216) as u8);
    assert(out@ =~= old(out)@ + le32(v));
}

/// Appends the three low bytes of `v`.
pub fn push_u24(out: &mut Vec<u8>, v: u32)
    ensures
        final(out)@ == old(out)@ + le24(v),
{
    proof {
        reveal(le24);
    }
    out.push((v % 256) as u8);
    out.push((v / 256 % 256) as u8);
    out.push((v / 65536 % 256) as u8);
    assert(out@ =~= old(out)@ + le24(v));
}

/// Appends the bytes of `v`.
pub fn push_u64(out: &mut Vec<u8>, v: u64)
    ensures
        final(out)@ == old(out)@ + le64(v),
{
    proof {
        reveal(le64);
    }
    push_u32(out, (v % 4294967296) as u32);
    push_u32(out, (v / 4294967296) as u32);
    assert(out@ =~= old(out)@ + le64(v));
}

/// Whether the data starts with the four bytes of `magic`.
pub open spec fn tagged(s: Seq<u8>, magic: u32) -> bool {
    s.len() >= 4 && get32(s, 0) == magic
}

/// Whether the data starts with the four bytes of `magic`.
pub fn has_tag(data: &[u8], magic: u32) -> (r: bool)
    ensures
        r == tagged(data@, magic),
{
    data.len() >= 4 && read_u32(data, 0) == magic
}

/// Appends a run of bytes.
pub fn push_bytes(out: &mut Vec<u8>, bytes: &[u8])
    ensures
        final(out)@ == old(out)@ + bytes@,
{
    let mut i: usize = 0;
    while i < bytes.len()
        invariant
            i <= bytes@.len(),
            out@ == old(out)@ + bytes@.take(i as int),
        decreases bytes@.len() - i,
    {
        out.push(bytes[i]);
        i += 1;
        assert(out@ =~= old(out)@ + bytes@.take(i as int));
    }
    assert(bytes@.take(i as int) =~= bytes@);
}

/// The 16-bit value at `pos`.
pub fn read_u16(data: &[u8], pos: usize) -> (v: u16)
    requires
        pos + 2 <= data@.len(),
    ensures
        v == get16(data@, pos as int),
{
    proof {
        reveal(get16);
    }
    data[pos] as u16 + 256 * (data[pos + 1] as u16)
}

/// The 24-bit value at `pos`.
pub fn read_u24(data: &[u8], pos: usize) -> (v: u32)
    requires
        pos + 3 <= data@.len(),
    ensures
        v == get24(data@, pos as int),
        v < 16777216,
{
    proof {
        reveal(get24);
    }
    data[pos] as u32 + 256 * (data[pos + 1] as u32) + 65536 * (data[pos + 2] as u32)
}

/// The 32-bit value at `pos`.
pub fn read_u32(data: &[u8], pos: usize) -> (v: u32)
    requires
        pos + 4 <= data@.len(),
    ensures
        v == get32(data@, pos as int),
{
    proof {
        reveal(get32);
    }
    data[pos] as u32 + 256 * (data[pos + 1] as u32) + 65536 * (data[pos + 2] as u32) + 16777216 * (
    data[pos + 3] as u32)
}

/// The 64-bit value at `pos`.
pub fn read_u64(data: &[u8], pos: usize) -> (v: u64)
    requires
        pos + 8 <= data@.len(),
    ensures
        v == get64(data@, pos as int),
{
    proof {
        reveal(get64);
    }
    let len: usize = data.len();
    assert(pos + 8 <= len);
    let lo: u32 = read_u32(data, pos);
    let hi: u32 = read_u32(data, pos + 4);
    lo as u64 + 4294967296 * (hi as u64)
}

/// Whether two runs of bytes are the same.
pub fn same_bytes(a: &[u8], b: &[u8]) -> (r: bool)
    ensures
        r == (a@ == b@),
{
    if a.len() != b.len() {
        return false;
    }
    let mut i: usize = 0;
    while i < a.len()
        invariant
            i <= a@.len(),
            a@.len() == b@.len(),
            forall|k: int| 0 <= k < i ==> a@[k] == b@[k],
        decreases a@.len() - i,
    {
        if a[i] != b[i] {
            assert(a@ != b@);
            return false;
        }
        i += 1;
    }
    assert(a@ =~= b@);
    true
}

/// The bytes from `from` to `to`.
pub fn part<'a>(data: &'a [u8], from: usize, to: usize) -> (r: &'a [u8])
    requires
        from <= to <= data@.len(),
    ensures
        r@ == data@.subrange(from as int, to as int),
{
    vstd::slice::slice_subrange(data, from, to)
}

/// Appends the table of starts of `blobs`, as 32-bit values.
pub fn push_starts32(out: &mut Vec<u8>, blobs: &Vec<Vec<u8>>)
    requires
        flat(deep(blobs@)).len() <= u32::MAX,
    ensures
        final(out)@ == old(out)@ + le32s(starts32(deep(blobs@))),
{
    let ghost d = deep(blobs@);
    let mut pos: u32 = 0;
    push_u32(out, 0);
    let mut i: usize = 0;
    proof {
        lemma_start_ends(d);
        assert(starts32(d).take(1).drop_last() =~= Seq::<u32>::empty());
        assert(starts32(d).take(1).last() == 0u32);
        assert(le32s(starts32(d).take(1).drop_last()) =~= Seq::<u8>::empty());
        assert(out@ =~= old(out)@ + le32s(starts32(d).take(1)));
    }
    while i < blobs.len()
        invariant
            i <= blobs@.len(),
            d == deep(blobs@),
            flat(d).len() <= u32::MAX,
            pos == start_of(d, i as int),
            out@ == old(out)@ + le32s(starts32(d).take(i + 1)),
        decreases blobs@.len() - i,
    {
        proof {
            lemma_flat_at(d, i as int);
        }
        pos = pos + blobs[i].len() as u32;
        push_u32(out, pos);
        i += 1;
        proof {
            let t = starts32(d).take(i + 1);
            assert(t.drop_last() =~= starts32(d).take(i as int));
            assert(t.last() == pos);
            assert(out@ =~= old(out)@ + le32s(t));
        }
    }
    proof {
        assert(starts32(d).take(i + 1) =~= starts32(d));
    }
}

/// Appends the table of starts of `blobs`, each moved by `base`, as 64-bit
/// values.
pub fn push_starts64(out: &mut Vec<u8>, base: u64, blobs: &Vec<Vec<u8>>)
    requires
        base + flat(deep(blobs@)).len() <= u64::MAX,
    ensures
        final(out)@ == old(out)@ + le64s(starts64(deep(blobs@), base as int)),
{
    let ghost d = deep(blobs@);
    let mut pos: u64 = base;
    push_u64(out, base);
    let mut i: usize = 0;
    proof {
        let t = starts64(d, base as int).take(1);
        lemma_start_ends(d);
        assert(t.drop_last() =~= Seq::<u64>::empty());
        assert(t.last() == base);
        assert(le64s(t.drop_last()) =~= Seq::<u8>::empty());
        assert(out@ =~= old(out)@ + le64s(t));
    }
    while i < blobs.len()
        invariant
            i <= blobs@.len(),
            d == deep(blobs@),
            base + flat(d).len() <= u64::MAX,
            pos == base + start_of(d, i as int),
            out@ == old(out)@ + le64s(starts64(d, base as int).take(i + 1)),
        decreases blobs@.len() - i,
    {
        proof {
            lemma_flat_at(d, i as int);
        }
        pos = pos + blobs[i].len() as u64;
        push_u64(out, pos);
        i += 1;
        proof {
            let t = starts64(d, base as int).take(i + 1);
            assert(t.drop_last() =~= starts64(d, base as int).take(i as int));
            assert(t.last() == pos);
            assert(out@ =~= old(out)@ + le64s(t));
        }
    }
    proof {
        assert(starts64(d, base as int).take(i + 1) =~= starts64(d, base as int));
    }
}

/// Appends the blobs one after the other.
pub fn push_flat(out: &mut Vec<u8>, blobs: &Vec<Vec<u8>>)
    ensures
        final(out)@ == old(out)@ + flat(deep(blobs@)),
{
    let ghost d = deep(blobs@);
    let mut i: usize = 0;
    assert(d.take(0) =~= Seq::<Seq<u8>>::empty());
    assert(out@ =~= old(out)@ + flat(d.take(0)));
    while i < blobs.len()
        invariant
            i <= blobs@.len(),
            d == deep(blobs@),
            out@ == old(out)@ + flat(d.take(i as int)),
        decreases blobs@.len() - i,
    {
        push_bytes(out, blobs[i].as_slice());
        i += 1;
        proof {
            assert(d.take(i as int).drop_last() =~= d.take(i - 1));
            assert(d.take(i as int).last() == blobs@[i - 1]@);
            assert(out@ =~= old(out)@ + flat(d.take(i as int)));
        }
    }
    assert(d.take(i as int) =~= d);
}

/// Appends a table of 32-bit values.
pub fn push_u32s(out: &mut Vec<u8>, values: &Vec<u32>)
    ensures
        final(out)@ == old(out)@ + le32s(values@),
{
    let mut i: usize = 0;
    assert(values@.take(0) =~= Seq::<u32>::empty());
    assert(out@ =~= old(out)@ + le32s(values@.take(0)));
    while i < values.len()
        invariant
            i <= values@.len(),
            out@ == old(out)@ + le32s(values@.take(i as int)),
        decreases values@.len() - i,
    {
        push_u32(out, values[i]);
        i += 1;
        proof {
            assert(values@.take(i as int).drop_last() =~= values@.take(i - 1));
            assert(out@ =~= old(out)@ + le32s(values@.take(i as int)));
        }
    }
    assert(values@.take(i as int) =~= values@);
}

} // verus!
