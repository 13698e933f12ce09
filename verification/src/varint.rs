//! LEB128 varints, shared by the sidecar encoders.
//!
//! The sidecars store quantities that are small once delta-encoded: a
//! document gap, a position step, a token length. A `u32` written through
//! the `u64` functions has the same bytes as a `u32`-only encoder would
//! give it.

use vstd::prelude::*;

verus! {

/// The bytes of `v`: seven bits each, least significant first, the high bit
/// set on all but the last.
pub open spec fn varint(v: u64) -> Seq<u8>
    decreases v,
{
    if v < 128 {
        seq![v as u8]
    } else {
        seq![(v % 128 + 128) as u8] + varint(v / 128)
    }
}

/// What is read at `p` from at most `n` bytes, and the position after the
/// bytes read. Nothing is read from a run that the data or the limit cuts
/// off. Bits past the sixty-fourth are dropped.
pub open spec fn varint_at(s: Seq<u8>, p: int, n: nat) -> (Option<u64>, int)
    decreases n,
{
    if n == 0 || p >= s.len() {
        (None, p)
    } else if s[p] < 128 {
        (Some(s[p] as u64), p + 1)
    } else {
        let rest = varint_at(s, p + 1, (n - 1) as nat);
        match rest.0 {
            Some(v) => (Some(((s[p] - 128 + 128 * v) % 0x1_0000_0000_0000_0000) as u64), rest.1),
            None => (None, rest.1),
        }
    }
}

/// The longest encoding of a 64-bit value.
pub const MAX_VARINT_LEN: u32 = 10;

spec fn cap(n: nat) -> int
    decreases n,
{
    if n == 0 {
        1
    } else {
        128 * cap((n - 1) as nat)
    }
}

proof fn lemma_len_bound(v: u64, n: nat)
    requires
        n >= 1,
        v < cap(n),
    ensures
        varint(v).len() <= n,
    decreases n,
{
    if n == 1 {
        assert(cap(0) == 1);
    } else if v >= 128 {
        lemma_len_bound(v / 128, (n - 1) as nat);
    }
}

/// An encoding has one to ten bytes, and at most five for a 32-bit value.
pub proof fn lemma_varint_len(v: u64)
    ensures
        1 <= varint(v).len() <= 10,
        v <= u32::MAX ==> varint(v).len() <= 5,
{
    reveal_with_fuel(cap, 11);
    lemma_len_bound(v, 10);
    if v <= u32::MAX {
        lemma_len_bound(v, 5);
    }
}

/// Reading a varint where one was written gives the value back and ends
/// where its bytes end.
pub proof fn lemma_varint_read(s: Seq<u8>, p: int, v: u64, n: nat)
    requires
        0 <= p,
        p + varint(v).len() <= s.len(),
        s.subrange(p, p + varint(v).len()) == varint(v),
        varint(v).len() <= n,
    ensures
        varint_at(s, p, n) == (Some(v), p + varint(v).len()),
    decreases n,
{
    let e = varint(v);
    assert(s[p] == s.subrange(p, p + e.len())[0]);
    if v >= 128 {
        let r = varint(v / 128);
        assert(e.len() == r.len() + 1);
        assert(s.subrange(p + 1, p + 1 + r.len()) =~= s.subrange(p, p + e.len()).subrange(
            1,
            e.len() as int,
        ));
        assert(e.subrange(1, e.len() as int) =~= r);
        lemma_varint_read(s, p + 1, v / 128, (n - 1) as nat);
    }
}

/// A read never moves back, and ends inside the data or where it began.
pub proof fn lemma_varint_end(s: Seq<u8>, p: int, n: nat)
    ensures
        p <= varint_at(s, p, n).1,
        varint_at(s, p, n).1 <= s.len() || varint_at(s, p, n).1 == p,
        varint_at(s, p, n).0 is Some ==> p < varint_at(s, p, n).1 <= s.len(),
    decreases n,
{
    if n != 0 && p < s.len() && s[p] >= 128 {
        lemma_varint_end(s, p + 1, (n - 1) as nat);
    }
}

/// Append `v` as a LEB128 varint.
pub fn write_varint(buf: &mut Vec<u8>, v: u64)
    ensures
        final(buf)@ == old(buf)@ + varint(v),
{
    let mut left: u64 = v;
    while left >= 128
        invariant
            buf@ + varint(left) == old(buf)@ + varint(v),
        decreases left,
    {
        let ghost before = buf@;
        buf.push((left % 128 + 128) as u8);
        proof {
            assert(before + varint(left) =~= buf@ + varint(left / 128));
        }
        left = left / 128;
    }
    buf.push(left as u8);
    assert(buf@ =~= old(buf)@ + varint(v));
}

fn read_at_most(data: &[u8], pos: &mut usize, n: u32) -> (r: Option<u64>)
    ensures
        (r, *final(pos) as int) == varint_at(data@, *old(pos) as int, n as nat),
    decreases n,
{
    if n == 0 || *pos >= data.len() {
        return None;
    }
    let b: u8 = data[*pos];
    *pos = *pos + 1;
    if b < 128 {
        return Some(b as u64);
    }
    match read_at_most(data, pos, n - 1) {
        Some(v) => {
            let wide: u128 = (b - 128) as u128 + 128 * (v as u128);
            Some((wide % 0x1_0000_0000_0000_0000) as u64)
        },
        None => None,
    }
}

/// Read a LEB128 varint at `*pos`, advancing it.
///
/// `None` on a truncated or over-long encoding: a corrupt or truncated file
/// must not loop and must not panic.
pub fn read_varint(data: &[u8], pos: &mut usize) -> (r: Option<u64>)
    ensures
        (r, *final(pos) as int) == varint_at(data@, *old(pos) as int, 10),
{
    read_at_most(data, pos, MAX_VARINT_LEN)
}

/// Read a varint that encodes a `u32`. A value that does not fit is a corrupt
/// file, not a wider integer: `None` rather than a silent truncation.
pub fn read_varint_u32(data: &[u8], pos: &mut usize) -> (r: Option<u32>)
    ensures
        r == u32_varint_at(data@, *old(pos) as int).0,
        *final(pos) as int == u32_varint_at(data@, *old(pos) as int).1,
{
    match read_varint(data, pos) {
        Some(v) => if v <= 0xFFFF_FFFF {
            Some(v as u32)
        } else {
            None
        },
        None => None,
    }
}

/// What `read_varint_u32` reads at `p`, and the position after it.
pub open spec fn u32_varint_at(s: Seq<u8>, p: int) -> (Option<u32>, int) {
    let r = varint_at(s, p, 10);
    match r.0 {
        Some(v) => if v <= u32::MAX {
            (Some(v as u32), r.1)
        } else {
            (None, r.1)
        },
        None => (None, r.1),
    }
}

/// Bytes `v` takes as a varint.
pub fn varint_len(v: u64) -> (n: usize)
    ensures
        n == varint(v).len(),
{
    proof {
        lemma_varint_len(v);
    }
    let mut n: usize = 1;
    let mut left: u64 = v / 128;
    while left > 0
        invariant
            n + (if left == 0 {
                0
            } else {
                varint(left).len() as int
            }) == varint(v).len(),
            varint(v).len() <= 10,
        decreases left,
    {
        proof {
            lemma_varint_len(left);
        }
        n += 1;
        left = left / 128;
    }
    n
}

/// Law: what `write_varint` appends, `read_varint` reads back, whatever
/// stands before and after it.
pub proof fn varint_round_trip(before: Seq<u8>, v: u64, after: Seq<u8>)
    ensures
        varint_at(before + varint(v) + after, before.len() as int, 10) == (
            Some(v),
            before.len() + varint(v).len() as int,
        ),
        v <= u32::MAX ==> u32_varint_at(before + varint(v) + after, before.len() as int) == (
            Some(v as u32),
            before.len() + varint(v).len() as int,
        ),
{
    let s = before + varint(v) + after;
    let p = before.len() as int;
    lemma_varint_len(v);
    assert(s.subrange(p, p + varint(v).len()) =~= varint(v));
    lemma_varint_read(s, p, v, 10);
}

} // verus!
