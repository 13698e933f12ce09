//! Variable-length entries behind a table of 32-bit offsets.
//!
//! Several files hold, for each ordinal, a run of bytes of its own. They
//! share one shape: `n + 1` offsets, each 32 bits and relative to the first
//! byte after the table, then the runs one after the other. Run `i` stands
//! between offsets `i` and `i + 1`; a reader clips it to the bytes that are
//! there.

use vstd::prelude::*;

use crate::bytes;
use crate::bytes::{part, push_flat, push_starts32, push_u32s, read_u32};

verus! {

/// The offsets of the runs and the runs.
pub open spec fn runs_bytes(runs: Seq<Seq<u8>>) -> Seq<u8> {
    bytes::le32s(bytes::starts32(runs)) + bytes::flat(runs)
}

/// Whether a table for `n` runs fits in `s` from `at` on.
pub open spec fn table_fits(s: Seq<u8>, at: int, n: int) -> bool {
    at + 4 * (n + 1) <= s.len()
}

/// Offset `i` of the table at `at`.
pub open spec fn offset_at(s: Seq<u8>, at: int, i: int) -> int {
    bytes::get32(s, at + 4 * i) as int
}

/// The bytes after a table for `n` runs.
pub open spec fn after_table(s: Seq<u8>, at: int, n: int) -> Seq<u8> {
    s.subrange(at + 4 * (n + 1), s.len() as int)
}

/// Run `i` of `n`, as far as its bytes are there.
pub open spec fn run_in(s: Seq<u8>, at: int, n: int, i: int) -> Seq<u8> {
    let start = offset_at(s, at, i);
    let end = offset_at(s, at, i + 1);
    let rest = after_table(s, at, n);
    if start >= end || start >= rest.len() {
        Seq::empty()
    } else {
        rest.subrange(
            start,
            if end <= rest.len() {
                end
            } else {
                rest.len() as int
            },
        )
    }
}

/// The 32-bit values of a run; bytes past the last whole value are left out.
pub open spec fn u32s_in(s: Seq<u8>) -> Seq<u32> {
    Seq::new(s.len() / 4, |i: int| bytes::get32(s, 4 * i))
}

/// Law: where the runs were written after `head`, the table gives back each
/// of them, and its offsets ascend.
pub proof fn written_runs_read_back(head: Seq<u8>, runs: Seq<Seq<u8>>, i: int)
    requires
        bytes::flat(runs).len() <= u32::MAX,
        0 <= i < runs.len(),
    ensures
        table_fits(head + runs_bytes(runs), head.len() as int, runs.len() as int),
        run_in(head + runs_bytes(runs), head.len() as int, runs.len() as int, i) == runs[i],
        offset_at(head + runs_bytes(runs), head.len() as int, i) == bytes::start_of(runs, i),
        offset_at(head + runs_bytes(runs), head.len() as int, i + 1) == bytes::start_of(runs, i + 1),
        bytes::start_of(runs, i + 1) == bytes::start_of(runs, i) + runs[i].len(),
        after_table(head + runs_bytes(runs), head.len() as int, runs.len() as int) == bytes::flat(runs),
{
    let file = head + runs_bytes(runs);
    let at = head.len() as int;
    let t = bytes::starts32(runs);
    bytes::lemma_le32s_len(t);
    bytes::lemma_flat_at(runs, i);
    assert(file.subrange(at, at + 4 * t.len()) =~= bytes::le32s(t));
    bytes::lemma_table32(file, at, t, i);
    bytes::lemma_table32(file, at, t, i + 1);
    assert(after_table(file, at, runs.len() as int) =~= bytes::flat(runs));
    assert(run_in(file, at, runs.len() as int, i) =~= runs[i]);
}

/// A table of 32-bit values read as such gives the values.
pub proof fn lemma_u32s_in(values: Seq<u32>)
    ensures
        u32s_in(bytes::le32s(values)) == values,
{
    bytes::lemma_le32s_len(values);
    assert forall|i: int| 0 <= i < values.len() implies u32s_in(bytes::le32s(values))[i] == values[i] by {
        assert(bytes::le32s(values).subrange(0, 4 * values.len() as int) =~= bytes::le32s(values));
        bytes::lemma_table32(bytes::le32s(values), 0, values, i);
    }
    assert(u32s_in(bytes::le32s(values)) =~= values);
}

/// Whether a table for `n` runs fits in `data` from `at` on.
pub fn has_table(data: &[u8], at: usize, n: u32) -> (r: bool)
    requires
        at <= data@.len(),
    ensures
        r == table_fits(data@, at as int, n as int),
{
    let len: usize = data.len();
    ((len - at) / 4) as u64 >= n as u64 + 1
}

/// Offset `i` of the table at `at`.
pub fn read_offset(data: &[u8], at: usize, n: u32, i: u32) -> (r: u32)
    requires
        table_fits(data@, at as int, n as int),
        i <= n,
    ensures
        r == offset_at(data@, at as int, i as int),
{
    let len: usize = data.len();
    assert(at + 4 * (i + 1) <= len);
    read_u32(data, at + 4 * (i as usize))
}

/// Run `i` of `n`, as far as its bytes are there.
pub fn read_run<'a>(data: &'a [u8], at: usize, n: u32, i: u32) -> (r: &'a [u8])
    requires
        table_fits(data@, at as int, n as int),
        i < n,
    ensures
        r@ == run_in(data@, at as int, n as int, i as int),
{
    let len: usize = data.len();
    assert(at + 4 * (n + 1) <= len);
    let start: u32 = read_offset(data, at, n, i);
    let end: u32 = read_offset(data, at, n, i + 1);
    let base: usize = at + 4 * (n as usize + 1);
    let left: usize = len - base;
    if start >= end || start as u64 >= left as u64 {
        let r = part(data, base, base);
        assert(r@ =~= Seq::<u8>::empty());
        return r;
    }
    let stop: usize = if end as u64 <= left as u64 {
        end as usize
    } else {
        left
    };
    let r = part(data, base + start as usize, base + stop);
    assert(r@ =~= after_table(data@, at as int, n as int).subrange(start as int, stop as int));
    r
}

/// The 32-bit values of a run.
pub fn read_u32s(run: &[u8]) -> (out: Vec<u32>)
    ensures
        out@ == u32s_in(run@),
{
    let len: usize = run.len();
    let n: usize = len / 4;
    let mut out: Vec<u32> = Vec::new();
    let mut i: usize = 0;
    while i < n
        invariant
            len == run@.len(),
            n == len / 4,
            i <= n,
            out@ == u32s_in(run@).take(i as int),
        decreases n - i,
    {
        assert(4 * i + 4 <= len);
        out.push(read_u32(run, 4 * i));
        i += 1;
        assert(out@ =~= u32s_in(run@).take(i as int));
    }
    assert(u32s_in(run@).take(i as int) =~= u32s_in(run@));
    out
}

/// Appends the offsets of the runs and the runs.
pub fn push_runs(out: &mut Vec<u8>, runs: &Vec<Vec<u8>>)
    requires
        bytes::flat(bytes::deep(runs@)).len() <= u32::MAX,
    ensures
        final(out)@ == old(out)@ + runs_bytes(bytes::deep(runs@)),
{
    push_starts32(out, runs);
    push_flat(out, runs);
    assert(out@ =~= old(out)@ + runs_bytes(bytes::deep(runs@)));
}

/// The bytes of each list of 32-bit values.
pub open spec fn value_runs(lists: Seq<Seq<u32>>) -> Seq<Seq<u8>> {
    Seq::new(lists.len(), |i: int| bytes::le32s(lists[i]))
}

/// The contents of the vectors.
pub open spec fn lists_of(v: Seq<Vec<u32>>) -> Seq<Seq<u32>> {
    Seq::new(v.len(), |i: int| v[i]@)
}

/// The bytes of each list of 32-bit values.
pub fn encode_lists(lists: &Vec<Vec<u32>>) -> (runs: Vec<Vec<u8>>)
    ensures
        bytes::deep(runs@) == value_runs(lists_of(lists@)),
{
    let mut runs: Vec<Vec<u8>> = Vec::new();
    let mut i: usize = 0;
    while i < lists.len()
        invariant
            i <= lists@.len(),
            runs@.len() == i,
            forall|k: int| 0 <= k < i ==> (#[trigger] runs@[k])@ == bytes::le32s(lists@[k]@),
        decreases lists@.len() - i,
    {
        let mut run: Vec<u8> = Vec::new();
        push_u32s(&mut run, &lists[i]);
        assert(run@ =~= bytes::le32s(lists@[i as int]@));
        runs.push(run);
        i += 1;
    }
    assert(bytes::deep(runs@) =~= value_runs(lists_of(lists@)));
    runs
}

/// `n` empty lists.
pub fn empty_lists(n: usize) -> (lists: Vec<Vec<u32>>)
    ensures
        lists_of(lists@) == Seq::new(n as nat, |i: int| Seq::<u32>::empty()),
{
    let mut lists: Vec<Vec<u32>> = Vec::new();
    while lists.len() < n
        invariant
            lists@.len() <= n,
            forall|k: int| 0 <= k < lists@.len() ==> (#[trigger] lists@[k])@ == Seq::<u32>::empty(),
        decreases n - lists@.len(),
    {
        lists.push(Vec::new());
    }
    assert(lists_of(lists@) =~= Seq::new(n as nat, |i: int| Seq::<u32>::empty()));
    lists
}

/// Appends `value` to list `i`.
pub fn push_to(lists: &mut Vec<Vec<u32>>, i: usize, value: u32)
    requires
        i < old(lists)@.len(),
    ensures
        lists_of(final(lists)@) == lists_of(old(lists)@).update(
            i as int,
            lists_of(old(lists)@)[i as int].push(value),
        ),
{
    lists[i].push(value);
    assert(lists_of(lists@) =~= lists_of(old(lists)@).update(
        i as int,
        lists_of(old(lists)@)[i as int].push(value),
    ));
}

/// Whether the list holds the value.
pub fn holds_value(group: &Vec<u32>, x: u32) -> (r: bool)
    ensures
        r == group@.contains(x),
{
    let mut i: usize = 0;
    while i < group.len()
        invariant
            i <= group@.len(),
            forall|k: int| 0 <= k < i ==> group@[k] != x,
        decreases group@.len() - i,
    {
        if group[i] == x {
            return true;
        }
        i += 1;
    }
    false
}

/// The sequence with `x` behind it, up to `n` items.
pub open spec fn padded<T>(s: Seq<T>, n: int, x: T) -> Seq<T> {
    if n <= s.len() {
        s
    } else {
        s + Seq::new((n - s.len()) as nat, |i: int| x)
    }
}

/// The lists with empty ones behind them, up to `n`.
pub open spec fn grown(lists: Seq<Seq<u32>>, n: int) -> Seq<Seq<u32>> {
    padded(lists, n, Seq::empty())
}

/// Adds empty lists up to `n`.
pub fn grow_lists(lists: &mut Vec<Vec<u32>>, n: usize)
    ensures
        lists_of(final(lists)@) == grown(lists_of(old(lists)@), n as int),
{
    let ghost first = lists_of(lists@);
    assert(first =~= grown(first, first.len() as int));
    while lists.len() < n
        invariant
            lists_of(lists@) == grown(first, lists@.len() as int),
            first.len() <= lists@.len(),
            lists@.len() <= n || lists@.len() == first.len(),
        decreases n - lists@.len(),
    {
        let ghost before = lists_of(lists@);
        lists.push(Vec::new());
        assert(lists_of(lists@) =~= before.push(Seq::empty()));
        assert(lists_of(lists@) =~= grown(first, lists@.len() as int));
    }
}

/// Adds empty runs up to `n`.
pub fn grow_runs(runs: &mut Vec<Vec<u8>>, n: usize)
    ensures
        bytes::deep(final(runs)@) == padded(bytes::deep(old(runs)@), n as int, Seq::empty()),
{
    let ghost first = bytes::deep(runs@);
    assert(first =~= padded(first, first.len() as int, Seq::empty()));
    while runs.len() < n
        invariant
            bytes::deep(runs@) == padded(first, runs@.len() as int, Seq::empty()),
            first.len() <= runs@.len(),
            runs@.len() <= n || runs@.len() == first.len(),
        decreases n - runs@.len(),
    {
        let ghost before = bytes::deep(runs@);
        runs.push(Vec::new());
        assert(bytes::deep(runs@) =~= before.push(Seq::empty()));
        assert(bytes::deep(runs@) =~= padded(first, runs@.len() as int, Seq::empty()));
    }
}

/// Adds `x` at the end of the values up to `n` of them.
pub fn grow_values(values: &mut Vec<u32>, n: usize, x: u32)
    ensures
        final(values)@ == padded(old(values)@, n as int, x),
{
    let ghost first = values@;
    assert(first =~= padded(first, first.len() as int, x));
    while values.len() < n
        invariant
            values@ == padded(first, values@.len() as int, x),
            first.len() <= values@.len(),
            values@.len() <= n || values@.len() == first.len(),
        decreases n - values@.len(),
    {
        let ghost before = values@;
        values.push(x);
        assert(values@ =~= padded(first, values@.len() as int, x));
    }
}

} // verus!
