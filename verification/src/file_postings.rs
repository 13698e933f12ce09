//! The first postings file: the occurrences of each ordinal, number by number.
//!
//! ```text
//! num_terms: u32, offsets: u32 x (num_terms + 1), then the entries of each
//! ordinal: doc_id, token_index, byte_from and byte_to as variable-length
//! numbers
//! ```

use vstd::prelude::*;

use crate::bytes;
use crate::bytes::{part, read_u32};
use crate::file::SfxError;
use crate::offset_table;
use crate::postings::SfxPostingEntry;
use crate::varint;

use std::collections::HashSet;

verus! {

/// Whether another byte of a number follows.
pub open spec fn goes_on(b: u8) -> bool {
    b & 0x80 != 0
}

/// Where the number ends that starts at `p`: behind its first byte that none
/// follows, or where the bytes do.
pub open spec fn number_end(s: Seq<u8>, p: int) -> int
    decreases s.len() - p,
{
    if p >= s.len() {
        s.len() as int
    } else if goes_on(s[p]) {
        number_end(s, p + 1)
    } else {
        p + 1
    }
}

/// The number that the first `n` bytes from `p` on hold, the lowest seven bits
/// first; bits above the 32nd are lost.
pub open spec fn number_of(s: Seq<u8>, p: int, n: int) -> u32
    decreases n,
{
    if n <= 0 {
        0
    } else {
        number_of(s, p, n - 1) | (((s[p + n - 1] & 0x7f) as u32) << ((7 * (n - 1)) as u32))
    }
}

/// The number that starts at `p`.
pub open spec fn number_at(s: Seq<u8>, p: int) -> u32 {
    number_of(s, p, number_end(s, p) - p)
}

/// Whether the number that starts at `p` takes at most five bytes.
pub open spec fn is_short(s: Seq<u8>, p: int) -> bool {
    number_end(s, p) - p <= 5
}

proof fn lemma_number_end(s: Seq<u8>, p: int)
    requires
        0 <= p < s.len(),
    ensures
        p < number_end(s, p) <= s.len(),
    decreases s.len() - p,
{
    if goes_on(s[p]) {
        if p + 1 < s.len() {
            lemma_number_end(s, p + 1);
        } else {
            assert(number_end(s, p + 1) == s.len());
        }
    }
}

/// Reads the number at `p`; returns it and where it ends.
fn decode_vint(data: &[u8], p: usize) -> (r: (u32, usize))
    requires
        p < data@.len(),
        is_short(data@, p as int),
    ensures
        r.0 == number_at(data@, p as int),
        r.1 == number_end(data@, p as int),
        p < r.1 <= data@.len(),
{
    let ghost s = data@;
    let mut val: u32 = 0;
    let mut i: usize = p;
    proof {
        lemma_number_end(s, p as int);
    }
    while i < data.len()
        invariant
            p <= i <= data@.len(),
            s == data@,
            i - p <= 5,
            number_end(s, p as int) == number_end(s, i as int),
            number_end(s, p as int) - p <= 5,
            p < number_end(s, p as int) <= s.len(),
            val == number_of(s, p as int, i - p),
        decreases data@.len() - i,
    {
        let byte: u8 = data[i];
        proof {
            lemma_number_end(s, i as int);
        }
        let shift: u32 = 7 * ((i - p) as u32);
        val = val | (((byte & 0x7f) as u32) << shift);
        assert(val == number_of(s, p as int, i + 1 - p));
        i += 1;
        if byte & 0x80 == 0 {
            assert(number_end(s, i - 1) == i);
            return (val, i);
        }
    }
    (val, i)
}

/// The entries from `p` on; one that is cut short counts for none, except that
/// its last number may be.
pub open spec fn entries_from(s: Seq<u8>, p: int) -> Seq<SfxPostingEntry>
    decreases s.len() - p,
    when 0 <= p
    via entries_from_ends
{
    if p >= s.len() {
        Seq::empty()
    } else {
        let a = number_end(s, p);
        let b = number_end(s, a);
        let c = number_end(s, b);
        if a >= s.len() || b >= s.len() || c >= s.len() {
            Seq::empty()
        } else {
            seq![
                SfxPostingEntry {
                    doc_id: number_at(s, p),
                    token_index: number_at(s, a),
                    byte_from: number_at(s, b),
                    byte_to: number_at(s, c),
                },
            ] + entries_from(s, number_end(s, c))
        }
    }
}

#[via_fn]
proof fn entries_from_ends(s: Seq<u8>, p: int) {
    if p < s.len() {
        lemma_number_end(s, p);
        let a = number_end(s, p);
        if a < s.len() {
            lemma_number_end(s, a);
            let b = number_end(s, a);
            if b < s.len() {
                lemma_number_end(s, b);
                let c = number_end(s, b);
                if c < s.len() {
                    lemma_number_end(s, c);
                }
            }
        }
    }
}

/// Whether all numbers take at most five bytes: no run of six bytes that
/// another follows.
pub open spec fn all_short(s: Seq<u8>) -> bool {
    forall|p: int| 0 <= p < s.len() ==> #[trigger] is_short(s, p)
}

fn decode_posting_entries(data: &[u8]) -> (out: Vec<SfxPostingEntry>)
    requires
        all_short(data@),
    ensures
        out@ == entries_from(data@, 0),
{
    let ghost s = data@;
    let ghost whole = entries_from(s, 0);
    let mut out: Vec<SfxPostingEntry> = Vec::new();
    let mut pos: usize = 0;
    assert(whole =~= out@ + whole);
    while pos < data.len()
        invariant
            pos <= data@.len(),
            s == data@,
            all_short(s),
            whole == entries_from(s, 0),
            whole == out@ + entries_from(s, pos as int),
        decreases data@.len() - pos,
    {
        let ghost before = out@;
        let ghost start = pos as int;
        assert(is_short(s, pos as int));
        let (doc_id, a) = decode_vint(data, pos);
        if a >= data.len() {
            assert(out@ =~= whole);
            return out;
        }
        assert(is_short(s, a as int));
        let (token_index, b) = decode_vint(data, a);
        if b >= data.len() {
            assert(out@ =~= whole);
            return out;
        }
        assert(is_short(s, b as int));
        let (byte_from, c) = decode_vint(data, b);
        if c >= data.len() {
            assert(out@ =~= whole);
            return out;
        }
        assert(is_short(s, c as int));
        let (byte_to, d) = decode_vint(data, c);
        out.push(SfxPostingEntry { doc_id, token_index, byte_from, byte_to });
        pos = d;
        assert(whole =~= out@ + entries_from(s, pos as int));
    }
    assert(out@ =~= whole);
    out
}

/// Where the entries start.
pub open spec fn entries_start(s: Seq<u8>) -> int {
    4 + 4 * (bytes::get32(s, 0) + 1)
}

/// Whether the bytes hold a whole table of offsets.
pub open spec fn postings_open(s: Seq<u8>) -> bool {
    s.len() >= 4 && s.len() >= entries_start(s)
}

/// The bytes of the entries of an ordinal.
pub open spec fn run_of(s: Seq<u8>, ordinal: u32) -> Seq<u8> {
    let data = s.subrange(entries_start(s), s.len() as int);
    let from = bytes::get32(s, 4 + 4 * ordinal);
    let to = bytes::get32(s, 4 + 4 * (ordinal + 1));
    if ordinal >= bytes::get32(s, 0) || from >= to || from >= data.len() {
        Seq::empty()
    } else {
        data.subrange(
            from as int,
            if to <= data.len() {
                to as int
            } else {
                data.len() as int
            },
        )
    }
}

/// The entries of an ordinal.
pub open spec fn entries_of(s: Seq<u8>, ordinal: u32) -> Seq<SfxPostingEntry> {
    entries_from(run_of(s, ordinal), 0)
}

/// The documents of entries.
pub open spec fn docs_of(entries: Seq<SfxPostingEntry>) -> Set<u32> {
    Seq::new(entries.len(), |i: int| entries[i].doc_id).to_set()
}

/// Reads a postings file.
pub struct SfxPostingsReader<'a> {
    num_terms: u32,
    data: &'a [u8],
    entry_data: &'a [u8],
}

impl<'a> SfxPostingsReader<'a> {
    /// The bytes hold the table of offsets.
    pub closed spec fn wf(&self) -> bool {
        let s = self.data@;
        &&& postings_open(s)
        &&& self.num_terms == bytes::get32(s, 0)
        &&& self.entry_data@ == s.subrange(entries_start(s), s.len() as int)
    }

    /// The bytes of the file.
    pub closed spec fn bytes(&self) -> Seq<u8> {
        self.data@
    }

    /// Opens a postings file.
    pub fn open(data: &'a [u8]) -> (r: Result<Self, SfxError>)
        ensures
            r is Ok <==> postings_open(data@),
            r matches Ok(f) ==> f.wf() && f.bytes() == data@,
            r matches Err(e) ==> e is InvalidMagic,
    {
        if data.len() < 4 {
            return Err(SfxError::InvalidMagic);
        }
        let num_terms: u32 = read_u32(data, 0);
        let start: u64 = 4 + 4 * (num_terms as u64 + 1);
        if (data.len() as u64) < start {
            return Err(SfxError::InvalidMagic);
        }
        let entry_data = part(data, start as usize, data.len());
        Ok(SfxPostingsReader { num_terms, data, entry_data })
    }

    /// Number of ordinals.
    pub fn num_terms(&self) -> (r: u32)
        requires
            self.wf(),
        ensures
            r == bytes::get32(self.bytes(), 0),
    {
        self.num_terms
    }

    /// The entries of an ordinal.
    pub fn entries(&self, ordinal: u32) -> (out: Vec<SfxPostingEntry>)
        requires
            self.wf(),
            all_short(run_of(self.bytes(), ordinal)),
        ensures
            out@ == entries_of(self.bytes(), ordinal),
    {
        if ordinal >= self.num_terms {
            return Vec::new();
        }
        let len: usize = self.data.len();
        assert(4 + 4 * (ordinal + 2) <= len);
        let from: u32 = self.read_offset(ordinal);
        let to: u32 = self.read_offset(ordinal + 1);
        if from >= to || from as usize >= self.entry_data.len() {
            return Vec::new();
        }
        let end: usize = if to as usize <= self.entry_data.len() {
            to as usize
        } else {
            self.entry_data.len()
        };
        decode_posting_entries(part(self.entry_data, from as usize, end))
    }

    fn read_offset(&self, idx: u32) -> (r: u32)
        requires
            self.wf(),
            idx <= bytes::get32(self.bytes(), 0),
        ensures
            r == bytes::get32(self.bytes(), 4 + 4 * idx),
    {
        let len: usize = self.data.len();
        assert(4 + 4 * (idx + 1) <= len);
        read_u32(self.data, 4 + 4 * idx as usize)
    }

    /// In how many documents an ordinal occurs.
    pub fn doc_freq(&self, ordinal: u32) -> (count: u32)
        requires
            self.wf(),
            all_short(run_of(self.bytes(), ordinal)),
            entries_of(self.bytes(), ordinal).len() <= u32::MAX,
        ensures
            count == docs_of(entries_of(self.bytes(), ordinal)).len(),
    {
        broadcast use vstd::std_specs::hash::group_hash_axioms;

        let entries = self.entries(ordinal);
        let ghost e = entries@;
        let ghost all = Seq::new(e.len(), |i: int| e[i].doc_id);
        let mut docs: HashSet<u32> = HashSet::new();
        let mut i: usize = 0;
        assert(all.take(0).to_set() =~= Set::<u32>::empty());
        while i < entries.len()
            invariant
                i <= e.len(),
                e == entries@,
                e.len() <= u32::MAX,
                all == Seq::new(e.len(), |i: int| e[i].doc_id),
                docs@ == all.take(i as int).to_set(),
            decreases e.len() - i,
        {
            broadcast use vstd::std_specs::hash::group_hash_axioms;

            docs.insert(entries[i].doc_id);
            proof {
                let t = all.take(i as int);
                assert(all.take(i + 1) =~= t.push(all[i as int]));
                assert(t.push(all[i as int]).to_set() =~= t.to_set().insert(all[i as int])) by {
                    assert forall|d: u32| t.push(all[i as int]).to_set().contains(d)
                        <==> #[trigger] t.to_set().insert(all[i as int]).contains(d) by {
                        if t.contains(d) {
                            let k = choose|k: int| 0 <= k < t.len() && t[k] == d;
                            assert(t.push(all[i as int])[k] == d);
                        }
                        if d == all[i as int] {
                            assert(t.push(all[i as int])[t.len() as int] == d);
                        }
                    }
                }
            }
            i += 1;
        }
        proof {
            assert(all.take(e.len() as int) =~= all);
            vstd::seq_lib::seq_to_set_is_finite(all);
            all.lemma_cardinality_of_set();
        }
        docs.len() as u32
    }
}

/// The bytes of an entry: document, token, first byte and end, each as a
/// number.
pub open spec fn entry_bytes(e: SfxPostingEntry) -> Seq<u8> {
    varint::varint(e.doc_id as u64) + varint::varint(e.token_index as u64) + varint::varint(
        e.byte_from as u64,
    ) + varint::varint(e.byte_to as u64)
}

/// The bytes of entries, one behind the other.
pub open spec fn entries_bytes(entries: Seq<SfxPostingEntry>) -> Seq<u8>
    decreases entries.len(),
{
    if entries.len() == 0 {
        Seq::empty()
    } else {
        entry_bytes(entries[0]) + entries_bytes(entries.drop_first())
    }
}

/// The file of the entries of each ordinal.
pub open spec fn postings_bytes(lists: Seq<Seq<SfxPostingEntry>>) -> Seq<u8> {
    bytes::le32(lists.len() as u32) + offset_table::runs_bytes(entry_runs(lists))
}

/// The bytes of each ordinal's entries.
pub open spec fn entry_runs(lists: Seq<Seq<SfxPostingEntry>>) -> Seq<Seq<u8>> {
    Seq::new(lists.len(), |i: int| entries_bytes(lists[i]))
}

/// Byte `i` of a number holds its next seven bits, and is marked unless it is
/// the last.
proof fn lemma_digit(v: u32, i: int)
    requires
        0 <= i < varint::varint(v as u64).len(),
    ensures
        i < 5,
        varint::varint(v as u64).len() <= 5,
        (varint::varint(v as u64)[i] & 0x7f) as u32 == (v >> ((7 * i) as u32)) & 0x7f,
        goes_on(varint::varint(v as u64)[i]) <==> i + 1 < varint::varint(v as u64).len(),
        i + 1 == varint::varint(v as u64).len() ==> (v >> ((7 * i) as u32)) < 128,
    decreases i,
{
    let b = varint::varint(v as u64);
    varint::lemma_varint_len(v as u64);
    if i == 0 {
        assert(v >> 0u32 == v) by (bit_vector);
        if v < 128 {
            let x = v as u8;
            assert((x & 0x7f) as u32 == v & 0x7f && x & 0x80 == 0) by (bit_vector)
                requires
                    v < 128,
                    x == v as u8,
            ;
        } else {
            let x = (v % 128 + 128) as u8;
            assert((x & 0x7f) as u32 == v & 0x7f && x & 0x80 != 0) by (bit_vector)
                requires
                    x == (v % 128 + 128) as u8,
            ;
            varint::lemma_varint_len((v / 128) as u64);
            assert(b[0] == x);
        }
    } else {
        let w = (v / 128) as u32;
        assert(v >= 128);
        assert(varint::varint(w as u64)[i - 1] == b[i]);
        lemma_digit(w, i - 1);
        let k = (7 * (i - 1)) as u32;
        let l = (7 * i) as u32;
        assert(w >> k == v >> l) by (bit_vector)
            requires
                w == v / 128,
                l == k + 7,
                k <= 21,
        ;
    }
}

proof fn lemma_number_end_at(s: Seq<u8>, p: int, v: u32, i: int)
    requires
        0 <= p,
        0 <= i < varint::varint(v as u64).len(),
        p + varint::varint(v as u64).len() <= s.len(),
        s.subrange(p, p + varint::varint(v as u64).len()) == varint::varint(v as u64),
    ensures
        number_end(s, p + i) == p + varint::varint(v as u64).len(),
    decreases varint::varint(v as u64).len() - i,
{
    let b = varint::varint(v as u64);
    lemma_digit(v, i);
    assert(s[p + i] == s.subrange(p, p + b.len())[i]);
    if i + 1 < b.len() {
        lemma_number_end_at(s, p, v, i + 1);
    }
}

proof fn lemma_number_of(s: Seq<u8>, p: int, v: u32, n: int)
    requires
        0 <= p,
        0 <= n <= varint::varint(v as u64).len(),
        p + varint::varint(v as u64).len() <= s.len(),
        s.subrange(p, p + varint::varint(v as u64).len()) == varint::varint(v as u64),
    ensures
        n <= 5,
        number_of(s, p, n) as u64 == (v as u64) & sub1(1u64 << ((7 * n) as u64)),
    decreases n,
{
    let b = varint::varint(v as u64);
    varint::lemma_varint_len(v as u64);
    if n == 0 {
        assert((v as u64) & ((1u64 << 0u64) - 1) as u64 == 0) by (bit_vector);
    } else {
        lemma_number_of(s, p, v, n - 1);
        lemma_digit(v, n - 1);
        assert(s[p + n - 1] == s.subrange(p, p + b.len())[n - 1]);
        let x = number_of(s, p, n - 1);
        let d = (s[p + n - 1] & 0x7f) as u32;
        let k = (7 * (n - 1)) as u32;
        let l = (7 * n) as u64;
        let m = k as u64;
        assert((x | (d << k)) as u64 == (v as u64) & (((1u64 << l) - 1) as u64)) by (bit_vector)
            requires
                x as u64 == (v as u64) & (((1u64 << m) - 1) as u64),
                d == (v >> k) & 0x7f,
                m == k as u64,
                l == m + 7,
                k <= 28,
        ;
    }
}

spec fn sub1(x: u64) -> u64 {
    (x - 1) as u64
}

/// A number that was written reads back.
proof fn lemma_number(s: Seq<u8>, p: int, v: u32)
    requires
        0 <= p,
        p + varint::varint(v as u64).len() <= s.len(),
        s.subrange(p, p + varint::varint(v as u64).len()) == varint::varint(v as u64),
    ensures
        number_end(s, p) == p + varint::varint(v as u64).len(),
        number_at(s, p) == v,
        varint::varint(v as u64).len() > 0,
{
    let n = varint::varint(v as u64).len() as int;
    varint::lemma_varint_len(v as u64);
    lemma_number_end_at(s, p, v, 0);
    lemma_number_of(s, p, v, n);
    lemma_digit(v, n - 1);
    let k = (7 * (n - 1)) as u32;
    let l = (7 * n) as u64;
    assert((v as u64) & (((1u64 << l) - 1) as u64) == v as u64) by (bit_vector)
        requires
            v >> k < 128,
            k <= 28,
            l == k as u64 + 7,
    ;
}

proof fn lemma_entries_read(s: Seq<u8>, p: int, entries: Seq<SfxPostingEntry>)
    requires
        0 <= p <= s.len(),
        s.subrange(p, s.len() as int) == entries_bytes(entries),
    ensures
        entries_from(s, p) == entries,
    decreases entries.len(),
{
    if entries.len() == 0 {
        assert(s.subrange(p, s.len() as int).len() == 0);
        assert(entries_from(s, p) =~= entries);
    } else {
        let e = entries[0];
        let rest = entries_bytes(entries.drop_first());
        let x = varint::varint(e.doc_id as u64);
        let y = varint::varint(e.token_index as u64);
        let z = varint::varint(e.byte_from as u64);
        let w = varint::varint(e.byte_to as u64);
        let all = s.subrange(p, s.len() as int);
        assert(all =~= x + y + z + w + rest);
        let a = p + x.len();
        let b = a + y.len();
        let c = b + z.len();
        let d = c + w.len();
        varint::lemma_varint_len(e.doc_id as u64);
        varint::lemma_varint_len(e.token_index as u64);
        varint::lemma_varint_len(e.byte_from as u64);
        varint::lemma_varint_len(e.byte_to as u64);
        assert(all.len() == s.len() - p);
        assert(s.subrange(p, a) =~= x) by {
            assert forall|i: int| 0 <= i < x.len() implies s[p + i] == x[i] by {
                assert(all[i] == s[p + i]);
            }
        }
        assert(s.subrange(a, b) =~= y) by {
            assert forall|i: int| 0 <= i < y.len() implies s[a + i] == y[i] by {
                assert(all[x.len() + i] == s[a + i]);
            }
        }
        assert(s.subrange(b, c) =~= z) by {
            assert forall|i: int| 0 <= i < z.len() implies s[b + i] == z[i] by {
                assert(all[x.len() + y.len() + i] == s[b + i]);
            }
        }
        assert(s.subrange(c, d) =~= w) by {
            assert forall|i: int| 0 <= i < w.len() implies s[c + i] == w[i] by {
                assert(all[x.len() + y.len() + z.len() + i] == s[c + i]);
            }
        }
        assert(s.subrange(d, s.len() as int) =~= rest) by {
            assert forall|i: int| 0 <= i < rest.len() implies s[d + i] == rest[i] by {
                assert(all[x.len() + y.len() + z.len() + w.len() + i] == s[d + i]);
            }
        }
        lemma_number(s, p, e.doc_id);
        lemma_number(s, a, e.token_index);
        lemma_number(s, b, e.byte_from);
        lemma_number(s, c, e.byte_to);
        lemma_entries_read(s, d, entries.drop_first());
        assert(entries =~= seq![e] + entries.drop_first());
    }
}

/// Law: the occurrences of every ordinal that a postings file was written with
/// are read back, all of them, in their order, each with its document, its
/// place and its bytes; an ordinal past the file has none.
pub proof fn written_postings_read_back(lists: Seq<Seq<SfxPostingEntry>>, ordinal: u32)
    requires
        lists.len() <= u32::MAX,
        bytes::flat(entry_runs(lists)).len() <= u32::MAX,
    ensures
        postings_open(postings_bytes(lists)),
        bytes::get32(postings_bytes(lists), 0) == lists.len(),
        entries_of(postings_bytes(lists), ordinal) == if ordinal < lists.len() {
            lists[ordinal as int]
        } else {
            Seq::empty()
        },
{
    let runs = entry_runs(lists);
    let head = bytes::le32(lists.len() as u32);
    let file = postings_bytes(lists);
    bytes::lemma_le32_len(lists.len() as u32);
    assert(file.subrange(0, 4) =~= head);
    bytes::lemma_get32(file, 0, lists.len() as u32);
    bytes::lemma_le32s_len(bytes::starts32(runs));
    if ordinal < lists.len() {
        let o = ordinal as int;
        offset_table::written_runs_read_back(head, runs, o);
        bytes::lemma_flat_at(runs, o);
        let run = run_of(file, ordinal);
        let data = file.subrange(entries_start(file), file.len() as int);
        assert(data =~= bytes::flat(runs));
        let from = bytes::start_of(runs, o);
        assert(run =~= runs[o]);
        assert(run.subrange(0, run.len() as int) =~= entries_bytes(lists[o]));
        lemma_entries_read(run, 0, lists[o]);
    } else {
        assert(run_of(file, ordinal) =~= Seq::empty());
    }
}

} // verus!
