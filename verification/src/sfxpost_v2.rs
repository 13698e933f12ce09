//! `.sfxpost`: the postings of each ordinal, searchable by document.
//!
//! `SFP4` and `SFP5` are written; `SFP2` and `SFP3` are still read.
//!
//! ```text
//! [4 bytes] magic
//! [4 bytes] num_terms (u32 LE)
//! offset table: block-coded (SFP4, SFP5) or u32 LE x (num_terms + 1)
//! per ordinal, SFP3 to SFP5:
//!   [varint] num_docs
//!   [varint] headers_len
//!   [12 bytes x (num_docs - 1) / 8] checkpoints: document before, payload
//!            offset, header offset
//!   [headers_len] per document, varints: d_doc, payload_len, entry_count
//!   payloads, per document: (d_token_index, d_byte_from, byte_to - byte_from)
//! per ordinal, SFP2:
//!   [4 bytes] num_docs, then doc_ids (u32), payload offsets (u32), entry
//!   counts (u16), payloads (token_index, byte_from, byte_to)
//! ```
//!
//! An `SFP5` entry is `d_token_index` alone: it holds no byte span.

use std::collections::HashSet;

use vstd::prelude::*;

use crate::block_offsets;
use crate::block_offsets::BlockOffsets;
use crate::bytes;
use crate::bytes::{part, push_bytes, push_flat, push_u32, read_u16, read_u32};
use crate::gmap;
use crate::gmap::GmapReader;
use crate::order;
use crate::order::{Ordered, sort};
use crate::postings::{PositionEntry, SfxPostingEntry};
use crate::varint;
use crate::varint::{read_varint_u32, write_varint};

verus! {

/// The magic "SFP2", read as a little-endian integer.
pub const SFP2: u32 = 0x32504653;

/// The magic "SFP3", read as a little-endian integer.
pub const SFP3: u32 = 0x33504653;

/// The magic "SFP4", read as a little-endian integer.
pub const SFP4: u32 = 0x34504653;

/// The magic "SFP5", read as a little-endian integer.
pub const SFP5: u32 = 0x35504653;

/// Documents between two checkpoints.
pub const CHECKPOINT_EVERY: usize = 8;

/// The entries of an ordinal, one group per document: the entries of a
/// document that follow each other belong together.
pub open spec fn groups(e: Seq<(u32, u32, u32, u32)>) -> Seq<(u32, Seq<(u32, u32, u32)>)>
    decreases e.len(),
{
    if e.len() == 0 {
        Seq::empty()
    } else {
        let g = groups(e.drop_last());
        let x = e.last();
        if g.len() > 0 && g.last().0 == x.0 {
            g.drop_last().push((x.0, g.last().1.push((x.1, x.2, x.3))))
        } else {
            g.push((x.0, seq![(x.1, x.2, x.3)]))
        }
    }
}

/// The token index and the first byte of the entry before the `k`-th.
pub open spec fn before(items: Seq<(u32, u32, u32)>, k: int) -> (u32, u32) {
    if k <= 0 {
        (0, 0)
    } else {
        (items[k - 1].0, items[k - 1].1)
    }
}

/// The bytes of the `k`-th entry of a document.
pub open spec fn item_bytes(items: Seq<(u32, u32, u32)>, k: int, spans: bool) -> Seq<u8> {
    let prev = before(items, k);
    let x = items[k];
    if spans {
        varint::varint(x.0.wrapping_sub(prev.0) as u64) + varint::varint(x.1.wrapping_sub(prev.1) as u64) + varint::varint(
            x.2.wrapping_sub(x.1) as u64,
        )
    } else {
        varint::varint(x.0.wrapping_sub(prev.0) as u64)
    }
}

/// The bytes of the first `k` entries of a document.
pub open spec fn payload_upto(items: Seq<(u32, u32, u32)>, k: int, spans: bool) -> Seq<u8>
    decreases k,
{
    if k <= 0 {
        Seq::empty()
    } else {
        payload_upto(items, k - 1, spans) + item_bytes(items, k - 1, spans)
    }
}

/// The payload of each document.
pub open spec fn payloads(g: Seq<(u32, Seq<(u32, u32, u32)>)>, spans: bool) -> Seq<Seq<u8>> {
    Seq::new(g.len(), |i: int| payload_upto(g[i].1, g[i].1.len() as int, spans))
}

/// The document before the `k`-th.
pub open spec fn doc_before(g: Seq<(u32, Seq<(u32, u32, u32)>)>, k: int) -> u32 {
    if k <= 0 {
        0
    } else {
        g[k - 1].0
    }
}

/// The headers of the first `k` documents.
pub open spec fn headers_upto(
    g: Seq<(u32, Seq<(u32, u32, u32)>)>,
    spans: bool,
    k: int,
) -> Seq<u8>
    decreases k,
{
    if k <= 0 {
        Seq::empty()
    } else {
        headers_upto(g, spans, k - 1) + varint::varint(
            g[k - 1].0.wrapping_sub(doc_before(g, k - 1)) as u64,
        ) + varint::varint(payloads(g, spans)[k - 1].len() as u64) + varint::varint(g[k - 1].1.len() as u64)
    }
}

/// The checkpoint that stands before the `k`-th document.
pub open spec fn checkpoint(
    g: Seq<(u32, Seq<(u32, u32, u32)>)>,
    spans: bool,
    k: int,
) -> Seq<u8> {
    bytes::le32(doc_before(g, k)) + bytes::le32(bytes::start_of(payloads(g, spans), k) as u32) + bytes::le32(
        headers_upto(g, spans, k).len() as u32,
    )
}

/// The checkpoints before the first `k` documents.
pub open spec fn checkpoints_upto(
    g: Seq<(u32, Seq<(u32, u32, u32)>)>,
    spans: bool,
    k: int,
) -> Seq<u8>
    decreases k,
{
    if k <= 0 {
        Seq::empty()
    } else if k - 1 > 0 && (k - 1) % 8 == 0 {
        checkpoints_upto(g, spans, k - 1) + checkpoint(g, spans, k - 1)
    } else {
        checkpoints_upto(g, spans, k - 1)
    }
}

/// The bytes of an ordinal.
pub open spec fn ordinal_bytes(g: Seq<(u32, Seq<(u32, u32, u32)>)>, spans: bool) -> Seq<u8> {
    let n = g.len() as int;
    varint::varint(n as u64) + varint::varint(headers_upto(g, spans, n).len() as u64) + checkpoints_upto(
        g,
        spans,
        n,
    ) + headers_upto(g, spans, n) + bytes::flat(payloads(g, spans))
}

/// The bytes of every ordinal.
pub open spec fn ordinals_bytes(
    ordinals: Seq<Seq<(u32, u32, u32, u32)>>,
    spans: bool,
) -> Seq<Seq<u8>> {
    Seq::new(ordinals.len(), |o: int| ordinal_bytes(groups(order::sorted(ordinals[o])), spans))
}

/// The bytes of a file.
pub open spec fn file_bytes(ordinals: Seq<Seq<(u32, u32, u32, u32)>>, spans: bool) -> Seq<u8> {
    let blocks = ordinals_bytes(ordinals, spans);
    bytes::le32(
        if spans {
            SFP4
        } else {
            SFP5
        },
    ) + bytes::le32(ordinals.len() as u32) + block_offsets::table_bytes(bytes::starts32(blocks)) + bytes::flat(blocks)
}

/// The entries kept for each ordinal.
pub open spec fn lists(v: Seq<Vec<(u32, u32, u32, u32)>>) -> Seq<Seq<(u32, u32, u32, u32)>> {
    Seq::new(v.len(), |i: int| v[i]@)
}

/// Builds sfxpost data from collected posting entries.
pub struct SfxPostWriterV2 {
    ordinals: Vec<Vec<(u32, u32, u32, u32)>>,
    spans: bool,
}

impl SfxPostWriterV2 {
    /// The entries added for each ordinal, in the order they were added.
    pub closed spec fn ordinals(&self) -> Seq<Seq<(u32, u32, u32, u32)>> {
        lists(self.ordinals@)
    }

    /// Whether the entries carry byte spans.
    pub closed spec fn spans(&self) -> bool {
        self.spans
    }

    fn with_spans(num_terms: usize, spans: bool) -> (r: Self)
        ensures
            r.ordinals() == Seq::new(
                num_terms as nat,
                |i: int| Seq::<(u32, u32, u32, u32)>::empty(),
            ),
            r.spans() == spans,
    {
        let mut ordinals: Vec<Vec<(u32, u32, u32, u32)>> = Vec::new();
        let mut i: usize = 0;
        while i < num_terms
            invariant
                i <= num_terms,
                ordinals@.len() == i,
                forall|k: int|
                    0 <= k < i ==> (#[trigger] ordinals@[k])@ == Seq::<
                        (u32, u32, u32, u32),
                    >::empty(),
            decreases num_terms - i,
        {
            let fresh: Vec<(u32, u32, u32, u32)> = Vec::new();
            assert(fresh@ =~= Seq::<(u32, u32, u32, u32)>::empty());
            ordinals.push(fresh);
            i += 1;
        }
        assert(lists(ordinals@) =~= Seq::new(
            num_terms as nat,
            |i: int| Seq::<(u32, u32, u32, u32)>::empty(),
        ));
        Self { ordinals, spans }
    }

    /// A writer of `SFP4`: entries with their byte spans.
    pub fn new(num_terms: usize) -> (r: Self)
        ensures
            r.ordinals() == Seq::new(
                num_terms as nat,
                |i: int| Seq::<(u32, u32, u32, u32)>::empty(),
            ),
            r.spans(),
    {
        Self::with_spans(num_terms, true)
    }

    /// A writer of `SFP5`: positions only. `add_entry` ignores the spans it
    /// is given.
    pub fn positions_only(num_terms: usize) -> (r: Self)
        ensures
            r.ordinals() == Seq::new(
                num_terms as nat,
                |i: int| Seq::<(u32, u32, u32, u32)>::empty(),
            ),
            !r.spans(),
    {
        Self::with_spans(num_terms, false)
    }

    /// Add a posting entry for the given ordinal. One past the last ordinal
    /// is ignored.
    pub fn add_entry(
        &mut self,
        ordinal: u32,
        doc_id: u32,
        token_index: u32,
        byte_from: u32,
        byte_to: u32,
    )
        ensures
            final(self).spans() == old(self).spans(),
            ordinal >= old(self).ordinals().len() ==> final(self).ordinals() == old(
                self,
            ).ordinals(),
            ordinal < old(self).ordinals().len() ==> final(self).ordinals() == old(
                self,
            ).ordinals().update(
                ordinal as int,
                old(self).ordinals()[ordinal as int].push(
                    (
                        doc_id,
                        token_index,
                        if old(self).spans() {
                            byte_from
                        } else {
                            0
                        },
                        if old(self).spans() {
                            byte_to
                        } else {
                            0
                        },
                    ),
                ),
            ),
    {
        if (ordinal as usize) < self.ordinals.len() {
            let bf: u32 = if self.spans {
                byte_from
            } else {
                0
            };
            let bt: u32 = if self.spans {
                byte_to
            } else {
                0
            };
            self.ordinals[ordinal as usize].push((doc_id, token_index, bf, bt));
        }
        assert(ordinal < old(self).ordinals().len() ==> self.ordinals() =~= old(
            self,
        ).ordinals().update(
            ordinal as int,
            old(self).ordinals()[ordinal as int].push(
                (
                    doc_id,
                    token_index,
                    if old(self).spans() {
                        byte_from
                    } else {
                        0
                    },
                    if old(self).spans() {
                        byte_to
                    } else {
                        0
                    },
                ),
            ),
        ));
    }

    /// Add an occurrence by position (a `positions_only` writer).
    pub fn add_position(&mut self, ordinal: u32, doc_id: u32, token_index: u32)
        ensures
            final(self).spans() == old(self).spans(),
            ordinal >= old(self).ordinals().len() ==> final(self).ordinals() == old(
                self,
            ).ordinals(),
            ordinal < old(self).ordinals().len() ==> final(self).ordinals() == old(
                self,
            ).ordinals().update(
                ordinal as int,
                old(self).ordinals()[ordinal as int].push((doc_id, token_index, 0, 0)),
            ),
    {
        self.add_entry(ordinal, doc_id, token_index, 0, 0);
    }

    /// Build the binary data: each ordinal's entries sorted, grouped by
    /// document, delta-encoded.
    pub fn finish(self) -> (out: Vec<u8>)
        requires
            self.ordinals().len() < u32::MAX,
            bytes::flat(ordinals_bytes(self.ordinals(), self.spans())).len() <= u32::MAX,
            bytes::flat(
                block_offsets::all_blocks(bytes::starts32(ordinals_bytes(self.ordinals(), self.spans()))),
            ).len() <= u32::MAX,
        ensures
            out@ == file_bytes(self.ordinals(), self.spans()),
    {
        let ghost lists = self.ordinals();
        let ghost all = ordinals_bytes(lists, self.spans);
        let n: usize = self.ordinals.len();
        let mut blocks: Vec<Vec<u8>> = Vec::new();
        let mut offsets: Vec<u32> = Vec::new();
        let mut pos: u32 = 0;
        offsets.push(0);
        let mut o: usize = 0;
        proof {
            bytes::lemma_start_ends(all);
        }
        while o < n
            invariant
                lists == self.ordinals(),
                n == lists.len(),
                all == ordinals_bytes(lists, self.spans),
                bytes::flat(all).len() <= u32::MAX,
                o <= n,
                bytes::deep(blocks@) =~= all.take(o as int),
                offsets@ =~= bytes::starts32(all).take(o + 1),
                pos == bytes::start_of(all, o as int),
            decreases n - o,
        {
            let entries = sort(&self.ordinals[o]);
            proof {
                bytes::lemma_flat_at(all, o as int);
                bytes::lemma_start_mono(all, o as int, o + 1);
                assert(all[o as int] == ordinal_bytes(groups(order::sorted(lists[o as int])), self.spans));
            }
            let block = encode_ordinal(&entries, self.spans);
            pos = pos + block.len() as u32;
            offsets.push(pos);
            blocks.push(block);
            o += 1;
        }
        assert(bytes::deep(blocks@) =~= all);
        assert(offsets@ =~= bytes::starts32(all));
        proof {
            lemma_starts_ascend(all);
        }
        let table = block_offsets::encode(offsets.as_slice());
        let mut out: Vec<u8> = Vec::new();
        push_u32(
            &mut out,
            if self.spans {
                SFP4
            } else {
                SFP5
            },
        );
        push_u32(&mut out, n as u32);
        push_bytes(&mut out, table.as_slice());
        push_flat(&mut out, &blocks);
        assert(out@ =~= file_bytes(lists, self.spans));
        out
    }
}

proof fn lemma_starts_ascend(blobs: Seq<Seq<u8>>)
    requires
        bytes::flat(blobs).len() <= u32::MAX,
    ensures
        block_offsets::ascending(bytes::starts32(blobs)),
{
    let s = bytes::starts32(blobs);
    assert forall|i: int, j: int| 0 <= i <= j < s.len() implies s[i] <= s[j] by {
        bytes::lemma_start_mono(blobs, i, j);
    }
}

proof fn lemma_groups_count(e: Seq<(u32, u32, u32, u32)>, k: int)
    requires
        0 <= k < groups(e).len(),
    ensures
        1 <= groups(e)[k].1.len() <= e.len(),
        groups(e).len() <= e.len(),
    decreases e.len(),
{
    let g = groups(e.drop_last());
    let x = e.last();
    if g.len() > 0 {
        lemma_groups_count(e.drop_last(), g.len() - 1);
    }
    if g.len() > 0 && g.last().0 == x.0 {
        if k < g.len() - 1 {
            lemma_groups_count(e.drop_last(), k);
        }
    } else if k < g.len() {
        lemma_groups_count(e.drop_last(), k);
    }
}

proof fn lemma_payload_prefix(a: Seq<(u32, u32, u32)>, b: Seq<(u32, u32, u32)>, k: int, spans: bool)
    requires
        0 <= k <= a.len(),
        k <= b.len(),
        forall|i: int| 0 <= i < k ==> a[i] == b[i],
    ensures
        payload_upto(a, k, spans) == payload_upto(b, k, spans),
    decreases k,
{
    if k > 0 {
        lemma_payload_prefix(a, b, k - 1, spans);
    }
}

/// What one more entry does to the groups and their payloads.
proof fn lemma_group_step(e: Seq<(u32, u32, u32, u32)>, i: int, spans: bool)
    requires
        0 <= i < e.len(),
    ensures
        ({
            let g = groups(e.take(i));
            let h = groups(e.take(i + 1));
            let x = e[i];
            let same = g.len() > 0 && g.last().0 == x.0;
            &&& h == (if same {
                g.drop_last().push((x.0, g.last().1.push((x.1, x.2, x.3))))
            } else {
                g.push((x.0, seq![(x.1, x.2, x.3)]))
            })
            &&& same ==> bytes::flat(payloads(h, spans)) == bytes::flat(payloads(g, spans)) + item_bytes(
                h.last().1,
                h.last().1.len() - 1,
                spans,
            )
            &&& !same ==> bytes::flat(payloads(h, spans)) == bytes::flat(payloads(g, spans)) + item_bytes(
                h.last().1,
                0,
                spans,
            )
            &&& forall|k: int|
                0 <= k < h.len() ==> #[trigger] bytes::start_of(payloads(h, spans), k) == bytes::start_of(
                    payloads(g, spans),
                    k,
                )
        }),
{
    let g = groups(e.take(i));
    let h = groups(e.take(i + 1));
    let x = e[i];
    assert(e.take(i + 1).drop_last() =~= e.take(i));
    let pg = payloads(g, spans);
    let ph = payloads(h, spans);
    if g.len() > 0 && g.last().0 == x.0 {
        let items = g.last().1;
        let more = items.push((x.1, x.2, x.3));
        lemma_payload_prefix(items, more, items.len() as int, spans);
        assert(pg.drop_last() =~= ph.drop_last());
        assert(pg.last() == payload_upto(items, items.len() as int, spans));
        assert(ph.last() == pg.last() + item_bytes(more, items.len() as int, spans));
        assert(bytes::flat(ph) =~= bytes::flat(pg) + item_bytes(more, items.len() as int, spans));
        assert forall|k: int| 0 <= k < h.len() implies #[trigger] bytes::start_of(ph, k) == bytes::start_of(
            pg,
            k,
        ) by {
            assert(ph.take(k) =~= pg.take(k));
        }
    } else {
        let more = seq![(x.1, x.2, x.3)];
        assert(ph.drop_last() =~= pg);
        assert(payload_upto(more, 0, spans) =~= Seq::<u8>::empty());
        assert(ph.last() =~= item_bytes(more, 0, spans));
        assert forall|k: int| 0 <= k < h.len() implies #[trigger] bytes::start_of(ph, k) == bytes::start_of(
            pg,
            k,
        ) by {
            assert(ph.take(k) =~= pg.take(k));
        }
    }
}

proof fn lemma_headers_mono(g: Seq<(u32, Seq<(u32, u32, u32)>)>, spans: bool, i: int, j: int)
    requires
        0 <= i <= j,
    ensures
        headers_upto(g, spans, i).len() <= headers_upto(g, spans, j).len(),
    decreases j,
{
    if i < j {
        lemma_headers_mono(g, spans, i, j - 1);
    }
}

/// The bytes of one ordinal, its entries sorted.
fn encode_ordinal(entries: &Vec<(u32, u32, u32, u32)>, spans: bool) -> (out: Vec<u8>)
    requires
        ordinal_bytes(groups(entries@), spans).len() <= u32::MAX,
    ensures
        out@ == ordinal_bytes(groups(entries@), spans),
{
    let ghost e = entries@;
    let mut payload: Vec<u8> = Vec::new();
    // (document, entry count, end of its payload in `payload`)
    let mut runs: Vec<(u32, usize, usize)> = Vec::new();
    let mut prev_ti: u32 = 0;
    let mut prev_bf: u32 = 0;
    let mut i: usize = 0;
    proof {
        assert(e.take(0) =~= Seq::<(u32, u32, u32, u32)>::empty());
        assert(payloads(groups(e.take(0)), spans) =~= Seq::<Seq<u8>>::empty());
    }
    while i < entries.len()
        invariant
            e == entries@,
            i <= e.len(),
            payload@ == bytes::flat(payloads(groups(e.take(i as int)), spans)),
            runs@.len() == groups(e.take(i as int)).len(),
            forall|k: int|
                0 <= k < runs@.len() ==> {
                    &&& (#[trigger] runs@[k]).0 == groups(e.take(i as int))[k].0
                    &&& runs@[k].1 == groups(e.take(i as int))[k].1.len()
                    &&& k + 1 < runs@.len() ==> runs@[k].2 == bytes::start_of(
                        payloads(groups(e.take(i as int)), spans),
                        k + 1,
                    )
                    &&& k + 1 == runs@.len() ==> runs@[k].2 == payload@.len()
                },
            runs@.len() > 0 ==> (prev_ti, prev_bf) == before(
                groups(e.take(i as int)).last().1,
                groups(e.take(i as int)).last().1.len() as int,
            ),
        decreases e.len() - i,
    {
        let (doc, ti, bf, bt) = entries[i];
        let ghost g = groups(e.take(i as int));
        let ghost h = groups(e.take(i + 1));
        proof {
            lemma_group_step(e, i as int, spans);
            bytes::lemma_start_ends(payloads(g, spans));
            if g.len() > 0 {
                lemma_groups_count(e.take(i as int), g.len() - 1);
            }
        }
        let m: usize = runs.len();
        let same: bool = m > 0 && runs[m - 1].0 == doc;
        if !same {
            prev_ti = 0;
            prev_bf = 0;
        }
        write_varint(&mut payload, ti.wrapping_sub(prev_ti) as u64);
        if spans {
            write_varint(&mut payload, bf.wrapping_sub(prev_bf) as u64);
            write_varint(&mut payload, bt.wrapping_sub(bf) as u64);
        }
        proof {
            let items = h.last().1;
            assert(items.last() == (ti, bf, bt));
            assert(before(items, items.len() - 1) == (prev_ti, prev_bf));
            assert(payload@ =~= bytes::flat(payloads(h, spans)));
        }
        prev_ti = ti;
        prev_bf = bf;
        if same {
            let count: usize = runs[m - 1].1;
            runs.set(m - 1, (doc, count + 1, payload.len()));
        } else {
            runs.push((doc, 1, payload.len()));
        }
        i += 1;
        proof {
            let ph = payloads(h, spans);
            let pg = payloads(g, spans);
            assert forall|k: int| 0 <= k < runs@.len() implies {
                &&& (#[trigger] runs@[k]).0 == h[k].0
                &&& runs@[k].1 == h[k].1.len()
                &&& k + 1 < runs@.len() ==> runs@[k].2 == bytes::start_of(ph, k + 1)
                &&& k + 1 == runs@.len() ==> runs@[k].2 == payload@.len()
            } by {
                if k + 1 < runs@.len() {
                    assert(bytes::start_of(ph, k + 1) == bytes::start_of(pg, k + 1));
                    if k + 1 == g.len() {
                        assert(pg.take(k + 1) =~= pg);
                    }
                }
            }
        }
    }
    let ghost g = groups(e);
    let ghost pays = payloads(g, spans);
    proof {
        assert(e.take(e.len() as int) =~= e);
        bytes::lemma_start_ends(pays);
    }
    let n: usize = runs.len();
    let mut headers: Vec<u8> = Vec::new();
    let mut checkpoints: Vec<u8> = Vec::new();
    let mut prev_doc: u32 = 0;
    let mut start: usize = 0;
    let mut k: usize = 0;
    while k < n
        invariant
            n == g.len(),
            n == runs@.len(),
            pays == payloads(g, spans),
            payload@ == bytes::flat(pays),
            ordinal_bytes(g, spans).len() <= u32::MAX,
            k <= n,
            forall|k: int|
                0 <= k < runs@.len() ==> {
                    &&& (#[trigger] runs@[k]).0 == g[k].0
                    &&& runs@[k].1 == g[k].1.len()
                    &&& runs@[k].2 == bytes::start_of(pays, k + 1)
                },
            prev_doc == doc_before(g, k as int),
            start == bytes::start_of(pays, k as int),
            headers@ == headers_upto(g, spans, k as int),
            checkpoints@ == checkpoints_upto(g, spans, k as int),
        decreases n - k,
    {
        let (doc, count, end) = runs[k];
        proof {
            bytes::lemma_flat_at(pays, k as int);
            lemma_headers_mono(g, spans, k as int, n as int);
        }
        let len: usize = end - start;
        if k > 0 && k % CHECKPOINT_EVERY == 0 {
            push_u32(&mut checkpoints, prev_doc);
            push_u32(&mut checkpoints, start as u32);
            push_u32(&mut checkpoints, headers.len() as u32);
            assert(checkpoints@ =~= checkpoints_upto(g, spans, k as int) + checkpoint(
                g,
                spans,
                k as int,
            ));
        }
        write_varint(&mut headers, doc.wrapping_sub(prev_doc) as u64);
        write_varint(&mut headers, len as u64);
        write_varint(&mut headers, count as u64);
        prev_doc = doc;
        start = end;
        k += 1;
        assert(headers@ =~= headers_upto(g, spans, k as int));
    }
    let mut out: Vec<u8> = Vec::new();
    write_varint(&mut out, n as u64);
    write_varint(&mut out, headers.len() as u64);
    push_bytes(&mut out, checkpoints.as_slice());
    push_bytes(&mut out, headers.as_slice());
    push_bytes(&mut out, payload.as_slice());
    assert(out@ =~= ordinal_bytes(g, spans));
    out
}

/// The sum of the lengths of the lists before the `o`-th.
pub open spec fn nested(v: Seq<&[(u32, u32, u32, u32)]>) -> Seq<Seq<(u32, u32, u32, u32)>> {
    Seq::new(v.len(), |i: int| v[i]@)
}

/// Build sfxpost data from the entries of each ordinal.
pub fn build_sfxpost_v2(
    sorted_entries_per_ordinal: &[&[(u32, u32, u32, u32)]],
) -> (out: Vec<u8>)
    requires
        sorted_entries_per_ordinal@.len() < u32::MAX,
        bytes::flat(ordinals_bytes(nested(sorted_entries_per_ordinal@), true)).len() <= u32::MAX,
        bytes::flat(
            block_offsets::all_blocks(
                bytes::starts32(ordinals_bytes(nested(sorted_entries_per_ordinal@), true)),
            ),
        ).len() <= u32::MAX,
    ensures
        out@ == file_bytes(nested(sorted_entries_per_ordinal@), true),
{
    let ghost all = nested(sorted_entries_per_ordinal@);
    let n: usize = sorted_entries_per_ordinal.len();
    let mut writer = SfxPostWriterV2::new(n);
    let mut o: usize = 0;
    let ghost none = Seq::<(u32, u32, u32, u32)>::empty();
    while o < n
        invariant
            n == sorted_entries_per_ordinal@.len(),
            n < u32::MAX,
            all == nested(sorted_entries_per_ordinal@),
            o <= n,
            none == Seq::<(u32, u32, u32, u32)>::empty(),
            writer.spans(),
            writer.ordinals() =~= Seq::new(
                n as nat,
                |k: int|
                    if k < o {
                        all[k]
                    } else {
                        none
                    },
            ),
        decreases n - o,
    {
        let entries = sorted_entries_per_ordinal[o];
        let mut j: usize = 0;
        assert(all[o as int].take(0) =~= none);
        while j < entries.len()
            invariant
                n == sorted_entries_per_ordinal@.len(),
                n < u32::MAX,
                all == nested(sorted_entries_per_ordinal@),
                o < n,
                entries@ == all[o as int],
                j <= entries@.len(),
                none == Seq::<(u32, u32, u32, u32)>::empty(),
                writer.spans(),
                writer.ordinals() =~= Seq::new(
                    n as nat,
                    |k: int|
                        if k < o {
                            all[k]
                        } else if k == o {
                            all[k].take(j as int)
                        } else {
                            none
                        },
                ),
            decreases entries@.len() - j,
        {
            let (doc, ti, bf, bt) = entries[j];
            writer.add_entry(o as u32, doc, ti, bf, bt);
            j += 1;
            assert(all[o as int].take(j as int) =~= all[o as int].take(j - 1).push(
                (doc, ti, bf, bt),
            ));
        }
        assert(all[o as int].take(j as int) =~= all[o as int]);
        o += 1;
    }
    assert(writer.ordinals() =~= all);
    writer.finish()
}

/// How many checkpoints an ordinal of `n` documents has.
pub open spec fn checkpoint_count(n: int) -> int {
    if n <= 0 {
        0
    } else {
        (n - 1) / 8
    }
}

/// The postings of one ordinal as a file gives them.
///
/// Of an `SFP2` file, `first`, `second` and `third` are the documents, payload
/// offsets and entry counts; of a later one, `first` and `second` are the
/// checkpoints and the headers.
#[verifier::ext_equal]
pub struct Block {
    pub v3: bool,
    pub spans: bool,
    pub n: int,
    pub first: Seq<u8>,
    pub second: Seq<u8>,
    pub third: Seq<u8>,
    pub payload: Seq<u8>,
}

/// Which layout a file has: whether its ordinals are packed, whether its
/// offset table is block-coded, whether its entries carry spans.
pub open spec fn kind(s: Seq<u8>) -> Option<(bool, bool, bool)> {
    if s.len() < 8 {
        None
    } else if bytes::get32(s, 0) == SFP5 {
        Some((true, true, false))
    } else if bytes::get32(s, 0) == SFP4 {
        Some((true, true, true))
    } else if bytes::get32(s, 0) == SFP3 {
        Some((true, false, true))
    } else if bytes::get32(s, 0) == SFP2 {
        Some((false, false, true))
    } else {
        None
    }
}

/// Whether the bytes hold a file: a known magic and a whole offset table.
pub open spec fn opens(s: Seq<u8>) -> bool {
    match kind(s) {
        None => false,
        Some(k) => if k.1 {
            block_offsets::parses(s.skip(8)) && bytes::get32(s, 8) == bytes::get32(s, 4) + 1
        } else {
            s.len() >= 8 + 4 * (bytes::get32(s, 4) + 1)
        },
    }
}

/// Where the ordinals' bytes start.
pub open spec fn data_start(s: Seq<u8>) -> int {
    if kind(s).unwrap().1 {
        8 + block_offsets::table_len(s.skip(8))
    } else {
        8 + 4 * (bytes::get32(s, 4) + 1)
    }
}

/// Offset `i` of the offset table.
pub open spec fn offset_at(s: Seq<u8>, i: int) -> u32 {
    if kind(s).unwrap().1 {
        let mid = 20 + 4 * bytes::get32(s, 12);
        block_offsets::offset_in(s.subrange(20, mid), s.subrange(mid, data_start(s)), i)
    } else {
        bytes::get32(s, 8 + 4 * i)
    }
}

/// The bytes of an ordinal, cut at the end of the file; nothing where the
/// offsets do not name at least four bytes of it.
pub open spec fn ordinal_in(s: Seq<u8>, ordinal: int) -> Option<Seq<u8>> {
    let a = offset_at(s, ordinal) as int;
    let b = offset_at(s, ordinal + 1) as int;
    let d = s.skip(data_start(s));
    let e = if b < d.len() {
        b
    } else {
        d.len() as int
    };
    if a >= b || a >= d.len() || e - a < 4 {
        None
    } else {
        Some(d.subrange(a, e))
    }
}

/// An ordinal's bytes taken apart; nothing where a count runs past the end.
pub open spec fn split(d: Seq<u8>, v3: bool, spans: bool) -> Option<Block> {
    if v3 {
        let n = varint::u32_varint_at(d, 0);
        let h = varint::u32_varint_at(d, n.1);
        if n.0 is None || n.0.unwrap() > d.len() || h.0 is None {
            None
        } else {
            let a = h.1 + 12 * checkpoint_count(n.0.unwrap() as int);
            let b = a + h.0.unwrap();
            if b > d.len() {
                None
            } else {
                Some(
                    Block {
                        v3: true,
                        spans,
                        n: n.0.unwrap() as int,
                        first: d.subrange(h.1, a),
                        second: d.subrange(a, b),
                        third: Seq::empty(),
                        payload: d.skip(b),
                    },
                )
            }
        }
    } else {
        let n = bytes::get32(d, 0) as int;
        if d.len() < 4 + 10 * n {
            None
        } else {
            Some(
                Block {
                    v3: false,
                    spans: true,
                    n,
                    first: d.subrange(4, 4 + 4 * n),
                    second: d.subrange(4 + 4 * n, 4 + 8 * n),
                    third: d.subrange(4 + 8 * n, 4 + 10 * n),
                    payload: d.skip(4 + 10 * n),
                },
            )
        }
    }
}

/// The postings of an ordinal of a file.
pub open spec fn block_in(s: Seq<u8>, ordinal: int) -> Option<Block> {
    match ordinal_in(s, ordinal) {
        None => None,
        Some(d) => split(d, kind(s).unwrap().0, kind(s).unwrap().2),
    }
}

/// The three numbers of a packed header at `pos` and the position after them.
pub open spec fn triple(h: Seq<u8>, pos: int) -> Option<(u32, u32, u32, int)> {
    let a = varint::u32_varint_at(h, pos);
    let b = varint::u32_varint_at(h, a.1);
    let c = varint::u32_varint_at(h, b.1);
    if a.0 is Some && b.0 is Some && c.0 is Some {
        Some((a.0.unwrap(), b.0.unwrap(), c.0.unwrap(), c.1))
    } else {
        None
    }
}

/// The documents that packed headers give from `pos` on, as (document,
/// payload offset, entry count), at most `left` of them, the sums so far being
/// `doc` and `off`.
pub open spec fn docs_from(
    h: Seq<u8>,
    pos: int,
    doc: u32,
    off: u32,
    left: int,
) -> Seq<(u32, u32, u32)>
    decreases left,
{
    if left <= 0 {
        Seq::empty()
    } else {
        match triple(h, pos) {
            None => Seq::empty(),
            Some(t) => {
                let d = doc.wrapping_add(t.0);
                seq![(d, off, t.2)] + docs_from(h, t.3, d, off.wrapping_add(t.1), left - 1)
            },
        }
    }
}

/// The documents of an ordinal, as (document, payload offset, entry count).
pub open spec fn docs(b: Block) -> Seq<(u32, u32, u32)> {
    if b.v3 {
        docs_from(b.second, 0, 0, 0, b.n)
    } else {
        Seq::new(
            b.n as nat,
            |i: int|
                (bytes::get32(b.first, 4 * i), bytes::get32(b.second, 4 * i), bytes::get16(b.third, 2 * i) as u32),
        )
    }
}

/// The sums and the header position that checkpoint `k` gives; the beginning
/// where `k` is 0.
pub open spec fn checkpoint_state(b: Block, k: int) -> (u32, u32, int) {
    if k <= 0 {
        (0, 0, 0)
    } else {
        (
            bytes::get32(b.first, 12 * (k - 1)),
            bytes::get32(b.first, 12 * (k - 1) + 4),
            bytes::get32(b.first, 12 * (k - 1) + 8) as int,
        )
    }
}

/// The document `left` headers after `pos`, or the sums where they stop.
pub open spec fn doc_after(
    h: Seq<u8>,
    pos: int,
    doc: u32,
    off: u32,
    count: u32,
    left: int,
) -> (u32, u32, u32)
    decreases left,
{
    match triple(h, pos) {
        None => (doc, off, count),
        Some(t) => if left <= 0 {
            (doc.wrapping_add(t.0), off, t.2)
        } else {
            doc_after(h, t.3, doc.wrapping_add(t.0), off.wrapping_add(t.1), t.2, left - 1)
        },
    }
}

/// The `i`-th document, read from the checkpoint before it.
pub open spec fn doc_at(b: Block, i: int) -> (u32, u32, u32) {
    if b.v3 {
        let c = checkpoint_state(b, i / 8);
        doc_after(b.second, c.2, c.0, c.1, 0, i % 8)
    } else {
        docs(b)[i]
    }
}

/// The first of the fixed-width documents from `lo` to `hi` that is not below
/// `doc`, by halving.
pub open spec fn halve_docs(ids: Seq<u8>, lo: int, hi: int, doc: u32) -> int
    decreases hi - lo,
{
    if lo >= hi {
        lo
    } else {
        let mid = lo + (hi - lo) / 2;
        if bytes::get32(ids, 4 * mid) < doc {
            halve_docs(ids, mid + 1, hi, doc)
        } else {
            halve_docs(ids, lo, mid, doc)
        }
    }
}

/// The last of the checkpoints from `lo` to `hi` whose document is below
/// `doc`, by halving.
pub open spec fn halve_checkpoints(c: Seq<u8>, lo: int, hi: int, doc: u32) -> int
    decreases hi - lo,
{
    if lo >= hi {
        lo
    } else {
        let mid = lo + (hi - lo) / 2 + 1;
        if bytes::get32(c, 12 * (mid - 1)) < doc {
            halve_checkpoints(c, mid, hi, doc)
        } else {
            halve_checkpoints(c, lo, mid - 1, doc)
        }
    }
}

/// Looks for a document among the headers from `pos` on, the `i`-th to the one
/// before `end`, as (index, payload offset, entry count).
pub open spec fn scan(
    h: Seq<u8>,
    pos: int,
    doc: u32,
    off: u32,
    i: int,
    end: int,
    target: u32,
) -> Option<(int, u32, u32)>
    decreases end - i,
{
    if i >= end {
        None
    } else {
        match triple(h, pos) {
            None => None,
            Some(t) => {
                let d = doc.wrapping_add(t.0);
                if d < target {
                    scan(h, t.3, d, off.wrapping_add(t.1), i + 1, end, target)
                } else if d == target {
                    Some((i, off, t.2))
                } else {
                    None
                }
            },
        }
    }
}

/// Looks a document up, as (index, payload offset, entry count).
pub open spec fn find_doc(b: Block, doc: u32) -> Option<(int, u32, u32)> {
    if b.v3 {
        let k = halve_checkpoints(b.first, 0, checkpoint_count(b.n), doc);
        let c = checkpoint_state(b, k);
        let end = if 8 * k + 8 < b.n {
            8 * k + 8
        } else {
            b.n
        };
        scan(b.second, c.2, c.0, c.1, 8 * k, end, doc)
    } else {
        let i = halve_docs(b.first, 0, b.n, doc);
        if i < b.n && docs(b)[i].0 == doc {
            Some((i, docs(b)[i].1, docs(b)[i].2))
        } else {
            None
        }
    }
}

/// A number of at most `n` bytes at `pos`, and the position after it. What is
/// cut off counts as zero, and bits past the thirty-second are dropped.
pub open spec fn vint_at(p: Seq<u8>, pos: int, n: nat) -> (u32, int)
    decreases n,
{
    if n == 0 || pos >= p.len() {
        (0, pos)
    } else if p[pos] < 128 {
        (p[pos] as u32, pos + 1)
    } else {
        let rest = vint_at(p, pos + 1, (n - 1) as nat);
        (((p[pos] - 128 + 128 * rest.0) % 0x1_0000_0000) as u32, rest.1)
    }
}

/// The entries of a payload from `pos` on, at most `left` of them, as (token
/// index, first byte, byte after the last).
pub open spec fn items_from(
    b: Block,
    pos: int,
    ti: u32,
    bf: u32,
    left: int,
) -> Seq<(u32, u32, u32)>
    decreases left,
{
    let p = b.payload;
    if left <= 0 || pos >= p.len() {
        Seq::empty()
    } else {
        let x = vint_at(p, pos, 5);
        if !b.spans {
            let t = ti.wrapping_add(x.0);
            seq![(t, 0u32, 0u32)] + items_from(b, x.1, t, bf, left - 1)
        } else if x.1 >= p.len() {
            Seq::empty()
        } else {
            let y = vint_at(p, x.1, 5);
            let z = vint_at(p, y.1, 5);
            if b.v3 {
                let t = ti.wrapping_add(x.0);
                let f = bf.wrapping_add(y.0);
                seq![(t, f, f.wrapping_add(z.0))] + items_from(b, z.1, t, f, left - 1)
            } else {
                seq![(x.0, y.0, z.0)] + items_from(b, z.1, ti, bf, left - 1)
            }
        }
    }
}

/// The entries of a document.
pub open spec fn items_of(b: Block, d: (u32, u32, u32)) -> Seq<(u32, u32, u32)> {
    items_from(
        b,
        if d.1 < b.payload.len() {
            d.1 as int
        } else {
            b.payload.len() as int
        },
        0,
        0,
        d.2 as int,
    )
}

/// The entries of the first `k` documents of a list, in order.
pub open spec fn entries_upto(
    b: Block,
    list: Seq<(u32, u32, u32)>,
    k: int,
) -> Seq<(u32, u32, u32, u32)>
    decreases k,
{
    if k <= 0 {
        Seq::empty()
    } else {
        let d = list[k - 1];
        let items = items_of(b, d);
        entries_upto(b, list, k - 1) + Seq::new(
            items.len(),
            |i: int| (d.0, items[i].0, items[i].1, items[i].2),
        )
    }
}

/// All entries of an ordinal.
pub open spec fn all_entries(b: Block) -> Seq<(u32, u32, u32, u32)> {
    entries_upto(b, docs(b), docs(b).len() as int)
}

/// The documents of a list that are in a set, in order.
pub open spec fn kept(
    list: Seq<(u32, u32, u32)>,
    filter: Set<u32>,
    k: int,
) -> Seq<(u32, u32, u32)>
    decreases k,
{
    if k <= 0 {
        Seq::empty()
    } else if filter.contains(list[k - 1].0) {
        kept(list, filter, k - 1).push(list[k - 1])
    } else {
        kept(list, filter, k - 1)
    }
}

/// The span of the first entry that is not before `position`, if it is there.
pub open spec fn item_at(
    items: Seq<(u32, u32, u32)>,
    position: u32,
    i: int,
) -> Option<(u32, u32)>
    decreases items.len() - i,
{
    if i >= items.len() {
        None
    } else if items[i].0 < position {
        item_at(items, position, i + 1)
    } else if items[i].0 == position {
        Some((items[i].1, items[i].2))
    } else {
        None
    }
}

/// The ordinal a caller's id names: itself without a map of global ids.
pub open spec fn ordinal_for(gmap: Option<Seq<u8>>, id: u32) -> Option<u32> {
    match gmap {
        None => Some(id),
        Some(g) => if gmap::layout(g) is None {
            None
        } else {
            gmap::find_local(gmap::ids_in(g), gmap::heads_in(g), id)
        },
    }
}

/// What a file holds under a caller's id.
pub open spec fn block_for(s: Seq<u8>, gmap: Option<Seq<u8>>, id: u32) -> Option<Block> {
    match ordinal_for(gmap, id) {
        None => None,
        Some(o) => if o >= bytes::get32(s, 4) {
            None
        } else {
            block_in(s, o as int)
        },
    }
}

/// Decode one number of at most five bytes. Returns the value and the bytes
/// consumed.
pub fn decode_vint(data: &[u8]) -> (r: (u32, usize))
    ensures
        (r.0, r.1 as int) == vint_at(data@, 0, 5),
{
    decode_vint_at(data, 0, 5)
}

fn decode_vint_at(data: &[u8], pos: usize, n: u32) -> (r: (u32, usize))
    ensures
        (r.0, r.1 as int) == vint_at(data@, pos as int, n as nat),
    decreases n,
{
    if n == 0 || pos >= data.len() {
        return (0, pos);
    }
    let b: u8 = data[pos];
    if b < 128 {
        return (b as u32, pos + 1);
    }
    let (rest, end) = decode_vint_at(data, pos + 1, n - 1);
    let wide: u64 = (b - 128) as u64 + 128 * rest as u64;
    ((wide % 0x1_0000_0000) as u32, end)
}

proof fn lemma_vint_end(p: Seq<u8>, pos: int, n: nat)
    ensures
        pos <= vint_at(p, pos, n).1,
        pos <= p.len() ==> vint_at(p, pos, n).1 <= p.len(),
        n > 0 && pos < p.len() ==> pos < vint_at(p, pos, n).1,
    decreases n,
{
    if n != 0 && pos < p.len() && p[pos] >= 128 {
        lemma_vint_end(p, pos + 1, (n - 1) as nat);
    }
}

fn read_triple(h: &[u8], pos: &mut usize) -> (r: Option<(u32, u32, u32)>)
    ensures
        r is Some <==> triple(h@, *old(pos) as int) is Some,
        r matches Some(t) ==> triple(h@, *old(pos) as int) == Some(
            (t.0, t.1, t.2, *final(pos) as int),
        ),
{
    let a = read_varint_u32(h, pos);
    let b = read_varint_u32(h, pos);
    let c = read_varint_u32(h, pos);
    match (a, b, c) {
        (Some(x), Some(y), Some(z)) => Some((x, y, z)),
        _ => None,
    }
}

/// One ordinal's postings, read in place.
struct OrdinalHeader<'a> {
    num_docs: usize,
    v3: bool,
    spans: bool,
    first: &'a [u8],
    second: &'a [u8],
    third: &'a [u8],
    payload: &'a [u8],
}

impl<'a> OrdinalHeader<'a> {
    spec fn block(&self) -> Block {
        Block {
            v3: self.v3,
            spans: self.spans,
            n: self.num_docs as int,
            first: self.first@,
            second: self.second@,
            third: self.third@,
            payload: self.payload@,
        }
    }

    spec fn wf(&self) -> bool {
        if self.v3 {
            self.first@.len() == 12 * checkpoint_count(self.num_docs as int)
        } else {
            &&& self.first@.len() == 4 * self.num_docs
            &&& self.second@.len() == 4 * self.num_docs
            &&& self.third@.len() == 2 * self.num_docs
        }
    }

    /// An ordinal's bytes taken apart.
    fn parse(data: &'a [u8], v3: bool, spans: bool) -> (r: Option<OrdinalHeader<'a>>)
        requires
            data@.len() >= 4,
        ensures
            r is Some <==> split(data@, v3, spans) is Some,
            r matches Some(h) ==> h.wf() && split(data@, v3, spans) == Some(h.block()),
    {
        let len: usize = data.len();
        if v3 {
            let mut pos: usize = 0;
            // Both counts come from the file: they are bounded by the block
            // before any arithmetic on them.
            let n: u32 = match read_varint_u32(data, &mut pos) {
                Some(n) => n,
                None => return None,
            };
            if n as usize > len {
                return None;
            }
            let ghost mid = pos as int;
            proof {
                varint::lemma_varint_end(data@, 0, 10);
            }
            let headers_len: u32 = match read_varint_u32(data, &mut pos) {
                Some(h) => h,
                None => return None,
            };
            proof {
                varint::lemma_varint_end(data@, mid, 10);
            }
            let count: u64 = if n == 0 {
                0
            } else {
                (n as u64 - 1) / 8
            };
            let need: u64 = 12 * count + headers_len as u64;
            if need > (len - pos) as u64 {
                return None;
            }
            let a: usize = pos + 12 * count as usize;
            let b: usize = a + headers_len as usize;
            let empty = part(data, 0, 0);
            let h = OrdinalHeader {
                num_docs: n as usize,
                v3: true,
                spans,
                first: part(data, pos, a),
                second: part(data, a, b),
                third: empty,
                payload: part(data, b, len),
            };
            assert(empty@ =~= Seq::<u8>::empty());
            assert(data@.subrange(b as int, len as int) =~= data@.skip(b as int));
            return Some(h);
        }
        let n: u64 = read_u32(data, 0) as u64;
        if (len as u64) < 4 + 10 * n {
            return None;
        }
        let n: usize = n as usize;
        let h = OrdinalHeader {
            num_docs: n,
            v3: false,
            spans: true,
            first: part(data, 4, 4 + 4 * n),
            second: part(data, 4 + 4 * n, 4 + 8 * n),
            third: part(data, 4 + 8 * n, 4 + 10 * n),
            payload: part(data, 4 + 10 * n, len),
        };
        assert(data@.subrange(4 + 10 * n, len as int) =~= data@.skip(4 + 10 * n));
        Some(h)
    }

    fn checkpoint(&self, k: usize) -> (r: (u32, u32, usize))
        requires
            self.wf(),
            self.v3,
            k <= checkpoint_count(self.num_docs as int),
        ensures
            (r.0, r.1, r.2 as int) == checkpoint_state(self.block(), k as int),
    {
        if k == 0 {
            return (0, 0, 0);
        }
        let len: usize = self.first.len();
        assert(12 * (k - 1) + 12 <= len);
        let at: usize = 12 * (k - 1);
        let doc: u32 = read_u32(self.first, at);
        let off: u32 = read_u32(self.first, at + 4);
        let pos: u32 = read_u32(self.first, at + 8);
        (doc, off, pos as usize)
    }

    fn fixed(&self, i: usize) -> (r: (u32, u32, u32))
        requires
            self.wf(),
            !self.v3,
            i < self.num_docs,
        ensures
            r == docs(self.block())[i as int],
    {
        let len: usize = self.first.len();
        assert(4 * i + 4 <= len);
        (
            read_u32(self.first, 4 * i),
            read_u32(self.second, 4 * i),
            read_u16(self.third, 2 * i) as u32,
        )
    }

    /// `(doc_id, payload offset, entry count)` of the `i`-th document.
    ///
    /// Packed headers are read from the checkpoint before `i`: at most
    /// `CHECKPOINT_EVERY` of them.
    fn doc_at(&self, i: usize) -> (r: (u32, u32, u32))
        requires
            self.wf(),
            i < self.num_docs,
        ensures
            r == doc_at(self.block(), i as int),
    {
        if !self.v3 {
            return self.fixed(i);
        }
        let k: usize = i / CHECKPOINT_EVERY;
        let (mut doc, mut off, mut pos) = self.checkpoint(k);
        let mut count: u32 = 0;
        let mut left: usize = i % CHECKPOINT_EVERY;
        let ghost h = self.second@;
        let ghost want = doc_at(self.block(), i as int);
        loop
            invariant
                h == self.second@,
                want == doc_at(self.block(), i as int),
                want == doc_after(h, pos as int, doc, off, count, left as int),
            decreases left,
        {
            match read_triple(self.second, &mut pos) {
                None => {
                    return (doc, off, count);
                },
                Some((d, l, n)) => {
                    if left == 0 {
                        return (doc.wrapping_add(d), off, n);
                    }
                    doc = doc.wrapping_add(d);
                    off = off.wrapping_add(l);
                    count = n;
                    left -= 1;
                },
            }
        }
    }

    /// Every document as `(doc_id, payload offset, entry count)`, the headers
    /// read once.
    fn all_docs(&self) -> (r: Vec<(u32, u32, u32)>)
        requires
            self.wf(),
        ensures
            r@ == docs(self.block()),
    {
        let mut out: Vec<(u32, u32, u32)> = Vec::new();
        if !self.v3 {
            let mut i: usize = 0;
            while i < self.num_docs
                invariant
                    self.wf(),
                    !self.v3,
                    i <= self.num_docs,
                    out@ =~= docs(self.block()).take(i as int),
                decreases self.num_docs - i,
            {
                out.push(self.fixed(i));
                i += 1;
            }
            return out;
        }
        let ghost all = docs(self.block());
        let ghost h = self.second@;
        let mut doc: u32 = 0;
        let mut off: u32 = 0;
        let mut pos: usize = 0;
        let mut left: usize = self.num_docs;
        assert(out@ + docs_from(h, 0, 0, 0, left as int) =~= all);
        while left > 0
            invariant_except_break
                h == self.second@,
                all == out@ + docs_from(h, pos as int, doc, off, left as int),
            ensures
                all == out@,
            decreases left,
        {
            let ghost before = out@;
            let ghost at = pos as int;
            match read_triple(self.second, &mut pos) {
                None => {
                    assert(out@ + Seq::<(u32, u32, u32)>::empty() =~= out@);
                    break ;
                },
                Some((d, l, n)) => {
                    let next: u32 = doc.wrapping_add(d);
                    out.push((next, off, n));
                    proof {
                        let rest = docs_from(h, pos as int, next, off.wrapping_add(l), left - 1);
                        assert(before + (seq![(next, off, n)] + rest) =~= out@ + rest);
                    }
                    doc = next;
                    off = off.wrapping_add(l);
                    left -= 1;
                },
            }
            assert(left == 0 ==> out@ + docs_from(h, pos as int, doc, off, 0) =~= out@);
        }
        out
    }

    /// The entries of one document's payload.
    fn walk_payload(&self, offset: u32, count: u32) -> (r: Vec<(u32, u32, u32)>)
        ensures
            forall|d: u32| r@ == #[trigger] items_of(self.block(), (d, offset, count)),
    {
        let ghost b = self.block();
        let size: usize = self.payload.len();
        let mut pos: usize = if (offset as usize) < size {
            offset as usize
        } else {
            size
        };
        let mut out: Vec<(u32, u32, u32)> = Vec::new();
        let mut ti: u32 = 0;
        let mut bf: u32 = 0;
        let mut left: u32 = count;
        let ghost all = items_of(b, (0, offset, count));
        assert(out@ + items_from(b, pos as int, 0, 0, count as int) =~= all);
        while left > 0 && pos < size
            invariant
                b == self.block(),
                size == self.payload@.len(),
                pos <= size,
                all == out@ + items_from(b, pos as int, ti, bf, left as int),
            ensures
                all == out@,
            decreases left,
        {
            let ghost before = out@;
            proof {
                lemma_vint_end(b.payload, pos as int, 5);
            }
            let (x, p) = decode_vint_at(self.payload, pos, 5);
            let ghost rest: Seq<(u32, u32, u32)> = Seq::empty();
            if !self.spans {
                ti = ti.wrapping_add(x);
                out.push((ti, 0, 0));
                pos = p;
            } else if p >= size {
                assert(out@ + Seq::<(u32, u32, u32)>::empty() =~= out@);
                break ;
            } else {
                proof {
                    lemma_vint_end(b.payload, p as int, 5);
                }
                let (y, q) = decode_vint_at(self.payload, p, 5);
                proof {
                    lemma_vint_end(b.payload, q as int, 5);
                }
                let (z, r) = decode_vint_at(self.payload, q, 5);
                if self.v3 {
                    ti = ti.wrapping_add(x);
                    bf = bf.wrapping_add(y);
                    out.push((ti, bf, bf.wrapping_add(z)));
                } else {
                    out.push((x, y, z));
                }
                pos = r;
            }
            left -= 1;
            proof {
                let rest = items_from(b, pos as int, ti, bf, left as int);
                assert(before + (seq![out@.last()] + rest) =~= out@ + rest);
                if left == 0 || pos >= size {
                    assert(out@ + Seq::<(u32, u32, u32)>::empty() =~= out@);
                }
            }
        }
        proof {
            assert forall|d: u32| out@ == #[trigger] items_of(b, (d, offset, count)) by {}
        }
        out
    }

    /// Searches for a document: its index, payload offset and entry count.
    ///
    /// Packed headers are narrowed to one run through the checkpoints, and the
    /// run is decoded once.
    fn find_doc_full(&self, doc_id: u32) -> (r: Option<(usize, u32, u32)>)
        requires
            self.wf(),
        ensures
            r is Some <==> find_doc(self.block(), doc_id) is Some,
            r matches Some(t) ==> find_doc(self.block(), doc_id) == Some(
                (t.0 as int, t.1, t.2),
            ) && t.0 < self.num_docs,
    {
        let ghost b = self.block();
        if !self.v3 {
            let mut lo: usize = 0;
            let mut hi: usize = self.num_docs;
            while lo < hi
                invariant
                    self.wf(),
                    !self.v3,
                    b == self.block(),
                    lo <= hi <= self.num_docs,
                    halve_docs(b.first, 0, b.n, doc_id) == halve_docs(
                        b.first,
                        lo as int,
                        hi as int,
                        doc_id,
                    ),
                decreases hi - lo,
            {
                let mid: usize = lo + (hi - lo) / 2;
                if self.fixed(mid).0 < doc_id {
                    lo = mid + 1;
                } else {
                    hi = mid;
                }
            }
            if lo < self.num_docs {
                let (d, off, n) = self.fixed(lo);
                if d == doc_id {
                    return Some((lo, off, n));
                }
            }
            return None;
        }
        // Largest checkpoint whose document is below the target: the answer,
        // if any, is in the documents that follow it.
        let mut lo: usize = 0;
        let mut hi: usize = if self.num_docs == 0 {
            0
        } else {
            (self.num_docs - 1) / CHECKPOINT_EVERY
        };
        while lo < hi
            invariant
                self.wf(),
                self.v3,
                b == self.block(),
                lo <= hi <= checkpoint_count(b.n),
                halve_checkpoints(b.first, 0, checkpoint_count(b.n), doc_id) == halve_checkpoints(
                    b.first,
                    lo as int,
                    hi as int,
                    doc_id,
                ),
            decreases hi - lo,
        {
            let mid: usize = lo + (hi - lo) / 2 + 1;
            if self.checkpoint(mid).0 < doc_id {
                lo = mid;
            } else {
                hi = mid - 1;
            }
        }
        let (mut doc, mut off, mut pos) = self.checkpoint(lo);
        assert(8 * lo <= b.n);
        let mut i: usize = lo * CHECKPOINT_EVERY;
        let end: usize = if self.num_docs - i > CHECKPOINT_EVERY {
            i + CHECKPOINT_EVERY
        } else {
            self.num_docs
        };
        let ghost want = find_doc(b, doc_id);
        while i < end
            invariant
                b == self.block(),
                end <= self.num_docs,
                want == find_doc(b, doc_id),
                want == scan(b.second, pos as int, doc, off, i as int, end as int, doc_id),
            decreases end - i,
        {
            match read_triple(self.second, &mut pos) {
                None => {
                    return None;
                },
                Some((d, l, n)) => {
                    doc = doc.wrapping_add(d);
                    if doc < doc_id {
                        off = off.wrapping_add(l);
                    } else if doc == doc_id {
                        return Some((i, off, n));
                    } else {
                        return None;
                    }
                },
            }
            i += 1;
        }
        None
    }
}

/// Whether every way of reading an ordinal gives the same documents, in
/// increasing order: as a list, one by one, and by lookup.
pub open spec fn agrees(b: Block) -> bool {
    let list = docs(b);
    &&& list.len() == b.n
    &&& forall|i: int, j: int| 0 <= i < j < list.len() ==> (#[trigger] list[i]).0 < (
    #[trigger] list[j]).0
    &&& forall|i: int| 0 <= i < list.len() ==> #[trigger] doc_at(b, i) == list[i]
    &&& forall|d: u32|
        match #[trigger] find_doc(b, d) {
            Some(t) => 0 <= t.0 < list.len() && list[t.0] == (d, t.1, t.2),
            None => forall|i: int| 0 <= i < list.len() ==> (#[trigger] list[i]).0 != d,
        }
}

/// The entries as posting entries.
pub open spec fn as_entries(e: Seq<(u32, u32, u32, u32)>) -> Seq<SfxPostingEntry> {
    Seq::new(
        e.len(),
        |i: int|
            SfxPostingEntry {
                doc_id: e[i].0,
                token_index: e[i].1,
                byte_from: e[i].2,
                byte_to: e[i].3,
            },
    )
}

/// The entries as positions.
pub open spec fn as_positions(e: Seq<(u32, u32, u32, u32)>) -> Seq<PositionEntry> {
    Seq::new(e.len(), |i: int| PositionEntry { doc_id: e[i].0, token_index: e[i].1 })
}

/// The entries that a file holds under a caller's id.
pub open spec fn entries_for(
    s: Seq<u8>,
    gmap: Option<Seq<u8>>,
    id: u32,
) -> Seq<(u32, u32, u32, u32)> {
    match block_for(s, gmap, id) {
        None => Seq::empty(),
        Some(b) => all_entries(b),
    }
}

/// The entries that a file holds under a caller's id in the documents of a
/// set.
pub open spec fn entries_within(
    s: Seq<u8>,
    gmap: Option<Seq<u8>>,
    id: u32,
    filter: Set<u32>,
) -> Seq<(u32, u32, u32, u32)> {
    match block_for(s, gmap, id) {
        None => Seq::empty(),
        Some(b) => {
            let list = kept(docs(b), filter, docs(b).len() as int);
            entries_upto(b, list, list.len() as int)
        },
    }
}

/// The entries that a file holds under a caller's id in one document.
pub open spec fn items_for(
    s: Seq<u8>,
    gmap: Option<Seq<u8>>,
    id: u32,
    doc: u32,
) -> Seq<(u32, u32, u32)> {
    match block_for(s, gmap, id) {
        None => Seq::empty(),
        Some(b) => match find_doc(b, doc) {
            None => Seq::empty(),
            Some(t) => items_of(b, (doc, t.1, t.2)),
        },
    }
}

proof fn lemma_kept(
    list: Seq<(u32, u32, u32)>,
    filter: Set<u32>,
    idx: Seq<usize>,
    k: int,
)
    requires
        0 <= k <= list.len(),
        forall|a: int, b: int| 0 <= a < b < idx.len() ==> idx[a] < idx[b],
        forall|a: int| 0 <= a < idx.len() ==> #[trigger] idx[a] < k && filter.contains(
            list[idx[a] as int].0,
        ),
        forall|i: int|
            0 <= i < k && filter.contains((#[trigger] list[i]).0) ==> idx.contains(i as usize),
        list.len() <= usize::MAX,
    ensures
        kept(list, filter, k) == Seq::new(idx.len(), |a: int| list[idx[a] as int]),
    decreases k,
{
    let want = Seq::new(idx.len(), |a: int| list[idx[a] as int]);
    if k == 0 {
        if idx.len() > 0 {
            assert(idx[0] < 0);
        }
        assert(want =~= Seq::<(u32, u32, u32)>::empty());
    } else if filter.contains(list[k - 1].0) {
        assert(idx.contains((k - 1) as usize));
        let a = choose|a: int| 0 <= a < idx.len() && idx[a] == (k - 1) as usize;
        if a < idx.len() - 1 {
            assert(idx[a] < idx[a + 1]);
        }
        let rest = idx.drop_last();
        assert forall|i: int| 0 <= i < k - 1 && filter.contains(
            (#[trigger] list[i]).0,
        ) implies rest.contains(i as usize) by {
            assert(idx.contains(i as usize));
            let c = choose|c: int| 0 <= c < idx.len() && idx[c] == i as usize;
            assert(rest[c] == i as usize);
        }
        assert forall|c: int| 0 <= c < rest.len() implies #[trigger] rest[c] < k - 1
            && filter.contains(list[rest[c] as int].0) by {
            assert(idx[c] < idx[a]);
        }
        lemma_kept(list, filter, rest, k - 1);
        assert(want =~= Seq::new(rest.len(), |a: int| list[rest[a] as int]).push(list[k - 1]));
    } else {
        assert forall|c: int| 0 <= c < idx.len() implies #[trigger] idx[c] < k - 1
            && filter.contains(list[idx[c] as int].0) by {}
        lemma_kept(list, filter, idx, k - 1);
    }
}

impl<'a> OrdinalHeader<'a> {
    /// The documents of the filter, in order.
    ///
    /// Whichever side is smaller drives the loop: a lookup per document of the
    /// filter, or one pass over the documents.
    fn filtered_docs(&self, filter: &HashSet<u32>) -> (r: Vec<(u32, u32, u32)>)
        requires
            self.wf(),
        ensures
            agrees(self.block()) ==> r@ == kept(
                docs(self.block()),
                filter@,
                docs(self.block()).len() as int,
            ),
    {
        broadcast use vstd::std_specs::hash::group_hash_axioms;

        let ghost b = self.block();
        let ghost list = docs(b);
        let ghost ok = agrees(b);
        let n: usize = self.num_docs;
        let mut probes: usize = 0;
        let mut size: usize = n;
        while size > 0
            invariant
                probes + size <= n,
            decreases size,
        {
            size = size / 2;
            probes = probes + 1;
        }
        let cheap: bool = match filter.len().checked_mul(probes) {
            Some(cost) => cost < n,
            None => false,
        };
        let mut out: Vec<(u32, u32, u32)> = Vec::new();
        if cheap {
            let mut found: Vec<usize> = Vec::new();
            let ghost mut from: Seq<int> = Seq::empty();
            let ghost keys = vstd::std_specs::iter::IteratorSpec::remaining(
                &vstd::std_specs::hash::spec_hash_keys_iter(filter),
            );
            for d in it: filter.iter()
                invariant
                    self.wf(),
                    b == self.block(),
                    n == self.num_docs,
                    list == docs(b),
                    ok == agrees(b),
                    it.seq() == keys,
                    keys.unref().to_set() == filter@,
                    keys.no_duplicates(),
                    found@.len() == from.len(),
                    forall|j: int| 0 <= j < found@.len() ==> #[trigger] found@[j] < n,
                    ok ==> {
                        &&& forall|j: int|
                            0 <= j < found@.len() ==> 0 <= #[trigger] from[j] < it.index()
                                && from[j] < keys.len() && list[found@[j] as int].0
                                == *keys[from[j]]
                        &&& forall|i: int, j: int|
                            0 <= i < j < from.len() ==> #[trigger] from[i] < #[trigger] from[j]
                        &&& forall|k: int, i: int|
                            0 <= k < it.index() && 0 <= i < list.len() && (#[trigger] list[i]).0
                                == *(#[trigger] keys[k]) ==> found@.contains(i as usize)
                    },
            {
                let ghost before = found@;
                let ghost at = it.index();
                if let Some((i, _, _)) = self.find_doc_full(*d) {
                    found.push(i);
                    proof {
                        from = from.push(at);
                        assert(found@[before.len() as int] == i);
                        assert forall|x: usize| before.contains(x) implies found@.contains(x) by {
                            let c = choose|c: int| 0 <= c < before.len() && before[c] == x;
                            assert(found@[c] == x);
                        }
                    }
                }
                proof {
                    if ok {
                        assert forall|k: int, i: int|
                            0 <= k < at + 1 && 0 <= i < list.len() && (#[trigger] list[i]).0 == *(
                            #[trigger] keys[k]) implies found@.contains(i as usize) by {
                            if k == at {
                                assert(find_doc(b, *d) is Some);
                                let t = find_doc(b, *d).unwrap();
                                if t.0 < i {
                                    assert(list[t.0].0 < list[i].0);
                                } else if i < t.0 {
                                    assert(list[i].0 < list[t.0].0);
                                }
                                assert(found@.last() == i as usize);
                            }
                        }
                    }
                }
            }
            let idx = sort(&found);
            proof {
                order::lemma_sorted_items(found@);
                order::lemma_sorted(found@);
                assert forall|a: int| 0 <= a < idx@.len() implies #[trigger] idx@[a] < n by {
                    assert(idx@.contains(idx@[a]));
                    let c = choose|c: int| 0 <= c < found@.len() && found@[c] == idx@[a];
                    assert(found@[c] < n);
                }
                if ok {
                    assert forall|i: int, j: int| 0 <= i < j < found@.len() implies found@[i]
                        != found@[j] by {
                        assert(from[i] < from[j]);
                        assert(keys[from[i]] != keys[from[j]]);
                    }
                    assert(found@.no_duplicates());
                    assert forall|i: int, j: int| 0 <= i < j < idx@.len() implies idx@[i]
                        < idx@[j] by {
                        assert(order::Ordered::not_after(idx@[i], idx@[j]));
                    }
                    assert forall|a: int| 0 <= a < idx@.len() implies #[trigger] idx@[a]
                        < list.len() && filter@.contains(list[idx@[a] as int].0) by {
                        assert(idx@.contains(idx@[a]));
                        let c = choose|c: int| 0 <= c < found@.len() && found@[c] == idx@[a];
                        assert(0 <= from[c]);
                        assert(keys.unref()[from[c]] == list[found@[c] as int].0);
                        assert(keys.unref().to_set().contains(keys.unref()[from[c]]));
                    }
                    assert forall|i: int|
                        0 <= i < list.len() && filter@.contains(
                            (#[trigger] list[i]).0,
                        ) implies idx@.contains(i as usize) by {
                        assert(keys.unref().to_set().contains(list[i].0));
                        assert(keys.unref().contains(list[i].0));
                        let k = choose|k: int|
                            0 <= k < keys.unref().len() && keys.unref()[k] == list[i].0;
                        assert(*keys[k] == list[i].0);
                        assert(found@.contains(i as usize));
                    }
                }
            }
            let mut j: usize = 0;
            while j < idx.len()
                invariant
                    self.wf(),
                    b == self.block(),
                    n == self.num_docs,
                    list == docs(b),
                    ok == agrees(b),
                    j <= idx@.len(),
                    forall|a: int| 0 <= a < idx@.len() ==> #[trigger] idx@[a] < n,
                    ok ==> out@ =~= Seq::new(j as nat, |a: int| list[idx@[a] as int]),
                decreases idx@.len() - j,
            {
                out.push(self.doc_at(idx[j]));
                j += 1;
            }
            proof {
                if ok {
                    lemma_kept(list, filter@, idx@, list.len() as int);
                }
            }
            return out;
        }
        let all = self.all_docs();
        let mut i: usize = 0;
        while i < all.len()
            invariant
                list == all@,
                i <= list.len(),
                out@ == kept(list, filter@, i as int),
            decreases list.len() - i,
        {
            broadcast use vstd::std_specs::hash::group_hash_axioms;

            if filter.contains(&all[i].0) {
                out.push(all[i]);
            }
            i += 1;
        }
        out
    }
}

/// Reads the postings, in place.
pub struct SfxPostReaderV2 {
    data: Vec<u8>,
    num_terms: u32,
    v3: bool,
    block: bool,
    spans: bool,
    /// Where the blocks of a block-coded offset table start.
    mid: usize,
    start: usize,
    gmap: Option<Vec<u8>>,
}

impl SfxPostReaderV2 {
    /// The file opens, and what is kept of its header is the header's.
    pub closed spec fn wf(&self) -> bool {
        &&& opens(self.data@)
        &&& kind(self.data@) == Some((self.v3, self.block, self.spans))
        &&& self.num_terms == bytes::get32(self.data@, 4)
        &&& self.block ==> self.mid == 20 + 4 * bytes::get32(self.data@, 12)
        &&& self.start == data_start(self.data@)
    }

    /// The file's bytes.
    pub closed spec fn bytes(&self) -> Seq<u8> {
        self.data@
    }

    /// The bytes of the map of global ids, if there is one.
    pub closed spec fn gmap(&self) -> Option<Seq<u8>> {
        match self.gmap {
            None => None,
            Some(g) => Some(g@),
        }
    }

    /// Open a file from owned bytes.
    /// Returns None if the data has no known magic or no whole offset table.
    pub fn open(data: Vec<u8>) -> (r: Option<Self>)
        ensures
            r is Some <==> opens(data@),
            r matches Some(f) ==> f.wf() && f.bytes() == data@ && f.gmap() is None,
    {
        Self::open_owned(data)
    }

    /// Open without copying.
    pub fn open_owned(data: Vec<u8>) -> (r: Option<Self>)
        ensures
            r is Some <==> opens(data@),
            r matches Some(f) ==> f.wf() && f.bytes() == data@ && f.gmap() is None,
    {
        let len: usize = data.len();
        if len < 8 {
            return None;
        }
        let magic: u32 = read_u32(data.as_slice(), 0);
        let (v3, block, spans) = if magic == SFP5 {
            (true, true, false)
        } else if magic == SFP4 {
            (true, true, true)
        } else if magic == SFP3 {
            (true, false, true)
        } else if magic == SFP2 {
            (false, false, true)
        } else {
            return None;
        };
        let num_terms: u32 = read_u32(data.as_slice(), 4);
        if block {
            let rest = part(data.as_slice(), 8, len);
            assert(rest@ =~= data@.skip(8));
            let used: usize = match BlockOffsets::parse(rest) {
                None => {
                    return None;
                },
                Some((table, used)) => {
                    proof {
                        assert(rest@.subrange(0, 4) =~= data@.subrange(8, 12));
                        bytes::lemma_get32_local(rest@, 0, data@, 8);
                    }
                    if table.len() as u64 != num_terms as u64 + 1 {
                        return None;
                    }
                    used
                },
            };
            proof {
                assert(rest@.subrange(4, 8) =~= data@.subrange(12, 16));
                bytes::lemma_get32_local(rest@, 4, data@, 12);
            }
            let blocks: usize = read_u32(data.as_slice(), 12) as usize;
            return Some(
                Self {
                    data,
                    num_terms,
                    v3,
                    block,
                    spans,
                    mid: 20 + 4 * blocks,
                    start: 8 + used,
                    gmap: None,
                },
            );
        }
        let size: u64 = 8 + 4 * (num_terms as u64 + 1);
        if (len as u64) < size {
            return None;
        }
        Some(Self { data, num_terms, v3, block, spans, mid: 0, start: size as usize, gmap: None })
    }

    /// Whether the entries carry byte spans. `false` on an `SFP5` file: the
    /// span-carrying accessors then return zero spans.
    pub fn has_byte_spans(&self) -> (r: bool)
        requires
            self.wf(),
        ensures
            r == kind(self.bytes()).unwrap().2,
    {
        self.spans
    }

    /// Open from a byte slice (copies it).
    pub fn open_slice(data: &[u8]) -> (r: Option<Self>)
        ensures
            r is Some <==> opens(data@),
            r matches Some(f) ==> f.wf() && f.bytes() == data@ && f.gmap() is None,
    {
        let mut copy: Vec<u8> = Vec::new();
        push_bytes(&mut copy, data);
        assert(copy@ =~= data@);
        Self::open_owned(copy)
    }

    /// Take global ids: the map says which ordinal each of them is.
    pub fn with_gmap(self, gmap: Vec<u8>) -> (r: Self)
        requires
            self.wf(),
        ensures
            r.wf(),
            r.bytes() == self.bytes(),
            r.gmap() == Some(gmap@),
    {
        let mut r = self;
        r.gmap = Some(gmap);
        r
    }

    /// Number of terms.
    pub fn num_terms(&self) -> (r: u32)
        requires
            self.wf(),
        ensures
            r == bytes::get32(self.bytes(), 4),
    {
        self.num_terms
    }

    /// The ordinal a caller's id names: itself without a map.
    fn local(&self, ordinal: u32) -> (r: Option<u32>)
        ensures
            r == ordinal_for(self.gmap(), ordinal),
    {
        match &self.gmap {
            Some(map) => match GmapReader::open(map.as_slice()) {
                Some(g) => g.local(ordinal),
                None => None,
            },
            None => Some(ordinal),
        }
    }

    fn read_offset(&self, idx: u32) -> (r: u32)
        requires
            self.wf(),
            idx <= self.num_terms,
        ensures
            r == offset_at(self.data@, idx as int),
    {
        let data = self.data.as_slice();
        if self.block {
            proof {
                let rest = data@.skip(8);
                assert(rest.subrange(4, 8) =~= data@.subrange(12, 16));
                bytes::lemma_get32_local(rest, 4, data@, 12);
            }
            let dir = part(data, 20, self.mid);
            let blocks = part(data, self.mid, self.start);
            let table = BlockOffsets::from_parts(idx, dir, blocks);
            return table.get(idx);
        }
        let len: usize = data.len();
        assert(8 + 4 * idx + 4 <= len);
        read_u32(data, 8 + 4 * idx as usize)
    }

    fn read_ordinal_header(&self, ordinal: u32) -> (r: Option<OrdinalHeader<'_>>)
        requires
            self.wf(),
            ordinal < self.num_terms,
        ensures
            r is Some <==> block_in(self.data@, ordinal as int) is Some,
            r matches Some(h) ==> h.wf() && block_in(self.data@, ordinal as int) == Some(h.block()),
    {
        let a: usize = self.read_offset(ordinal) as usize;
        let b: usize = self.read_offset(ordinal + 1) as usize;
        let len: usize = self.data.len();
        let size: usize = len - self.start;
        if a >= b || a >= size {
            return None;
        }
        let e: usize = if b < size {
            b
        } else {
            size
        };
        if e - a < 4 {
            return None;
        }
        let d = part(self.data.as_slice(), self.start + a, self.start + e);
        assert(d@ =~= self.data@.skip(self.start as int).subrange(a as int, e as int));
        OrdinalHeader::parse(d, self.v3, self.spans)
    }

    fn header_for(&self, ordinal: u32) -> (r: Option<OrdinalHeader<'_>>)
        requires
            self.wf(),
        ensures
            r is Some <==> block_for(self.bytes(), self.gmap(), ordinal) is Some,
            r matches Some(h) ==> h.wf() && block_for(self.bytes(), self.gmap(), ordinal) == Some(
                h.block(),
            ),
    {
        match self.local(ordinal) {
            None => None,
            Some(o) => if o >= self.num_terms {
                None
            } else {
                self.read_ordinal_header(o)
            },
        }
    }

    /// Every entry of an ordinal as `(doc_id, token_index, byte_from,
    /// byte_to)`.
    pub fn for_each_entry(&self, ordinal: u32) -> (r: Vec<(u32, u32, u32, u32)>)
        requires
            self.wf(),
        ensures
            r@ == entries_for(self.bytes(), self.gmap(), ordinal),
    {
        match self.header_for(ordinal) {
            None => {
                let none: Vec<(u32, u32, u32, u32)> = Vec::new();
                assert(none@ =~= Seq::<(u32, u32, u32, u32)>::empty());
                none
            },
            Some(header) => {
                let docs = header.all_docs();
                collect(&header, &docs)
            },
        }
    }

    /// Every occurrence of an ordinal as `(doc_id, token_index)`.
    pub fn for_each_position(&self, ordinal: u32) -> (r: Vec<(u32, u32)>)
        requires
            self.wf(),
        ensures
            r@ == Seq::new(
                entries_for(self.bytes(), self.gmap(), ordinal).len(),
                |i: int|
                    (
                        entries_for(self.bytes(), self.gmap(), ordinal)[i].0,
                        entries_for(self.bytes(), self.gmap(), ordinal)[i].1,
                    ),
            ),
    {
        let all = self.for_each_entry(ordinal);
        let mut out: Vec<(u32, u32)> = Vec::new();
        let mut i: usize = 0;
        while i < all.len()
            invariant
                i <= all@.len(),
                out@ =~= Seq::new(i as nat, |k: int| (all@[k].0, all@[k].1)),
            decreases all@.len() - i,
        {
            let (doc, ti, _, _) = all[i];
            out.push((doc, ti));
            i += 1;
        }
        out
    }

    /// Get all posting entries for a given ordinal.
    pub fn entries(&self, ordinal: u32) -> (r: Vec<SfxPostingEntry>)
        requires
            self.wf(),
        ensures
            r@ == as_entries(entries_for(self.bytes(), self.gmap(), ordinal)),
    {
        self.entries_filtered(ordinal, None)
    }

    /// Get posting entries for a given ordinal, optionally only those in the
    /// documents of a set.
    ///
    /// On an ordinal whose checkpoints, headers and documents do not agree,
    /// what a set selects is left open.
    pub fn entries_filtered(
        &self,
        ordinal: u32,
        filter: Option<&HashSet<u32>>,
    ) -> (r: Vec<SfxPostingEntry>)
        requires
            self.wf(),
        ensures
            filter is None ==> r@ == as_entries(entries_for(self.bytes(), self.gmap(), ordinal)),
            filter matches Some(f) ==> (block_for(self.bytes(), self.gmap(), ordinal) matches Some(
                b,
            ) ==> agrees(b)) ==> r@ == as_entries(
                entries_within(self.bytes(), self.gmap(), ordinal, f@),
            ),
    {
        let all = self.select(ordinal, filter);
        let mut out: Vec<SfxPostingEntry> = Vec::new();
        let mut i: usize = 0;
        while i < all.len()
            invariant
                i <= all@.len(),
                out@ =~= as_entries(all@).take(i as int),
            decreases all@.len() - i,
        {
            let (doc_id, token_index, byte_from, byte_to) = all[i];
            out.push(SfxPostingEntry { doc_id, token_index, byte_from, byte_to });
            i += 1;
        }
        out
    }

    fn select(&self, ordinal: u32, filter: Option<&HashSet<u32>>) -> (r: Vec<
        (u32, u32, u32, u32),
    >)
        requires
            self.wf(),
        ensures
            filter is None ==> r@ == entries_for(self.bytes(), self.gmap(), ordinal),
            filter matches Some(f) ==> (block_for(self.bytes(), self.gmap(), ordinal) matches Some(
                b,
            ) ==> agrees(b)) ==> r@ == entries_within(self.bytes(), self.gmap(), ordinal, f@),
    {
        match filter {
            None => self.for_each_entry(ordinal),
            Some(f) => match self.header_for(ordinal) {
                None => {
                    let none: Vec<(u32, u32, u32, u32)> = Vec::new();
                    assert(none@ =~= Seq::<(u32, u32, u32, u32)>::empty());
                    none
                },
                Some(header) => {
                    let docs = header.filtered_docs(f);
                    collect(&header, &docs)
                },
            },
        }
    }

    /// The occurrences of an ordinal by position, optionally only those in the
    /// documents of a set.
    ///
    /// On an ordinal whose checkpoints, headers and documents do not agree,
    /// what a set selects is left open.
    pub fn positions_filtered(
        &self,
        ordinal: u32,
        filter: Option<&HashSet<u32>>,
    ) -> (r: Vec<PositionEntry>)
        requires
            self.wf(),
        ensures
            filter is None ==> r@ == as_positions(entries_for(self.bytes(), self.gmap(), ordinal)),
            filter matches Some(f) ==> (block_for(self.bytes(), self.gmap(), ordinal) matches Some(
                b,
            ) ==> agrees(b)) ==> r@ == as_positions(
                entries_within(self.bytes(), self.gmap(), ordinal, f@),
            ),
    {
        let all = self.select(ordinal, filter);
        let mut out: Vec<PositionEntry> = Vec::new();
        let mut i: usize = 0;
        while i < all.len()
            invariant
                i <= all@.len(),
                out@ =~= as_positions(all@).take(i as int),
            decreases all@.len() - i,
        {
            let (doc_id, token_index, _, _) = all[i];
            out.push(PositionEntry { doc_id, token_index });
            i += 1;
        }
        out
    }

    /// Check if a specific document has entries for the given ordinal.
    pub fn has_doc(&self, ordinal: u32, doc_id: u32) -> (r: bool)
        requires
            self.wf(),
        ensures
            r == (match block_for(self.bytes(), self.gmap(), ordinal) {
                None => false,
                Some(b) => find_doc(b, doc_id) is Some,
            }),
    {
        match self.header_for(ordinal) {
            None => false,
            Some(header) => header.find_doc_full(doc_id).is_some(),
        }
    }

    fn items(&self, ordinal: u32, doc_id: u32) -> (r: Vec<(u32, u32, u32)>)
        requires
            self.wf(),
        ensures
            r@ == items_for(self.bytes(), self.gmap(), ordinal, doc_id),
    {
        match self.header_for(ordinal) {
            None => {},
            Some(header) => match header.find_doc_full(doc_id) {
                None => {},
                Some((_, offset, count)) => {
                    let r = header.walk_payload(offset, count);
                    assert(r@ == items_of(header.block(), (doc_id, offset, count)));
                    return r;
                },
            },
        }
        let none: Vec<(u32, u32, u32)> = Vec::new();
        assert(none@ =~= Seq::<(u32, u32, u32)>::empty());
        none
    }

    /// Get entries for a single document.
    pub fn entries_for_doc(&self, ordinal: u32, target_doc: u32) -> (r: Vec<SfxPostingEntry>)
        requires
            self.wf(),
        ensures
            r@.len() == items_for(self.bytes(), self.gmap(), ordinal, target_doc).len(),
            forall|i: int|
                0 <= i < r@.len() ==> {
                    let x = items_for(self.bytes(), self.gmap(), ordinal, target_doc)[i];
                    #[trigger] r@[i] == SfxPostingEntry {
                        doc_id: target_doc,
                        token_index: x.0,
                        byte_from: x.1,
                        byte_to: x.2,
                    }
                },
    {
        let items = self.items(ordinal, target_doc);
        let mut out: Vec<SfxPostingEntry> = Vec::new();
        let mut i: usize = 0;
        while i < items.len()
            invariant
                i <= items@.len(),
                out@.len() == i,
                forall|k: int|
                    0 <= k < i ==> #[trigger] out@[k] == (SfxPostingEntry {
                        doc_id: target_doc,
                        token_index: items@[k].0,
                        byte_from: items@[k].1,
                        byte_to: items@[k].2,
                    }),
            decreases items@.len() - i,
        {
            let (token_index, byte_from, byte_to) = items[i];
            out.push(SfxPostingEntry { doc_id: target_doc, token_index, byte_from, byte_to });
            i += 1;
        }
        out
    }

    /// The span of the entry of an ordinal in a document at a position.
    /// Entries are written in token order, so the scan stops at the first
    /// position past the target.
    pub fn entry_at(&self, ordinal: u32, doc_id: u32, position: u32) -> (r: Option<(u32, u32)>)
        requires
            self.wf(),
        ensures
            r == item_at(items_for(self.bytes(), self.gmap(), ordinal, doc_id), position, 0),
    {
        let items = self.items(ordinal, doc_id);
        let mut i: usize = 0;
        while i < items.len()
            invariant
                i <= items@.len(),
                items@ == items_for(self.bytes(), self.gmap(), ordinal, doc_id),
                item_at(items@, position, 0) == item_at(items@, position, i as int),
            decreases items@.len() - i,
        {
            let (ti, bf, bt) = items[i];
            if ti == position {
                return Some((bf, bt));
            }
            if ti > position {
                return None;
            }
            i += 1;
        }
        None
    }

    /// The positions of an ordinal in one document, in order; empty when the
    /// document has none.
    pub fn positions_for_doc(&self, ordinal: u32, target_doc: u32) -> (r: Vec<u32>)
        requires
            self.wf(),
        ensures
            r@ == Seq::new(
                items_for(self.bytes(), self.gmap(), ordinal, target_doc).len(),
                |i: int| items_for(self.bytes(), self.gmap(), ordinal, target_doc)[i].0,
            ),
    {
        let items = self.items(ordinal, target_doc);
        let mut out: Vec<u32> = Vec::new();
        let mut i: usize = 0;
        while i < items.len()
            invariant
                i <= items@.len(),
                out@ =~= Seq::new(i as nat, |k: int| items@[k].0),
            decreases items@.len() - i,
        {
            out.push(items[i].0);
            i += 1;
        }
        out
    }

    /// Whether an ordinal occurs at a position in a document.
    pub fn has_position(&self, ordinal: u32, doc_id: u32, position: u32) -> (r: bool)
        requires
            self.wf(),
        ensures
            r == (item_at(items_for(self.bytes(), self.gmap(), ordinal, doc_id), position, 0)
                is Some),
    {
        self.entry_at(ordinal, doc_id, position).is_some()
    }

    /// Number of documents of an ordinal, as its header counts them.
    pub fn doc_freq(&self, ordinal: u32) -> (r: u32)
        requires
            self.wf(),
        ensures
            r == (match block_for(self.bytes(), self.gmap(), ordinal) {
                None => 0,
                Some(b) => b.n,
            }),
    {
        match self.header_for(ordinal) {
            None => 0,
            Some(header) => {
                assert(header.num_docs <= u32::MAX);
                header.num_docs as u32
            },
        }
    }
}

fn collect<'a>(header: &OrdinalHeader<'a>, list: &Vec<(u32, u32, u32)>) -> (r: Vec<
    (u32, u32, u32, u32),
>)
    ensures
        r@ == entries_upto(header.block(), list@, list@.len() as int),
{
    let ghost b = header.block();
    let mut out: Vec<(u32, u32, u32, u32)> = Vec::new();
    let mut k: usize = 0;
    while k < list.len()
        invariant
            b == header.block(),
            k <= list@.len(),
            out@ == entries_upto(b, list@, k as int),
        decreases list@.len() - k,
    {
        let (doc, offset, count) = list[k];
        let items = header.walk_payload(offset, count);
        assert(items@ == items_of(b, (doc, offset, count)));
        let ghost before = out@;
        let ghost more = Seq::new(
            items@.len(),
            |i: int| (doc, items@[i].0, items@[i].1, items@[i].2),
        );
        let mut i: usize = 0;
        while i < items.len()
            invariant
                i <= items@.len(),
                more == Seq::new(
                    items@.len(),
                    |i: int| (doc, items@[i].0, items@[i].1, items@[i].2),
                ),
                out@ =~= before + more.take(i as int),
            decreases items@.len() - i,
        {
            let (ti, bf, bt) = items[i];
            out.push((doc, ti, bf, bt));
            i += 1;
        }
        assert(more.take(i as int) =~= more);
        assert(list@[k as int] == (doc, offset, count));
        k += 1;
    }
    out
}

/// The entries of groups, in order.
pub open spec fn flatten(
    g: Seq<(u32, Seq<(u32, u32, u32)>)>,
    k: int,
) -> Seq<(u32, u32, u32, u32)>
    decreases k,
{
    if k <= 0 {
        Seq::empty()
    } else {
        let items = g[k - 1].1;
        flatten(g, k - 1) + Seq::new(
            items.len(),
            |i: int| (g[k - 1].0, items[i].0, items[i].1, items[i].2),
        )
    }
}

proof fn lemma_flatten_prefix(
    g: Seq<(u32, Seq<(u32, u32, u32)>)>,
    h: Seq<(u32, Seq<(u32, u32, u32)>)>,
    k: int,
)
    requires
        0 <= k <= g.len(),
        k <= h.len(),
        forall|i: int| 0 <= i < k ==> g[i] == h[i],
    ensures
        flatten(g, k) == flatten(h, k),
    decreases k,
{
    if k > 0 {
        lemma_flatten_prefix(g, h, k - 1);
    }
}

/// Grouping keeps the entries and their order.
proof fn lemma_flatten_groups(e: Seq<(u32, u32, u32, u32)>)
    ensures
        flatten(groups(e), groups(e).len() as int) == e,
    decreases e.len(),
{
    if e.len() > 0 {
        let p = e.drop_last();
        lemma_flatten_groups(p);
        let g = groups(p);
        let h = groups(e);
        let x = e.last();
        if g.len() > 0 && g.last().0 == x.0 {
            lemma_flatten_prefix(g, h, g.len() - 1);
            let items = g.last().1;
            let more = h.last().1;
            let a = Seq::new(
                items.len(),
                |i: int| (g[g.len() - 1].0, items[i].0, items[i].1, items[i].2),
            );
            let b = Seq::new(
                more.len(),
                |i: int| (h[h.len() - 1].0, more[i].0, more[i].1, more[i].2),
            );
            assert(b =~= a.push(x));
            assert(flatten(h, h.len() as int) =~= flatten(g, g.len() as int).push(x));
        } else {
            lemma_flatten_prefix(g, h, g.len() as int);
            let more = h.last().1;
            let b = Seq::new(
                more.len(),
                |i: int| (h[h.len() - 1].0, more[i].0, more[i].1, more[i].2),
            );
            assert(b =~= seq![x]);
            assert(flatten(h, h.len() as int) =~= flatten(g, g.len() as int).push(x));
        }
        assert(p.push(x) =~= e);
    } else {
        assert(flatten(groups(e), 0) =~= e);
    }
}

/// The documents of sorted entries increase.
proof fn lemma_groups_increase(e: Seq<(u32, u32, u32, u32)>)
    requires
        order::is_sorted(e),
    ensures
        forall|i: int, j: int|
            0 <= i < j < groups(e).len() ==> (#[trigger] groups(e)[i]).0 < (
            #[trigger] groups(e)[j]).0,
        e.len() > 0 ==> groups(e).len() > 0 && groups(e).last().0 == e.last().0,
    decreases e.len(),
{
    if e.len() > 0 {
        let p = e.drop_last();
        assert(order::is_sorted(p)) by {
            assert forall|i: int, j: int| 0 <= i < j < p.len() implies order::Ordered::not_after(
                #[trigger] p[i],
                #[trigger] p[j],
            ) by {
                assert(order::Ordered::not_after(e[i], e[j]));
            }
        }
        lemma_groups_increase(p);
        let g = groups(p);
        let x = e.last();
        if g.len() > 0 && g.last().0 != x.0 {
            assert(p.len() > 0) by {
                if p.len() == 0 {
                    assert(groups(p).len() == 0);
                }
            }
            assert(order::Ordered::not_after(e[p.len() - 1], e[p.len() as int]));
            assert(p.last() == e[p.len() - 1]);
        }
    }
}

/// What the list of documents of a written ordinal is.
pub open spec fn doc_list(
    g: Seq<(u32, Seq<(u32, u32, u32)>)>,
    spans: bool,
) -> Seq<(u32, u32, u32)> {
    Seq::new(
        g.len(),
        |i: int| (g[i].0, bytes::start_of(payloads(g, spans), i) as u32, g[i].1.len() as u32),
    )
}

/// Whether the numbers of a group list fit the fields they are written in.
spec fn fits(g: Seq<(u32, Seq<(u32, u32, u32)>)>, spans: bool) -> bool {
    &&& bytes::flat(payloads(g, spans)).len() <= u32::MAX
    &&& headers_upto(g, spans, g.len() as int).len() <= u32::MAX
    &&& g.len() <= u32::MAX
    &&& forall|i: int| 0 <= i < g.len() ==> (#[trigger] g[i]).1.len() <= u32::MAX
}

proof fn lemma_headers_prefix(g: Seq<(u32, Seq<(u32, u32, u32)>)>, spans: bool, i: int, j: int)
    requires
        0 <= i <= j,
    ensures
        headers_upto(g, spans, i).len() <= headers_upto(g, spans, j).len(),
        headers_upto(g, spans, j).subrange(0, headers_upto(g, spans, i).len() as int)
            == headers_upto(g, spans, i),
    decreases j,
{
    let a = headers_upto(g, spans, i);
    let b = headers_upto(g, spans, j);
    if i < j {
        lemma_headers_prefix(g, spans, i, j - 1);
        let c = headers_upto(g, spans, j - 1);
        assert(b.subrange(0, a.len() as int) =~= c.subrange(0, a.len() as int));
    } else {
        assert(b.subrange(0, a.len() as int) =~= a);
    }
}

proof fn lemma_u32_read(s: Seq<u8>, p: int, v: u64)
    requires
        v <= u32::MAX,
        0 <= p,
        p + varint::varint(v).len() <= s.len(),
        s.subrange(p, p + varint::varint(v).len()) == varint::varint(v),
    ensures
        varint::u32_varint_at(s, p) == (Some(v as u32), p + varint::varint(v).len()),
        vint_at(s, p, 5) == (v as u32, p + varint::varint(v).len()),
{
    varint::lemma_varint_len(v);
    varint::lemma_varint_read(s, p, v, 10);
    lemma_vint_read(s, p, v, 5);
}

proof fn lemma_vint_read(s: Seq<u8>, p: int, v: u64, n: nat)
    requires
        v <= u32::MAX,
        0 <= p,
        p + varint::varint(v).len() <= s.len(),
        s.subrange(p, p + varint::varint(v).len()) == varint::varint(v),
        varint::varint(v).len() <= n,
    ensures
        vint_at(s, p, n) == (v as u32, p + varint::varint(v).len()),
    decreases n,
{
    let e = varint::varint(v);
    assert(s[p] == s.subrange(p, p + e.len())[0]);
    if v >= 128 {
        let r = varint::varint(v / 128);
        assert(e.len() == r.len() + 1);
        assert(s.subrange(p + 1, p + 1 + r.len()) =~= s.subrange(p, p + e.len()).subrange(
            1,
            e.len() as int,
        ));
        assert(e.subrange(1, e.len() as int) =~= r);
        lemma_vint_read(s, p + 1, v / 128, (n - 1) as nat);
    }
}

/// The `k`-th header reads back.
#[verifier::spinoff_prover]
#[verifier::rlimit(60)]
proof fn lemma_triple(g: Seq<(u32, Seq<(u32, u32, u32)>)>, spans: bool, k: int)
    requires
        fits(g, spans),
        0 <= k < g.len(),
    ensures
        triple(
            headers_upto(g, spans, g.len() as int),
            headers_upto(g, spans, k).len() as int,
        ) == Some(
            (
                g[k].0.wrapping_sub(doc_before(g, k)),
                payloads(g, spans)[k].len() as u32,
                g[k].1.len() as u32,
                headers_upto(g, spans, k + 1).len() as int,
            ),
        ),
{
    let n = g.len() as int;
    let h = headers_upto(g, spans, n);
    let p = headers_upto(g, spans, k).len() as int;
    let q = headers_upto(g, spans, k + 1);
    lemma_headers_prefix(g, spans, k + 1, n);
    bytes::lemma_flat_at(payloads(g, spans), k);
    let a = varint::varint(g[k].0.wrapping_sub(doc_before(g, k)) as u64);
    let b = varint::varint(payloads(g, spans)[k].len() as u64);
    let c = varint::varint(g[k].1.len() as u64);
    assert(q =~= headers_upto(g, spans, k) + a + b + c);
    assert(h.subrange(p, p + a.len()) =~= h.subrange(0, q.len() as int).subrange(p, p + a.len()));
    assert(q.subrange(p, p + a.len()) =~= a);
    lemma_u32_read(h, p, g[k].0.wrapping_sub(doc_before(g, k)) as u64);
    let p2 = p + a.len();
    assert(h.subrange(p2, p2 + b.len()) =~= h.subrange(0, q.len() as int).subrange(
        p2,
        p2 + b.len(),
    ));
    assert(q.subrange(p2, p2 + b.len()) =~= b);
    lemma_u32_read(h, p2, payloads(g, spans)[k].len() as u64);
    let p3 = p2 + b.len();
    assert(h.subrange(p3, p3 + c.len()) =~= h.subrange(0, q.len() as int).subrange(
        p3,
        p3 + c.len(),
    ));
    assert(q.subrange(p3, p3 + c.len()) =~= c);
    lemma_u32_read(h, p3, g[k].1.len() as u64);
}

/// The sums after the first `k` headers.
proof fn lemma_step(g: Seq<(u32, Seq<(u32, u32, u32)>)>, spans: bool, k: int)
    requires
        fits(g, spans),
        0 <= k < g.len(),
    ensures
        doc_before(g, k).wrapping_add(g[k].0.wrapping_sub(doc_before(g, k))) == g[k].0,
        doc_before(g, k + 1) == g[k].0,
        (bytes::start_of(payloads(g, spans), k) as u32).wrapping_add(
            payloads(g, spans)[k].len() as u32,
        ) == bytes::start_of(payloads(g, spans), k + 1) as u32,
        0 <= bytes::start_of(payloads(g, spans), k) <= u32::MAX,
        0 <= bytes::start_of(payloads(g, spans), k + 1) <= u32::MAX,
{
    bytes::lemma_flat_at(payloads(g, spans), k);
}

proof fn lemma_docs_from(g: Seq<(u32, Seq<(u32, u32, u32)>)>, spans: bool, k: int)
    requires
        fits(g, spans),
        0 <= k <= g.len(),
    ensures
        docs_from(
            headers_upto(g, spans, g.len() as int),
            headers_upto(g, spans, k).len() as int,
            doc_before(g, k),
            bytes::start_of(payloads(g, spans), k) as u32,
            g.len() - k,
        ) == doc_list(g, spans).skip(k),
    decreases g.len() - k,
{
    let list = doc_list(g, spans);
    if k < g.len() {
        lemma_triple(g, spans, k);
        lemma_step(g, spans, k);
        lemma_docs_from(g, spans, k + 1);
        assert(list.skip(k) =~= seq![list[k]] + list.skip(k + 1));
    } else {
        assert(list.skip(k) =~= Seq::<(u32, u32, u32)>::empty());
    }
}

proof fn lemma_doc_after(
    g: Seq<(u32, Seq<(u32, u32, u32)>)>,
    spans: bool,
    k: int,
    count: u32,
    left: int,
)
    requires
        fits(g, spans),
        0 <= k,
        0 <= left,
        k + left < g.len(),
    ensures
        doc_after(
            headers_upto(g, spans, g.len() as int),
            headers_upto(g, spans, k).len() as int,
            doc_before(g, k),
            bytes::start_of(payloads(g, spans), k) as u32,
            count,
            left,
        ) == doc_list(g, spans)[k + left],
    decreases left,
{
    lemma_triple(g, spans, k);
    lemma_step(g, spans, k);
    if left > 0 {
        lemma_doc_after(g, spans, k + 1, g[k].1.len() as u32, left - 1);
    }
}

proof fn lemma_scan(
    g: Seq<(u32, Seq<(u32, u32, u32)>)>,
    spans: bool,
    k: int,
    end: int,
    target: u32,
)
    requires
        fits(g, spans),
        0 <= k <= end <= g.len(),
        forall|i: int, j: int| 0 <= i < j < g.len() ==> (#[trigger] g[i]).0 < (#[trigger] g[j]).0,
    ensures
        match scan(
            headers_upto(g, spans, g.len() as int),
            headers_upto(g, spans, k).len() as int,
            doc_before(g, k),
            bytes::start_of(payloads(g, spans), k) as u32,
            k,
            end,
            target,
        ) {
            Some(t) => k <= t.0 < end && doc_list(g, spans)[t.0] == (target, t.1, t.2),
            None => forall|i: int| k <= i < end ==> (#[trigger] g[i]).0 != target,
        },
    decreases end - k,
{
    if k < end {
        lemma_triple(g, spans, k);
        lemma_step(g, spans, k);
        if g[k].0 < target {
            lemma_scan(g, spans, k + 1, end, target);
        }
    }
}

proof fn lemma_checkpoints(g: Seq<(u32, Seq<(u32, u32, u32)>)>, spans: bool, k: int, j: int)
    requires
        0 <= k,
        1 <= j <= checkpoint_count(k) || j == 0,
    ensures
        checkpoints_upto(g, spans, k).len() == 12 * checkpoint_count(k),
        j >= 1 ==> checkpoints_upto(g, spans, k).subrange(12 * (j - 1), 12 * (j - 1) + 12)
            == checkpoint(g, spans, 8 * j),
    decreases k,
{
    broadcast use bytes::group_le_len;

    if k > 0 {
        let c = checkpoints_upto(g, spans, k);
        let d = checkpoints_upto(g, spans, k - 1);
        if k - 1 > 0 && (k - 1) % 8 == 0 {
            lemma_checkpoints(g, spans, k - 1, 0);
            assert(checkpoint_count(k) == checkpoint_count(k - 1) + 1);
            if j == checkpoint_count(k) {
                assert(8 * j == k - 1);
                assert(c.subrange(12 * (j - 1), 12 * (j - 1) + 12) =~= checkpoint(
                    g,
                    spans,
                    k - 1,
                ));
            } else if j >= 1 {
                lemma_checkpoints(g, spans, k - 1, j);
                assert(c.subrange(12 * (j - 1), 12 * (j - 1) + 12) =~= d.subrange(
                    12 * (j - 1),
                    12 * (j - 1) + 12,
                ));
            }
        } else {
            assert(checkpoint_count(k) == checkpoint_count(k - 1)) by {
                if k > 1 {
                    assert((k - 1) / 8 == (k - 2) / 8);
                }
            }
            lemma_checkpoints(g, spans, k - 1, j);
        }
    }
}

/// A written ordinal's parts.
spec fn written(g: Seq<(u32, Seq<(u32, u32, u32)>)>, spans: bool) -> Block {
    let n = g.len() as int;
    Block {
        v3: true,
        spans,
        n,
        first: checkpoints_upto(g, spans, n),
        second: headers_upto(g, spans, n),
        third: Seq::empty(),
        payload: bytes::flat(payloads(g, spans)),
    }
}

proof fn lemma_checkpoint_state(g: Seq<(u32, Seq<(u32, u32, u32)>)>, spans: bool, j: int)
    requires
        fits(g, spans),
        0 <= j <= checkpoint_count(g.len() as int),
    ensures
        checkpoint_state(written(g, spans), j) == (
            doc_before(g, 8 * j),
            bytes::start_of(payloads(g, spans), 8 * j) as u32,
            headers_upto(g, spans, 8 * j).len() as int,
        ),
        j >= 1 ==> bytes::get32(written(g, spans).first, 12 * (j - 1)) == doc_before(g, 8 * j),
{
    broadcast use bytes::group_le_len;

    let n = g.len() as int;
    let c = checkpoints_upto(g, spans, n);
    lemma_checkpoints(g, spans, n, j);
    bytes::lemma_start_ends(payloads(g, spans));
    if j >= 1 {
        let at = 12 * (j - 1);
        let e = checkpoint(g, spans, 8 * j);
        assert(c.subrange(at, at + 4) =~= c.subrange(at, at + 12).subrange(0, 4));
        assert(e.subrange(0, 4) =~= bytes::le32(doc_before(g, 8 * j)));
        bytes::lemma_get32(c, at, doc_before(g, 8 * j));
        let off = bytes::start_of(payloads(g, spans), 8 * j) as u32;
        assert(c.subrange(at + 4, at + 8) =~= c.subrange(at, at + 12).subrange(4, 8));
        assert(e.subrange(4, 8) =~= bytes::le32(off));
        bytes::lemma_get32(c, at + 4, off);
        let pos = headers_upto(g, spans, 8 * j).len() as u32;
        assert(c.subrange(at + 8, at + 12) =~= c.subrange(at, at + 12).subrange(8, 12));
        assert(e.subrange(8, 12) =~= bytes::le32(pos));
        bytes::lemma_get32(c, at + 8, pos);
        lemma_headers_mono(g, spans, 8 * j, n);
    }
}

proof fn lemma_halve_checkpoints(
    g: Seq<(u32, Seq<(u32, u32, u32)>)>,
    spans: bool,
    lo: int,
    hi: int,
    target: u32,
)
    requires
        fits(g, spans),
        0 <= lo <= hi <= checkpoint_count(g.len() as int),
        forall|i: int, j: int| 0 <= i < j < g.len() ==> (#[trigger] g[i]).0 < (#[trigger] g[j]).0,
        lo >= 1 ==> doc_before(g, 8 * lo) < target,
        hi < checkpoint_count(g.len() as int) ==> doc_before(g, 8 * (hi + 1)) >= target,
    ensures
        ({
            let k = halve_checkpoints(written(g, spans).first, lo, hi, target);
            &&& lo <= k <= hi
            &&& k >= 1 ==> doc_before(g, 8 * k) < target
            &&& k < checkpoint_count(g.len() as int) ==> doc_before(g, 8 * (k + 1)) >= target
        }),
    decreases hi - lo,
{
    if lo < hi {
        let mid = lo + (hi - lo) / 2 + 1;
        lemma_checkpoint_state(g, spans, mid);
        if doc_before(g, 8 * mid) < target {
            lemma_halve_checkpoints(g, spans, mid, hi, target);
        } else {
            lemma_halve_checkpoints(g, spans, lo, mid - 1, target);
        }
    }
}

proof fn lemma_find_doc(g: Seq<(u32, Seq<(u32, u32, u32)>)>, spans: bool, target: u32)
    requires
        fits(g, spans),
        forall|i: int, j: int| 0 <= i < j < g.len() ==> (#[trigger] g[i]).0 < (#[trigger] g[j]).0,
    ensures
        match find_doc(written(g, spans), target) {
            Some(t) => 0 <= t.0 < g.len() && doc_list(g, spans)[t.0] == (target, t.1, t.2),
            None => forall|i: int| 0 <= i < g.len() ==> (#[trigger] g[i]).0 != target,
        },
{
    let n = g.len() as int;
    let b = written(g, spans);
    let c = checkpoint_count(n);
    lemma_halve_checkpoints(g, spans, 0, c, target);
    let k = halve_checkpoints(b.first, 0, c, target);
    lemma_checkpoint_state(g, spans, k);
    let end = if 8 * k + 8 < n {
        8 * k + 8
    } else {
        n
    };
    lemma_scan(g, spans, 8 * k, end, target);
    if find_doc(b, target) is None {
        assert forall|i: int| 0 <= i < n implies (#[trigger] g[i]).0 != target by {
            if i < 8 * k {
                assert(g[8 * k - 1].0 < target);
                if i < 8 * k - 1 {
                    assert(g[i].0 < g[8 * k - 1].0);
                }
            } else if i >= end {
                assert(k < c);
                assert(g[8 * (k + 1) - 1].0 >= target);
                assert(g[8 * (k + 1) - 1].0 < g[i].0);
            }
        }
    }
}

/// What the entries of a document read as.
pub open spec fn shown_items(
    items: Seq<(u32, u32, u32)>,
    spans: bool,
) -> Seq<(u32, u32, u32)> {
    Seq::new(
        items.len(),
        |i: int|
            if spans {
                items[i]
            } else {
                (items[i].0, 0, 0)
            },
    )
}

proof fn lemma_payload_grow(items: Seq<(u32, u32, u32)>, spans: bool, i: int, j: int)
    requires
        0 <= i <= j,
    ensures
        payload_upto(items, i, spans).len() <= payload_upto(items, j, spans).len(),
        payload_upto(items, j, spans).subrange(0, payload_upto(items, i, spans).len() as int)
            == payload_upto(items, i, spans),
    decreases j,
{
    let a = payload_upto(items, i, spans);
    let b = payload_upto(items, j, spans);
    if i < j {
        lemma_payload_grow(items, spans, i, j - 1);
        let c = payload_upto(items, j - 1, spans);
        assert(b.subrange(0, a.len() as int) =~= c.subrange(0, a.len() as int));
    } else {
        assert(b.subrange(0, a.len() as int) =~= a);
    }
}

#[verifier::spinoff_prover]
#[verifier::rlimit(60)]
proof fn lemma_items_from(b: Block, base: int, items: Seq<(u32, u32, u32)>, k: int)
    requires
        b.v3,
        0 <= base,
        0 <= k <= items.len(),
        base + payload_upto(items, items.len() as int, b.spans).len() <= b.payload.len(),
        b.payload.subrange(
            base,
            base + payload_upto(items, items.len() as int, b.spans).len(),
        ) == payload_upto(items, items.len() as int, b.spans),
    ensures
        items_from(
            b,
            base + payload_upto(items, k, b.spans).len(),
            before(items, k).0,
            if b.spans {
                before(items, k).1
            } else {
                0
            },
            items.len() - k,
        ) == shown_items(items, b.spans).skip(k),
    decreases items.len() - k,
{
    let n = items.len() as int;
    let want = shown_items(items, b.spans);
    if k < n {
        let p = b.payload;
        let all = payload_upto(items, n, b.spans);
        let pos = base + payload_upto(items, k, b.spans).len();
        let part = payload_upto(items, k + 1, b.spans);
        let prev = before(items, k);
        let x = items[k];
        lemma_payload_grow(items, b.spans, k + 1, n);
        assert(p.subrange(base, base + part.len()) =~= p.subrange(base, base + all.len()).subrange(
            0,
            part.len() as int,
        ));
        let ib = item_bytes(items, k, b.spans);
        assert(part =~= payload_upto(items, k, b.spans) + ib);
        assert(p.subrange(base, base + part.len()) == part);
        assert(p.subrange(pos, pos + ib.len()) =~= p.subrange(base, base + part.len()).subrange(
            pos - base,
            part.len() as int,
        ));
        assert(part.subrange(pos - base, part.len() as int) =~= ib);
        let d = x.0.wrapping_sub(prev.0);
        let a = varint::varint(d as u64);
        varint::lemma_varint_len(d as u64);
        assert(p.subrange(pos, pos + a.len()) =~= ib.subrange(0, a.len() as int));
        assert(ib.subrange(0, a.len() as int) =~= a);
        lemma_u32_read(p, pos, d as u64);
        if b.spans {
            let f = x.1.wrapping_sub(prev.1);
            let c = varint::varint(f as u64);
            varint::lemma_varint_len(f as u64);
            let pos2 = pos + a.len();
            let t = x.2.wrapping_sub(x.1);
            let e = varint::varint(t as u64);
            varint::lemma_varint_len(t as u64);
            assert(ib =~= a + c + e);
            assert(p.subrange(pos2, pos2 + c.len()) =~= ib.subrange(
                a.len() as int,
                a.len() as int + c.len(),
            ));
            assert(ib.subrange(a.len() as int, a.len() as int + c.len()) =~= c);
            lemma_u32_read(p, pos2, f as u64);
            let pos3 = pos2 + c.len();
            assert(p.subrange(pos3, pos3 + e.len()) =~= ib.subrange(
                a.len() as int + c.len(),
                ib.len() as int,
            ));
            assert(ib.subrange(a.len() as int + c.len(), ib.len() as int) =~= e);
            lemma_u32_read(p, pos3, t as u64);
            assert(prev.1.wrapping_add(f) == x.1);
            assert(x.1.wrapping_add(t) == x.2);
        }
        assert(prev.0.wrapping_add(d) == x.0);
        lemma_items_from(b, base, items, k + 1);
        assert(want.skip(k) =~= seq![want[k]] + want.skip(k + 1));
    } else {
        assert(want.skip(k) =~= Seq::<(u32, u32, u32)>::empty());
    }
}

proof fn lemma_items_of(g: Seq<(u32, Seq<(u32, u32, u32)>)>, spans: bool, i: int)
    requires
        fits(g, spans),
        0 <= i < g.len(),
    ensures
        items_of(written(g, spans), doc_list(g, spans)[i]) == shown_items(g[i].1, spans),
{
    let b = written(g, spans);
    let pays = payloads(g, spans);
    bytes::lemma_flat_at(pays, i);
    let items = g[i].1;
    let base = bytes::start_of(pays, i);
    assert(payload_upto(items, 0, spans) =~= Seq::<u8>::empty());
    lemma_items_from(b, base, items, 0);
    assert(shown_items(items, spans).skip(0) =~= shown_items(items, spans));
}

proof fn lemma_entries_upto(g: Seq<(u32, Seq<(u32, u32, u32)>)>, spans: bool, k: int)
    requires
        fits(g, spans),
        0 <= k <= g.len(),
        spans || (forall|i: int, j: int|
            0 <= i < g.len() && 0 <= j < g[i].1.len() ==> (#[trigger] g[i].1[j]).1 == 0
                && g[i].1[j].2 == 0),
    ensures
        entries_upto(written(g, spans), doc_list(g, spans), k) == flatten(g, k),
    decreases k,
{
    if k > 0 {
        lemma_entries_upto(g, spans, k - 1);
        lemma_items_of(g, spans, k - 1);
        let items = g[k - 1].1;
        let shown = shown_items(items, spans);
        assert(shown =~= items) by {
            assert forall|j: int| 0 <= j < items.len() implies shown[j] == items[j] by {
                if !spans {
                    assert(g[k - 1].1[j].1 == 0);
                }
            }
        }
    }
}

/// Law: a written ordinal comes apart into as many documents as its entries
/// have, every way of reading it agrees, and its entries are those that were
/// added, sorted; without spans, if the entries had none.
pub proof fn written_ordinal_reads_back(e: Seq<(u32, u32, u32, u32)>, spans: bool)
    requires
        order::is_sorted(e),
        e.len() > 0,
        ordinal_bytes(groups(e), spans).len() <= u32::MAX,
        e.len() <= u32::MAX,
        spans || (forall|i: int| 0 <= i < e.len() ==> (#[trigger] e[i]).2 == 0 && e[i].3 == 0),
    ensures
        ({
            let d = ordinal_bytes(groups(e), spans);
            &&& d.len() >= 4
            &&& split(d, true, spans) matches Some(b) && b.n == groups(e).len() && agrees(b)
                && all_entries(b) == e && docs(b).len() == groups(e).len() && (forall|i: int|
                0 <= i < groups(e).len() ==> (#[trigger] docs(b)[i]).0 == groups(e)[i].0
                    && items_of(b, docs(b)[i]) == groups(e)[i].1)
        }),
{
    let g = groups(e);
    let n = g.len() as int;
    let d = ordinal_bytes(g, spans);
    lemma_groups_increase(e);
    lemma_flatten_groups(e);
    assert forall|i: int| 0 <= i < n implies (#[trigger] g[i]).1.len() <= u32::MAX by {
        lemma_groups_count(e, i);
    }
    assert forall|i: int| 0 <= i < n implies (#[trigger] g[i]).1.len() > 0 by {
        lemma_groups_count(e, i);
    }
    lemma_groups_count(e, 0);
    assert(fits(g, spans));
    let b = written(g, spans);
    lemma_split(g, spans);
    bytes::lemma_start_ends(payloads(g, spans));
    lemma_docs_from(g, spans, 0);
    assert(doc_list(g, spans).skip(0) =~= doc_list(g, spans));
    assert(docs(b) == doc_list(g, spans));
    assert forall|i: int| 0 <= i < n implies #[trigger] doc_at(b, i) == docs(b)[i] by {
        let k = i / 8;
        lemma_checkpoint_state(g, spans, k);
        lemma_doc_after(g, spans, 8 * k, 0, i % 8);
    }
    assert forall|t: u32|
        match #[trigger] find_doc(b, t) {
            Some(r) => 0 <= r.0 < n && docs(b)[r.0] == (t, r.1, r.2),
            None => forall|i: int| 0 <= i < n ==> (#[trigger] docs(b)[i]).0 != t,
        } by {
        lemma_find_doc(g, spans, t);
        if find_doc(b, t) is None {
            assert forall|i: int| 0 <= i < n implies (#[trigger] docs(b)[i]).0 != t by {
                assert(g[i].0 != t);
            }
        }
    }
    assert(agrees(b));
    if !spans {
        lemma_no_spans(e);
    }
    lemma_entries_upto(g, spans, n);
    assert forall|i: int| 0 <= i < n implies (#[trigger] docs(b)[i]).0 == g[i].0 && items_of(
        b,
        docs(b)[i],
    ) == g[i].1 by {
        lemma_items_of(g, spans, i);
        let items = g[i].1;
        assert(shown_items(items, spans) =~= items) by {
            assert forall|j: int| 0 <= j < items.len() implies shown_items(items, spans)[j]
                == items[j] by {
                if !spans {
                    assert(g[i].1[j].1 == 0);
                }
            }
        }
    }
}

proof fn lemma_no_spans(e: Seq<(u32, u32, u32, u32)>)
    requires
        forall|i: int| 0 <= i < e.len() ==> (#[trigger] e[i]).2 == 0 && e[i].3 == 0,
    ensures
        forall|i: int, j: int|
            0 <= i < groups(e).len() && 0 <= j < groups(e)[i].1.len() ==> (
            #[trigger] groups(e)[i].1[j]).1 == 0 && groups(e)[i].1[j].2 == 0,
    decreases e.len(),
{
    if e.len() > 0 {
        let p = e.drop_last();
        assert forall|i: int| 0 <= i < p.len() implies (#[trigger] p[i]).2 == 0 && p[i].3 == 0 by {
            assert(p[i] == e[i]);
        }
        lemma_no_spans(p);
        assert(e[e.len() - 1].2 == 0 && e[e.len() - 1].3 == 0);
        let g = groups(p);
        let h = groups(e);
        assert forall|i: int, j: int| 0 <= i < h.len() && 0 <= j < h[i].1.len() implies (
        #[trigger] h[i].1[j]).1 == 0 && h[i].1[j].2 == 0 by {
            if i < h.len() - 1 {
                assert(h[i] == g[i]);
                assert(g[i].1[j].1 == 0);
            } else if g.len() > 0 && g.last().0 == e.last().0 && j < g.last().1.len() {
                assert(h[i].1[j] == g[g.len() - 1].1[j]);
                assert(g[g.len() - 1].1[j].1 == 0);
            }
        }
    }
}

proof fn lemma_split(g: Seq<(u32, Seq<(u32, u32, u32)>)>, spans: bool)
    requires
        fits(g, spans),
        g.len() > 0,
        forall|i: int| 0 <= i < g.len() ==> (#[trigger] g[i]).1.len() > 0,
    ensures
        ordinal_bytes(g, spans).len() >= 4,
        split(ordinal_bytes(g, spans), true, spans) == Some(written(g, spans)),
{
    let n = g.len() as int;
    let d = ordinal_bytes(g, spans);
    let h = headers_upto(g, spans, n);
    let c = checkpoints_upto(g, spans, n);
    let v = varint::varint(n as u64);
    let w = varint::varint(h.len() as u64);
    varint::lemma_varint_len(n as u64);
    varint::lemma_varint_len(h.len() as u64);
    lemma_checkpoints(g, spans, n, 0);
    lemma_headers_count(g, spans, n);
    assert(d.subrange(0, v.len() as int) =~= v);
    lemma_u32_read(d, 0, n as u64);
    assert(d.subrange(v.len() as int, v.len() as int + w.len()) =~= w);
    lemma_u32_read(d, v.len() as int, h.len() as u64);
    let p = v.len() + w.len();
    let a = p + c.len();
    let b = a + h.len();
    assert(d.subrange(p as int, a as int) =~= c);
    assert(d.subrange(a as int, b as int) =~= h);
    assert(d.skip(b as int) =~= bytes::flat(payloads(g, spans)));
}

proof fn lemma_headers_count(g: Seq<(u32, Seq<(u32, u32, u32)>)>, spans: bool, k: int)
    requires
        0 <= k,
    ensures
        headers_upto(g, spans, k).len() >= 3 * k,
    decreases k,
{
    if k > 0 {
        lemma_headers_count(g, spans, k - 1);
        varint::lemma_varint_len(g[k - 1].0.wrapping_sub(doc_before(g, k - 1)) as u64);
        varint::lemma_varint_len(payloads(g, spans)[k - 1].len() as u64);
        varint::lemma_varint_len(g[k - 1].1.len() as u64);
    }
}

#[verifier::spinoff_prover]
#[verifier::rlimit(60)]
proof fn lemma_file_parts(ordinals: Seq<Seq<(u32, u32, u32, u32)>>, spans: bool, o: int)
    requires
        ordinals.len() < u32::MAX,
        bytes::flat(ordinals_bytes(ordinals, spans)).len() <= u32::MAX,
        bytes::flat(
            block_offsets::all_blocks(bytes::starts32(ordinals_bytes(ordinals, spans))),
        ).len() <= u32::MAX,
        0 <= o < ordinals.len(),
    ensures
        ({
            let f = file_bytes(ordinals, spans);
            let blocks = ordinals_bytes(ordinals, spans);
            &&& opens(f)
            &&& bytes::get32(f, 4) == ordinals.len()
            &&& kind(f) == Some((true, true, spans))
            &&& offset_at(f, o) == bytes::start_of(blocks, o)
            &&& offset_at(f, o + 1) == bytes::start_of(blocks, o + 1)
            &&& f.skip(data_start(f)) == bytes::flat(blocks)
        }),
{
    broadcast use bytes::group_le_len;

    let f = file_bytes(ordinals, spans);
    let blocks = ordinals_bytes(ordinals, spans);
    let offsets = bytes::starts32(blocks);
    let table = block_offsets::table_bytes(offsets);
    let magic = if spans {
        SFP4
    } else {
        SFP5
    };
    lemma_starts_ascend(blocks);
    block_offsets::written_table_reads_back(offsets, bytes::flat(blocks));
    assert(f.subrange(0, 4) =~= bytes::le32(magic));
    bytes::lemma_get32(f, 0, magic);
    assert(f.subrange(4, 8) =~= bytes::le32(ordinals.len() as u32));
    bytes::lemma_get32(f, 4, ordinals.len() as u32);
    let rest = table + bytes::flat(blocks);
    assert(f.skip(8) =~= rest);
    assert(rest.subrange(0, 4) =~= f.subrange(8, 12));
    bytes::lemma_get32_local(rest, 0, f, 8);
    assert(rest.subrange(4, 8) =~= f.subrange(12, 16));
    bytes::lemma_get32_local(rest, 4, f, 12);
    assert(opens(f));
    let mid = 20 + 4 * bytes::get32(f, 12);
    let start = data_start(f);
    assert(start == 8 + table.len());
    assert(f.subrange(20, mid) =~= rest.subrange(12, 12 + 4 * bytes::get32(rest, 4)));
    assert(f.subrange(mid, start) =~= rest.subrange(
        12 + 4 * bytes::get32(rest, 4),
        block_offsets::table_len(rest),
    ));
    assert(offset_at(f, o) == offsets[o]);
    assert(offset_at(f, o + 1) == offsets[o + 1]);
    bytes::lemma_flat_at(blocks, o);
    assert(f.skip(start) =~= bytes::flat(blocks));
}

/// Law: a written file opens with the number of ordinals and the spans it was
/// written with, and holds for each ordinal the entries that were added,
/// sorted by document and position; lookups by document agree with the list.
pub proof fn written_file_reads_back(
    ordinals: Seq<Seq<(u32, u32, u32, u32)>>,
    spans: bool,
    o: int,
)
    requires
        ordinals.len() < u32::MAX,
        bytes::flat(ordinals_bytes(ordinals, spans)).len() <= u32::MAX,
        bytes::flat(block_offsets::all_blocks(bytes::starts32(ordinals_bytes(ordinals, spans)))).len()
            <= u32::MAX,
        0 <= o < ordinals.len(),
        ordinals[o].len() <= u32::MAX,
        spans || (forall|i: int|
            0 <= i < ordinals[o].len() ==> (#[trigger] ordinals[o][i]).2 == 0 && ordinals[o][i].3
                == 0),
    ensures
        ({
            let f = file_bytes(ordinals, spans);
            &&& opens(f)
            &&& bytes::get32(f, 4) == ordinals.len()
            &&& kind(f) == Some((true, true, spans))
            &&& ordinals[o].len() == 0 ==> block_in(f, o) is None
            &&& ordinals[o].len() > 0 ==> (block_in(f, o) matches Some(b) && agrees(b) && b.n == groups(
                order::sorted(ordinals[o]),
            ).len() && forall|i: int| 0 <= i < docs(b).len() ==> items_of(b, #[trigger] docs(b)[i]).len() > 0)
            &&& entries_for(f, None, o as u32) == order::sorted(ordinals[o])
        }),
{
    let f = file_bytes(ordinals, spans);
    let blocks = ordinals_bytes(ordinals, spans);
    lemma_file_parts(ordinals, spans, o);
    bytes::lemma_flat_at(blocks, o);
    let d = f.skip(data_start(f));
    let a = bytes::start_of(blocks, o);
    let b = bytes::start_of(blocks, o + 1);
    assert(blocks[o] == ordinal_bytes(groups(order::sorted(ordinals[o])), spans));
    order::lemma_sorted(ordinals[o]);
    let e = order::sorted(ordinals[o]);
    if ordinals[o].len() == 0 {
        assert(e =~= Seq::<(u32, u32, u32, u32)>::empty());
        let g = groups(e);
        assert(payloads(g, spans) =~= Seq::<Seq<u8>>::empty());
        assert(varint::varint(0).len() == 1);
        assert(blocks[o].len() == 2);
        assert(ordinal_in(f, o) is None);
    } else {
        if !spans {
            order::lemma_sorted_items(ordinals[o]);
            assert forall|i: int| 0 <= i < e.len() implies (#[trigger] e[i]).2 == 0 && e[i].3
                == 0 by {
                assert(e.contains(e[i]));
                assert(ordinals[o].contains(e[i]));
                let k = choose|k: int| 0 <= k < ordinals[o].len() && ordinals[o][k] == e[i];
                assert(ordinals[o][k].2 == 0);
            }
        }
        written_ordinal_reads_back(e, spans);
        assert(d.subrange(a, b) =~= blocks[o]);
        assert(ordinal_in(f, o) == Some(blocks[o]));
        let k = block_in(f, o)->0;
        assert forall|i: int| 0 <= i < docs(k).len() implies items_of(k, #[trigger] docs(k)[i]).len() > 0 by {
            lemma_groups_count(e, i);
        }
    }
}

/// The documents of entries.
pub open spec fn docs_of(e: Seq<(u32, u32, u32, u32)>) -> Set<u32> {
    Seq::new(e.len(), |i: int| e[i].0).to_set()
}

proof fn lemma_groups_docs(e: Seq<(u32, u32, u32, u32)>, d: u32)
    ensures
        (exists|i: int| 0 <= i < groups(e).len() && (#[trigger] groups(e)[i]).0 == d) <==> (
        exists|k: int| 0 <= k < e.len() && (#[trigger] e[k]).0 == d),
    decreases e.len(),
{
    if e.len() > 0 {
        let p = e.drop_last();
        let x = e.last();
        let g = groups(p);
        let h = groups(e);
        lemma_groups_docs(p, d);
        assert(h.last().0 == x.0);
        if exists|i: int| 0 <= i < h.len() && (#[trigger] h[i]).0 == d {
            let i = choose|i: int| 0 <= i < h.len() && (#[trigger] h[i]).0 == d;
            if i == h.len() - 1 {
                assert(e[e.len() - 1].0 == d);
            } else {
                assert(g[i].0 == d);
                let k = choose|k: int| 0 <= k < p.len() && (#[trigger] p[k]).0 == d;
                assert(e[k].0 == d);
            }
        }
        if exists|k: int| 0 <= k < e.len() && (#[trigger] e[k]).0 == d {
            let k = choose|k: int| 0 <= k < e.len() && (#[trigger] e[k]).0 == d;
            if k == e.len() - 1 {
                assert(h[h.len() - 1].0 == d);
            } else {
                assert(p[k].0 == d);
                let i = choose|i: int| 0 <= i < g.len() && (#[trigger] g[i]).0 == d;
                assert(h[i].0 == d);
            }
        }
    }
}

/// Entries in order have as many groups as documents.
proof fn lemma_groups_are_docs(e: Seq<(u32, u32, u32, u32)>)
    requires
        order::is_sorted(e),
    ensures
        groups(e).len() == docs_of(e).len(),
{
    let g = groups(e);
    let firsts = Seq::new(g.len(), |i: int| g[i].0);
    let all = Seq::new(e.len(), |i: int| e[i].0);
    lemma_groups_increase(e);
    assert(firsts.no_duplicates()) by {
        assert forall|i: int, j: int| 0 <= i < firsts.len() && 0 <= j < firsts.len() && i
            != j implies firsts[i] != firsts[j] by {
            if i < j {
                assert(g[i].0 < g[j].0);
            } else {
                assert(g[j].0 < g[i].0);
            }
        }
    }
    firsts.unique_seq_to_set();
    assert(firsts.to_set() =~= all.to_set()) by {
        assert forall|d: u32| firsts.contains(d) <==> all.contains(d) by {
            lemma_groups_docs(e, d);
            if firsts.contains(d) {
                let i = choose|i: int| 0 <= i < firsts.len() && firsts[i] == d;
                assert(g[i].0 == d);
                let k = choose|k: int| 0 <= k < e.len() && (#[trigger] e[k]).0 == d;
                assert(all[k] == d);
            }
            if all.contains(d) {
                let k = choose|k: int| 0 <= k < all.len() && all[k] == d;
                assert(e[k].0 == d);
                let i = choose|i: int| 0 <= i < g.len() && (#[trigger] g[i]).0 == d;
                assert(firsts[i] == d);
            }
        }
    }
}

/// Law: a written file counts for each ordinal the documents of its entries.
pub proof fn written_documents_are_counted(
    ordinals: Seq<Seq<(u32, u32, u32, u32)>>,
    spans: bool,
    o: int,
)
    requires
        ordinals.len() < u32::MAX,
        bytes::flat(ordinals_bytes(ordinals, spans)).len() <= u32::MAX,
        bytes::flat(block_offsets::all_blocks(bytes::starts32(ordinals_bytes(ordinals, spans)))).len()
            <= u32::MAX,
        0 <= o < ordinals.len(),
        ordinals[o].len() <= u32::MAX,
        spans || (forall|i: int|
            0 <= i < ordinals[o].len() ==> (#[trigger] ordinals[o][i]).2 == 0 && ordinals[o][i].3
                == 0),
    ensures
        match block_for(file_bytes(ordinals, spans), None, o as u32) {
            None => docs_of(ordinals[o]).len() == 0,
            Some(b) => docs_of(ordinals[o]).len() == b.n,
        },
{
    written_file_reads_back(ordinals, spans, o);
    let e = order::sorted(ordinals[o]);
    order::lemma_sorted(ordinals[o]);
    lemma_groups_are_docs(e);
    let a = Seq::new(e.len(), |i: int| e[i].0);
    let b = Seq::new(ordinals[o].len(), |i: int| ordinals[o][i].0);
    order::lemma_sorted_items(ordinals[o]);
    assert(a.to_set() =~= b.to_set()) by {
        assert forall|d: u32| a.contains(d) <==> b.contains(d) by {
            if a.contains(d) {
                let i = choose|i: int| 0 <= i < a.len() && a[i] == d;
                assert(e.contains(e[i]));
                let k = choose|k: int| 0 <= k < ordinals[o].len() && ordinals[o][k] == e[i];
                assert(b[k] == d);
            }
            if b.contains(d) {
                let k = choose|k: int| 0 <= k < b.len() && b[k] == d;
                assert(ordinals[o].contains(ordinals[o][k]));
                assert(e.contains(ordinals[o][k]));
                let i = choose|i: int| 0 <= i < e.len() && e[i] == ordinals[o][k];
                assert(a[i] == d);
            }
        }
    }
    if ordinals[o].len() == 0 {
        assert(b.to_set() =~= Set::empty());
    }
}

/// Law: a file does not depend on the order in which the entries of an ordinal
/// were added.
pub proof fn order_of_entries_does_not_matter(
    a: Seq<Seq<(u32, u32, u32, u32)>>,
    b: Seq<Seq<(u32, u32, u32, u32)>>,
    spans: bool,
)
    requires
        a.len() == b.len(),
        forall|o: int|
            0 <= o < a.len() ==> (#[trigger] a[o]).to_multiset() == (#[trigger] b[o]).to_multiset(),
    ensures
        file_bytes(a, spans) == file_bytes(b, spans),
{
    assert forall|o: int| 0 <= o < a.len() implies order::sorted(#[trigger] a[o]) == order::sorted(b[o]) by {
        assert(a[o].to_multiset() == b[o].to_multiset());
        order::lemma_sorted(a[o]);
        order::lemma_sorted_is(b[o], order::sorted(a[o]));
    }
    assert(ordinals_bytes(a, spans) =~= ordinals_bytes(b, spans));
}

/// Which entries are in the documents of a set.
pub open spec fn in_docs(filter: Set<u32>) -> spec_fn((u32, u32, u32, u32)) -> bool {
    |e: (u32, u32, u32, u32)| filter.contains(e.0)
}

proof fn lemma_upto_local(
    b: Block,
    list: Seq<(u32, u32, u32)>,
    more: Seq<(u32, u32, u32)>,
    k: int,
)
    requires
        k <= list.len(),
        k <= more.len(),
        forall|i: int| 0 <= i < k ==> list[i] == more[i],
    ensures
        entries_upto(b, list, k) == entries_upto(b, more, k),
    decreases k,
{
    if k > 0 {
        lemma_upto_local(b, list, more, k - 1);
        assert(list[k - 1] == more[k - 1]);
    }
}

proof fn lemma_filter_all(
    e: Seq<(u32, u32, u32, u32)>,
    keep: spec_fn((u32, u32, u32, u32)) -> bool,
    all: bool,
)
    requires
        forall|i: int| 0 <= i < e.len() ==> keep(#[trigger] e[i]) == all,
    ensures
        e.filter(keep) == if all {
            e
        } else {
            Seq::empty()
        },
    decreases e.len(),
{
    reveal(Seq::filter);
    if e.len() > 0 {
        lemma_filter_all(e.drop_last(), keep, all);
        assert(keep(e[e.len() - 1]) == all);
        assert(e =~= e.drop_last().push(e.last()));
    } else {
        assert(e =~= Seq::empty());
    }
}

proof fn lemma_within(b: Block, list: Seq<(u32, u32, u32)>, filter: Set<u32>, k: int)
    requires
        0 <= k <= list.len(),
    ensures
        entries_upto(b, kept(list, filter, k), kept(list, filter, k).len() as int) == entries_upto(
            b,
            list,
            k,
        ).filter(in_docs(filter)),
    decreases k,
{
    let keep = in_docs(filter);
    if k == 0 {
        lemma_filter_all(entries_upto(b, list, 0), keep, true);
    } else {
        lemma_within(b, list, filter, k - 1);
        let d = list[k - 1];
        let items = items_of(b, d);
        let own = Seq::new(items.len(), |i: int| (d.0, items[i].0, items[i].1, items[i].2));
        let before = entries_upto(b, list, k - 1);
        Seq::filter_distributes_over_add(before, own, keep);
        lemma_filter_all(own, keep, filter.contains(d.0));
        let fewer = kept(list, filter, k - 1);
        if filter.contains(d.0) {
            let now = fewer.push(d);
            lemma_upto_local(b, fewer, now, fewer.len() as int);
            assert(now[now.len() - 1] == d);
        } else {
            assert(before.filter(keep) + Seq::empty() =~= before.filter(keep));
        }
    }
}

/// Law: the entries within a set of documents are those of all entries whose
/// document is in the set, in their order.
pub proof fn entries_within_are_filtered(
    s: Seq<u8>,
    gmap: Option<Seq<u8>>,
    id: u32,
    filter: Set<u32>,
)
    ensures
        entries_within(s, gmap, id, filter) == entries_for(s, gmap, id).filter(in_docs(filter)),
{
    match block_for(s, gmap, id) {
        None => {
            lemma_filter_all(Seq::empty(), in_docs(filter), true);
        },
        Some(b) => {
            lemma_within(b, docs(b), filter, docs(b).len() as int);
        },
    }
}

proof fn lemma_upto_has(b: Block, list: Seq<(u32, u32, u32)>, k: int, d: u32, x: (u32, u32, u32))
    requires
        0 <= k <= list.len(),
    ensures
        entries_upto(b, list, k).contains((d, x.0, x.1, x.2)) <==> exists|i: int|
            0 <= i < k && (#[trigger] list[i]).0 == d && items_of(b, list[i]).contains(x),
    decreases k,
{
    if k > 0 {
        lemma_upto_has(b, list, k - 1, d, x);
        let before = entries_upto(b, list, k - 1);
        let all = entries_upto(b, list, k);
        let items = items_of(b, list[k - 1]);
        let y = (d, x.0, x.1, x.2);
        if all.contains(y) {
            let i = choose|i: int| 0 <= i < all.len() && all[i] == y;
            if i < before.len() {
                assert(before[i] == y);
            } else {
                assert(items[i - before.len()] == x);
                assert(list[k - 1].0 == d && items_of(b, list[k - 1]).contains(x));
            }
        }
        if before.contains(y) {
            let i = choose|i: int| 0 <= i < before.len() && before[i] == y;
            assert(all[i] == y);
        }
        if list[k - 1].0 == d && items.contains(x) {
            let i = choose|i: int| 0 <= i < items.len() && items[i] == x;
            assert(all[before.len() + i] == y);
        }
    } else {
        assert(entries_upto(b, list, k) =~= Seq::empty());
    }
}

proof fn lemma_upto_ascends(b: Block, list: Seq<(u32, u32, u32)>, k: int, i: int)
    requires
        0 <= i < k <= list.len(),
        order::is_sorted(entries_upto(b, list, k)),
    ensures
        forall|x: int, y: int|
            0 <= x < y < items_of(b, list[i]).len() ==> (#[trigger] items_of(b, list[i])[x]).0 <= (
            #[trigger] items_of(b, list[i])[y]).0,
    decreases k,
{
    let before = entries_upto(b, list, k - 1);
    let all = entries_upto(b, list, k);
    let items = items_of(b, list[k - 1]);
    if i == k - 1 {
        assert forall|x: int, y: int| 0 <= x < y < items.len() implies (#[trigger] items[x]).0 <= (
        #[trigger] items[y]).0 by {
            assert(all[before.len() + x] == (list[i].0, items[x].0, items[x].1, items[x].2));
            assert(all[before.len() + y] == (list[i].0, items[y].0, items[y].1, items[y].2));
            assert(all[before.len() + x].not_after(all[before.len() + y]));
        }
    } else {
        assert forall|x: int, y: int| 0 <= x < y < before.len() implies (#[trigger] before[x]).not_after(
            #[trigger] before[y],
        ) by {
            assert(all[x] == before[x] && all[y] == before[y]);
            assert(all[x].not_after(all[y]));
        }
        lemma_upto_ascends(b, list, k - 1, i);
    }
}

proof fn lemma_found(b: Block, d: u32, x: (u32, u32, u32))
    requires
        agrees(b),
        order::is_sorted(all_entries(b)),
    ensures
        match find_doc(b, d) {
            None => !all_entries(b).contains((d, x.0, x.1, x.2)),
            Some(t) => {
                let items = items_of(b, (d, t.1, t.2));
                &&& items.contains(x) <==> all_entries(b).contains((d, x.0, x.1, x.2))
                &&& forall|i: int, j: int|
                    0 <= i < j < items.len() ==> (#[trigger] items[i]).0 <= (#[trigger] items[j]).0
            },
        },
{
    let list = docs(b);
    let n = list.len() as int;
    lemma_upto_has(b, list, n, d, x);
    match find_doc(b, d) {
        Some(t) => {
            assert(list[t.0] == (d, t.1, t.2));
            lemma_upto_ascends(b, list, n, t.0);
            assert forall|i: int| 0 <= i < n && (#[trigger] list[i]).0 == d implies i == t.0 by {
                if i < t.0 {
                    assert(list[i].0 < list[t.0].0);
                } else if t.0 < i {
                    assert(list[t.0].0 < list[i].0);
                }
            }
        },
        None => {},
    }
}

/// Law: looking a document up in a written file gives the occurrences that were
/// added for the ordinal in that document, and no others, in the order of their
/// positions.
pub proof fn a_document_has_the_entries_added(
    ordinals: Seq<Seq<(u32, u32, u32, u32)>>,
    spans: bool,
    o: int,
    d: u32,
    x: (u32, u32, u32),
)
    requires
        ordinals.len() < u32::MAX,
        bytes::flat(ordinals_bytes(ordinals, spans)).len() <= u32::MAX,
        bytes::flat(block_offsets::all_blocks(bytes::starts32(ordinals_bytes(ordinals, spans)))).len()
            <= u32::MAX,
        0 <= o < ordinals.len(),
        ordinals[o].len() <= u32::MAX,
        spans || (forall|i: int|
            0 <= i < ordinals[o].len() ==> (#[trigger] ordinals[o][i]).2 == 0 && ordinals[o][i].3
                == 0),
    ensures
        ({
            let items = items_for(file_bytes(ordinals, spans), None, o as u32, d);
            &&& items.contains(x) <==> ordinals[o].contains((d, x.0, x.1, x.2))
            &&& forall|i: int, j: int| 0 <= i < j < items.len() ==> (#[trigger] items[i]).0 <= (#[trigger] items[j]).0
        }),
{
    let f = file_bytes(ordinals, spans);
    let e = order::sorted(ordinals[o]);
    written_file_reads_back(ordinals, spans, o);
    order::lemma_sorted(ordinals[o]);
    order::lemma_sorted_items(ordinals[o]);
    let items = items_for(f, None, o as u32, d);
    let y = (d, x.0, x.1, x.2);
    assert(e.contains(y) <==> ordinals[o].contains(y));
    match block_for(f, None, o as u32) {
        None => {
            assert(!e.contains(y));
        },
        Some(b) => {
            assert(all_entries(b) == e);
            lemma_found(b, d, x);
        },
    }
}

proof fn lemma_item_at(items: Seq<(u32, u32, u32)>, position: u32, i: int)
    requires
        0 <= i <= items.len(),
        forall|x: int, y: int| 0 <= x < y < items.len() ==> (#[trigger] items[x]).0 <= (#[trigger] items[y]).0,
    ensures
        match item_at(items, position, i) {
            Some(s) => exists|k: int| i <= k < items.len() && #[trigger] items[k] == (position, s.0, s.1),
            None => forall|k: int| i <= k < items.len() ==> (#[trigger] items[k]).0 != position,
        },
    decreases items.len() - i,
{
    if i < items.len() {
        if items[i].0 < position {
            lemma_item_at(items, position, i + 1);
        } else if items[i].0 == position {
            assert(items[i] == (position, items[i].1, items[i].2));
        } else {
            assert forall|k: int| i <= k < items.len() implies (#[trigger] items[k]).0 != position by {
                if i < k {
                    assert(items[i].0 <= items[k].0);
                }
            }
        }
    }
}

/// Law: a written file has an ordinal at a position of a document exactly if it
/// was added there, and gives bytes that it was added with.
pub proof fn a_position_is_found_where_it_was_added(
    ordinals: Seq<Seq<(u32, u32, u32, u32)>>,
    spans: bool,
    o: int,
    d: u32,
    position: u32,
)
    requires
        ordinals.len() < u32::MAX,
        bytes::flat(ordinals_bytes(ordinals, spans)).len() <= u32::MAX,
        bytes::flat(block_offsets::all_blocks(bytes::starts32(ordinals_bytes(ordinals, spans)))).len()
            <= u32::MAX,
        0 <= o < ordinals.len(),
        ordinals[o].len() <= u32::MAX,
        spans || (forall|i: int|
            0 <= i < ordinals[o].len() ==> (#[trigger] ordinals[o][i]).2 == 0 && ordinals[o][i].3
                == 0),
    ensures
        match item_at(items_for(file_bytes(ordinals, spans), None, o as u32, d), position, 0) {
            Some(s) => ordinals[o].contains((d, position, s.0, s.1)),
            None => forall|i: int|
                0 <= i < ordinals[o].len() ==> (#[trigger] ordinals[o][i]).0 != d || ordinals[o][i].1 != position,
        },
{
    let items = items_for(file_bytes(ordinals, spans), None, o as u32, d);
    a_document_has_the_entries_added(ordinals, spans, o, d, (0, 0, 0));
    lemma_item_at(items, position, 0);
    match item_at(items, position, 0) {
        Some(s) => {
            a_document_has_the_entries_added(ordinals, spans, o, d, (position, s.0, s.1));
            let k = choose|k: int| 0 <= k < items.len() && #[trigger] items[k] == (position, s.0, s.1);
            assert(items.contains((position, s.0, s.1)));
        },
        None => {
            assert forall|i: int| 0 <= i < ordinals[o].len() implies (#[trigger] ordinals[o][i]).0 != d
                || ordinals[o][i].1 != position by {
                let y = ordinals[o][i];
                if y.0 == d && y.1 == position {
                    a_document_has_the_entries_added(ordinals, spans, o, d, (y.1, y.2, y.3));
                    assert(ordinals[o].contains(y));
                    let k = choose|k: int| 0 <= k < items.len() && items[k] == (y.1, y.2, y.3);
                    assert(items[k].0 == position);
                }
            }
        },
    }
}

/// Law: a written file has a document under an ordinal exactly if an occurrence
/// in it was added.
pub proof fn a_document_is_found_where_it_was_added(
    ordinals: Seq<Seq<(u32, u32, u32, u32)>>,
    spans: bool,
    o: int,
    d: u32,
)
    requires
        ordinals.len() < u32::MAX,
        bytes::flat(ordinals_bytes(ordinals, spans)).len() <= u32::MAX,
        bytes::flat(block_offsets::all_blocks(bytes::starts32(ordinals_bytes(ordinals, spans)))).len()
            <= u32::MAX,
        0 <= o < ordinals.len(),
        ordinals[o].len() <= u32::MAX,
        spans || (forall|i: int|
            0 <= i < ordinals[o].len() ==> (#[trigger] ordinals[o][i]).2 == 0 && ordinals[o][i].3
                == 0),
    ensures
        (match block_for(file_bytes(ordinals, spans), None, o as u32) {
            None => false,
            Some(b) => find_doc(b, d) is Some,
        }) <==> exists|i: int| 0 <= i < ordinals[o].len() && (#[trigger] ordinals[o][i]).0 == d,
{
    let f = file_bytes(ordinals, spans);
    let e = order::sorted(ordinals[o]);
    written_file_reads_back(ordinals, spans, o);
    order::lemma_sorted_items(ordinals[o]);
    let found = match block_for(f, None, o as u32) {
        None => false,
        Some(b) => find_doc(b, d) is Some,
    };
    if exists|i: int| 0 <= i < ordinals[o].len() && (#[trigger] ordinals[o][i]).0 == d {
        let i = choose|i: int| 0 <= i < ordinals[o].len() && (#[trigger] ordinals[o][i]).0 == d;
        let y = ordinals[o][i];
        a_document_has_the_entries_added(ordinals, spans, o, d, (y.1, y.2, y.3));
        assert(ordinals[o].contains(y));
    }
    if found {
        let b = block_for(f, None, o as u32)->0;
        let t = find_doc(b, d)->0;
        let list = docs(b);
        assert(list[t.0] == (d, t.1, t.2));
        let items = items_of(b, list[t.0]);
        assert(items.len() > 0);
        let x = items[0];
        assert(items.contains(x));
        a_document_has_the_entries_added(ordinals, spans, o, d, x);
        assert(ordinals[o].contains((d, x.0, x.1, x.2)));
    }
}

/// Law: with a map of global ids, the entries that were added for an ordinal are
/// found under its global id, and an id that the map does not hold has none.
pub proof fn entries_are_found_by_their_global_id(
    ordinals: Seq<Seq<(u32, u32, u32, u32)>>,
    spans: bool,
    ids: Seq<u32>,
    max_word: Option<u16>,
    o: int,
    id: u32,
)
    requires
        ordinals.len() < u32::MAX,
        bytes::flat(ordinals_bytes(ordinals, spans)).len() <= u32::MAX,
        bytes::flat(block_offsets::all_blocks(bytes::starts32(ordinals_bytes(ordinals, spans)))).len()
            <= u32::MAX,
        0 <= o < ordinals.len(),
        ordinals[o].len() <= u32::MAX,
        spans || (forall|i: int|
            0 <= i < ordinals[o].len() ==> (#[trigger] ordinals[o][i]).2 == 0 && ordinals[o][i].3
                == 0),
        gmap::increasing(ids),
        ids.len() == ordinals.len(),
    ensures
        entries_for(file_bytes(ordinals, spans), Some(gmap::gmap_bytes(ids, max_word)), ids[o]) == order::sorted(
            ordinals[o],
        ),
        !ids.contains(id) ==> entries_for(
            file_bytes(ordinals, spans),
            Some(gmap::gmap_bytes(ids, max_word)),
            id,
        ).len() == 0,
{
    let f = file_bytes(ordinals, spans);
    let g = gmap::gmap_bytes(ids, max_word);
    gmap::written_map_reads_back(ids, max_word);
    gmap::local_finds_what_is_held(ids, gmap::heads_in(g), id);
    gmap::local_finds_what_is_held(ids, gmap::heads_in(g), ids[o]);
    written_file_reads_back(ordinals, spans, o);
    assert(ids.contains(ids[o]));
    let l = gmap::find_local(ids, gmap::heads_in(g), ids[o])->0 as int;
    if l < o {
        assert(ids[l] < ids[o]);
    } else if o < l {
        assert(ids[o] < ids[l]);
    }
    assert(ordinal_for(Some(g), ids[o]) == Some(o as u32));
    assert(block_for(f, Some(g), ids[o]) == block_for(f, None, o as u32));
}

} // verus!
