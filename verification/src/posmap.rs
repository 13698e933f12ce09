//! Position map: for each document and position, the ordinal that stands
//! there.
//!
//! ```text
//! [4 bytes] magic
//! [4 bytes] number of documents
//! [8 bytes × (number + 1)] offsets into the data
//! data, per document
//! ```
//!
//! With `PMAP` a document is one 4-byte slot per position, with `PMP3` one
//! 3-byte slot; a slot of ones holds no token. `PMP4` puts the number of
//! positions and byte checkpoints before the 3-byte slots: the source offset
//! of every 16th position, from which the offset of any position follows with
//! the own lengths of the positions between. Offsets start again at 0 after an
//! empty slot, which stands between two values.
//!
//! The writer takes 3-byte slots where every ordinal fits, and checkpoints
//! where it also knows the own lengths.

use vstd::prelude::*;

use crate::bytes;
use crate::bytes::{part, push_flat, push_starts64, push_u24, push_u32, push_u32s, read_u24, read_u32, read_u64};
use crate::gmap::GmapReader;
use crate::offset_table;
use crate::offset_table::{grow_lists, grow_values};
use crate::own_lens;
use crate::own_lens::{LenFn, OwnLens};

verus! {

/// `PMAP`.
pub const MAGIC_WIDE: u32 = 0x50414D50;

/// `PMP3`.
pub const MAGIC_NARROW: u32 = 0x33504D50;

/// `PMP4`.
pub const MAGIC_CHECKED: u32 = 0x34504D50;

/// A slot without a token.
pub const EMPTY: u32 = 0xFFFFFFFF;

/// A narrow slot without a token; ordinals below it fit in a narrow slot.
pub const EMPTY_NARROW: u32 = 0xFFFFFF;

/// Positions from one byte checkpoint to the next.
pub const CHECKPOINT_EVERY: u32 = 16;

/// Whether every ordinal fits in a narrow slot.
pub open spec fn narrow(docs: Seq<Seq<u32>>) -> bool {
    forall|d: int, p: int|
        0 <= d < docs.len() && 0 <= p < docs[d].len() ==> fits_narrow(#[trigger] docs[d][p])
}

/// Whether a slot's value fits in a narrow slot.
pub open spec fn fits_narrow(slot: u32) -> bool {
    slot == EMPTY || slot < EMPTY_NARROW
}

/// The source offset of position `p`: past the lengths since the last empty
/// slot, a length that is not known counting as 0.
pub open spec fn byte_before<L: OwnLens>(slots: Seq<u32>, lens: L, p: int) -> u32
    decreases p,
{
    if p <= 0 || slots[p - 1] == EMPTY {
        0
    } else {
        byte_before(slots, lens, p - 1).wrapping_add(
            match lens.len_of(slots[p - 1]) {
                Some(n) => n as u32,
                None => 0,
            },
        )
    }
}

/// How many checkpoints `n` positions have.
pub open spec fn checkpoints_of(n: int) -> int {
    (n + 15) / 16
}

/// The source offsets of positions 0, 16, 32 and so on.
pub open spec fn checkpoints<L: OwnLens>(slots: Seq<u32>, lens: L) -> Seq<u32> {
    Seq::new(
        checkpoints_of(slots.len() as int) as nat,
        |k: int| byte_before(slots, lens, 16 * k),
    )
}

/// The data of a document.
pub open spec fn doc_bytes<L: OwnLens>(slots: Seq<u32>, is_narrow: bool, lens: Option<L>) -> Seq<u8> {
    match lens {
        Some(l) if is_narrow => bytes::le32(slots.len() as u32) + bytes::le32s(checkpoints(slots, l)) + bytes::le24s(slots),
        _ => if is_narrow {
            bytes::le24s(slots)
        } else {
            bytes::le32s(slots)
        },
    }
}

/// The data of all documents.
pub open spec fn doc_runs<L: OwnLens>(docs: Seq<Seq<u32>>, lens: Option<L>) -> Seq<Seq<u8>> {
    Seq::new(docs.len(), |d: int| doc_bytes(docs[d], narrow(docs), lens))
}

/// The magic a map is written with.
pub open spec fn magic_of(is_narrow: bool, with_lens: bool) -> u32 {
    if is_narrow && with_lens {
        MAGIC_CHECKED
    } else if is_narrow {
        MAGIC_NARROW
    } else {
        MAGIC_WIDE
    }
}

/// The file of the documents, one list of slots each.
pub open spec fn posmap_bytes<L: OwnLens>(docs: Seq<Seq<u32>>, lens: Option<L>) -> Seq<u8> {
    bytes::le32(magic_of(narrow(docs), lens is Some)) + bytes::le32(docs.len() as u32) + bytes::le64s(
        bytes::starts64(doc_runs(docs, lens), 0),
    ) + bytes::flat(doc_runs(docs, lens))
}

/// The documents after `ordinal` was recorded at `position` of `doc_id`.
pub open spec fn with_slot(docs: Seq<Seq<u32>>, doc_id: int, position: int, value: u32) -> Seq<
    Seq<u32>,
> {
    let g = offset_table::grown(docs, doc_id + 1);
    g.update(doc_id, offset_table::padded(g[doc_id], position + 1, EMPTY).update(position, value))
}

/// Number of documents of a file.
pub open spec fn count_in(s: Seq<u8>) -> u32 {
    bytes::get32(s, 4)
}

/// Whether the data holds a known magic, a count and its whole offset table.
pub open spec fn opens(s: Seq<u8>) -> bool {
    &&& s.len() >= 8
    &&& bytes::tagged(s, MAGIC_WIDE) || bytes::tagged(s, MAGIC_NARROW) || bytes::tagged(s, MAGIC_CHECKED)
    &&& 8 + 8 * (count_in(s) + 1) <= s.len()
}

/// Bytes per slot.
pub open spec fn width_in(s: Seq<u8>) -> int {
    if bytes::tagged(s, MAGIC_WIDE) {
        4
    } else {
        3
    }
}

/// The data behind the offset table.
pub open spec fn data_in(s: Seq<u8>) -> Seq<u8> {
    s.subrange(8 + 8 * (count_in(s) + 1), s.len() as int)
}

/// Offset `d`, as far as there is data.
pub open spec fn bound_in(s: Seq<u8>, d: int) -> int {
    if bytes::get64(s, 8 + 8 * d) <= data_in(s).len() {
        bytes::get64(s, 8 + 8 * d) as int
    } else {
        data_in(s).len() as int
    }
}

/// A document's whole data.
pub open spec fn region_in(s: Seq<u8>, d: int) -> Seq<u8> {
    if bound_in(s, d) <= bound_in(s, d + 1) {
        data_in(s).subrange(bound_in(s, d), bound_in(s, d + 1))
    } else {
        Seq::empty()
    }
}

/// Bytes of the count and the checkpoints before a document's slots.
pub open spec fn checkpoint_len(raw: Seq<u8>) -> int {
    if raw.len() < 4 {
        raw.len() as int
    } else {
        4 + 4 * checkpoints_of(bytes::get32(raw, 0) as int)
    }
}

/// A document's slots.
pub open spec fn slots_in(s: Seq<u8>, d: int) -> Seq<u8> {
    let raw = region_in(s, d);
    if !bytes::tagged(s, MAGIC_CHECKED) {
        raw
    } else if checkpoint_len(raw) <= raw.len() {
        raw.subrange(checkpoint_len(raw), raw.len() as int)
    } else {
        Seq::empty()
    }
}

/// Slot `p`; `None` where it is empty.
pub open spec fn slot_in(slots: Seq<u8>, width: int, p: int) -> Option<u32> {
    if width == 4 {
        if bytes::get32(slots, 4 * p) == EMPTY {
            None
        } else {
            Some(bytes::get32(slots, 4 * p))
        }
    } else {
        if bytes::get24(slots, 3 * p) == EMPTY_NARROW {
            None
        } else {
            Some(bytes::get24(slots, 3 * p))
        }
    }
}

/// Number of positions of a document; none past the table.
pub open spec fn tokens_in(s: Seq<u8>, doc_id: u32) -> int {
    if doc_id >= count_in(s) {
        0
    } else {
        slots_in(s, doc_id as int).len() as int / width_in(s)
    }
}

/// The segment's own ordinal at a position, if one stands there.
pub open spec fn local_at(s: Seq<u8>, doc_id: u32, position: u32) -> Option<u32> {
    if position >= tokens_in(s, doc_id) {
        None
    } else {
        slot_in(slots_in(s, doc_id as int), width_in(s), position as int)
    }
}

/// What a caller is given for a segment's own ordinal: itself, or its global
/// id.
pub open spec fn outward(ids: Option<Seq<u32>>, local: u32) -> u32 {
    match ids {
        Some(g) => g[local as int],
        None => local,
    }
}

/// Whether the ordinal has a global id, where there is a map of them.
pub open spec fn mapped(ids: Option<Seq<u32>>, local: Option<u32>) -> bool {
    ids is Some && local is Some ==> local->0 < ids->0.len()
}

/// The ordinal at a position, if one stands there.
pub open spec fn ordinal_in(
    s: Seq<u8>,
    ids: Option<Seq<u32>>,
    doc_id: u32,
    position: u32,
) -> Option<u32> {
    match local_at(s, doc_id, position) {
        Some(o) => Some(outward(ids, o)),
        None => None,
    }
}

/// The positions from `from` up to `to` that hold an ordinal, with it.
pub open spec fn range_in(
    s: Seq<u8>,
    ids: Option<Seq<u32>>,
    doc_id: u32,
    from: int,
    to: int,
) -> Seq<(u32, u32)>
    decreases to - from,
{
    if from >= to {
        Seq::empty()
    } else {
        let before = range_in(s, ids, doc_id, from, to - 1);
        match ordinal_in(s, ids, doc_id, (to - 1) as u32) {
            Some(o) => before.push(((to - 1) as u32, o)),
            None => before,
        }
    }
}

/// The source offset of position `p`, counted from `acc` at position `from`;
/// `None` where a length is not known.
pub open spec fn walk_in<L: OwnLens>(
    slots: Seq<u8>,
    ids: Option<Seq<u32>>,
    lens: L,
    from: int,
    p: int,
    acc: u32,
) -> Option<u32>
    decreases p - from,
{
    if p <= from {
        Some(acc)
    } else {
        match walk_in(slots, ids, lens, from, p - 1, acc) {
            None => None,
            Some(a) => match slot_in(slots, 3, p - 1) {
                None => Some(0),
                Some(o) => match lens.len_of(outward(ids, o)) {
                    None => None,
                    Some(n) => Some(a.wrapping_add(n as u32)),
                },
            },
        }
    }
}

/// Number of positions that a document with checkpoints says it has; none past
/// the table, without checkpoints, or without the number.
pub open spec fn checked_tokens(s: Seq<u8>, doc_id: u32) -> int {
    let raw = region_in(s, doc_id as int);
    if !bytes::tagged(s, MAGIC_CHECKED) || doc_id >= count_in(s) || raw.len() < 4 {
        0
    } else {
        bytes::get32(raw, 0) as int
    }
}

/// The source offset of a position, from the checkpoint before it.
pub open spec fn byte_in<L: OwnLens>(
    s: Seq<u8>,
    ids: Option<Seq<u32>>,
    doc_id: u32,
    position: u32,
    lens: L,
) -> Option<u32> {
    let raw = region_in(s, doc_id as int);
    let slots = slots_in(s, doc_id as int);
    let k = position as int / 16;
    if position >= checked_tokens(s, doc_id) {
        None
    } else {
        match walk_in(slots, ids, lens, 16 * k, position as int, bytes::get32(raw, 4 + 4 * k)) {
            None => None,
            Some(a) => if slot_in(slots, 3, position as int) is None {
                None
            } else {
                Some(a)
            },
        }
    }
}

/// Whether the slots up to `position` are there, in a document that says it
/// has the position.
pub open spec fn whole_to(s: Seq<u8>, doc_id: u32, position: u32) -> bool {
    position < checked_tokens(s, doc_id) ==> checkpoint_len(region_in(s, doc_id as int)) + 3 * (position
        + 1) <= region_in(s, doc_id as int).len()
}

/// Whether every ordinal of a document has a global id, where there is a map.
pub open spec fn doc_mapped(s: Seq<u8>, ids: Option<Seq<u32>>, doc_id: u32) -> bool {
    forall|p: u32| mapped(ids, #[trigger] local_at(s, doc_id, p))
}

/// An ordinal at a position is not the mark of an empty slot.
pub proof fn lemma_local_below(s: Seq<u8>, doc_id: u32, position: u32)
    requires
        local_at(s, doc_id, position) is Some,
    ensures
        local_at(s, doc_id, position)->0 < EMPTY,
{
    reveal(bytes::get24);
}

proof fn lemma_slot24(slots: Seq<u32>, p: int)
    requires
        0 <= p < slots.len(),
        fits_narrow(slots[p]),
    ensures
        slot_in(bytes::le24s(slots), 3, p) == if slots[p] == EMPTY {
            None::<u32>
        } else {
            Some(slots[p])
        },
{
    bytes::lemma_le24s_len(slots);
    bytes::lemma_le24s_at(slots, p);
    if slots[p] == EMPTY {
        reveal(bytes::le24);
        reveal(bytes::get24);
        let e = bytes::le24s(slots).subrange(3 * p, 3 * p + 3);
        assert(bytes::le24s(slots)[3 * p] == e[0]);
        assert(bytes::le24s(slots)[3 * p + 1] == e[1]);
        assert(bytes::le24s(slots)[3 * p + 2] == e[2]);
        assert(bytes::get24(bytes::le24s(slots), 3 * p) == EMPTY_NARROW);
    } else {
        bytes::lemma_get24(bytes::le24s(slots), 3 * p, slots[p]);
    }
}

proof fn lemma_slot32(slots: Seq<u32>, p: int)
    requires
        0 <= p < slots.len(),
    ensures
        slot_in(bytes::le32s(slots), 4, p) == if slots[p] == EMPTY {
            None::<u32>
        } else {
            Some(slots[p])
        },
{
    bytes::lemma_le32s_len(slots);
    assert(bytes::le32s(slots).subrange(0, 4 * slots.len() as int) =~= bytes::le32s(slots));
    bytes::lemma_table32(bytes::le32s(slots), 0, slots, p);
}

/// The parts of a written file.
proof fn lemma_file<L: OwnLens>(docs: Seq<Seq<u32>>, lens: Option<L>, d: int)
    requires
        docs.len() <= u32::MAX,
        bytes::flat(doc_runs(docs, lens)).len() <= u64::MAX,
        0 <= d < docs.len(),
    ensures
        opens(posmap_bytes(docs, lens)),
        count_in(posmap_bytes(docs, lens)) == docs.len(),
        bytes::get32(posmap_bytes(docs, lens), 0) == magic_of(narrow(docs), lens is Some),
        region_in(posmap_bytes(docs, lens), d) == doc_bytes(docs[d], narrow(docs), lens),
{
    broadcast use bytes::group_le_len;

    let file = posmap_bytes(docs, lens);
    let runs = doc_runs(docs, lens);
    let t = bytes::starts64(runs, 0);
    let magic = magic_of(narrow(docs), lens is Some);
    bytes::lemma_le64s_len(t);
    assert(file.subrange(0, 4) =~= bytes::le32(magic));
    assert(file.subrange(4, 8) =~= bytes::le32(docs.len() as u32));
    bytes::lemma_get32(file, 0, magic);
    bytes::lemma_get32(file, 4, docs.len() as u32);
    assert(file.subrange(8, 8 + 8 * t.len() as int) =~= bytes::le64s(t));
    assert(data_in(file) =~= bytes::flat(runs));
    bytes::lemma_flat_at(runs, d);
    bytes::lemma_table64(file, 8, t, d);
    bytes::lemma_table64(file, 8, t, d + 1);
    assert(region_in(file, d) =~= runs[d]);
}

proof fn lemma_file_head<L: OwnLens>(docs: Seq<Seq<u32>>, lens: Option<L>)
    requires
        docs.len() <= u32::MAX,
    ensures
        opens(posmap_bytes(docs, lens)),
        count_in(posmap_bytes(docs, lens)) == docs.len(),
{
    broadcast use bytes::group_le_len;

    let file = posmap_bytes(docs, lens);
    let runs = doc_runs(docs, lens);
    let magic = magic_of(narrow(docs), lens is Some);
    bytes::lemma_le64s_len(bytes::starts64(runs, 0));
    assert(file.subrange(0, 4) =~= bytes::le32(magic));
    assert(file.subrange(4, 8) =~= bytes::le32(docs.len() as u32));
    bytes::lemma_get32(file, 0, magic);
    bytes::lemma_get32(file, 4, docs.len() as u32);
}

/// The slots of a written document.
proof fn lemma_doc_slots<L: OwnLens>(docs: Seq<Seq<u32>>, lens: Option<L>, d: int)
    requires
        docs.len() <= u32::MAX,
        bytes::flat(doc_runs(docs, lens)).len() <= u64::MAX,
        0 <= d < docs.len(),
        docs[d].len() <= u32::MAX,
    ensures
        slots_in(posmap_bytes(docs, lens), d) == if narrow(docs) {
            bytes::le24s(docs[d])
        } else {
            bytes::le32s(docs[d])
        },
        tokens_in(posmap_bytes(docs, lens), d as u32) == docs[d].len(),
        narrow(docs) && lens is Some ==> {
            let raw = region_in(posmap_bytes(docs, lens), d);
            &&& checked_tokens(posmap_bytes(docs, lens), d as u32) == docs[d].len()
            &&& checkpoint_len(raw) == 4 + 4 * checkpoints_of(docs[d].len() as int)
            &&& raw.len() == checkpoint_len(raw) + 3 * docs[d].len()
            &&& forall|k: int|
                0 <= k < checkpoints_of(docs[d].len() as int) ==> #[trigger] bytes::get32(raw, 4 + 4 * k)
                    == byte_before(docs[d], lens->0, 16 * k)
        },
{
    broadcast use bytes::group_le_len;

    let file = posmap_bytes(docs, lens);
    lemma_file(docs, lens, d);
    let slots = docs[d];
    let raw = region_in(file, d);
    bytes::lemma_le24s_len(slots);
    bytes::lemma_le32s_len(slots);
    if narrow(docs) && lens is Some {
        let cks = checkpoints(slots, lens->0);
        bytes::lemma_le32s_len(cks);
        assert(raw.subrange(0, 4) =~= bytes::le32(slots.len() as u32));
        bytes::lemma_get32(raw, 0, slots.len() as u32);
        assert(raw.subrange(4, 4 + 4 * cks.len() as int) =~= bytes::le32s(cks));
        assert(slots_in(file, d) =~= bytes::le24s(slots));
        assert forall|k: int| 0 <= k < cks.len() implies #[trigger] bytes::get32(raw, 4 + 4 * k) == byte_before(
            slots,
            lens->0,
            16 * k,
        ) by {
            bytes::lemma_table32(raw, 4, cks, k);
        }
    }
}

/// Law: every position that was recorded gives its ordinal back, the others
/// give none.
pub proof fn written_positions_read_back<L: OwnLens>(
    docs: Seq<Seq<u32>>,
    lens: Option<L>,
    doc_id: u32,
    position: u32,
)
    requires
        docs.len() <= u32::MAX,
        bytes::flat(doc_runs(docs, lens)).len() <= u64::MAX,
        forall|d: int| 0 <= d < docs.len() ==> (#[trigger] docs[d]).len() <= u32::MAX,
    ensures
        opens(posmap_bytes(docs, lens)),
        count_in(posmap_bytes(docs, lens)) == docs.len(),
        tokens_in(posmap_bytes(docs, lens), doc_id) == if doc_id < docs.len() {
            docs[doc_id as int].len() as int
        } else {
            0
        },
        local_at(posmap_bytes(docs, lens), doc_id, position) == if doc_id < docs.len() && position
            < docs[doc_id as int].len() && docs[doc_id as int][position as int] != EMPTY {
            Some(docs[doc_id as int][position as int])
        } else {
            None
        },
{
    lemma_file_head(docs, lens);
    if doc_id < docs.len() {
        let slots = docs[doc_id as int];
        lemma_file(docs, lens, doc_id as int);
        lemma_doc_slots(docs, lens, doc_id as int);
        if position < slots.len() {
            if narrow(docs) {
                assert(fits_narrow(docs[doc_id as int][position as int]));
                lemma_slot24(slots, position as int);
            } else {
                lemma_slot32(slots, position as int);
            }
        }
    }
}

proof fn lemma_walk<L: OwnLens>(slots: Seq<u32>, lens: L, from: int, p: int)
    requires
        0 <= from <= p <= slots.len(),
        forall|i: int| 0 <= i < slots.len() ==> fits_narrow(#[trigger] slots[i]),
        forall|i: int|
            from <= i < p ==> #[trigger] slots[i] == EMPTY || lens.len_of(slots[i]) is Some,
    ensures
        walk_in(bytes::le24s(slots), None, lens, from, p, byte_before(slots, lens, from)) == Some(
            byte_before(slots, lens, p),
        ),
    decreases p - from,
{
    if from < p {
        lemma_walk(slots, lens, from, p - 1);
        assert(fits_narrow(slots[p - 1]));
        lemma_slot24(slots, p - 1);
    }
}

/// Law: with checkpoints, the source offset of every position follows from the
/// lengths, where those back to the checkpoint before it are known.
pub proof fn written_bytes_follow_from_lengths<L: OwnLens>(
    docs: Seq<Seq<u32>>,
    lens: L,
    doc_id: u32,
    position: u32,
)
    requires
        docs.len() <= u32::MAX,
        bytes::flat(doc_runs(docs, Some(lens))).len() <= u64::MAX,
        narrow(docs),
        doc_id < docs.len(),
        docs[doc_id as int].len() <= u32::MAX,
        position < docs[doc_id as int].len(),
        forall|i: int|
            16 * (position as int / 16) <= i < position ==> #[trigger] docs[doc_id as int][i] == EMPTY
                || lens.len_of(docs[doc_id as int][i]) is Some,
    ensures
        whole_to(posmap_bytes(docs, Some(lens)), doc_id, position),
        byte_in(posmap_bytes(docs, Some(lens)), None, doc_id, position, lens) == if docs[doc_id as int][position as int]
            == EMPTY {
            None
        } else {
            Some(byte_before(docs[doc_id as int], lens, position as int))
        },
{
    let d = doc_id as int;
    let slots = docs[d];
    let k = position as int / 16;
    lemma_file(docs, Some(lens), d);
    lemma_doc_slots(docs, Some(lens), d);
    assert forall|i: int| 0 <= i < slots.len() implies fits_narrow(#[trigger] slots[i]) by {
        assert(fits_narrow(docs[d][i]));
    }
    lemma_walk(slots, lens, 16 * k, position as int);
    lemma_slot24(slots, position as int);
    let raw = region_in(posmap_bytes(docs, Some(lens)), d);
    assert(bytes::get32(raw, 4 + 4 * k) == byte_before(slots, lens, 16 * k));
}

fn byte_checkpoints<L: OwnLens>(slots: &Vec<u32>, lens: &L) -> (out: Vec<u32>)
    requires
        lens.ready(),
    ensures
        out@ == checkpoints(slots@, *lens),
{
    let mut out: Vec<u32> = Vec::new();
    let mut acc: u32 = 0;
    let mut p: usize = 0;
    while p < slots.len()
        invariant
            p <= slots@.len(),
            lens.ready(),
            acc == byte_before(slots@, *lens, p as int),
            out@.len() == checkpoints_of(p as int),
            forall|k: int| 0 <= k < out@.len() ==> #[trigger] out@[k] == byte_before(
                slots@,
                *lens,
                16 * k,
            ),
        decreases slots@.len() - p,
    {
        if p % 16 == 0 {
            out.push(acc);
        }
        let ord: u32 = slots[p];
        if ord == EMPTY {
            acc = 0;
        } else {
            let n: u32 = match lens.own_len(ord) {
                Some(n) => n as u32,
                None => 0,
            };
            acc = acc.wrapping_add(n);
        }
        p += 1;
    }
    assert(out@ =~= checkpoints(slots@, *lens));
    out
}

fn push_u24s(out: &mut Vec<u8>, values: &Vec<u32>)
    ensures
        final(out)@ == old(out)@ + bytes::le24s(values@),
{
    let mut i: usize = 0;
    assert(values@.take(0) =~= Seq::<u32>::empty());
    assert(out@ =~= old(out)@ + bytes::le24s(values@.take(0)));
    while i < values.len()
        invariant
            i <= values@.len(),
            out@ == old(out)@ + bytes::le24s(values@.take(i as int)),
        decreases values@.len() - i,
    {
        push_u24(out, values[i]);
        i += 1;
        proof {
            assert(values@.take(i as int).drop_last() =~= values@.take(i - 1));
            assert(out@ =~= old(out)@ + bytes::le24s(values@.take(i as int)));
        }
    }
    assert(values@.take(i as int) =~= values@);
}

fn all_narrow(docs: &Vec<Vec<u32>>) -> (r: bool)
    ensures
        r == narrow(offset_table::lists_of(docs@)),
{
    let ghost all = offset_table::lists_of(docs@);
    let mut d: usize = 0;
    while d < docs.len()
        invariant
            d <= docs@.len(),
            all == offset_table::lists_of(docs@),
            forall|a: int, b: int| 0 <= a < d && 0 <= b < all[a].len() ==> fits_narrow(
                #[trigger] all[a][b],
            ),
        decreases docs@.len() - d,
    {
        let doc = &docs[d];
        let mut p: usize = 0;
        while p < doc.len()
            invariant
                p <= doc@.len(),
                d < docs@.len(),
                all == offset_table::lists_of(docs@),
                doc@ == all[d as int],
                forall|b: int| 0 <= b < p ==> fits_narrow(#[trigger] all[d as int][b]),
            decreases doc@.len() - p,
        {
            if doc[p] != EMPTY && doc[p] >= EMPTY_NARROW {
                assert(!fits_narrow(all[d as int][p as int]));
                return false;
            }
            p += 1;
        }
        d += 1;
    }
    true
}

/// Collects the ordinals at positions.
pub struct PosMapWriter {
    docs: Vec<Vec<u32>>,
}

impl Default for PosMapWriter {
    fn default() -> (r: Self)
        ensures
            r.docs() == Seq::<Seq<u32>>::empty(),
    {
        Self::new()
    }
}

impl PosMapWriter {
    /// The slots of each document.
    pub closed spec fn docs(&self) -> Seq<Seq<u32>> {
        offset_table::lists_of(self.docs@)
    }

    /// No documents.
    pub fn new() -> (r: Self)
        ensures
            r.docs() == Seq::<Seq<u32>>::empty(),
    {
        let r = PosMapWriter { docs: Vec::new() };
        assert(r.docs() =~= Seq::<Seq<u32>>::empty());
        r
    }

    /// Records that `ordinal` stands at `position` in `doc_id`; documents and
    /// positions skipped before are empty, and what stood there is replaced.
    pub fn add(&mut self, doc_id: u32, position: u32, ordinal: u32)
        requires
            doc_id < usize::MAX,
            position < usize::MAX,
        ensures
            final(self).docs() == with_slot(
                old(self).docs(),
                doc_id as int,
                position as int,
                ordinal,
            ),
    {
        put_slot(&mut self.docs, doc_id, position, ordinal);
    }

    /// Adds a document without positions.
    pub fn add_empty_doc(&mut self)
        ensures
            final(self).docs() == old(self).docs().push(Seq::empty()),
    {
        self.docs.push(Vec::new());
        assert(self.docs() =~= old(self).docs().push(Seq::empty()));
    }

    /// The file, without byte checkpoints.
    pub fn serialize(&self) -> (out: Vec<u8>)
        requires
            self.docs().len() <= u32::MAX,
            bytes::flat(doc_runs(self.docs(), None::<Vec<u16>>)).len() <= u64::MAX,
        ensures
            out@ == posmap_bytes(self.docs(), None::<Vec<u16>>),
    {
        self.encode(None::<&Vec<u16>>, Ghost(None::<Vec<u16>>))
    }

    /// The file, with byte checkpoints where the lengths are given and every
    /// ordinal fits in a narrow slot.
    pub fn serialize_with_lens<F: Fn(u32) -> Option<u16>>(&self, own_len: Option<&F>) -> (out: Vec<
        u8,
    >)
        requires
            own_len matches Some(f) ==> own_lens::steady(*f),
            self.docs().len() <= u32::MAX,
            bytes::flat(doc_runs(self.docs(), lens_of(own_len))).len() <= u64::MAX,
        ensures
            out@ == posmap_bytes(self.docs(), lens_of(own_len)),
    {
        match own_len {
            Some(f) => {
                let lens = LenFn { f };
                self.encode(Some(&lens), Ghost(Some(lens)))
            },
            None => self.encode(None::<&LenFn<F>>, Ghost(None)),
        }
    }

    /// The file, with the lengths of a source.
    pub(crate) fn encode<L: OwnLens>(&self, lens: Option<&L>, Ghost(model): Ghost<Option<L>>) -> (out:
        Vec<u8>)
        requires
            lens matches Some(l) ==> l.ready(),
            lens is Some <==> model is Some,
            lens matches Some(l) ==> model == Some(*l),
            self.docs().len() <= u32::MAX,
            bytes::flat(doc_runs(self.docs(), model)).len() <= u64::MAX,
        ensures
            out@ == posmap_bytes(self.docs(), model),
    {
        let ghost docs = self.docs();
        let is_narrow = all_narrow(&self.docs);
        let magic: u32 = if is_narrow && lens.is_some() {
            MAGIC_CHECKED
        } else if is_narrow {
            MAGIC_NARROW
        } else {
            MAGIC_WIDE
        };
        let mut runs: Vec<Vec<u8>> = Vec::new();
        let mut d: usize = 0;
        while d < self.docs.len()
            invariant
                d <= self.docs@.len(),
                docs == offset_table::lists_of(self.docs@),
                is_narrow == narrow(docs),
                lens matches Some(l) ==> l.ready(),
                lens is Some <==> model is Some,
                lens matches Some(l) ==> model == Some(*l),
                runs@.len() == d,
                forall|k: int|
                    0 <= k < d ==> (#[trigger] runs@[k])@ == doc_bytes(docs[k], is_narrow, model),
            decreases self.docs@.len() - d,
        {
            let doc = &self.docs[d];
            let mut run: Vec<u8> = Vec::new();
            if is_narrow {
                match lens {
                    Some(l) => {
                        let cks = byte_checkpoints(doc, l);
                        push_u32(&mut run, doc.len() as u32);
                        push_u32s(&mut run, &cks);
                    },
                    None => {},
                }
                push_u24s(&mut run, doc);
            } else {
                push_u32s(&mut run, doc);
            }
            assert(run@ =~= doc_bytes(docs[d as int], is_narrow, model));
            runs.push(run);
            d += 1;
        }
        assert(bytes::deep(runs@) =~= doc_runs(docs, model));
        let mut out: Vec<u8> = Vec::new();
        push_u32(&mut out, magic);
        push_u32(&mut out, self.docs.len() as u32);
        push_starts64(&mut out, 0, &runs);
        push_flat(&mut out, &runs);
        assert(out@ =~= posmap_bytes(docs, model));
        out
    }
}

/// A function of lengths as a source of them.
pub open spec fn lens_of<'f, F: Fn(u32) -> Option<u16>>(own_len: Option<&'f F>) -> Option<
    LenFn<'f, F>,
> {
    match own_len {
        Some(f) => Some(LenFn { f }),
        None => None,
    }
}

/// Records a value in a slot, growing the documents to hold it.
pub fn put_slot(docs: &mut Vec<Vec<u32>>, doc_id: u32, position: u32, value: u32)
    requires
        doc_id < usize::MAX,
        position < usize::MAX,
    ensures
        offset_table::lists_of(final(docs)@) == with_slot(
            offset_table::lists_of(old(docs)@),
            doc_id as int,
            position as int,
            value,
        ),
{
    let d: usize = doc_id as usize;
    let p: usize = position as usize;
    grow_lists(docs, d + 1);
    let ghost g = offset_table::lists_of(docs@);
    assert(g.len() == docs@.len());
    grow_values(&mut docs[d], p + 1, EMPTY);
    let ghost h = offset_table::lists_of(docs@);
    assert(h =~= g.update(d as int, offset_table::padded(g[d as int], p + 1, EMPTY)));
    docs[d].set(p, value);
    assert(offset_table::lists_of(docs@) =~= with_slot(
        offset_table::lists_of(old(docs)@),
        doc_id as int,
        position as int,
        value,
    ));
}

/// Looks the ordinals at positions up.
pub struct PosMapReader<'a> {
    num_docs: u32,
    data: &'a [u8],
    width: usize,
    checkpoints: bool,
    gmap: Option<GmapReader<'a>>,
}

impl<'a> PosMapReader<'a> {
    /// The bytes the reader stands on.
    pub closed spec fn bytes(&self) -> Seq<u8> {
        self.data@
    }

    /// The global ids of the segment's ordinals, where there is a map.
    pub closed spec fn ids(&self) -> Option<Seq<u32>> {
        match self.gmap {
            Some(g) => Some(g.ids()),
            None => None,
        }
    }

    /// The reader holds a file and what its head says.
    pub closed spec fn wf(&self) -> bool {
        &&& opens(self.data@)
        &&& self.num_docs == count_in(self.data@)
        &&& self.width == width_in(self.data@)
        &&& self.checkpoints == bytes::tagged(self.data@, MAGIC_CHECKED)
        &&& self.gmap matches Some(g) ==> g.wf()
    }

    /// Opens a file; `None` with an unknown magic or if the data is too short
    /// for the table.
    pub fn open(bytes: &'a [u8]) -> (r: Option<Self>)
        ensures
            r is Some <==> opens(bytes@),
            r matches Some(t) ==> t.wf() && t.bytes() == bytes@ && t.ids() is None,
    {
        let len: usize = bytes.len();
        if len < 8 {
            return None;
        }
        let magic: u32 = read_u32(bytes, 0);
        let (width, checkpoints): (usize, bool) = if magic == MAGIC_WIDE {
            (4, false)
        } else if magic == MAGIC_NARROW {
            (3, false)
        } else if magic == MAGIC_CHECKED {
            (3, true)
        } else {
            return None;
        };
        let num_docs: u32 = read_u32(bytes, 4);
        if ((len - 8) / 8) as u64 <= num_docs as u64 {
            return None;
        }
        Some(PosMapReader { num_docs, data: bytes, width, checkpoints, gmap: None })
    }

    /// Whether the file has byte checkpoints.
    pub fn has_byte_checkpoints(&self) -> (r: bool)
        requires
            self.wf(),
        ensures
            r == bytes::tagged(self.bytes(), MAGIC_CHECKED),
    {
        self.checkpoints
    }

    /// Gives the global id of every ordinal from now on.
    pub fn with_gmap(self, gmap: GmapReader<'a>) -> (r: Self)
        requires
            self.wf(),
            gmap.wf(),
        ensures
            r.wf(),
            r.bytes() == self.bytes(),
            r.ids() == Some(gmap.ids()),
    {
        PosMapReader {
            num_docs: self.num_docs,
            data: self.data,
            width: self.width,
            checkpoints: self.checkpoints,
            gmap: Some(gmap),
        }
    }

    fn out(&self, local: u32) -> (r: u32)
        requires
            self.wf(),
            mapped(self.ids(), Some(local)),
        ensures
            r == outward(self.ids(), local),
    {
        match &self.gmap {
            Some(g) => g.global(local),
            None => local,
        }
    }

    /// Bytes per slot.
    pub fn slot_width(&self) -> (w: usize)
        requires
            self.wf(),
        ensures
            w == width_in(self.bytes()),
    {
        self.width
    }

    fn bound(&self, d: usize) -> (r: usize)
        requires
            self.wf(),
            d <= self.num_docs,
        ensures
            r == bound_in(self.bytes(), d as int),
            r <= data_in(self.bytes()).len(),
    {
        let len: usize = self.data.len();
        assert(8 + 8 * (self.num_docs + 1) <= len);
        let base: usize = 8 + 8 * (self.num_docs as usize + 1);
        let at: u64 = read_u64(self.data, 8 + 8 * d);
        if at <= (len - base) as u64 {
            at as usize
        } else {
            len - base
        }
    }

    fn doc_raw(&self, doc_id: u32) -> (r: &'a [u8])
        requires
            self.wf(),
            doc_id < count_in(self.bytes()),
        ensures
            r@ == region_in(self.bytes(), doc_id as int),
    {
        let len: usize = self.data.len();
        assert(8 + 8 * (self.num_docs + 1) <= len);
        let base: usize = 8 + 8 * (self.num_docs as usize + 1);
        let start: usize = self.bound(doc_id as usize);
        let end: usize = self.bound(doc_id as usize + 1);
        if start <= end {
            let r = part(self.data, base + start, base + end);
            assert(r@ =~= data_in(self.data@).subrange(start as int, end as int));
            r
        } else {
            let r = part(self.data, 0, 0);
            assert(r@ =~= Seq::<u8>::empty());
            r
        }
    }

    fn checkpoint_bytes(&self, raw: &[u8]) -> (n: usize)
        ensures
            n == checkpoint_len(raw@),
    {
        if raw.len() < 4 {
            return raw.len();
        }
        let n: u32 = read_u32(raw, 0);
        4 + 4 * (n / 16 + (if n % 16 == 0 {
            0u32
        } else {
            1u32
        })) as usize
    }

    fn doc_data(&self, doc_id: u32) -> (r: &'a [u8])
        requires
            self.wf(),
            doc_id < count_in(self.bytes()),
        ensures
            r@ == slots_in(self.bytes(), doc_id as int),
    {
        let raw = self.doc_raw(doc_id);
        if !self.checkpoints {
            return raw;
        }
        let skip: usize = self.checkpoint_bytes(raw);
        if skip <= raw.len() {
            part(raw, skip, raw.len())
        } else {
            let r = part(raw, raw.len(), raw.len());
            assert(r@ =~= Seq::<u8>::empty());
            r
        }
    }

    fn slot(&self, slots: &[u8], p: usize) -> (r: Option<u32>)
        requires
            self.wf(),
            width_in(self.bytes()) * (p + 1) <= slots@.len(),
        ensures
            r == slot_in(slots@, width_in(self.bytes()), p as int),
    {
        let len: usize = slots.len();
        if self.width == 4 {
            assert(4 * p + 4 <= len);
            let v: u32 = read_u32(slots, 4 * p);
            if v == EMPTY {
                None
            } else {
                Some(v)
            }
        } else {
            assert(3 * p + 3 <= len);
            let v: u32 = read_u24(slots, 3 * p);
            if v == EMPTY_NARROW {
                None
            } else {
                Some(v)
            }
        }
    }

    /// The source offset of `position` in `doc_id`: `None` without
    /// checkpoints, past the document, on an empty slot, or where a length is
    /// not known.
    pub fn byte_at<F: Fn(u32) -> Option<u16>>(&self, doc_id: u32, position: u32, own_len: F) -> (r:
        Option<u32>)
        requires
            self.wf(),
            own_lens::steady(own_len),
            whole_to(self.bytes(), doc_id, position),
            doc_mapped(self.bytes(), self.ids(), doc_id),
        ensures
            r == byte_in(self.bytes(), self.ids(), doc_id, position, (LenFn { f: &own_len })),
    {
        let lens = LenFn { f: &own_len };
        self.byte_with(doc_id, position, &lens)
    }

    /// The source offset of `position` in `doc_id`, with the lengths of a
    /// source.
    pub(crate) fn byte_with<L: OwnLens>(&self, doc_id: u32, position: u32, lens: &L) -> (r: Option<
        u32,
    >)
        requires
            self.wf(),
            lens.ready(),
            whole_to(self.bytes(), doc_id, position),
            doc_mapped(self.bytes(), self.ids(), doc_id),
        ensures
            r == byte_in(self.bytes(), self.ids(), doc_id, position, *lens),
    {
        if !self.checkpoints || doc_id >= self.num_docs {
            return None;
        }
        let raw = self.doc_raw(doc_id);
        let len: usize = raw.len();
        if len < 4 {
            return None;
        }
        let n: u32 = read_u32(raw, 0);
        if position >= n {
            return None;
        }
        let k: u32 = position / 16;
        let skip: usize = self.checkpoint_bytes(raw);
        assert(4 + 4 * k + 4 <= skip);
        assert(skip <= len);
        let first: u32 = read_u32(raw, 4 + 4 * (k as usize));
        let slots = part(raw, skip, len);
        let ghost s = self.bytes();
        assert(slots@ == slots_in(s, doc_id as int));
        assert(tokens_in(s, doc_id) > position);
        let mut acc: u32 = first;
        let mut p: u32 = 16 * k;
        while p < position
            invariant
                self.wf(),
                lens.ready(),
                s == self.bytes(),
                width_in(s) == 3,
                doc_id < count_in(s),
                doc_mapped(s, self.ids(), doc_id),
                16 * k <= p <= position,
                slots@ == slots_in(s, doc_id as int),
                3 * (position + 1) <= slots@.len(),
                tokens_in(s, doc_id) > position,
                raw@ == region_in(s, doc_id as int),
                position < checked_tokens(s, doc_id),
                k == position / 16,
                first == bytes::get32(raw@, 4 + 4 * k),
                walk_in(slots@, self.ids(), *lens, 16 * k as int, p as int, first) == Some(acc),
            decreases position - p,
        {
            assert(local_at(s, doc_id, p) == slot_in(slots@, 3, p as int));
            match self.slot(slots, p as usize) {
                None => {
                    acc = 0;
                },
                Some(local) => {
                    assert(mapped(self.ids(), local_at(s, doc_id, p)));
                    match lens.own_len(self.out(local)) {
                        Some(n) => {
                            acc = acc.wrapping_add(n as u32);
                        },
                        None => {
                            proof {
                                lemma_walk_none(
                                    slots@,
                                    self.ids(),
                                    *lens,
                                    16 * k as int,
                                    p + 1,
                                    position as int,
                                    first,
                                );
                            }
                            return None;
                        },
                    }
                },
            }
            p += 1;
        }
        match self.slot(slots, position as usize) {
            None => None,
            Some(_) => Some(acc),
        }
    }

    /// The ordinal at `position` in `doc_id`, if one stands there.
    pub fn ordinal_at(&self, doc_id: u32, position: u32) -> (r: Option<u32>)
        requires
            self.wf(),
            mapped(self.ids(), local_at(self.bytes(), doc_id, position)),
        ensures
            r == ordinal_in(self.bytes(), self.ids(), doc_id, position),
    {
        if doc_id >= self.num_docs {
            return None;
        }
        let slots = self.doc_data(doc_id);
        let n: usize = slots.len() / self.width;
        if position as u64 >= n as u64 {
            return None;
        }
        assert(self.width * (position + 1) <= slots@.len()) by (nonlinear_arith)
            requires
                position + 1 <= slots@.len() / (self.width as nat),
                self.width > 0,
        ;
        match self.slot(slots, position as usize) {
            Some(o) => Some(self.out(o)),
            None => None,
        }
    }

    /// The positions from `pos_from` up to `pos_to` in `doc_id` that hold an
    /// ordinal, with it.
    pub fn ordinals_range(&self, doc_id: u32, pos_from: u32, pos_to: u32) -> (out: Vec<(u32, u32)>)
        requires
            self.wf(),
            doc_mapped(self.bytes(), self.ids(), doc_id),
            tokens_in(self.bytes(), doc_id) <= u32::MAX,
        ensures
            out@ == range_in(
                self.bytes(),
                self.ids(),
                doc_id,
                pos_from as int,
                if pos_to <= tokens_in(self.bytes(), doc_id) {
                    pos_to as int
                } else {
                    tokens_in(self.bytes(), doc_id)
                },
            ),
    {
        let mut out: Vec<(u32, u32)> = Vec::new();
        if doc_id >= self.num_docs {
            return out;
        }
        let n: u32 = self.num_tokens(doc_id);
        let stop: u32 = if pos_to <= n {
            pos_to
        } else {
            n
        };
        let mut p: u32 = pos_from;
        while p < stop
            invariant
                self.wf(),
                doc_mapped(self.bytes(), self.ids(), doc_id),
                pos_from <= p,
                p <= stop || p == pos_from,
                out@ == range_in(self.bytes(), self.ids(), doc_id, pos_from as int, p as int),
            decreases stop - p,
        {
            assert(mapped(self.ids(), local_at(self.bytes(), doc_id, p)));
            match self.ordinal_at(doc_id, p) {
                Some(o) => {
                    out.push((p, o));
                },
                None => {},
            }
            p += 1;
        }
        out
    }

    /// Number of documents.
    pub fn num_docs(&self) -> (n: u32)
        requires
            self.wf(),
        ensures
            n == count_in(self.bytes()),
    {
        self.num_docs
    }

    /// Number of positions of a document.
    pub fn num_tokens(&self, doc_id: u32) -> (n: u32)
        requires
            self.wf(),
            tokens_in(self.bytes(), doc_id) <= u32::MAX,
        ensures
            n == tokens_in(self.bytes(), doc_id),
    {
        if doc_id >= self.num_docs {
            return 0;
        }
        let slots = self.doc_data(doc_id);
        (slots.len() / self.width) as u32
    }
}

proof fn lemma_walk_none<L: OwnLens>(
    slots: Seq<u8>,
    ids: Option<Seq<u32>>,
    lens: L,
    from: int,
    p: int,
    to: int,
    acc: u32,
)
    requires
        from < p <= to,
        walk_in(slots, ids, lens, from, p, acc) is None,
    ensures
        walk_in(slots, ids, lens, from, to, acc) is None,
    decreases to - p,
{
    if p < to {
        lemma_walk_none(slots, ids, lens, from, p + 1, to, acc);
    }
}

impl PosMapWriter {
    /// Number of documents.
    pub(crate) fn num_docs(&self) -> (n: usize)
        ensures
            n == self.docs().len(),
    {
        self.docs.len()
    }

    /// Number of positions of a document.
    pub(crate) fn num_positions(&self, d: usize) -> (n: usize)
        requires
            d < self.docs().len(),
        ensures
            n == self.docs()[d as int].len(),
    {
        self.docs[d].len()
    }

    /// The slot at a position.
    pub(crate) fn slot_at(&self, d: usize, p: usize) -> (slot: u32)
        requires
            d < self.docs().len(),
            p < self.docs()[d as int].len(),
        ensures
            slot == self.docs()[d as int][p as int],
    {
        self.docs[d][p]
    }
}

/// A written file starts with the magic of its layout.
pub proof fn lemma_magic<L: OwnLens>(docs: Seq<Seq<u32>>, lens: Option<L>)
    ensures
        bytes::tagged(posmap_bytes(docs, lens), magic_of(narrow(docs), lens is Some)),
{
    broadcast use bytes::group_le_len;

    let file = posmap_bytes(docs, lens);
    let magic = magic_of(narrow(docs), lens is Some);
    assert(file.subrange(0, 4) =~= bytes::le32(magic));
    bytes::lemma_get32(file, 0, magic);
}

/// Law: a range gives each of its positions that holds an ordinal, with it, in
/// order, and no other.
pub proof fn a_range_has_the_ordinals_in_it(
    s: Seq<u8>,
    ids: Option<Seq<u32>>,
    doc_id: u32,
    from: int,
    to: int,
    x: (u32, u32),
)
    requires
        0 <= from,
        to <= u32::MAX,
    ensures
        range_in(s, ids, doc_id, from, to).contains(x) <==> from <= x.0 < to && ordinal_in(s, ids, doc_id, x.0)
            == Some(x.1),
        forall|i: int, j: int|
            0 <= i < j < range_in(s, ids, doc_id, from, to).len() ==> (#[trigger] range_in(
                s,
                ids,
                doc_id,
                from,
                to,
            )[i]).0 < (#[trigger] range_in(s, ids, doc_id, from, to)[j]).0,
        forall|i: int|
            0 <= i < range_in(s, ids, doc_id, from, to).len() ==> (#[trigger] range_in(s, ids, doc_id, from, to)[i]).0
                < to,
    decreases to - from,
{
    let all = range_in(s, ids, doc_id, from, to);
    if from < to {
        a_range_has_the_ordinals_in_it(s, ids, doc_id, from, to - 1, x);
        let before = range_in(s, ids, doc_id, from, to - 1);
        if before.contains(x) {
            let i = choose|i: int| 0 <= i < before.len() && before[i] == x;
            assert(all[i] == x);
        }
        if all.contains(x) && !before.contains(x) {
            let i = choose|i: int| 0 <= i < all.len() && all[i] == x;
            if i < before.len() {
                assert(before[i] == x);
            }
        }
        if x.0 == to - 1 && ordinal_in(s, ids, doc_id, x.0) == Some(x.1) {
            assert(all[all.len() - 1] == x);
        }
    } else {
        assert(!all.contains(x));
    }
}

/// Law: recording an ordinal at a position puts it there and changes no other
/// position; those that come to be before it are empty.
pub proof fn recording_fills_one_slot(docs: Seq<Seq<u32>>, d: int, p: int, value: u32, e: int, q: int)
    requires
        0 <= d,
        0 <= p,
        0 <= e,
        0 <= q,
    ensures
        with_slot(docs, d, p, value).len() == if d < docs.len() {
            docs.len() as int
        } else {
            d + 1
        },
        d < with_slot(docs, d, p, value).len() && p < with_slot(docs, d, p, value)[d].len(),
        with_slot(docs, d, p, value)[d][p] == value,
        !(e == d && q == p) && e < docs.len() && q < docs[e].len() ==> with_slot(docs, d, p, value)[e][q]
            == docs[e][q],
        e != d && e < docs.len() ==> with_slot(docs, d, p, value)[e] == docs[e],
        docs.len() <= e < d ==> with_slot(docs, d, p, value)[e].len() == 0,
        q < p && (d >= docs.len() || q >= docs[d].len()) ==> with_slot(docs, d, p, value)[d][q] == EMPTY,
        d < docs.len() && p < docs[d].len() ==> with_slot(docs, d, p, value)[d].len() == docs[d].len(),
{
}

/// The lengths of the ordinals from `from` up to `to`, added up; a length that
/// is not known counts as 0.
pub open spec fn lengths_between<L: OwnLens>(slots: Seq<u32>, lens: L, from: int, to: int) -> int
    decreases to - from,
{
    if from >= to {
        0
    } else {
        lengths_between(slots, lens, from, to - 1) + (match lens.len_of(slots[to - 1]) {
            Some(n) => n as int,
            None => 0,
        })
    }
}

/// Law: the source offset of a position is how many bytes the ordinals before
/// it own, counted from the start of its value: behind the last empty slot, or
/// from the first position on.
pub proof fn bytes_are_counted_from_the_start_of_a_value<L: OwnLens>(slots: Seq<u32>, lens: L, from: int, p: int)
    requires
        0 <= from <= p <= slots.len(),
        from > 0 ==> slots[from - 1] == EMPTY,
        forall|i: int| from <= i < p ==> (#[trigger] slots[i]) != EMPTY,
        lengths_between(slots, lens, from, p) <= u32::MAX,
    ensures
        byte_before(slots, lens, p) == lengths_between(slots, lens, from, p),
        0 <= lengths_between(slots, lens, from, p),
    decreases p - from,
{
    if from < p {
        lemma_lengths_grow(slots, lens, from, p - 1);
        bytes_are_counted_from_the_start_of_a_value(slots, lens, from, p - 1);
        assert(slots[p - 1] != EMPTY);
    }
}

proof fn lemma_lengths_grow<L: OwnLens>(slots: Seq<u32>, lens: L, from: int, to: int)
    ensures
        0 <= lengths_between(slots, lens, from, to),
        from <= to ==> lengths_between(slots, lens, from, to) <= lengths_between(slots, lens, from, to + 1),
    decreases to - from,
{
    if from < to {
        lemma_lengths_grow(slots, lens, from, to - 1);
    }
}

/// Law: with global ids, a position of a written file has the global id of the
/// ordinal that was recorded there, and none where none was.
pub proof fn positions_have_global_ids<L: OwnLens>(
    docs: Seq<Seq<u32>>,
    lens: Option<L>,
    ids: Seq<u32>,
    doc_id: u32,
    position: u32,
)
    requires
        docs.len() <= u32::MAX,
        bytes::flat(doc_runs(docs, lens)).len() <= u64::MAX,
        forall|d: int| 0 <= d < docs.len() ==> (#[trigger] docs[d]).len() <= u32::MAX,
    ensures
        ordinal_in(posmap_bytes(docs, lens), Some(ids), doc_id, position) == if doc_id < docs.len() && position
            < docs[doc_id as int].len() && docs[doc_id as int][position as int] != EMPTY {
            Some(ids[docs[doc_id as int][position as int] as int])
        } else {
            None
        },
{
    written_positions_read_back(docs, lens, doc_id, position);
}

} // verus!
