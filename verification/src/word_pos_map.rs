//! Word-position map: for each document and position, the word that starts
//! there, with its length in chunks.
//!
//! ```text
//! [4 bytes] magic "WMP3"
//! [4 bytes] number of documents
//! [8 bytes × (number + 1)] offsets into the data
//! data, per document: one 4-byte slot per position
//! ```
//!
//! The low 28 bits of a slot are the word's ordinal, the high 4 its span, the
//! distance from its first chunk to its last; a span of 15 stands for that or
//! more. A slot of ones holds no word. In a `WMP2` file the ordinal has 24
//! bits and the span 8.

use vstd::prelude::*;

use crate::bytes;
use crate::bytes::{part, push_flat, push_starts64, push_u32, read_u32, read_u64};
use crate::offset_table;
use crate::offset_table::encode_lists;
use crate::posmap;
use crate::posmap::{EMPTY, put_slot};

verus! {

/// `WMP3`.
pub const MAGIC_V3: u32 = 0x33504D57;

/// `WMP2`.
pub const MAGIC_V2: u32 = 0x32504D57;

/// Bits of the ordinal in a slot.
pub const SLOT_ORDINAL_BITS: u32 = 28;

/// One past the largest ordinal of a slot.
pub const ORDINAL_LIMIT: u32 = 0x10000000;

/// One past the largest ordinal of a `WMP2` slot.
pub const ORDINAL_LIMIT_V2: u32 = 0x1000000;

/// The largest span of a slot; written for all spans from it on.
pub const SLOT_SPAN_MAX: u32 = 15;

/// The span a reader gives where the slot could not hold it.
pub const SPAN_OVERFLOW: u32 = 255;

/// The slot of a word.
pub open spec fn word_slot(first: u32, last: u32, ordinal: u32) -> u32 {
    let span = if last <= first {
        0
    } else if last - first < SLOT_SPAN_MAX {
        last - first
    } else {
        SLOT_SPAN_MAX as int
    };
    (ordinal + span * ORDINAL_LIMIT) as u32
}

/// The data of each document.
pub open spec fn slot_runs(docs: Seq<Seq<u32>>) -> Seq<Seq<u8>> {
    offset_table::value_runs(docs)
}

/// The file of the documents, one list of slots each.
pub open spec fn word_map_bytes(docs: Seq<Seq<u32>>) -> Seq<u8> {
    bytes::le32(MAGIC_V3) + bytes::le32(docs.len() as u32) + bytes::le64s(bytes::starts64(slot_runs(docs), 0)) + bytes::flat(
        slot_runs(docs),
    )
}

/// Number of documents of a file.
pub open spec fn count_in(s: Seq<u8>) -> u32 {
    bytes::get32(s, 4)
}

/// Whether the data holds a known magic, a count and its whole offset table.
pub open spec fn opens(s: Seq<u8>) -> bool {
    &&& s.len() >= 8
    &&& bytes::tagged(s, MAGIC_V3) || bytes::tagged(s, MAGIC_V2)
    &&& 8 + 8 * (count_in(s) + 1) <= s.len()
}

/// Where a document's slots start, from the first byte behind the table.
pub open spec fn start_in(s: Seq<u8>, doc_id: int) -> int {
    bytes::get64(s, 8 + 8 * doc_id) as int
}

/// The data behind the offset table.
pub open spec fn data_in(s: Seq<u8>) -> Seq<u8> {
    s.subrange(8 + 8 * (count_in(s) + 1), s.len() as int)
}

/// Whether the offsets around a document ascend.
pub open spec fn ordered_at(s: Seq<u8>, doc_id: u32) -> bool {
    doc_id < count_in(s) ==> start_in(s, doc_id as int) <= start_in(s, doc_id + 1)
}

/// Number of positions of a document; none past the table.
pub open spec fn positions_in(s: Seq<u8>, doc_id: u32) -> int {
    if doc_id >= count_in(s) {
        0
    } else {
        (start_in(s, doc_id + 1) - start_in(s, doc_id as int)) / 4
    }
}

/// The slot at a position; `None` past the document or the data, or where no
/// word starts.
pub open spec fn slot_in(s: Seq<u8>, doc_id: u32, position: u32) -> Option<u32> {
    let p = start_in(s, doc_id as int) + 4 * position;
    if position >= positions_in(s, doc_id) || p + 4 > data_in(s).len() || bytes::get32(data_in(s), p) == EMPTY {
        None
    } else {
        Some(bytes::get32(data_in(s), p))
    }
}

/// The word that starts at a position and its span.
pub open spec fn word_in(s: Seq<u8>, doc_id: u32, position: u32) -> Option<(u32, u32)> {
    match slot_in(s, doc_id, position) {
        None => None,
        Some(slot) => if bytes::tagged(s, MAGIC_V2) {
            Some((slot % ORDINAL_LIMIT_V2, slot / ORDINAL_LIMIT_V2))
        } else if slot / ORDINAL_LIMIT >= SLOT_SPAN_MAX {
            Some((slot % ORDINAL_LIMIT, SPAN_OVERFLOW))
        } else {
            Some((slot % ORDINAL_LIMIT, slot / ORDINAL_LIMIT))
        },
    }
}

/// Law: every slot that was written reads back.
pub proof fn written_slots_read_back(docs: Seq<Seq<u32>>, doc_id: u32, position: u32)
    requires
        docs.len() <= u32::MAX,
        bytes::flat(slot_runs(docs)).len() <= u64::MAX,
    ensures
        opens(word_map_bytes(docs)),
        count_in(word_map_bytes(docs)) == docs.len(),
        bytes::tagged(word_map_bytes(docs), MAGIC_V3),
        ordered_at(word_map_bytes(docs), doc_id),
        positions_in(word_map_bytes(docs), doc_id) == if doc_id < docs.len() {
            docs[doc_id as int].len() as int
        } else {
            0
        },
        slot_in(word_map_bytes(docs), doc_id, position) == if doc_id < docs.len() && position
            < docs[doc_id as int].len() && docs[doc_id as int][position as int] != EMPTY {
            Some(docs[doc_id as int][position as int])
        } else {
            None
        },
{
    broadcast use bytes::group_le_len;

    let file = word_map_bytes(docs);
    let runs = slot_runs(docs);
    let t = bytes::starts64(runs, 0);
    bytes::lemma_le64s_len(t);
    assert(file.subrange(0, 4) =~= bytes::le32(MAGIC_V3));
    assert(file.subrange(4, 8) =~= bytes::le32(docs.len() as u32));
    bytes::lemma_get32(file, 0, MAGIC_V3);
    bytes::lemma_get32(file, 4, docs.len() as u32);
    assert(file.subrange(8, 8 + 8 * t.len() as int) =~= bytes::le64s(t));
    assert(data_in(file) =~= bytes::flat(runs));
    if doc_id < docs.len() {
        let d = doc_id as int;
        bytes::lemma_flat_at(runs, d);
        bytes::lemma_table64(file, 8, t, d);
        bytes::lemma_table64(file, 8, t, d + 1);
        bytes::lemma_le32s_len(docs[d]);
        if position < docs[d].len() {
            let at = bytes::start_of(runs, d);
            assert(bytes::flat(runs).subrange(at, at + 4 * docs[d].len()) == bytes::le32s(docs[d]));
            bytes::lemma_table32(bytes::flat(runs), at, docs[d], position as int);
        }
    }
}

/// Law: a recorded word reads back with its ordinal and its span, or with the
/// overflow mark where the span is 15 or more, but for the one word whose slot
/// is that of no word.
pub proof fn recorded_word_reads_back(
    docs: Seq<Seq<u32>>,
    doc_id: u32,
    first: u32,
    last: u32,
    ordinal: u32,
)
    requires
        docs.len() <= u32::MAX,
        bytes::flat(slot_runs(docs)).len() <= u64::MAX,
        ordinal < ORDINAL_LIMIT,
        doc_id < docs.len(),
        first < docs[doc_id as int].len(),
        docs[doc_id as int][first as int] == word_slot(first, last, ordinal),
        ordinal < ORDINAL_LIMIT - 1 || last < first + 15,
    ensures
        word_in(word_map_bytes(docs), doc_id, first) == Some(
            (
                ordinal,
                if last <= first {
                    0u32
                } else if last - first < 15 {
                    (last - first) as u32
                } else {
                    SPAN_OVERFLOW
                },
            ),
        ),
{
    written_slots_read_back(docs, doc_id, first);
    let file = word_map_bytes(docs);
    assert(!bytes::tagged(file, MAGIC_V2));
}

/// Collects the words at positions.
pub struct WordPosMapWriter {
    docs: Vec<Vec<u32>>,
    overflow: bool,
}

impl Default for WordPosMapWriter {
    fn default() -> (r: Self)
        ensures
            r.docs() == Seq::<Seq<u32>>::empty(),
            !r.overflowed(),
    {
        Self::new()
    }
}

impl WordPosMapWriter {
    /// The slots of each document.
    pub closed spec fn docs(&self) -> Seq<Seq<u32>> {
        offset_table::lists_of(self.docs@)
    }

    /// Whether an ordinal did not fit.
    pub closed spec fn overflowed(&self) -> bool {
        self.overflow
    }

    /// No documents.
    pub fn new() -> (r: Self)
        ensures
            r.docs() == Seq::<Seq<u32>>::empty(),
            !r.overflowed(),
    {
        let r = WordPosMapWriter { docs: Vec::new(), overflow: false };
        assert(r.docs() =~= Seq::<Seq<u32>>::empty());
        r
    }

    /// Records that the word `ordinal` starts at `first` in `doc_id` and ends
    /// at `last`. An ordinal that does not fit is not recorded, and the map is
    /// then not written.
    pub fn add_word(&mut self, doc_id: u32, first: u32, last: u32, ordinal: u32)
        requires
            doc_id < usize::MAX,
            first < usize::MAX,
        ensures
            ordinal >= ORDINAL_LIMIT ==> final(self).overflowed() && final(self).docs() == old(self).docs(),
            ordinal < ORDINAL_LIMIT ==> final(self).overflowed() == old(self).overflowed() && final(self).docs() == posmap::with_slot(
                old(self).docs(),
                doc_id as int,
                first as int,
                word_slot(first, last, ordinal),
            ),
    {
        if ordinal >= ORDINAL_LIMIT {
            self.overflow = true;
            return;
        }
        let span: u32 = if last <= first {
            0
        } else if last - first < SLOT_SPAN_MAX {
            last - first
        } else {
            SLOT_SPAN_MAX
        };
        let slot: u32 = ordinal + span * ORDINAL_LIMIT;
        put_slot(&mut self.docs, doc_id, first, slot);
    }

    /// Records a slot as it is.
    pub fn add(&mut self, doc_id: u32, position: u32, slot: u32)
        requires
            doc_id < usize::MAX,
            position < usize::MAX,
        ensures
            final(self).docs() == posmap::with_slot(old(self).docs(), doc_id as int, position as int, slot),
            final(self).overflowed() == old(self).overflowed(),
    {
        put_slot(&mut self.docs, doc_id, position, slot);
    }

    /// The file; empty where an ordinal did not fit.
    pub fn serialize(&self) -> (out: Vec<u8>)
        requires
            self.overflowed() || self.docs().len() <= u32::MAX,
            self.overflowed() || bytes::flat(slot_runs(self.docs())).len() <= u64::MAX,
        ensures
            out@ == if self.overflowed() {
                Seq::empty()
            } else {
                word_map_bytes(self.docs())
            },
    {
        let mut out: Vec<u8> = Vec::new();
        if self.overflow {
            return out;
        }
        let runs = encode_lists(&self.docs);
        push_u32(&mut out, MAGIC_V3);
        push_u32(&mut out, self.docs.len() as u32);
        push_starts64(&mut out, 0, &runs);
        push_flat(&mut out, &runs);
        assert(out@ =~= word_map_bytes(self.docs()));
        out
    }
}

/// Looks the words at positions up.
pub struct WordPosMapReader<'a> {
    num_docs: u32,
    data: &'a [u8],
    v2: bool,
}

impl<'a> WordPosMapReader<'a> {
    /// The bytes the reader stands on.
    pub closed spec fn bytes(&self) -> Seq<u8> {
        self.data@
    }

    /// The reader holds a file and what its head says.
    pub closed spec fn wf(&self) -> bool {
        &&& opens(self.data@)
        &&& self.num_docs == count_in(self.data@)
        &&& self.v2 == bytes::tagged(self.data@, MAGIC_V2)
    }

    /// Opens a file; `None` with another magic or if the data is too short for
    /// the table.
    pub fn open(bytes: &'a [u8]) -> (r: Option<Self>)
        ensures
            r is Some <==> opens(bytes@),
            r matches Some(t) ==> t.wf() && t.bytes() == bytes@,
    {
        let len: usize = bytes.len();
        if len < 8 {
            return None;
        }
        let magic: u32 = read_u32(bytes, 0);
        if magic != MAGIC_V3 && magic != MAGIC_V2 {
            return None;
        }
        let num_docs: u32 = read_u32(bytes, 4);
        if ((len - 8) / 8) as u64 <= num_docs as u64 {
            return None;
        }
        Some(WordPosMapReader { num_docs, data: bytes, v2: magic == MAGIC_V2 })
    }

    /// Number of documents.
    pub fn num_docs(&self) -> (n: u32)
        requires
            self.wf(),
        ensures
            n == count_in(self.bytes()),
    {
        self.num_docs
    }

    fn start(&self, d: usize) -> (r: u64)
        requires
            self.wf(),
            d <= self.num_docs,
        ensures
            r == start_in(self.bytes(), d as int),
    {
        let len: usize = self.data.len();
        assert(8 + 8 * (self.num_docs + 1) <= len);
        read_u64(self.data, 8 + 8 * d)
    }

    /// Number of positions of a document.
    pub fn num_positions(&self, doc_id: u32) -> (n: u32)
        requires
            self.wf(),
            ordered_at(self.bytes(), doc_id),
            positions_in(self.bytes(), doc_id) <= u32::MAX,
        ensures
            n == positions_in(self.bytes(), doc_id),
    {
        if doc_id >= self.num_docs {
            return 0;
        }
        let start: u64 = self.start(doc_id as usize);
        let end: u64 = self.start(doc_id as usize + 1);
        ((end - start) / 4) as u32
    }

    /// The slot at `position` in `doc_id`, if a word starts there.
    pub fn word_at(&self, doc_id: u32, position: u32) -> (r: Option<u32>)
        requires
            self.wf(),
            ordered_at(self.bytes(), doc_id),
        ensures
            r == slot_in(self.bytes(), doc_id, position),
    {
        if doc_id >= self.num_docs {
            return None;
        }
        let start: u64 = self.start(doc_id as usize);
        let end: u64 = self.start(doc_id as usize + 1);
        if position as u64 >= (end - start) / 4 {
            return None;
        }
        let len: usize = self.data.len();
        assert(8 + 8 * (self.num_docs + 1) <= len);
        let base: usize = 8 + 8 * (self.num_docs as usize + 1);
        let p: u64 = start + 4 * (position as u64);
        if p + 4 > (len - base) as u64 {
            return None;
        }
        let rest = part(self.data, base, len);
        assert(rest@ =~= data_in(self.data@));
        let slot: u32 = read_u32(rest, p as usize);
        if slot == EMPTY {
            None
        } else {
            Some(slot)
        }
    }

    /// The word that starts at `position` and its span; `SPAN_OVERFLOW` where
    /// the slot could not hold the span.
    pub fn word_start_at(&self, doc_id: u32, position: u32) -> (r: Option<(u32, u32)>)
        requires
            self.wf(),
            ordered_at(self.bytes(), doc_id),
        ensures
            r == word_in(self.bytes(), doc_id, position),
    {
        match self.word_at(doc_id, position) {
            None => None,
            Some(slot) => {
                if self.v2 {
                    return Some((slot % ORDINAL_LIMIT_V2, slot / ORDINAL_LIMIT_V2));
                }
                let span: u32 = slot / ORDINAL_LIMIT;
                Some(
                    (
                        slot % ORDINAL_LIMIT,
                        if span >= SLOT_SPAN_MAX {
                            SPAN_OVERFLOW
                        } else {
                            span
                        },
                    ),
                )
            },
        }
    }
}

} // verus!
