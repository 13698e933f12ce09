//! Term texts: the text of each ordinal.
//!
//! ```text
//! [4 bytes] magic "TTXT"
//! [4 bytes] number of terms
//! [4 bytes × (number + 1)] offsets into the texts
//! the texts, UTF-8, one after the other
//! ```

use vstd::prelude::*;
use vstd::string::*;
use vstd::utf8::*;

use crate::bytes;
use crate::bytes::{has_tag, part, push_bytes, push_u32, read_u32};
use crate::offset_table;
use crate::offset_table::{grow_runs, has_table, push_runs, read_offset};
use crate::text;
use crate::text::utf8_text;

verus! {

/// `TTXT`.
pub const TERM_TEXTS_MAGIC: u32 = 0x54585454;

/// The file of the texts, given as their bytes.
pub open spec fn texts_bytes(texts: Seq<Seq<u8>>) -> Seq<u8> {
    bytes::le32(TERM_TEXTS_MAGIC) + bytes::le32(texts.len() as u32) + offset_table::runs_bytes(texts)
}

/// Whether the data holds the magic, a count and its whole offset table.
pub open spec fn opens(s: Seq<u8>) -> bool {
    s.len() >= 8 && bytes::tagged(s, TERM_TEXTS_MAGIC) && offset_table::table_fits(s, 8, bytes::get32(s, 4) as int)
}

/// The text of `ordinal`: `None` past the table, where the bytes are not all
/// there, or where they are not UTF-8.
pub open spec fn text_in(s: Seq<u8>, ordinal: u32) -> Option<Seq<char>> {
    let n = bytes::get32(s, 4) as int;
    if ordinal >= n || offset_table::offset_at(s, 8, ordinal + 1) > offset_table::after_table(s, 8, n).len() {
        None
    } else {
        text::text_of(
            offset_table::after_table(s, 8, n).subrange(
                offset_table::offset_at(s, 8, ordinal as int),
                offset_table::offset_at(s, 8, ordinal + 1),
            ),
        )
    }
}

/// Whether the offsets around `ordinal` ascend.
pub open spec fn ordered_at(s: Seq<u8>, ordinal: u32) -> bool {
    offset_table::offset_at(s, 8, ordinal as int) <= offset_table::offset_at(s, 8, ordinal + 1)
}

/// Whether the offsets ascend around every ordinal of the table.
pub open spec fn ordered(s: Seq<u8>) -> bool {
    forall|o: u32| o < bytes::get32(s, 4) ==> #[trigger] ordered_at(s, o)
}

/// Law: every text that was written reads back under its ordinal.
pub proof fn written_texts_read_back(texts: Seq<Seq<u8>>, ordinal: u32)
    requires
        texts.len() <= u32::MAX,
        bytes::flat(texts).len() <= u32::MAX,
    ensures
        opens(texts_bytes(texts)),
        bytes::get32(texts_bytes(texts), 4) == texts.len(),
        ordered(texts_bytes(texts)),
        text_in(texts_bytes(texts), ordinal) == if ordinal < texts.len() {
            text::text_of(texts[ordinal as int])
        } else {
            None
        },
{
    let file = texts_bytes(texts);
    let head = bytes::le32(TERM_TEXTS_MAGIC) + bytes::le32(texts.len() as u32);
    broadcast use bytes::group_le_len;

    bytes::lemma_le32s_len(bytes::starts32(texts));
    assert(file =~= head + offset_table::runs_bytes(texts));
    assert(file.subrange(0, 4) =~= bytes::le32(TERM_TEXTS_MAGIC));
    assert(file.subrange(4, 8) =~= bytes::le32(texts.len() as u32));
    bytes::lemma_get32(file, 0, TERM_TEXTS_MAGIC);
    bytes::lemma_get32(file, 4, texts.len() as u32);
    assert forall|o: u32| o < texts.len() implies #[trigger] ordered_at(file, o) by {
        offset_table::written_runs_read_back(head, texts, o as int);
    }
    if ordinal < texts.len() {
        offset_table::written_runs_read_back(head, texts, ordinal as int);
        bytes::lemma_flat_at(texts, ordinal as int);
    }
}

/// Collects the texts.
pub struct TermTextsWriter {
    texts: Vec<Vec<u8>>,
}

impl TermTextsWriter {
    /// The bytes of the texts, by ordinal.
    pub closed spec fn texts(&self) -> Seq<Seq<u8>> {
        bytes::deep(self.texts@)
    }

    /// No texts.
    pub fn new() -> (r: Self)
        ensures
            r.texts() == Seq::<Seq<u8>>::empty(),
    {
        let r = TermTextsWriter { texts: Vec::new() };
        assert(r.texts() =~= Seq::<Seq<u8>>::empty());
        r
    }

    /// Sets the text of `ordinal`; ordinals skipped before it are empty.
    pub fn add(&mut self, ordinal: u32, text: &str)
        requires
            ordinal < usize::MAX,
        ensures
            final(self).texts() == offset_table::padded(old(self).texts(), ordinal + 1, Seq::empty()).update(
                ordinal as int,
                encode_utf8(text@),
            ),
    {
        let ord: usize = ordinal as usize;
        grow_runs(&mut self.texts, ord + 1);
        let ghost mid = self.texts();
        assert(mid.len() == self.texts@.len());
        let mut own: Vec<u8> = Vec::new();
        push_bytes(&mut own, text.as_bytes());
        assert(own@ =~= encode_utf8(text@));
        self.texts.set(ord, own);
        assert(self.texts() =~= mid.update(ord as int, encode_utf8(text@)));
    }

    /// The file.
    pub fn serialize(&self) -> (out: Vec<u8>)
        requires
            self.texts().len() <= u32::MAX,
            bytes::flat(self.texts()).len() <= u32::MAX,
        ensures
            out@ == texts_bytes(self.texts()),
    {
        let mut out: Vec<u8> = Vec::new();
        push_u32(&mut out, TERM_TEXTS_MAGIC);
        push_u32(&mut out, self.texts.len() as u32);
        push_runs(&mut out, &self.texts);
        assert(out@ =~= texts_bytes(self.texts()));
        out
    }
}

/// Looks the text of an ordinal up.
pub struct TermTextsReader<'a> {
    num_terms: u32,
    data: &'a [u8],
}

impl<'a> TermTextsReader<'a> {
    /// The bytes the reader stands on.
    pub closed spec fn bytes(&self) -> Seq<u8> {
        self.data@
    }

    /// The reader holds a table and its length.
    pub closed spec fn wf(&self) -> bool {
        opens(self.data@) && self.num_terms == bytes::get32(self.data@, 4)
    }

    /// Opens a file; `None` without the magic or if the data is too short for
    /// the table.
    pub fn open(bytes: &'a [u8]) -> (r: Option<Self>)
        ensures
            r is Some <==> opens(bytes@),
            r matches Some(t) ==> t.wf() && t.bytes() == bytes@,
    {
        if bytes.len() < 8 || !has_tag(bytes, TERM_TEXTS_MAGIC) {
            return None;
        }
        let num_terms: u32 = read_u32(bytes, 4);
        if !has_table(bytes, 8, num_terms) {
            return None;
        }
        Some(TermTextsReader { num_terms, data: bytes })
    }

    /// The text of `ordinal`.
    pub fn text(&self, ordinal: u32) -> (r: Option<&'a str>)
        requires
            self.wf(),
            ordinal < bytes::get32(self.bytes(), 4) ==> ordered_at(self.bytes(), ordinal),
        ensures
            r is Some <==> text_in(self.bytes(), ordinal) is Some,
            r matches Some(t) ==> text_in(self.bytes(), ordinal) == Some(t@),
    {
        if ordinal >= self.num_terms {
            return None;
        }
        let n: u32 = self.num_terms;
        let len: usize = self.data.len();
        assert(8 + 4 * (n + 1) <= len);
        let base: usize = 8 + 4 * (n as usize + 1);
        let start: u32 = read_offset(self.data, 8, n, ordinal);
        let end: u32 = read_offset(self.data, 8, n, ordinal + 1);
        if end as u64 > (len - base) as u64 {
            return None;
        }
        let own = part(self.data, base + start as usize, base + end as usize);
        assert(own@ =~= offset_table::after_table(self.data@, 8, n as int).subrange(start as int, end as int));
        let r = utf8_text(own);
        proof {
            if let Some(t) = r {
                encode_utf8_decode_utf8(t@);
            }
        }
        r
    }

    /// Number of terms.
    pub fn num_terms(&self) -> (n: u32)
        requires
            self.wf(),
        ensures
            n == bytes::get32(self.bytes(), 4),
    {
        self.num_terms
    }
}

} // verus!
