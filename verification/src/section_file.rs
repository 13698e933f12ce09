//! Section-based binary file format: an extensible container for numbered
//! sections.
//!
//! ```text
//! [4 bytes]  magic (caller-defined, e.g. "SFX3")
//! [1 byte]   version
//! [2 bytes]  num_sections: u16 LE
//! [section table: num_sections x 12 bytes]
//!   [2 bytes]  section_id: u16 LE
//!   [2 bytes]  reserved (0)
//!   [4 bytes]  offset: u32 LE (from start of data area)
//!   [4 bytes]  length: u32 LE
//! [data area: concatenated section payloads]
//! ```

use vstd::prelude::*;

use crate::bytes;
use crate::bytes::{has_tag, part, push_bytes, push_flat, push_u16, push_u32, read_u16, read_u32};

verus! {

/// The magic "SFX1", read as a little-endian integer.
pub const SFX1: u32 = 0x31584653;

/// The magic "SFX2", read as a little-endian integer.
pub const SFX2: u32 = 0x32584653;

/// The magic "SFX3", read as a little-endian integer.
pub const SFX3: u32 = 0x33584653;

/// The magic "TTX3", read as a little-endian integer.
pub const TTX3: u32 = 0x33585454;

/// The magic "TTXT", read as a little-endian integer.
pub const TTXT: u32 = 0x54585454;

/// A section descriptor from the section table.
#[derive(Debug, Clone, Copy, PartialEq, Eq, Structural)]
pub struct SectionDesc {
    pub id: u16,
    pub offset: u32,
    pub length: u32,
}

/// One entry of the section table.
pub open spec fn entry_bytes(d: SectionDesc) -> Seq<u8> {
    bytes::le16(d.id) + bytes::le16(0) + bytes::le32(d.offset) + bytes::le32(d.length)
}

/// The descriptor of section `i`.
pub open spec fn desc_of(ids: Seq<u16>, payloads: Seq<Seq<u8>>, i: int) -> SectionDesc {
    SectionDesc {
        id: ids[i],
        offset: bytes::start_of(payloads, i) as u32,
        length: payloads[i].len() as u32,
    }
}

/// The entries of the first `k` sections.
pub open spec fn entries_bytes(ids: Seq<u16>, payloads: Seq<Seq<u8>>, k: int) -> Seq<u8>
    decreases k,
{
    if k <= 0 {
        Seq::empty()
    } else {
        entries_bytes(ids, payloads, k - 1) + entry_bytes(desc_of(ids, payloads, k - 1))
    }
}

/// The bytes of a whole file.
pub open spec fn file_bytes(
    magic: Seq<u8>,
    version: u8,
    ids: Seq<u16>,
    payloads: Seq<Seq<u8>>,
) -> Seq<u8> {
    magic + seq![version] + bytes::le16(ids.len() as u16) + entries_bytes(
        ids,
        payloads,
        ids.len() as int,
    ) + bytes::flat(payloads)
}

/// Builds a section-based file by accumulating numbered sections.
pub struct SectionFileWriter {
    magic: [u8; 4],
    version: u8,
    ids: Vec<u16>,
    payloads: Vec<Vec<u8>>,
    data_len: u32,
}

impl SectionFileWriter {
    /// The offsets kept are those of the payloads.
    pub closed spec fn wf(&self) -> bool {
        &&& self.ids@.len() == self.payloads@.len()
        &&& self.data_len == bytes::flat(bytes::deep(self.payloads@)).len()
    }

    pub closed spec fn spec_magic(&self) -> Seq<u8> {
        self.magic@
    }

    pub closed spec fn spec_version(&self) -> u8 {
        self.version
    }

    /// The section ids, in the order they were added.
    pub closed spec fn ids(&self) -> Seq<u16> {
        self.ids@
    }

    /// The section payloads, in the order they were added.
    pub closed spec fn payloads(&self) -> Seq<Seq<u8>> {
        bytes::deep(self.payloads@)
    }

    /// Create a new writer with the given magic bytes and version.
    pub fn new(magic: [u8; 4], version: u8) -> (r: Self)
        ensures
            r.wf(),
            r.spec_magic() == magic@,
            r.spec_version() == version,
            r.ids() == Seq::<u16>::empty(),
            r.payloads() == Seq::<Seq<u8>>::empty(),
    {
        let r = Self { magic, version, ids: Vec::new(), payloads: Vec::new(), data_len: 0 };
        assert(bytes::deep(r.payloads@) =~= Seq::<Seq<u8>>::empty());
        r
    }

    /// Add a section. Returns the section's offset in the data area.
    pub fn add_section(&mut self, section_id: u16, payload: &[u8]) -> (offset: u32)
        requires
            old(self).wf(),
            bytes::flat(old(self).payloads()).len() + payload@.len() <= u32::MAX,
        ensures
            final(self).wf(),
            final(self).spec_magic() == old(self).spec_magic(),
            final(self).spec_version() == old(self).spec_version(),
            final(self).ids() == old(self).ids().push(section_id),
            final(self).payloads() == old(self).payloads().push(payload@),
            offset == bytes::flat(old(self).payloads()).len(),
    {
        let offset: u32 = self.data_len;
        let mut copy: Vec<u8> = Vec::new();
        push_bytes(&mut copy, payload);
        assert(copy@ =~= payload@);
        self.ids.push(section_id);
        self.payloads.push(copy);
        self.data_len = self.data_len + payload.len() as u32;
        proof {
            assert(bytes::deep(self.payloads@) =~= bytes::deep(old(self).payloads@).push(payload@));
            assert(bytes::deep(self.payloads@).drop_last() =~= bytes::deep(old(self).payloads@));
        }
        offset
    }

    /// Serialize the complete file to bytes.
    pub fn serialize(&self) -> (out: Vec<u8>)
        requires
            self.wf(),
            self.ids().len() <= u16::MAX,
        ensures
            out@ == file_bytes(
                self.spec_magic(),
                self.spec_version(),
                self.ids(),
                self.payloads(),
            ),
    {
        let ghost ids = self.ids@;
        let ghost blobs = bytes::deep(self.payloads@);
        let mut out: Vec<u8> = Vec::new();
        out.push(self.magic[0]);
        out.push(self.magic[1]);
        out.push(self.magic[2]);
        out.push(self.magic[3]);
        out.push(self.version);
        push_u16(&mut out, self.ids.len() as u16);
        let ghost head = self.magic@ + seq![self.version] + bytes::le16(ids.len() as u16);
        assert(out@ =~= head);
        let mut pos: u32 = 0;
        let mut i: usize = 0;
        proof {
            bytes::lemma_start_ends(blobs);
        }
        while i < self.ids.len()
            invariant
                i <= ids.len(),
                ids == self.ids@,
                blobs == bytes::deep(self.payloads@),
                self.wf(),
                pos == bytes::start_of(blobs, i as int),
                out@ == head + entries_bytes(ids, blobs, i as int),
            decreases ids.len() - i,
        {
            proof {
                bytes::lemma_flat_at(blobs, i as int);
            }
            let len: u32 = self.payloads[i].len() as u32;
            push_u16(&mut out, self.ids[i]);
            push_u16(&mut out, 0);
            push_u32(&mut out, pos);
            push_u32(&mut out, len);
            pos = pos + len;
            i += 1;
            proof {
                assert(out@ =~= head + entries_bytes(ids, blobs, i as int));
            }
        }
        push_flat(&mut out, &self.payloads);
        assert(out@ =~= file_bytes(self.magic@, self.version, ids, blobs));
        out
    }

    /// Number of sections added.
    pub fn num_sections(&self) -> (n: usize)
        ensures
            n == self.ids().len(),
    {
        self.ids.len()
    }
}

/// Whether the bytes hold a whole header of a file with this magic.
pub open spec fn opens(s: Seq<u8>, magic: Seq<u8>) -> bool {
    &&& s.len() >= 7
    &&& s.take(4) == magic
    &&& s.len() >= 7 + 12 * bytes::get16(s, 5)
}

/// The descriptor of section `i`, as the file's bytes give it.
pub open spec fn desc_at(s: Seq<u8>, i: int) -> Option<SectionDesc> {
    if i >= bytes::get16(s, 5) {
        None
    } else {
        Some(
            SectionDesc {
                id: bytes::get16(s, 7 + 12 * i),
                offset: bytes::get32(s, 7 + 12 * i + 4),
                length: bytes::get32(s, 7 + 12 * i + 8),
            },
        )
    }
}

/// The first descriptor with this id from section `i` on.
pub open spec fn find_from(s: Seq<u8>, id: u16, i: int) -> Option<SectionDesc>
    decreases bytes::get16(s, 5) - i,
{
    if i >= bytes::get16(s, 5) {
        None
    } else if desc_at(s, i).unwrap().id == id {
        desc_at(s, i)
    } else {
        find_from(s, id, i + 1)
    }
}

/// The bytes a descriptor names, where the file holds them.
pub open spec fn payload_at(s: Seq<u8>, d: SectionDesc) -> Option<Seq<u8>> {
    let base = 7 + 12 * bytes::get16(s, 5);
    if base + d.offset + d.length > s.len() {
        None
    } else {
        Some(s.subrange(base + d.offset, base + d.offset + d.length))
    }
}

/// The bytes of the first section with this id.
pub open spec fn section_in(s: Seq<u8>, id: u16) -> Option<Seq<u8>> {
    match find_from(s, id, 0) {
        Some(d) => payload_at(s, d),
        None => None,
    }
}

/// Reads a section-based file. Zero-copy: holds a reference to the source bytes.
pub struct SectionFileReader<'a> {
    magic: [u8; 4],
    version: u8,
    num_sections: u16,
    bytes: &'a [u8],
}

impl<'a> SectionFileReader<'a> {
    /// The bytes hold the whole section table.
    pub closed spec fn wf(&self) -> bool {
        &&& opens(self.bytes@, self.magic@)
        &&& self.num_sections == bytes::get16(self.bytes@, 5)
        &&& self.version == self.bytes@[4]
    }

    /// The file's bytes.
    pub closed spec fn bytes(&self) -> Seq<u8> {
        self.bytes@
    }

    /// Open and validate a section file from raw bytes.
    /// Checks that the magic matches the expected value.
    pub fn open(bytes: &'a [u8], expected_magic: &[u8; 4]) -> (r: Option<Self>)
        ensures
            r is Some <==> opens(bytes@, expected_magic@),
            r matches Some(f) ==> f.wf() && f.bytes() == bytes@,
    {
        if bytes.len() < 7 {
            return None;
        }
        let magic = *expected_magic;
        if bytes[0] != magic[0] || bytes[1] != magic[1] || bytes[2] != magic[2] || bytes[3]
            != magic[3] {
            assert(bytes@.take(4)[0] == bytes@[0] && bytes@.take(4)[1] == bytes@[1]
                && bytes@.take(4)[2] == bytes@[2] && bytes@.take(4)[3] == bytes@[3]);
            return None;
        }
        assert(bytes@.take(4) =~= magic@);
        let version: u8 = bytes[4];
        let num_sections: u16 = read_u16(bytes, 5);
        if bytes.len() < 7 + 12 * num_sections as usize {
            return None;
        }
        Some(Self { magic, version, num_sections, bytes })
    }

    /// File version.
    pub fn version(&self) -> (r: u8)
        requires
            self.wf(),
        ensures
            r == self.bytes()[4],
    {
        self.version
    }

    /// Magic bytes.
    pub fn magic(&self) -> (r: &[u8; 4])
        requires
            self.wf(),
        ensures
            r@ == self.bytes().take(4),
    {
        &self.magic
    }

    /// Number of sections in the file.
    pub fn num_sections(&self) -> (r: u16)
        requires
            self.wf(),
        ensures
            r == bytes::get16(self.bytes(), 5),
    {
        self.num_sections
    }

    /// Get a section descriptor by index (0-based).
    pub fn section_at(&self, index: usize) -> (r: Option<SectionDesc>)
        requires
            self.wf(),
        ensures
            r == desc_at(self.bytes(), index as int),
    {
        if index >= self.num_sections as usize {
            return None;
        }
        let pos: usize = 7 + 12 * index;
        let id: u16 = read_u16(self.bytes, pos);
        let offset: u32 = read_u32(self.bytes, pos + 4);
        let length: u32 = read_u32(self.bytes, pos + 8);
        Some(SectionDesc { id, offset, length })
    }

    /// Find a section by ID. Returns the first match.
    pub fn find_section(&self, section_id: u16) -> (r: Option<SectionDesc>)
        requires
            self.wf(),
        ensures
            r == find_from(self.bytes(), section_id, 0),
    {
        let mut i: usize = 0;
        while i < self.num_sections as usize
            invariant
                self.wf(),
                i <= self.num_sections,
                find_from(self.bytes@, section_id, 0) == find_from(
                    self.bytes@,
                    section_id,
                    i as int,
                ),
            decreases self.num_sections - i,
        {
            if let Some(desc) = self.section_at(i) {
                if desc.id == section_id {
                    return Some(desc);
                }
            }
            i += 1;
        }
        None
    }

    /// Get the raw bytes of a section by its descriptor.
    pub fn section_data(&self, desc: &SectionDesc) -> (r: Option<&'a [u8]>)
        requires
            self.wf(),
        ensures
            r is Some <==> payload_at(self.bytes(), *desc) is Some,
            r matches Some(b) ==> payload_at(self.bytes(), *desc) == Some(b@),
    {
        let base: usize = 7 + 12 * self.num_sections as usize;
        let left: usize = self.bytes.len() - base;
        if desc.offset as usize > left || desc.length as usize > left - desc.offset as usize {
            return None;
        }
        let start: usize = base + desc.offset as usize;
        Some(part(self.bytes, start, start + desc.length as usize))
    }

    /// Convenience: find a section by ID and return its data.
    pub fn get_section(&self, section_id: u16) -> (r: Option<&'a [u8]>)
        requires
            self.wf(),
        ensures
            r is Some <==> section_in(self.bytes(), section_id) is Some,
            r matches Some(b) ==> section_in(self.bytes(), section_id) == Some(b@),
    {
        match self.find_section(section_id) {
            Some(desc) => self.section_data(&desc),
            None => None,
        }
    }

    /// Check if a section exists.
    pub fn has_section(&self, section_id: u16) -> (r: bool)
        requires
            self.wf(),
        ensures
            r == (find_from(self.bytes(), section_id, 0) is Some),
    {
        self.find_section(section_id).is_some()
    }

    /// All section descriptors, in table order.
    pub fn sections(&self) -> (r: Vec<SectionDesc>)
        requires
            self.wf(),
        ensures
            r@.len() == bytes::get16(self.bytes(), 5),
            forall|i: int|
                0 <= i < r@.len() ==> desc_at(self.bytes(), i) == Some(#[trigger] r@[i]),
    {
        let mut out: Vec<SectionDesc> = Vec::new();
        let mut i: usize = 0;
        while i < self.num_sections as usize
            invariant
                self.wf(),
                i <= self.num_sections,
                out@.len() == i,
                forall|k: int| 0 <= k < i ==> desc_at(self.bytes@, k) == Some(#[trigger] out@[k]),
            decreases self.num_sections - i,
        {
            if let Some(desc) = self.section_at(i) {
                out.push(desc);
            }
            i += 1;
        }
        out
    }
}

/// Detect the SFX file version from raw bytes by reading the magic.
/// Returns None if the bytes are too short or unrecognized.
pub fn detect_sfx_version(bytes: &[u8]) -> (r: Option<u8>)
    ensures
        r == (if bytes::tagged(bytes@, SFX1) {
            Some(1u8)
        } else if bytes::tagged(bytes@, SFX2) {
            Some(2u8)
        } else if bytes::tagged(bytes@, SFX3) {
            Some(3u8)
        } else {
            None
        }),
{
    if has_tag(bytes, SFX1) {
        Some(1)
    } else if has_tag(bytes, SFX2) {
        Some(2)
    } else if has_tag(bytes, SFX3) {
        Some(3)
    } else {
        None
    }
}

/// Detect the termtexts file version from raw bytes.
pub fn detect_termtexts_version(bytes: &[u8]) -> (r: Option<u8>)
    ensures
        r == (if bytes::tagged(bytes@, TTXT) {
            Some(1u8)
        } else if bytes::tagged(bytes@, TTX3) {
            Some(3u8)
        } else {
            None
        }),
{
    if has_tag(bytes, TTXT) {
        Some(1)
    } else if has_tag(bytes, TTX3) {
        Some(3)
    } else {
        None
    }
}

proof fn lemma_entries_len(ids: Seq<u16>, payloads: Seq<Seq<u8>>, k: int)
    requires
        0 <= k,
    ensures
        entries_bytes(ids, payloads, k).len() == 12 * k,
    decreases k,
{
    broadcast use bytes::group_le_len;
    if k > 0 {
        lemma_entries_len(ids, payloads, k - 1);
    }
}

proof fn lemma_entries_at(ids: Seq<u16>, payloads: Seq<Seq<u8>>, k: int, i: int)
    requires
        0 <= i < k,
    ensures
        entries_bytes(ids, payloads, k).len() == 12 * k,
        entries_bytes(ids, payloads, k).subrange(12 * i, 12 * i + 12) == entry_bytes(
            desc_of(ids, payloads, i),
        ),
    decreases k,
{
    broadcast use bytes::group_le_len;
    lemma_entries_len(ids, payloads, k);
    lemma_entries_len(ids, payloads, k - 1);
    if i == k - 1 {
        assert(entries_bytes(ids, payloads, k).subrange(12 * i, 12 * i + 12) =~= entry_bytes(
            desc_of(ids, payloads, i),
        ));
    } else {
        lemma_entries_at(ids, payloads, k - 1, i);
        assert(entries_bytes(ids, payloads, k).subrange(12 * i, 12 * i + 12) =~= entries_bytes(
            ids,
            payloads,
            k - 1,
        ).subrange(12 * i, 12 * i + 12));
    }
}

/// Law: a written file opens under its magic, with its version and number of
/// sections, every section has its descriptor at its place, and the
/// descriptor gives the payload back.
pub proof fn written_file_opens(
    magic: Seq<u8>,
    version: u8,
    ids: Seq<u16>,
    payloads: Seq<Seq<u8>>,
)
    requires
        magic.len() == 4,
        ids.len() == payloads.len(),
        ids.len() <= u16::MAX,
        bytes::flat(payloads).len() <= u32::MAX,
    ensures
        ({
            let f = file_bytes(magic, version, ids, payloads);
            &&& opens(f, magic)
            &&& f[4] == version
            &&& bytes::get16(f, 5) == ids.len()
            &&& forall|i: int|
                0 <= i < ids.len() ==> #[trigger] desc_at(f, i) == Some(desc_of(ids, payloads, i))
            &&& forall|i: int|
                0 <= i < ids.len() ==> payload_at(f, #[trigger] desc_of(ids, payloads, i)) == Some(
                    payloads[i],
                )
        }),
{
    broadcast use bytes::group_le_len;
    let f = file_bytes(magic, version, ids, payloads);
    let n = ids.len() as int;
    lemma_entries_len(ids, payloads, n);
    let head = magic + seq![version] + bytes::le16(n as u16);
    let table = entries_bytes(ids, payloads, n);
    assert(f =~= head + table + bytes::flat(payloads));
    assert(f.take(4) =~= magic);
    assert(f.subrange(5, 7) =~= bytes::le16(n as u16));
    bytes::lemma_get16(f, 5, n as u16);
    assert forall|i: int| 0 <= i < n implies #[trigger] desc_at(f, i) == Some(
        desc_of(ids, payloads, i),
    ) by {
        lemma_entries_at(ids, payloads, n, i);
        let d = desc_of(ids, payloads, i);
        let e = entry_bytes(d);
        let p = 7 + 12 * i;
        assert(f.subrange(p, p + 12) =~= table.subrange(12 * i, 12 * i + 12));
        assert(f.subrange(p, p + 2) =~= f.subrange(p, p + 12).subrange(0, 2));
        assert(e.subrange(0, 2) =~= bytes::le16(d.id));
        assert(f.subrange(p + 4, p + 8) =~= f.subrange(p, p + 12).subrange(4, 8));
        assert(e.subrange(4, 8) =~= bytes::le32(d.offset));
        assert(f.subrange(p + 8, p + 12) =~= f.subrange(p, p + 12).subrange(8, 12));
        assert(e.subrange(8, 12) =~= bytes::le32(d.length));
        bytes::lemma_get16(f, p, d.id);
        bytes::lemma_get32(f, p + 4, d.offset);
        bytes::lemma_get32(f, p + 8, d.length);
    }
    assert forall|i: int| 0 <= i < n implies payload_at(
        f,
        #[trigger] desc_of(ids, payloads, i),
    ) == Some(payloads[i]) by {
        bytes::lemma_flat_at(payloads, i);
        let base = 7 + 12 * n;
        let a = bytes::start_of(payloads, i);
        let b = bytes::start_of(payloads, i + 1);
        assert(f.subrange(base + a, base + b) =~= bytes::flat(payloads).subrange(a, b));
    }
}

/// Law: looking a section up by its id in a written file gives the payload of
/// the first section that was added under that id, and nothing if none was.
pub proof fn written_section_is_found(
    magic: Seq<u8>,
    version: u8,
    ids: Seq<u16>,
    payloads: Seq<Seq<u8>>,
    id: u16,
)
    requires
        magic.len() == 4,
        ids.len() == payloads.len(),
        ids.len() <= u16::MAX,
        bytes::flat(payloads).len() <= u32::MAX,
    ensures
        ({
            let f = file_bytes(magic, version, ids, payloads);
            &&& !ids.contains(id) ==> section_in(f, id) == None::<Seq<u8>>
            &&& forall|i: int|
                0 <= i < ids.len() && ids[i] == id && (forall|j: int|
                    0 <= j < i ==> #[trigger] ids[j] != id) ==> section_in(f, id) == Some(
                    #[trigger] payloads[i],
                )
        }),
{
    let f = file_bytes(magic, version, ids, payloads);
    written_file_opens(magic, version, ids, payloads);
    if !ids.contains(id) {
        lemma_find_none(f, ids, payloads, id, 0);
    }
    assert forall|i: int|
        0 <= i < ids.len() && ids[i] == id && (forall|j: int|
            0 <= j < i ==> #[trigger] ids[j] != id) implies section_in(f, id) == Some(
        #[trigger] payloads[i],
    ) by {
        lemma_find_first(f, ids, payloads, id, 0, i);
        assert(payload_at(f, desc_of(ids, payloads, i)) == Some(payloads[i]));
    }
}

proof fn lemma_find_none(f: Seq<u8>, ids: Seq<u16>, payloads: Seq<Seq<u8>>, id: u16, i: int)
    requires
        0 <= i <= ids.len(),
        bytes::get16(f, 5) == ids.len(),
        forall|k: int|
            0 <= k < ids.len() ==> #[trigger] desc_at(f, k) == Some(desc_of(ids, payloads, k)),
        !ids.contains(id),
    ensures
        find_from(f, id, i) is None,
    decreases ids.len() - i,
{
    if i < ids.len() {
        assert(desc_at(f, i) == Some(desc_of(ids, payloads, i)));
        assert(ids.contains(ids[i]));
        lemma_find_none(f, ids, payloads, id, i + 1);
    }
}

proof fn lemma_find_first(
    f: Seq<u8>,
    ids: Seq<u16>,
    payloads: Seq<Seq<u8>>,
    id: u16,
    from: int,
    i: int,
)
    requires
        0 <= from <= i < ids.len(),
        bytes::get16(f, 5) == ids.len(),
        forall|k: int|
            0 <= k < ids.len() ==> #[trigger] desc_at(f, k) == Some(desc_of(ids, payloads, k)),
        ids[i] == id,
        forall|j: int| 0 <= j < i ==> #[trigger] ids[j] != id,
    ensures
        find_from(f, id, from) == Some(desc_of(ids, payloads, i)),
    decreases i - from,
{
    assert(desc_at(f, from) == Some(desc_of(ids, payloads, from)));
    if from < i {
        assert(ids[from] != id);
        lemma_find_first(f, ids, payloads, id, from + 1, i);
    }
}

} // verus!
