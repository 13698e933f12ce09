//! The first `.sfx` file layout and the postings file beside it.
//!
//! ```text
//! "SFX1", version, num_docs, num_suffix_terms,
//! offset and length of the FST, of the parent lists, offset of the GapMap,
//! FST, parent lists, sibling table (may be empty), GapMap to the end
//! ```

use vstd::prelude::*;
use vstd::string::*;
use vstd::utf8::*;

use crate::bytes;
use crate::bytes::{has_tag, part, push_bytes, push_u32, push_u64, read_u32, read_u64};
use crate::gapmap::GapMapReader;
use crate::parents_table;
use crate::parents_table::read_record;
use crate::section_file::SFX1;
use crate::sibling_table;
use crate::sibling_table::SiblingTableReader;
use crate::suffix_terms::SuffixTerms;
use crate::text;
use crate::text::{push_decimal, push_text};

verus! {

broadcast use bytes::group_le_len;

/// Bytes of the header.
pub const HEADER_SIZE: usize = 53;

/// A token that a suffix belongs to.
#[derive(Debug, Clone, Copy, PartialEq, Eq, Structural)]
pub struct ParentEntry {
    /// The ordinal of the token.
    pub raw_ordinal: u64,
    /// Where in the token the suffix starts.
    pub si: u16,
    /// Bytes of the token.
    pub token_len: u16,
}

/// Where the parents of a suffix are kept.
#[derive(Debug, Clone, Copy, PartialEq, Eq, Structural)]
pub enum ParentRef {
    /// The one parent itself.
    Single(ParentEntry),
    /// In the record of the parent lists that starts here.
    Multi {
        /// Where the record starts.
        offset: u64,
    },
}

/// A point where the start of a query reaches the end of a token.
#[derive(Debug, Clone, Copy, PartialEq, Eq, Structural)]
pub struct SplitCandidate {
    /// How many bytes of the query the token covers.
    pub prefix_len: usize,
    /// The token.
    pub parent: ParentEntry,
}

/// Errors that can occur when reading a `.sfx` or `.sfxpost` file.
#[derive(Debug)]
pub enum SfxError {
    /// The file header does not contain valid magic bytes.
    InvalidMagic,
    /// The file version is not supported by this reader.
    UnsupportedVersion(u8),
    /// The FST data is corrupted or invalid.
    FstError(String),
}

/// The message of an error.
pub open spec fn message_of(e: SfxError) -> Seq<char> {
    match e {
        SfxError::InvalidMagic => "invalid .sfx magic bytes"@,
        SfxError::UnsupportedVersion(v) => "unsupported .sfx version: "@ + text::decimal(v as nat),
        SfxError::FstError(m) => "FST error: "@ + m@,
    }
}

impl SfxError {
    /// The message of the error.
    pub fn to_string(&self) -> (r: String)
        ensures
            r@ == message_of(*self),
    {
        let mut r = String::new();
        match self {
            SfxError::InvalidMagic => {
                push_text(&mut r, "invalid .sfx magic bytes");
            },
            SfxError::UnsupportedVersion(v) => {
                push_text(&mut r, "unsupported .sfx version: ");
                push_decimal(&mut r, *v as u64);
            },
            SfxError::FstError(m) => {
                push_text(&mut r, "FST error: ");
                push_text(&mut r, m.as_str());
            },
        }
        assert(r@ =~= message_of(*self));
        r
    }
}

/// The bytes of a file.
pub open spec fn sfx_bytes(
    fst: Seq<u8>,
    parents: Seq<u8>,
    siblings: Seq<u8>,
    gaps: Seq<u8>,
    num_docs: u32,
    num_suffix_terms: u32,
) -> Seq<u8> {
    header_bytes(
        num_docs,
        num_suffix_terms,
        fst.len(),
        parents.len(),
        siblings.len(),
    ) + fst + parents + siblings + gaps
}

/// The header of a file whose sections have these lengths.
pub open spec fn header_bytes(
    num_docs: u32,
    num_suffix_terms: u32,
    fst: nat,
    parents: nat,
    siblings: nat,
) -> Seq<u8> {
    bytes::le32(SFX1) + seq![1u8] + bytes::le32(num_docs) + bytes::le32(num_suffix_terms) + bytes::le64(HEADER_SIZE as u64)
        + bytes::le64(fst as u64) + bytes::le64((HEADER_SIZE + fst) as u64) + bytes::le64(parents as u64) + bytes::le64(
        (HEADER_SIZE + fst + parents + siblings) as u64,
    )
}

/// Assembles FST, parent lists, sibling table and GapMap into one file.
pub struct SfxFileWriter {
    fst_data: Vec<u8>,
    parent_list_data: Vec<u8>,
    sibling_data: Vec<u8>,
    gapmap_data: Vec<u8>,
    num_docs: u32,
    num_suffix_terms: u32,
}

impl SfxFileWriter {
    /// The bytes this writer makes.
    pub closed spec fn file(&self) -> Seq<u8> {
        sfx_bytes(
            self.fst_data@,
            self.parent_list_data@,
            self.sibling_data@,
            self.gapmap_data@,
            self.num_docs,
            self.num_suffix_terms,
        )
    }

    /// The bytes this writer makes with another sibling table.
    pub closed spec fn file_with(&self, siblings: Seq<u8>) -> Seq<u8> {
        sfx_bytes(
            self.fst_data@,
            self.parent_list_data@,
            siblings,
            self.gapmap_data@,
            self.num_docs,
            self.num_suffix_terms,
        )
    }

    /// A writer of sections that are built already, without a sibling table.
    pub fn new(
        fst_data: Vec<u8>,
        parent_list_data: Vec<u8>,
        gapmap_data: Vec<u8>,
        num_docs: u32,
        num_suffix_terms: u32,
    ) -> (r: Self)
        ensures
            r.file() == sfx_bytes(
                fst_data@,
                parent_list_data@,
                Seq::empty(),
                gapmap_data@,
                num_docs,
                num_suffix_terms,
            ),
            forall|s: Seq<u8>| #[trigger]
                r.file_with(s) == sfx_bytes(
                    fst_data@,
                    parent_list_data@,
                    s,
                    gapmap_data@,
                    num_docs,
                    num_suffix_terms,
                ),
    {
        let r = SfxFileWriter {
            fst_data,
            parent_list_data,
            sibling_data: Vec::new(),
            gapmap_data,
            num_docs,
            num_suffix_terms,
        };
        assert(r.sibling_data@ =~= Seq::<u8>::empty());
        r
    }

    /// The same with a sibling table.
    pub fn with_sibling_data(self, data: Vec<u8>) -> (r: Self)
        ensures
            r.file() == self.file_with(data@),
            forall|s: Seq<u8>| #[trigger] r.file_with(s) == self.file_with(s),
    {
        SfxFileWriter {
            fst_data: self.fst_data,
            parent_list_data: self.parent_list_data,
            sibling_data: data,
            gapmap_data: self.gapmap_data,
            num_docs: self.num_docs,
            num_suffix_terms: self.num_suffix_terms,
        }
    }

    /// Appends the file to `out`.
    pub fn write_to(&self, out: &mut Vec<u8>)
        requires
            self.file().len() <= u64::MAX,
        ensures
            final(out)@ == old(out)@ + self.file(),
    {
        let ghost before = out@;
        proof {
            lemma_header(
                self.num_docs,
                self.num_suffix_terms,
                self.fst_data@.len(),
                self.parent_list_data@.len(),
                self.sibling_data@.len(),
            );
        }
        let fst_offset: u64 = HEADER_SIZE as u64;
        let fst_length: u64 = self.fst_data.len() as u64;
        let parent_list_offset: u64 = fst_offset + fst_length;
        let parent_list_length: u64 = self.parent_list_data.len() as u64;
        let sibling_offset: u64 = parent_list_offset + parent_list_length;
        let sibling_length: u64 = self.sibling_data.len() as u64;
        let gapmap_offset: u64 = sibling_offset + sibling_length;
        push_u32(out, SFX1);
        out.push(1u8);
        push_u32(out, self.num_docs);
        push_u32(out, self.num_suffix_terms);
        push_u64(out, fst_offset);
        push_u64(out, fst_length);
        push_u64(out, parent_list_offset);
        push_u64(out, parent_list_length);
        push_u64(out, gapmap_offset);
        assert(out@ =~= before + header_bytes(
            self.num_docs,
            self.num_suffix_terms,
            self.fst_data@.len(),
            self.parent_list_data@.len(),
            self.sibling_data@.len(),
        ));
        push_bytes(out, self.fst_data.as_slice());
        push_bytes(out, self.parent_list_data.as_slice());
        push_bytes(out, self.sibling_data.as_slice());
        push_bytes(out, self.gapmap_data.as_slice());
        assert(out@ =~= before + self.file());
    }

    /// The file.
    pub fn to_bytes(&self) -> (out: Vec<u8>)
        requires
            self.file().len() <= u64::MAX,
        ensures
            out@ == self.file(),
    {
        let mut out: Vec<u8> = Vec::new();
        self.write_to(&mut out);
        assert(out@ =~= self.file());
        out
    }
}

proof fn lemma_header(num_docs: u32, num_suffix_terms: u32, fst: nat, parents: nat, siblings: nat)
    ensures
        header_bytes(num_docs, num_suffix_terms, fst, parents, siblings).len() == HEADER_SIZE,
{
}

/// Whether the bytes start as a file does.
pub open spec fn sfx_opens(s: Seq<u8>) -> bool {
    s.len() >= HEADER_SIZE && bytes::tagged(s, SFX1)
}

/// Where the parent lists end.
pub open spec fn parents_end(s: Seq<u8>) -> int {
    bytes::get64(s, 29) + bytes::get64(s, 37)
}

/// Whether the sections that the header names lie in the file, the GapMap with
/// its count of documents.
pub open spec fn sections_lie(s: Seq<u8>) -> bool {
    &&& bytes::get64(s, 21) != 0 ==> bytes::get64(s, 13) + bytes::get64(s, 21) <= s.len()
    &&& parents_end(s) <= s.len()
    &&& bytes::get64(s, 45) + 4 <= s.len()
}

/// The bytes of the FST.
pub open spec fn fst_in(s: Seq<u8>) -> Seq<u8> {
    if bytes::get64(s, 21) == 0 {
        Seq::empty()
    } else {
        s.subrange(bytes::get64(s, 13) as int, bytes::get64(s, 13) + bytes::get64(s, 21))
    }
}

/// The parent lists.
pub open spec fn parents_in(s: Seq<u8>) -> Seq<u8> {
    s.subrange(bytes::get64(s, 29) as int, parents_end(s))
}

/// The bytes between the parent lists and the GapMap.
pub open spec fn siblings_part(s: Seq<u8>) -> Seq<u8> {
    if bytes::get64(s, 45) > parents_end(s) {
        s.subrange(parents_end(s), bytes::get64(s, 45) as int)
    } else {
        Seq::empty()
    }
}

/// The GapMap.
pub open spec fn gaps_in(s: Seq<u8>) -> Seq<u8> {
    s.subrange(bytes::get64(s, 45) as int, s.len() as int)
}

/// A file that was written opens, with the counts and the sections that went
/// into it.
pub proof fn written_sfx_reads_back(
    fst: Seq<u8>,
    parents: Seq<u8>,
    siblings: Seq<u8>,
    gaps: Seq<u8>,
    num_docs: u32,
    num_suffix_terms: u32,
)
    requires
        sfx_bytes(fst, parents, siblings, gaps, num_docs, num_suffix_terms).len() <= u64::MAX,
        gaps.len() >= 4,
    ensures
        ({
            let s = sfx_bytes(fst, parents, siblings, gaps, num_docs, num_suffix_terms);
            &&& sfx_opens(s)
            &&& sections_lie(s)
            &&& bytes::get32(s, 5) == num_docs
            &&& bytes::get32(s, 9) == num_suffix_terms
            &&& fst_in(s) == fst
            &&& parents_in(s) == parents
            &&& siblings_part(s) == siblings
            &&& gaps_in(s) == gaps
        }),
{
    let s = sfx_bytes(fst, parents, siblings, gaps, num_docs, num_suffix_terms);
    let h = header_bytes(num_docs, num_suffix_terms, fst.len(), parents.len(), siblings.len());
    lemma_header(num_docs, num_suffix_terms, fst.len(), parents.len(), siblings.len());
    assert(s.subrange(0, 4) =~= bytes::le32(SFX1));
    bytes::lemma_get32(s, 0, SFX1);
    assert(s.subrange(5, 9) =~= bytes::le32(num_docs));
    bytes::lemma_get32(s, 5, num_docs);
    assert(s.subrange(9, 13) =~= bytes::le32(num_suffix_terms));
    bytes::lemma_get32(s, 9, num_suffix_terms);
    assert(s.subrange(13, 21) =~= bytes::le64(HEADER_SIZE as u64));
    bytes::lemma_get64(s, 13, HEADER_SIZE as u64);
    assert(s.subrange(21, 29) =~= bytes::le64(fst.len() as u64));
    bytes::lemma_get64(s, 21, fst.len() as u64);
    assert(s.subrange(29, 37) =~= bytes::le64((HEADER_SIZE + fst.len()) as u64));
    bytes::lemma_get64(s, 29, (HEADER_SIZE + fst.len()) as u64);
    assert(s.subrange(37, 45) =~= bytes::le64(parents.len() as u64));
    bytes::lemma_get64(s, 37, parents.len() as u64);
    let g = (HEADER_SIZE + fst.len() + parents.len() + siblings.len()) as u64;
    assert(s.subrange(45, 53) =~= bytes::le64(g));
    bytes::lemma_get64(s, 45, g);
    assert(fst_in(s) =~= fst);
    assert(parents_in(s) =~= parents);
    assert(siblings_part(s) =~= siblings);
    assert(gaps_in(s) =~= gaps);
}

/// Reads a file.
pub struct SfxFileReader<'a> {
    data: &'a [u8],
    fst_data: &'a [u8],
    terms: SuffixTerms<ParentEntry>,
    parent_list_data: &'a [u8],
    sibling_table: Option<SiblingTableReader<'a>>,
    gapmap: GapMapReader<'a>,
    num_docs: u32,
    num_suffix_terms: u32,
}

impl<'a> SfxFileReader<'a> {
    /// The sections are those of the file.
    pub closed spec fn wf(&self) -> bool {
        let s = self.data@;
        &&& sfx_opens(s)
        &&& sections_lie(s)
        &&& self.fst_data@ == fst_in(s)
        &&& self.terms.wf()
        &&& self.parent_list_data@ == parents_in(s)
        &&& (self.sibling_table is Some <==> sibling_table::opens(siblings_part(s)))
        &&& self.sibling_table is Some ==> self.sibling_table->0.wf()
            && self.sibling_table->0.bytes() == siblings_part(s)
        &&& self.gapmap.wf()
        &&& self.gapmap.bytes() == gaps_in(s)
        &&& self.num_docs == bytes::get32(s, 5)
        &&& self.num_suffix_terms == bytes::get32(s, 9)
    }

    /// The bytes of the file.
    pub closed spec fn bytes(&self) -> Seq<u8> {
        self.data@
    }

    /// The suffix terms.
    pub closed spec fn terms(&self) -> Seq<(Seq<u8>, Seq<ParentEntry>)> {
        self.terms@
    }

    /// Opens a file, without suffix terms yet.
    pub fn open(data: &'a [u8]) -> (r: Result<Self, SfxError>)
        requires
            sfx_opens(data@) ==> sections_lie(data@),
        ensures
            r is Ok <==> sfx_opens(data@),
            r matches Ok(f) ==> f.wf() && f.bytes() == data@ && f.terms() == Seq::<
                (Seq<u8>, Seq<ParentEntry>),
            >::empty(),
            r matches Err(e) ==> e is InvalidMagic,
    {
        if data.len() < HEADER_SIZE || !has_tag(data, SFX1) {
            return Err(SfxError::InvalidMagic);
        }
        let num_docs: u32 = read_u32(data, 5);
        let num_suffix_terms: u32 = read_u32(data, 9);
        let fst_offset: u64 = read_u64(data, 13);
        let fst_length: u64 = read_u64(data, 21);
        let parent_list_offset: u64 = read_u64(data, 29);
        let parent_list_length: u64 = read_u64(data, 37);
        let gapmap_offset: u64 = read_u64(data, 45);
        let len: usize = data.len();
        let fst_data = if fst_length == 0 {
            part(data, 0, 0)
        } else {
            part(data, fst_offset as usize, fst_offset as usize + fst_length as usize)
        };
        assert(fst_data@ =~= fst_in(data@));
        let parent_list_end: usize = parent_list_offset as usize + parent_list_length as usize;
        let parent_list_data = part(data, parent_list_offset as usize, parent_list_end);
        assert(parent_list_data@ =~= parents_in(data@));
        let sibling_data = if gapmap_offset as usize > parent_list_end {
            part(data, parent_list_end, gapmap_offset as usize)
        } else {
            part(data, 0, 0)
        };
        assert(sibling_data@ =~= siblings_part(data@));
        let gapmap_data = part(data, gapmap_offset as usize, len);
        assert(gapmap_data@ =~= gaps_in(data@));
        Ok(
            SfxFileReader {
                data,
                fst_data,
                terms: SuffixTerms::empty(),
                parent_list_data,
                sibling_table: SiblingTableReader::open(sibling_data),
                gapmap: GapMapReader::open(gapmap_data),
                num_docs,
                num_suffix_terms,
            },
        )
    }

    /// The same with the terms that its FST was found to hold, or the error
    /// that opening the FST gave.
    pub fn with_terms(self, found: Result<SuffixTerms<ParentEntry>, String>) -> (r: Result<
        Self,
        SfxError,
    >)
        requires
            self.wf(),
            found is Ok ==> found->Ok_0.wf(),
        ensures
            r is Ok <==> found is Ok,
            r matches Ok(f) ==> f.wf() && f.bytes() == self.bytes() && f.terms() == found->Ok_0@,
            r matches Err(e) ==> e is FstError && e->FstError_0@ == found->Err_0@,
    {
        match found {
            Err(e) => Err(SfxError::FstError(e)),
            Ok(terms) => Ok(
                SfxFileReader {
                    data: self.data,
                    fst_data: self.fst_data,
                    terms,
                    parent_list_data: self.parent_list_data,
                    sibling_table: self.sibling_table,
                    gapmap: self.gapmap,
                    num_docs: self.num_docs,
                    num_suffix_terms: self.num_suffix_terms,
                },
            ),
        }
    }

    /// Number of documents.
    pub fn num_docs(&self) -> (r: u32)
        requires
            self.wf(),
        ensures
            r == bytes::get32(self.bytes(), 5),
    {
        self.num_docs
    }

    /// Number of suffix terms, as the header gives it.
    pub fn num_suffix_terms(&self) -> (r: u32)
        requires
            self.wf(),
        ensures
            r == bytes::get32(self.bytes(), 9),
    {
        self.num_suffix_terms
    }

    /// The GapMap.
    pub fn gapmap(&self) -> (r: &GapMapReader<'a>)
        requires
            self.wf(),
        ensures
            r.wf(),
            r.bytes() == gaps_in(self.bytes()),
    {
        &self.gapmap
    }

    /// The sibling table, if the file has one.
    pub fn sibling_table(&self) -> (r: Option<&SiblingTableReader<'a>>)
        requires
            self.wf(),
        ensures
            r is Some <==> sibling_table::opens(siblings_part(self.bytes())),
            r matches Some(t) ==> t.wf() && t.bytes() == siblings_part(self.bytes()),
    {
        match &self.sibling_table {
            Some(t) => Some(t),
            None => None,
        }
    }

    /// The bytes of the FST.
    pub fn fst_data(&self) -> (r: &'a [u8])
        requires
            self.wf(),
        ensures
            r@ == fst_in(self.bytes()),
    {
        self.fst_data
    }

    /// The suffix terms.
    pub fn fst(&self) -> (r: &SuffixTerms<ParentEntry>)
        requires
            self.wf(),
        ensures
            r.wf(),
            r@ == self.terms(),
    {
        &self.terms
    }

    /// The parent lists.
    pub fn parent_list_data(&self) -> (r: &'a [u8])
        requires
            self.wf(),
        ensures
            r@ == parents_in(self.bytes()),
    {
        self.parent_list_data
    }

    /// The parents that a reference leads to: the one it holds, or those of
    /// the record it names.
    pub fn decode_parents<F: Fn(&[u8]) -> Vec<ParentEntry>>(
        &self,
        reference: ParentRef,
        decode: &F,
    ) -> (out: Vec<ParentEntry>)
        requires
            self.wf(),
            reference matches ParentRef::Multi { offset } ==> offset <= usize::MAX && parents_table::record_at(
                parents_in(self.bytes()),
                offset as int,
            ) is Some,
            forall|r: &[u8]| #[trigger] call_requires(*decode, (r,)),
        ensures
            reference matches ParentRef::Single(p) ==> out@ == seq![p],
            reference matches ParentRef::Multi { offset } ==> exists|r: &[u8]|
                parents_table::record_at(parents_in(self.bytes()), offset as int) == Some(r@)
                    && #[trigger] call_ensures(*decode, (r,), out),
    {
        match reference {
            ParentRef::Single(p) => {
                let mut out: Vec<ParentEntry> = Vec::new();
                out.push(p);
                assert(out@ =~= seq![p]);
                out
            },
            ParentRef::Multi { offset } => {
                let record = read_record(self.parent_list_data, offset as usize).unwrap();
                decode(record)
            },
        }
    }
}

} // verus!
