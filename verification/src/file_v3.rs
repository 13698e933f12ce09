//! The third `.sfx` layout: a section file with the FST and the parent lists.
//!
//! The version byte of the container says how a record of the parent lists is
//! laid out: 3 for fixed-width entries, 4 for packed ones, 5 for delta-coded
//! ones. The reader accepts all three; the writer writes 5.

use vstd::prelude::*;
use vstd::string::*;

use crate::bytes;
use crate::dictionary_lookup::{ParentEntryV3, SI0_PREFIX, SI_REST_PREFIX, SI_STRIPPED_PREFIX};
use crate::file_walk;
use crate::file_walk::{push_all, suffix_key};
use crate::parents_table;
use crate::parents_table::read_record;
use crate::section_file;
use crate::section_file::{SFX3, SectionFileReader, SectionFileWriter};
use crate::suffix_terms;
use crate::suffix_terms::SuffixTerms;
use crate::text;
use crate::text::{push_text, to_lower};

verus! {

/// Container version that is written.
pub const VERSION: u8 = 5;

/// Last container version with fixed-width parent records.
pub const LEGACY_PARENTS_VERSION: u8 = 3;

/// Container version with packed parent records.
pub const PACKED_PARENTS_VERSION: u8 = 4;

/// Section of the FST.
pub const SECTION_FST: u16 = 1;

/// Section of the parent lists.
pub const SECTION_PARENTS: u16 = 2;

/// The bytes "SFX3".
pub open spec fn magic_bytes() -> Seq<u8> {
    seq![0x53u8, 0x46u8, 0x58u8, 0x33u8]
}

fn magic() -> (r: [u8; 4])
    ensures
        r@ == magic_bytes(),
{
    let r: [u8; 4] = [0x53, 0x46, 0x58, 0x33];
    assert(r@ =~= magic_bytes());
    r
}

/// The bytes of a file.
pub open spec fn sfx3_bytes(fst: Seq<u8>, parents: Seq<u8>) -> Seq<u8> {
    section_file::file_bytes(magic_bytes(), VERSION, seq![SECTION_FST, SECTION_PARENTS], seq![fst, parents])
}

/// Assembles a file of sections that are built already.
pub struct SfxFileWriterV3 {
    fst_data: Vec<u8>,
    parent_list_data: Vec<u8>,
}

impl SfxFileWriterV3 {
    /// The bytes of the FST.
    pub closed spec fn fst(&self) -> Seq<u8> {
        self.fst_data@
    }

    /// The parent lists.
    pub closed spec fn parents(&self) -> Seq<u8> {
        self.parent_list_data@
    }

    /// A writer of these sections.
    pub fn new(fst_data: Vec<u8>, parent_list_data: Vec<u8>) -> (r: Self)
        ensures
            r.fst() == fst_data@,
            r.parents() == parent_list_data@,
    {
        SfxFileWriterV3 { fst_data, parent_list_data }
    }

    /// The file.
    pub fn to_bytes(&self) -> (out: Vec<u8>)
        requires
            self.fst().len() + self.parents().len() <= u32::MAX,
        ensures
            out@ == sfx3_bytes(self.fst(), self.parents()),
    {
        let mut file = SectionFileWriter::new(magic(), VERSION);
        proof {
            lemma_two_sections(self.fst(), self.parents());
        }
        file.add_section(SECTION_FST, self.fst_data.as_slice());
        assert(file.payloads() =~= seq![self.fst()]);
        file.add_section(SECTION_PARENTS, self.parent_list_data.as_slice());
        assert(file.ids() =~= seq![SECTION_FST, SECTION_PARENTS]);
        assert(file.payloads() =~= seq![self.fst(), self.parents()]);
        file.serialize()
    }
}

proof fn lemma_two_sections(a: Seq<u8>, b: Seq<u8>)
    ensures
        bytes::flat(Seq::<Seq<u8>>::empty()) == Seq::<u8>::empty(),
        bytes::flat(seq![a]) == a,
        bytes::flat(seq![a, b]) == a + b,
{
    let e = Seq::<Seq<u8>>::empty();
    assert(bytes::flat(e) =~= Seq::<u8>::empty());
    assert(seq![a].drop_last() =~= e);
    assert(bytes::flat(seq![a]) == bytes::flat(e) + a);
    assert(bytes::flat(seq![a]) =~= a);
    assert(seq![a, b].drop_last() =~= seq![a]);
    assert(bytes::flat(seq![a, b]) =~= a + b);
}

/// A file that was written opens as one of the current version, with the
/// sections that went into it.
pub proof fn written_sfx3_reads_back(fst: Seq<u8>, parents: Seq<u8>)
    requires
        fst.len() + parents.len() <= u32::MAX,
    ensures
        section_file::opens(sfx3_bytes(fst, parents), magic_bytes()),
        clamped(sfx3_bytes(fst, parents)[4]) == VERSION,
        section_file::section_in(sfx3_bytes(fst, parents), SECTION_FST) == Some(fst),
        section_file::section_in(sfx3_bytes(fst, parents), SECTION_PARENTS) == Some(parents),
{
    let ids = seq![SECTION_FST, SECTION_PARENTS];
    let p = seq![fst, parents];
    lemma_two_sections(fst, parents);
    section_file::written_file_opens(magic_bytes(), VERSION, ids, p);
    section_file::written_section_is_found(magic_bytes(), VERSION, ids, p, SECTION_FST);
    section_file::written_section_is_found(magic_bytes(), VERSION, ids, p, SECTION_PARENTS);
    assert(p[0] == fst && p[1] == parents);
    assert(ids[0] == SECTION_FST && ids[1] == SECTION_PARENTS);
}

/// Errors of opening a file.
#[derive(Debug)]
pub enum SfxV3Error {
    /// The bytes are no section file of this kind.
    InvalidFormat,
    /// A section is absent; carries its name.
    MissingSection(&'static str),
    /// The FST could not be opened; carries the message.
    FstError(String),
}

/// The message of an error.
pub open spec fn message_of(e: SfxV3Error) -> Seq<char> {
    match e {
        SfxV3Error::InvalidFormat => "invalid SFX3 format"@,
        SfxV3Error::MissingSection(s) => "missing section: "@ + s@,
        SfxV3Error::FstError(m) => "FST error: "@ + m@,
    }
}

impl SfxV3Error {
    /// The message of the error.
    pub fn to_string(&self) -> (r: String)
        ensures
            r@ == message_of(*self),
    {
        let mut r = String::new();
        match self {
            SfxV3Error::InvalidFormat => {
                push_text(&mut r, "invalid SFX3 format");
            },
            SfxV3Error::MissingSection(s) => {
                push_text(&mut r, "missing section: ");
                push_text(&mut r, s);
            },
            SfxV3Error::FstError(m) => {
                push_text(&mut r, "FST error: ");
                push_text(&mut r, m.as_str());
            },
        }
        assert(r@ =~= message_of(*self));
        r
    }
}

/// A version byte as one of the known versions.
pub open spec fn clamped(version: u8) -> u8 {
    if version < LEGACY_PARENTS_VERSION {
        LEGACY_PARENTS_VERSION
    } else if version > VERSION {
        VERSION
    } else {
        version
    }
}

/// Where the parents of a suffix are kept.
#[derive(Debug, Clone, Copy, PartialEq, Eq, Structural)]
pub enum ParentRefV3 {
    /// The one parent itself.
    Single(ParentEntryV3),
    /// In the record of the parent lists that starts here.
    Multi {
        /// Where the record starts.
        offset: u64,
    },
}

/// How a record of the parent lists is laid out.
#[derive(Debug, Clone, Copy, PartialEq, Eq, Structural)]
pub enum RecordLayout {
    /// A 32-bit count, then fixed-width entries.
    Fixed,
    /// A count, then packed entries.
    Packed,
    /// A count, then delta-coded entries.
    Delta,
}

/// The layout of a version's records.
pub open spec fn layout_of(version: u8) -> RecordLayout {
    if version <= LEGACY_PARENTS_VERSION {
        RecordLayout::Fixed
    } else if version == PACKED_PARENTS_VERSION {
        RecordLayout::Packed
    } else {
        RecordLayout::Delta
    }
}

/// Whether opening the bytes of an FST gave this error, or none.
pub open spec fn opening_gave<F: Fn(&[u8]) -> Option<String>>(
    fst_error: F,
    fst: Seq<u8>,
    error: Option<String>,
) -> bool {
    exists|b: &[u8]| b@ == fst && #[trigger] call_ensures(fst_error, (b,), error)
}

/// Reads a file.
pub struct SfxFileReaderV3<'a> {
    data: &'a [u8],
    fst_data: &'a [u8],
    parent_list_data: &'a [u8],
    terms: SuffixTerms<ParentEntryV3>,
    version: u8,
}

/// The parents of a suffix in any case: of the chunks that start with it, of
/// those it starts later in, and of the words.
pub open spec fn resolved(terms: Seq<(Seq<u8>, Seq<ParentEntryV3>)>, suffix: Seq<char>) -> Seq<ParentEntryV3> {
    let lower = text::lowered(suffix);
    suffix_terms::parents_of(terms, file_walk::key_of(SI0_PREFIX, lower)) + suffix_terms::parents_of(
        terms,
        file_walk::key_of(SI_REST_PREFIX, lower),
    ) + suffix_terms::parents_of(terms, file_walk::key_of(SI_STRIPPED_PREFIX, lower))
}

impl<'a> SfxFileReaderV3<'a> {
    /// The sections are those of the file.
    pub closed spec fn wf(&self) -> bool {
        &&& section_file::opens(self.data@, magic_bytes())
        &&& section_file::section_in(self.data@, SECTION_FST) == Some(self.fst_data@)
        &&& section_file::section_in(self.data@, SECTION_PARENTS) == Some(self.parent_list_data@)
        &&& self.terms.wf()
        &&& self.version == clamped(self.data@[4])
    }

    /// The bytes of the file.
    pub closed spec fn bytes(&self) -> Seq<u8> {
        self.data@
    }

    /// The suffix terms.
    pub closed spec fn terms(&self) -> Seq<(Seq<u8>, Seq<ParentEntryV3>)> {
        self.terms@
    }

    /// Opens a file, without suffix terms yet. `fst_error` opens the bytes of
    /// an FST and returns the message of the error that gives, if it gives
    /// one; a section without bytes is an FST without terms.
    pub fn open<F: Fn(&[u8]) -> Option<String>>(data: &'a [u8], fst_error: &F) -> (r: Result<
        Self,
        SfxV3Error,
    >)
        requires
            forall|b: &[u8]| #[trigger] call_requires(*fst_error, (b,)),
        ensures
            r matches Ok(f) ==> f.wf() && f.bytes() == data@ && f.terms() == Seq::<
                (Seq<u8>, Seq<ParentEntryV3>),
            >::empty(),
            r is Ok ==> section_file::section_in(data@, SECTION_FST)->0.len() > 0 ==> opening_gave(
                *fst_error,
                section_file::section_in(data@, SECTION_FST)->0,
                None,
            ),
            r is Err && r->Err_0 is InvalidFormat <==> !section_file::opens(data@, magic_bytes()),
            section_file::opens(data@, magic_bytes()) && section_file::section_in(
                data@,
                SECTION_FST,
            ) is None ==> r is Err && r->Err_0 is MissingSection && r->Err_0->MissingSection_0@
                == "FST"@,
            r is Err && r->Err_0 is MissingSection && section_file::section_in(
                data@,
                SECTION_FST,
            ) is Some ==> section_file::section_in(data@, SECTION_PARENTS) is None
                && r->Err_0->MissingSection_0@ == "PARENTS"@,
            r is Err && r->Err_0 is MissingSection && section_file::section_in(
                data@,
                SECTION_FST,
            ) is Some ==> section_file::section_in(data@, SECTION_FST)->0.len() == 0 || opening_gave(
                *fst_error,
                section_file::section_in(data@, SECTION_FST)->0,
                None,
            ),
            r is Err && r->Err_0 is FstError ==> opening_gave(
                *fst_error,
                section_file::section_in(data@, SECTION_FST)->0,
                Some(r->Err_0->FstError_0),
            ) && section_file::section_in(data@, SECTION_FST)->0.len() > 0,
    {
        let tag = magic();
        let file = match SectionFileReader::open(data, &tag) {
            None => {
                return Err(SfxV3Error::InvalidFormat);
            },
            Some(f) => f,
        };
        let fst_data = match file.get_section(SECTION_FST) {
            None => {
                return Err(SfxV3Error::MissingSection("FST"));
            },
            Some(b) => b,
        };
        if fst_data.len() > 0 {
            let outcome = fst_error(fst_data);
            match outcome {
                Some(e) => {
                    assert(opening_gave(*fst_error, fst_data@, Some(e)));
                    return Err(SfxV3Error::FstError(e));
                },
                None => {},
            }
        }
        let parent_list_data = match file.get_section(SECTION_PARENTS) {
            None => {
                return Err(SfxV3Error::MissingSection("PARENTS"));
            },
            Some(b) => b,
        };
        let found: u8 = file.version();
        let version: u8 = if found < LEGACY_PARENTS_VERSION {
            LEGACY_PARENTS_VERSION
        } else if found > VERSION {
            VERSION
        } else {
            found
        };
        Ok(
            SfxFileReaderV3 {
                data,
                fst_data,
                parent_list_data,
                terms: SuffixTerms::empty(),
                version,
            },
        )
    }

    /// The same with the terms that its FST holds.
    pub fn with_terms(self, terms: SuffixTerms<ParentEntryV3>) -> (r: Self)
        requires
            self.wf(),
            terms.wf(),
        ensures
            r.wf(),
            r.bytes() == self.bytes(),
            r.terms() == terms@,
    {
        SfxFileReaderV3 {
            data: self.data,
            fst_data: self.fst_data,
            parent_list_data: self.parent_list_data,
            terms,
            version: self.version,
        }
    }

    /// The container version: 3, 4 or 5.
    pub fn container_version(&self) -> (r: u8)
        requires
            self.wf(),
        ensures
            r == clamped(self.bytes()[4]),
    {
        self.version
    }

    /// The bytes of the FST.
    pub fn fst_data(&self) -> (r: &'a [u8])
        requires
            self.wf(),
        ensures
            section_file::section_in(self.bytes(), SECTION_FST) == Some(r@),
    {
        self.fst_data
    }

    /// The suffix terms.
    pub fn fst(&self) -> (r: &SuffixTerms<ParentEntryV3>)
        requires
            self.wf(),
        ensures
            r.wf(),
            r@ == self.terms(),
    {
        &self.terms
    }

    /// How the parent records are laid out.
    pub fn record_layout(&self) -> (r: RecordLayout)
        requires
            self.wf(),
        ensures
            r == layout_of(clamped(self.bytes()[4])),
    {
        if self.version <= LEGACY_PARENTS_VERSION {
            RecordLayout::Fixed
        } else if self.version == PACKED_PARENTS_VERSION {
            RecordLayout::Packed
        } else {
            RecordLayout::Delta
        }
    }

    /// The parents that a reference leads to: the one it holds, or those of
    /// the record it names, decoded in the layout of the file.
    pub fn decode_parents<F: Fn(RecordLayout, &[u8]) -> Vec<ParentEntryV3>>(
        &self,
        reference: ParentRefV3,
        decode: &F,
    ) -> (out: Vec<ParentEntryV3>)
        requires
            self.wf(),
            reference matches ParentRefV3::Multi { offset } ==> offset <= usize::MAX && parents_table::record_at(
                section_file::section_in(self.bytes(), SECTION_PARENTS)->0,
                offset as int,
            ) is Some,
            forall|l: RecordLayout, r: &[u8]| #[trigger] call_requires(*decode, (l, r)),
        ensures
            reference matches ParentRefV3::Single(p) ==> out@ == seq![p],
            reference matches ParentRefV3::Multi { offset } ==> exists|r: &[u8]|
                parents_table::record_at(section_file::section_in(self.bytes(), SECTION_PARENTS)->0, offset as int) == Some(r@)
                    && #[trigger] call_ensures(
                    *decode,
                    (layout_of(clamped(self.bytes()[4])), r),
                    out,
                ),
    {
        match reference {
            ParentRefV3::Single(p) => {
                let mut out: Vec<ParentEntryV3> = Vec::new();
                out.push(p);
                assert(out@ =~= seq![p]);
                out
            },
            ParentRefV3::Multi { offset } => {
                let record = read_record(self.parent_list_data, offset as usize).unwrap();
                let layout = self.record_layout();
                decode(layout, record)
            },
        }
    }

    /// The parents of a suffix in any case: of the chunks that start with it,
    /// of those it starts later in, and of the words.
    pub fn resolve_suffix(&self, suffix: &str) -> (out: Vec<ParentEntryV3>)
        requires
            self.wf(),
        ensures
            out@ == resolved(self.terms(), suffix@),
    {
        let lower = to_lower(suffix);
        let mut out: Vec<ParentEntryV3> = Vec::new();
        self.push_parents(&mut out, SI0_PREFIX, lower.as_str());
        self.push_parents(&mut out, SI_REST_PREFIX, lower.as_str());
        self.push_parents(&mut out, SI_STRIPPED_PREFIX, lower.as_str());
        assert(out@ =~= resolved(self.terms(), suffix@));
        out
    }

    fn push_parents(&self, out: &mut Vec<ParentEntryV3>, partition: u8, lower: &str)
        requires
            self.wf(),
        ensures
            final(out)@ == old(out)@ + suffix_terms::parents_of(self.terms(), file_walk::key_of(partition, lower@)),
    {
        let key = suffix_key(partition, lower);
        match self.terms.get(key.as_slice()) {
            Some(parents) => {
                push_all(out, parents);
            },
            None => {
                assert(out@ =~= old(out)@ + Seq::<ParentEntryV3>::empty());
            },
        }
    }

    /// Number of suffix terms.
    pub fn num_suffix_terms(&self) -> (n: usize)
        requires
            self.wf(),
        ensures
            n == self.terms().len(),
    {
        self.terms.len()
    }
}

} // verus!
