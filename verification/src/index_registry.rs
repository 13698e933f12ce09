//! The files of a field's index: what each is called, how it is merged, and
//! which of them are built from tokens and postings in one pass.

use vstd::prelude::*;
use vstd::string::*;
use vstd::utf8::*;

use crate::bytes;
use crate::collector_v3;
use crate::derived;
use crate::freqmap;
use crate::freqmap::FreqMapWriter;
use crate::gapmap::GapMapIndex;
use crate::offset_table;
use crate::posmap;
use crate::posmap::PosMapWriter;
use crate::sepmap;
use crate::sepmap::SepMapIndex;
use crate::sfxpost_v2;
use crate::sfxpost_v2::SfxPostReaderV2;
use crate::sibling_index;
use crate::sibling_index::{SiblingIndex, TokenIndex};
use crate::sibling_table;
use crate::termtexts;
use crate::termtexts::{TermTextsReader, TermTextsWriter};
use crate::text;
use crate::text::{boundary_from, str_copy, str_len, str_upto};
use crate::word_pos_map;
use crate::word_pos_map::WordPosMapWriter;

verus! {

/// How an index is built in a merge.
#[derive(Debug, Clone, Copy, PartialEq, Eq, Structural)]
pub enum MergeStrategy {
    /// From the tokens and postings.
    EventDriven,
    /// From the sources, with ordinals renamed by their texts.
    OrMergeWithRemap,
    /// By a step of its own.
    ExternalDagNode,
}

/// One file of a field's index.
pub trait SfxIndexFile {
    /// What the file is called, and its extension.
    spec fn name(&self) -> Seq<char>;

    /// How it is merged.
    spec fn strategy(&self) -> MergeStrategy;

    /// Whether it is built while documents are collected.
    spec fn collected(&self) -> bool;

    /// Whether a segment of the version has it.
    spec fn in_version(&self, sfx_version: u8) -> bool;

    /// What the file is called.
    fn id(&self) -> (r: &'static str)
        ensures
            r@ == self.name(),
    ;

    /// The extension of the file.
    fn extension(&self) -> (r: &'static str)
        ensures
            r@ == self.name(),
    ;

    /// How it is merged.
    fn merge_strategy(&self) -> (r: MergeStrategy)
        ensures
            r == self.strategy(),
    ;

    /// Whether it is built while documents are collected.
    fn prebuilt_by_collector(&self) -> (r: bool)
        ensures
            r == self.collected(),
    ;

    /// Whether a segment of the version has it.
    fn written_for(&self, sfx_version: u8) -> (r: bool)
        ensures
            r == self.in_version(sfx_version),
    ;
}

/// The postings.
pub struct SfxPostIndex;

/// The links between chunks and words.
pub struct SiblingV3Index;

/// Which chunks belong to which words.
pub struct ChunkWordMapIndex;

/// Which words follow which.
pub struct NextWordMapIndex;

/// The ordinals at positions, from the postings.
pub struct PosMapIndex {
    writer: PosMapWriter,
    own_lens: Vec<u16>,
}

/// The texts by ordinal, from the tokens.
pub struct TermTextsIndex {
    writer: TermTextsWriter,
}

/// How often ordinals occur in documents, from the postings.
pub struct FreqMapIndex {
    writer: FreqMapWriter,
}

/// The words at positions.
pub struct WordPosMapIndex {
    writer: WordPosMapWriter,
}

/// The occurrences of words.
pub struct WordSfxPostIndex;

/// Which bytes the tokens hold, from the tokens. The layout of the file is its
/// writer's own; what the writer is given is kept here.
pub struct ByteMapIndex {
    tokens: Vec<(u32, String)>,
}

impl SfxIndexFile for SfxPostIndex {
    open spec fn name(&self) -> Seq<char> {
        "sfxpost"@
    }

    open spec fn strategy(&self) -> MergeStrategy {
        MergeStrategy::ExternalDagNode
    }

    open spec fn collected(&self) -> bool {
        false
    }

    open spec fn in_version(&self, sfx_version: u8) -> bool {
        true
    }

    fn id(&self) -> (r: &'static str) {
        "sfxpost"
    }

    fn extension(&self) -> (r: &'static str) {
        "sfxpost"
    }

    fn merge_strategy(&self) -> (r: MergeStrategy) {
        MergeStrategy::ExternalDagNode
    }

    fn prebuilt_by_collector(&self) -> (r: bool) {
        false
    }

    fn written_for(&self, sfx_version: u8) -> (r: bool) {
        true
    }
}

impl SfxIndexFile for GapMapIndex {
    open spec fn name(&self) -> Seq<char> {
        "gapmap"@
    }

    open spec fn strategy(&self) -> MergeStrategy {
        MergeStrategy::ExternalDagNode
    }

    open spec fn collected(&self) -> bool {
        false
    }

    open spec fn in_version(&self, sfx_version: u8) -> bool {
        sfx_version < 3
    }

    fn id(&self) -> (r: &'static str) {
        "gapmap"
    }

    fn extension(&self) -> (r: &'static str) {
        "gapmap"
    }

    fn merge_strategy(&self) -> (r: MergeStrategy) {
        MergeStrategy::ExternalDagNode
    }

    fn prebuilt_by_collector(&self) -> (r: bool) {
        false
    }

    fn written_for(&self, sfx_version: u8) -> (r: bool) {
        sfx_version < 3
    }
}

impl SfxIndexFile for SiblingIndex {
    open spec fn name(&self) -> Seq<char> {
        "sibling"@
    }

    open spec fn strategy(&self) -> MergeStrategy {
        MergeStrategy::OrMergeWithRemap
    }

    open spec fn collected(&self) -> bool {
        true
    }

    open spec fn in_version(&self, sfx_version: u8) -> bool {
        sfx_version < 3
    }

    fn id(&self) -> (r: &'static str) {
        "sibling"
    }

    fn extension(&self) -> (r: &'static str) {
        "sibling"
    }

    fn merge_strategy(&self) -> (r: MergeStrategy) {
        MergeStrategy::OrMergeWithRemap
    }

    fn prebuilt_by_collector(&self) -> (r: bool) {
        true
    }

    fn written_for(&self, sfx_version: u8) -> (r: bool) {
        sfx_version < 3
    }
}

impl SfxIndexFile for SepMapIndex {
    open spec fn name(&self) -> Seq<char> {
        "sepmap"@
    }

    open spec fn strategy(&self) -> MergeStrategy {
        MergeStrategy::OrMergeWithRemap
    }

    open spec fn collected(&self) -> bool {
        true
    }

    open spec fn in_version(&self, sfx_version: u8) -> bool {
        sfx_version < 3
    }

    fn id(&self) -> (r: &'static str) {
        "sepmap"
    }

    fn extension(&self) -> (r: &'static str) {
        "sepmap"
    }

    fn merge_strategy(&self) -> (r: MergeStrategy) {
        MergeStrategy::OrMergeWithRemap
    }

    fn prebuilt_by_collector(&self) -> (r: bool) {
        true
    }

    fn written_for(&self, sfx_version: u8) -> (r: bool) {
        sfx_version < 3
    }
}

impl SfxIndexFile for PosMapIndex {
    open spec fn name(&self) -> Seq<char> {
        "posmap"@
    }

    open spec fn strategy(&self) -> MergeStrategy {
        MergeStrategy::EventDriven
    }

    open spec fn collected(&self) -> bool {
        false
    }

    open spec fn in_version(&self, sfx_version: u8) -> bool {
        true
    }

    fn id(&self) -> (r: &'static str) {
        "posmap"
    }

    fn extension(&self) -> (r: &'static str) {
        "posmap"
    }

    fn merge_strategy(&self) -> (r: MergeStrategy) {
        MergeStrategy::EventDriven
    }

    fn prebuilt_by_collector(&self) -> (r: bool) {
        false
    }

    fn written_for(&self, sfx_version: u8) -> (r: bool) {
        true
    }
}

impl SfxIndexFile for TermTextsIndex {
    open spec fn name(&self) -> Seq<char> {
        "termtexts"@
    }

    open spec fn strategy(&self) -> MergeStrategy {
        MergeStrategy::EventDriven
    }

    open spec fn collected(&self) -> bool {
        false
    }

    open spec fn in_version(&self, sfx_version: u8) -> bool {
        true
    }

    fn id(&self) -> (r: &'static str) {
        "termtexts"
    }

    fn extension(&self) -> (r: &'static str) {
        "termtexts"
    }

    fn merge_strategy(&self) -> (r: MergeStrategy) {
        MergeStrategy::EventDriven
    }

    fn prebuilt_by_collector(&self) -> (r: bool) {
        false
    }

    fn written_for(&self, sfx_version: u8) -> (r: bool) {
        true
    }
}

impl SfxIndexFile for FreqMapIndex {
    open spec fn name(&self) -> Seq<char> {
        "freqmap"@
    }

    open spec fn strategy(&self) -> MergeStrategy {
        MergeStrategy::EventDriven
    }

    open spec fn collected(&self) -> bool {
        false
    }

    open spec fn in_version(&self, sfx_version: u8) -> bool {
        true
    }

    fn id(&self) -> (r: &'static str) {
        "freqmap"
    }

    fn extension(&self) -> (r: &'static str) {
        "freqmap"
    }

    fn merge_strategy(&self) -> (r: MergeStrategy) {
        MergeStrategy::EventDriven
    }

    fn prebuilt_by_collector(&self) -> (r: bool) {
        false
    }

    fn written_for(&self, sfx_version: u8) -> (r: bool) {
        true
    }
}

impl SfxIndexFile for WordPosMapIndex {
    open spec fn name(&self) -> Seq<char> {
        "word_pos_map"@
    }

    open spec fn strategy(&self) -> MergeStrategy {
        MergeStrategy::OrMergeWithRemap
    }

    open spec fn collected(&self) -> bool {
        true
    }

    open spec fn in_version(&self, sfx_version: u8) -> bool {
        sfx_version >= 3
    }

    fn id(&self) -> (r: &'static str) {
        "word_pos_map"
    }

    fn extension(&self) -> (r: &'static str) {
        "word_pos_map"
    }

    fn merge_strategy(&self) -> (r: MergeStrategy) {
        MergeStrategy::OrMergeWithRemap
    }

    fn prebuilt_by_collector(&self) -> (r: bool) {
        true
    }

    fn written_for(&self, sfx_version: u8) -> (r: bool) {
        sfx_version >= 3
    }
}

impl SfxIndexFile for ChunkWordMapIndex {
    open spec fn name(&self) -> Seq<char> {
        "chunk_word_map"@
    }

    open spec fn strategy(&self) -> MergeStrategy {
        MergeStrategy::OrMergeWithRemap
    }

    open spec fn collected(&self) -> bool {
        true
    }

    open spec fn in_version(&self, sfx_version: u8) -> bool {
        true
    }

    fn id(&self) -> (r: &'static str) {
        "chunk_word_map"
    }

    fn extension(&self) -> (r: &'static str) {
        "chunk_word_map"
    }

    fn merge_strategy(&self) -> (r: MergeStrategy) {
        MergeStrategy::OrMergeWithRemap
    }

    fn prebuilt_by_collector(&self) -> (r: bool) {
        true
    }

    fn written_for(&self, sfx_version: u8) -> (r: bool) {
        true
    }
}

impl SfxIndexFile for NextWordMapIndex {
    open spec fn name(&self) -> Seq<char> {
        "next_word_map"@
    }

    open spec fn strategy(&self) -> MergeStrategy {
        MergeStrategy::OrMergeWithRemap
    }

    open spec fn collected(&self) -> bool {
        true
    }

    open spec fn in_version(&self, sfx_version: u8) -> bool {
        true
    }

    fn id(&self) -> (r: &'static str) {
        "next_word_map"
    }

    fn extension(&self) -> (r: &'static str) {
        "next_word_map"
    }

    fn merge_strategy(&self) -> (r: MergeStrategy) {
        MergeStrategy::OrMergeWithRemap
    }

    fn prebuilt_by_collector(&self) -> (r: bool) {
        true
    }

    fn written_for(&self, sfx_version: u8) -> (r: bool) {
        true
    }
}

impl SfxIndexFile for SiblingV3Index {
    open spec fn name(&self) -> Seq<char> {
        "sibling_v3"@
    }

    open spec fn strategy(&self) -> MergeStrategy {
        MergeStrategy::ExternalDagNode
    }

    open spec fn collected(&self) -> bool {
        false
    }

    open spec fn in_version(&self, sfx_version: u8) -> bool {
        sfx_version >= 3
    }

    fn id(&self) -> (r: &'static str) {
        "sibling_v3"
    }

    fn extension(&self) -> (r: &'static str) {
        "sibling_v3"
    }

    fn merge_strategy(&self) -> (r: MergeStrategy) {
        MergeStrategy::ExternalDagNode
    }

    fn prebuilt_by_collector(&self) -> (r: bool) {
        false
    }

    fn written_for(&self, sfx_version: u8) -> (r: bool) {
        sfx_version >= 3
    }
}

impl SfxIndexFile for ByteMapIndex {
    open spec fn name(&self) -> Seq<char> {
        "bytemap"@
    }

    open spec fn strategy(&self) -> MergeStrategy {
        MergeStrategy::EventDriven
    }

    open spec fn collected(&self) -> bool {
        false
    }

    open spec fn in_version(&self, sfx_version: u8) -> bool {
        true
    }

    fn id(&self) -> (r: &'static str) {
        "bytemap"
    }

    fn extension(&self) -> (r: &'static str) {
        "bytemap"
    }

    fn merge_strategy(&self) -> (r: MergeStrategy) {
        MergeStrategy::EventDriven
    }

    fn prebuilt_by_collector(&self) -> (r: bool) {
        false
    }

    fn written_for(&self, sfx_version: u8) -> (r: bool) {
        true
    }
}

impl SfxIndexFile for WordSfxPostIndex {
    open spec fn name(&self) -> Seq<char> {
        "word_sfxpost"@
    }

    open spec fn strategy(&self) -> MergeStrategy {
        MergeStrategy::ExternalDagNode
    }

    open spec fn collected(&self) -> bool {
        false
    }

    open spec fn in_version(&self, sfx_version: u8) -> bool {
        sfx_version >= 3
    }

    fn id(&self) -> (r: &'static str) {
        "word_sfxpost"
    }

    fn extension(&self) -> (r: &'static str) {
        "word_sfxpost"
    }

    fn merge_strategy(&self) -> (r: MergeStrategy) {
        MergeStrategy::ExternalDagNode
    }

    fn prebuilt_by_collector(&self) -> (r: bool) {
        false
    }

    fn written_for(&self, sfx_version: u8) -> (r: bool) {
        sfx_version >= 3
    }
}

impl Default for PosMapIndex {
    fn default() -> (r: Self)
        ensures
            r.docs() == Seq::<Seq<u32>>::empty(),
            r.lens()@ == Seq::<u16>::empty(),
    {
        Self::new()
    }
}

impl PosMapIndex {
    /// The slots of each document.
    pub closed spec fn docs(&self) -> Seq<Seq<u32>> {
        self.writer.docs()
    }

    /// The own lengths by ordinal, as far as they were given.
    pub closed spec fn lens(&self) -> Vec<u16> {
        self.own_lens
    }

    /// The file: with byte checkpoints where own lengths were given.
    pub open spec fn file(&self) -> Seq<u8> {
        posmap::posmap_bytes(
            self.docs(),
            if self.lens()@.len() == 0 {
                None::<Vec<u16>>
            } else {
                Some(self.lens())
            },
        )
    }

    /// Whether the documents fit in the file.
    pub open spec fn fits(&self) -> bool {
        &&& self.docs().len() <= u32::MAX
        &&& bytes::flat(
            posmap::doc_runs(
                self.docs(),
                if self.lens()@.len() == 0 {
                    None::<Vec<u16>>
                } else {
                    Some(self.lens())
                },
            ),
        ).len() <= u64::MAX
    }

    /// No positions.
    pub fn new() -> (r: Self)
        ensures
            r.docs() == Seq::<Seq<u32>>::empty(),
            r.lens()@ == Seq::<u16>::empty(),
    {
        PosMapIndex { writer: PosMapWriter::new(), own_lens: Vec::new() }
    }

    /// Takes the own length of an ordinal.
    pub fn on_own_len(&mut self, ord: u32, own_len: u16)
        requires
            ord < usize::MAX,
        ensures
            final(self).docs() == old(self).docs(),
            final(self).lens()@ == offset_table::padded(old(self).lens()@, ord + 1, 0u16).update(ord as int, own_len),
    {
        let o: usize = ord as usize;
        let ghost first = self.own_lens@;
        assert(first =~= offset_table::padded(first, first.len() as int, 0u16));
        while self.own_lens.len() <= o
            invariant
                o < usize::MAX,
                self.writer == old(self).writer,
                self.own_lens@ == offset_table::padded(first, self.own_lens@.len() as int, 0u16),
                first.len() <= self.own_lens@.len(),
                self.own_lens@.len() <= o + 1 || self.own_lens@.len() == first.len(),
            decreases o + 1 - self.own_lens@.len(),
        {
            self.own_lens.push(0);
            assert(self.own_lens@ =~= offset_table::padded(first, self.own_lens@.len() as int, 0u16));
        }
        assert(self.own_lens@ =~= offset_table::padded(first, o + 1, 0u16));
        self.own_lens[o] = own_len;
    }

    /// Takes an occurrence of an ordinal.
    pub fn on_posting(&mut self, ord: u32, doc_id: u32, position: u32, _byte_from: u32, _byte_to: u32)
        requires
            doc_id < usize::MAX,
            position < usize::MAX,
        ensures
            final(self).docs() == posmap::with_slot(old(self).docs(), doc_id as int, position as int, ord),
            final(self).lens() == old(self).lens(),
    {
        self.writer.add(doc_id, position, ord);
    }

    /// The file.
    pub fn serialize(&self) -> (out: Vec<u8>)
        requires
            self.fits(),
        ensures
            out@ == self.file(),
    {
        if self.own_lens.len() == 0 {
            self.writer.serialize()
        } else {
            self.writer.encode(Some(&self.own_lens), Ghost(Some(self.own_lens)))
        }
    }
}

impl TermTextsIndex {
    /// The bytes of the texts, by ordinal.
    pub closed spec fn texts(&self) -> Seq<Seq<u8>> {
        self.writer.texts()
    }

    /// No texts.
    pub fn new() -> (r: Self)
        ensures
            r.texts() == Seq::<Seq<u8>>::empty(),
    {
        TermTextsIndex { writer: TermTextsWriter::new() }
    }

    /// Takes the text of an ordinal.
    pub fn on_token(&mut self, ord: u32, text: &str)
        requires
            ord < usize::MAX,
        ensures
            final(self).texts() == offset_table::padded(old(self).texts(), ord + 1, Seq::empty()).update(
                ord as int,
                encode_utf8(text@),
            ),
    {
        self.writer.add(ord, text);
    }

    /// The file.
    pub fn serialize(&self) -> (out: Vec<u8>)
        requires
            self.texts().len() <= u32::MAX,
            bytes::flat(self.texts()).len() <= u32::MAX,
        ensures
            out@ == termtexts::texts_bytes(self.texts()),
    {
        self.writer.serialize()
    }
}

impl FreqMapIndex {
    /// What was recorded: ordinal and document, as they came.
    pub closed spec fn adds(&self) -> Seq<(u32, u32)> {
        self.writer.adds()
    }

    /// The counts fit.
    pub closed spec fn wf(&self) -> bool {
        self.writer.wf()
    }

    /// Nothing recorded.
    pub fn new() -> (r: Self)
        ensures
            r.wf(),
            r.adds() == Seq::<(u32, u32)>::empty(),
    {
        FreqMapIndex { writer: FreqMapWriter::new() }
    }

    /// Takes an occurrence of an ordinal.
    pub fn on_posting(&mut self, ord: u32, doc_id: u32, _position: u32, _byte_from: u32, _byte_to: u32)
        requires
            old(self).wf(),
            ord < u32::MAX,
            freqmap::times(old(self).adds(), ord, doc_id) < u32::MAX,
        ensures
            final(self).wf(),
            final(self).adds() == old(self).adds().push((ord, doc_id)),
    {
        self.writer.add(ord, doc_id);
    }

    /// The file.
    pub fn serialize(&self) -> (out: Vec<u8>)
        requires
            self.wf(),
            bytes::flat(freqmap::row_runs(self.adds(), freqmap::terms_in(self.adds()))).len() <= u32::MAX,
        ensures
            out@ == freqmap::freqmap_bytes(self.adds()),
    {
        self.writer.serialize()
    }
}

impl WordPosMapIndex {
    /// The slots of each document.
    pub closed spec fn docs(&self) -> Seq<Seq<u32>> {
        self.writer.docs()
    }

    /// Every word fits in its slot.
    pub closed spec fn wf(&self) -> bool {
        !self.writer.overflowed()
    }

    /// No words.
    pub fn new() -> (r: Self)
        ensures
            r.wf(),
            r.docs() == Seq::<Seq<u32>>::empty(),
    {
        WordPosMapIndex { writer: WordPosMapWriter::new() }
    }

    /// The file.
    pub fn serialize(&self) -> (out: Vec<u8>)
        requires
            self.wf(),
            self.docs().len() <= u32::MAX,
            bytes::flat(word_pos_map::slot_runs(self.docs())).len() <= u64::MAX,
        ensures
            out@ == word_pos_map::word_map_bytes(self.docs()),
    {
        self.writer.serialize()
    }
}

/// Whether the tokens were taken in order, and these are the bytes of their
/// texts.
pub open spec fn taken(tokens: Seq<(u32, String)>, texts: Seq<Seq<u8>>) -> bool {
    &&& tokens.len() == texts.len()
    &&& forall|i: int|
        0 <= i < tokens.len() ==> (#[trigger] tokens[i]).0 == i && encode_utf8(tokens[i].1@)
            == texts[i]
}

/// Whether the writer of byte maps gave these bytes for the texts.
pub open spec fn byte_map_gave<B: Fn(Vec<(u32, String)>) -> Vec<u8>>(
    byte_map: B,
    texts: Seq<Seq<u8>>,
    data: Seq<u8>,
) -> bool {
    exists|tokens: Vec<(u32, String)>, out: Vec<u8>| #[trigger]
        call_ensures(byte_map, (tokens,), out) && taken(tokens@, texts) && out@ == data
}

impl ByteMapIndex {
    /// The tokens that were taken, each with its ordinal.
    pub closed spec fn tokens(&self) -> Seq<(u32, String)> {
        self.tokens@
    }

    /// No tokens.
    pub fn new() -> (r: Self)
        ensures
            r.tokens() == Seq::<(u32, String)>::empty(),
    {
        ByteMapIndex { tokens: Vec::new() }
    }

    /// Takes the text of an ordinal.
    pub fn on_token(&mut self, ord: u32, text: &str)
        ensures
            final(self).tokens().len() == old(self).tokens().len() + 1,
            final(self).tokens().drop_last() == old(self).tokens(),
            final(self).tokens().last().0 == ord,
            final(self).tokens().last().1@ == text@,
    {
        self.tokens.push((ord, str_copy(text)));
        assert(self.tokens@.drop_last() =~= old(self).tokens@);
    }

    /// The file that the writer of byte maps gives for the tokens.
    pub fn serialize<B: Fn(Vec<(u32, String)>) -> Vec<u8>>(self, byte_map: &B) -> (out: Vec<u8>)
        requires
            forall|t: Vec<(u32, String)>| #[trigger] call_requires(*byte_map, (t,)),
        ensures
            exists|t: Vec<(u32, String)>| #[trigger]
                call_ensures(*byte_map, (t,), out) && t@ == self.tokens(),
    {
        let tokens = self.tokens;
        let ghost given = tokens;
        let out = byte_map(tokens);
        assert(call_ensures(*byte_map, (given,), out));
        out
    }
}

/// An index file of the registry.
pub enum IndexFile {
    /// The postings.
    SfxPost(SfxPostIndex),
    /// The gaps between tokens.
    GapMap(GapMapIndex),
    /// The links.
    Sibling(SiblingIndex),
    /// The separators behind ordinals.
    SepMap(SepMapIndex),
    /// The ordinals at positions.
    PosMap(PosMapIndex),
    /// The bytes of the tokens.
    ByteMap(ByteMapIndex),
    /// The texts.
    TermTexts(TermTextsIndex),
    /// The words at positions.
    WordPosMap(WordPosMapIndex),
    /// The occurrences of words.
    WordSfxPost(WordSfxPostIndex),
    /// The links between chunks and words.
    SiblingV3(SiblingV3Index),
}

impl SfxIndexFile for IndexFile {
    open spec fn name(&self) -> Seq<char> {
        match self {
            IndexFile::SfxPost(i) => i.name(),
            IndexFile::GapMap(i) => i.name(),
            IndexFile::Sibling(i) => i.name(),
            IndexFile::SepMap(i) => i.name(),
            IndexFile::PosMap(i) => i.name(),
            IndexFile::ByteMap(i) => i.name(),
            IndexFile::TermTexts(i) => i.name(),
            IndexFile::WordPosMap(i) => i.name(),
            IndexFile::WordSfxPost(i) => i.name(),
            IndexFile::SiblingV3(i) => i.name(),
        }
    }

    open spec fn strategy(&self) -> MergeStrategy {
        match self {
            IndexFile::SfxPost(i) => i.strategy(),
            IndexFile::GapMap(i) => i.strategy(),
            IndexFile::Sibling(i) => i.strategy(),
            IndexFile::SepMap(i) => i.strategy(),
            IndexFile::PosMap(i) => i.strategy(),
            IndexFile::ByteMap(i) => i.strategy(),
            IndexFile::TermTexts(i) => i.strategy(),
            IndexFile::WordPosMap(i) => i.strategy(),
            IndexFile::WordSfxPost(i) => i.strategy(),
            IndexFile::SiblingV3(i) => i.strategy(),
        }
    }

    open spec fn collected(&self) -> bool {
        match self {
            IndexFile::SfxPost(i) => i.collected(),
            IndexFile::GapMap(i) => i.collected(),
            IndexFile::Sibling(i) => i.collected(),
            IndexFile::SepMap(i) => i.collected(),
            IndexFile::PosMap(i) => i.collected(),
            IndexFile::ByteMap(i) => i.collected(),
            IndexFile::TermTexts(i) => i.collected(),
            IndexFile::WordPosMap(i) => i.collected(),
            IndexFile::WordSfxPost(i) => i.collected(),
            IndexFile::SiblingV3(i) => i.collected(),
        }
    }

    open spec fn in_version(&self, sfx_version: u8) -> bool {
        match self {
            IndexFile::SfxPost(i) => i.in_version(sfx_version),
            IndexFile::GapMap(i) => i.in_version(sfx_version),
            IndexFile::Sibling(i) => i.in_version(sfx_version),
            IndexFile::SepMap(i) => i.in_version(sfx_version),
            IndexFile::PosMap(i) => i.in_version(sfx_version),
            IndexFile::ByteMap(i) => i.in_version(sfx_version),
            IndexFile::TermTexts(i) => i.in_version(sfx_version),
            IndexFile::WordPosMap(i) => i.in_version(sfx_version),
            IndexFile::WordSfxPost(i) => i.in_version(sfx_version),
            IndexFile::SiblingV3(i) => i.in_version(sfx_version),
        }
    }

    fn id(&self) -> (r: &'static str) {
        match self {
            IndexFile::SfxPost(i) => i.id(),
            IndexFile::GapMap(i) => i.id(),
            IndexFile::Sibling(i) => i.id(),
            IndexFile::SepMap(i) => i.id(),
            IndexFile::PosMap(i) => i.id(),
            IndexFile::ByteMap(i) => i.id(),
            IndexFile::TermTexts(i) => i.id(),
            IndexFile::WordPosMap(i) => i.id(),
            IndexFile::WordSfxPost(i) => i.id(),
            IndexFile::SiblingV3(i) => i.id(),
        }
    }

    fn extension(&self) -> (r: &'static str) {
        match self {
            IndexFile::SfxPost(i) => i.extension(),
            IndexFile::GapMap(i) => i.extension(),
            IndexFile::Sibling(i) => i.extension(),
            IndexFile::SepMap(i) => i.extension(),
            IndexFile::PosMap(i) => i.extension(),
            IndexFile::ByteMap(i) => i.extension(),
            IndexFile::TermTexts(i) => i.extension(),
            IndexFile::WordPosMap(i) => i.extension(),
            IndexFile::WordSfxPost(i) => i.extension(),
            IndexFile::SiblingV3(i) => i.extension(),
        }
    }

    fn merge_strategy(&self) -> (r: MergeStrategy) {
        match self {
            IndexFile::SfxPost(i) => i.merge_strategy(),
            IndexFile::GapMap(i) => i.merge_strategy(),
            IndexFile::Sibling(i) => i.merge_strategy(),
            IndexFile::SepMap(i) => i.merge_strategy(),
            IndexFile::PosMap(i) => i.merge_strategy(),
            IndexFile::ByteMap(i) => i.merge_strategy(),
            IndexFile::TermTexts(i) => i.merge_strategy(),
            IndexFile::WordPosMap(i) => i.merge_strategy(),
            IndexFile::WordSfxPost(i) => i.merge_strategy(),
            IndexFile::SiblingV3(i) => i.merge_strategy(),
        }
    }

    fn prebuilt_by_collector(&self) -> (r: bool) {
        match self {
            IndexFile::SfxPost(i) => i.prebuilt_by_collector(),
            IndexFile::GapMap(i) => i.prebuilt_by_collector(),
            IndexFile::Sibling(i) => i.prebuilt_by_collector(),
            IndexFile::SepMap(i) => i.prebuilt_by_collector(),
            IndexFile::PosMap(i) => i.prebuilt_by_collector(),
            IndexFile::ByteMap(i) => i.prebuilt_by_collector(),
            IndexFile::TermTexts(i) => i.prebuilt_by_collector(),
            IndexFile::WordPosMap(i) => i.prebuilt_by_collector(),
            IndexFile::WordSfxPost(i) => i.prebuilt_by_collector(),
            IndexFile::SiblingV3(i) => i.prebuilt_by_collector(),
        }
    }

    fn written_for(&self, sfx_version: u8) -> (r: bool) {
        match self {
            IndexFile::SfxPost(i) => i.written_for(sfx_version),
            IndexFile::GapMap(i) => i.written_for(sfx_version),
            IndexFile::Sibling(i) => i.written_for(sfx_version),
            IndexFile::SepMap(i) => i.written_for(sfx_version),
            IndexFile::PosMap(i) => i.written_for(sfx_version),
            IndexFile::ByteMap(i) => i.written_for(sfx_version),
            IndexFile::TermTexts(i) => i.written_for(sfx_version),
            IndexFile::WordPosMap(i) => i.written_for(sfx_version),
            IndexFile::WordSfxPost(i) => i.written_for(sfx_version),
            IndexFile::SiblingV3(i) => i.written_for(sfx_version),
        }
    }
}

/// The name of the `k`th index file.
pub open spec fn registered(k: int) -> Seq<char> {
    if k == 0 {
        "sfxpost"@
    } else if k == 1 {
        "gapmap"@
    } else if k == 2 {
        "sibling"@
    } else if k == 3 {
        "sepmap"@
    } else if k == 4 {
        "posmap"@
    } else if k == 5 {
        "bytemap"@
    } else if k == 6 {
        "termtexts"@
    } else if k == 7 {
        "word_pos_map"@
    } else if k == 8 {
        "word_sfxpost"@
    } else {
        "sibling_v3"@
    }
}

/// All index files, empty.
pub fn all_indexes() -> (all: Vec<IndexFile>)
    ensures
        all@.len() == 10,
        forall|k: int| 0 <= k < 10 ==> (#[trigger] all@[k]).name() == registered(k),
        all@[0] is SfxPost,
        all@[1] is GapMap,
        all@[2] matches IndexFile::Sibling(i) && i.file() == Seq::<u8>::empty(),
        all@[3] is SepMap,
        all@[4] matches IndexFile::PosMap(i) && i.docs() == Seq::<Seq<u32>>::empty() && i.lens()@.len()
            == 0,
        all@[5] matches IndexFile::ByteMap(i) && i.tokens() == Seq::<(u32, String)>::empty(),
        all@[6] matches IndexFile::TermTexts(i) && i.texts() == Seq::<Seq<u8>>::empty(),
        all@[7] matches IndexFile::WordPosMap(i) && i.wf() && i.docs() == Seq::<Seq<u32>>::empty(),
        all@[8] is WordSfxPost,
        all@[9] is SiblingV3,
{
    let mut all: Vec<IndexFile> = Vec::new();
    all.push(IndexFile::SfxPost(SfxPostIndex));
    all.push(IndexFile::GapMap(GapMapIndex));
    all.push(IndexFile::Sibling(SiblingIndex::new()));
    all.push(IndexFile::SepMap(SepMapIndex));
    all.push(IndexFile::PosMap(PosMapIndex::new()));
    all.push(IndexFile::ByteMap(ByteMapIndex::new()));
    all.push(IndexFile::TermTexts(TermTextsIndex::new()));
    all.push(IndexFile::WordPosMap(WordPosMapIndex::new()));
    all.push(IndexFile::WordSfxPost(WordSfxPostIndex));
    all.push(IndexFile::SiblingV3(SiblingV3Index));
    all
}

/// The postings of the first `n` ordinals: document and position of each; none
/// without postings that open.
pub open spec fn posting_lists(data: Option<&[u8]>, n: int) -> Seq<Seq<(u32, u32)>> {
    match data {
        Some(d) if sfxpost_v2::opens(d@) => derived::position_lists(d@, None, n),
        _ => Seq::new(n as nat, |i: int| Seq::<(u32, u32)>::empty()),
    }
}

/// The slots of the positions of the first `n` ordinals.
pub open spec fn posting_docs(data: Option<&[u8]>, n: int) -> Seq<Seq<u32>> {
    derived::position_docs(posting_lists(data, n), n)
}

/// Hands the occurrences of an ordinal to the position map.
fn feed_postings(reader: &SfxPostReaderV2, ord: u32, map: &mut PosMapIndex)
    requires
        reader.wf(),
        reader.gmap() is None,
        ({
            let list = derived::positions_of(sfxpost_v2::entries_for(reader.bytes(), None, ord));
            forall|i: int|
                0 <= i < list.len() ==> (#[trigger] list[i]).0 < usize::MAX && list[i].1 < usize::MAX
        }),
    ensures
        final(map).lens() == old(map).lens(),
        final(map).docs() == derived::with_positions(
            old(map).docs(),
            derived::positions_of(sfxpost_v2::entries_for(reader.bytes(), None, ord)),
            ord,
            sfxpost_v2::entries_for(reader.bytes(), None, ord).len() as int,
        ),
{
    let ghost list = derived::positions_of(sfxpost_v2::entries_for(reader.bytes(), None, ord));
    let all = reader.entries(ord);
    let ghost first = map.docs();
    let mut i: usize = 0;
    assert(all@.len() == list.len());
    while i < all.len()
        invariant
            i <= all@.len(),
            all@ == sfxpost_v2::as_entries(sfxpost_v2::entries_for(reader.bytes(), None, ord)),
            list == derived::positions_of(sfxpost_v2::entries_for(reader.bytes(), None, ord)),
            all@.len() == list.len(),
            forall|i: int|
                0 <= i < list.len() ==> (#[trigger] list[i]).0 < usize::MAX && list[i].1 < usize::MAX,
            map.lens() == old(map).lens(),
            map.docs() == derived::with_positions(first, list, ord, i as int),
        decreases all@.len() - i,
    {
        let e = all[i];
        assert(list[i as int] == (e.doc_id, e.token_index));
        map.on_posting(ord, e.doc_id, e.token_index, e.byte_from, e.byte_to);
        i += 1;
    }
}

/// Whether the second of the files is the byte map of the texts, with `behind`
/// files after it; one without bytes is left out.
pub open spec fn with_byte_map<B: Fn(Vec<(u32, String)>) -> Vec<u8>>(
    out: Seq<(String, Vec<u8>)>,
    byte_map: B,
    texts: Seq<Seq<u8>>,
    behind: nat,
) -> bool {
    exists|data: Seq<u8>| #[trigger]
        byte_map_gave(byte_map, texts, data) && if data.len() == 0 {
            out.len() == 1 + behind
        } else {
            out.len() == 2 + behind && out[1].0@ == "bytemap"@ && out[1].1@ == data
        }
}

/// Hands the next text over to the byte map.
fn feed_text(map: &mut ByteMapIndex, ord: u32, text: &str, Ghost(texts): Ghost<Seq<Seq<u8>>>)
    requires
        taken(old(map).tokens(), texts),
        ord == texts.len(),
    ensures
        taken(final(map).tokens(), texts.push(encode_utf8(text@))),
{
    map.on_token(ord, text);
    proof {
        let now = map.tokens();
        let more = texts.push(encode_utf8(text@));
        assert forall|i: int| 0 <= i < now.len() implies (#[trigger] now[i]).0 == i && encode_utf8(
            now[i].1@,
        ) == more[i] by {
            if i < texts.len() {
                assert(now.drop_last()[i] == now[i]);
                assert(old(map).tokens()[i].0 == i);
            }
        }
    }
}

/// Puts the byte map in unless it is empty.
fn push_byte_map<B: Fn(Vec<(u32, String)>) -> Vec<u8>>(
    out: &mut Vec<(String, Vec<u8>)>,
    map: ByteMapIndex,
    byte_map: &B,
    Ghost(texts): Ghost<Seq<Seq<u8>>>,
)
    requires
        old(out)@.len() == 1,
        taken(map.tokens(), texts),
        forall|t: Vec<(u32, String)>| #[trigger] call_requires(*byte_map, (t,)),
    ensures
        final(out)@[0] == old(out)@[0],
        with_byte_map(final(out)@, *byte_map, texts, 0),
{
    let data = map.serialize(byte_map);
    assert(byte_map_gave(*byte_map, texts, data@));
    if data.len() > 0 {
        out.push((str_copy("bytemap"), data));
    }
}

/// The indexes that are built from tokens and postings, in one pass: the
/// ordinals at positions, the bytes of the tokens as `byte_map` writes them,
/// and the texts. One without bytes is left out.
pub fn build_derived_indexes<B: Fn(Vec<(u32, String)>) -> Vec<u8>>(
    tokens: &Vec<String>,
    sfxpost_data: Option<&[u8]>,
    byte_map: &B,
) -> (out: Vec<(String, Vec<u8>)>)
    requires
        forall|t: Vec<(u32, String)>| #[trigger] call_requires(*byte_map, (t,)),
        tokens@.len() < u32::MAX,
        derived::positions_fit(posting_lists(sfxpost_data, tokens@.len() as int)),
        posting_docs(sfxpost_data, tokens@.len() as int).len() <= u32::MAX,
        bytes::flat(
            posmap::doc_runs(posting_docs(sfxpost_data, tokens@.len() as int), None::<Vec<u16>>),
        ).len() <= u64::MAX,
        bytes::flat(collector_v3::texts_of(tokens@)).len() <= u32::MAX,
    ensures
        out@[0].0@ == "posmap"@,
        out@[0].1@ == posmap::posmap_bytes(
            posting_docs(sfxpost_data, tokens@.len() as int),
            None::<Vec<u16>>,
        ),
        with_byte_map(out@, *byte_map, collector_v3::texts_of(tokens@), 1),
        forall|i: int| 0 <= i < out@.len() ==> (#[trigger] out@[i]).1@.len() > 0,
        out@.last().0@ == "termtexts"@,
        out@.last().1@ == termtexts::texts_bytes(collector_v3::texts_of(tokens@)),
{
    let n: usize = tokens.len();
    let ghost lists = posting_lists(sfxpost_data, n as int);
    let ghost texts = collector_v3::texts_of(tokens@);
    let reader = match sfxpost_data {
        Some(d) => SfxPostReaderV2::open_slice(d),
        None => None,
    };
    let mut map = PosMapIndex::new();
    let mut presence = ByteMapIndex::new();
    let mut terms = TermTextsIndex::new();
    let mut i: usize = 0;
    assert(terms.texts() =~= texts.take(0));
    while i < n
        invariant
            i <= n,
            n == tokens@.len(),
            n < u32::MAX,
            lists == posting_lists(sfxpost_data, n as int),
            derived::positions_fit(lists),
            texts == collector_v3::texts_of(tokens@),
            reader is Some <==> sfxpost_data is Some && sfxpost_v2::opens((sfxpost_data->0)@),
            reader matches Some(r) ==> r.wf() && r.gmap() is None && r.bytes() == (sfxpost_data->0)@,
            map.lens()@.len() == 0,
            map.docs() == derived::position_docs(lists, i as int),
            terms.texts() == texts.take(i as int),
            taken(presence.tokens(), texts.take(i as int)),
        decreases n - i,
    {
        feed_text(&mut presence, i as u32, tokens[i].as_str(), Ghost(texts.take(i as int)));
        terms.on_token(i as u32, tokens[i].as_str());
        assert(terms.texts() =~= texts.take(i + 1));
        assert(texts.take(i + 1) =~= texts.take(i as int).push(texts[i as int]));
        match &reader {
            Some(r) => {
                proof {
                    assert(lists[i as int] == derived::positions_of(sfxpost_v2::entries_for(r.bytes(), None, i as u32)));
                    let list = lists[i as int];
                    assert forall|k: int| 0 <= k < list.len() implies (#[trigger] list[k]).0 < usize::MAX
                        && list[k].1 < usize::MAX by {
                        assert(lists[i as int][k].0 < usize::MAX);
                    }
                }
                feed_postings(r, i as u32, &mut map);
            },
            None => {
                assert(lists[i as int] =~= Seq::<(u32, u32)>::empty());
            },
        }
        i += 1;
    }
    assert(texts.take(i as int) =~= texts);
    let mut out: Vec<(String, Vec<u8>)> = Vec::new();
    out.push((str_copy("posmap"), map.serialize()));
    push_byte_map(&mut out, presence, byte_map, Ghost(texts));
    let ghost before = out@;
    out.push((str_copy("termtexts"), terms.serialize()));
    proof {
        let data = choose|data: Seq<u8>| #[trigger]
            byte_map_gave(*byte_map, texts, data) && if data.len() == 0 {
                before.len() == 1
            } else {
                before.len() == 2 && before[1].0@ == "bytemap"@ && before[1].1@ == data
            };
        assert(byte_map_gave(*byte_map, texts, data));
        assert(with_byte_map(out@, *byte_map, texts, 1));
        broadcast use bytes::group_le_len;

        assert(out@[0].1@.len() > 0);
        assert(out@.last().1@.len() > 0);
    }
    out
}

/// The own length of the `i`th token: the one given, or the token's length.
pub open spec fn own_len_at(tokens: Seq<String>, lens: Seq<u16>, i: int) -> u16 {
    if i < lens.len() {
        lens[i]
    } else {
        encode_utf8(tokens[i]@).len() as u16
    }
}

/// The own part of a token: up to its own length, and on to the end of the
/// character there; all of it where no length is given.
pub open spec fn own_text(token: Seq<u8>, own_len: Option<u16>) -> Seq<u8> {
    match own_len {
        Some(n) => token.subrange(
            0,
            text::ceil_boundary(
                token,
                if n <= token.len() {
                    n as int
                } else {
                    token.len() as int
                },
            ),
        ),
        None => token,
    }
}

/// The own parts of tokens.
pub open spec fn own_texts(tokens: Seq<String>, lens: Option<Seq<u16>>) -> Seq<Seq<u8>> {
    Seq::new(
        tokens.len(),
        |i: int|
            own_text(
                encode_utf8(tokens[i]@),
                match lens {
                    Some(l) => Some(own_len_at(tokens, l, i)),
                    None => None,
                },
            ),
    )
}

/// The own part of a token.
pub fn effective_text<'a>(token: &'a str, own_len: Option<u16>) -> (r: &'a str)
    ensures
        encode_utf8(r@) == own_text(encode_utf8(token@), own_len),
{
    match own_len {
        None => token,
        Some(n) => {
            let len: usize = str_len(token);
            let end: usize = if n as usize <= len {
                n as usize
            } else {
                len
            };
            str_upto(token, boundary_from(token, end))
        },
    }
}

/// Own lengths, where they are given.
pub open spec fn given_lens(lens: Option<&Vec<u16>>) -> Option<Seq<u16>> {
    match lens {
        Some(l) => Some(l@),
        None => None,
    }
}

/// The ordinals at positions and the bytes of the tokens' own parts as
/// `byte_map` writes them, built from tokens and postings with the tokens' own
/// lengths where they are given. One without bytes is left out.
pub fn build_derived_indexes_v3<B: Fn(Vec<(u32, String)>) -> Vec<u8>>(
    tokens: &Vec<String>,
    sfxpost_data: Option<&[u8]>,
    token_own_lens: Option<&Vec<u16>>,
    byte_map: &B,
) -> (out: Vec<(String, Vec<u8>)>)
    requires
        forall|t: Vec<(u32, String)>| #[trigger] call_requires(*byte_map, (t,)),
        tokens@.len() < u32::MAX,
        derived::positions_fit(posting_lists(sfxpost_data, tokens@.len() as int)),
        posting_docs(sfxpost_data, tokens@.len() as int).len() <= u32::MAX,
        forall|lens: Option<Vec<u16>>|
            bytes::flat(
                #[trigger] posmap::doc_runs(posting_docs(sfxpost_data, tokens@.len() as int), lens),
            ).len() <= u64::MAX,
    ensures
        with_byte_map(out@, *byte_map, own_texts(tokens@, given_lens(token_own_lens)), 0),
        forall|i: int| 0 <= i < out@.len() ==> (#[trigger] out@[i]).1@.len() > 0,
        out@[0].0@ == "posmap"@,
        exists|lens: Option<Vec<u16>>|
            out@[0].1@ == #[trigger] posmap::posmap_bytes(
                posting_docs(sfxpost_data, tokens@.len() as int),
                lens,
            ) && (lens is Some <==> token_own_lens is Some && tokens@.len() > 0) && (lens matches Some(l)
                ==> l@ == Seq::new(
                tokens@.len(),
                |i: int| own_len_at(tokens@, (token_own_lens->0)@, i),
            )),
{
    let n: usize = tokens.len();
    let ghost lists = posting_lists(sfxpost_data, n as int);
    let ghost given = token_own_lens is Some;
    let ghost own = Seq::new(
        n as nat,
        |i: int| own_len_at(tokens@, (token_own_lens->0)@, i),
    );
    let reader = match sfxpost_data {
        Some(d) => SfxPostReaderV2::open_slice(d),
        None => None,
    };
    let ghost texts = own_texts(tokens@, given_lens(token_own_lens));
    let mut map = PosMapIndex::new();
    let mut presence = ByteMapIndex::new();
    let mut i: usize = 0;
    assert(map.lens()@ =~= own.take(0));
    while i < n
        invariant
            i <= n,
            n == tokens@.len(),
            n < u32::MAX,
            lists == posting_lists(sfxpost_data, n as int),
            derived::positions_fit(lists),
            reader is Some <==> sfxpost_data is Some && sfxpost_v2::opens((sfxpost_data->0)@),
            reader matches Some(r) ==> r.wf() && r.gmap() is None && r.bytes() == (sfxpost_data->0)@,
            given == token_own_lens is Some,
            given ==> own == Seq::new(
                n as nat,
                |i: int| own_len_at(tokens@, (token_own_lens->0)@, i),
            ),
            given ==> map.lens()@ == own.take(i as int),
            !given ==> map.lens()@.len() == 0,
            texts == own_texts(tokens@, given_lens(token_own_lens)),
            taken(presence.tokens(), texts.take(i as int)),
            map.docs() == derived::position_docs(lists, i as int),
        decreases n - i,
    {
        let own_len: Option<u16> = match token_own_lens {
            Some(lens) => {
                let len: u16 = if i < lens.len() {
                    lens[i]
                } else {
                    str_len(tokens[i].as_str()) as u16
                };
                map.on_own_len(i as u32, len);
                assert(map.lens()@ =~= own.take(i + 1));
                Some(len)
            },
            None => None,
        };
        let own_part = effective_text(tokens[i].as_str(), own_len);
        feed_text(&mut presence, i as u32, own_part, Ghost(texts.take(i as int)));
        assert(texts.take(i + 1) =~= texts.take(i as int).push(texts[i as int]));
        match &reader {
            Some(r) => {
                proof {
                    assert(lists[i as int] == derived::positions_of(sfxpost_v2::entries_for(r.bytes(), None, i as u32)));
                    let list = lists[i as int];
                    assert forall|k: int| 0 <= k < list.len() implies (#[trigger] list[k]).0 < usize::MAX
                        && list[k].1 < usize::MAX by {
                        assert(lists[i as int][k].0 < usize::MAX);
                    }
                }
                feed_postings(r, i as u32, &mut map);
            },
            None => {
                assert(lists[i as int] =~= Seq::<(u32, u32)>::empty());
            },
        }
        i += 1;
    }
    let ghost lens: Option<Vec<u16>> = if map.lens()@.len() == 0 {
        None
    } else {
        Some(map.lens())
    };
    proof {
        assert(given ==> own.take(n as int) =~= own);
        assert(bytes::flat(posmap::doc_runs(map.docs(), lens)).len() <= u64::MAX);
    }
    let file = map.serialize();
    assert(file@ == posmap::posmap_bytes(map.docs(), lens));
    let mut out: Vec<(String, Vec<u8>)> = Vec::new();
    out.push((str_copy("posmap"), file));
    assert(texts.take(n as int) =~= texts);
    push_byte_map(&mut out, presence, byte_map, Ghost(texts));
    proof {
        broadcast use bytes::group_le_len;

        assert(out@[0].1@.len() > 0);
    }
    out
}

/// Law: what stands behind the own parts of tokens never enters their byte map:
/// the tokens cut to their own parts have the same texts to be written.
pub proof fn byte_maps_hold_own_parts_alone(tokens: Seq<String>, lens: Seq<u16>, cut: Seq<String>)
    requires
        collector_v3::texts_of(cut) == own_texts(tokens, Some(lens)),
    ensures
        own_texts(cut, None) == own_texts(tokens, Some(lens)),
{
    assert(own_texts(cut, None) =~= collector_v3::texts_of(cut));
}

/// Which of a source's first `n` ordinals became which new one.
pub open spec fn renamings(texts: Seq<u8>, tokens: Seq<Seq<u8>>, n: int) -> Seq<(u32, u32)>
    decreases n,
{
    if n <= 0 {
        Seq::empty()
    } else {
        let before = renamings(texts, tokens, n - 1);
        match sibling_index::renamed(texts, tokens, (n - 1) as u32) {
            Some(o) => before.push(((n - 1) as u32, o)),
            None => before,
        }
    }
}

/// The renamings of a source; none where its texts are missing or do not open.
pub open spec fn source_renamings(texts: Option<Vec<u8>>, tokens: Seq<Seq<u8>>) -> Seq<(u32, u32)> {
    match texts {
        Some(t) if termtexts::opens(t@) => renamings(t@, tokens, bytes::get32(t@, 4) as int),
        _ => Seq::empty(),
    }
}

/// The renamings of a source.
fn find_renamings(texts: &Option<Vec<u8>>, index: &TokenIndex) -> (out: Vec<(u32, u32)>)
    requires
        index.wf(),
        texts matches Some(t) ==> termtexts::opens(t@) ==> termtexts::ordered(t@),
    ensures
        out@ == source_renamings(*texts, index.tokens()),
{
    let mut out: Vec<(u32, u32)> = Vec::new();
    let reader = match texts {
        Some(t) => TermTextsReader::open(t.as_slice()),
        None => None,
    };
    match reader {
        Some(tt) => {
            let n: u32 = tt.num_terms();
            let mut o: u32 = 0;
            while o < n
                invariant
                    o <= n,
                    tt.wf(),
                    index.wf(),
                    termtexts::ordered(tt.bytes()),
                    n == bytes::get32(tt.bytes(), 4),
                    out@ == renamings(tt.bytes(), index.tokens(), o as int),
                decreases n - o,
            {
                match tt.text(o) {
                    Some(t) => match index.get(t) {
                        Some(new) => {
                            out.push((o, new));
                        },
                        None => {},
                    },
                    None => {},
                }
                o += 1;
            }
        },
        None => {},
    }
    out
}

/// Borrowed sources.
pub open spec fn lent<'a>(v: Seq<Option<&'a [u8]>>, sources: Seq<Option<Vec<u8>>>) -> bool {
    &&& v.len() == sources.len()
    &&& forall|i: int|
        0 <= i < v.len() ==> match sources[i] {
            Some(s) => (#[trigger] v[i]) matches Some(b) && b@ == s@,
            None => v[i] is None,
        }
}

/// The merged separators.
pub open spec fn merged_seps(
    sources: Seq<Option<Vec<u8>>>,
    texts: Seq<Option<Vec<u8>>>,
    tokens: Seq<Seq<u8>>,
    file: Seq<u8>,
) -> bool {
    exists|v: Seq<Option<&[u8]>>, maps: Seq<Vec<(u32, u32)>>| #[trigger]
        lent(v, sources) && collector_v3::contents(maps) == Seq::new(
            texts.len(),
            |k: int| source_renamings(texts[k], tokens),
        ) && file == sepmap::sepmap_bytes(
            #[trigger] sepmap::merged_maps(v, maps, first_ordinals(tokens.len()), tokens.len() as int),
        )
}

/// The ordinals of `n` tokens.
pub open spec fn first_ordinals(n: nat) -> Seq<u32> {
    Seq::new(n, |i: int| i as u32)
}

/// The indexes that are merged from their sources, with ordinals renamed by
/// their texts: the links, the separators, and the words at positions, which
/// a merge leaves empty.
pub fn or_merge_indexes(
    siblings: &Vec<Option<Vec<u8>>>,
    separators: &Vec<Option<Vec<u8>>>,
    source_termtexts: &Vec<Option<Vec<u8>>>,
    tokens: &Vec<String>,
) -> (out: Vec<(String, Vec<u8>)>)
    requires
        collector_v3::texts_of(tokens@).no_duplicates(),
        tokens@.len() < u32::MAX,
        siblings@.len() == source_termtexts@.len(),
        separators@.len() == source_termtexts@.len(),
        forall|i: int|
            0 <= i < source_termtexts@.len() ==> (#[trigger] source_termtexts@[i] matches Some(t)
                ==> termtexts::opens(t@) ==> termtexts::ordered(t@)),
        bytes::flat(
            sibling_table::link_runs(
                (sibling_index::max_renamed(
                    siblings@,
                    source_termtexts@,
                    collector_v3::texts_of(tokens@),
                    siblings@.len() as int,
                ) + 1) as u32,
                sibling_table::rows(
                    sibling_index::all_renamed(
                        siblings@,
                        source_termtexts@,
                        collector_v3::texts_of(tokens@),
                        siblings@.len() as int,
                    ),
                ),
            ),
        ).len() <= u32::MAX,
    ensures
        out@.len() == 3,
        out@[0].0@ == "sibling"@,
        out@[0].1@ == sibling_table::table_bytes(
            (sibling_index::max_renamed(
                siblings@,
                source_termtexts@,
                collector_v3::texts_of(tokens@),
                siblings@.len() as int,
            ) + 1) as u32,
            sibling_index::all_renamed(
                siblings@,
                source_termtexts@,
                collector_v3::texts_of(tokens@),
                siblings@.len() as int,
            ),
        ),
        out@[1].0@ == "sepmap"@,
        merged_seps(separators@, source_termtexts@, collector_v3::texts_of(tokens@), out@[1].1@),
        out@[2].0@ == "word_pos_map"@,
        out@[2].1@ == word_pos_map::word_map_bytes(Seq::empty()),
{
    let index = TokenIndex::new(tokens);
    let ghost all = collector_v3::texts_of(tokens@);
    let mut sibling = SiblingIndex::new();
    proof {
        assert forall|i: int| 0 <= i < siblings@.len() && sibling_index::takes_part(
            #[trigger] siblings@[i],
            source_termtexts@[i],
        ) implies termtexts::ordered((source_termtexts@[i]->0)@) by {
            assert(source_termtexts@[i] is Some);
        }
    }
    sibling.merge_from_sources(siblings, source_termtexts, &index);
    let mut maps: Vec<Vec<(u32, u32)>> = Vec::new();
    let mut lent_sources: Vec<Option<&[u8]>> = Vec::new();
    let mut k: usize = 0;
    while k < source_termtexts.len()
        invariant
            k <= source_termtexts@.len(),
            separators@.len() == source_termtexts@.len(),
            index.wf(),
            all == index.tokens(),
            forall|i: int|
                0 <= i < source_termtexts@.len() ==> (#[trigger] source_termtexts@[i] matches Some(t)
                    ==> termtexts::opens(t@) ==> termtexts::ordered(t@)),
            maps@.len() == k,
            lent_sources@.len() == k,
            forall|i: int|
                0 <= i < k ==> (#[trigger] maps@[i])@ == source_renamings(source_termtexts@[i], all),
            forall|i: int|
                0 <= i < k ==> match separators@[i] {
                    Some(s) => (#[trigger] lent_sources@[i]) matches Some(b) && b@ == s@,
                    None => lent_sources@[i] is None,
                },
        decreases source_termtexts@.len() - k,
    {
        assert(source_termtexts@[k as int] == source_termtexts@[k as int]);
        maps.push(find_renamings(&source_termtexts[k], &index));
        lent_sources.push(
            match &separators[k] {
                Some(s) => Some(s.as_slice()),
                None => None,
            },
        );
        k += 1;
    }
    let mut terms: Vec<u32> = Vec::new();
    let mut i: usize = 0;
    while i < tokens.len()
        invariant
            i <= tokens@.len(),
            tokens@.len() < u32::MAX,
            terms@ =~= first_ordinals(i as nat),
        decreases tokens@.len() - i,
    {
        terms.push(i as u32);
        i += 1;
    }
    let sep = SepMapIndex;
    let sep_file = sep.merge(lent_sources.as_slice(), terms.as_slice(), maps.as_slice());
    proof {
        assert(collector_v3::contents(maps@) =~= Seq::new(
            source_termtexts@.len(),
            |k: int| source_renamings(source_termtexts@[k], all),
        ));
        assert(lent(lent_sources@, separators@));
        assert(terms@ =~= first_ordinals(all.len()));
        assert(sep_file@ == sepmap::sepmap_bytes(
            sepmap::merged_maps(lent_sources@, maps@, first_ordinals(all.len()), all.len() as int),
        ));
        assert(merged_seps(separators@, source_termtexts@, all, sep_file@));
        assert(word_pos_map::slot_runs(Seq::empty()) =~= Seq::<Seq<u8>>::empty());
    }
    let words = WordPosMapIndex::new();
    let mut out: Vec<(String, Vec<u8>)> = Vec::new();
    out.push((str_copy("sibling"), sibling.serialize()));
    out.push((str_copy("sepmap"), sep_file));
    out.push((str_copy("word_pos_map"), words.serialize()));
    out
}

} // verus!
