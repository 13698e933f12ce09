//! Term texts with metadata: the extended text of each ordinal and what a
//! merge needs to know of it.
//!
//! The file is a section file with magic `TTX3`. Three layouts are read, the
//! third is written:
//! - the third: section 5 holds `[4 bytes] count`, a block table of `count + 1`
//!   text offsets, 4 bytes of metadata per ordinal, and the texts;
//! - the second: section 4 holds `[4 bytes] count`, `count + 1` entries of 8
//!   bytes, the text offset and the metadata, and the texts;
//! - the first: section 1 holds `[4 bytes] count`, `count + 1` text offsets and
//!   the texts, section 2 `[4 bytes] count` and 6 bytes of metadata each.
//!
//! Section 3 holds the length of the longest word and a layout number; in a
//! file without it the longest word is not known. Section 6 holds the ids the
//! entries stand for, as runs; without it entry `i` stands for id `i`.

use vstd::prelude::*;
use vstd::string::*;
use vstd::utf8::*;

use crate::block_offsets;
use crate::block_offsets::BlockOffsets;
use crate::bytes;
use crate::bytes::{part, push_bytes, push_flat, push_u16, push_u32, read_u16, read_u32};
use crate::collector_data;
use crate::collector_data::SfxCollectorDataV3;
use crate::offset_table;
use crate::offset_table::grow_runs;
use crate::section_file;
use crate::section_file::{SectionFileReader, SectionFileWriter};
use crate::text;
use crate::text::utf8_text;

verus! {

/// The section of the texts in the first layout.
pub const SECTION_TEXTS: u16 = 1;

/// The section of the metadata in the first layout.
pub const SECTION_META: u16 = 2;

/// The section of the longest word.
pub const SECTION_STATS: u16 = 3;

/// The section of the entries in the second layout.
pub const SECTION_ENTRIES: u16 = 4;

/// The section of the entries in the third layout.
pub const SECTION_ENTRIES3: u16 = 5;

/// The section of the ids.
pub const SECTION_IDS: u16 = 6;

/// The version of the files written.
pub const TEXTS_VERSION: u8 = 3;

/// The layout number of the longest word.
pub const STATS_VERSION: u16 = 1;

/// Suffixes of a word reach this deep into it; a match that starts deeper is
/// found through its chunks only.
pub const WORD_SUFFIX_CAP: u16 = 256;

/// What is known of an ordinal besides its text.
#[derive(Debug, Clone, Copy, PartialEq, Eq, Structural)]
pub struct TermMetaV3 {
    /// Bytes the token owns: its content and the separators after it.
    pub own_len: u16,
    /// How many of these are separators.
    pub sep_len: u8,
    /// Bytes borrowed from the next token at the end of the text.
    pub overlap_len: u8,
    /// Whether the token is the first chunk of a word.
    pub is_word_start: bool,
    /// Whether the ordinal stands for a word and not for a chunk.
    pub is_word_stripped: bool,
}

/// The metadata of an ordinal that was skipped.
pub open spec fn no_meta() -> TermMetaV3 {
    TermMetaV3 {
        own_len: 0,
        sep_len: 0,
        overlap_len: 0,
        is_word_start: false,
        is_word_stripped: false,
    }
}

/// The flags of an entry.
pub open spec fn flags_of(m: TermMetaV3) -> u8 {
    (m.overlap_len + (if m.is_word_start {
        16int
    } else {
        0
    }) + (if m.is_word_stripped {
        32int
    } else {
        0
    })) as u8
}

/// The 4 bytes of an entry's metadata.
pub open spec fn meta_bytes(m: TermMetaV3) -> Seq<u8> {
    bytes::le16(m.own_len) + seq![m.sep_len, flags_of(m)]
}

/// The metadata at `p`.
pub open spec fn meta_at(s: Seq<u8>, p: int) -> TermMetaV3 {
    TermMetaV3 {
        own_len: bytes::get16(s, p),
        sep_len: s[p + 2],
        overlap_len: (s[p + 3] % 16) as u8,
        is_word_start: s[p + 3] / 16 % 2 == 1,
        is_word_stripped: s[p + 3] / 32 % 2 == 1,
    }
}

/// The bytes of the metadata of all entries.
pub open spec fn metas_bytes(metas: Seq<TermMetaV3>) -> Seq<u8>
    decreases metas.len(),
{
    if metas.len() == 0 {
        Seq::empty()
    } else {
        metas_bytes(metas.drop_last()) + meta_bytes(metas.last())
    }
}

/// Content bytes of a word.
pub open spec fn content_len(m: TermMetaV3) -> u16 {
    if m.own_len >= m.sep_len {
        (m.own_len - m.sep_len) as u16
    } else {
        0
    }
}

/// Content bytes of the longest word; 0 without words.
pub open spec fn longest_word(metas: Seq<TermMetaV3>) -> u16
    decreases metas.len(),
{
    if metas.len() == 0 {
        0
    } else {
        let rest = longest_word(metas.drop_last());
        if metas.last().is_word_stripped && content_len(metas.last()) > rest {
            content_len(metas.last())
        } else {
            rest
        }
    }
}

/// The section of the longest word.
pub open spec fn stats_bytes(max_word: u16) -> Seq<u8> {
    bytes::le16(max_word) + bytes::le16(STATS_VERSION)
}

/// The runs of consecutive ids: first id and how many.
pub open spec fn runs_of(ids: Seq<u32>) -> Seq<(u32, u32)>
    decreases ids.len(),
{
    if ids.len() == 0 {
        Seq::empty()
    } else {
        let rest = runs_of(ids.drop_last());
        if rest.len() > 0 && rest.last().0 + rest.last().1 == ids.last() {
            rest.drop_last().push((rest.last().0, (rest.last().1 + 1) as u32))
        } else {
            rest.push((ids.last(), 1u32))
        }
    }
}

/// The bytes of the runs.
pub open spec fn pairs_bytes(runs: Seq<(u32, u32)>) -> Seq<u8>
    decreases runs.len(),
{
    if runs.len() == 0 {
        Seq::empty()
    } else {
        pairs_bytes(runs.drop_last()) + (bytes::le32(runs.last().0) + bytes::le32(runs.last().1))
    }
}

/// The section of the ids.
pub open spec fn ids_bytes(runs: Seq<(u32, u32)>) -> Seq<u8> {
    bytes::le32(runs.len() as u32) + pairs_bytes(runs)
}

/// The section of the entries.
pub open spec fn entries_bytes(texts: Seq<Seq<u8>>, metas: Seq<TermMetaV3>) -> Seq<u8> {
    bytes::le32(texts.len() as u32) + block_offsets::table_bytes(bytes::starts32(texts)) + metas_bytes(metas) + bytes::flat(texts)
}

/// The bytes `TTX3`.
pub open spec fn ttx3() -> Seq<u8> {
    seq![84u8, 84u8, 88u8, 51u8]
}

/// The ids of the sections of a file.
pub open spec fn section_ids(with_ids: bool) -> Seq<u16> {
    if with_ids {
        seq![SECTION_ENTRIES3, SECTION_STATS, SECTION_IDS]
    } else {
        seq![SECTION_ENTRIES3, SECTION_STATS]
    }
}

/// The sections of a file.
pub open spec fn section_payloads(
    texts: Seq<Seq<u8>>,
    metas: Seq<TermMetaV3>,
    ids: Option<Seq<u32>>,
) -> Seq<Seq<u8>> {
    match ids {
        Some(i) => seq![
            entries_bytes(texts, metas),
            stats_bytes(longest_word(metas)),
            ids_bytes(runs_of(i)),
        ],
        None => seq![entries_bytes(texts, metas), stats_bytes(longest_word(metas))],
    }
}

/// The file of the texts, given as their bytes, with their metadata and ids.
pub open spec fn texts_file(
    texts: Seq<Seq<u8>>,
    metas: Seq<TermMetaV3>,
    ids: Option<Seq<u32>>,
) -> Seq<u8> {
    section_file::file_bytes(
        ttx3(),
        TEXTS_VERSION,
        section_ids(ids is Some),
        section_payloads(texts, metas, ids),
    )
}

/// Whether the parts of a file stay within the sizes its fields can hold, and
/// every overlap within its four bits.
pub open spec fn writable(
    texts: Seq<Seq<u8>>,
    metas: Seq<TermMetaV3>,
    ids: Option<Seq<u32>>,
) -> bool {
    &&& texts.len() < u32::MAX
    &&& texts.len() == metas.len()
    &&& bytes::flat(texts).len() <= u32::MAX
    &&& bytes::flat(block_offsets::all_blocks(bytes::starts32(texts))).len() <= u32::MAX
    &&& bytes::flat(section_payloads(texts, metas, ids)).len() <= u32::MAX
    &&& forall|i: int| 0 <= i < metas.len() ==> (#[trigger] metas[i]).overlap_len < 16
}

/// Each id is larger than those before it.
pub open spec fn increasing(ids: Seq<u32>) -> bool {
    forall|i: int, j: int| 0 <= i < j < ids.len() ==> ids[i] < ids[j]
}

/// What a file holds.
#[verifier::ext_equal]
pub struct TextFile {
    /// Number of entries.
    pub num: u32,
    /// Which layout.
    pub layout: int,
    /// The entries: metadata, offset and metadata, or offsets, by layout.
    pub entries: Seq<u8>,
    /// The directory of the block table, in the third layout.
    pub dir: Seq<u8>,
    /// The blocks of the block table, in the third layout.
    pub blocks: Seq<u8>,
    /// The texts.
    pub texts: Seq<u8>,
    /// The metadata and how many there are, in the first layout.
    pub legacy: Option<(Seq<u8>, u32)>,
    /// The runs of ids.
    pub runs: Option<Seq<(u32, u32)>>,
    /// The longest word.
    pub max_word: Option<u16>,
}

/// The longest word a file tells.
pub open spec fn stats_in(s: Seq<u8>) -> Option<u16> {
    match section_file::section_in(s, SECTION_STATS) {
        Some(b) if b.len() >= 4 && bytes::get16(b, 2) == STATS_VERSION => Some(bytes::get16(b, 0)),
        _ => None,
    }
}

/// The runs of ids a file tells; `None` where the section is missing or cut.
pub open spec fn runs_in(s: Seq<u8>) -> Option<Seq<(u32, u32)>> {
    match section_file::section_in(s, SECTION_IDS) {
        Some(b) if b.len() >= 4 && b.len() >= 4 + 8 * bytes::get32(b, 0) => Some(
            Seq::new(
                bytes::get32(b, 0) as nat,
                |i: int| (bytes::get32(b, 4 + 8 * i), bytes::get32(b, 4 + 8 * i + 4)),
            ),
        ),
        _ => None,
    }
}

/// The metadata of the first layout.
pub open spec fn legacy_in(s: Seq<u8>) -> Option<(Seq<u8>, u32)> {
    match section_file::section_in(s, SECTION_META) {
        Some(b) if b.len() >= 4 => Some((b.subrange(4, b.len() as int), bytes::get32(b, 0))),
        _ => None,
    }
}

/// What a file holds; `None` where it does not open.
pub open spec fn file_of(s: Seq<u8>) -> Option<TextFile> {
    if !section_file::opens(s, ttx3()) {
        None
    } else if section_file::section_in(s, SECTION_ENTRIES3) is Some {
        third_in(section_file::section_in(s, SECTION_ENTRIES3)->0, runs_in(s), stats_in(s))
    } else if section_file::section_in(s, SECTION_ENTRIES) is Some {
        plain_in(section_file::section_in(s, SECTION_ENTRIES)->0, 2, 8, None, runs_in(s), stats_in(s))
    } else if section_file::section_in(s, SECTION_TEXTS) is Some {
        plain_in(section_file::section_in(s, SECTION_TEXTS)->0, 1, 4, legacy_in(s), runs_in(s), stats_in(s))
    } else {
        None
    }
}

/// The third layout.
pub open spec fn third_in(
    b: Seq<u8>,
    runs: Option<Seq<(u32, u32)>>,
    max_word: Option<u16>,
) -> Option<TextFile> {
    let t = b.subrange(4, b.len() as int);
    let num = bytes::get32(b, 0);
    let metas = 4 + block_offsets::table_len(t);
    if b.len() < 4 || !block_offsets::parses(t) || bytes::get32(t, 0) != num + 1 || b.len() < metas + 4 * num {
        None
    } else {
        Some(
            TextFile {
                num,
                layout: 3,
                entries: b.subrange(metas, metas + 4 * num),
                dir: t.subrange(12, 12 + 4 * bytes::get32(t, 4)),
                blocks: t.subrange(12 + 4 * bytes::get32(t, 4), block_offsets::table_len(t)),
                texts: b.subrange(metas + 4 * num, b.len() as int),
                legacy: None,
                runs,
                max_word,
            },
        )
    }
}

/// The first and the second layout, whose entries have `stride` bytes.
pub open spec fn plain_in(
    b: Seq<u8>,
    layout: int,
    stride: int,
    legacy: Option<(Seq<u8>, u32)>,
    runs: Option<Seq<(u32, u32)>>,
    max_word: Option<u16>,
) -> Option<TextFile> {
    let num = bytes::get32(b, 0);
    let texts = 4 + stride * (num + 1);
    if b.len() < 4 || b.len() < texts {
        None
    } else {
        Some(
            TextFile {
                num,
                layout,
                entries: b.subrange(4, texts),
                dir: Seq::empty(),
                blocks: Seq::empty(),
                texts: b.subrange(texts, b.len() as int),
                legacy,
                runs,
                max_word,
            },
        )
    }
}

impl TextFile {
    /// Where the text of entry `i` starts.
    pub open spec fn offset(self, i: int) -> u32 {
        if self.layout == 3 {
            block_offsets::offset_in(self.dir, self.blocks, i)
        } else if self.layout == 2 {
            bytes::get32(self.entries, 8 * i)
        } else {
            bytes::get32(self.entries, 4 * i)
        }
    }

    /// The text of entry `i`: `None` past the entries, where its bytes are not
    /// there, or where they are not UTF-8.
    pub open spec fn text(self, i: u32) -> Option<Seq<char>> {
        let start = self.offset(i as int);
        let end = self.offset(i + 1);
        if i >= self.num || end > self.texts.len() || start > end {
            None
        } else {
            text::text_of(self.texts.subrange(start as int, end as int))
        }
    }

    /// The metadata of entry `i`.
    pub open spec fn meta(self, i: u32) -> Option<TermMetaV3> {
        if self.layout != 1 {
            if i >= self.num {
                None
            } else if self.layout == 3 {
                Some(meta_at(self.entries, 4 * i))
            } else {
                Some(meta_at(self.entries, 8 * i + 4))
            }
        } else {
            match self.legacy {
                Some((data, count)) if i < count && 6 * i + 6 <= data.len() => Some(
                    TermMetaV3 {
                        own_len: bytes::get16(data, 6 * i),
                        sep_len: data[6 * i + 2],
                        overlap_len: data[6 * i + 3],
                        is_word_start: data[6 * i + 4] != 0,
                        is_word_stripped: data[6 * i + 5] != 0,
                    },
                ),
                _ => None,
            }
        }
    }

    /// Whether entry `i` has a content byte; one without metadata counts as
    /// having one.
    pub open spec fn content(self, i: u32) -> bool {
        self.meta(i) matches Some(m) ==> m.own_len > m.sep_len
    }

    /// The entry that stands for `id`.
    pub open spec fn entry_of(self, id: u32) -> Option<u32> {
        match self.runs {
            None => if id < self.num {
                Some(id)
            } else {
                None
            },
            Some(r) => {
                let k = halve_starts(r, 0, r.len() as int, id);
                if k <= 0 || id >= r[k - 1].0 + r[k - 1].1 {
                    None
                } else {
                    Some((entries_before(r, k - 1) + (id - r[k - 1].0)) as u32)
                }
            },
        }
    }

    /// The ids of the entries.
    pub open spec fn ids(self) -> Seq<u32> {
        match self.runs {
            None => Seq::new(self.num as nat, |i: int| i as u32),
            Some(r) => ids_of(r),
        }
    }

    /// Whether every entry has an id, and the ids of every run are in range.
    pub open spec fn identified(self) -> bool {
        self.runs matches Some(r) ==> runs_end(r) && self.num <= entries_before(r, r.len() as int)
    }

    /// Whether the runs have no more entries than a count can hold.
    pub open spec fn countable(self) -> bool {
        self.runs matches Some(r) ==> entries_before(r, r.len() as int) <= u32::MAX
    }
}

/// Entries before run `k`.
pub open spec fn entries_before(runs: Seq<(u32, u32)>, k: int) -> int
    decreases k,
{
    if k <= 0 {
        0
    } else {
        entries_before(runs, k - 1) + runs[k - 1].1
    }
}

/// Whether the ids of every run stay within range.
pub open spec fn runs_end(runs: Seq<(u32, u32)>) -> bool {
    forall|k: int| 0 <= k < runs.len() ==> (#[trigger] runs[k]).0 + runs[k].1 <= u32::MAX + 1
}

/// The ids of the runs, one after the other.
pub open spec fn ids_of(runs: Seq<(u32, u32)>) -> Seq<u32>
    decreases runs.len(),
{
    if runs.len() == 0 {
        Seq::empty()
    } else {
        ids_of(runs.drop_last()) + Seq::new(
            runs.last().1 as nat,
            |j: int| (runs.last().0 + j) as u32,
        )
    }
}

/// How many runs start at or before `id`, found by halving.
pub open spec fn halve_starts(runs: Seq<(u32, u32)>, lo: int, hi: int, id: u32) -> int
    decreases hi - lo,
{
    if lo >= hi {
        lo
    } else {
        let mid = lo + (hi - lo) / 2;
        if runs[mid].0 <= id {
            halve_starts(runs, mid + 1, hi, id)
        } else {
            halve_starts(runs, lo, mid, id)
        }
    }
}

proof fn lemma_before_mono(runs: Seq<(u32, u32)>, a: int, b: int)
    requires
        0 <= a <= b,
    ensures
        0 <= entries_before(runs, a) <= entries_before(runs, b),
    decreases b,
{
    if a < b {
        lemma_before_mono(runs, a, b - 1);
    } else if a > 0 {
        lemma_before_mono(runs, a - 1, a - 1);
    }
}

proof fn lemma_before_local(a: Seq<(u32, u32)>, b: Seq<(u32, u32)>, k: int)
    requires
        k <= a.len(),
        k <= b.len(),
        forall|i: int| 0 <= i < k ==> a[i] == b[i],
    ensures
        entries_before(a, k) == entries_before(b, k),
    decreases k,
{
    if k > 0 {
        lemma_before_local(a, b, k - 1);
    }
}

/// Entry `i` of a run stands for the `i`-th id from the run's first.
proof fn lemma_ids_of(runs: Seq<(u32, u32)>, k: int, j: int)
    requires
        0 <= k < runs.len(),
        0 <= j < runs[k].1,
    ensures
        ids_of(runs).len() == entries_before(runs, runs.len() as int),
        entries_before(runs, k) + j < ids_of(runs).len(),
        ids_of(runs)[entries_before(runs, k) + j] == (runs[k].0 + j) as u32,
    decreases runs.len(),
{
    let d = runs.drop_last();
    lemma_ids_len(runs);
    lemma_ids_len(d);
    lemma_before_local(runs, d, d.len() as int);
    lemma_before_local(runs, d, k);
    lemma_before_mono(runs, k + 1, runs.len() as int);
    lemma_before_mono(runs, 0, k);
    if k < d.len() {
        lemma_ids_of(d, k, j);
    }
}

proof fn lemma_ids_len(runs: Seq<(u32, u32)>)
    ensures
        ids_of(runs).len() == entries_before(runs, runs.len() as int),
    decreases runs.len(),
{
    if runs.len() > 0 {
        let d = runs.drop_last();
        lemma_ids_len(d);
        lemma_before_local(runs, d, d.len() as int);
    }
}

proof fn lemma_halve_starts(runs: Seq<(u32, u32)>, lo: int, hi: int, id: u32)
    requires
        0 <= lo <= hi <= runs.len(),
        lo > 0 ==> runs[lo - 1].0 <= id,
    ensures
        lo <= halve_starts(runs, lo, hi, id) <= hi,
        halve_starts(runs, lo, hi, id) > 0 ==> runs[halve_starts(runs, lo, hi, id) - 1].0 <= id,
    decreases hi - lo,
{
    if lo < hi {
        let mid = lo + (hi - lo) / 2;
        if runs[mid].0 <= id {
            lemma_halve_starts(runs, mid + 1, hi, id);
        } else {
            lemma_halve_starts(runs, lo, mid, id);
        }
    }
}

/// On runs in order, halving finds the run whose ids reach `id`.
proof fn lemma_halve_finds(runs: Seq<(u32, u32)>, lo: int, hi: int, id: u32, k: int)
    requires
        0 <= lo <= hi <= runs.len(),
        forall|a: int, b: int| 0 <= a < b < runs.len() ==> (#[trigger] runs[a]).0 < (#[trigger] runs[b]).0,
        lo <= k <= hi,
        k > 0 ==> runs[k - 1].0 <= id,
        k < runs.len() ==> id < runs[k].0,
    ensures
        halve_starts(runs, lo, hi, id) == k,
    decreases hi - lo,
{
    if lo < hi {
        let mid = lo + (hi - lo) / 2;
        if runs[mid].0 <= id {
            if mid >= k && k < runs.len() && mid > k {
                assert(runs[k].0 < runs[mid].0);
            }
            lemma_halve_finds(runs, mid + 1, hi, id, k);
        } else {
            if mid < k - 1 {
                assert(runs[mid].0 < runs[k - 1].0);
            }
            lemma_halve_finds(runs, lo, mid, id, k);
        }
    }
}

/// The runs of ascending ids ascend without touching, none is empty, and they
/// hold the ids.
proof fn lemma_runs_of(ids: Seq<u32>)
    requires
        increasing(ids),
        ids.len() <= u32::MAX,
    ensures
        ids_of(runs_of(ids)) == ids,
        runs_of(ids).len() <= ids.len(),
        ids.len() > 0 ==> runs_of(ids).len() > 0 && runs_of(ids).last().0 + runs_of(ids).last().1
            == ids.last() + 1,
        forall|k: int| 0 <= k < runs_of(ids).len() ==> (#[trigger] runs_of(ids)[k]).1 >= 1,
        forall|a: int, b: int|
            0 <= a < b < runs_of(ids).len() ==> (#[trigger] runs_of(ids)[a]).0 + runs_of(ids)[a].1 < (
            #[trigger] runs_of(ids)[b]).0,
        entries_before(runs_of(ids), runs_of(ids).len() as int) == ids.len(),
    decreases ids.len(),
{
    if ids.len() > 0 {
        let d = ids.drop_last();
        let x = ids.last();
        assert(increasing(d));
        lemma_runs_of(d);
        let rd = runs_of(d);
        let r = runs_of(ids);
        lemma_ids_len(r);
        if d.len() > 0 {
            assert(d.last() == ids[ids.len() - 2]);
            assert(ids[ids.len() - 2] < ids[ids.len() - 1]);
        }
        if rd.len() > 0 && rd.last().0 + rd.last().1 == x {
            assert(rd.last().1 <= d.len()) by {
                lemma_before_mono(rd, 0, rd.len() - 1);
            }
            assert(r.drop_last() =~= rd.drop_last());
            assert(r.last() == (rd.last().0, (rd.last().1 + 1) as u32));
            let a = Seq::new(rd.last().1 as nat, |j: int| (rd.last().0 + j) as u32);
            let b = Seq::new(r.last().1 as nat, |j: int| (r.last().0 + j) as u32);
            assert(b =~= a.push(x));
            assert(ids_of(r) =~= ids_of(rd).push(x));
            assert(ids_of(r) =~= ids);
            assert forall|p: int, q: int| 0 <= p < q < r.len() implies (#[trigger] r[p]).0 + r[p].1 < (
            #[trigger] r[q]).0 by {
                assert(rd[p].0 + rd[p].1 < rd[q].0);
            }
            assert forall|k: int| 0 <= k < r.len() implies (#[trigger] r[k]).1 >= 1 by {
                if k < r.len() - 1 {
                    assert(rd[k].1 >= 1);
                }
            }
        } else {
            assert(r.drop_last() =~= rd);
            let b = Seq::new(1nat, |j: int| (x + j) as u32);
            assert(b =~= seq![x]);
            assert(ids_of(r) =~= ids_of(rd) + seq![x]);
            assert(ids_of(r) =~= ids);
            assert forall|p: int, q: int| 0 <= p < q < r.len() implies (#[trigger] r[p]).0 + r[p].1 < (
            #[trigger] r[q]).0 by {
                if q < rd.len() {
                    assert(rd[p].0 + rd[p].1 < rd[q].0);
                } else {
                    if p < rd.len() - 1 {
                        assert(rd[p].0 + rd[p].1 < rd[rd.len() - 1].0);
                    }
                    assert(rd.last().0 + rd.last().1 == d.last() + 1);
                }
            }
            assert forall|k: int| 0 <= k < r.len() implies (#[trigger] r[k]).1 >= 1 by {
                if k < rd.len() {
                    assert(rd[k].1 >= 1);
                }
            }
        }
    }
}

proof fn lemma_pairs(runs: Seq<(u32, u32)>, i: int)
    requires
        0 <= i < runs.len(),
    ensures
        pairs_bytes(runs).len() == 8 * runs.len(),
        pairs_bytes(runs).subrange(8 * i, 8 * i + 8) == bytes::le32(runs[i].0) + bytes::le32(runs[i].1),
    decreases runs.len(),
{
    broadcast use bytes::group_le_len;

    let d = runs.drop_last();
    if d.len() > 0 {
        lemma_pairs(
            d,
            if i < d.len() {
                i
            } else {
                0
            },
        );
    } else {
        assert(pairs_bytes(d) =~= Seq::<u8>::empty());
    }
    if i == runs.len() - 1 {
        assert(pairs_bytes(runs).subrange(8 * i, 8 * i + 8) =~= bytes::le32(runs[i].0) + bytes::le32(runs[i].1));
    } else {
        assert(pairs_bytes(runs).subrange(8 * i, 8 * i + 8) =~= pairs_bytes(d).subrange(
            8 * i,
            8 * i + 8,
        ));
    }
}

proof fn lemma_pairs_len(runs: Seq<(u32, u32)>)
    ensures
        pairs_bytes(runs).len() == 8 * runs.len(),
{
    if runs.len() > 0 {
        lemma_pairs(runs, 0);
    }
}

proof fn lemma_metas(metas: Seq<TermMetaV3>, i: int)
    requires
        0 <= i < metas.len(),
    ensures
        metas_bytes(metas).len() == 4 * metas.len(),
        metas_bytes(metas).subrange(4 * i, 4 * i + 4) == meta_bytes(metas[i]),
    decreases metas.len(),
{
    broadcast use bytes::group_le_len;

    let d = metas.drop_last();
    if d.len() > 0 {
        lemma_metas(
            d,
            if i < d.len() {
                i
            } else {
                0
            },
        );
    } else {
        assert(metas_bytes(d) =~= Seq::<u8>::empty());
    }
    if i == metas.len() - 1 {
        assert(metas_bytes(metas).subrange(4 * i, 4 * i + 4) =~= meta_bytes(metas[i]));
    } else {
        assert(metas_bytes(metas).subrange(4 * i, 4 * i + 4) =~= metas_bytes(d).subrange(
            4 * i,
            4 * i + 4,
        ));
    }
}

proof fn lemma_metas_len(metas: Seq<TermMetaV3>)
    ensures
        metas_bytes(metas).len() == 4 * metas.len(),
{
    if metas.len() > 0 {
        lemma_metas(metas, 0);
    }
}

proof fn lemma_meta(s: Seq<u8>, p: int, m: TermMetaV3)
    requires
        0 <= p,
        p + 4 <= s.len(),
        s.subrange(p, p + 4) == meta_bytes(m),
        m.overlap_len < 16,
    ensures
        meta_at(s, p) == m,
{
    broadcast use bytes::group_le_len;

    let e = s.subrange(p, p + 4);
    assert(s.subrange(p, p + 2) =~= e.subrange(0, 2));
    assert(e.subrange(0, 2) =~= bytes::le16(m.own_len));
    bytes::lemma_get16(s, p, m.own_len);
    assert(s[p + 2] == e[2]);
    assert(s[p + 3] == e[3]);
}

/// The sections of a written file.
proof fn lemma_sections(texts: Seq<Seq<u8>>, metas: Seq<TermMetaV3>, ids: Option<Seq<u32>>)
    requires
        writable(texts, metas, ids),
    ensures
        section_file::opens(texts_file(texts, metas, ids), ttx3()),
        section_file::section_in(texts_file(texts, metas, ids), SECTION_ENTRIES3) == Some(
            entries_bytes(texts, metas),
        ),
        section_file::section_in(texts_file(texts, metas, ids), SECTION_STATS) == Some(
            stats_bytes(longest_word(metas)),
        ),
        section_file::section_in(texts_file(texts, metas, ids), SECTION_IDS) == match ids {
            Some(i) => Some(ids_bytes(runs_of(i))),
            None => None,
        },
{
    let names = section_ids(ids is Some);
    let payloads = section_payloads(texts, metas, ids);
    let f = texts_file(texts, metas, ids);
    section_file::written_file_opens(ttx3(), TEXTS_VERSION, names, payloads);
    section_file::written_section_is_found(ttx3(), TEXTS_VERSION, names, payloads, SECTION_ENTRIES3);
    section_file::written_section_is_found(ttx3(), TEXTS_VERSION, names, payloads, SECTION_STATS);
    section_file::written_section_is_found(ttx3(), TEXTS_VERSION, names, payloads, SECTION_IDS);
    assert(payloads[0] == entries_bytes(texts, metas));
    assert(payloads[1] == stats_bytes(longest_word(metas)));
    assert(section_file::section_in(f, SECTION_ENTRIES3) == Some(payloads[0]));
    assert(section_file::section_in(f, SECTION_STATS) == Some(payloads[1]));
    match ids {
        Some(i) => {
            assert(payloads[2] == ids_bytes(runs_of(i)));
            assert(section_file::section_in(f, SECTION_IDS) == Some(payloads[2]));
        },
        None => {
            assert(!names.contains(SECTION_IDS));
        },
    }
}

/// The entries of a written file.
proof fn lemma_third(
    texts: Seq<Seq<u8>>,
    metas: Seq<TermMetaV3>,
    runs: Option<Seq<(u32, u32)>>,
    max_word: Option<u16>,
)
    requires
        texts.len() < u32::MAX,
        texts.len() == metas.len(),
        bytes::flat(texts).len() <= u32::MAX,
        bytes::flat(block_offsets::all_blocks(bytes::starts32(texts))).len() <= u32::MAX,
    ensures
        third_in(entries_bytes(texts, metas), runs, max_word) matches Some(f) && {
            &&& f.num == texts.len()
            &&& f.layout == 3
            &&& f.entries == metas_bytes(metas)
            &&& f.texts == bytes::flat(texts)
            &&& f.runs == runs
            &&& f.max_word == max_word
            &&& forall|i: int| 0 <= i <= texts.len() ==> #[trigger] f.offset(i) == bytes::start_of(texts, i)
        },
{
    broadcast use bytes::group_le_len;

    let b = entries_bytes(texts, metas);
    let offsets = bytes::starts32(texts);
    let rest = metas_bytes(metas) + bytes::flat(texts);
    let t = b.subrange(4, b.len() as int);
    let num = texts.len() as u32;
    assert(block_offsets::ascending(offsets)) by {
        assert forall|i: int, j: int| 0 <= i <= j < offsets.len() implies offsets[i] <= offsets[j] by {
            bytes::lemma_start_mono(texts, i, j);
        }
    }
    block_offsets::written_table_reads_back(offsets, rest);
    assert(t =~= block_offsets::table_bytes(offsets) + rest);
    assert(b.subrange(0, 4) =~= bytes::le32(num));
    bytes::lemma_get32(b, 0, num);
    lemma_metas_len(metas);
    let f = third_in(b, runs, max_word)->0;
    assert(f.entries =~= metas_bytes(metas));
    assert(f.texts =~= bytes::flat(texts));
    assert forall|i: int| 0 <= i <= texts.len() implies #[trigger] f.offset(i) == bytes::start_of(texts, i) by {
        bytes::lemma_start_mono(texts, i, texts.len() as int);
        assert(block_offsets::offset_in(f.dir, f.blocks, i) == offsets[i]);
    }
}

proof fn lemma_stats(max_word: u16)
    ensures
        stats_bytes(max_word).len() == 4,
        bytes::get16(stats_bytes(max_word), 0) == max_word,
        bytes::get16(stats_bytes(max_word), 2) == STATS_VERSION,
{
    broadcast use bytes::group_le_len;

    let b = stats_bytes(max_word);
    assert(b.subrange(0, 2) =~= bytes::le16(max_word));
    assert(b.subrange(2, 4) =~= bytes::le16(STATS_VERSION));
    bytes::lemma_get16(b, 0, max_word);
    bytes::lemma_get16(b, 2, STATS_VERSION);
}

proof fn lemma_ids_read(runs: Seq<(u32, u32)>)
    requires
        runs.len() <= u32::MAX,
    ensures
        ids_bytes(runs).len() == 4 + 8 * runs.len(),
        bytes::get32(ids_bytes(runs), 0) == runs.len(),
        forall|i: int|
            #![trigger runs[i]]
            0 <= i < runs.len() ==> bytes::get32(ids_bytes(runs), 4 + 8 * i) == runs[i].0 && bytes::get32(
                ids_bytes(runs),
                4 + 8 * i + 4,
            ) == runs[i].1,
{
    broadcast use bytes::group_le_len;

    let b = ids_bytes(runs);
    lemma_pairs_len(runs);
    assert(b.subrange(0, 4) =~= bytes::le32(runs.len() as u32));
    bytes::lemma_get32(b, 0, runs.len() as u32);
    assert forall|i: int|
        #![trigger runs[i]]
        0 <= i < runs.len() implies bytes::get32(b, 4 + 8 * i) == runs[i].0 && bytes::get32(b, 4 + 8 * i + 4)
        == runs[i].1 by {
        lemma_pairs(runs, i);
        let e = pairs_bytes(runs).subrange(8 * i, 8 * i + 8);
        assert(b.subrange(4 + 8 * i, 4 + 8 * i + 4) =~= e.subrange(0, 4));
        assert(e.subrange(0, 4) =~= bytes::le32(runs[i].0));
        assert(b.subrange(4 + 8 * i + 4, 4 + 8 * i + 8) =~= e.subrange(4, 8));
        assert(e.subrange(4, 8) =~= bytes::le32(runs[i].1));
        bytes::lemma_get32(b, 4 + 8 * i, runs[i].0);
        bytes::lemma_get32(b, 4 + 8 * i + 4, runs[i].1);
    }
}

/// Law: a written file opens and gives back the text and the metadata of every
/// entry, the longest word, and the ids.
pub proof fn written_texts_read_back(
    texts: Seq<Seq<u8>>,
    metas: Seq<TermMetaV3>,
    ids: Option<Seq<u32>>,
)
    requires
        writable(texts, metas, ids),
        ids matches Some(i) ==> increasing(i) && i.len() <= u32::MAX,
    ensures
        file_of(texts_file(texts, metas, ids)) matches Some(f) && {
            &&& f.num == texts.len()
            &&& f.max_word == Some(longest_word(metas))
            &&& f.countable()
            &&& f.ids() == match ids {
                Some(i) => i,
                None => Seq::new(texts.len(), |i: int| i as u32),
            }
            &&& forall|i: u32|
                i < texts.len() ==> #[trigger] f.text(i) == text::text_of(texts[i as int])
            &&& forall|i: u32| i < texts.len() ==> #[trigger] f.meta(i) == Some(metas[i as int])
        },
{
    let s = texts_file(texts, metas, ids);
    lemma_sections(texts, metas, ids);
    lemma_stats(longest_word(metas));
    let runs = runs_in(s);
    lemma_third(texts, metas, runs, stats_in(s));
    let f = file_of(s)->0;
    match ids {
        Some(i) => {
            let r = runs_of(i);
            lemma_runs_of(i);
            lemma_ids_read(r);
            assert(runs->0 =~= r);
        },
        None => {
            assert(f.ids() =~= Seq::new(texts.len(), |i: int| i as u32));
        },
    }
    assert forall|i: u32| i < texts.len() implies #[trigger] f.text(i) == text::text_of(texts[i as int]) by {
        bytes::lemma_flat_at(texts, i as int);
        assert(f.offset(i as int) == bytes::start_of(texts, i as int));
        assert(f.offset(i + 1) == bytes::start_of(texts, i + 1));
    }
    assert forall|i: u32| i < texts.len() implies #[trigger] f.meta(i) == Some(metas[i as int]) by {
        lemma_metas(metas, i as int);
        assert(metas[i as int].overlap_len < 16);
        lemma_meta(f.entries, 4 * i, metas[i as int]);
    }
}

/// Law: in a file with ids, an id leads to the entry that was written for it,
/// and no other id leads anywhere.
#[verifier::spinoff_prover]
#[verifier::rlimit(60)]
pub proof fn written_ids_lead_to_their_entries(
    texts: Seq<Seq<u8>>,
    metas: Seq<TermMetaV3>,
    ids: Seq<u32>,
    id: u32,
)
    requires
        writable(texts, metas, Some(ids)),
        increasing(ids),
        ids.len() <= u32::MAX,
    ensures
        file_of(texts_file(texts, metas, Some(ids))) matches Some(f) && {
            &&& f.entry_of(id) is Some <==> ids.contains(id)
            &&& f.entry_of(id) matches Some(i) ==> i < ids.len() && ids[i as int] == id
        },
{
    let s = texts_file(texts, metas, Some(ids));
    written_texts_read_back(texts, metas, Some(ids));
    lemma_sections(texts, metas, Some(ids));
    let f = file_of(s)->0;
    let r = runs_of(ids);
    lemma_runs_of(ids);
    lemma_ids_read(r);
    assert(runs_in(s)->0 =~= r);
    lemma_third(texts, metas, runs_in(s), stats_in(s));
    assert(f.runs == Some(r));
    let k = halve_starts(r, 0, r.len() as int, id);
    lemma_halve_starts(r, 0, r.len() as int, id);
    lemma_before_mono(r, 0, k);
    if k > 0 && id < r[k - 1].0 + r[k - 1].1 {
        let j = id - r[k - 1].0;
        lemma_ids_of(r, k - 1, j);
        lemma_before_mono(r, 0, k - 1);
        assert(ids[entries_before(r, k - 1) + j] == id);
    }
    if ids.contains(id) {
        let i = choose|i: int| 0 <= i < ids.len() && ids[i] == id;
        lemma_run_holding(r, i);
        let q = choose|q: int|
            0 <= q < r.len() && entries_before(r, q) <= i && #[trigger] r[q].1 > i - entries_before(r, q);
        lemma_ids_of(r, q, i - entries_before(r, q));
        assert(r[q].0 <= id < r[q].0 + r[q].1) by {
            assert(r[q].0 + r[q].1 <= u32::MAX + 1) by {
                if q < r.len() - 1 {
                    assert(r[q].0 + r[q].1 < r[r.len() - 1].0);
                }
            }
        }
        assert forall|a: int, b: int| 0 <= a < b < r.len() implies (#[trigger] r[a]).0 < (
        #[trigger] r[b]).0 by {
            assert(r[a].0 + r[a].1 < r[b].0);
        }
        if q + 1 < r.len() {
            assert(r[q].0 + r[q].1 < r[q + 1].0);
        }
        lemma_halve_finds(r, 0, r.len() as int, id, q + 1);
    }
}

/// Every entry lies in a run.
proof fn lemma_run_holding(runs: Seq<(u32, u32)>, i: int)
    requires
        0 <= i < entries_before(runs, runs.len() as int),
    ensures
        exists|q: int|
            0 <= q < runs.len() && entries_before(runs, q) <= i && #[trigger] runs[q].1 > i
                - entries_before(runs, q),
    decreases runs.len(),
{
    let n = runs.len() as int;
    if n > 0 {
        if entries_before(runs, n - 1) <= i {
            assert(runs[n - 1].1 > i - entries_before(runs, n - 1));
        } else {
            let d = runs.drop_last();
            lemma_before_local(runs, d, n - 1);
            lemma_run_holding(d, i);
            let q = choose|q: int|
                0 <= q < d.len() && entries_before(d, q) <= i && #[trigger] d[q].1 > i - entries_before(
                    d,
                    q,
                );
            lemma_before_local(runs, d, q);
            assert(runs[q].1 > i - entries_before(runs, q));
        }
    }
}

fn push_meta(out: &mut Vec<u8>, m: &TermMetaV3)
    requires
        m.overlap_len < 16,
    ensures
        final(out)@ == old(out)@ + meta_bytes(*m),
{
    push_u16(out, m.own_len);
    out.push(m.sep_len);
    let start: u8 = if m.is_word_start {
        16
    } else {
        0
    };
    let stripped: u8 = if m.is_word_stripped {
        32
    } else {
        0
    };
    out.push(m.overlap_len + start + stripped);
    assert(out@ =~= old(out)@ + meta_bytes(*m));
}

fn push_metas(out: &mut Vec<u8>, metas: &Vec<TermMetaV3>)
    requires
        forall|i: int| 0 <= i < metas@.len() ==> (#[trigger] metas@[i]).overlap_len < 16,
    ensures
        final(out)@ == old(out)@ + metas_bytes(metas@),
{
    let mut i: usize = 0;
    assert(metas@.take(0) =~= Seq::<TermMetaV3>::empty());
    assert(out@ =~= old(out)@ + metas_bytes(metas@.take(0)));
    while i < metas.len()
        invariant
            i <= metas@.len(),
            forall|i: int| 0 <= i < metas@.len() ==> (#[trigger] metas@[i]).overlap_len < 16,
            out@ == old(out)@ + metas_bytes(metas@.take(i as int)),
        decreases metas@.len() - i,
    {
        assert(metas@[i as int].overlap_len < 16);
        push_meta(out, &metas[i]);
        i += 1;
        proof {
            assert(metas@.take(i as int).drop_last() =~= metas@.take(i - 1));
            assert(out@ =~= old(out)@ + metas_bytes(metas@.take(i as int)));
        }
    }
    assert(metas@.take(i as int) =~= metas@);
}

fn content_of(m: &TermMetaV3) -> (n: u16)
    ensures
        n == content_len(*m),
{
    if m.own_len >= m.sep_len as u16 {
        m.own_len - m.sep_len as u16
    } else {
        0
    }
}

fn max_content(metas: &Vec<TermMetaV3>) -> (n: u16)
    ensures
        n == longest_word(metas@),
{
    let mut n: u16 = 0;
    let mut i: usize = 0;
    assert(metas@.take(0) =~= Seq::<TermMetaV3>::empty());
    while i < metas.len()
        invariant
            i <= metas@.len(),
            n == longest_word(metas@.take(i as int)),
        decreases metas@.len() - i,
    {
        let m = metas[i];
        if m.is_word_stripped && content_of(&m) > n {
            n = content_of(&m);
        }
        i += 1;
        assert(metas@.take(i as int).drop_last() =~= metas@.take(i - 1));
    }
    assert(metas@.take(i as int) =~= metas@);
    n
}

fn stats_section(max_word: u16) -> (out: Vec<u8>)
    ensures
        out@ == stats_bytes(max_word),
{
    let mut out: Vec<u8> = Vec::new();
    push_u16(&mut out, max_word);
    push_u16(&mut out, STATS_VERSION);
    assert(out@ =~= stats_bytes(max_word));
    out
}

fn ids_section(runs: &Vec<(u32, u32)>) -> (out: Vec<u8>)
    ensures
        out@ == ids_bytes(runs@),
{
    let mut out: Vec<u8> = Vec::new();
    push_u32(&mut out, runs.len() as u32);
    let ghost head = out@;
    let mut i: usize = 0;
    assert(runs@.take(0) =~= Seq::<(u32, u32)>::empty());
    assert(out@ =~= head + pairs_bytes(runs@.take(0)));
    while i < runs.len()
        invariant
            i <= runs@.len(),
            out@ == head + pairs_bytes(runs@.take(i as int)),
        decreases runs@.len() - i,
    {
        push_u32(&mut out, runs[i].0);
        push_u32(&mut out, runs[i].1);
        i += 1;
        proof {
            assert(runs@.take(i as int).drop_last() =~= runs@.take(i - 1));
            assert(out@ =~= head + pairs_bytes(runs@.take(i as int)));
        }
    }
    assert(runs@.take(i as int) =~= runs@);
    assert(out@ =~= ids_bytes(runs@));
    out
}

fn push_id(runs: &mut Vec<(u32, u32)>, id: u32, Ghost(ids): Ghost<Seq<u32>>)
    requires
        increasing(ids.push(id)),
        ids.len() < u32::MAX,
        old(runs)@ == runs_of(ids),
    ensures
        final(runs)@ == runs_of(ids.push(id)),
{
    proof {
        assert(ids.push(id).drop_last() =~= ids);
        assert(increasing(ids)) by {
            assert forall|i: int, j: int| 0 <= i < j < ids.len() implies ids[i] < ids[j] by {
                assert(ids.push(id)[i] < ids.push(id)[j]);
            }
        }
        lemma_runs_of(ids);
        lemma_runs_of(ids.push(id));
    }
    let n: usize = runs.len();
    if n > 0 && runs[n - 1].0 as u64 + runs[n - 1].1 as u64 == id as u64 {
        let (start, len) = runs[n - 1];
        proof {
            let r = runs_of(ids.push(id));
            assert(r.last() == (start, (len + 1) as u32));
            lemma_before_mono(runs@, 0, n - 1);
            assert(len <= ids.len());
        }
        runs.set(n - 1, (start, len + 1));
        assert(runs@ =~= runs_of(ids).drop_last().push((start, (len + 1) as u32)));
    } else {
        runs.push((id, 1));
    }
}

fn collect_runs(ids: &Vec<u32>) -> (runs: Vec<(u32, u32)>)
    requires
        increasing(ids@),
        ids@.len() <= u32::MAX,
    ensures
        runs@ == runs_of(ids@),
{
    let mut runs: Vec<(u32, u32)> = Vec::new();
    let mut i: usize = 0;
    assert(ids@.take(0) =~= Seq::<u32>::empty());
    while i < ids.len()
        invariant
            i <= ids@.len(),
            increasing(ids@),
            ids@.len() <= u32::MAX,
            runs@ == runs_of(ids@.take(i as int)),
        decreases ids@.len() - i,
    {
        assert(ids@.take(i as int).push(ids@[i as int]) =~= ids@.take(i + 1));
        push_id(&mut runs, ids[i], Ghost(ids@.take(i as int)));
        i += 1;
    }
    assert(ids@.take(i as int) =~= ids@);
    runs
}

fn text_starts(texts: &Vec<Vec<u8>>) -> (out: Vec<u32>)
    requires
        bytes::flat(bytes::deep(texts@)).len() <= u32::MAX,
    ensures
        out@ == bytes::starts32(bytes::deep(texts@)),
{
    let ghost d = bytes::deep(texts@);
    let mut out: Vec<u32> = Vec::new();
    let mut at: u32 = 0;
    let mut i: usize = 0;
    proof {
        bytes::lemma_start_ends(d);
    }
    while i < texts.len()
        invariant
            i <= texts@.len(),
            d == bytes::deep(texts@),
            bytes::flat(d).len() <= u32::MAX,
            at == bytes::start_of(d, i as int),
            out@ == bytes::starts32(d).take(i as int),
        decreases texts@.len() - i,
    {
        proof {
            bytes::lemma_flat_at(d, i as int);
        }
        out.push(at);
        at = at + texts[i].len() as u32;
        i += 1;
        assert(out@ =~= bytes::starts32(d).take(i as int));
    }
    out.push(at);
    assert(out@ =~= bytes::starts32(d));
    out
}

/// Collects texts with their metadata.
pub struct TermTextsWriterV3 {
    texts: Vec<Vec<u8>>,
    metas: Vec<TermMetaV3>,
    ids: Option<Vec<u32>>,
}

impl Default for TermTextsWriterV3 {
    fn default() -> (r: Self)
        ensures
            r.wf(),
            r.texts() == Seq::<Seq<u8>>::empty(),
            r.metas() == Seq::<TermMetaV3>::empty(),
            r.ids() is None,
    {
        Self::new()
    }
}

impl TermTextsWriterV3 {
    /// Every text has metadata, and the ids ascend.
    pub closed spec fn wf(&self) -> bool {
        &&& self.texts@.len() == self.metas@.len()
        &&& self.ids matches Some(i) ==> increasing(i@) && i@.len() <= u32::MAX
    }

    /// The bytes of the texts.
    pub closed spec fn texts(&self) -> Seq<Seq<u8>> {
        bytes::deep(self.texts@)
    }

    /// The metadata.
    pub closed spec fn metas(&self) -> Seq<TermMetaV3> {
        self.metas@
    }

    /// The ids the entries stand for, where they were given.
    pub closed spec fn ids(&self) -> Option<Seq<u32>> {
        match self.ids {
            Some(i) => Some(i@),
            None => None,
        }
    }

    /// No entries.
    pub fn new() -> (r: Self)
        ensures
            r.wf(),
            r.texts() == Seq::<Seq<u8>>::empty(),
            r.metas() == Seq::<TermMetaV3>::empty(),
            r.ids() is None,
    {
        let r = TermTextsWriterV3 { texts: Vec::new(), metas: Vec::new(), ids: None };
        assert(r.texts() =~= Seq::<Seq<u8>>::empty());
        r
    }

    /// Entry `i` stands for `ids[i]` from now on.
    pub fn with_ids(self, ids: Vec<u32>) -> (r: Self)
        requires
            self.wf(),
            increasing(ids@),
            ids@.len() <= u32::MAX,
        ensures
            r.wf(),
            r.texts() == self.texts(),
            r.metas() == self.metas(),
            r.ids() == Some(ids@),
    {
        TermTextsWriterV3 { texts: self.texts, metas: self.metas, ids: Some(ids) }
    }

    /// Sets the text and the metadata of `ordinal`; ordinals skipped before it
    /// are empty.
    pub fn add(&mut self, ordinal: u32, text: &str, meta: TermMetaV3)
        requires
            old(self).wf(),
            ordinal < usize::MAX,
        ensures
            final(self).wf(),
            final(self).texts() == offset_table::padded(old(self).texts(), ordinal + 1, Seq::empty()).update(
                ordinal as int,
                encode_utf8(text@),
            ),
            final(self).metas() == offset_table::padded(old(self).metas(), ordinal + 1, no_meta()).update(
                ordinal as int,
                meta,
            ),
            final(self).ids() == old(self).ids(),
    {
        let ord: usize = ordinal as usize;
        grow_runs(&mut self.texts, ord + 1);
        let ghost mid = self.texts();
        assert(mid.len() == self.texts@.len());
        let ghost first = self.metas@;
        assert(first =~= offset_table::padded(first, first.len() as int, no_meta()));
        while self.metas.len() < ord + 1
            invariant
                ord < usize::MAX,
                self.texts() == mid,
                self.ids == old(self).ids,
                self.metas@ == offset_table::padded(first, self.metas@.len() as int, no_meta()),
                first.len() <= self.metas@.len(),
                self.metas@.len() <= ord + 1 || self.metas@.len() == first.len(),
            decreases ord + 1 - self.metas@.len(),
        {
            let ghost before = self.metas@;
            self.metas.push(
                TermMetaV3 {
                    own_len: 0,
                    sep_len: 0,
                    overlap_len: 0,
                    is_word_start: false,
                    is_word_stripped: false,
                },
            );
            assert(self.metas@ =~= before.push(no_meta()));
            assert(self.metas@ =~= offset_table::padded(first, self.metas@.len() as int, no_meta()));
        }
        assert(mid.len() == self.texts@.len());
        let mut own: Vec<u8> = Vec::new();
        push_bytes(&mut own, text.as_bytes());
        assert(own@ =~= encode_utf8(text@));
        self.texts.set(ord, own);
        self.metas.set(ord, meta);
        assert(self.texts() =~= mid.update(ord as int, encode_utf8(text@)));
    }

    /// The file.
    pub fn serialize(&self) -> (out: Vec<u8>)
        requires
            self.wf(),
            writable(self.texts(), self.metas(), self.ids()),
        ensures
            out@ == texts_file(self.texts(), self.metas(), self.ids()),
    {
        let ghost texts = self.texts();
        let ghost metas = self.metas();
        let ghost ids = self.ids();
        let ghost payloads = section_payloads(texts, metas, ids);
        let magic: [u8; 4] = [84, 84, 88, 51];
        assert(magic@ =~= ttx3());
        let mut file = SectionFileWriter::new(magic, TEXTS_VERSION);
        let entries = self.serialize_entries();
        proof {
            bytes::lemma_start_ends(payloads);
            bytes::lemma_start_mono(payloads, 1, payloads.len() as int);
            bytes::lemma_start_mono(payloads, 2, payloads.len() as int);
            bytes::lemma_start_step(payloads, 0);
            bytes::lemma_start_step(payloads, 1);
            assert(payloads.take(1) =~= seq![entries@]);
            assert(file.payloads().push(entries@) =~= payloads.take(1));
        }
        let _ = file.add_section(SECTION_ENTRIES3, entries.as_slice());
        let stats = stats_section(max_content(&self.metas));
        proof {
            assert(file.payloads() =~= payloads.take(1));
            assert(file.payloads().push(stats@) =~= payloads.take(2));
        }
        let _ = file.add_section(SECTION_STATS, stats.as_slice());
        assert(file.payloads() =~= payloads.take(2));
        match &self.ids {
            Some(ids) => {
                let runs = collect_runs(ids);
                let section = ids_section(&runs);
                proof {
                    bytes::lemma_start_step(payloads, 2);
                    assert(payloads[2] == section@);
                }
                let _ = file.add_section(SECTION_IDS, section.as_slice());
            },
            None => {},
        }
        proof {
            assert(file.payloads() =~= payloads);
            assert(file.ids() =~= section_ids(ids is Some));
        }
        file.serialize()
    }

    fn serialize_entries(&self) -> (out: Vec<u8>)
        requires
            self.wf(),
            writable(self.texts(), self.metas(), self.ids()),
        ensures
            out@ == entries_bytes(self.texts(), self.metas()),
    {
        let ghost d = self.texts();
        let offsets = text_starts(&self.texts);
        assert(block_offsets::ascending(offsets@)) by {
            assert forall|i: int, j: int| 0 <= i <= j < offsets@.len() implies offsets@[i]
                <= offsets@[j] by {
                bytes::lemma_start_mono(d, i, j);
            }
        }
        let table = block_offsets::encode(offsets.as_slice());
        let mut out: Vec<u8> = Vec::new();
        push_u32(&mut out, self.texts.len() as u32);
        push_bytes(&mut out, table.as_slice());
        push_metas(&mut out, &self.metas);
        push_flat(&mut out, &self.texts);
        assert(out@ =~= entries_bytes(self.texts(), self.metas()));
        out
    }
}

/// One file of a reader.
struct Part<'a> {
    num: u32,
    layout: u8,
    entries: &'a [u8],
    offsets: Option<BlockOffsets<'a>>,
    texts: &'a [u8],
    legacy: Option<(&'a [u8], u32)>,
    runs: Option<Vec<(u32, u32, u32)>>,
    max_word: Option<u16>,
}

/// First id and length of each run.
spec fn plain_runs(runs: Seq<(u32, u32, u32)>) -> Seq<(u32, u32)> {
    Seq::new(runs.len(), |k: int| (runs[k].0, runs[k].1))
}

impl<'a> Part<'a> {
    spec fn file(self) -> TextFile {
        TextFile {
            num: self.num,
            layout: self.layout as int,
            entries: self.entries@,
            dir: match self.offsets {
                Some(t) => t.dir(),
                None => Seq::empty(),
            },
            blocks: match self.offsets {
                Some(t) => t.blocks(),
                None => Seq::empty(),
            },
            texts: self.texts@,
            legacy: match self.legacy {
                Some((b, n)) => Some((b@, n)),
                None => None,
            },
            runs: match self.runs {
                Some(r) => Some(plain_runs(r@)),
                None => None,
            },
            max_word: self.max_word,
        }
    }

    /// The table has the size of the layout, and the runs know how many
    /// entries come before them.
    spec fn wf(self) -> bool {
        &&& self.layout == 3 ==> self.offsets is Some && self.entries@.len() == 4 * self.num
        &&& self.layout != 3 ==> self.offsets is None
        &&& self.layout == 2 ==> self.entries@.len() == 8 * (self.num + 1)
        &&& self.layout == 1 ==> self.entries@.len() == 4 * (self.num + 1)
        &&& 1 <= self.layout <= 3
        &&& self.runs matches Some(r) ==> {
            &&& entries_before(plain_runs(r@), r@.len() as int) <= u32::MAX
            &&& forall|k: int|
                0 <= k < r@.len() ==> (#[trigger] r@[k]).2 == entries_before(plain_runs(r@), k)
        }
    }

    fn open(bytes: &'a [u8]) -> (r: Option<Self>)
        requires
            file_of(bytes@) matches Some(f) ==> f.countable(),
        ensures
            r is Some <==> file_of(bytes@) is Some,
            r matches Some(p) ==> p.wf() && file_of(bytes@) == Some(p.file()),
    {
        let magic: [u8; 4] = [84, 84, 88, 51];
        assert(magic@ =~= ttx3());
        let file = match SectionFileReader::open(bytes, &magic) {
            Some(f) => f,
            None => {
                return None;
            },
        };
        let max_word: Option<u16> = read_stats(&file);
        let mut part = match file.get_section(SECTION_ENTRIES3) {
            Some(raw) => match open_third(raw) {
                Some(p) => p,
                None => {
                    return None;
                },
            },
            None => match file.get_section(SECTION_ENTRIES) {
                Some(raw) => match open_plain(raw, 2, 8, None) {
                    Some(p) => p,
                    None => {
                        return None;
                    },
                },
                None => match file.get_section(SECTION_TEXTS) {
                    Some(raw) => match open_plain(raw, 1, 4, read_legacy(&file)) {
                        Some(p) => p,
                        None => {
                            return None;
                        },
                    },
                    None => {
                        return None;
                    },
                },
            },
        };
        part.max_word = max_word;
        let ghost want = file_of(bytes@)->0;
        assert(want.runs == runs_in(bytes@));
        part.runs = read_runs(&file);
        assert(part.file() =~= want);
        Some(part)
    }

    /// How many runs start at or before `id`.
    fn starts_to(runs: &Vec<(u32, u32, u32)>, id: u32) -> (k: usize)
        ensures
            k == halve_starts(plain_runs(runs@), 0, runs@.len() as int, id),
            k <= runs@.len(),
            k > 0 ==> runs@[k - 1].0 <= id,
    {
        let ghost r = plain_runs(runs@);
        let mut lo: usize = 0;
        let mut hi: usize = runs.len();
        while lo < hi
            invariant
                lo <= hi <= runs@.len(),
                r == plain_runs(runs@),
                lo > 0 ==> runs@[lo - 1].0 <= id,
                halve_starts(r, lo as int, hi as int, id) == halve_starts(
                    r,
                    0,
                    r.len() as int,
                    id,
                ),
            decreases hi - lo,
        {
            let mid: usize = lo + (hi - lo) / 2;
            if runs[mid].0 <= id {
                lo = mid + 1;
            } else {
                hi = mid;
            }
        }
        lo
    }

    fn local_index(&self, id: u32) -> (r: Option<u32>)
        requires
            self.wf(),
        ensures
            r == self.file().entry_of(id),
    {
        match &self.runs {
            None => if id < self.num {
                Some(id)
            } else {
                None
            },
            Some(runs) => {
                let k: usize = Self::starts_to(runs, id);
                if k == 0 {
                    return None;
                }
                let (start, len, first) = runs[k - 1];
                if id as u64 >= start as u64 + len as u64 {
                    return None;
                }
                proof {
                    lemma_before_mono(plain_runs(runs@), k as int, runs@.len() as int);
                }
                Some(first + (id - start))
            },
        }
    }

    fn id_of_entry(&self, i: u32) -> (id: u32)
        requires
            self.wf(),
            self.file().identified(),
            i < self.num,
        ensures
            i < self.file().ids().len(),
            id == self.file().ids()[i as int],
    {
        match &self.runs {
            None => i,
            Some(runs) => {
                let ghost r = plain_runs(runs@);
                let mut lo: usize = 0;
                let mut hi: usize = runs.len();
                while lo < hi
                    invariant
                        lo <= hi <= runs@.len(),
                        r == plain_runs(runs@),
                        forall|k: int|
                            0 <= k < runs@.len() ==> (#[trigger] runs@[k]).2 == entries_before(r, k),
                        lo > 0 ==> entries_before(r, lo - 1) <= i,
                        hi < runs@.len() ==> entries_before(r, hi as int) > i,
                    decreases hi - lo,
                {
                    let mid: usize = lo + (hi - lo) / 2;
                    if runs[mid].2 <= i {
                        lo = mid + 1;
                    } else {
                        hi = mid;
                    }
                }
                proof {
                    assert(lo > 0) by {
                        if lo == 0 {
                            if runs@.len() > 0 {
                                assert(entries_before(r, 0) == 0);
                            }
                        }
                    }
                    assert(entries_before(r, lo as int) > i);
                    lemma_ids_of(r, lo - 1, i - entries_before(r, lo - 1));
                    assert(r[lo - 1].0 + r[lo - 1].1 <= u32::MAX + 1);
                }
                let (start, _, first) = runs[lo - 1];
                start + (i - first)
            },
        }
    }

    fn offset(&self, i: u32) -> (r: u32)
        requires
            self.wf(),
            i <= self.num,
        ensures
            r == self.file().offset(i as int),
    {
        match &self.offsets {
            Some(t) => t.get(i),
            None => {
                let len: usize = self.entries.len();
                if self.layout == 2 {
                    assert(8 * i + 8 <= len);
                    read_u32(self.entries, 8 * (i as usize))
                } else {
                    assert(4 * i + 4 <= len);
                    read_u32(self.entries, 4 * (i as usize))
                }
            },
        }
    }

    fn text(&self, i: u32) -> (r: Option<&'a str>)
        requires
            self.wf(),
        ensures
            r is Some <==> self.file().text(i) is Some,
            r matches Some(t) ==> self.file().text(i) == Some(t@),
    {
        if i >= self.num {
            return None;
        }
        let start: u32 = self.offset(i);
        let end: u32 = self.offset(i + 1);
        if end as u64 > self.texts.len() as u64 || start > end {
            return None;
        }
        let own = part(self.texts, start as usize, end as usize);
        let r = utf8_text(own);
        proof {
            if let Some(t) = r {
                encode_utf8_decode_utf8(t@);
            }
        }
        r
    }

    fn has_inline_meta(&self) -> (r: bool)
        requires
            self.wf(),
        ensures
            r == (self.file().layout != 1),
    {
        self.layout != 1
    }

    fn meta(&self, i: u32) -> (r: Option<TermMetaV3>)
        requires
            self.wf(),
        ensures
            r == self.file().meta(i),
    {
        if self.layout != 1 {
            if i >= self.num {
                return None;
            }
            let len: usize = self.entries.len();
            let at: usize = if self.layout == 3 {
                assert(4 * i + 4 <= len);
                4 * (i as usize)
            } else {
                assert(8 * i + 8 <= len);
                8 * (i as usize) + 4
            };
            let flags: u8 = self.entries[at + 3];
            return Some(
                TermMetaV3 {
                    own_len: read_u16(self.entries, at),
                    sep_len: self.entries[at + 2],
                    overlap_len: flags % 16,
                    is_word_start: flags / 16 % 2 == 1,
                    is_word_stripped: flags / 32 % 2 == 1,
                },
            );
        }
        match self.legacy {
            Some((data, count)) => {
                let len: usize = data.len();
                if i >= count || 6 * (i as u64) + 6 > len as u64 {
                    return None;
                }
                assert(6 * i + 6 <= len);
                let at: usize = 6 * (i as usize);
                Some(
                    TermMetaV3 {
                        own_len: read_u16(data, at),
                        sep_len: data[at + 2],
                        overlap_len: data[at + 3],
                        is_word_start: data[at + 4] != 0,
                        is_word_stripped: data[at + 5] != 0,
                    },
                )
            },
            None => None,
        }
    }
}

fn read_stats<'a>(file: &SectionFileReader<'a>) -> (r: Option<u16>)
    requires
        file.wf(),
    ensures
        r == stats_in(file.bytes()),
{
    match file.get_section(SECTION_STATS) {
        Some(b) => {
            if b.len() >= 4 && read_u16(b, 2) == STATS_VERSION {
                Some(read_u16(b, 0))
            } else {
                None
            }
        },
        None => None,
    }
}

fn read_legacy<'a>(file: &SectionFileReader<'a>) -> (r: Option<(&'a [u8], u32)>)
    requires
        file.wf(),
    ensures
        r is Some <==> legacy_in(file.bytes()) is Some,
        r matches Some(p) ==> legacy_in(file.bytes()) == Some((p.0@, p.1)),
{
    match file.get_section(SECTION_META) {
        Some(b) => {
            if b.len() >= 4 {
                Some((part(b, 4, b.len()), read_u32(b, 0)))
            } else {
                None
            }
        },
        None => None,
    }
}

fn read_runs<'a>(file: &SectionFileReader<'a>) -> (out: Option<Vec<(u32, u32, u32)>>)
    requires
        file.wf(),
        runs_in(file.bytes()) matches Some(r) ==> entries_before(r, r.len() as int) <= u32::MAX,
    ensures
        out is Some <==> runs_in(file.bytes()) is Some,
        out matches Some(v) ==> {
            &&& runs_in(file.bytes()) == Some(plain_runs(v@))
            &&& forall|k: int|
                0 <= k < v@.len() ==> (#[trigger] v@[k]).2 == entries_before(plain_runs(v@), k)
        },
{
    let b = match file.get_section(SECTION_IDS) {
        Some(b) => b,
        None => {
            return None;
        },
    };
    let len: usize = b.len();
    if len < 4 {
        return None;
    }
    let n: u32 = read_u32(b, 0);
    if (((len - 4) / 8) as u64) < n as u64 {
        return None;
    }
    let ghost r = runs_in(file.bytes())->0;
    let mut out: Vec<(u32, u32, u32)> = Vec::new();
    let mut first: u32 = 0;
    let mut i: u32 = 0;
    while i < n
        invariant
            i <= n,
            len == b@.len(),
            4 + 8 * n <= len,
            r.len() == n,
            forall|k: int|
                #![trigger r[k]]
                0 <= k < n ==> r[k] == (bytes::get32(b@, 4 + 8 * k), bytes::get32(b@, 4 + 8 * k + 4)),
            entries_before(r, n as int) <= u32::MAX,
            first == entries_before(r, i as int),
            out@.len() == i,
            forall|k: int| 0 <= k < i ==> (#[trigger] out@[k]).0 == r[k].0 && out@[k].1 == r[k].1,
            forall|k: int| 0 <= k < i ==> (#[trigger] out@[k]).2 == entries_before(r, k),
        decreases n - i,
    {
        assert(4 + 8 * i + 8 <= len);
        let at: usize = 4 + 8 * (i as usize);
        let start: u32 = read_u32(b, at);
        let count: u32 = read_u32(b, at + 4);
        proof {
            lemma_before_mono(r, i + 1, n as int);
            assert(r[i as int].1 == count);
        }
        out.push((start, count, first));
        first = first + count;
        i += 1;
    }
    assert(plain_runs(out@) =~= r);
    Some(out)
}

/// Whether the runs of a file, if it has the form of one, have no more entries
/// than a count can hold.
pub open spec fn counts_fit(s: Seq<u8>) -> bool {
    section_file::opens(s, ttx3()) ==> (runs_in(s) matches Some(r) ==> entries_before(
        r,
        r.len() as int,
    ) <= u32::MAX)
}

/// A file whose runs can be counted can be opened.
pub proof fn lemma_countable(s: Seq<u8>)
    requires
        counts_fit(s),
    ensures
        file_of(s) matches Some(f) ==> f.countable(),
{
}

/// Whether the runs of a file have no more entries than a count can hold, so
/// that it can be opened.
pub fn can_count(bytes: &[u8]) -> (r: bool)
    ensures
        r == counts_fit(bytes@),
        r ==> (file_of(bytes@) matches Some(f) ==> f.countable()),
{
    let magic: [u8; 4] = [84, 84, 88, 51];
    assert(magic@ =~= ttx3());
    let file = match SectionFileReader::open(bytes, &magic) {
        Some(f) => f,
        None => {
            return true;
        },
    };
    let b = match file.get_section(SECTION_IDS) {
        Some(b) => b,
        None => {
            return true;
        },
    };
    let len: usize = b.len();
    if len < 4 {
        return true;
    }
    let n: u32 = read_u32(b, 0);
    if (((len - 4) / 8) as u64) < n as u64 {
        return true;
    }
    let ghost r = runs_in(bytes@)->0;
    let mut total: u64 = 0;
    let mut i: u32 = 0;
    while i < n
        invariant
            i <= n,
            len == b@.len(),
            4 + 8 * n <= len,
            r.len() == n,
            section_file::opens(bytes@, ttx3()),
            runs_in(bytes@) == Some(r),
            forall|k: int|
                #![trigger r[k]]
                0 <= k < n ==> r[k] == (bytes::get32(b@, 4 + 8 * k), bytes::get32(b@, 4 + 8 * k + 4)),
            total == entries_before(r, i as int),
            total <= u32::MAX,
        decreases n - i,
    {
        assert(4 + 8 * i + 8 <= len);
        let count: u32 = read_u32(b, 4 + 8 * (i as usize) + 4);
        proof {
            assert(r[i as int].1 == count);
            lemma_before_mono(r, i + 1, n as int);
        }
        total = total + count as u64;
        if total > u32::MAX as u64 {
            return false;
        }
        i += 1;
    }
    true
}

fn open_third<'a>(raw: &'a [u8]) -> (r: Option<Part<'a>>)
    ensures
        r is Some <==> third_in(raw@, None, None) is Some,
        r matches Some(p) ==> p.wf() && third_in(raw@, None, None) == Some(p.file()),
{
    let len: usize = raw.len();
    if len < 4 {
        return None;
    }
    let num: u32 = read_u32(raw, 0);
    let (table, used) = match BlockOffsets::parse(part(raw, 4, len)) {
        Some(t) => t,
        None => {
            return None;
        },
    };
    if table.len() as u64 != num as u64 + 1 {
        return None;
    }
    let left: usize = len - 4 - used;
    if left as u64 / 4 < num as u64 {
        return None;
    }
    assert(4 * num <= left);
    let from: usize = 4 + used;
    let to: usize = from + 4 * (num as usize);
    let p = Part {
        num,
        layout: 3,
        entries: part(raw, from, to),
        offsets: Some(table),
        texts: part(raw, to, len),
        legacy: None,
        runs: None,
        max_word: None,
    };
    assert(p.file() =~= third_in(raw@, None, None)->0);
    Some(p)
}

fn open_plain<'a>(raw: &'a [u8], layout: u8, stride: usize, legacy: Option<(&'a [u8], u32)>) -> (r:
    Option<Part<'a>>)
    requires
        (layout == 2 && stride == 8) || (layout == 1 && stride == 4),
    ensures
        ({
            let want = plain_in(
                raw@,
                layout as int,
                stride as int,
                match legacy {
                    Some((b, n)) => Some((b@, n)),
                    None => None,
                },
                None,
                None,
            );
            &&& r is Some <==> want is Some
            &&& r matches Some(p) ==> p.wf() && want == Some(p.file())
        }),
{
    let len: usize = raw.len();
    if len < 4 {
        return None;
    }
    let num: u32 = read_u32(raw, 0);
    if ((len - 4) / stride) as u64 <= num as u64 {
        assert(len < 4 + stride * (num + 1)) by (nonlinear_arith)
            requires
                (len - 4) / (stride as int) <= num,
                stride > 0,
                len >= 4,
        ;
        return None;
    }
    assert(4 + stride * (num + 1) <= len) by (nonlinear_arith)
        requires
            (len - 4) / (stride as int) > num,
            stride > 0,
            len >= 4,
    ;
    let to: usize = 4 + stride * (num as usize + 1);
    let p = Part {
        num,
        layout,
        entries: part(raw, 4, to),
        offsets: None,
        texts: part(raw, to, len),
        legacy,
        runs: None,
        max_word: None,
    };
    assert(p.file() =~= plain_in(
        raw@,
        layout as int,
        stride as int,
        match legacy {
            Some((b, n)) => Some((b@, n)),
            None => None,
        },
        None,
        None,
    )->0);
    Some(p)
}

/// An entry with its id.
#[verifier::ext_equal]
pub struct IdEntry {
    /// The id.
    pub id: u32,
    /// The text.
    pub text: Seq<char>,
    /// The metadata.
    pub meta: TermMetaV3,
}

/// The entries of a file up to entry `n` that have a text and metadata.
pub open spec fn entries_of(f: TextFile, n: int) -> Seq<IdEntry>
    decreases n,
{
    if n <= 0 {
        Seq::empty()
    } else {
        let i = (n - 1) as u32;
        match (f.text(i), f.meta(i)) {
            (Some(text), Some(meta)) => entries_of(f, n - 1).push(
                IdEntry { id: f.ids()[i as int], text, meta },
            ),
            _ => entries_of(f, n - 1),
        }
    }
}

/// The entries of the files, one file after the other.
pub open spec fn all_entries(files: Seq<TextFile>) -> Seq<IdEntry>
    decreases files.len(),
{
    if files.len() == 0 {
        Seq::empty()
    } else {
        all_entries(files.drop_last()) + entries_of(files.last(), files.last().num as int)
    }
}

/// The ids of the files, one file after the other.
pub open spec fn all_ids(files: Seq<TextFile>) -> Seq<u32>
    decreases files.len(),
{
    if files.len() == 0 {
        Seq::empty()
    } else {
        all_ids(files.drop_last()) + files.last().ids()
    }
}

/// The first file from `k` on that has an entry for `id`, and the entry.
pub open spec fn locate_in(files: Seq<TextFile>, id: u32, k: int) -> Option<(TextFile, u32)>
    decreases files.len() - k,
{
    if k >= files.len() {
        None
    } else {
        match files[k].entry_of(id) {
            Some(i) => Some((files[k], i)),
            None => locate_in(files, id, k + 1),
        }
    }
}

/// Number of entries of all files.
pub open spec fn entry_count(files: Seq<TextFile>) -> int
    decreases files.len(),
{
    if files.len() == 0 {
        0
    } else {
        entry_count(files.drop_last()) + files.last().num
    }
}

/// The longest word of all files; `None` where one does not tell.
pub open spec fn longest_of(files: Seq<TextFile>) -> Option<u16>
    decreases files.len(),
{
    if files.len() == 0 {
        None
    } else if files.len() == 1 {
        files[0].max_word
    } else {
        match (longest_of(files.drop_last()), files.last().max_word) {
            (Some(a), Some(b)) => Some(
                if a >= b {
                    a
                } else {
                    b
                },
            ),
            _ => None,
        }
    }
}

/// The text that leads from `id`.
pub open spec fn text_for(files: Seq<TextFile>, id: u32) -> Option<Seq<char>> {
    match locate_in(files, id, 0) {
        Some((f, i)) => f.text(i),
        None => None,
    }
}

/// The metadata that leads from `id`.
pub open spec fn meta_for(files: Seq<TextFile>, id: u32) -> Option<TermMetaV3> {
    match locate_in(files, id, 0) {
        Some((f, i)) => f.meta(i),
        None => None,
    }
}

/// Whether `id` has a content byte; one without an entry counts as having one.
pub open spec fn content_for(files: Seq<TextFile>, id: u32) -> bool {
    locate_in(files, id, 0) matches Some((f, i)) ==> f.content(i)
}

/// Entries as the iterators give them.
pub open spec fn as_entries<'a>(v: Seq<(u32, &'a str, TermMetaV3)>) -> Seq<IdEntry> {
    Seq::new(v.len(), |i: int| IdEntry { id: v[i].0, text: v[i].1@, meta: v[i].2 })
}

/// Reads texts with their metadata, from one file or from several that are
/// answered for as one.
pub struct TermTextsReaderV3<'a> {
    parts: Vec<Part<'a>>,
}

impl<'a> TermTextsReaderV3<'a> {
    /// The files.
    pub closed spec fn files(&self) -> Seq<TextFile> {
        Seq::new(self.parts@.len(), |i: int| self.parts@[i].file())
    }

    /// There is a file, and each is as it was read.
    pub closed spec fn wf(&self) -> bool {
        &&& self.parts@.len() > 0
        &&& forall|i: int| 0 <= i < self.parts@.len() ==> (#[trigger] self.parts@[i]).wf()
    }

    /// Opens one file.
    pub fn open(bytes: &'a [u8]) -> (r: Option<Self>)
        requires
            file_of(bytes@) matches Some(f) ==> f.countable(),
        ensures
            r is Some <==> file_of(bytes@) is Some,
            r matches Some(t) ==> t.wf() && t.files() == seq![file_of(bytes@)->0],
    {
        match Part::open(bytes) {
            Some(p) => {
                let mut parts: Vec<Part<'a>> = Vec::new();
                parts.push(p);
                let r = TermTextsReaderV3 { parts };
                assert(r.files() =~= seq![file_of(bytes@)->0]);
                Some(r)
            },
            None => None,
        }
    }

    /// Opens several files as one; `None` without any, or where one does not
    /// open.
    pub fn open_parts(parts: &[&'a [u8]]) -> (r: Option<Self>)
        requires
            forall|i: int|
                0 <= i < parts@.len() ==> (file_of((#[trigger] parts@[i])@) matches Some(f)
                    ==> f.countable()),
        ensures
            r is Some <==> parts@.len() > 0 && forall|i: int|
                0 <= i < parts@.len() ==> file_of((#[trigger] parts@[i])@) is Some,
            r matches Some(t) ==> {
                &&& t.wf()
                &&& t.files().len() == parts@.len()
                &&& forall|i: int|
                    0 <= i < parts@.len() ==> Some(#[trigger] t.files()[i]) == file_of(parts@[i]@)
            },
    {
        if parts.len() == 0 {
            return None;
        }
        let mut out: Vec<Part<'a>> = Vec::new();
        let mut i: usize = 0;
        while i < parts.len()
            invariant
                i <= parts@.len(),
                out@.len() == i,
                forall|i: int|
                    0 <= i < parts@.len() ==> (file_of((#[trigger] parts@[i])@) matches Some(f)
                        ==> f.countable()),
                forall|k: int|
                    0 <= k < i ==> (#[trigger] out@[k]).wf() && file_of(parts@[k]@) == Some(
                        out@[k].file(),
                    ),
            decreases parts@.len() - i,
        {
            let bytes = parts[i];
            assert(bytes@ == parts@[i as int]@);
            match Part::open(bytes) {
                Some(p) => {
                    out.push(p);
                },
                None => {
                    return None;
                },
            }
            i += 1;
        }
        assert forall|k: int| 0 <= k < parts@.len() implies file_of((#[trigger] parts@[k])@) is Some by {
            assert(out@[k].wf());
        }
        Some(TermTextsReaderV3 { parts: out })
    }

    /// Whether entry indexes are not the ids.
    pub fn has_id_map(&self) -> (r: bool)
        requires
            self.wf(),
        ensures
            r == (self.files()[0].runs is Some || self.files().len() > 1),
    {
        self.parts[0].runs.is_some() || self.parts.len() > 1
    }

    fn locate(&self, id: u32) -> (r: Option<(usize, u32)>)
        requires
            self.wf(),
        ensures
            r is Some <==> locate_in(self.files(), id, 0) is Some,
            r matches Some((k, i)) ==> k < self.parts@.len() && locate_in(self.files(), id, 0)
                == Some((self.parts@[k as int].file(), i)),
    {
        let mut k: usize = 0;
        while k < self.parts.len()
            invariant
                self.wf(),
                k <= self.parts@.len(),
                locate_in(self.files(), id, k as int) == locate_in(self.files(), id, 0),
            decreases self.parts@.len() - k,
        {
            assert(self.parts@[k as int].wf());
            match self.parts[k].local_index(id) {
                Some(i) => {
                    return Some((k, i));
                },
                None => {},
            }
            k += 1;
        }
        None
    }

    /// Whether the metadata stands with the entries.
    pub fn has_inline_meta(&self) -> (r: bool)
        requires
            self.wf(),
        ensures
            r == (self.files()[0].layout != 1),
    {
        assert(self.parts@[0].wf());
        self.parts[0].has_inline_meta()
    }

    /// The text of an ordinal, or of an id where the file has ids.
    pub fn text(&self, ordinal: u32) -> (r: Option<&'a str>)
        requires
            self.wf(),
        ensures
            r is Some <==> text_for(self.files(), ordinal) is Some,
            r matches Some(t) ==> text_for(self.files(), ordinal) == Some(t@),
    {
        match self.locate(ordinal) {
            Some((k, i)) => {
                assert(self.parts@[k as int].wf());
                self.parts[k].text(i)
            },
            None => None,
        }
    }

    /// The metadata of an ordinal, or of an id where the file has ids.
    pub fn meta(&self, ordinal: u32) -> (r: Option<TermMetaV3>)
        requires
            self.wf(),
        ensures
            r == meta_for(self.files(), ordinal),
    {
        match self.locate(ordinal) {
            Some((k, i)) => {
                assert(self.parts@[k as int].wf());
                self.parts[k].meta(i)
            },
            None => None,
        }
    }

    /// Whether the token owns a content byte, `true` where that is not known.
    pub fn has_content(&self, ordinal: u32) -> (r: bool)
        requires
            self.wf(),
        ensures
            r == content_for(self.files(), ordinal),
    {
        match self.locate(ordinal) {
            Some((k, i)) => {
                assert(self.parts@[k as int].wf());
                match self.parts[k].meta(i) {
                    Some(m) => m.own_len > m.sep_len as u16,
                    None => true,
                }
            },
            None => true,
        }
    }

    /// The text and the metadata of an ordinal.
    pub fn entry(&self, ordinal: u32) -> (r: Option<(&'a str, TermMetaV3)>)
        requires
            self.wf(),
        ensures
            r is Some <==> text_for(self.files(), ordinal) is Some && meta_for(
                self.files(),
                ordinal,
            ) is Some,
            r matches Some((t, m)) ==> text_for(self.files(), ordinal) == Some(t@) && meta_for(
                self.files(),
                ordinal,
            ) == Some(m),
    {
        match (self.text(ordinal), self.meta(ordinal)) {
            (Some(t), Some(m)) => Some((t, m)),
            _ => None,
        }
    }

    /// The length of the longest word, where every file tells it.
    pub fn max_word_content_len(&self) -> (r: Option<u16>)
        requires
            self.wf(),
        ensures
            r == longest_of(self.files()),
    {
        let ghost files = self.files();
        let mut best: Option<u16> = self.parts[0].max_word;
        let mut k: usize = 1;
        proof {
            assert(files.take(1)[0] == files[0]);
        }
        while k < self.parts.len()
            invariant
                self.wf(),
                files == self.files(),
                1 <= k <= self.parts@.len(),
                best == longest_of(files.take(k as int)),
            decreases self.parts@.len() - k,
        {
            best = match (best, self.parts[k].max_word) {
                (Some(a), Some(b)) => Some(
                    if a >= b {
                        a
                    } else {
                        b
                    },
                ),
                _ => None,
            };
            k += 1;
            assert(files.take(k as int).drop_last() =~= files.take(k - 1));
        }
        assert(files.take(k as int) =~= files);
        best
    }

    /// Whether a word may be too long for all its suffixes to be found in it;
    /// `true` where that is not known.
    pub fn may_have_long_words(&self) -> (r: bool)
        requires
            self.wf(),
        ensures
            r == (longest_of(self.files()) matches Some(m) ==> m > WORD_SUFFIX_CAP),
    {
        match self.max_word_content_len() {
            Some(m) => m > WORD_SUFFIX_CAP,
            None => true,
        }
    }

    /// Number of entries of all files.
    pub fn num_terms(&self) -> (n: u32)
        requires
            self.wf(),
            entry_count(self.files()) <= u32::MAX,
        ensures
            n == entry_count(self.files()),
    {
        let ghost files = self.files();
        let mut n: u32 = 0;
        let mut k: usize = 0;
        assert(files.take(0) =~= Seq::<TextFile>::empty());
        while k < self.parts.len()
            invariant
                files == self.files(),
                k <= self.parts@.len(),
                entry_count(files) <= u32::MAX,
                n == entry_count(files.take(k as int)),
            decreases self.parts@.len() - k,
        {
            proof {
                assert(files.take(k + 1).drop_last() =~= files.take(k as int));
                lemma_count_mono(files, k + 1);
            }
            n = n + self.parts[k].num;
            k += 1;
        }
        assert(files.take(k as int) =~= files);
        n
    }

    /// The ids of all entries, file after file.
    pub fn ids(&self) -> (out: Vec<u32>)
        requires
            self.wf(),
            forall|k: int|
                0 <= k < self.files().len() ==> ((#[trigger] self.files()[k]).runs matches Some(r)
                    ==> runs_end(r)),
        ensures
            out@ == all_ids(self.files()),
    {
        let ghost files = self.files();
        let mut out: Vec<u32> = Vec::new();
        let mut k: usize = 0;
        assert(files.take(0) =~= Seq::<TextFile>::empty());
        while k < self.parts.len()
            invariant
                self.wf(),
                files == self.files(),
                k <= self.parts@.len(),
                forall|k: int|
                    0 <= k < files.len() ==> ((#[trigger] files[k]).runs matches Some(r) ==> runs_end(r)),
                out@ == all_ids(files.take(k as int)),
            decreases self.parts@.len() - k,
        {
            let p = &self.parts[k];
            let ghost before = out@;
            assert(files[k as int] == p.file());
            match &p.runs {
                None => {
                    let mut i: u32 = 0;
                    while i < p.num
                        invariant
                            i <= p.num,
                            out@ == before + Seq::new(i as nat, |j: int| j as u32),
                        decreases p.num - i,
                    {
                        out.push(i);
                        i += 1;
                        assert(out@ =~= before + Seq::new(i as nat, |j: int| j as u32));
                    }
                    assert(out@ =~= before + p.file().ids());
                },
                Some(runs) => {
                    let ghost r = plain_runs(runs@);
                    let mut q: usize = 0;
                    assert(r.take(0) =~= Seq::<(u32, u32)>::empty());
                    assert(out@ =~= before + ids_of(r.take(0)));
                    while q < runs.len()
                        invariant
                            q <= runs@.len(),
                            r == plain_runs(runs@),
                            runs_end(r),
                            out@ == before + ids_of(r.take(q as int)),
                        decreases runs@.len() - q,
                    {
                        let (start, len, _) = runs[q];
                        let ghost mid = out@;
                        assert(r[q as int].0 + r[q as int].1 <= u32::MAX + 1);
                        let mut j: u32 = 0;
                        while j < len
                            invariant
                                j <= len,
                                start + len <= u32::MAX + 1,
                                out@ == mid + Seq::new(j as nat, |x: int| (start + x) as u32),
                            decreases len - j,
                        {
                            out.push(start + j);
                            j += 1;
                            assert(out@ =~= mid + Seq::new(j as nat, |x: int| (start + x) as u32));
                        }
                        q += 1;
                        proof {
                            let t = r.take(q as int);
                            assert(t.drop_last() =~= r.take(q - 1));
                            assert(t.last() == (start, len));
                            assert(ids_of(t) =~= ids_of(r.take(q - 1)) + Seq::new(
                                len as nat,
                                |x: int| (start + x) as u32,
                            ));
                            assert(out@ =~= before + ids_of(t));
                        }
                    }
                    assert(r.take(q as int) =~= r);
                },
            }
            k += 1;
            assert(files.take(k as int).drop_last() =~= files.take(k - 1));
        }
        assert(files.take(k as int) =~= files);
        out
    }

    /// Whether every entry has an id that is in range.
    pub fn is_identified(&self) -> (r: bool)
        requires
            self.wf(),
        ensures
            r == forall|k: int| 0 <= k < self.files().len() ==> (#[trigger] self.files()[k]).identified(),
    {
        let ghost files = self.files();
        let mut k: usize = 0;
        while k < self.parts.len()
            invariant
                self.wf(),
                files == self.files(),
                k <= self.parts@.len(),
                forall|j: int| 0 <= j < k ==> (#[trigger] files[j]).identified(),
            decreases self.parts@.len() - k,
        {
            let p = &self.parts[k];
            assert(files[k as int] == p.file());
            assert(p.wf());
            match &p.runs {
                None => {},
                Some(runs) => {
                    let ghost r = plain_runs(runs@);
                    let n: usize = runs.len();
                    let mut q: usize = 0;
                    while q < n
                        invariant
                            q <= n,
                            n == runs@.len(),
                            r == plain_runs(runs@),
                            p.file().runs == Some(r),
                            k < files.len(),
                            files == self.files(),
                            files[k as int] == p.file(),
                            forall|j: int|
                                0 <= j < q ==> (#[trigger] r[j]).0 + r[j].1 <= u32::MAX + 1,
                        decreases n - q,
                    {
                        assert(r[q as int] == (runs@[q as int].0, runs@[q as int].1));
                        if runs[q].0 as u64 + runs[q].1 as u64 > 0x1_0000_0000 {
                            assert(!runs_end(r));
                            assert(!files[k as int].identified());
                            return false;
                        }
                        q += 1;
                    }
                    let total: u64 = if n == 0 {
                        0
                    } else {
                        runs[n - 1].2 as u64 + runs[n - 1].1 as u64
                    };
                    proof {
                        if n > 0 {
                            assert(r[n - 1] == (runs@[n - 1].0, runs@[n - 1].1));
                        }
                        assert(total == entries_before(r, n as int));
                    }
                    if p.num as u64 > total {
                        assert(!files[k as int].identified());
                        return false;
                    }
                },
            }
            k += 1;
        }
        true
    }

    /// The entries that have a text and metadata, file after file.
    pub fn iter(&self) -> (out: Vec<(u32, &'a str, TermMetaV3)>)
        requires
            self.wf(),
            forall|k: int| 0 <= k < self.files().len() ==> (#[trigger] self.files()[k]).identified(),
        ensures
            as_entries(out@) == all_entries(self.files()),
    {
        let ghost files = self.files();
        let mut out: Vec<(u32, &'a str, TermMetaV3)> = Vec::new();
        let mut k: usize = 0;
        assert(files.take(0) =~= Seq::<TextFile>::empty());
        assert(as_entries(out@) =~= Seq::<IdEntry>::empty());
        while k < self.parts.len()
            invariant
                self.wf(),
                files == self.files(),
                k <= self.parts@.len(),
                forall|k: int| 0 <= k < files.len() ==> (#[trigger] files[k]).identified(),
                as_entries(out@) == all_entries(files.take(k as int)),
            decreases self.parts@.len() - k,
        {
            let p = &self.parts[k];
            let ghost before = as_entries(out@);
            let ghost f = p.file();
            assert(files[k as int] == f);
            assert(p.wf());
            let mut i: u32 = 0;
            assert(as_entries(out@) =~= before + entries_of(f, 0));
            while i < p.num
                invariant
                    p.wf(),
                    f == p.file(),
                    f.identified(),
                    i <= p.num,
                    as_entries(out@) == before + entries_of(f, i as int),
                decreases p.num - i,
            {
                let ghost mid = out@;
                match (p.text(i), p.meta(i)) {
                    (Some(text), Some(meta)) => {
                        let id: u32 = p.id_of_entry(i);
                        out.push((id, text, meta));
                        assert(as_entries(out@) =~= as_entries(mid).push(
                            IdEntry { id, text: text@, meta },
                        ));
                        assert(as_entries(out@) =~= before + entries_of(f, i + 1));
                    },
                    _ => {},
                }
                i += 1;
            }
            k += 1;
            assert(files.take(k as int).drop_last() =~= files.take(k - 1));
        }
        assert(files.take(k as int) =~= files);
        out
    }
}

proof fn lemma_count_mono(files: Seq<TextFile>, k: int)
    requires
        0 <= k <= files.len(),
    ensures
        entry_count(files.take(k)) <= entry_count(files),
    decreases files.len() - k,
{
    if k == files.len() {
        assert(files.take(k) =~= files);
    } else {
        lemma_count_mono(files, k + 1);
        assert(files.take(k + 1).drop_last() =~= files.take(k));
    }
}

/// Whether the ids of the entries ascend.
pub open spec fn ascending_ids(list: Seq<IdEntry>) -> bool {
    forall|i: int, j: int| 0 <= i < j < list.len() ==> (#[trigger] list[i]).id < (#[trigger] list[j]).id
}

/// Whether `e` is the entry of its id in the first list that has one.
pub open spec fn first_with_id(lists: Seq<Seq<IdEntry>>, e: IdEntry) -> bool {
    exists|j: int, k: int|
        #![trigger lists[j][k]]
        0 <= j < lists.len() && 0 <= k < lists[j].len() && lists[j][k] == e && forall|a: int, b: int|
            #![trigger lists[a][b]]
            0 <= a < j && 0 <= b < lists[a].len() ==> lists[a][b].id != e.id
}

/// Whether some list has an entry for the id.
pub open spec fn holds_id(lists: Seq<Seq<IdEntry>>, id: u32) -> bool {
    exists|j: int, k: int|
        #![trigger lists[j][k]]
        0 <= j < lists.len() && 0 <= k < lists[j].len() && lists[j][k].id == id
}

/// Whether `m` is the union of the lists: ascending, an entry for every id of a
/// list, and that of the first list that has one.
pub open spec fn is_merge(lists: Seq<Seq<IdEntry>>, m: Seq<IdEntry>) -> bool {
    &&& ascending_ids(m)
    &&& forall|i: int| 0 <= i < m.len() ==> first_with_id(lists, #[trigger] m[i])
    &&& forall|id: u32| #[trigger] holds_id(lists, id) ==> has_id(m, id)
}

/// Whether the sequence has an entry for the id.
pub open spec fn has_id(m: Seq<IdEntry>, id: u32) -> bool {
    exists|i: int| 0 <= i < m.len() && (#[trigger] m[i]).id == id
}

/// The union of the lists.
pub open spec fn merged(lists: Seq<Seq<IdEntry>>) -> Seq<IdEntry> {
    choose|m: Seq<IdEntry>| is_merge(lists, m)
}

/// Whether `id` comes after `last`.
pub open spec fn later(last: Option<u32>, id: u32) -> bool {
    last matches Some(l) ==> id > l
}

/// Whether `e` is the next entry after `last`: no id between them, and from the
/// first list that has its id.
pub open spec fn is_next(lists: Seq<Seq<IdEntry>>, last: Option<u32>, e: IdEntry) -> bool {
    &&& later(last, e.id)
    &&& first_with_id(lists, e)
    &&& forall|id: u32| #[trigger] holds_id(lists, id) && later(last, id) ==> e.id <= id
}

proof fn lemma_first_unique(lists: Seq<Seq<IdEntry>>, a: IdEntry, b: IdEntry)
    requires
        first_with_id(lists, a),
        first_with_id(lists, b),
        a.id == b.id,
        forall|j: int| 0 <= j < lists.len() ==> ascending_ids(#[trigger] lists[j]),
    ensures
        a == b,
{
    let (j, k) = choose|j: int, k: int|
        #![trigger lists[j][k]]
        0 <= j < lists.len() && 0 <= k < lists[j].len() && lists[j][k] == a && forall|p: int, q: int|
            #![trigger lists[p][q]]
            0 <= p < j && 0 <= q < lists[p].len() ==> lists[p][q].id != a.id;
    let (x, y) = choose|x: int, y: int|
        #![trigger lists[x][y]]
        0 <= x < lists.len() && 0 <= y < lists[x].len() && lists[x][y] == b && forall|p: int, q: int|
            #![trigger lists[p][q]]
            0 <= p < x && 0 <= q < lists[p].len() ==> lists[p][q].id != b.id;
    assert(lists[j][k].id == lists[x][y].id);
    assert(j == x);
    assert(ascending_ids(lists[j]));
    if k < y {
        assert(lists[j][k].id < lists[j][y].id);
    } else if y < k {
        assert(lists[j][y].id < lists[j][k].id);
    }
}

/// There is only one union.
proof fn lemma_merge_unique(lists: Seq<Seq<IdEntry>>, a: Seq<IdEntry>, b: Seq<IdEntry>)
    requires
        forall|j: int| 0 <= j < lists.len() ==> ascending_ids(#[trigger] lists[j]),
        ascending_ids(a),
        ascending_ids(b),
        forall|i: int| 0 <= i < a.len() ==> first_with_id(lists, #[trigger] a[i]),
        forall|i: int| 0 <= i < b.len() ==> first_with_id(lists, #[trigger] b[i]),
        forall|id: u32| #[trigger] has_id(a, id) <==> has_id(b, id),
    ensures
        a == b,
    decreases a.len() + b.len(),
{
    if a.len() == 0 || b.len() == 0 {
        if a.len() > 0 {
            assert(has_id(a, a[0].id));
        }
        if b.len() > 0 {
            assert(has_id(b, b[0].id));
            assert(has_id(a, b[0].id));
        }
        assert(a =~= b);
    } else {
        let x = a.last();
        let y = b.last();
        assert(a[a.len() - 1] == x);
        assert(b[b.len() - 1] == y);
        assert(has_id(a, x.id) && has_id(b, y.id));
        assert(has_id(a, y.id));
        let i = choose|i: int| 0 <= i < b.len() && (#[trigger] b[i]).id == x.id;
        let j = choose|j: int| 0 <= j < a.len() && (#[trigger] a[j]).id == y.id;
        if i < b.len() - 1 {
            assert(b[i].id < b[b.len() - 1].id);
        }
        if j < a.len() - 1 {
            assert(a[j].id < a[a.len() - 1].id);
        }
        assert(x.id == y.id);
        lemma_first_unique(lists, x, y);
        let c = a.drop_last();
        let d = b.drop_last();
        assert(ascending_ids(c) && ascending_ids(d));
        assert forall|id: u32| #[trigger] has_id(c, id) <==> has_id(d, id) by {
            lemma_drop_id(a, id);
            lemma_drop_id(b, id);
        }
        assert forall|i: int| 0 <= i < c.len() implies first_with_id(lists, #[trigger] c[i]) by {
            assert(first_with_id(lists, a[i]));
        }
        assert forall|i: int| 0 <= i < d.len() implies first_with_id(lists, #[trigger] d[i]) by {
            assert(first_with_id(lists, b[i]));
        }
        lemma_merge_unique(lists, c, d);
        assert(a =~= c.push(x));
        assert(b =~= d.push(y));
    }
}

proof fn lemma_drop_id(a: Seq<IdEntry>, id: u32)
    requires
        a.len() > 0,
        ascending_ids(a),
    ensures
        has_id(a.drop_last(), id) <==> has_id(a, id) && id != a.last().id,
{
    let c = a.drop_last();
    assert(a[a.len() - 1] == a.last());
    if has_id(c, id) {
        let i = choose|i: int| 0 <= i < c.len() && (#[trigger] c[i]).id == id;
        assert(a[i].id == id);
        assert(a[i].id < a[a.len() - 1].id);
    }
    if has_id(a, id) && id != a.last().id {
        let i = choose|i: int| 0 <= i < a.len() && (#[trigger] a[i]).id == id;
        assert(c[i].id == id);
    }
}

/// Law: whatever is the union of the lists is `merged`, so that a merge has one
/// outcome.
pub proof fn the_union_is_unique(lists: Seq<Seq<IdEntry>>, m: Seq<IdEntry>)
    requires
        forall|j: int| 0 <= j < lists.len() ==> ascending_ids(#[trigger] lists[j]),
        is_merge(lists, m),
    ensures
        m == merged(lists),
{
    let n = merged(lists);
    assert(is_merge(lists, n));
    assert forall|id: u32| #[trigger] has_id(m, id) <==> has_id(n, id) by {
        if has_id(m, id) {
            let i = choose|i: int| 0 <= i < m.len() && (#[trigger] m[i]).id == id;
            assert(first_with_id(lists, m[i]));
            assert(holds_id(lists, id));
        }
        if has_id(n, id) {
            let i = choose|i: int| 0 <= i < n.len() && (#[trigger] n[i]).id == id;
            assert(first_with_id(lists, n[i]));
            assert(holds_id(lists, id));
        }
    }
    lemma_merge_unique(lists, m, n);
}

/// The entries of several readers as one sequence that ascends by id, an id of
/// two readers only once, with the entry of the first.
pub struct MergedEntries<'a> {
    lists: Vec<Vec<(u32, &'a str, TermMetaV3)>>,
    at: Vec<usize>,
    last: Option<u32>,
}

/// The entries of each reader.
pub open spec fn lists_of<'a>(parts: Seq<TermTextsReaderV3<'a>>) -> Seq<Seq<IdEntry>> {
    Seq::new(parts.len(), |i: int| all_entries(parts[i].files()))
}

/// Whether the entries of every reader ascend by id.
pub open spec fn mergeable<'a>(parts: Seq<TermTextsReaderV3<'a>>) -> bool {
    forall|i: int|
        0 <= i < parts.len() ==> {
            &&& (#[trigger] parts[i]).wf()
            &&& ascending_ids(all_entries(parts[i].files()))
            &&& forall|k: int|
                0 <= k < parts[i].files().len() ==> (#[trigger] parts[i].files()[k]).identified()
        }
}

impl<'a> MergedEntries<'a> {
    /// The entries, by reader.
    pub closed spec fn lists(&self) -> Seq<Seq<IdEntry>> {
        Seq::new(self.lists@.len(), |i: int| as_entries(self.lists@[i]@))
    }

    /// The id of the last entry given.
    pub closed spec fn last(&self) -> Option<u32> {
        self.last
    }

    /// Each list ascends; what was passed over is not later than the last id,
    /// what is left is not earlier.
    pub closed spec fn wf(&self) -> bool {
        &&& self.at@.len() == self.lists@.len()
        &&& forall|j: int| 0 <= j < self.lists().len() ==> ascending_ids(#[trigger] self.lists()[j])
        &&& forall|j: int| 0 <= j < self.at@.len() ==> #[trigger] self.at@[j] <= self.lists()[j].len()
        &&& forall|j: int, k: int|
            #![trigger self.lists()[j][k]]
            0 <= j < self.at@.len() && 0 <= k < self.at@[j] ==> !later(
                self.last,
                self.lists()[j][k].id,
            )
        &&& forall|j: int, k: int|
            #![trigger self.lists()[j][k]]
            0 <= j < self.at@.len() && self.at@[j] <= k < self.lists()[j].len() ==> (
            self.last matches Some(l) ==> self.lists()[j][k].id >= l)
    }

    /// Over the entries of the readers.
    pub fn new(parts: &[TermTextsReaderV3<'a>]) -> (r: Self)
        requires
            mergeable(parts@),
        ensures
            r.wf(),
            r.lists() == lists_of(parts@),
            r.last() is None,
    {
        let mut lists: Vec<Vec<(u32, &'a str, TermMetaV3)>> = Vec::new();
        let mut at: Vec<usize> = Vec::new();
        let mut i: usize = 0;
        while i < parts.len()
            invariant
                i <= parts@.len(),
                mergeable(parts@),
                lists@.len() == i,
                at@.len() == i,
                forall|j: int| 0 <= j < i ==> #[trigger] at@[j] == 0,
                forall|j: int|
                    0 <= j < i ==> as_entries((#[trigger] lists@[j])@) == all_entries(
                        parts@[j].files(),
                    ),
            decreases parts@.len() - i,
        {
            assert(parts@[i as int].wf());
            lists.push(parts[i].iter());
            at.push(0);
            i += 1;
        }
        let r = MergedEntries { lists, at, last: None };
        proof {
            assert(r.lists() =~= lists_of(parts@));
            assert forall|j: int| 0 <= j < r.lists().len() implies ascending_ids(
                #[trigger] r.lists()[j],
            ) by {
                assert(parts@[j].wf());
            }
        }
        r
    }

    /// Passes over the entries of the last id.
    fn skip_last(&mut self)
        requires
            old(self).wf(),
        ensures
            final(self).wf(),
            final(self).lists() == old(self).lists(),
            final(self).last() == old(self).last(),
            forall|j: int, k: int|
                #![trigger final(self).lists()[j][k]]
                0 <= j < final(self).at@.len() && final(self).at@[j] <= k < final(self).lists()[j].len()
                    ==> later(final(self).last, final(self).lists()[j][k].id),
    {
        let ghost lists = self.lists();
        let mut j: usize = 0;
        while j < self.lists.len()
            invariant
                self.wf(),
                self.lists() == lists,
                self.lists == old(self).lists,
                self.last == old(self).last,
                j <= self.lists@.len(),
                forall|a: int, k: int|
                    #![trigger lists[a][k]]
                    0 <= a < j && self.at@[a] <= k < lists[a].len() ==> later(
                        self.last,
                        lists[a][k].id,
                    ),
            decreases self.lists@.len() - j,
        {
            let p: usize = self.at[j];
            assert(self.at@[j as int] <= self.lists()[j as int].len());
            assert(lists[j as int].len() == self.lists@[j as int]@.len());
            if p < self.lists[j].len() {
                let id: u32 = self.lists[j][p].0;
                assert(lists[j as int][p as int].id == id);
                let same: bool = match self.last {
                    Some(l) => l == id,
                    None => false,
                };
                proof {
                    assert(ascending_ids(self.lists()[j as int]));
                    assert forall|k: int| p < k < lists[j as int].len() implies id < (
                    #[trigger] lists[j as int][k]).id by {
                        assert(lists[j as int][p as int].id < lists[j as int][k].id);
                    }
                }
                if same {
                    self.at.set(j, p + 1);
                    proof {
                        assert(self.lists() =~= lists);
                        assert forall|a: int, k: int|
                            #![trigger self.lists()[a][k]]
                            0 <= a < self.at@.len() && 0 <= k < self.at@[a] implies !later(
                            self.last,
                            self.lists()[a][k].id,
                        ) by {
                            assert(lists[a][k] == self.lists()[a][k]);
                        }
                    }
                }
            }
            j += 1;
        }
    }

    /// The next entry, if one is left.
    pub fn next(&mut self) -> (r: Option<(u32, &'a str, TermMetaV3)>)
        requires
            old(self).wf(),
        ensures
            final(self).wf(),
            final(self).lists() == old(self).lists(),
            r is None ==> final(self).last() == old(self).last() && forall|id: u32|
                #[trigger] holds_id(old(self).lists(), id) ==> !later(old(self).last(), id),
            r matches Some(e) ==> final(self).last() == Some(e.0) && is_next(
                old(self).lists(),
                old(self).last(),
                (IdEntry { id: e.0, text: e.1@, meta: e.2 }),
            ),
    {
        self.skip_last();
        let ghost lists = self.lists();
        let mut best: Option<usize> = None;
        let mut best_id: u32 = 0;
        let mut j: usize = 0;
        while j < self.lists.len()
            invariant
                self.wf(),
                self.lists() == lists,
                j <= self.lists@.len(),
                best is None ==> forall|a: int|
                    0 <= a < j ==> #[trigger] self.at@[a] >= lists[a].len(),
                best matches Some(b) ==> {
                    &&& b < j
                    &&& self.at@[b as int] < lists[b as int].len()
                    &&& lists[b as int][self.at@[b as int] as int].id == best_id
                    &&& forall|a: int|
                        0 <= a < b && #[trigger] self.at@[a] < lists[a].len() ==> best_id
                            < lists[a][self.at@[a] as int].id
                    &&& forall|a: int|
                        b <= a < j && #[trigger] self.at@[a] < lists[a].len() ==> best_id
                            <= lists[a][self.at@[a] as int].id
                },
            decreases self.lists@.len() - j,
        {
            let p: usize = self.at[j];
            assert(lists[j as int].len() == self.lists@[j as int]@.len());
            if p < self.lists[j].len() {
                let id: u32 = self.lists[j][p].0;
                assert(lists[j as int][p as int].id == id);
                if best.is_none() || id < best_id {
                    best = Some(j);
                    best_id = id;
                }
            }
            j += 1;
        }
        match best {
            None => {
                proof {
                    assert forall|id: u32| #[trigger] holds_id(lists, id) implies !later(
                        self.last,
                        id,
                    ) by {
                        let (a, k) = choose|a: int, k: int|
                            #![trigger lists[a][k]]
                            0 <= a < lists.len() && 0 <= k < lists[a].len() && lists[a][k].id == id;
                        assert(self.at@[a] >= lists[a].len());
                        assert(!later(self.last, self.lists()[a][k].id));
                    }
                }
                None
            },
            Some(b) => {
                let p: usize = self.at[b];
                let size: usize = self.lists[b].len();
                assert(lists[b as int].len() == size);
                let item = self.lists[b][p];
                let ghost e = IdEntry { id: item.0, text: item.1@, meta: item.2 };
                let ghost before = self.last;
                let ghost at = self.at@;
                proof {
                    assert(lists[b as int][p as int] == e);
                    assert(later(before, self.lists()[b as int][p as int].id));
                    // what is left of each list starts no earlier than its cursor
                    assert forall|a: int, k: int|
                        #![trigger lists[a][k]]
                        0 <= a < lists.len() && at[a] <= k < lists[a].len() implies best_id
                        <= lists[a][k].id && (a < b ==> best_id < lists[a][k].id) by {
                        assert(ascending_ids(self.lists()[a]));
                        assert(self.at@[a] < lists[a].len());
                        if at[a] < k {
                            assert(lists[a][at[a] as int].id < lists[a][k].id);
                        }
                    }
                    assert forall|a: int, k: int|
                        #![trigger lists[a][k]]
                        0 <= a < lists.len() && 0 <= k < at[a] implies lists[a][k].id < best_id by {
                        assert(!later(before, self.lists()[a][k].id));
                    }
                    assert(first_with_id(lists, e)) by {
                        assert forall|x: int, y: int|
                            #![trigger lists[x][y]]
                            0 <= x < b && 0 <= y < lists[x].len() implies lists[x][y].id != e.id by {
                        }
                        assert(lists[b as int][p as int] == e);
                    }
                    assert forall|id: u32| #[trigger] holds_id(lists, id) && later(
                        before,
                        id,
                    ) implies e.id <= id by {
                        let (a, k) = choose|a: int, k: int|
                            #![trigger lists[a][k]]
                            0 <= a < lists.len() && 0 <= k < lists[a].len() && lists[a][k].id == id;
                        if k < at[a] {
                            assert(!later(before, self.lists()[a][k].id));
                        }
                    }
                }
                self.at.set(b, p + 1);
                self.last = Some(item.0);
                proof {
                    assert(self.lists() =~= lists);
                    assert forall|a: int, k: int|
                        #![trigger self.lists()[a][k]]
                        0 <= a < self.at@.len() && 0 <= k < self.at@[a] implies !later(
                        self.last,
                        self.lists()[a][k].id,
                    ) by {
                        assert(lists[a][k] == self.lists()[a][k]);
                    }
                    assert forall|a: int, k: int|
                        #![trigger self.lists()[a][k]]
                        0 <= a < self.at@.len() && self.at@[a] <= k < self.lists()[a].len() implies (
                    self.last matches Some(l) ==> self.lists()[a][k].id >= l) by {
                        assert(lists[a][k] == self.lists()[a][k]);
                    }
                }
                Some(item)
            },
        }
    }
}

/// Why files could not be merged.
#[derive(Debug, Clone, Copy, PartialEq, Eq, Structural)]
pub enum MergeError {
    /// The texts exceed 4 GB.
    TextsTooLong,
    /// The sections exceed 4 GB.
    SectionTooLong,
}

/// The bytes of the texts of entries.
pub open spec fn entry_texts(m: Seq<IdEntry>) -> Seq<Seq<u8>> {
    Seq::new(m.len(), |i: int| encode_utf8(m[i].text))
}

/// The metadata of entries.
pub open spec fn entry_metas(m: Seq<IdEntry>) -> Seq<TermMetaV3> {
    Seq::new(m.len(), |i: int| m[i].meta)
}

/// The ids of entries.
pub open spec fn entry_ids(m: Seq<IdEntry>) -> Seq<u32> {
    Seq::new(m.len(), |i: int| m[i].id)
}

/// What merging the entries gives.
pub open spec fn merge_outcome(m: Seq<IdEntry>) -> Result<(Seq<u8>, int), MergeError> {
    if bytes::flat(entry_texts(m)).len() > u32::MAX {
        Err(MergeError::TextsTooLong)
    } else if bytes::flat(
        section_payloads(entry_texts(m), entry_metas(m), Some(entry_ids(m))),
    ).len() > u32::MAX {
        Err(MergeError::SectionTooLong)
    } else {
        Ok((texts_file(entry_texts(m), entry_metas(m), Some(entry_ids(m))), m.len() as int))
    }
}

pub(crate) fn collect_merged<'a>(parts: &[TermTextsReaderV3<'a>]) -> (out: Vec<(u32, &'a str, TermMetaV3)>)
    requires
        mergeable(parts@),
    ensures
        is_merge(lists_of(parts@), as_entries(out@)),
        as_entries(out@) == merged(lists_of(parts@)),
{
    let mut rest = MergedEntries::new(parts);
    let ghost lists = lists_of(parts@);
    let mut out: Vec<(u32, &'a str, TermMetaV3)> = Vec::new();
    let mut done: bool = false;
    assert(as_entries(out@) =~= Seq::<IdEntry>::empty());
    while !done
        invariant
            rest.wf(),
            rest.lists() == lists,
            ascending_ids(as_entries(out@)),
            forall|i: int|
                0 <= i < as_entries(out@).len() ==> first_with_id(lists, #[trigger] as_entries(out@)[i]),
            forall|id: u32|
                #[trigger] holds_id(lists, id) && !later(rest.last(), id) ==> has_id(
                    as_entries(out@),
                    id,
                ),
            rest.last() is None ==> out@.len() == 0,
            rest.last() matches Some(l) ==> forall|i: int|
                0 <= i < as_entries(out@).len() ==> (#[trigger] as_entries(out@)[i]).id <= l,
            done ==> is_merge(lists, as_entries(out@)),
        decreases
            (if done {
                0int
            } else {
                1int
            }),
            (match rest.last() {
                None => u32::MAX + 1,
                Some(l) => u32::MAX - l,
            }),
    {
        let ghost before = as_entries(out@);
        let ghost last = rest.last();
        match rest.next() {
            None => {
                done = true;
            },
            Some(item) => {
                let ghost e = IdEntry { id: item.0, text: item.1@, meta: item.2 };
                out.push(item);
                proof {
                    let now = as_entries(out@);
                    assert(now =~= before.push(e));
                    assert forall|id: u32| #[trigger] holds_id(lists, id) && !later(
                        Some(e.id),
                        id,
                    ) implies has_id(now, id) by {
                        if later(last, id) {
                            assert(e.id <= id);
                            assert(now[before.len() as int].id == id);
                        } else {
                            assert(has_id(before, id));
                            let i = choose|i: int| 0 <= i < before.len() && (#[trigger] before[i]).id == id;
                            assert(now[i].id == id);
                        }
                    }
                    assert forall|i: int| 0 <= i < now.len() implies first_with_id(
                        lists,
                        #[trigger] now[i],
                    ) by {
                        if i < before.len() {
                            assert(first_with_id(lists, before[i]));
                        }
                    }
                    assert forall|i: int, j: int| 0 <= i < j < now.len() implies (#[trigger] now[i]).id < (
                    #[trigger] now[j]).id by {
                        if j < before.len() {
                            assert(before[i].id < before[j].id);
                        } else {
                            assert(before[i].id <= last->0);
                        }
                    }
                    assert forall|i: int| 0 <= i < now.len() implies (#[trigger] now[i]).id <= e.id by {
                        if i < before.len() {
                            assert(before[i].id <= last->0);
                        }
                    }
                }
            },
        }
    }
    proof {
        assert forall|j: int| 0 <= j < lists.len() implies ascending_ids(#[trigger] lists[j]) by {
            assert(parts@[j].wf());
        }
        the_union_is_unique(lists, as_entries(out@));
    }
    out
}

proof fn lemma_flat_three(a: Seq<u8>, b: Seq<u8>, c: Seq<u8>)
    ensures
        bytes::flat(seq![a, b, c]).len() == a.len() + b.len() + c.len(),
{
    let s = seq![a, b, c];
    bytes::lemma_start_ends(s);
    bytes::lemma_start_step(s, 0);
    bytes::lemma_start_step(s, 1);
    bytes::lemma_start_step(s, 2);
}

proof fn lemma_merge_sizes(texts: Seq<Seq<u8>>, metas: Seq<TermMetaV3>, ids: Seq<u32>)
    requires
        texts.len() == metas.len(),
    ensures
        ({
            let blocks = bytes::flat(block_offsets::all_blocks(bytes::starts32(texts))).len();
            let n = texts.len() as int;
            let size = bytes::flat(section_payloads(texts, metas, Some(ids))).len();
            &&& size == 4 + 12 + 4 * block_offsets::block_count(n + 1) + blocks + 4 * n + bytes::flat(texts).len() + 4 + 4
                + 8 * runs_of(ids).len()
            &&& n + 1 <= blocks <= 5 * block_offsets::block_count(n + 1) + 4 * (n + 1)
        }),
{
    broadcast use bytes::group_le_len;

    let offsets = bytes::starts32(texts);
    block_offsets::lemma_blocks_size(offsets);
    lemma_metas_len(metas);
    lemma_pairs_len(runs_of(ids));
    bytes::lemma_le32s_len(block_offsets::directory(block_offsets::all_blocks(offsets)));
    lemma_flat_three(
        entries_bytes(texts, metas),
        stats_bytes(longest_word(metas)),
        ids_bytes(runs_of(ids)),
    );
}

/// The union of the readers as one file with ids, and how many entries it has.
pub fn write_merged<'a>(parts: &[TermTextsReaderV3<'a>]) -> (r: Result<(Vec<u8>, u32), MergeError>)
    requires
        mergeable(parts@),
        forall|i: int|
            0 <= i < merged(lists_of(parts@)).len() ==> (#[trigger] merged(
                lists_of(parts@),
            )[i]).meta.overlap_len < 16,
    ensures
        match merge_outcome(merged(lists_of(parts@))) {
            Ok((file, n)) => r matches Ok((b, k)) && b@ == file && k == n,
            Err(e) => r matches Err(x) && x == e,
        },
{
    let all = collect_merged(parts);
    let ghost m = merged(lists_of(parts@));
    let ghost want = entry_texts(m);
    let mut texts: Vec<Vec<u8>> = Vec::new();
    let mut metas: Vec<TermMetaV3> = Vec::new();
    let mut ids: Vec<u32> = Vec::new();
    let mut total: u64 = 0;
    let mut over: bool = false;
    let mut i: usize = 0;
    assert(want.take(0) =~= Seq::<Seq<u8>>::empty());
    while i < all.len()
        invariant
            i <= all@.len(),
            m == as_entries(all@),
            want == entry_texts(m),
            texts@.len() == i,
            metas@.len() == i,
            ids@.len() == i,
            forall|k: int| 0 <= k < i ==> (#[trigger] texts@[k])@ == want[k],
            forall|k: int| 0 <= k < i ==> (#[trigger] metas@[k]) == m[k].meta,
            forall|k: int| 0 <= k < i ==> (#[trigger] ids@[k]) == m[k].id,
            over <==> bytes::flat(want.take(i as int)).len() > u32::MAX,
            !over ==> total == bytes::flat(want.take(i as int)).len(),
        decreases all@.len() - i,
    {
        let (id, text, meta) = all[i];
        assert(m[i as int].text == text@);
        let mut own: Vec<u8> = Vec::new();
        push_bytes(&mut own, text.as_bytes());
        assert(own@ =~= want[i as int]);
        let len: u64 = own.len() as u64;
        proof {
            assert(want.take(i + 1).drop_last() =~= want.take(i as int));
            assert(want.take(i + 1).last() == want[i as int]);
        }
        if !over {
            if len > u32::MAX as u64 || total + len > u32::MAX as u64 {
                over = true;
            } else {
                total = total + len;
            }
        }
        texts.push(own);
        metas.push(meta);
        ids.push(id);
        i += 1;
    }
    proof {
        assert(want.take(i as int) =~= want);
        assert(bytes::deep(texts@) =~= want);
        assert(metas@ =~= entry_metas(m));
        assert(ids@ =~= entry_ids(m));
    }
    if over {
        return Err(MergeError::TextsTooLong);
    }
    proof {
        lemma_merge_sizes(want, metas@, ids@);
        assert(increasing(ids@)) by {
            assert forall|a: int, b: int| 0 <= a < b < ids@.len() implies ids@[a] < ids@[b] by {
                assert(m[a].id < m[b].id);
            }
        }
    }
    let n: usize = texts.len();
    if n as u64 > 858993459 {
        return Err(MergeError::SectionTooLong);
    }
    let offsets = text_starts(&texts);
    proof {
        assert(block_offsets::ascending(offsets@)) by {
            assert forall|i: int, j: int| 0 <= i <= j < offsets@.len() implies offsets@[i]
                <= offsets@[j] by {
                bytes::lemma_start_mono(want, i, j);
            }
        }
        lemma_runs_of(ids@);
        bytes::lemma_le32s_len(block_offsets::directory(block_offsets::all_blocks(offsets@)));
        bytes::lemma_le32_len(0);
    }
    let table = block_offsets::encode(offsets.as_slice());
    let runs = collect_runs(&ids);
    proof {
        broadcast use bytes::group_le_len;

        assert(table@.len() == 12 + 4 * block_offsets::block_count(n + 1) + bytes::flat(block_offsets::all_blocks(offsets@)).len());
    }
    let size: u64 = 4 + table.len() as u64 + 4 * (n as u64) + total + 8 + 8 * (runs.len() as u64);
    if size > u32::MAX as u64 {
        return Err(MergeError::SectionTooLong);
    }
    let writer = TermTextsWriterV3 { texts, metas, ids: Some(ids) };
    assert(writable(writer.texts(), writer.metas(), writer.ids())) by {
        assert forall|k: int| 0 <= k < writer.metas().len() implies (
        #[trigger] writer.metas()[k]).overlap_len < 16 by {
            assert(m[k].meta.overlap_len < 16);
        }
    }
    Ok((writer.serialize(), n as u32))
}

/// The texts after the first `k` tokens, in the order of their texts, were put
/// under their final ordinals.
pub open spec fn collected_texts(data: SfxCollectorDataV3, k: int) -> Seq<Seq<u8>>
    decreases k,
{
    if k <= 0 {
        Seq::empty()
    } else {
        let t = data.sorted_indices@[k - 1] as int;
        let ord = data.intern_to_final@[t] as int;
        offset_table::padded(collected_texts(data, k - 1), ord + 1, Seq::empty()).update(
            ord,
            encode_utf8(data.token_texts@[t]@),
        )
    }
}

/// The metadata after the first `k` tokens were put under their final
/// ordinals.
pub open spec fn collected_metas(data: SfxCollectorDataV3, k: int) -> Seq<TermMetaV3>
    decreases k,
{
    if k <= 0 {
        Seq::empty()
    } else {
        let t = data.sorted_indices@[k - 1] as int;
        let ord = data.intern_to_final@[t] as int;
        offset_table::padded(collected_metas(data, k - 1), ord + 1, no_meta()).update(
            ord,
            collector_data::term_meta(data.token_meta@[t]),
        )
    }
}

impl TermTextsWriterV3 {
    /// A writer with every token of a collected segment under its final
    /// ordinal.
    pub fn from_collector_v3(data: &SfxCollectorDataV3) -> (w: Self)
        requires
            forall|i: int|
                0 <= i < data.sorted_indices@.len() ==> (#[trigger] data.sorted_indices@[i])
                    < data.token_texts@.len() && data.sorted_indices@[i] < data.token_meta@.len()
                    && data.sorted_indices@[i] < data.intern_to_final@.len(),
            forall|i: int|
                0 <= i < data.intern_to_final@.len() ==> (#[trigger] data.intern_to_final@[i])
                    < usize::MAX,
        ensures
            w.wf(),
            w.texts() == collected_texts(*data, data.sorted_indices@.len() as int),
            w.metas() == collected_metas(*data, data.sorted_indices@.len() as int),
            w.ids() is None,
    {
        let mut w = Self::new();
        let mut i: usize = 0;
        while i < data.sorted_indices.len()
            invariant
                i <= data.sorted_indices@.len(),
                forall|i: int|
                    0 <= i < data.sorted_indices@.len() ==> (#[trigger] data.sorted_indices@[i])
                        < data.token_texts@.len() && data.sorted_indices@[i]
                        < data.token_meta@.len() && data.sorted_indices@[i]
                        < data.intern_to_final@.len(),
                forall|i: int|
                    0 <= i < data.intern_to_final@.len() ==> (#[trigger] data.intern_to_final@[i])
                        < usize::MAX,
                w.wf(),
                w.texts() == collected_texts(*data, i as int),
                w.metas() == collected_metas(*data, i as int),
                w.ids() is None,
            decreases data.sorted_indices@.len() - i,
        {
            let t: usize = data.sorted_indices[i] as usize;
            let m = &data.token_meta[t];
            w.add(
                data.intern_to_final[t],
                data.token_texts[t].as_str(),
                TermMetaV3 {
                    own_len: m.own_len,
                    sep_len: m.sep_len,
                    overlap_len: m.overlap_len,
                    is_word_start: m.is_word_start,
                    is_word_stripped: m.is_word_stripped,
                },
            );
            i += 1;
        }
        w
    }
}

/// A collected token whose final ordinal no other token has stands under it,
/// with its text and its metadata.
pub proof fn collected_token_stands_at_its_ordinal(data: SfxCollectorDataV3, i: int, k: int)
    requires
        0 <= i < k <= data.sorted_indices@.len(),
        forall|j: int|
            i < j < k ==> data.intern_to_final@[(#[trigger] data.sorted_indices@[j]) as int]
                != data.intern_to_final@[data.sorted_indices@[i] as int],
    ensures
        ({
            let t = data.sorted_indices@[i] as int;
            let ord = data.intern_to_final@[t] as int;
            &&& ord < collected_texts(data, k).len()
            &&& collected_texts(data, k)[ord] == encode_utf8(data.token_texts@[t]@)
            &&& ord < collected_metas(data, k).len()
            &&& collected_metas(data, k)[ord] == collector_data::term_meta(data.token_meta@[t])
        }),
    decreases k,
{
    if i < k - 1 {
        collected_token_stands_at_its_ordinal(data, i, k - 1);
        assert(data.intern_to_final@[data.sorted_indices@[k - 1] as int]
            != data.intern_to_final@[data.sorted_indices@[i] as int]);
    }
}

/// Every entry of a written file with ids has an id.
#[verifier::spinoff_prover]
#[verifier::rlimit(60)]
pub proof fn lemma_written_identified(
    texts: Seq<Seq<u8>>,
    metas: Seq<TermMetaV3>,
    ids: Seq<u32>,
)
    requires
        writable(texts, metas, Some(ids)),
        increasing(ids),
        ids.len() == texts.len(),
    ensures
        file_of(texts_file(texts, metas, Some(ids))) matches Some(f) && f.identified(),
{
    let s = texts_file(texts, metas, Some(ids));
    written_texts_read_back(texts, metas, Some(ids));
    lemma_sections(texts, metas, Some(ids));
    let r = runs_of(ids);
    lemma_runs_of(ids);
    lemma_ids_read(r);
    assert(runs_in(s)->0 =~= r);
    lemma_third(texts, metas, runs_in(s), stats_in(s));
    assert((file_of(s)->0).runs == Some(r));
    assert forall|k: int| 0 <= k < r.len() implies (#[trigger] r[k]).0 + r[k].1 <= u32::MAX + 1 by {
        assert(ids[ids.len() - 1] == ids.last());
        if k < r.len() - 1 {
            assert(r[k].0 + r[k].1 < r[r.len() - 1].0);
        }
    }
}

/// Law: no word's content is longer than the longest word's, and one has that
/// length unless there is no word with content.
pub proof fn the_longest_word_is_the_longest(metas: Seq<TermMetaV3>)
    ensures
        forall|i: int|
            0 <= i < metas.len() && (#[trigger] metas[i]).is_word_stripped ==> metas[i].own_len - metas[i].sep_len
                <= longest_word(metas),
        longest_word(metas) == 0 || exists|i: int|
            0 <= i < metas.len() && (#[trigger] metas[i]).is_word_stripped && metas[i].own_len - metas[i].sep_len
                == longest_word(metas),
    decreases metas.len(),
{
    if metas.len() > 0 {
        let front = metas.drop_last();
        the_longest_word_is_the_longest(front);
        assert forall|i: int| 0 <= i < metas.len() && (#[trigger] metas[i]).is_word_stripped implies metas[i].own_len
            - metas[i].sep_len <= longest_word(metas) by {
            if i < front.len() {
                assert(front[i] == metas[i]);
            }
        }
        if longest_word(metas) != 0 {
            if longest_word(metas) == longest_word(front) {
                let i = choose|i: int|
                    0 <= i < front.len() && (#[trigger] front[i]).is_word_stripped && front[i].own_len
                        - front[i].sep_len == longest_word(front);
                assert(metas[i] == front[i]);
            } else {
                assert(metas[metas.len() - 1].is_word_stripped);
            }
        }
    }
}

/// Law: the files together tell a longest word exactly if there are files and
/// each tells its own, and then it is the greatest of these.
pub proof fn the_longest_of_files_is_the_longest(files: Seq<TextFile>)
    ensures
        longest_of(files) is Some <==> files.len() > 0 && forall|k: int|
            0 <= k < files.len() ==> (#[trigger] files[k]).max_word is Some,
        longest_of(files) matches Some(m) ==> (forall|k: int|
            0 <= k < files.len() ==> (#[trigger] files[k]).max_word->0 <= m) && exists|k: int|
            0 <= k < files.len() && (#[trigger] files[k]).max_word == Some(m),
    decreases files.len(),
{
    if files.len() == 1 {
        assert(files[0].max_word is Some ==> files[0].max_word == Some(files[0].max_word->0));
    } else if files.len() > 1 {
        let front = files.drop_last();
        the_longest_of_files_is_the_longest(front);
        assert forall|k: int| 0 <= k < front.len() implies (#[trigger] front[k]) == files[k] by {}
        assert(files[files.len() - 1] == files.last());
        if longest_of(files) is None {
            if longest_of(front) is None {
                let k = choose|k: int| 0 <= k < front.len() && (#[trigger] front[k]).max_word is None;
                assert(files[k].max_word is None);
            }
        } else {
            let m = longest_of(files)->0;
            assert forall|k: int| 0 <= k < files.len() implies (#[trigger] files[k]).max_word is Some
                && files[k].max_word->0 <= m by {
                if k < front.len() {
                    assert(front[k].max_word is Some);
                }
            }
            if m == longest_of(front)->0 {
                let k = choose|k: int| 0 <= k < front.len() && (#[trigger] front[k]).max_word == Some(m);
                assert(files[k].max_word == Some(m));
            } else {
                assert(files[files.len() - 1].max_word == Some(m));
            }
        }
    }
}

/// Law: an id has content exactly if it owns more bytes than separators, or
/// nothing is known of it.
pub proof fn content_is_what_is_owned_besides_separators(files: Seq<TextFile>, id: u32)
    ensures
        content_for(files, id) <==> (meta_for(files, id) matches Some(m) ==> m.own_len > m.sep_len),
{
}

} // verus!
