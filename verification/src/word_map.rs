//! Word maps: which words an ordinal is a chunk of, and which words follow a
//! word.
//!
//! Two tables decide whether two adjacent ordinals of a chain can stand next
//! to each other in the indexed texts:
//! - the chunk map gives, for each ordinal, the words it appears in, with the
//!   chunk's place in the word;
//! - the next map gives, for each word, the words seen right after it.
//!
//! Both files are `[4 bytes] count`, `[4 bytes × (count + 1)] offsets` and the
//! entries: six bytes each in the chunk map (word, chunk index, number of
//! chunks), four in the next map.

use vstd::prelude::*;

use crate::bytes;
use crate::bytes::{push_u32, read_u32};
use crate::offset_table;
use crate::offset_table::{empty_lists, encode_lists, grow_lists, has_table, holds_value, push_runs, push_to, read_run, read_u32s};

verus! {

/// A chunk's place in a word.
#[derive(Debug, Clone, Copy, PartialEq, Eq, Structural)]
pub struct ChunkWordEntry {
    /// The word.
    pub word_id: u32,
    /// The chunk's place in it, from 0.
    pub chunk_index: u8,
    /// How many chunks the word has.
    pub total_chunks: u8,
}

/// The six bytes of an entry.
pub open spec fn entry_bytes(e: ChunkWordEntry) -> Seq<u8> {
    bytes::le32(e.word_id) + seq![e.chunk_index, e.total_chunks]
}

/// The entries one after the other.
pub open spec fn entries_bytes(entries: Seq<ChunkWordEntry>) -> Seq<u8>
    decreases entries.len(),
{
    if entries.len() == 0 {
        Seq::empty()
    } else {
        entries_bytes(entries.drop_last()) + entry_bytes(entries.last())
    }
}

/// The entries of a run; bytes past the last whole entry are left out.
pub open spec fn entries_in(run: Seq<u8>) -> Seq<ChunkWordEntry> {
    Seq::new(
        run.len() / 6,
        |i: int|
            ChunkWordEntry {
                word_id: bytes::get32(run, 6 * i),
                chunk_index: run[6 * i + 4],
                total_chunks: run[6 * i + 5],
            },
    )
}

/// The bytes of each group.
pub open spec fn chunk_runs(groups: Seq<Seq<ChunkWordEntry>>) -> Seq<Seq<u8>> {
    Seq::new(groups.len(), |i: int| entries_bytes(groups[i]))
}

/// The chunk map of the groups, one list of entries per ordinal.
pub open spec fn chunk_map_bytes(groups: Seq<Seq<ChunkWordEntry>>) -> Seq<u8> {
    bytes::le32(groups.len() as u32) + offset_table::runs_bytes(chunk_runs(groups))
}

/// The next map of the groups, one list of following words per word.
pub open spec fn next_map_bytes(groups: Seq<Seq<u32>>) -> Seq<u8> {
    bytes::le32(groups.len() as u32) + offset_table::runs_bytes(offset_table::value_runs(groups))
}

/// Whether the data holds a count and its whole offset table.
pub open spec fn opens(s: Seq<u8>) -> bool {
    s.len() >= 4 && offset_table::table_fits(s, 4, bytes::get32(s, 0) as int)
}

/// The entries of `ord`; none past the table.
pub open spec fn chunks_in(s: Seq<u8>, ord: u32) -> Seq<ChunkWordEntry> {
    if ord >= bytes::get32(s, 0) {
        Seq::empty()
    } else {
        entries_in(offset_table::run_in(s, 4, bytes::get32(s, 0) as int, ord as int))
    }
}

/// The words after `word_id`; none past the table.
pub open spec fn next_in(s: Seq<u8>, word_id: u32) -> Seq<u32> {
    if word_id >= bytes::get32(s, 0) {
        Seq::empty()
    } else {
        offset_table::u32s_in(offset_table::run_in(s, 4, bytes::get32(s, 0) as int, word_id as int))
    }
}

/// The list with `x` at its end, unless it is in it already.
pub open spec fn with_item<T>(s: Seq<T>, x: T) -> Seq<T> {
    if s.contains(x) {
        s
    } else {
        s.push(x)
    }
}

/// Whether a chunk at `a` can stand right before a chunk at `b`: the next
/// chunk of the same word, or the first chunk of a word seen after it.
pub open spec fn adjacent(a: ChunkWordEntry, b: ChunkWordEntry, next: Seq<u8>) -> bool {
    ||| a.word_id == b.word_id && b.chunk_index == a.chunk_index + 1
    ||| a.chunk_index == a.total_chunks - 1 && b.chunk_index == 0 && next_in(next, a.word_id).contains(
        b.word_id,
    )
}

/// Whether some places of the two ordinals allow them next to each other. An
/// ordinal without a place allows everything.
pub open spec fn chain_allowed(chunks: Seq<u8>, next: Seq<u8>, ord_a: u32, ord_b: u32) -> bool {
    ||| chunks_in(chunks, ord_a).len() == 0
    ||| chunks_in(chunks, ord_b).len() == 0
    ||| exists|i: int, j: int|
        0 <= i < chunks_in(chunks, ord_a).len() && 0 <= j < chunks_in(chunks, ord_b).len()
            && #[trigger] adjacent(chunks_in(chunks, ord_a)[i], chunks_in(chunks, ord_b)[j], next)
}

/// Whether the places of an ordinal are places in words: every word has a
/// chunk, and the place after a chunk has a number.
pub open spec fn places(entries: Seq<ChunkWordEntry>) -> bool {
    forall|i: int|
        0 <= i < entries.len() ==> (#[trigger] entries[i]).total_chunks >= 1 && entries[i].chunk_index
            < 255
}

proof fn lemma_entries(entries: Seq<ChunkWordEntry>, i: int)
    requires
        0 <= i < entries.len(),
    ensures
        entries_bytes(entries).len() == 6 * entries.len(),
        entries_bytes(entries).subrange(6 * i, 6 * i + 6) == entry_bytes(entries[i]),
    decreases entries.len(),
{
    broadcast use bytes::group_le_len;

    let d = entries.drop_last();
    if d.len() > 0 {
        lemma_entries(
            d,
            if i < d.len() {
                i
            } else {
                0
            },
        );
    } else {
        assert(entries_bytes(d) =~= Seq::<u8>::empty());
    }
    if i == entries.len() - 1 {
        assert(entries_bytes(entries).subrange(6 * i, 6 * i + 6) =~= entry_bytes(entries[i]));
    } else {
        assert(entries_bytes(entries).subrange(6 * i, 6 * i + 6) =~= entries_bytes(d).subrange(
            6 * i,
            6 * i + 6,
        ));
    }
}

proof fn lemma_entries_in(entries: Seq<ChunkWordEntry>)
    ensures
        entries_in(entries_bytes(entries)) == entries,
{
    let run = entries_bytes(entries);
    broadcast use bytes::group_le_len;

    if entries.len() > 0 {
        lemma_entries(entries, 0);
    }
    assert forall|i: int| 0 <= i < entries.len() implies entries_in(run)[i] == entries[i] by {
        lemma_entries(entries, i);
        let e = run.subrange(6 * i, 6 * i + 6);
        assert(run.subrange(6 * i, 6 * i + 4) =~= e.subrange(0, 4));
        assert(e.subrange(0, 4) =~= bytes::le32(entries[i].word_id));
        bytes::lemma_get32(run, 6 * i, entries[i].word_id);
        assert(run[6 * i + 4] == e[4]);
        assert(run[6 * i + 5] == e[5]);
    }
    assert(entries_in(run) =~= entries);
}

/// Law: the entries of every ordinal that were written read back.
pub proof fn written_chunks_read_back(groups: Seq<Seq<ChunkWordEntry>>, ord: u32)
    requires
        groups.len() <= u32::MAX,
        bytes::flat(chunk_runs(groups)).len() <= u32::MAX,
    ensures
        opens(chunk_map_bytes(groups)),
        bytes::get32(chunk_map_bytes(groups), 0) == groups.len(),
        chunks_in(chunk_map_bytes(groups), ord) == if ord < groups.len() {
            groups[ord as int]
        } else {
            Seq::empty()
        },
{
    let runs = chunk_runs(groups);
    let head = bytes::le32(groups.len() as u32);
    let file = chunk_map_bytes(groups);
    bytes::lemma_le32_len(groups.len() as u32);
    assert(file.subrange(0, 4) =~= head);
    bytes::lemma_get32(file, 0, groups.len() as u32);
    bytes::lemma_le32s_len(bytes::starts32(runs));
    if ord < groups.len() {
        offset_table::written_runs_read_back(head, runs, ord as int);
        lemma_entries_in(groups[ord as int]);
    }
}

/// Law: the words after every word that were written read back.
pub proof fn written_next_words_read_back(groups: Seq<Seq<u32>>, word_id: u32)
    requires
        groups.len() <= u32::MAX,
        bytes::flat(offset_table::value_runs(groups)).len() <= u32::MAX,
    ensures
        opens(next_map_bytes(groups)),
        bytes::get32(next_map_bytes(groups), 0) == groups.len(),
        next_in(next_map_bytes(groups), word_id) == if word_id < groups.len() {
            groups[word_id as int]
        } else {
            Seq::empty()
        },
{
    let runs = offset_table::value_runs(groups);
    let head = bytes::le32(groups.len() as u32);
    let file = next_map_bytes(groups);
    bytes::lemma_le32_len(groups.len() as u32);
    assert(file.subrange(0, 4) =~= head);
    bytes::lemma_get32(file, 0, groups.len() as u32);
    bytes::lemma_le32s_len(bytes::starts32(runs));
    if word_id < groups.len() {
        offset_table::written_runs_read_back(head, runs, word_id as int);
        offset_table::lemma_u32s_in(groups[word_id as int]);
    }
}

/// The contents of the vectors.
pub open spec fn groups_of(v: Seq<Vec<ChunkWordEntry>>) -> Seq<Seq<ChunkWordEntry>> {
    Seq::new(v.len(), |i: int| v[i]@)
}

/// Collects the places of each ordinal.
pub struct ChunkWordMapWriter {
    groups: Vec<Vec<ChunkWordEntry>>,
}

fn holds_entry(group: &Vec<ChunkWordEntry>, e: ChunkWordEntry) -> (r: bool)
    ensures
        r == group@.contains(e),
{
    let mut i: usize = 0;
    while i < group.len()
        invariant
            i <= group@.len(),
            forall|k: int| 0 <= k < i ==> group@[k] != e,
        decreases group@.len() - i,
    {
        if group[i] == e {
            return true;
        }
        i += 1;
    }
    false
}

impl ChunkWordMapWriter {
    /// The places recorded, by ordinal.
    pub closed spec fn groups(&self) -> Seq<Seq<ChunkWordEntry>> {
        groups_of(self.groups@)
    }

    /// A writer for `num_content_ords` ordinals.
    pub fn new(num_content_ords: usize) -> (r: Self)
        ensures
            r.groups() == Seq::new(num_content_ords as nat, |i: int| Seq::<ChunkWordEntry>::empty()),
    {
        let mut groups: Vec<Vec<ChunkWordEntry>> = Vec::new();
        while groups.len() < num_content_ords
            invariant
                groups@.len() <= num_content_ords,
                forall|k: int|
                    0 <= k < groups@.len() ==> (#[trigger] groups@[k])@ == Seq::<
                        ChunkWordEntry,
                    >::empty(),
            decreases num_content_ords - groups@.len(),
        {
            groups.push(Vec::new());
        }
        let r = ChunkWordMapWriter { groups };
        assert(r.groups() =~= Seq::new(
            num_content_ords as nat,
            |i: int| Seq::<ChunkWordEntry>::empty(),
        ));
        r
    }

    /// Records that `ord` is chunk `chunk_index` of `total_chunks` in word
    /// `word_id`, once; an ordinal past the table is left out.
    pub fn add(&mut self, ord: u32, word_id: u32, chunk_index: u8, total_chunks: u8)
        ensures
            final(self).groups() == if ord < old(self).groups().len() {
                old(self).groups().update(
                    ord as int,
                    with_item(
                        old(self).groups()[ord as int],
                        (ChunkWordEntry { word_id, chunk_index, total_chunks }),
                    ),
                )
            } else {
                old(self).groups()
            },
    {
        if (ord as u64) < self.groups.len() as u64 {
            let entry = ChunkWordEntry { word_id, chunk_index, total_chunks };
            let o: usize = ord as usize;
            if !holds_entry(&self.groups[o], entry) {
                self.groups[o].push(entry);
            }
            assert(self.groups() =~= old(self).groups().update(
                ord as int,
                with_item(old(self).groups()[ord as int], entry),
            ));
        }
    }

    /// The file.
    pub fn serialize(&self) -> (out: Vec<u8>)
        requires
            self.groups().len() <= u32::MAX,
            bytes::flat(chunk_runs(self.groups())).len() <= u32::MAX,
        ensures
            out@ == chunk_map_bytes(self.groups()),
    {
        let mut runs: Vec<Vec<u8>> = Vec::new();
        let mut i: usize = 0;
        while i < self.groups.len()
            invariant
                i <= self.groups@.len(),
                runs@.len() == i,
                forall|k: int| 0 <= k < i ==> (#[trigger] runs@[k])@ == entries_bytes(self.groups@[k]@),
            decreases self.groups@.len() - i,
        {
            let group = &self.groups[i];
            let mut run: Vec<u8> = Vec::new();
            let mut j: usize = 0;
            assert(group@.take(0) =~= Seq::<ChunkWordEntry>::empty());
            while j < group.len()
                invariant
                    j <= group@.len(),
                    run@ == entries_bytes(group@.take(j as int)),
                decreases group@.len() - j,
            {
                let e = group[j];
                push_u32(&mut run, e.word_id);
                run.push(e.chunk_index);
                run.push(e.total_chunks);
                j += 1;
                proof {
                    assert(group@.take(j as int).drop_last() =~= group@.take(j - 1));
                    assert(run@ =~= entries_bytes(group@.take(j - 1)) + entry_bytes(e));
                }
            }
            assert(group@.take(j as int) =~= group@);
            runs.push(run);
            i += 1;
        }
        assert(bytes::deep(runs@) =~= chunk_runs(self.groups()));
        let mut out: Vec<u8> = Vec::new();
        push_u32(&mut out, self.groups.len() as u32);
        push_runs(&mut out, &runs);
        assert(out@ =~= chunk_map_bytes(self.groups()));
        out
    }
}

/// Looks the places of an ordinal up.
pub struct ChunkWordMapReader<'a> {
    num_ords: u32,
    data: &'a [u8],
}

impl<'a> ChunkWordMapReader<'a> {
    /// The bytes the reader stands on.
    pub closed spec fn bytes(&self) -> Seq<u8> {
        self.data@
    }

    /// The reader holds a table and its length.
    pub closed spec fn wf(&self) -> bool {
        opens(self.data@) && self.num_ords == bytes::get32(self.data@, 0)
    }

    /// Opens a table; `None` if the data is too short for it.
    pub fn open(data: &'a [u8]) -> (r: Option<Self>)
        ensures
            r is Some <==> opens(data@),
            r matches Some(t) ==> t.wf() && t.bytes() == data@,
    {
        if data.len() < 4 {
            return None;
        }
        let num: u32 = read_u32(data, 0);
        if !has_table(data, 4, num) {
            return None;
        }
        Some(ChunkWordMapReader { num_ords: num, data })
    }

    /// Number of ordinals covered.
    pub fn num_ords(&self) -> (n: u32)
        requires
            self.wf(),
        ensures
            n == bytes::get32(self.bytes(), 0),
    {
        self.num_ords
    }

    /// The places of `ord`; none past the table.
    pub fn lookup(&self, ord: u32) -> (out: Vec<ChunkWordEntry>)
        requires
            self.wf(),
        ensures
            out@ == chunks_in(self.bytes(), ord),
    {
        let mut out: Vec<ChunkWordEntry> = Vec::new();
        if ord >= self.num_ords {
            return out;
        }
        let run = read_run(self.data, 4, self.num_ords, ord);
        let len: usize = run.len();
        let n: usize = len / 6;
        let mut i: usize = 0;
        while i < n
            invariant
                len == run@.len(),
                n == len / 6,
                i <= n,
                out@ == entries_in(run@).take(i as int),
            decreases n - i,
        {
            assert(6 * i + 6 <= len);
            out.push(
                ChunkWordEntry {
                    word_id: read_u32(run, 6 * i),
                    chunk_index: run[6 * i + 4],
                    total_chunks: run[6 * i + 5],
                },
            );
            i += 1;
            assert(out@ =~= entries_in(run@).take(i as int));
        }
        assert(entries_in(run@).take(i as int) =~= entries_in(run@));
        out
    }
}

/// Collects the words seen after each word.
pub struct NextWordMapWriter {
    groups: Vec<Vec<u32>>,
}

impl NextWordMapWriter {
    /// The words recorded, by the word before them.
    pub closed spec fn groups(&self) -> Seq<Seq<u32>> {
        offset_table::lists_of(self.groups@)
    }

    /// A writer for `num_words` words.
    pub fn new(num_words: usize) -> (r: Self)
        ensures
            r.groups() == Seq::new(num_words as nat, |i: int| Seq::<u32>::empty()),
    {
        NextWordMapWriter { groups: empty_lists(num_words) }
    }

    fn ensure_capacity(&mut self, word_id: u32)
        requires
            word_id < usize::MAX,
        ensures
            final(self).groups() == offset_table::grown(old(self).groups(), word_id + 1),
    {
        grow_lists(&mut self.groups, word_id as usize + 1);
    }

    /// Records that word `next` was seen after word `prev`, once; the table
    /// grows to hold `prev`.
    pub fn add(&mut self, prev: u32, next: u32)
        requires
            prev < usize::MAX,
        ensures
            final(self).groups() == offset_table::grown(old(self).groups(), prev + 1).update(
                prev as int,
                with_item(offset_table::grown(old(self).groups(), prev + 1)[prev as int], next),
            ),
    {
        self.ensure_capacity(prev);
        let ghost mid = self.groups();
        assert(mid.len() == self.groups@.len());
        let p: usize = prev as usize;
        if !holds_value(&self.groups[p], next) {
            push_to(&mut self.groups, p, next);
        }
        assert(self.groups() =~= mid.update(prev as int, with_item(mid[prev as int], next)));
    }

    /// The file.
    pub fn serialize(&self) -> (out: Vec<u8>)
        requires
            self.groups().len() <= u32::MAX,
            bytes::flat(offset_table::value_runs(self.groups())).len() <= u32::MAX,
        ensures
            out@ == next_map_bytes(self.groups()),
    {
        let runs = encode_lists(&self.groups);
        let mut out: Vec<u8> = Vec::new();
        push_u32(&mut out, self.groups.len() as u32);
        push_runs(&mut out, &runs);
        assert(out@ =~= next_map_bytes(self.groups()));
        out
    }
}

/// Looks the words after a word up.
pub struct NextWordMapReader<'a> {
    num_words: u32,
    data: &'a [u8],
}

impl<'a> NextWordMapReader<'a> {
    /// The bytes the reader stands on.
    pub closed spec fn bytes(&self) -> Seq<u8> {
        self.data@
    }

    /// The reader holds a table and its length.
    pub closed spec fn wf(&self) -> bool {
        opens(self.data@) && self.num_words == bytes::get32(self.data@, 0)
    }

    /// Opens a table; `None` if the data is too short for it.
    pub fn open(data: &'a [u8]) -> (r: Option<Self>)
        ensures
            r is Some <==> opens(data@),
            r matches Some(t) ==> t.wf() && t.bytes() == data@,
    {
        if data.len() < 4 {
            return None;
        }
        let num: u32 = read_u32(data, 0);
        if !has_table(data, 4, num) {
            return None;
        }
        Some(NextWordMapReader { num_words: num, data })
    }

    /// Whether word `next` was seen after word `prev`.
    pub fn contains(&self, prev: u32, next: u32) -> (r: bool)
        requires
            self.wf(),
        ensures
            r == next_in(self.bytes(), prev).contains(next),
    {
        let words = self.next_words(prev);
        holds_value(&words, next)
    }

    /// Number of words covered.
    pub fn num_words(&self) -> (n: u32)
        requires
            self.wf(),
        ensures
            n == bytes::get32(self.bytes(), 0),
    {
        self.num_words
    }

    /// The words seen after `word_id`; none past the table.
    pub fn next_words(&self, word_id: u32) -> (r: Vec<u32>)
        requires
            self.wf(),
        ensures
            r@ == next_in(self.bytes(), word_id),
    {
        if word_id >= self.num_words {
            return Vec::new();
        }
        read_u32s(read_run(self.data, 4, self.num_words, word_id))
    }
}

/// Whether two adjacent ordinals of a chain can stand next to each other:
/// consecutive chunks of one word, or the last chunk of a word and the first
/// chunk of a word seen after it. Without places there is nothing to hold
/// against them.
pub fn verify_chain_adjacency(
    chunk_map: &ChunkWordMapReader<'_>,
    next_map: &NextWordMapReader<'_>,
    ord_a: u64,
    ord_b: u64,
) -> (r: bool)
    requires
        chunk_map.wf(),
        next_map.wf(),
        places(chunks_in(chunk_map.bytes(), ord_a as u32)),
    ensures
        r == chain_allowed(chunk_map.bytes(), next_map.bytes(), ord_a as u32, ord_b as u32),
{
    let entries_a = chunk_map.lookup(ord_a as u32);
    let entries_b = chunk_map.lookup(ord_b as u32);
    if entries_a.len() == 0 || entries_b.len() == 0 {
        return true;
    }
    let ghost next = next_map.bytes();
    let mut i: usize = 0;
    while i < entries_a.len()
        invariant
            i <= entries_a@.len(),
            next_map.wf(),
            next == next_map.bytes(),
            places(entries_a@),
            forall|k: int, l: int|
                0 <= k < i && 0 <= l < entries_b@.len() ==> !#[trigger] adjacent(
                    entries_a@[k],
                    entries_b@[l],
                    next,
                ),
            entries_a@ == chunks_in(chunk_map.bytes(), ord_a as u32),
            entries_b@ == chunks_in(chunk_map.bytes(), ord_b as u32),
        decreases entries_a@.len() - i,
    {
        let a = entries_a[i];
        let mut j: usize = 0;
        while j < entries_b.len()
            invariant
                i < entries_a@.len(),
                a == entries_a@[i as int],
                j <= entries_b@.len(),
                next_map.wf(),
                next == next_map.bytes(),
                places(entries_a@),
                forall|l: int| 0 <= l < j ==> !#[trigger] adjacent(a, entries_b@[l], next),
                entries_a@ == chunks_in(chunk_map.bytes(), ord_a as u32),
                entries_b@ == chunks_in(chunk_map.bytes(), ord_b as u32),
            decreases entries_b@.len() - j,
        {
            let b = entries_b[j];
            if (a.word_id == b.word_id && b.chunk_index == a.chunk_index + 1) || (a.chunk_index
                == a.total_chunks - 1 && b.chunk_index == 0 && next_map.contains(
                a.word_id,
                b.word_id,
            )) {
                assert(adjacent(entries_a@[i as int], entries_b@[j as int], next));
                return true;
            }
            j += 1;
        }
        i += 1;
    }
    false
}

/// Whether one of the places of the first chunk and one of the second are next
/// to each other: in one word, the second right behind the first; or the first
/// is the last of its word, the second the first of its own, and that word was
/// seen behind the other.
pub open spec fn seen_together(a: Seq<ChunkWordEntry>, b: Seq<ChunkWordEntry>, following: Seq<Seq<u32>>) -> bool {
    exists|x: ChunkWordEntry, y: ChunkWordEntry|
        #[trigger] a.contains(x) && #[trigger] b.contains(y) && if x.word_id == y.word_id && x.chunk_index + 1
            == y.chunk_index {
            true
        } else {
            x.chunk_index + 1 == x.total_chunks && y.chunk_index == 0 && x.word_id < following.len()
                && following[x.word_id as int].contains(y.word_id)
        }
}

/// Law: of two chunks that were both recorded in words, a chain may have the
/// second behind the first exactly if they were seen so: as neighbours in one
/// word, or as the end of a word and the start of one recorded behind it. A
/// chunk that was recorded in no word may stand anywhere.
pub proof fn a_chain_allows_what_was_seen(
    groups: Seq<Seq<ChunkWordEntry>>,
    following: Seq<Seq<u32>>,
    ord_a: u32,
    ord_b: u32,
)
    requires
        groups.len() <= u32::MAX,
        bytes::flat(chunk_runs(groups)).len() <= u32::MAX,
        following.len() <= u32::MAX,
        bytes::flat(offset_table::value_runs(following)).len() <= u32::MAX,
    ensures
        ord_a < groups.len() && ord_b < groups.len() && groups[ord_a as int].len() > 0 && groups[ord_b as int].len()
            > 0 ==> (chain_allowed(chunk_map_bytes(groups), next_map_bytes(following), ord_a, ord_b)
            <==> seen_together(groups[ord_a as int], groups[ord_b as int], following)),
        (ord_a >= groups.len() || groups[ord_a as int].len() == 0 || ord_b >= groups.len()
            || groups[ord_b as int].len() == 0) ==> chain_allowed(
            chunk_map_bytes(groups),
            next_map_bytes(following),
            ord_a,
            ord_b,
        ),
{
    let chunks = chunk_map_bytes(groups);
    let next = next_map_bytes(following);
    written_chunks_read_back(groups, ord_a);
    written_chunks_read_back(groups, ord_b);
    let a = chunks_in(chunks, ord_a);
    let b = chunks_in(chunks, ord_b);
    if a.len() > 0 && b.len() > 0 {
        if chain_allowed(chunks, next, ord_a, ord_b) {
            let (i, j) = choose|i: int, j: int|
                0 <= i < a.len() && 0 <= j < b.len() && #[trigger] adjacent(a[i], b[j], next);
            written_next_words_read_back(following, a[i].word_id);
            assert(a.contains(a[i]) && b.contains(b[j]));
        }
        if seen_together(a, b, following) {
            let (x, y) = choose|x: ChunkWordEntry, y: ChunkWordEntry|
                #[trigger] a.contains(x) && #[trigger] b.contains(y) && if x.word_id == y.word_id
                    && x.chunk_index + 1 == y.chunk_index {
                    true
                } else {
                    x.chunk_index + 1 == x.total_chunks && y.chunk_index == 0 && x.word_id < following.len()
                        && following[x.word_id as int].contains(y.word_id)
                };
            written_next_words_read_back(following, x.word_id);
            let i = choose|i: int| 0 <= i < a.len() && a[i] == x;
            let j = choose|j: int| 0 <= j < b.len() && b[j] == y;
            assert(adjacent(a[i], b[j], next));
        }
    }
}

} // verus!
