//! Three files of a segment that follow from its postings: the ordinals at
//! positions, the words at positions, and the links between tokens.

use vstd::prelude::*;

use crate::bytes;
use crate::bytes::part;
use crate::collector_data;
use crate::collector_data::{WordPostingEntry, write_word_map};
use crate::collector_v3;
use crate::order;
use crate::order::sort;
use crate::own_lens;
use crate::posmap;
use crate::posmap::{EMPTY, PosMapWriter};
use crate::sfxpost_v2;
use crate::sfxpost_v2::SfxPostReaderV2;
use crate::sibling_table;
use crate::sibling_table::SiblingTableWriter;

verus! {

/// The extensions of the three files.
pub const DERIVED_EXTENSIONS: [&'static str; 3] = ["posmap", "word_pos_map", "sibling_v3"];

/// The rebuilt files.
#[derive(Debug, Clone, PartialEq, Eq)]
pub struct DerivedFiles {
    /// The ordinals at positions.
    pub posmap: Vec<u8>,
    /// The words at positions.
    pub word_pos_map: Vec<u8>,
    /// The links between tokens.
    pub sibling_v3: Vec<u8>,
}

impl Default for DerivedFiles {
    fn default() -> (r: Self)
        ensures
            r.posmap@ == Seq::<u8>::empty(),
            r.word_pos_map@ == Seq::<u8>::empty(),
            r.sibling_v3@ == Seq::<u8>::empty(),
    {
        DerivedFiles { posmap: Vec::new(), word_pos_map: Vec::new(), sibling_v3: Vec::new() }
    }
}

/// Document and position of each occurrence.
pub open spec fn positions_of(entries: Seq<(u32, u32, u32, u32)>) -> Seq<(u32, u32)> {
    Seq::new(entries.len(), |i: int| (entries[i].0, entries[i].1))
}

/// The positions of the first `n` ordinals.
pub open spec fn position_lists(s: Seq<u8>, gmap: Option<Seq<u8>>, n: int) -> Seq<Seq<(u32, u32)>> {
    Seq::new(n as nat, |ord: int| positions_of(sfxpost_v2::entries_for(s, gmap, ord as u32)))
}

/// The slots with an ordinal at its first `k` positions.
pub open spec fn with_positions(
    docs: Seq<Seq<u32>>,
    list: Seq<(u32, u32)>,
    ordinal: u32,
    k: int,
) -> Seq<Seq<u32>>
    decreases k,
{
    if k <= 0 {
        docs
    } else {
        posmap::with_slot(
            with_positions(docs, list, ordinal, k - 1),
            list[k - 1].0 as int,
            list[k - 1].1 as int,
            ordinal,
        )
    }
}

/// The slots of the first `k` ordinals.
pub open spec fn position_docs(lists: Seq<Seq<(u32, u32)>>, k: int) -> Seq<Seq<u32>>
    decreases k,
{
    if k <= 0 {
        Seq::empty()
    } else {
        with_positions(
            position_docs(lists, k - 1),
            lists[k - 1],
            (k - 1) as u32,
            lists[k - 1].len() as int,
        )
    }
}

/// Whether each document and each position can be counted.
pub open spec fn positions_fit(lists: Seq<Seq<(u32, u32)>>) -> bool {
    forall|k: int, i: int|
        0 <= k < lists.len() && 0 <= i < lists[k].len() ==> (#[trigger] lists[k][i]).0
            < usize::MAX && lists[k][i].1 < usize::MAX
}

/// The ordinal at a position, if one stands there.
pub open spec fn standing(docs: Seq<Seq<u32>>, doc: int, p: int) -> Option<u32> {
    if doc < docs.len() && p < docs[doc].len() && docs[doc][p] != EMPTY {
        Some(docs[doc][p])
    } else {
        None
    }
}

/// The links between the first `n` positions of a document: each ordinal with
/// the one at the next position.
pub open spec fn doc_links(slots: Seq<u32>, n: int) -> Seq<(u32, u32, u16)>
    decreases n,
{
    if n <= 1 {
        Seq::empty()
    } else if slots[n - 2] != EMPTY && slots[n - 1] != EMPTY {
        doc_links(slots, n - 1).push((slots[n - 2], slots[n - 1], 0u16))
    } else {
        doc_links(slots, n - 1)
    }
}

/// The links of the first `k` documents.
pub open spec fn chunk_links(docs: Seq<Seq<u32>>, k: int) -> Seq<(u32, u32, u16)>
    decreases k,
{
    if k <= 0 {
        Seq::empty()
    } else {
        chunk_links(docs, k - 1) + doc_links(docs[k - 1], docs[k - 1].len() as int)
    }
}

/// An occurrence of a word: document, first and last position, ordinal.
pub open spec fn occurrence(e: WordPostingEntry, ordinal: u32) -> (u32, u32, u32, u32) {
    (e.doc_id, e.first_position, e.last_position, ordinal)
}

/// The occurrences of the first `k` ordinals.
pub open spec fn occurrences(lists: Seq<Seq<WordPostingEntry>>, k: int) -> Seq<(u32, u32, u32, u32)>
    decreases k,
{
    if k <= 0 {
        Seq::empty()
    } else {
        occurrences(lists, k - 1) + Seq::new(
            lists[k - 1].len(),
            |i: int| occurrence(lists[k - 1][i], (k - 1) as u32),
        )
    }
}

/// The words among the first `n` occurrences: of those that end at one
/// position the first, the others being its tails.
pub open spec fn main_words(s: Seq<(u32, u32, u32, u32)>, n: int) -> Seq<(u32, u32, u32, u32)>
    decreases n,
{
    if n <= 0 {
        Seq::empty()
    } else {
        let main = main_words(s, n - 1);
        let w = s[n - 1];
        if main.len() > 0 && main.last().0 == w.0 && main.last().2 == w.2 && main.last().1 <= w.1 {
            main
        } else {
            main.push(w)
        }
    }
}

/// Whether a word follows another in the same value: every position between
/// them has an ordinal.
pub open spec fn follows(
    docs: Seq<Seq<u32>>,
    a: (u32, u32, u32, u32),
    b: (u32, u32, u32, u32),
) -> bool {
    &&& a.0 == b.0
    &&& forall|p: int| a.2 < p < b.1 ==> (#[trigger] standing(docs, a.0 as int, p)) is Some
}

/// The links between the first `n` words.
pub open spec fn word_links(docs: Seq<Seq<u32>>, main: Seq<(u32, u32, u32, u32)>, n: int) -> Seq<
    (u32, u32, u16),
>
    decreases n,
{
    if n <= 1 {
        Seq::empty()
    } else if follows(docs, main[n - 2], main[n - 1]) {
        word_links(docs, main, n - 1).push((main[n - 2].3, main[n - 1].3, 0u16))
    } else {
        word_links(docs, main, n - 1)
    }
}

/// The words, in order, without their tails.
pub open spec fn words_in_order(lists: Seq<Seq<WordPostingEntry>>) -> Seq<(u32, u32, u32, u32)> {
    let all = order::sorted(occurrences(lists, lists.len() as int));
    main_words(all, all.len() as int)
}

/// All links.
pub open spec fn all_links(docs: Seq<Seq<u32>>, lists: Seq<Seq<WordPostingEntry>>) -> Seq<
    (u32, u32, u16),
> {
    let main = words_in_order(lists);
    chunk_links(docs, docs.len() as int) + word_links(docs, main, main.len() as int)
}

/// The occurrences of words that count: those of ordinals with postings.
pub open spec fn counted(words: Option<Seq<Seq<WordPostingEntry>>>, num: u32) -> Seq<
    Seq<WordPostingEntry>,
> {
    match words {
        Some(w) => if w.len() <= num {
            w
        } else {
            w.take(num as int)
        },
        None => Seq::empty(),
    }
}

/// The slots of the positions.
fn fill_positions(sfxpost: &SfxPostReaderV2, num: u32) -> (map: PosMapWriter)
    requires
        sfxpost.wf(),
        positions_fit(position_lists(sfxpost.bytes(), sfxpost.gmap(), num as int)),
    ensures
        map.docs() == position_docs(
            position_lists(sfxpost.bytes(), sfxpost.gmap(), num as int),
            num as int,
        ),
{
    let ghost lists = position_lists(sfxpost.bytes(), sfxpost.gmap(), num as int);
    let mut map = PosMapWriter::new();
    let mut ord: u32 = 0;
    while ord < num
        invariant
            ord <= num,
            sfxpost.wf(),
            lists == position_lists(sfxpost.bytes(), sfxpost.gmap(), num as int),
            positions_fit(lists),
            map.docs() == position_docs(lists, ord as int),
        decreases num - ord,
    {
        let list = sfxpost.for_each_position(ord);
        assert(list@ =~= lists[ord as int]);
        let ghost before = map.docs();
        let mut i: usize = 0;
        while i < list.len()
            invariant
                i <= list@.len(),
                ord < num,
                lists.len() == num,
                list@ == lists[ord as int],
                positions_fit(lists),
                map.docs() == with_positions(before, list@, ord, i as int),
            decreases list@.len() - i,
        {
            let (doc, ti) = list[i];
            assert(lists[ord as int][i as int].0 < usize::MAX);
            map.add(doc, ti, ord);
            i += 1;
        }
        ord += 1;
    }
    map
}

/// Records the links between positions.
fn link_chunks(map: &PosMapWriter, table: &mut SiblingTableWriter)
    ensures
        final(table).num() == old(table).num(),
        final(table).pairs() == old(table).pairs() + chunk_links(
            map.docs(),
            map.docs().len() as int,
        ),
{
    let ghost docs = map.docs();
    let ghost first = table.pairs();
    let num: usize = map.num_docs();
    let mut d: usize = 0;
    assert(first + chunk_links(docs, 0) =~= first);
    while d < num
        invariant
            d <= num,
            num == docs.len(),
            docs == map.docs(),
            table.num() == old(table).num(),
            table.pairs() == first + chunk_links(docs, d as int),
        decreases num - d,
    {
        let n: usize = map.num_positions(d);
        let ghost before = table.pairs();
        let mut p: usize = 0;
        assert(before + doc_links(docs[d as int], 0) =~= before);
        while p < n
            invariant
                p <= n,
                d < num,
                num == docs.len(),
                docs == map.docs(),
                n == docs[d as int].len(),
                table.num() == old(table).num(),
                table.pairs() == before + doc_links(docs[d as int], p as int),
            decreases n - p,
        {
            if p > 0 {
                let a: u32 = map.slot_at(d, p - 1);
                let b: u32 = map.slot_at(d, p);
                if a != EMPTY && b != EMPTY {
                    table.add(a, b, 0);
                }
            }
            p += 1;
            assert(table.pairs() =~= before + doc_links(docs[d as int], p as int));
        }
        d += 1;
        assert(table.pairs() =~= first + chunk_links(docs, d as int));
    }
}

/// The occurrences of words.
fn list_words(lists: &Vec<Vec<WordPostingEntry>>, n: usize) -> (out: Vec<(u32, u32, u32, u32)>)
    requires
        n <= lists@.len(),
        n <= u32::MAX,
    ensures
        out@ == occurrences(collector_v3::contents(lists@).take(n as int), n as int),
{
    let ghost all = collector_v3::contents(lists@).take(n as int);
    let mut out: Vec<(u32, u32, u32, u32)> = Vec::new();
    let mut k: usize = 0;
    while k < n
        invariant
            k <= n <= lists@.len(),
            n <= u32::MAX,
            all == collector_v3::contents(lists@).take(n as int),
            out@ == occurrences(all, k as int),
        decreases n - k,
    {
        let list = &lists[k];
        assert(all[k as int] == list@);
        let ghost before = out@;
        let ghost part = Seq::new(list@.len(), |i: int| occurrence(list@[i], k as u32));
        let mut i: usize = 0;
        assert(before + part.take(0) =~= before);
        while i < list.len()
            invariant
                i <= list@.len(),
                k <= u32::MAX,
                part == Seq::new(list@.len(), |i: int| occurrence(list@[i], k as u32)),
                out@ == before + part.take(i as int),
            decreases list@.len() - i,
        {
            let e = list[i];
            out.push((e.doc_id, e.first_position, e.last_position, k as u32));
            i += 1;
            assert(out@ =~= before + part.take(i as int));
        }
        assert(part.take(i as int) =~= part);
        k += 1;
    }
    out
}

/// The words without their tails.
fn drop_tails(s: &Vec<(u32, u32, u32, u32)>) -> (main: Vec<(u32, u32, u32, u32)>)
    ensures
        main@ == main_words(s@, s@.len() as int),
{
    let mut main: Vec<(u32, u32, u32, u32)> = Vec::new();
    let mut i: usize = 0;
    while i < s.len()
        invariant
            i <= s@.len(),
            main@ == main_words(s@, i as int),
        decreases s@.len() - i,
    {
        let w = s[i];
        let n: usize = main.len();
        let tail = n > 0 && main[n - 1].0 == w.0 && main[n - 1].2 == w.2 && main[n - 1].1 <= w.1;
        if !tail {
            main.push(w);
        }
        i += 1;
    }
    main
}

/// Whether a word follows another in the same value.
fn comes_next(map: &PosMapWriter, a: (u32, u32, u32, u32), b: (u32, u32, u32, u32)) -> (r: bool)
    ensures
        r == follows(map.docs(), a, b),
{
    if a.0 != b.0 {
        return false;
    }
    let ghost docs = map.docs();
    let d: usize = a.0 as usize;
    let known = d < map.num_docs();
    let n: usize = if known {
        map.num_positions(d)
    } else {
        0
    };
    if a.2 == u32::MAX {
        return true;
    }
    let mut p: u32 = a.2 + 1;
    while p < b.1
        invariant
            a.2 < p,
            a.0 == b.0,
            d == a.0,
            docs == map.docs(),
            known == (d < docs.len()),
            known ==> n == docs[d as int].len(),
            !known ==> n == 0,
            forall|q: int| a.2 < q < p ==> (#[trigger] standing(docs, a.0 as int, q)) is Some,
        decreases b.1 - p,
    {
        if p as usize >= n || map.slot_at(d, p as usize) == EMPTY {
            assert(standing(docs, a.0 as int, p as int) is None);
            return false;
        }
        p += 1;
    }
    true
}

/// Records the links between words.
fn link_words(map: &PosMapWriter, main: &Vec<(u32, u32, u32, u32)>, table: &mut SiblingTableWriter)
    ensures
        final(table).num() == old(table).num(),
        final(table).pairs() == old(table).pairs() + word_links(
            map.docs(),
            main@,
            main@.len() as int,
        ),
{
    let ghost first = table.pairs();
    let mut i: usize = 0;
    assert(first + word_links(map.docs(), main@, 0) =~= first);
    while i < main.len()
        invariant
            i <= main@.len(),
            table.num() == old(table).num(),
            table.pairs() == first + word_links(map.docs(), main@, i as int),
        decreases main@.len() - i,
    {
        if i > 0 {
            let a = main[i - 1];
            let b = main[i];
            if comes_next(map, a, b) {
                table.add(a.3, b.3, 0);
            }
        }
        i += 1;
        assert(table.pairs() =~= first + word_links(map.docs(), main@, i as int));
    }
}

/// The same lists, `n` of them.
fn copy_lists(lists: &Vec<Vec<WordPostingEntry>>, n: usize) -> (out: Vec<Vec<WordPostingEntry>>)
    requires
        n <= lists@.len(),
    ensures
        collector_v3::contents(out@) == collector_v3::contents(lists@).take(n as int),
{
    let mut out: Vec<Vec<WordPostingEntry>> = Vec::new();
    let mut k: usize = 0;
    while k < n
        invariant
            k <= n <= lists@.len(),
            out@.len() == k,
            forall|j: int| 0 <= j < k ==> (#[trigger] out@[j])@ == lists@[j]@,
        decreases n - k,
    {
        let list = &lists[k];
        let mut copy: Vec<WordPostingEntry> = Vec::new();
        let mut i: usize = 0;
        while i < list.len()
            invariant
                i <= list@.len(),
                copy@ =~= list@.take(i as int),
            decreases list@.len() - i,
        {
            copy.push(list[i]);
            i += 1;
        }
        assert(copy@ =~= list@);
        out.push(copy);
        k += 1;
    }
    assert(collector_v3::contents(out@) =~= collector_v3::contents(lists@).take(n as int));
    out
}

/// Rebuilds the files of a segment from its postings, the occurrences of its
/// words and the own lengths of its ordinals.
pub fn rebuild<F: Fn(u32) -> Option<u16>>(
    sfxpost: &SfxPostReaderV2,
    word_postings: Option<&Vec<Vec<WordPostingEntry>>>,
    own_len: &F,
) -> (files: DerivedFiles)
    requires
        sfxpost.wf(),
        own_lens::steady(*own_len),
        ({
            let num = bytes::get32(sfxpost.bytes(), 4);
            let places = position_lists(sfxpost.bytes(), sfxpost.gmap(), num as int);
            let docs = position_docs(places, num as int);
            let words = counted(
                match word_postings {
                    Some(w) => Some(collector_v3::contents(w@)),
                    None => None,
                },
                num,
            );
            &&& positions_fit(places)
            &&& docs.len() <= u32::MAX
            &&& bytes::flat(posmap::doc_runs(docs, posmap::lens_of(Some(own_len)))).len() <= u64::MAX
            &&& collector_data::word_map_fits(words)
            &&& bytes::flat(sibling_table::link_runs(num, sibling_table::rows(all_links(docs, words)))).len() <= u32::MAX
        }),
    ensures
        ({
            let num = bytes::get32(sfxpost.bytes(), 4);
            let docs = position_docs(
                position_lists(sfxpost.bytes(), sfxpost.gmap(), num as int),
                num as int,
            );
            let words = counted(
                match word_postings {
                    Some(w) => Some(collector_v3::contents(w@)),
                    None => None,
                },
                num,
            );
            &&& files.posmap@ == posmap::posmap_bytes(docs, posmap::lens_of(Some(own_len)))
            &&& files.word_pos_map@ == collector_data::word_map_file(words)
            &&& files.sibling_v3@ == sibling_table::table_bytes(num, all_links(docs, words))
        }),
{
    let num: u32 = sfxpost.num_terms();
    let map = fill_positions(sfxpost, num);
    let posmap = map.serialize_with_lens(Some(own_len));
    let none: Vec<Vec<WordPostingEntry>> = Vec::new();
    let lists = match word_postings {
        Some(w) => w,
        None => &none,
    };
    let n: usize = if (lists.len() as u64) <= num as u64 {
        lists.len()
    } else {
        num as usize
    };
    let ghost words = counted(
        match word_postings {
            Some(w) => Some(collector_v3::contents(w@)),
            None => None,
        },
        num,
    );
    assert(collector_v3::contents(lists@).take(n as int) =~= words);
    let kept = copy_lists(lists, n);
    let word_pos_map = write_word_map(&kept);
    let all = list_words(lists, n);
    let in_order = sort(&all);
    let main = drop_tails(&in_order);
    let mut table = SiblingTableWriter::new(num);
    link_chunks(&map, &mut table);
    link_words(&map, &main, &mut table);
    assert(words.len() == n);
    assert(table.pairs() =~= all_links(map.docs(), words));
    let sibling_v3 = table.serialize();
    DerivedFiles { posmap, word_pos_map, sibling_v3 }
}

} // verus!
