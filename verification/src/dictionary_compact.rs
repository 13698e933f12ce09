//! Merging the parts of a dictionary into one generation.
//!
//! The keys of all parts come in order, each with the parts that hold it. A
//! key that one part holds has its record copied; the parents of one that
//! several hold are joined and written anew.

use vstd::prelude::*;
use vstd::string::*;
use vstd::utf8::*;

use crate::bytes;
use crate::bytes::push_bytes;
use crate::dictionary_lookup;
use crate::dictionary_lookup::ParentEntryV3;
use crate::dictionary_names;
use crate::dictionary_names::{GENERATION_EXTENSIONS, dictionary_file_name};
use crate::newtexts;
use crate::newtexts::encode_newtexts;
use crate::order;
use crate::order::{Ordered, sort};
use crate::parents_table;
use crate::parents_table::{push_record, read_record};
use crate::termtexts_v3;
use crate::termtexts_v3::{IdEntry, MergeError, TermMetaV3, TermTextsReaderV3, can_count, collect_merged, write_merged};
use crate::text::{str_from, str_len, str_upto};

verus! {

/// What a merge did.
#[derive(Debug, Clone, Copy, PartialEq, Eq, Structural)]
pub struct CompactReport {
    /// Parts that had the field.
    pub parts: usize,
    /// Keys of the merged part.
    pub keys: u64,
    /// How many of these several parts had.
    pub keys_merged: u64,
    /// Texts of the merged part.
    pub texts: u32,
    /// Bytes of the merged suffixes.
    pub sfx_bytes: u64,
    /// Bytes of the merged texts.
    pub termtexts_bytes: u64,
    /// Nanoseconds the suffixes took.
    pub fst_ns: u64,
    /// Nanoseconds the texts took.
    pub texts_ns: u64,
}

impl Default for CompactReport {
    fn default() -> (r: Self)
        ensures
            r == empty_report(0),
    {
        CompactReport {
            parts: 0,
            keys: 0,
            keys_merged: 0,
            texts: 0,
            sfx_bytes: 0,
            termtexts_bytes: 0,
            fst_ns: 0,
            texts_ns: 0,
        }
    }
}

/// The report of a merge that wrote nothing.
pub open spec fn empty_report(parts: usize) -> CompactReport {
    CompactReport {
        parts,
        keys: 0,
        keys_merged: 0,
        texts: 0,
        sfx_bytes: 0,
        termtexts_bytes: 0,
        fst_ns: 0,
        texts_ns: 0,
    }
}

/// The report of a merge, from those of its two passes.
pub fn combine_reports(parts: usize, sfx: &CompactReport, texts: &CompactReport) -> (r: CompactReport)
    ensures
        r == (CompactReport {
            parts,
            keys: sfx.keys,
            keys_merged: sfx.keys_merged,
            sfx_bytes: sfx.sfx_bytes,
            fst_ns: sfx.fst_ns,
            texts: texts.texts,
            termtexts_bytes: texts.termtexts_bytes,
            texts_ns: texts.texts_ns,
        }),
{
    CompactReport {
        parts,
        keys: sfx.keys,
        keys_merged: sfx.keys_merged,
        sfx_bytes: sfx.sfx_bytes,
        fst_ns: sfx.fst_ns,
        texts: texts.texts,
        termtexts_bytes: texts.termtexts_bytes,
        texts_ns: texts.texts_ns,
    }
}

/// The generations with their bytes first.
pub open spec fn by_size(live: Seq<(u64, u64)>) -> Seq<(u64, u64)> {
    Seq::new(live.len(), |i: int| (live[i].1, live[i].0))
}

/// The generations of sized entries.
pub open spec fn generations_of(s: Seq<(u64, u64)>) -> Seq<u64> {
    Seq::new(s.len(), |i: int| s[i].1)
}

/// How many generations are allowed: at least one.
pub open spec fn allowed(max_generations: usize) -> int {
    if max_generations == 0 {
        1
    } else {
        max_generations as int
    }
}

/// How many generations there are to be after a merge.
pub open spec fn aimed_at(max_generations: usize) -> int {
    if allowed(max_generations) / 2 == 0 {
        1
    } else {
        allowed(max_generations) / 2
    }
}

/// The generations to merge: the smallest ones, as many as it takes to bring
/// their number down to half of what is allowed.
pub open spec fn smallest(live: Seq<(u64, u64)>, max_generations: usize) -> Seq<u64> {
    order::sorted(
        generations_of(order::sorted(by_size(live)).take(live.len() - aimed_at(max_generations) + 1)),
    )
}

/// The generations to merge, given each one's number and bytes; `None` where
/// there are not too many.
pub fn choose_compaction(live: &Vec<(u64, u64)>, max_generations: usize) -> (r: Option<Vec<u64>>)
    ensures
        r is Some <==> live@.len() > allowed(max_generations),
        r matches Some(chosen) ==> chosen@ == smallest(live@, max_generations),
{
    let max: usize = if max_generations == 0 {
        1
    } else {
        max_generations
    };
    if live.len() <= max {
        return None;
    }
    let target: usize = if max / 2 == 0 {
        1
    } else {
        max / 2
    };
    let count: usize = live.len() - target + 1;
    let mut sized: Vec<(u64, u64)> = Vec::new();
    let mut i: usize = 0;
    while i < live.len()
        invariant
            i <= live@.len(),
            sized@ =~= by_size(live@).take(i as int),
        decreases live@.len() - i,
    {
        sized.push((live[i].1, live[i].0));
        i += 1;
    }
    assert(sized@ =~= by_size(live@));
    let in_order = sort(&sized);
    proof {
        order::lemma_sorted(by_size(live@));
    }
    let mut chosen: Vec<u64> = Vec::new();
    let mut k: usize = 0;
    while k < count
        invariant
            k <= count <= in_order@.len(),
            chosen@ =~= generations_of(in_order@.take(k as int)),
        decreases count - k,
    {
        chosen.push(in_order[k].1);
        k += 1;
    }
    Some(sort(&chosen))
}

/// A merge takes no generation that is larger than one it leaves.
pub proof fn merged_generations_are_the_smallest(
    live: Seq<(u64, u64)>,
    max_generations: usize,
    i: int,
    j: int,
)
    requires
        live.len() > allowed(max_generations),
        0 <= i < live.len() - aimed_at(max_generations) + 1 <= j < live.len(),
    ensures
        order::sorted(by_size(live))[i].not_after(order::sorted(by_size(live))[j]),
        smallest(live, max_generations).len() == live.len() - aimed_at(max_generations) + 1,
        live.len() - smallest(live, max_generations).len() + 1 == aimed_at(max_generations),
{
    let s = by_size(live);
    order::lemma_sorted(s);
    let n = live.len() - aimed_at(max_generations) + 1;
    order::lemma_sorted(generations_of(order::sorted(s).take(n)));
    assert(order::sorted(s)[i].not_after(order::sorted(s)[j]));
}

/// The suffixes of one part.
pub struct SfxPart<'a> {
    /// The table of its records.
    pub table: &'a [u8],
    /// Whether its records have the layout that is written.
    pub current: bool,
}

/// A key of the union of the parts, with the parts that hold it and the value
/// each has for it.
pub struct UnionEntry {
    /// The key.
    pub key: Vec<u8>,
    /// The parts and their values.
    pub held: Vec<(usize, u64)>,
}

/// The merged suffixes.
pub struct MergedSuffixes {
    /// Each key with where its record starts.
    pub entries: Vec<(Vec<u8>, u64)>,
    /// The table of the records.
    pub table: Vec<u8>,
    /// Number of keys.
    pub keys: u64,
    /// How many of these several parts had.
    pub keys_merged: u64,
}

/// Lists, one behind the other.
pub open spec fn joined_parents(lists: Seq<Vec<ParentEntryV3>>) -> Seq<ParentEntryV3>
    decreases lists.len(),
{
    if lists.len() == 0 {
        Seq::empty()
    } else {
        joined_parents(lists.drop_last()) + lists.last()@
    }
}

/// Whether the record is copied as it is: one part holds the key, in the
/// layout that is written.
pub open spec fn copied<'a>(parts: Seq<SfxPart<'a>>, e: UnionEntry) -> bool {
    e.held@.len() == 1 && parts[e.held@[0].0 as int].current
}

/// Whether the list is what `decode` gives for a value of a part and a key.
pub open spec fn decoded<D: Fn(usize, u64, Vec<u8>) -> Vec<ParentEntryV3>>(
    decode: D,
    held: (usize, u64),
    key: Seq<u8>,
    list: Vec<ParentEntryV3>,
) -> bool {
    exists|k: Vec<u8>| k@ == key && #[trigger] call_ensures(decode, (held.0, held.1, k), list)
}

/// Whether the lists are the parents that the parts have for the key.
pub open spec fn parents_of<D: Fn(usize, u64, Vec<u8>) -> Vec<ParentEntryV3>>(
    decode: D,
    e: UnionEntry,
    lists: Seq<Vec<ParentEntryV3>>,
) -> bool {
    &&& lists.len() == e.held@.len()
    &&& forall|i: int|
        0 <= i < lists.len() ==> decoded(decode, e.held@[i], e.key@, #[trigger] lists[i])
}

/// Whether the bytes are what the parents of the key are written as.
pub open spec fn written_anew<
    D: Fn(usize, u64, Vec<u8>) -> Vec<ParentEntryV3>,
    E: Fn(Vec<ParentEntryV3>, Vec<u8>) -> Vec<u8>,
>(decode: D, encode: E, e: UnionEntry, record: Seq<u8>) -> bool {
    exists|lists: Seq<Vec<ParentEntryV3>>, all: Vec<ParentEntryV3>, k: Vec<u8>, out: Vec<u8>|
        #![trigger parents_of(decode, e, lists), call_ensures(encode, (all, k), out)]
        parents_of(decode, e, lists) && all@ == joined_parents(lists) && k@ == e.key@
            && call_ensures(encode, (all, k), out) && out@ == record
}

/// Whether the bytes are the record of the key.
pub open spec fn is_record<
    'a,
    D: Fn(usize, u64, Vec<u8>) -> Vec<ParentEntryV3>,
    E: Fn(Vec<ParentEntryV3>, Vec<u8>) -> Vec<u8>,
>(parts: Seq<SfxPart<'a>>, decode: D, encode: E, e: UnionEntry, record: Seq<u8>) -> bool {
    if copied(parts, e) {
        parents_table::record_at(parts[e.held@[0].0 as int].table@, e.held@[0].1 as int) == Some(record)
    } else {
        written_anew(decode, encode, e, record)
    }
}

/// How many of the first `n` keys several parts hold.
pub open spec fn shared_keys(union: Seq<UnionEntry>, n: int) -> int
    decreases n,
{
    if n <= 0 {
        0
    } else {
        shared_keys(union, n - 1) + if union[n - 1].held@.len() == 1 {
            0int
        } else {
            1
        }
    }
}

/// Whether every value leads into its part, and to a whole record where that
/// is copied.
pub open spec fn union_ok<'a>(parts: Seq<SfxPart<'a>>, union: Seq<UnionEntry>) -> bool {
    forall|i: int|
        0 <= i < union.len() ==> {
            let e = #[trigger] union[i];
            &&& forall|k: int| 0 <= k < e.held@.len() ==> (#[trigger] e.held@[k]).0 < parts.len()
            &&& copied(parts, e) ==> parents_table::record_at(
                parts[e.held@[0].0 as int].table@,
                e.held@[0].1 as int,
            ) is Some && e.held@[0].1 <= usize::MAX
        }
}

/// The merged suffixes: a record per key, found where the key says.
pub open spec fn merge_of<
    'a,
    D: Fn(usize, u64, Vec<u8>) -> Vec<ParentEntryV3>,
    E: Fn(Vec<ParentEntryV3>, Vec<u8>) -> Vec<u8>,
>(
    parts: Seq<SfxPart<'a>>,
    union: Seq<UnionEntry>,
    decode: D,
    encode: E,
    records: Seq<Seq<u8>>,
    m: MergedSuffixes,
) -> bool {
    &&& records.len() == union.len()
    &&& forall|i: int|
        0 <= i < union.len() ==> is_record(parts, decode, encode, #[trigger] union[i], records[i])
    &&& m.table@ == parents_table::table_of(records)
    &&& m.entries@.len() == union.len()
    &&& forall|i: int|
        0 <= i < union.len() ==> (#[trigger] m.entries@[i]).0@ == union[i].key@ && m.entries@[i].1
            == parents_table::record_start(records, i)
    &&& m.keys == union.len()
    &&& m.keys_merged == shared_keys(union, union.len() as int)
}

fn copy_bytes(b: &Vec<u8>) -> (r: Vec<u8>)
    ensures
        r@ == b@,
{
    let mut r: Vec<u8> = Vec::new();
    push_bytes(&mut r, b.as_slice());
    assert(r@ =~= b@);
    r
}

/// The parents of a key, part after part, written anew.
fn rewrite<
    D: Fn(usize, u64, Vec<u8>) -> Vec<ParentEntryV3>,
    E: Fn(Vec<ParentEntryV3>, Vec<u8>) -> Vec<u8>,
>(e: &UnionEntry, decode: &D, encode: &E) -> (record: Vec<u8>)
    requires
        forall|p: usize, v: u64, k: Vec<u8>| #[trigger] call_requires(*decode, (p, v, k)),
        forall|a: Vec<ParentEntryV3>, k: Vec<u8>| #[trigger] call_requires(*encode, (a, k)),
    ensures
        written_anew(*decode, *encode, *e, record@),
{
    let mut all: Vec<ParentEntryV3> = Vec::new();
    let ghost mut lists: Seq<Vec<ParentEntryV3>> = Seq::empty();
    let mut i: usize = 0;
    while i < e.held.len()
        invariant
            i <= e.held@.len(),
            lists.len() == i,
            forall|p: usize, v: u64, k: Vec<u8>| #[trigger] call_requires(*decode, (p, v, k)),
            forall|j: int|
                0 <= j < i ==> decoded(*decode, e.held@[j], e.key@, #[trigger] lists[j]),
            all@ == joined_parents(lists),
        decreases e.held@.len() - i,
    {
        let (p, v) = e.held[i];
        let key = copy_bytes(&e.key);
        let ghost k = key;
        let some = decode(p, v, key);
        let ghost before = all@;
        let mut j: usize = 0;
        while j < some.len()
            invariant
                j <= some@.len(),
                all@ =~= before + some@.take(j as int),
            decreases some@.len() - j,
        {
            all.push(some[j]);
            j += 1;
        }
        proof {
            assert(some@.take(j as int) =~= some@);
            let more = lists.push(some);
            assert(more.drop_last() =~= lists);
            assert(more.last() == some);
            assert(call_ensures(*decode, (p, v, k), some));
            assert(decoded(*decode, (p, v), e.key@, some));
            assert forall|j: int| 0 <= j < i + 1 implies decoded(
                *decode,
                e.held@[j],
                e.key@,
                #[trigger] more[j],
            ) by {
                if j < i {
                    assert(more[j] == lists[j]);
                }
            }
            lists = more;
        }
        i += 1;
    }
    let key = copy_bytes(&e.key);
    let ghost k = key;
    let ghost given = all;
    let record = encode(all, key);
    proof {
        assert(parents_of(*decode, *e, lists));
        assert(call_ensures(*encode, (given, k), record));
    }
    record
}

/// Merges the suffixes of the parts: `decode` gives the parents a part has for
/// a key, `encode` writes parents as a record.
pub fn merge_sfx<
    'a,
    D: Fn(usize, u64, Vec<u8>) -> Vec<ParentEntryV3>,
    E: Fn(Vec<ParentEntryV3>, Vec<u8>) -> Vec<u8>,
>(
    parts: &Vec<SfxPart<'a>>,
    union: &Vec<UnionEntry>,
    decode: &D,
    encode: &E,
) -> (m: MergedSuffixes)
    requires
        union_ok(parts@, union@),
        forall|p: usize, v: u64, k: Vec<u8>| #[trigger] call_requires(*decode, (p, v, k)),
        forall|a: Vec<ParentEntryV3>, k: Vec<u8>| #[trigger] call_requires(*encode, (a, k)),
    ensures
        exists|records: Seq<Seq<u8>>| #[trigger]
            merge_of(parts@, union@, *decode, *encode, records, m),
{
    let mut entries: Vec<(Vec<u8>, u64)> = Vec::new();
    let mut table: Vec<u8> = Vec::new();
    let mut keys: u64 = 0;
    let mut keys_merged: u64 = 0;
    let ghost mut records: Seq<Seq<u8>> = Seq::empty();
    let n: usize = union.len();
    let mut i: usize = 0;
    proof {
        assert(parents_table::frames(records) =~= Seq::<Seq<u8>>::empty());
        assert(table@ =~= parents_table::table_of(records));
    }
    while i < n
        invariant
            i <= n,
            n == union@.len(),
            keys == i,
            keys_merged == shared_keys(union@, i as int),
            keys_merged <= i,
            union_ok(parts@, union@),
            forall|p: usize, v: u64, k: Vec<u8>| #[trigger] call_requires(*decode, (p, v, k)),
            forall|a: Vec<ParentEntryV3>, k: Vec<u8>| #[trigger] call_requires(*encode, (a, k)),
            records.len() == i,
            entries@.len() == i,
            table@ == parents_table::table_of(records),
            forall|j: int|
                0 <= j < i ==> is_record(
                    parts@,
                    *decode,
                    *encode,
                    #[trigger] union@[j],
                    records[j],
                ),
            forall|j: int|
                0 <= j < i ==> (#[trigger] entries@[j]).0@ == union@[j].key@ && entries@[j].1
                    == parents_table::record_start(records, j),
        decreases n - i,
    {
        let e = &union[i];
        assert(union@[i as int] == *e);
        let one = e.held.len() == 1;
        let verbatim = if one {
            let (p, _) = e.held[0];
            assert(e.held@[0].0 < parts@.len());
            parts[p].current
        } else {
            false
        };
        let at: u64 = table.len() as u64;
        let ghost record: Seq<u8>;
        if verbatim {
            let (p, v) = e.held[0];
            let r = read_record(parts[p].table, v as usize).unwrap();
            push_record(&mut table, r);
            proof {
                record = r@;
            }
        } else {
            let r = rewrite(e, decode, encode);
            push_record(&mut table, r.as_slice());
            proof {
                record = r@;
            }
        }
        entries.push((copy_bytes(&e.key), at));
        keys = keys + 1;
        if !one {
            keys_merged = keys_merged + 1;
        }
        proof {
            let more = records.push(record);
            assert(parents_table::frames(more).drop_last() =~= parents_table::frames(records));
            assert(parents_table::frames(more).last() == parents_table::framed(record));
            assert(table@ =~= parents_table::table_of(more));
            assert forall|j: int| 0 <= j < i + 1 implies is_record(
                parts@,
                *decode,
                *encode,
                #[trigger] union@[j],
                more[j],
            ) by {
                if j < i {
                    assert(more[j] == records[j]);
                }
            }
            assert forall|j: int| 0 <= j < i + 1 implies (#[trigger] entries@[j]).0@ == union@[j].key@
                && entries@[j].1 == parents_table::record_start(more, j) by {
                assert(parents_table::frames(more).take(j) =~= parents_table::frames(records).take(j));
                if j == i {
                    assert(parents_table::frames(records).take(j) =~= parents_table::frames(records));
                }
            }
            records = more;
        }
        i += 1;
    }
    let m = MergedSuffixes { entries, table, keys, keys_merged };
    assert(merge_of(parts@, union@, *decode, *encode, records, m));
    m
}

/// Every key of merged suffixes leads to its record.
pub proof fn merged_keys_lead_to_their_records<
    'a,
    D: Fn(usize, u64, Vec<u8>) -> Vec<ParentEntryV3>,
    E: Fn(Vec<ParentEntryV3>, Vec<u8>) -> Vec<u8>,
>(
    parts: Seq<SfxPart<'a>>,
    union: Seq<UnionEntry>,
    decode: D,
    encode: E,
    records: Seq<Seq<u8>>,
    m: MergedSuffixes,
    i: int,
)
    requires
        merge_of(parts, union, decode, encode, records, m),
        0 <= i < union.len(),
        records[i].len() <= u64::MAX,
    ensures
        m.entries@[i].0@ == union[i].key@,
        parents_table::record_at(m.table@, m.entries@[i].1 as int) == Some(records[i]),
        is_record(parts, decode, encode, union[i], records[i]),
{
    parents_table::written_record_is_found(records, i);
    assert(m.entries@[i].1 == parents_table::record_start(records, i));
    assert(is_record(parts, decode, encode, union[i], records[i]));
}

/// Why texts could not be merged.
#[derive(Debug, Clone, Copy, PartialEq, Eq, Structural)]
pub enum TextsError {
    /// The texts of a part do not open.
    Unreadable,
    /// The merged texts do not fit in a file.
    Merge(MergeError),
}

/// What each part's file holds, where all open.
pub open spec fn opened(parts: Seq<Seq<u8>>) -> bool {
    forall|i: int| 0 <= i < parts.len() ==> termtexts_v3::file_of(#[trigger] parts[i]) is Some
}

/// The entries of each part.
pub open spec fn part_entries(parts: Seq<Seq<u8>>) -> Seq<Seq<IdEntry>> {
    Seq::new(parts.len(), |i: int| termtexts_v3::all_entries(seq![termtexts_v3::file_of(parts[i])->0]))
}

/// Whether the texts of every part that opens can be gone through, in the
/// order of their ids.
pub open spec fn texts_ok(parts: Seq<Seq<u8>>) -> bool {
    &&& forall|i: int|
        0 <= i < parts.len() && termtexts_v3::file_of(#[trigger] parts[i]) is Some ==> {
            let f = termtexts_v3::file_of(parts[i])->0;
            f.countable() && f.identified() && termtexts_v3::ascending_ids(termtexts_v3::all_entries(seq![f]))
        }
    &&& opened(parts) ==> forall|i: int|
        0 <= i < termtexts_v3::merged(part_entries(parts)).len() ==> (#[trigger] termtexts_v3::merged(
            part_entries(parts),
        )[i]).meta.overlap_len < 16
}

/// Whether the texts of the parts can be merged.
pub fn texts_can_merge(parts: &Vec<Vec<u8>>) -> (r: bool)
    ensures
        r ==> texts_ok(bytes::deep(parts@)),
        r <== texts_ok(bytes::deep(parts@)) && (forall|i: int|
            0 <= i < parts@.len() ==> termtexts_v3::counts_fit((#[trigger] parts@[i])@)),
{
    let ghost all = bytes::deep(parts@);
    let mut readers: Vec<TermTextsReaderV3> = Vec::new();
    let mut whole = true;
    let mut i: usize = 0;
    while i < parts.len()
        invariant
            i <= parts@.len(),
            all == bytes::deep(parts@),
            all.len() == parts@.len(),
            forall|k: int|
                0 <= k < i && termtexts_v3::file_of(#[trigger] all[k]) is Some ==> {
                    let f = termtexts_v3::file_of(all[k])->0;
                    &&& f.countable()
                    &&& f.identified()
                    &&& termtexts_v3::ascending_ids(termtexts_v3::all_entries(seq![f]))
                },
            whole <==> forall|k: int| 0 <= k < i ==> termtexts_v3::file_of(#[trigger] all[k]) is Some,
            whole ==> readers@.len() == i,
            whole ==> forall|k: int|
                0 <= k < i ==> (#[trigger] readers@[k]).wf() && readers@[k].files() == seq![
                    termtexts_v3::file_of(all[k])->0,
                ],
        decreases parts@.len() - i,
    {
        assert(all[i as int] == parts@[i as int]@);
        if !can_count(parts[i].as_slice()) {
            return false;
        }
        match TermTextsReaderV3::open(parts[i].as_slice()) {
            Some(t) => {
                let ghost f = termtexts_v3::file_of(all[i as int])->0;
                assert(t.files()[0] == f);
                if !t.is_identified() || !ascend(&t.iter()) {
                    return false;
                }
                readers.push(t);
            },
            None => {
                assert(termtexts_v3::file_of(all[i as int]) is None);
                whole = false;
            },
        }
        i += 1;
    }
    if !whole {
        return true;
    }
    proof {
        assert(termtexts_v3::lists_of(readers@) =~= part_entries(all));
        assert forall|k: int| 0 <= k < readers@.len() implies {
            &&& (#[trigger] readers@[k]).wf()
            &&& termtexts_v3::ascending_ids(termtexts_v3::all_entries(readers@[k].files()))
            &&& forall|q: int|
                0 <= q < readers@[k].files().len() ==> (#[trigger] readers@[k].files()[q]).identified()
        } by {
            assert(termtexts_v3::file_of(all[k]) is Some);
        }
    }
    let union = collect_merged(readers.as_slice());
    let ghost m = termtexts_v3::merged(part_entries(all));
    let mut j: usize = 0;
    while j < union.len()
        invariant
            j <= union@.len(),
            m == termtexts_v3::as_entries(union@),
            m == termtexts_v3::merged(part_entries(all)),
            all == bytes::deep(parts@),
            opened(all),
            forall|k: int| 0 <= k < j ==> (#[trigger] m[k]).meta.overlap_len < 16,
        decreases union@.len() - j,
    {
        assert(m[j as int].meta == union@[j as int].2);
        if union[j].2.overlap_len >= 16 {
            assert(!(m[j as int].meta.overlap_len < 16));
            return false;
        }
        j += 1;
    }
    true
}

/// Whether the ids of entries ascend.
fn ascend(entries: &Vec<(u32, &str, TermMetaV3)>) -> (r: bool)
    ensures
        r == termtexts_v3::ascending_ids(termtexts_v3::as_entries(entries@)),
{
    let ghost e = termtexts_v3::as_entries(entries@);
    let mut i: usize = 1;
    while i < entries.len()
        invariant
            1 <= i,
            e == termtexts_v3::as_entries(entries@),
            i <= entries@.len() || entries@.len() == 0,
            forall|a: int, b: int|
                0 <= a < b < i && b < e.len() ==> (#[trigger] e[a]).id < (#[trigger] e[b]).id,
        decreases entries@.len() - i,
    {
        assert(e[i - 1].id == entries@[i - 1].0);
        assert(e[i as int].id == entries@[i as int].0);
        if entries[i - 1].0 >= entries[i].0 {
            return false;
        }
        i += 1;
    }
    true
}

/// Merges the texts of the parts into one file, and reports how many there are
/// and how many bytes.
pub fn merge_termtexts(parts: &Vec<Vec<u8>>) -> (r: Result<(Vec<u8>, CompactReport), TextsError>)
    requires
        texts_ok(bytes::deep(parts@)),
    ensures
        if !opened(bytes::deep(parts@)) {
            r == Err::<(Vec<u8>, CompactReport), TextsError>(TextsError::Unreadable)
        } else {
            match termtexts_v3::merge_outcome(termtexts_v3::merged(part_entries(bytes::deep(parts@)))) {
                Ok((file, n)) => r matches Ok((b, report)) && b@ == file && report == (
                CompactReport { texts: n as u32, termtexts_bytes: file.len() as u64, ..empty_report(0) }),
                Err(e) => r == Err::<(Vec<u8>, CompactReport), TextsError>(TextsError::Merge(e)),
            }
        },
{
    let ghost all = bytes::deep(parts@);
    let mut readers: Vec<TermTextsReaderV3> = Vec::new();
    let mut i: usize = 0;
    while i < parts.len()
        invariant
            i <= parts@.len(),
            all == bytes::deep(parts@),
            all.len() == parts@.len(),
            texts_ok(all),
            readers@.len() == i,
            forall|k: int| 0 <= k < i ==> termtexts_v3::file_of(#[trigger] all[k]) is Some,
            forall|k: int|
                0 <= k < i ==> (#[trigger] readers@[k]).wf() && readers@[k].files() == seq![
                    termtexts_v3::file_of(all[k])->0,
                ],
        decreases parts@.len() - i,
    {
        assert(all[i as int] == parts@[i as int]@);
        match TermTextsReaderV3::open(parts[i].as_slice()) {
            Some(t) => {
                readers.push(t);
            },
            None => {
                assert(termtexts_v3::file_of(all[i as int]) is None);
                return Err(TextsError::Unreadable);
            },
        }
        i += 1;
    }
    proof {
        assert(termtexts_v3::lists_of(readers@) =~= part_entries(all));
        assert forall|k: int| 0 <= k < readers@.len() implies {
            &&& (#[trigger] readers@[k]).wf()
            &&& termtexts_v3::ascending_ids(termtexts_v3::all_entries(readers@[k].files()))
            &&& forall|q: int|
                0 <= q < readers@[k].files().len() ==> (#[trigger] readers@[k].files()[q]).identified()
        } by {
            assert(termtexts_v3::file_of(all[k]) is Some);
        }
    }
    match write_merged(readers.as_slice()) {
        Ok((file, n)) => {
            let size: u64 = file.len() as u64;
            let report = CompactReport {
                parts: 0,
                keys: 0,
                keys_merged: 0,
                texts: n,
                sfx_bytes: 0,
                termtexts_bytes: size,
                fst_ns: 0,
                texts_ns: 0,
            };
            Ok((file, report))
        },
        Err(e) => Err(TextsError::Merge(e)),
    }
}

/// A token as it goes into the suffixes of a generation.
pub struct SuffixToken<'a> {
    /// Whether it is a word.
    pub is_word_stripped: bool,
    /// Its text: of a word the content only.
    pub text: &'a str,
    /// The overlap of a word.
    pub overlap: &'a str,
    /// Its id.
    pub ordinal: u64,
    /// Its shape.
    pub meta: TermMetaV3,
}

/// Whether a word's overlap starts between characters.
pub open spec fn entry_splits(text: Seq<char>, m: TermMetaV3) -> bool {
    m.is_word_stripped ==> dictionary_lookup::splits(text, true, m.own_len, m.overlap_len)
}

/// Whether a token is what the entry says.
pub open spec fn token_of<'a>(t: SuffixToken<'a>, e: (u32, String, TermMetaV3)) -> bool {
    let b = encode_utf8(e.1@);
    let end = dictionary_lookup::own_end(b, true, e.2.own_len, e.2.overlap_len);
    &&& t.is_word_stripped == e.2.is_word_stripped
    &&& t.ordinal == e.0
    &&& t.meta == e.2
    &&& if e.2.is_word_stripped {
        encode_utf8(t.text@) == b.subrange(0, end) && encode_utf8(t.overlap@) == b.subrange(
            end,
            b.len() as int,
        )
    } else {
        t.text@ == e.1@ && t.overlap@.len() == 0
    }
}

/// The tokens that go into the suffixes of a generation of these entries: a
/// word as its content and its overlap, a chunk as it is.
pub fn suffix_tokens<'a>(entries: &'a Vec<(u32, String, TermMetaV3)>) -> (out: Vec<SuffixToken<'a>>)
    requires
        forall|i: int|
            0 <= i < entries@.len() ==> entry_splits((#[trigger] entries@[i]).1@, entries@[i].2),
    ensures
        out@.len() == entries@.len(),
        forall|i: int| 0 <= i < out@.len() ==> token_of(#[trigger] out@[i], entries@[i]),
{
    let mut out: Vec<SuffixToken<'a>> = Vec::new();
    let mut i: usize = 0;
    while i < entries.len()
        invariant
            i <= entries@.len(),
            forall|i: int|
                0 <= i < entries@.len() ==> entry_splits(
                    (#[trigger] entries@[i]).1@,
                    entries@[i].2,
                ),
            out@.len() == i,
            forall|k: int| 0 <= k < i ==> token_of(#[trigger] out@[k], entries@[k]),
        decreases entries@.len() - i,
    {
        let e = &entries[i];
        assert(entry_splits(entries@[i as int].1@, entries@[i as int].2));
        let text = e.1.as_str();
        let m = e.2;
        let t = if m.is_word_stripped {
            let end: usize = str_len(text).saturating_sub(m.overlap_len as usize);
            SuffixToken {
                is_word_stripped: true,
                text: str_upto(text, end),
                overlap: str_from(text, end),
                ordinal: e.0 as u64,
                meta: m,
            }
        } else {
            proof {
                reveal_strlit("");
            }
            SuffixToken {
                is_word_stripped: false,
                text,
                overlap: "",
                ordinal: e.0 as u64,
                meta: m,
            }
        };
        out.push(t);
        i += 1;
    }
    out
}

/// The ids of entries.
pub open spec fn entry_ids(entries: Seq<(u32, String, TermMetaV3)>) -> Seq<u32> {
    Seq::new(entries.len(), |i: int| entries[i].0)
}

/// The texts of entries, as bytes.
pub open spec fn entry_bytes(entries: Seq<(u32, String, TermMetaV3)>) -> Seq<Seq<u8>> {
    Seq::new(entries.len(), |i: int| encode_utf8(entries[i].1@))
}

/// The shapes of entries.
pub open spec fn entry_metas(entries: Seq<(u32, String, TermMetaV3)>) -> Seq<TermMetaV3> {
    Seq::new(entries.len(), |i: int| entries[i].2)
}

/// The files of a generation of one field: its suffixes, as they were built,
/// and its texts with their ids.
pub fn write_generation(
    generation: u64,
    field_id: u32,
    sfx: Vec<u8>,
    entries: &Vec<(u32, String, TermMetaV3)>,
) -> (files: Vec<(String, Vec<u8>)>)
    requires
        termtexts_v3::increasing(entry_ids(entries@)),
        termtexts_v3::writable(entry_bytes(entries@), entry_metas(entries@), Some(entry_ids(entries@))),
    ensures
        files@.len() == 2,
        files@[0].0@ == dictionary_names::file_text(generation, field_id, seq!['s', 'f', 'x']),
        files@[0].1@ == sfx@,
        files@[1].0@ == dictionary_names::file_text(
            generation,
            field_id,
            seq!['t', 'e', 'r', 'm', 't', 'e', 'x', 't', 's'],
        ),
        files@[1].1@ == termtexts_v3::texts_file(
            entry_bytes(entries@),
            entry_metas(entries@),
            Some(entry_ids(entries@)),
        ),
        files@[1].1@ == newtexts::entries_file(newtexts::read_entries(entries@)),
{
    proof {
        reveal_strlit("sfx");
        reveal_strlit("termtexts");
        assert("sfx"@ =~= seq!['s', 'f', 'x']);
        assert("termtexts"@ =~= seq!['t', 'e', 'r', 'm', 't', 'e', 'x', 't', 's']);
    }
    let mut borrowed: Vec<(u32, &str, TermMetaV3)> = Vec::new();
    let mut i: usize = 0;
    while i < entries.len()
        invariant
            i <= entries@.len(),
            borrowed@.len() == i,
            forall|k: int|
                0 <= k < i ==> (#[trigger] borrowed@[k]).0 == entries@[k].0 && borrowed@[k].1@
                    == entries@[k].1@ && borrowed@[k].2 == entries@[k].2,
        decreases entries@.len() - i,
    {
        borrowed.push((entries[i].0, entries[i].1.as_str(), entries[i].2));
        i += 1;
    }
    proof {
        assert(newtexts::new_ids(borrowed@) =~= entry_ids(entries@));
        assert(newtexts::new_bytes(borrowed@) =~= entry_bytes(entries@));
        assert(newtexts::new_metas(borrowed@) =~= entry_metas(entries@));
        let w = newtexts::read_entries(entries@);
        assert(termtexts_v3::entry_ids(w) =~= entry_ids(entries@));
        assert(termtexts_v3::entry_texts(w) =~= entry_bytes(entries@));
        assert(termtexts_v3::entry_metas(w) =~= entry_metas(entries@));
    }
    let texts = encode_newtexts(&borrowed);
    let mut files: Vec<(String, Vec<u8>)> = Vec::new();
    files.push((dictionary_file_name(generation, field_id, "sfx"), sfx));
    files.push((dictionary_file_name(generation, field_id, "termtexts"), texts));
    files
}

/// The extensions of what is removed of a generation: those of its files, and
/// those of what an interrupted merge may leave.
pub open spec fn leftover_ext(k: int) -> Seq<char> {
    if k < 3 {
        GENERATION_EXTENSIONS@[k]@
    } else if k == 3 {
        "sfx.fst.tmp"@
    } else {
        "sfx.parents.tmp"@
    }
}

fn leftover_name(k: usize) -> (r: &'static str)
    requires
        k < 5,
    ensures
        r@ == leftover_ext(k as int),
{
    if k < 3 {
        GENERATION_EXTENSIONS[k]
    } else if k == 3 {
        "sfx.fst.tmp"
    } else {
        "sfx.parents.tmp"
    }
}

/// The files of a generation that are removed before its number is used
/// again: for each field those it is made of and those of an interrupted merge.
pub fn remove_leftovers(generation: u64, field_ids: &Vec<u32>) -> (names: Vec<String>)
    ensures
        names@.len() == 5 * field_ids@.len(),
        forall|i: int|
            0 <= i < names@.len() ==> (#[trigger] names@[i])@ == dictionary_names::file_text(
                generation,
                field_ids@[i / 5],
                leftover_ext(i % 5),
            ),
{
    let mut names: Vec<String> = Vec::new();
    let mut f: usize = 0;
    while f < field_ids.len()
        invariant
            f <= field_ids@.len(),
            names@.len() == 5 * f,
            forall|i: int|
                0 <= i < names@.len() ==> (#[trigger] names@[i])@ == dictionary_names::file_text(
                    generation,
                    field_ids@[i / 5],
                    leftover_ext(i % 5),
                ),
        decreases field_ids@.len() - f,
    {
        let mut k: usize = 0;
        while k < 5
            invariant
                k <= 5,
                f < field_ids@.len(),
                names@.len() == 5 * f + k,
                forall|i: int|
                    0 <= i < names@.len() ==> (#[trigger] names@[i])@ == dictionary_names::file_text(
                        generation,
                        field_ids@[i / 5],
                        leftover_ext(i % 5),
                    ),
            decreases 5 - k,
        {
            names.push(dictionary_file_name(generation, field_ids[f], leftover_name(k)));
            k += 1;
        }
        f += 1;
    }
    names
}

/// Law: every file of a generation is among those removed before its number is
/// used again.
pub proof fn leftovers_hold_the_generation(field_ids: Seq<u32>, f: int, k: int)
    requires
        0 <= f < field_ids.len(),
        0 <= k < 3,
    ensures
        0 <= 5 * f + k < 5 * field_ids.len(),
        field_ids[(5 * f + k) / 5] == field_ids[f],
        leftover_ext((5 * f + k) % 5) == GENERATION_EXTENSIONS@[k]@,
{
}

/// The sizes of the files that are there, together.
pub open spec fn size_sum(sizes: Seq<Option<u64>>) -> int
    decreases sizes.len(),
{
    if sizes.len() == 0 {
        0
    } else {
        size_sum(sizes.drop_last()) + match sizes.last() {
            Some(n) => n as int,
            None => 0,
        }
    }
}

/// The bytes of a generation, given the size of each of its files
/// (`generation_files`); one that is missing counts nothing.
pub fn generation_bytes(sizes: &Vec<Option<u64>>) -> (n: u64)
    requires
        size_sum(sizes@) <= u64::MAX,
    ensures
        n == size_sum(sizes@),
{
    let mut n: u64 = 0;
    let mut i: usize = 0;
    assert(sizes@.take(0) =~= Seq::<Option<u64>>::empty());
    while i < sizes.len()
        invariant
            i <= sizes@.len(),
            size_sum(sizes@) <= u64::MAX,
            n == size_sum(sizes@.take(i as int)),
        decreases sizes@.len() - i,
    {
        proof {
            let t = sizes@.take(i + 1);
            assert(t.drop_last() =~= sizes@.take(i as int));
            lemma_size_mono(sizes@, i + 1);
        }
        match sizes[i] {
            Some(k) => {
                n = n + k;
            },
            None => {},
        }
        i += 1;
    }
    assert(sizes@.take(i as int) =~= sizes@);
    n
}

proof fn lemma_size_mono(sizes: Seq<Option<u64>>, k: int)
    requires
        0 <= k <= sizes.len(),
    ensures
        size_sum(sizes.take(k)) <= size_sum(sizes),
    decreases sizes.len(),
{
    if k < sizes.len() {
        lemma_size_mono(sizes.drop_last(), k);
        assert(sizes.drop_last().take(k) =~= sizes.take(k));
    } else {
        assert(sizes.take(k) =~= sizes);
    }
}

/// The files of lists of entries.
pub open spec fn files_of(lists: Seq<Seq<IdEntry>>) -> Seq<Seq<u8>> {
    Seq::new(lists.len(), |j: int| newtexts::entries_file(lists[j]))
}

/// Whether one of the lists has the entry.
pub open spec fn in_a_list(lists: Seq<Seq<IdEntry>>, e: IdEntry) -> bool {
    exists|j: int| 0 <= j < lists.len() && #[trigger] lists[j].contains(e)
}

/// The first list that has the entry.
proof fn lemma_first_list(lists: Seq<Seq<IdEntry>>, e: IdEntry, j: int) -> (first: int)
    requires
        0 <= j < lists.len(),
        lists[j].contains(e),
    ensures
        0 <= first <= j,
        lists[first].contains(e),
        forall|a: int| 0 <= a < first ==> !#[trigger] lists[a].contains(e),
    decreases j,
{
    if exists|a: int| 0 <= a < j && #[trigger] lists[a].contains(e) {
        let a = choose|a: int| 0 <= a < j && #[trigger] lists[a].contains(e);
        lemma_first_list(lists, e, a)
    } else {
        j
    }
}

/// Law: merging the files of several lists of entries gives the file of all
/// their entries written at once.
pub proof fn merged_texts_are_those_written_at_once(lists: Seq<Seq<IdEntry>>, whole: Seq<IdEntry>)
    requires
        forall|j: int| 0 <= j < lists.len() ==> newtexts::entries_encodable(#[trigger] lists[j]),
        newtexts::entries_encodable(whole),
        forall|e: IdEntry| #[trigger]
            whole.contains(e) <==> in_a_list(lists, e),
    ensures
        opened(files_of(lists)),
        texts_ok(files_of(lists)),
        termtexts_v3::merge_outcome(termtexts_v3::merged(part_entries(files_of(lists)))) == Ok::<
            (Seq<u8>, int),
            MergeError,
        >((newtexts::entries_file(whole), whole.len() as int)),
{
    let parts = files_of(lists);
    let read = part_entries(parts);
    let all = whole;
    assert forall|j: int| 0 <= j < lists.len() implies {
        &&& termtexts_v3::file_of(#[trigger] parts[j]) matches Some(f) && f.countable()
            && f.identified()
        &&& read[j] == lists[j]
        &&& termtexts_v3::ascending_ids(read[j])
    } by {
        newtexts::written_entries_read_back(lists[j]);
        lemma_written_ascend(lists[j]);
    }
    lemma_written_ascend(whole);
    assert forall|i: int| 0 <= i < all.len() implies termtexts_v3::first_with_id(
        read,
        #[trigger] all[i],
    ) by {
        let e = all[i];
        assert(all.contains(e));
        assert(in_a_list(lists, e));
        let j = choose|j: int| 0 <= j < lists.len() && #[trigger] lists[j].contains(e);
        let first = lemma_first_list(lists, e, j);
        assert(parts[first] == newtexts::entries_file(lists[first]));
        let k = choose|k: int| 0 <= k < read[first].len() && read[first][k] == e;
        assert forall|a: int, b: int|
            #![trigger read[a][b]]
            0 <= a < first && 0 <= b < read[a].len() implies read[a][b].id != e.id by {
            let other = read[a][b];
            assert(parts[a] == newtexts::entries_file(lists[a]));
            assert(lists[a].contains(other));
            assert(in_a_list(lists, other));
            assert(all.contains(other));
            let m = choose|m: int| 0 <= m < all.len() && all[m] == other;
            if other.id == e.id {
                assert(all[m].id == all[i].id);
                assert(m == i);
            }
        }
        assert(read[first][k] == e);
    }
    assert forall|id: u32| #[trigger] termtexts_v3::holds_id(read, id) implies termtexts_v3::has_id(
        all,
        id,
    ) by {
        let (j, k) = choose|j: int, k: int|
            #![trigger read[j][k]]
            0 <= j < read.len() && 0 <= k < read[j].len() && read[j][k].id == id;
        let e = read[j][k];
        assert(parts[j] == newtexts::entries_file(lists[j]));
        assert(lists[j].contains(e));
        assert(in_a_list(lists, e));
        assert(all.contains(e));
        let m = choose|m: int| 0 <= m < all.len() && all[m] == e;
        assert(all[m].id == id);
    }
    assert forall|j: int| 0 <= j < read.len() implies termtexts_v3::ascending_ids(#[trigger] read[j]) by {
        assert(parts[j] == newtexts::entries_file(lists[j]));
    }
    termtexts_v3::the_union_is_unique(read, all);
    assert forall|i: int| 0 <= i < all.len() implies (#[trigger] all[i]).meta.overlap_len < 16 by {
        assert(termtexts_v3::entry_metas(whole)[i] == all[i].meta);
    }
}

proof fn lemma_written_ascend(w: Seq<IdEntry>)
    requires
        newtexts::entries_encodable(w),
    ensures
        termtexts_v3::ascending_ids(w),
{
    let ids = termtexts_v3::entry_ids(w);
    assert forall|i: int, j: int| 0 <= i < j < w.len() implies (#[trigger] w[i]).id < (#[trigger] w[j]).id by {
        assert(ids[i] < ids[j]);
    }
}

} // verus!
