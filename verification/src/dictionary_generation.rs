//! Building a generation of the dictionary: from texts, or from the parts it
//! replaces.

use vstd::prelude::*;
use vstd::string::*;

use crate::bytes;
use crate::dictionary_compact;
use crate::dictionary_compact::{CompactReport, MergedSuffixes, SfxPart, SuffixToken, TextsError, UnionEntry, combine_reports, merge_sfx, merge_termtexts, suffix_tokens};
use crate::dictionary_lookup::ParentEntryV3;
use crate::file_v3;
use crate::file_v3::SfxFileWriterV3;
use crate::termtexts_v3;
use crate::termtexts_v3::TermMetaV3;

verus! {

/// Whether building the suffixes of these tokens gave this.
pub open spec fn building_gave<
    'a,
    F: Fn(Vec<SuffixToken<'a>>) -> Result<(Vec<u8>, Vec<u8>), String>,
>(
    build: F,
    entries: Seq<(u32, String, TermMetaV3)>,
    outcome: Result<(Vec<u8>, Vec<u8>), String>,
) -> bool {
    exists|tokens: Vec<SuffixToken<'a>>| #[trigger]
        call_ensures(build, (tokens,), outcome) && tokens@.len() == entries.len() && forall|i: int|
            0 <= i < tokens@.len() ==> dictionary_compact::token_of(#[trigger] tokens@[i], entries[i])
}

/// The suffix file of a generation of these entries; `build` makes the FST and
/// the parent lists of its tokens, or says why it cannot.
pub fn generation_sfx_bytes<
    'a,
    F: Fn(Vec<SuffixToken<'a>>) -> Result<(Vec<u8>, Vec<u8>), String>,
>(entries: &'a Vec<(u32, String, TermMetaV3)>, build: &F) -> (r: Result<Vec<u8>, String>)
    requires
        forall|i: int|
            0 <= i < entries@.len() ==> dictionary_compact::entry_splits((#[trigger] entries@[i]).1@, entries@[i].2),
        forall|t: Vec<SuffixToken<'a>>| #[trigger] call_requires(*build, (t,)),
        forall|t: Vec<SuffixToken<'a>>, fst: Vec<u8>, parents: Vec<u8>| #[trigger]
            call_ensures(*build, (t,), Ok::<(Vec<u8>, Vec<u8>), String>((fst, parents)))
                ==> fst@.len() + parents@.len() <= u32::MAX,
    ensures
        r matches Ok(b) ==> exists|fst: Vec<u8>, parents: Vec<u8>|
            b@ == file_v3::sfx3_bytes(fst@, parents@) && #[trigger] building_gave(
                *build,
                entries@,
                Ok((fst, parents)),
            ),
        r matches Err(e) ==> building_gave(*build, entries@, Err(e)),
{
    let tokens = suffix_tokens(entries);
    let ghost given = tokens;
    let outcome = build(tokens);
    assert(call_ensures(*build, (given,), outcome));
    assert(building_gave(*build, entries@, outcome));
    match outcome {
        Err(e) => Err(e),
        Ok((fst, parents)) => {
            let ghost f = fst;
            let ghost p = parents;
            assert(building_gave(*build, entries@, Ok((f, p))));
            assert(call_ensures(*build, (given,), Ok::<(Vec<u8>, Vec<u8>), String>((f, p))));
            let w = SfxFileWriterV3::new(fst, parents);
            let b = w.to_bytes();
            Ok(b)
        },
    }
}

/// The files that a generation has for a field, where it has them.
pub struct FoundPart {
    /// The suffixes.
    pub sfx: Option<Vec<u8>>,
    /// The texts.
    pub termtexts: Option<Vec<u8>>,
}

/// Whether both files are there.
pub open spec fn is_whole() -> spec_fn(FoundPart) -> bool {
    |p: FoundPart| p.sfx is Some && p.termtexts is Some
}

/// Whether these are the files of the parts that have both, in their order.
pub open spec fn picked(found: Seq<FoundPart>, sfx: Seq<Vec<u8>>, texts: Seq<Vec<u8>>) -> bool {
    let whole = found.filter(is_whole());
    &&& sfx.len() == whole.len()
    &&& texts.len() == whole.len()
    &&& forall|i: int| 0 <= i < whole.len() ==> whole[i].sfx == Some(#[trigger] sfx[i])
    &&& forall|i: int| 0 <= i < whole.len() ==> whole[i].termtexts == Some(#[trigger] texts[i])
}

/// The parts that a merge of generations takes: those that have both files, in
/// their order.
pub fn compact_generations(found: Vec<FoundPart>) -> (r: (Vec<Vec<u8>>, Vec<Vec<u8>>))
    ensures
        picked(found@, r.0@, r.1@),
{
    let ghost all = found@;
    let keep = Ghost(is_whole());
    let mut list = found;
    let mut sfx: Vec<Vec<u8>> = Vec::new();
    let mut texts: Vec<Vec<u8>> = Vec::new();
    let n: usize = list.len();
    let mut i: usize = 0;
    proof {
        reveal(Seq::filter);
        assert(all.take(0).filter(keep@) =~= Seq::empty());
    }
    while i < n
        invariant
            i <= n,
            n == all.len(),
            list@.len() == n,
            keep@ == is_whole(),
            forall|k: int| i <= k < n ==> #[trigger] list@[k] == all[k],
            sfx@.len() == all.take(i as int).filter(keep@).len(),
            texts@.len() == sfx@.len(),
            forall|k: int|
                0 <= k < sfx@.len() ==> all.take(i as int).filter(keep@)[k].sfx == Some(
                    #[trigger] sfx@[k],
                ),
            forall|k: int|
                0 <= k < texts@.len() ==> all.take(i as int).filter(keep@)[k].termtexts == Some(
                    #[trigger] texts@[k],
                ),
        decreases n - i,
    {
        let ghost before = all.take(i as int).filter(keep@);
        proof {
            reveal(Seq::filter);
            assert(all.take(i + 1).drop_last() =~= all.take(i as int));
            assert(all.take(i + 1).last() == all[i as int]);
        }
        let mut p = FoundPart { sfx: None, termtexts: None };
        std::mem::swap(&mut p, &mut list[i]);
        assert(p == all[i as int]);
        let ghost whole = keep@(p);
        match (p.sfx, p.termtexts) {
            (Some(a), Some(b)) => {
                assert(all.take(i + 1).filter(keep@) == before.push(all[i as int]));
                sfx.push(a);
                texts.push(b);
            },
            _ => {
                assert(all.take(i + 1).filter(keep@) == before);
            },
        }
        i += 1;
    }
    assert(all.take(all.len() as int) =~= all);
    (sfx, texts)
}

/// What a merge of parts makes.
pub struct Compacted {
    /// The keys with their records, if there were parts.
    pub suffixes: Option<MergedSuffixes>,
    /// The bytes of the texts, if there were parts.
    pub texts: Option<Vec<u8>>,
    /// The report, but for the bytes of the suffix file and the time, which
    /// are known once it is written.
    pub report: CompactReport,
}

/// Merges parts into one: their suffixes, whose union is given, and their
/// texts. Without parts there is nothing to write.
pub fn compact_parts<
    'a,
    D: Fn(usize, u64, Vec<u8>) -> Vec<ParentEntryV3>,
    E: Fn(Vec<ParentEntryV3>, Vec<u8>) -> Vec<u8>,
>(
    parts: &Vec<SfxPart<'a>>,
    union: &Vec<UnionEntry>,
    texts: &Vec<Vec<u8>>,
    decode: &D,
    encode: &E,
) -> (r: Result<Compacted, TextsError>)
    requires
        dictionary_compact::union_ok(parts@, union@),
        dictionary_compact::texts_ok(bytes::deep(texts@)),
        forall|p: usize, v: u64, k: Vec<u8>| #[trigger] call_requires(*decode, (p, v, k)),
        forall|a: Vec<ParentEntryV3>, k: Vec<u8>| #[trigger] call_requires(*encode, (a, k)),
    ensures
        compacted(parts@, union@, bytes::deep(texts@), *decode, *encode, r),
{
    if parts.len() == 0 {
        return Ok(Compacted { suffixes: None, texts: None, report: CompactReport::default() });
    }
    let m = merge_sfx(parts, union, decode, encode);
    match merge_termtexts(texts) {
        Err(e) => Err(e),
        Ok((file, texts_report)) => {
            let sfx_report = CompactReport {
                parts: 0,
                keys: m.keys,
                keys_merged: m.keys_merged,
                texts: 0,
                sfx_bytes: 0,
                termtexts_bytes: 0,
                fst_ns: 0,
                texts_ns: 0,
            };
            let report = combine_reports(parts.len(), &sfx_report, &texts_report);
            let ghost suffixes = m;
            let out = Compacted { suffixes: Some(m), texts: Some(file), report };
            proof {
                let records = choose|records: Seq<Seq<u8>>| #[trigger]
                    dictionary_compact::merge_of(
                        parts@,
                        union@,
                        *decode,
                        *encode,
                        records,
                        suffixes,
                    );
                assert(dictionary_compact::merge_of(
                    parts@,
                    union@,
                    *decode,
                    *encode,
                    records,
                    out.suffixes->0,
                ));
                assert(out.report.keys == union@.len() as u64);
                assert(out.report.keys_merged == dictionary_compact::shared_keys(
                    union@,
                    union@.len() as int,
                ) as u64);
            }
            Ok(out)
        },
    }
}

/// Whether this is what merging the parts gives: nothing without parts.
pub open spec fn compacted<
    'a,
    D: Fn(usize, u64, Vec<u8>) -> Vec<ParentEntryV3>,
    E: Fn(Vec<ParentEntryV3>, Vec<u8>) -> Vec<u8>,
>(
    parts: Seq<SfxPart<'a>>,
    union: Seq<UnionEntry>,
    texts: Seq<Seq<u8>>,
    decode: D,
    encode: E,
    r: Result<Compacted, TextsError>,
) -> bool {
    if parts.len() == 0 {
        &&& r is Ok
        &&& r->Ok_0.suffixes is None
        &&& r->Ok_0.texts is None
        &&& r->Ok_0.report == dictionary_compact::empty_report(0)
    } else if !dictionary_compact::opened(texts) {
        r == Err::<Compacted, TextsError>(TextsError::Unreadable)
    } else {
        match termtexts_v3::merge_outcome(termtexts_v3::merged(dictionary_compact::part_entries(texts))) {
            Err(e) => r == Err::<Compacted, TextsError>(TextsError::Merge(e)),
            Ok((file, n)) => {
                &&& r is Ok
                &&& r->Ok_0.texts is Some
                &&& r->Ok_0.texts->0@ == file
                &&& r->Ok_0.suffixes is Some
                &&& exists|records: Seq<Seq<u8>>| #[trigger]
                    dictionary_compact::merge_of(parts, union, decode, encode, records, r->Ok_0.suffixes->0)
                &&& r->Ok_0.report == (CompactReport {
                    parts: parts.len() as usize,
                    keys: union.len() as u64,
                    keys_merged: dictionary_compact::shared_keys(union, union.len() as int) as u64,
                    texts: n as u32,
                    termtexts_bytes: file.len() as u64,
                    ..dictionary_compact::empty_report(0)
                })
            },
        }
    }
}

} // verus!
