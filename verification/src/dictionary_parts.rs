//! The parts of a dictionary as their files were read: which of them count,
//! and where each finds its group index.

use vstd::prelude::*;

use crate::bytes::part;
use crate::collector_v3;
use crate::dictionary;
use crate::dictionary::DictionaryField;
use crate::dictionary_pidx;
use crate::dictionary_pidx::is_index;
use crate::termtexts_v3;
use crate::termtexts_v3::{TermTextsReaderV3, TextFile, can_count};

verus! {

/// What was read of the files of a part.
pub struct ReadPart {
    /// Whether the suffixes open; none where they could not be read.
    pub suffixes: Option<bool>,
    /// The texts, where they could be read.
    pub termtexts: Option<Vec<u8>>,
    /// The group index, where it could be read.
    pub group_index: Option<Vec<u8>>,
    /// Whether the part is a generation and not a pending segment's.
    pub is_generation: bool,
    /// Whether a group index was built for it before.
    pub index_built: bool,
}

/// Where a part finds its group index.
#[derive(Debug, Clone, Copy, PartialEq, Eq, Structural)]
pub enum IndexSource {
    /// It has none: its records are scanned.
    Scan,
    /// In its file.
    File,
    /// In what was built before.
    Kept,
    /// It is to be built.
    Build,
}

/// Whether both files of a part could be read.
pub open spec fn is_read() -> spec_fn(ReadPart) -> bool {
    |p: ReadPart| p.suffixes is Some && p.termtexts is Some
}

/// Where a part finds its group index: a pending segment has none; a
/// generation has its file, or else what was built for it.
pub open spec fn source_of(p: ReadPart) -> IndexSource {
    if !p.is_generation {
        IndexSource::Scan
    } else if p.group_index is Some && dictionary_pidx::opens(p.group_index->0@) {
        IndexSource::File
    } else if p.index_built {
        IndexSource::Kept
    } else {
        IndexSource::Build
    }
}

/// The texts of parts that could be read, file by file; none without parts or
/// where one does not open.
pub open spec fn text_files(parts: Seq<ReadPart>) -> Option<Seq<TextFile>> {
    let whole = parts.filter(is_read());
    if whole.len() > 0 && forall|i: int|
        0 <= i < whole.len() ==> termtexts_v3::file_of((#[trigger] whole[i]).termtexts->0@) is Some {
        Some(Seq::new(whole.len(), |i: int| termtexts_v3::file_of(whole[i].termtexts->0@)->0))
    } else {
        None
    }
}

/// Whether the suffixes of a part stand in the way of opening its field: they
/// do not open, and no group index was to be built from them, which would have
/// left the part out.
pub open spec fn blocks(p: ReadPart) -> bool {
    p.suffixes == Some(false) && source_of(p) != IndexSource::Build
}

/// Whether the suffixes of the parts open as one: some part has suffixes that
/// open, and no other stands in the way.
pub open spec fn suffixes_join(parts: Seq<ReadPart>) -> bool {
    let whole = parts.filter(is_read());
    &&& exists|i: int| 0 <= i < whole.len() && (#[trigger] whole[i]).suffixes == Some(true)
    &&& forall|i: int| 0 <= i < whole.len() ==> !blocks(#[trigger] whole[i])
}

/// The texts of a field, where it is there: those of all its parts that were
/// read, if they open.
pub open spec fn field_texts(parts: Seq<ReadPart>) -> Option<Option<Seq<TextFile>>> {
    if suffixes_join(parts) {
        Some(text_files(parts))
    } else {
        None
    }
}

/// The fields that are there, with their texts.
pub open spec fn fields_in(field_ids: Seq<u32>, read: Seq<Seq<ReadPart>>) -> Seq<
    (u32, Option<Seq<TextFile>>),
>
    decreases read.len(),
{
    if read.len() == 0 {
        Seq::empty()
    } else {
        let before = fields_in(field_ids, read.drop_last());
        match field_texts(read.last()) {
            Some(f) => before.push((field_ids[read.len() - 1], f)),
            None => before,
        }
    }
}

/// Whether the texts that open can be read through.
pub open spec fn parts_ok(parts: Seq<ReadPart>) -> bool {
    &&& forall|i: int|
        0 <= i < parts.len() && (#[trigger] parts[i]).termtexts is Some ==> (termtexts_v3::file_of(
            parts[i].termtexts->0@,
        ) matches Some(f) ==> f.countable())
    &&& text_files(parts) matches Some(f) ==> dictionary::usable(f)
}

/// Whether the texts of a file that opens can be read through.
pub open spec fn text_ok(bytes: Seq<u8>) -> bool {
    &&& termtexts_v3::counts_fit(bytes)
    &&& termtexts_v3::file_of(bytes) matches Some(f) ==> dictionary::usable(seq![f])
}

/// Whether the texts of every part can be read through.
pub fn can_open(parts: &Vec<ReadPart>) -> (r: bool)
    ensures
        r == forall|i: int|
            0 <= i < parts@.len() && (#[trigger] parts@[i]).termtexts is Some ==> text_ok(
                parts@[i].termtexts->0@,
            ),
        r ==> parts_ok(parts@),
{
    let mut i: usize = 0;
    while i < parts.len()
        invariant
            i <= parts@.len(),
            forall|k: int|
                0 <= k < i && (#[trigger] parts@[k]).termtexts is Some ==> text_ok(
                    parts@[k].termtexts->0@,
                ),
        decreases parts@.len() - i,
    {
        match &parts[i].termtexts {
            Some(t) => {
                if !can_read(t.as_slice()) {
                    assert(!text_ok(parts@[i as int].termtexts->0@));
                    return false;
                }
            },
            None => {},
        }
        i += 1;
    }
    proof {
        lemma_parts_ok(parts@);
    }
    true
}

fn can_read(bytes: &[u8]) -> (r: bool)
    ensures
        r == text_ok(bytes@),
{
    if !can_count(bytes) {
        return false;
    }
    match TermTextsReaderV3::open(bytes) {
        None => true,
        Some(t) => {
            let ghost f = termtexts_v3::file_of(bytes@)->0;
            assert(t.files() == seq![f]);
            if !t.is_identified() {
                return false;
            }
            let all = t.iter();
            let ghost entries = termtexts_v3::all_entries(seq![f]);
            let mut i: usize = 0;
            while i < all.len()
                invariant
                    i <= all@.len(),
                    entries == termtexts_v3::as_entries(all@),
                    entries == termtexts_v3::all_entries(seq![f]),
                    termtexts_v3::file_of(bytes@) == Some(f),
                    forall|k: int|
                        0 <= k < i ==> {
                            let m = (#[trigger] entries[k]).meta;
                            m.is_word_stripped ==> m.own_len >= m.sep_len
                        },
                decreases all@.len() - i,
            {
                let (_, _, m) = all[i];
                assert(entries[i as int].meta == m);
                if m.is_word_stripped && m.own_len < m.sep_len as u16 {
                    return false;
                }
                i += 1;
            }
            true
        },
    }
}

proof fn lemma_parts_ok(parts: Seq<ReadPart>)
    requires
        forall|i: int|
            0 <= i < parts.len() && (#[trigger] parts[i]).termtexts is Some ==> text_ok(
                parts[i].termtexts->0@,
            ),
    ensures
        parts_ok(parts),
{
    assert forall|i: int| 0 <= i < parts.len() && (#[trigger] parts[i]).termtexts is Some implies (
    termtexts_v3::file_of(parts[i].termtexts->0@) matches Some(f) ==> f.countable()) by {
        assert(text_ok(parts[i].termtexts->0@));
        termtexts_v3::lemma_countable(parts[i].termtexts->0@);
    }
    if text_files(parts) is Some {
        let files = text_files(parts)->0;
        let whole = parts.filter(is_read());
        assert forall|k: int| 0 <= k < files.len() implies dictionary::usable(
            seq![#[trigger] files[k]],
        ) by {
            parts.lemma_filter_pred(is_read(), k);
            assert(whole.contains(whole[k]));
            parts.lemma_filter_contains_rev(is_read(), whole[k]);
            let i = choose|i: int| 0 <= i < parts.len() && parts[i] == whole[k];
            assert(text_ok(parts[i].termtexts->0@));
        }
        lemma_usable(files);
    }
}

proof fn lemma_usable(files: Seq<TextFile>)
    requires
        forall|k: int| 0 <= k < files.len() ==> dictionary::usable(seq![#[trigger] files[k]]),
    ensures
        dictionary::usable(files),
    decreases files.len(),
{
    if files.len() > 0 {
        let rest = files.drop_last();
        assert forall|k: int| 0 <= k < rest.len() implies dictionary::usable(
            seq![#[trigger] rest[k]],
        ) by {
            assert(rest[k] == files[k]);
        }
        lemma_usable(rest);
        let one = seq![files.last()];
        assert(dictionary::usable(seq![files[files.len() - 1]]));
        assert(one.drop_last() =~= Seq::<TextFile>::empty());
        assert(termtexts_v3::all_entries(one.drop_last()) =~= Seq::empty());
        assert(one.last() == files.last());
        assert(termtexts_v3::all_entries(one) =~= termtexts_v3::entries_of(
            files.last(),
            files.last().num as int,
        ));
        let a = termtexts_v3::all_entries(rest);
        let b = termtexts_v3::all_entries(one);
        assert forall|k: int| 0 <= k < files.len() implies (#[trigger] files[k]).identified() by {
            if k < rest.len() {
                assert(rest[k].identified());
            } else {
                assert(one[0].identified());
            }
        }
        assert forall|i: int| 0 <= i < termtexts_v3::all_entries(files).len() implies {
            let m = (#[trigger] termtexts_v3::all_entries(files)[i]).meta;
            m.is_word_stripped ==> m.own_len >= m.sep_len
        } by {
            if i < a.len() {
                assert(termtexts_v3::all_entries(files)[i] == a[i]);
            } else {
                assert(termtexts_v3::all_entries(files)[i] == b[i - a.len()]);
            }
        }
    }
}

/// Where a part finds its group index.
pub fn index_source(part: &ReadPart) -> (r: IndexSource)
    ensures
        r == source_of(*part),
{
    if !part.is_generation {
        return IndexSource::Scan;
    }
    match &part.group_index {
        Some(b) => {
            if is_index(b.as_slice()) {
                return IndexSource::File;
            }
        },
        None => {},
    }
    if part.index_built {
        IndexSource::Kept
    } else {
        IndexSource::Build
    }
}

/// The texts of a field as one reader, where the field is there.
pub fn open_field<'a>(parts: &'a Vec<ReadPart>) -> (r: Option<DictionaryField<'a>>)
    requires
        parts_ok(parts@),
    ensures
        field_texts(parts@) == match r {
            Some(f) => Some(f.files()),
            None => None,
        },
        r matches Some(f) ==> f.ready(),
{
    let ghost all = parts@;
    let ghost keep = is_read();
    let mut texts: Vec<&'a [u8]> = Vec::new();
    let mut some_open = false;
    let mut blocked = false;
    let mut i: usize = 0;
    proof {
        reveal(Seq::filter);
        assert(all.take(0).filter(keep) =~= Seq::empty());
    }
    while i < parts.len()
        invariant
            i <= parts@.len(),
            all == parts@,
            keep == is_read(),
            parts_ok(all),
            texts@.len() == all.take(i as int).filter(keep).len(),
            forall|k: int|
                0 <= k < texts@.len() ==> (#[trigger] texts@[k])@ == all.take(i as int).filter(
                    keep,
                )[k].termtexts->0@,
            forall|k: int|
                0 <= k < texts@.len() ==> (termtexts_v3::file_of((#[trigger] texts@[k])@) matches Some(f)
                    ==> f.countable()),
            some_open <==> exists|k: int|
                0 <= k < texts@.len() && (#[trigger] all.take(i as int).filter(keep)[k]).suffixes
                    == Some(true),
            !blocked <==> forall|k: int|
                0 <= k < texts@.len() ==> !blocks(#[trigger] all.take(i as int).filter(keep)[k]),
        decreases parts@.len() - i,
    {
        let ghost before = all.take(i as int).filter(keep);
        let ghost was_open = some_open;
        let ghost was_blocked = blocked;
        proof {
            reveal(Seq::filter);
            assert(all.take(i + 1).drop_last() =~= all.take(i as int));
            assert(all.take(i + 1).last() == all[i as int]);
        }
        let p = &parts[i];
        match (&p.suffixes, &p.termtexts) {
            (Some(opens), Some(t)) => {
                texts.push(t.as_slice());
                if *opens {
                    some_open = true;
                } else if index_source(p) != IndexSource::Build {
                    blocked = true;
                }
                proof {
                    let now = all.take(i + 1).filter(keep);
                    assert(now == before.push(all[i as int]));
                    assert(now[before.len() as int] == all[i as int]);
                    if was_open {
                        let k = choose|k: int|
                            0 <= k < before.len() && (#[trigger] before[k]).suffixes == Some(true);
                        assert(now[k] == before[k]);
                    }
                    if was_blocked {
                        let k = choose|k: int| 0 <= k < before.len() && blocks(#[trigger] before[k]);
                        assert(now[k] == before[k]);
                    }
                    assert forall|k: int| 0 <= k < before.len() implies now[k] == #[trigger] before[k] by {
                    }
                }
            },
            _ => {
                assert(all.take(i + 1).filter(keep) == before);
            },
        }
        i += 1;
    }
    assert(all.take(all.len() as int) =~= all);
    let ghost whole = all.filter(keep);
    if !some_open || blocked {
        return None;
    }
    match TermTextsReaderV3::open_parts(texts.as_slice()) {
        None => {
            proof {
                if text_files(all) is Some {
                    assert forall|k: int| 0 <= k < texts@.len() implies termtexts_v3::file_of(
                        (#[trigger] texts@[k])@,
                    ) is Some by {
                        assert(termtexts_v3::file_of(whole[k].termtexts->0@) is Some);
                    }
                }
            }
            Some(DictionaryField { texts: None })
        },
        Some(t) => {
            proof {
                assert forall|k: int| 0 <= k < whole.len() implies termtexts_v3::file_of(
                    (#[trigger] whole[k]).termtexts->0@,
                ) is Some by {
                    assert(texts@[k]@ == whole[k].termtexts->0@);
                }
                assert(t.files() =~= text_files(all)->0);
            }
            Some(DictionaryField { texts: Some(t) })
        },
    }
}

/// The texts of open fields.
pub open spec fn texts_of_fields<'a>(fields: Seq<(u32, DictionaryField<'a>)>) -> Seq<
    (u32, Option<Seq<TextFile>>),
> {
    Seq::new(fields.len(), |i: int| (fields[i].0, fields[i].1.files()))
}

/// The fields that are there, in their order.
pub fn open_fields<'a>(field_ids: &Vec<u32>, read: &'a Vec<Vec<ReadPart>>) -> (out: Vec<
    (u32, DictionaryField<'a>),
>)
    requires
        read@.len() <= field_ids@.len(),
        forall|i: int| 0 <= i < read@.len() ==> parts_ok((#[trigger] read@[i])@),
    ensures
        texts_of_fields(out@) == fields_in(field_ids@, collector_v3::contents(read@)),
        forall|i: int| 0 <= i < out@.len() ==> (#[trigger] out@[i]).1.ready(),
{
    let ghost all = collector_v3::contents(read@);
    let mut out: Vec<(u32, DictionaryField<'a>)> = Vec::new();
    let mut i: usize = 0;
    assert(all.take(0) =~= Seq::empty());
    assert(texts_of_fields(out@) =~= fields_in(field_ids@, all.take(0)));
    while i < read.len()
        invariant
            i <= read@.len(),
            read@.len() <= field_ids@.len(),
            all == collector_v3::contents(read@),
            all.len() == read@.len(),
            forall|i: int| 0 <= i < read@.len() ==> parts_ok((#[trigger] read@[i])@),
            texts_of_fields(out@) == fields_in(field_ids@, all.take(i as int)),
            forall|i: int| 0 <= i < out@.len() ==> (#[trigger] out@[i]).1.ready(),
        decreases read@.len() - i,
    {
        let ghost before = texts_of_fields(out@);
        proof {
            assert(parts_ok(read@[i as int]@));
            assert(all.take(i + 1).drop_last() =~= all.take(i as int));
            assert(all.take(i + 1).last() == read@[i as int]@);
        }
        match open_field(&read[i]) {
            Some(f) => {
                out.push((field_ids[i], f));
                assert(texts_of_fields(out@) =~= before.push((field_ids@[i as int], f.files())));
            },
            None => {},
        }
        i += 1;
    }
    assert(all.take(all.len() as int) =~= all);
    out
}

} // verus!
