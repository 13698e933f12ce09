//! The texts a segment gave ids to first: id, text and shape of each.

use vstd::prelude::*;
use vstd::string::*;
use vstd::utf8::*;

use crate::termtexts_v3;
use crate::termtexts_v3::{IdEntry, TermMetaV3, TermTextsReaderV3, TermTextsWriterV3, TextFile};
use crate::text;
use crate::text::str_copy;

verus! {

/// The ids of the entries.
pub open spec fn new_ids<'a>(entries: Seq<(u32, &'a str, TermMetaV3)>) -> Seq<u32> {
    Seq::new(entries.len(), |i: int| entries[i].0)
}

/// The texts of the entries, as bytes.
pub open spec fn new_bytes<'a>(entries: Seq<(u32, &'a str, TermMetaV3)>) -> Seq<Seq<u8>> {
    Seq::new(entries.len(), |i: int| encode_utf8(entries[i].1@))
}

/// The shapes of the entries.
pub open spec fn new_metas<'a>(entries: Seq<(u32, &'a str, TermMetaV3)>) -> Seq<TermMetaV3> {
    Seq::new(entries.len(), |i: int| entries[i].2)
}

/// Whether the ids ascend and the file stays within the sizes its fields can
/// hold.
pub open spec fn encodable<'a>(entries: Seq<(u32, &'a str, TermMetaV3)>) -> bool {
    &&& termtexts_v3::increasing(new_ids(entries))
    &&& termtexts_v3::writable(new_bytes(entries), new_metas(entries), Some(new_ids(entries)))
}

/// The file of the entries.
pub open spec fn new_file<'a>(entries: Seq<(u32, &'a str, TermMetaV3)>) -> Seq<u8> {
    termtexts_v3::texts_file(new_bytes(entries), new_metas(entries), Some(new_ids(entries)))
}

/// Entries that were read.
pub open spec fn read_entries(v: Seq<(u32, String, TermMetaV3)>) -> Seq<IdEntry> {
    Seq::new(v.len(), |i: int| IdEntry { id: v[i].0, text: v[i].1@, meta: v[i].2 })
}

/// The file of the entries, whose ids ascend.
pub fn encode_newtexts<'a>(entries: &Vec<(u32, &'a str, TermMetaV3)>) -> (out: Vec<u8>)
    requires
        encodable(entries@),
    ensures
        out@ == new_file(entries@),
{
    let n: usize = entries.len();
    let mut ids: Vec<u32> = Vec::new();
    let mut i: usize = 0;
    while i < n
        invariant
            i <= n,
            n == entries@.len(),
            ids@.len() == i,
            forall|k: int| 0 <= k < i ==> #[trigger] ids@[k] == entries@[k].0,
        decreases n - i,
    {
        ids.push(entries[i].0);
        i += 1;
    }
    assert(ids@ =~= new_ids(entries@));
    let mut w = TermTextsWriterV3::new().with_ids(ids);
    let mut k: usize = 0;
    assert(w.texts() =~= new_bytes(entries@).take(0));
    assert(w.metas() =~= new_metas(entries@).take(0));
    while k < n
        invariant
            k <= n,
            n == entries@.len(),
            n < u32::MAX,
            w.wf(),
            w.ids() == Some(new_ids(entries@)),
            w.texts() == new_bytes(entries@).take(k as int),
            w.metas() == new_metas(entries@).take(k as int),
        decreases n - k,
    {
        let (_, text, meta) = entries[k];
        w.add(k as u32, text, meta);
        proof {
            assert(w.texts() =~= new_bytes(entries@).take(k + 1));
            assert(w.metas() =~= new_metas(entries@).take(k + 1));
        }
        k += 1;
    }
    assert(new_bytes(entries@).take(k as int) =~= new_bytes(entries@));
    assert(new_metas(entries@).take(k as int) =~= new_metas(entries@));
    w.serialize()
}

/// The entries of a file; `None` where it does not open.
pub fn decode_newtexts(bytes: &[u8]) -> (r: Option<Vec<(u32, String, TermMetaV3)>>)
    requires
        termtexts_v3::file_of(bytes@) matches Some(f) ==> f.countable() && f.identified(),
    ensures
        r is Some <==> termtexts_v3::file_of(bytes@) is Some,
        r matches Some(v) ==> read_entries(v@) == termtexts_v3::all_entries(seq![termtexts_v3::file_of(bytes@)->0]),
{
    match TermTextsReaderV3::open(bytes) {
        None => None,
        Some(texts) => {
            let all = texts.iter();
            let mut out: Vec<(u32, String, TermMetaV3)> = Vec::new();
            let mut i: usize = 0;
            while i < all.len()
                invariant
                    i <= all@.len(),
                    out@.len() == i,
                    forall|k: int|
                        0 <= k < i ==> (#[trigger] out@[k]).0 == all@[k].0 && out@[k].1@ == all@[k].1@
                            && out@[k].2 == all@[k].2,
                decreases all@.len() - i,
            {
                let (id, text, meta) = all[i];
                out.push((id, str_copy(text), meta));
                i += 1;
            }
            assert(read_entries(out@) =~= termtexts_v3::as_entries(all@));
            Some(out)
        },
    }
}

/// The entries that were written.
pub open spec fn written<'a>(entries: Seq<(u32, &'a str, TermMetaV3)>) -> Seq<IdEntry> {
    Seq::new(
        entries.len(),
        |i: int| IdEntry { id: entries[i].0, text: entries[i].1@, meta: entries[i].2 },
    )
}

/// Whether entries can be written: their ids ascend and the file stays within
/// the sizes its fields can hold.
pub open spec fn entries_encodable(w: Seq<IdEntry>) -> bool {
    &&& termtexts_v3::increasing(termtexts_v3::entry_ids(w))
    &&& termtexts_v3::writable(
        termtexts_v3::entry_texts(w),
        termtexts_v3::entry_metas(w),
        Some(termtexts_v3::entry_ids(w)),
    )
}

/// The file of entries.
pub open spec fn entries_file(w: Seq<IdEntry>) -> Seq<u8> {
    termtexts_v3::texts_file(
        termtexts_v3::entry_texts(w),
        termtexts_v3::entry_metas(w),
        Some(termtexts_v3::entry_ids(w)),
    )
}

/// Law: whatever entries are written are read back, in order.
pub proof fn written_entries_read_back(w: Seq<IdEntry>)
    requires
        entries_encodable(w),
    ensures
        termtexts_v3::file_of(entries_file(w)) matches Some(f) && {
            &&& f.countable()
            &&& f.identified()
            &&& termtexts_v3::all_entries(seq![f]) == w
        },
{
    let texts = termtexts_v3::entry_texts(w);
    let metas = termtexts_v3::entry_metas(w);
    let ids = termtexts_v3::entry_ids(w);
    termtexts_v3::written_texts_read_back(texts, metas, Some(ids));
    let f = termtexts_v3::file_of(entries_file(w))->0;
    termtexts_v3::lemma_written_identified(texts, metas, ids);
    lemma_entries(w, f, w.len() as int);
    let one = seq![f];
    assert(one.drop_last() =~= Seq::<TextFile>::empty());
    assert(termtexts_v3::all_entries(one.drop_last()) =~= Seq::<IdEntry>::empty());
    assert(one.last() == f);
    assert(w.take(w.len() as int) =~= w);
    assert(termtexts_v3::all_entries(one) =~= w);
}

/// Law: the entries of new texts are read back as they were written.
pub proof fn written_newtexts_read_back<'a>(entries: Seq<(u32, &'a str, TermMetaV3)>)
    requires
        encodable(entries),
    ensures
        new_file(entries) == entries_file(written(entries)),
        termtexts_v3::file_of(new_file(entries)) matches Some(f) && {
            &&& f.countable()
            &&& f.identified()
            &&& termtexts_v3::all_entries(seq![f]) == written(entries)
        },
{
    let w = written(entries);
    assert(termtexts_v3::entry_texts(w) =~= new_bytes(entries));
    assert(termtexts_v3::entry_metas(w) =~= new_metas(entries));
    assert(termtexts_v3::entry_ids(w) =~= new_ids(entries));
    written_entries_read_back(w);
}

proof fn lemma_entries(w: Seq<IdEntry>, f: TextFile, n: int)
    requires
        0 <= n <= w.len() <= u32::MAX,
        f.ids() == termtexts_v3::entry_ids(w),
        forall|i: u32|
            i < w.len() ==> #[trigger] f.text(i) == text::text_of(termtexts_v3::entry_texts(w)[i as int]),
        forall|i: u32|
            i < w.len() ==> #[trigger] f.meta(i) == Some(termtexts_v3::entry_metas(w)[i as int]),
    ensures
        termtexts_v3::entries_of(f, n) == w.take(n),
    decreases n,
{
    if n > 0 {
        lemma_entries(w, f, n - 1);
        let i = (n - 1) as u32;
        text::lemma_text_of(w[n - 1].text);
        assert(f.text(i) == text::text_of(termtexts_v3::entry_texts(w)[i as int]));
        assert(f.meta(i) == Some(termtexts_v3::entry_metas(w)[i as int]));
        assert(w.take(n) =~= w.take(n - 1).push(w[n - 1]));
    } else {
        assert(w.take(0) =~= Seq::<IdEntry>::empty());
    }
}

} // verus!
