//! What a posting file weighs, and what it would weigh without the byte spans
//! of its entries.

use vstd::prelude::*;

use crate::block_offsets;
use crate::bytes;
use crate::order;
use crate::sfxpost_v2;
use crate::sfxpost_v2::{SfxPostReaderV2, SfxPostWriterV2};

verus! {

/// What was measured of posting files.
#[derive(Debug, Clone, Copy, PartialEq, Eq, Structural)]
pub struct Tally {
    /// Files.
    pub files: usize,
    /// Their entries.
    pub entries: u64,
    /// Their bytes.
    pub on_disk: u64,
    /// Bytes of the same entries written anew.
    pub reencoded: u64,
    /// Bytes of the same entries without byte spans.
    pub without_spans: u64,
}

impl Default for Tally {
    fn default() -> (r: Self)
        ensures
            r == (Tally { files: 0, entries: 0, on_disk: 0, reencoded: 0, without_spans: 0 }),
    {
        Tally { files: 0, entries: 0, on_disk: 0, reencoded: 0, without_spans: 0 }
    }
}

/// The entries of each ordinal of a file.
pub open spec fn all_lists(s: Seq<u8>) -> Seq<Seq<(u32, u32, u32, u32)>> {
    Seq::new(bytes::get32(s, 4) as nat, |o: int| sfxpost_v2::entries_for(s, None, o as u32))
}

/// An entry without its byte span.
pub open spec fn spanless(e: (u32, u32, u32, u32)) -> (u32, u32, u32, u32) {
    (e.0, e.1, 0, 0)
}

/// The same entries without their byte spans.
pub open spec fn bare(lists: Seq<Seq<(u32, u32, u32, u32)>>) -> Seq<Seq<(u32, u32, u32, u32)>> {
    Seq::new(lists.len(), |o: int| lists[o].map_values(|e: (u32, u32, u32, u32)| spanless(e)))
}

/// Entries of the first `n` ordinals.
pub open spec fn entry_count(lists: Seq<Seq<(u32, u32, u32, u32)>>, n: int) -> int
    decreases n,
{
    if n <= 0 {
        0
    } else {
        entry_count(lists, n - 1) + lists[n - 1].len()
    }
}

/// Whether these entries fit in a file.
pub open spec fn lists_fit(lists: Seq<Seq<(u32, u32, u32, u32)>>) -> bool {
    &&& lists.len() < u32::MAX
    &&& bytes::flat(sfxpost_v2::ordinals_bytes(lists, true)).len() <= u32::MAX
    &&& bytes::flat(
        block_offsets::all_blocks(bytes::starts32(sfxpost_v2::ordinals_bytes(lists, true))),
    ).len() <= u32::MAX
}

/// The bytes of a file of these entries, less two for each: those the zeros of
/// a span take.
pub open spec fn bare_size(lists: Seq<Seq<(u32, u32, u32, u32)>>) -> int {
    let size = sfxpost_v2::file_bytes(bare(lists), true).len() - 2 * entry_count(
        lists,
        lists.len() as int,
    );
    if size >= 0 {
        size
    } else {
        0
    }
}

/// The tally with one more file.
pub open spec fn tallied(t: Tally, s: Seq<u8>) -> Tally {
    let lists = all_lists(s);
    Tally {
        files: (t.files + 1) as usize,
        entries: (t.entries + entry_count(lists, lists.len() as int)) as u64,
        on_disk: (t.on_disk + s.len()) as u64,
        reencoded: (t.reencoded + sfxpost_v2::file_bytes(lists, true).len()) as u64,
        without_spans: (t.without_spans + bare_size(lists)) as u64,
    }
}

/// Whether one more file can be counted.
pub open spec fn tally_fits(t: Tally, s: Seq<u8>) -> bool {
    let lists = all_lists(s);
    &&& lists_fit(lists)
    &&& lists_fit(bare(lists))
    &&& t.files < usize::MAX
    &&& t.entries + entry_count(lists, lists.len() as int) <= u64::MAX
    &&& 2 * entry_count(lists, lists.len() as int) <= u64::MAX
    &&& t.on_disk + s.len() <= u64::MAX
    &&& t.reencoded + sfxpost_v2::file_bytes(lists, true).len() <= u64::MAX
    &&& t.without_spans + bare_size(lists) <= u64::MAX
}

proof fn lemma_counts_grow(lists: Seq<Seq<(u32, u32, u32, u32)>>, a: int, b: int)
    requires
        0 <= a <= b <= lists.len(),
    ensures
        0 <= entry_count(lists, a) <= entry_count(lists, b),
    decreases b,
{
    if a < b {
        lemma_counts_grow(lists, a, b - 1);
    } else if a > 0 {
        lemma_counts_grow(lists, a - 1, b - 1);
    }
}

/// The entries, with their byte spans or without.
pub open spec fn given(list: Seq<(u32, u32, u32, u32)>, spans: bool) -> Seq<(u32, u32, u32, u32)> {
    if spans {
        list
    } else {
        list.map_values(|e: (u32, u32, u32, u32)| spanless(e))
    }
}

/// Adds entries to an ordinal, with their byte spans or without.
fn add_list(w: &mut SfxPostWriterV2, o: u32, list: &Vec<(u32, u32, u32, u32)>, spans: bool)
    requires
        old(w).spans(),
        o < old(w).ordinals().len(),
    ensures
        final(w).spans(),
        final(w).ordinals() == old(w).ordinals().update(
            o as int,
            old(w).ordinals()[o as int] + given(list@, spans),
        ),
{
    let ghost all = given(list@, spans);
    let ghost a = w.ordinals();
    let mut i: usize = 0;
    assert(a.update(o as int, a[o as int] + all.take(0)) =~= a) by {
        assert(a[o as int] + all.take(0) =~= a[o as int]);
    }
    while i < list.len()
        invariant
            i <= list@.len(),
            o < a.len(),
            all == given(list@, spans),
            all.len() == list@.len(),
            w.spans(),
            w.ordinals() == a.update(o as int, a[o as int] + all.take(i as int)),
        decreases list@.len() - i,
    {
        let e = list[i];
        let ghost before = w.ordinals();
        if spans {
            w.add_entry(o, e.0, e.1, e.2, e.3);
        } else {
            w.add_entry(o, e.0, e.1, 0, 0);
        }
        assert(all.take(i + 1) =~= all.take(i as int).push(all[i as int]));
        assert(before[o as int].push(all[i as int]) =~= a[o as int] + all.take(i + 1));
        i += 1;
        assert(w.ordinals() =~= a.update(o as int, a[o as int] + all.take(i as int)));
    }
    assert(all.take(i as int) =~= all);
}

/// Measures a posting file: its bytes, those of its entries written anew, and
/// those they would take without byte spans. One that does not open is passed
/// over.
pub fn measure_sfxpost(data: &[u8], t: &mut Tally)
    requires
        sfxpost_v2::opens(data@) ==> tally_fits(*old(t), data@),
    ensures
        *final(t) == if sfxpost_v2::opens(data@) {
            tallied(*old(t), data@)
        } else {
            *old(t)
        },
{
    let reader = match SfxPostReaderV2::open_slice(data) {
        Some(r) => r,
        None => {
            return;
        },
    };
    let ghost lists = all_lists(data@);
    let ghost none = Seq::new(lists.len(), |i: int| Seq::<(u32, u32, u32, u32)>::empty());
    let n: u32 = reader.num_terms();
    let mut full = SfxPostWriterV2::new(n as usize);
    let mut spare = SfxPostWriterV2::new(n as usize);
    let mut entries: u64 = 0;
    let mut o: u32 = 0;
    assert(full.ordinals() =~= lists.take(0) + none.skip(0));
    assert(spare.ordinals() =~= bare(lists).take(0) + none.skip(0));
    while o < n
        invariant
            o <= n,
            n == lists.len(),
            lists == all_lists(data@),
            none == Seq::new(lists.len(), |i: int| Seq::<(u32, u32, u32, u32)>::empty()),
            reader.wf(),
            reader.bytes() == data@,
            reader.gmap() is None,
            tally_fits(*old(t), data@),
            entries == entry_count(lists, o as int),
            full.spans(),
            spare.spans(),
            full.ordinals() == lists.take(o as int) + none.skip(o as int),
            spare.ordinals() == bare(lists).take(o as int) + none.skip(o as int),
        decreases n - o,
    {
        let list = reader.for_each_entry(o);
        assert(list@ == lists[o as int]);
        let ghost kept = bare(lists)[o as int];
        let ghost a = full.ordinals();
        let ghost b = spare.ordinals();
        proof {
            lemma_counts_grow(lists, o + 1, lists.len() as int);
        }
        add_list(&mut full, o, &list, true);
        add_list(&mut spare, o, &list, false);
        entries += list.len() as u64;
        assert(kept =~= Seq::<(u32, u32, u32, u32)>::empty() + list@.map_values(
            |e: (u32, u32, u32, u32)| spanless(e),
        ));
        assert(list@ =~= Seq::<(u32, u32, u32, u32)>::empty() + list@);
        o += 1;
        assert(full.ordinals() =~= lists.take(o as int) + none.skip(o as int));
        assert(spare.ordinals() =~= bare(lists).take(o as int) + none.skip(o as int));
    }
    assert(full.ordinals() =~= lists);
    assert(spare.ordinals() =~= bare(lists));
    let all = full.finish();
    let less = spare.finish();
    let zeros: u64 = 2 * entries;
    let size: u64 = if less.len() as u64 >= zeros {
        less.len() as u64 - zeros
    } else {
        0
    };
    t.files = t.files + 1;
    t.entries = t.entries + entries;
    t.on_disk = t.on_disk + data.len() as u64;
    t.reencoded = t.reencoded + all.len() as u64;
    t.without_spans = t.without_spans + size;
}

proof fn lemma_same_count(a: Seq<Seq<(u32, u32, u32, u32)>>, b: Seq<Seq<(u32, u32, u32, u32)>>, n: int)
    requires
        n <= a.len(),
        a.len() == b.len(),
        forall|o: int| 0 <= o < a.len() ==> (#[trigger] a[o]).len() == (#[trigger] b[o]).len(),
    ensures
        entry_count(a, n) == entry_count(b, n),
    decreases n,
{
    if n > 0 {
        lemma_same_count(a, b, n - 1);
        assert(a[n - 1].len() == b[n - 1].len());
    }
}

/// The entries of each ordinal, sorted.
spec fn in_order(ordinals: Seq<Seq<(u32, u32, u32, u32)>>) -> Seq<Seq<(u32, u32, u32, u32)>> {
    Seq::new(ordinals.len(), |o: int| order::sorted(ordinals[o]))
}

proof fn lemma_lists_in_order(ordinals: Seq<Seq<(u32, u32, u32, u32)>>)
    requires
        lists_fit(ordinals),
        forall|o: int| 0 <= o < ordinals.len() ==> (#[trigger] ordinals[o]).len() <= u32::MAX,
    ensures
        all_lists(sfxpost_v2::file_bytes(ordinals, true)) == in_order(ordinals),
{
    let file = sfxpost_v2::file_bytes(ordinals, true);
    let lists = all_lists(file);
    assert(bytes::get32(file, 4) == ordinals.len()) by {
        broadcast use bytes::group_le_len;

        assert(file.subrange(4, 8) =~= bytes::le32(ordinals.len() as u32));
        bytes::lemma_get32(file, 4, ordinals.len() as u32);
    }
    assert forall|o: int| 0 <= o < ordinals.len() implies #[trigger] lists[o] == in_order(ordinals)[o] by {
        assert(ordinals[o].len() <= u32::MAX);
        sfxpost_v2::written_file_reads_back(ordinals, true, o);
    }
    assert(lists =~= in_order(ordinals));
}

proof fn lemma_order_is_nothing(ordinals: Seq<Seq<(u32, u32, u32, u32)>>)
    ensures
        sfxpost_v2::file_bytes(in_order(ordinals), true) == sfxpost_v2::file_bytes(ordinals, true),
        entry_count(in_order(ordinals), ordinals.len() as int) == entry_count(ordinals, ordinals.len() as int),
{
    let lists = in_order(ordinals);
    assert forall|o: int| 0 <= o < ordinals.len() implies (#[trigger] ordinals[o]).to_multiset() == (
    #[trigger] lists[o]).to_multiset() && ordinals[o].len() == lists[o].len() by {
        order::lemma_sorted(ordinals[o]);
    }
    sfxpost_v2::order_of_entries_does_not_matter(ordinals, lists, true);
    lemma_same_count(ordinals, lists, ordinals.len() as int);
}

/// Law: measuring a file that was written with byte spans counts one file, the
/// entries that were added, and its bytes, and writing its entries anew takes
/// as many bytes.
pub proof fn a_written_file_weighs_the_same_anew(t: Tally, ordinals: Seq<Seq<(u32, u32, u32, u32)>>)
    requires
        lists_fit(ordinals),
        forall|o: int| 0 <= o < ordinals.len() ==> (#[trigger] ordinals[o]).len() <= u32::MAX,
        tally_fits(t, sfxpost_v2::file_bytes(ordinals, true)),
    ensures
        ({
            let file = sfxpost_v2::file_bytes(ordinals, true);
            let after = tallied(t, file);
            &&& after.files == t.files + 1
            &&& after.entries == t.entries + entry_count(ordinals, ordinals.len() as int)
            &&& after.on_disk == t.on_disk + file.len()
            &&& after.reencoded == t.reencoded + file.len()
        }),
{
    lemma_lists_in_order(ordinals);
    lemma_order_is_nothing(ordinals);
    lemma_counts_grow(ordinals, 0, ordinals.len() as int);
}

} // verus!
