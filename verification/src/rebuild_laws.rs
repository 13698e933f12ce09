//! Rebuilding the files of a segment gives the files that were written.

use vstd::prelude::*;

use crate::block_offsets;
use crate::bytes;
use crate::collector_data;
use crate::collector_data::SfxCollectorDataV3;
use crate::collector_laws;
use crate::collector_trace;
use crate::collector_v3;
use crate::collector_v3::{Chunk, Collected};
use crate::derived;
use crate::derived_laws;
use crate::index_registry;
use crate::order;
use crate::order::Ordered;
use crate::own_lens;
use crate::own_lens::OwnLens;
use crate::posmap;
use crate::posmap::{EMPTY, EMPTY_NARROW, MAGIC_CHECKED};
use crate::sfxpost_v2;
use crate::sibling_table;

verus! {

/// The chunk postings by final ordinal, as they go into a file without byte
/// spans.
pub open spec fn post_lists(c: Collected, order: Seq<u32>) -> Seq<Seq<(u32, u32, u32, u32)>> {
    Seq::new(order.len(), |k: int| without_spans(collector_data::chunk_places(c, order[k])))
}

/// Positions as entries without byte spans.
pub open spec fn without_spans(list: Seq<(u32, u32)>) -> Seq<(u32, u32, u32, u32)> {
    Seq::new(list.len(), |i: int| (list[i].0, list[i].1, 0u32, 0u32))
}

/// Whether the chunk postings fit in their file.
pub open spec fn postings_fit(c: Collected, order: Seq<u32>) -> bool {
    let posts = post_lists(c, order);
    let blocks = sfxpost_v2::ordinals_bytes(posts, false);
    &&& posts.len() < u32::MAX
    &&& bytes::flat(blocks).len() <= u32::MAX
    &&& bytes::flat(block_offsets::all_blocks(bytes::starts32(blocks))).len() <= u32::MAX
    &&& forall|k: int| 0 <= k < posts.len() ==> (#[trigger] posts[k]).len() <= u32::MAX
}

/// Entries that are in order are read back as they are.
#[verifier::spinoff_prover]
#[verifier::rlimit(50)]
proof fn lemma_entries_kept(posts: Seq<Seq<(u32, u32, u32, u32)>>, k: int)
    requires
        0 <= k < posts.len() < u32::MAX,
        bytes::flat(sfxpost_v2::ordinals_bytes(posts, false)).len() <= u32::MAX,
        bytes::flat(block_offsets::all_blocks(bytes::starts32(sfxpost_v2::ordinals_bytes(posts, false)))).len()
            <= u32::MAX,
        posts[k].len() <= u32::MAX,
        order::is_sorted(posts[k]),
        forall|i: int| 0 <= i < posts[k].len() ==> (#[trigger] posts[k][i]).2 == 0 && posts[k][i].3 == 0,
    ensures
        sfxpost_v2::entries_for(sfxpost_v2::file_bytes(posts, false), None, k as u32) == posts[k],
{
    sfxpost_v2::written_file_reads_back(posts, false, k);
    order::lemma_sorted_is(posts[k], posts[k]);
}

/// The positions of an ordinal are those that were collected.
proof fn lemma_list_kept(c: Collected, order: Seq<u32>, k: int)
    requires
        postings_fit(c, order),
        0 <= k < order.len(),
    ensures
        derived::positions_of(sfxpost_v2::entries_for(sfxpost_v2::file_bytes(post_lists(c, order), false), None, k as u32))
            == collector_data::chunk_places(c, order[k]),
{
    let posts = post_lists(c, order);
    let list = collector_data::chunk_places(c, order[k]);
    assert(posts[k] == without_spans(list));
    assert(posts[k].len() <= u32::MAX);
    if !c.metas[order[k] as int].is_word_stripped {
        collector_laws::postings_are_ordered(c, order[k], (0, 0));
    }
    assert forall|i: int, j: int| 0 <= i < j < posts[k].len() implies (#[trigger] posts[k][i]).not_after(
        #[trigger] posts[k][j],
    ) by {
        assert(list[i].not_after(list[j]));
    }
    lemma_entries_kept(posts, k);
    assert(derived::positions_of(posts[k]) =~= list);
}

/// The positions of a posting file are those that were collected.
proof fn lemma_positions_kept(c: Collected, order: Seq<u32>)
    requires
        postings_fit(c, order),
    ensures
        derived::position_lists(sfxpost_v2::file_bytes(post_lists(c, order), false), None, order.len() as int) == derived_laws::place_lists(
            c,
            order,
        ),
{
    let file = sfxpost_v2::file_bytes(post_lists(c, order), false);
    let lists = derived::position_lists(file, None, order.len() as int);
    assert forall|k: int| 0 <= k < order.len() implies #[trigger] lists[k] == derived_laws::place_lists(c, order)[k] by {
        lemma_list_kept(c, order, k);
    }
    assert(lists =~= derived_laws::place_lists(c, order));
}

/// Law: what is rebuilt from the postings of collected documents is what the
/// collector writes: the words at positions always, and the links between
/// tokens where every word with a tail that starts in its first chunk has a
/// final ordinal before that of the tail.
pub proof fn rebuilt_files_are_those_written(
    docs: Seq<Seq<Seq<Chunk>>>,
    overlap: int,
    ids: Option<Seq<u64>>,
)
    requires
        derived_laws::docs_ok(docs),
        collector_trace::docs_fit(docs, overlap),
        ({
            let c = collector_trace::after_docs(docs, overlap, docs.len() as int);
            postings_fit(c, collector_data::final_order(c, ids))
        }),
    ensures
        ({
            let c = collector_trace::after_docs(docs, overlap, docs.len() as int);
            let order = collector_data::final_order(c, ids);
            let num = order.len() as u32;
            let file = sfxpost_v2::file_bytes(post_lists(c, order), false);
            let slots = derived::position_docs(derived::position_lists(file, None, num as int), num as int);
            let words = derived::counted(Some(collector_data::word_lists(c, order)), num);
            &&& collector_data::word_map_file(words) == collector_data::word_map_file(collector_data::word_lists(c, order))
            &&& derived_laws::words_before_tails(collector_data::word_lists(c, order)) ==> sibling_table::table_bytes(
                num,
                derived::all_links(slots, words),
            ) == sibling_table::table_bytes(num, collector_data::final_links(c, order))
        }),
{
    let c = collector_trace::after_docs(docs, overlap, docs.len() as int);
    let order = collector_data::final_order(c, ids);
    collector_data::lemma_final_order(c, ids);
    lemma_positions_kept(c, order);
    if derived_laws::words_before_tails(collector_data::word_lists(c, order)) {
        derived_laws::rebuilt_links_are_those_written(docs, overlap, ids);
    }
}

/// Files with the same slots and the same lengths are the same.
proof fn lemma_same_lengths<L: OwnLens, M: OwnLens>(slots: Seq<u32>, a: L, b: M, p: int)
    requires
        forall|o: u32| a.len_of(o) == #[trigger] b.len_of(o),
    ensures
        posmap::byte_before(slots, a, p) == posmap::byte_before(slots, b, p),
    decreases p,
{
    if p > 0 && slots[p - 1] != EMPTY {
        lemma_same_lengths(slots, a, b, p - 1);
        assert(a.len_of(slots[p - 1]) == b.len_of(slots[p - 1]));
    }
}

/// Law: the ordinals at positions that are rebuilt from a posting file are
/// those that the index registry builds from it, given the same own lengths.
pub proof fn rebuilt_positions_are_those_registered<F: Fn(u32) -> Option<u16>>(
    data: &[u8],
    num: u32,
    own_len: &F,
    lens: Vec<u16>,
)
    requires
        sfxpost_v2::opens(data@),
        forall|o: u32| #[trigger] lens.len_of(o) == own_lens::answer(*own_len, o),
    ensures
        posmap::posmap_bytes(
            derived::position_docs(derived::position_lists(data@, None, num as int), num as int),
            posmap::lens_of(Some(own_len)),
        ) == posmap::posmap_bytes(index_registry::posting_docs(Some(data), num as int), Some(lens)),
{
    let docs = index_registry::posting_docs(Some(data), num as int);
    let same = derived::position_docs(derived::position_lists(data@, None, num as int), num as int);
    assert(docs == same);
    let a = posmap::lens_of(Some(own_len));
    let b = Some(lens);
    assert forall|d: int| 0 <= d < docs.len() implies posmap::doc_runs(docs, a)[d] == #[trigger] posmap::doc_runs(
        docs,
        b,
    )[d] by {
        let slots = docs[d];
        let x = posmap::checkpoints(slots, a->0);
        let y = posmap::checkpoints(slots, b->0);
        assert forall|k: int| 0 <= k < x.len() implies x[k] == #[trigger] y[k] by {
            assert forall|o: u32| (a->0).len_of(o) == #[trigger] (b->0).len_of(o) by {
            }
            lemma_same_lengths(slots, a->0, b->0, 16 * k);
        }
        assert(x =~= y);
    }
    let x = posmap::doc_runs(docs, a);
    let y = posmap::doc_runs(docs, b);
    assert(x =~= y);
    assert(posmap::posmap_bytes(docs, a) == posmap::posmap_bytes(docs, b));
}

/// Law: the ordinals at positions that are rebuilt from the postings of
/// collected documents read back the chunk postings: a position gives an
/// ordinal exactly if it is among the postings of the ordinal. With own lengths
/// and ordinals that fit in three bytes the file has byte checkpoints.
pub proof fn rebuilt_positions_read_back<L: OwnLens>(
    docs: Seq<Seq<Seq<Chunk>>>,
    overlap: int,
    ids: Option<Seq<u64>>,
    lens: Option<L>,
    d: u32,
    p: u32,
    o: u32,
)
    requires
        derived_laws::docs_ok(docs),
        collector_trace::docs_fit(docs, overlap),
        ({
            let c = collector_trace::after_docs(docs, overlap, docs.len() as int);
            let order = collector_data::final_order(c, ids);
            let file = sfxpost_v2::file_bytes(post_lists(c, order), false);
            let slots = derived::position_docs(
                derived::position_lists(file, None, order.len() as int),
                order.len() as int,
            );
            postings_fit(c, order) && bytes::flat(posmap::doc_runs(slots, lens)).len() <= u64::MAX
        }),
    ensures
        ({
            let c = collector_trace::after_docs(docs, overlap, docs.len() as int);
            let order = collector_data::final_order(c, ids);
            let file = sfxpost_v2::file_bytes(post_lists(c, order), false);
            let slots = derived::position_docs(
                derived::position_lists(file, None, order.len() as int),
                order.len() as int,
            );
            let map = posmap::posmap_bytes(slots, lens);
            &&& posmap::opens(map)
            &&& posmap::local_at(map, d, p) == Some(o) <==> o < order.len()
                && collector_data::chunk_places(c, order[o as int]).contains((d, p))
            &&& lens is Some && order.len() <= EMPTY_NARROW ==> bytes::tagged(map, MAGIC_CHECKED)
        }),
{
    let c = collector_trace::after_docs(docs, overlap, docs.len() as int);
    let order = collector_data::final_order(c, ids);
    let n = order.len() as int;
    lemma_positions_kept(c, order);
    let lists = derived_laws::place_lists(c, order);
    let slots = derived::position_docs(lists, n);
    derived_laws::lemma_collected_places(docs, overlap, ids);
    derived_laws::lemma_slots_fit(lists, n);
    posmap::written_positions_read_back(slots, lens, d, p);
    derived_laws::a_slot_has_the_last_ordinal(lists, n, d as int, p as int);
    derived_laws::lemma_only_one_at(lists, n, d as int, p as int, o);
    if o < n {
        let list = collector_data::chunk_places(c, order[o as int]);
        assert(lists[o as int] == list);
        if list.contains((d, p)) {
            let i = choose|i: int| 0 <= i < list.len() && list[i] == (d, p);
            assert(list[i].0 == d);
        }
        if derived_laws::at_place(list, d as int, p as int) {
            let i = choose|i: int|
                0 <= i < list.len() && (#[trigger] list[i]).0 == d && list[i].1 == p;
            assert(list[i] == (d, p));
        }
    }
    if n <= EMPTY_NARROW {
        assert forall|x: int, y: int| 0 <= x < slots.len() && 0 <= y < slots[x].len() implies posmap::fits_narrow(
            #[trigger] slots[x][y],
        ) by {
            derived_laws::a_slot_has_the_last_ordinal(lists, n, x, y);
            lemma_last_below(lists, n, x, y);
        }
        assert(posmap::narrow(slots));
        posmap::lemma_magic(slots, lens);
    }
}

proof fn lemma_last_below(lists: Seq<Seq<(u32, u32)>>, m: int, d: int, p: int)
    requires
        m <= u32::MAX,
    ensures
        derived_laws::last_at(lists, m, d, p) matches Some(o) ==> o < m,
    decreases m,
{
    if m > 0 {
        lemma_last_below(lists, m - 1, d, p);
    }
}

/// Law: the ordinals at positions that the index registry builds from a posting
/// file hold every posting: a position gives the last ordinal with a posting
/// there, and none where there is no posting.
pub proof fn registered_positions_hold_every_posting<L: OwnLens>(
    data: Option<&[u8]>,
    num: int,
    lens: Option<L>,
    d: u32,
    p: u32,
)
    requires
        0 <= num <= u32::MAX,
        derived_laws::rows_fit(index_registry::posting_docs(data, num)),
        bytes::flat(posmap::doc_runs(index_registry::posting_docs(data, num), lens)).len()
            <= u64::MAX,
    ensures
        ({
            let map = posmap::posmap_bytes(index_registry::posting_docs(data, num), lens);
            &&& posmap::opens(map)
            &&& posmap::local_at(map, d, p) == derived_laws::last_at(
                index_registry::posting_lists(data, num),
                num,
                d as int,
                p as int,
            )
        }),
{
    let lists = index_registry::posting_lists(data, num);
    posmap::written_positions_read_back(index_registry::posting_docs(data, num), lens, d, p);
    derived_laws::a_slot_has_the_last_ordinal(lists, num, d as int, p as int);
}

/// Law: where no two ordinals share a position, the ordinals at positions that
/// the index registry builds give back every posting: a position has an ordinal
/// exactly if the ordinal has a posting there.
pub proof fn registered_positions_read_back<L: OwnLens>(
    data: Option<&[u8]>,
    num: int,
    lens: Option<L>,
    d: u32,
    p: u32,
    o: u32,
)
    requires
        0 <= num <= u32::MAX,
        derived_laws::one_to_a_place(index_registry::posting_lists(data, num)),
        derived_laws::rows_fit(index_registry::posting_docs(data, num)),
        bytes::flat(posmap::doc_runs(index_registry::posting_docs(data, num), lens)).len()
            <= u64::MAX,
    ensures
        posmap::local_at(
            posmap::posmap_bytes(index_registry::posting_docs(data, num), lens),
            d,
            p,
        ) == Some(o) <==> o < num && derived_laws::at_place(
            index_registry::posting_lists(data, num)[o as int],
            d as int,
            p as int,
        ),
{
    registered_positions_hold_every_posting(data, num, lens, d, p);
    derived_laws::lemma_only_one_at(
        index_registry::posting_lists(data, num),
        num,
        d as int,
        p as int,
        o,
    );
}

/// The postings that are handed on, as they go into a file without byte spans.
pub open spec fn posted(data: SfxCollectorDataV3) -> Seq<Seq<(u32, u32, u32, u32)>> {
    Seq::new(data.content_postings@.len(), |k: int| without_spans(data.content_postings@[k]@))
}

/// The positions that are rebuilt from the file of the postings.
pub open spec fn rebuilt_slots(data: SfxCollectorDataV3) -> Seq<Seq<u32>> {
    let num = data.tokens@.len() as int;
    derived::position_docs(
        derived::position_lists(sfxpost_v2::file_bytes(posted(data), false), None, num),
        num,
    )
}

/// Law: rebuilding the files of collected documents from their postings gives
/// what the collector handed on: the words at positions, the links between
/// tokens and, at each position, the ordinal whose posting it is. The links are
/// left out for chunks longer than the suffixes that are indexed, unless every
/// word still comes before its tail.
pub proof fn rebuilding_gives_what_was_handed_on<L: OwnLens>(
    docs: Seq<Seq<Seq<Chunk>>>,
    overlap: int,
    ids: Option<Seq<u64>>,
    fresh: Seq<bool>,
    data: SfxCollectorDataV3,
    lens: Option<L>,
    d: u32,
    p: u32,
    o: u32,
)
    requires
        derived_laws::docs_ok(docs),
        collector_trace::docs_fit(docs, overlap),
        ({
            let c = collector_trace::after_docs(docs, overlap, docs.len() as int);
            &&& collector_data::data_of(data, c, true, ids, fresh)
            &&& postings_fit(c, collector_data::final_order(c, ids))
        }),
        bytes::flat(posmap::doc_runs(rebuilt_slots(data), lens)).len() <= u64::MAX,
    ensures
        ({
            let num = data.tokens@.len() as u32;
            let file = sfxpost_v2::file_bytes(posted(data), false);
            let words = derived::counted(Some(collector_v3::contents(data.word_postings@)), num);
            let map = posmap::posmap_bytes(rebuilt_slots(data), lens);
            &&& bytes::get32(file, 4) == num
            &&& num == data.tokens@.len()
            &&& collector_data::word_map_file(words) == data.word_pos_map@
            &&& collector_trace::docs_short(docs) || derived_laws::words_before_tails(
                collector_v3::contents(data.word_postings@),
            ) ==> sibling_table::table_bytes(num, derived::all_links(rebuilt_slots(data), words))
                == data.sibling_v3@
            &&& posmap::opens(map)
            &&& posmap::local_at(map, d, p) == Some(o) <==> o < num
                && data.content_postings@[o as int]@.contains((d, p))
            &&& lens is Some && num <= EMPTY_NARROW ==> bytes::tagged(map, MAGIC_CHECKED)
        }),
{
    broadcast use bytes::group_le_len;

    let c = collector_trace::after_docs(docs, overlap, docs.len() as int);
    let order = collector_data::final_order(c, ids);
    collector_data::lemma_final_order(c, ids);
    let lists = collector_v3::contents(data.content_postings@);
    assert(lists.len() == order.len());
    assert(collector_v3::texts_of(data.tokens@).len() == order.len());
    assert forall|k: int| 0 <= k < order.len() implies (#[trigger] data.content_postings@[k])@
        == collector_data::chunk_places(c, order[k]) by {
        assert(lists[k] == collector_data::chunk_places(c, order[k]));
    }
    assert(posted(data) =~= post_lists(c, order));
    let file = sfxpost_v2::file_bytes(posted(data), false);
    assert(file.subrange(4, 8) =~= bytes::le32(posted(data).len() as u32));
    bytes::lemma_get32(file, 4, posted(data).len() as u32);
    rebuilt_files_are_those_written(docs, overlap, ids);
    rebuilt_positions_read_back(docs, overlap, ids, lens, d, p, o);
    if collector_trace::docs_short(docs) {
        derived_laws::short_chunks_keep_tails_apart(docs, overlap, ids);
    }
}

} // verus!
