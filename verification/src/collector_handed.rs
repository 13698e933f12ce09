//! What a collector hands on under final ordinals: of each token what was
//! collected of it.

use vstd::prelude::*;
use vstd::relations::*;
use vstd::utf8::*;

use crate::bytes;
use crate::collector_data;
use crate::collector_data::{SfxCollectorDataV3, WordPostingEntry};
use crate::collector_laws;
use crate::collector_v3;
use crate::collector_v3::{Collected, TokenMetaV3};
use crate::collector_words;
use crate::sibling_table;
use crate::sibling_table::SiblingEntry;
use crate::termtexts_v3::TermMetaV3;
use crate::text_order;

verus! {

/// Whether the entry is this occurrence, field by field.
pub open spec fn is_entry(e: WordPostingEntry, q: (u32, u32, u32, u32, u32, u16)) -> bool {
    &&& e.doc_id == q.0
    &&& e.first_position == q.1
    &&& e.last_position == q.2
    &&& e.byte_from == q.3
    &&& e.byte_to == q.4
    &&& e.tail_off == q.5
}

/// Whether the kept shape is that of the token, field by field.
pub open spec fn is_shape(m: TermMetaV3, t: TokenMetaV3) -> bool {
    &&& m.own_len == t.own_len
    &&& m.sep_len == t.sep_len
    &&& m.overlap_len == t.overlap_len
    &&& m.is_word_start == t.is_word_start
    &&& m.is_word_stripped == t.is_word_stripped
}

/// Law: under its final ordinal a token has its text, its own length and its
/// id; a chunk the documents and positions that it was posted at, each once and
/// no others; a word its occurrences, all and as they were collected.
pub proof fn tokens_keep_what_was_collected(
    data: SfxCollectorDataV3,
    c: Collected,
    positions: bool,
    ids: Option<Seq<u64>>,
    fresh: Seq<bool>,
    t: u32,
)
    requires
        collector_words::words_named(c),
        c.texts.len() <= u32::MAX,
        t < c.texts.len(),
        collector_data::data_of(data, c, positions, ids, fresh),
    ensures
        ({
            let o = data.intern_to_final@[t as int] as int;
            &&& o < data.tokens@.len()
            &&& encode_utf8(data.tokens@[o]@) == c.texts[t as int]
            &&& data.own_lens@[o] == c.metas[t as int].own_len
            &&& !c.metas[t as int].is_word_stripped ==> {
                &&& forall|d: u32, p: u32| #[trigger]
                    data.content_postings@[o]@.contains((d, p)) <==> exists|i: int|
                        0 <= i < c.postings[t as int].len() && (#[trigger] c.postings[t as int][i]).0 == d
                            && c.postings[t as int][i].1 == p
                &&& data.content_postings@[o]@.no_duplicates()
                &&& data.word_postings@[o]@.len() == 0
            }
            &&& c.metas[t as int].is_word_stripped ==> {
                &&& data.content_postings@[o]@.len() == 0
                &&& t < c.word_postings.len() ==> data.word_postings@[o]@.len() == c.word_postings[t as int].len()
                    && forall|i: int|
                    0 <= i < c.word_postings[t as int].len() ==> is_entry(
                        #[trigger] data.word_postings@[o]@[i],
                        c.word_postings[t as int][i],
                    )
                &&& t >= c.word_postings.len() ==> data.word_postings@[o]@.len() == 0
            }
            &&& ids matches Some(g) ==> (data.globals->0)@[o] == g[t as int] as u32
        }),
{
    let order = collector_data::final_order(c, ids);
    let o = data.intern_to_final@[t as int] as int;
    collector_words::every_token_has_a_final_ordinal(c, ids, t);
    assert(data.intern_to_final@[t as int] == collector_data::final_ordinal(order, t));
    assert(order[o] == t);
    assert(collector_v3::texts_of(data.tokens@).len() == order.len());
    assert(collector_v3::texts_of(data.tokens@)[o] == encode_utf8(data.tokens@[o]@));
    assert(collector_v3::contents(data.content_postings@).len() == order.len());
    assert(collector_v3::contents(data.content_postings@)[o] == data.content_postings@[o]@);
    assert(collector_v3::contents(data.word_postings@).len() == order.len());
    assert(collector_v3::contents(data.word_postings@)[o] == data.word_postings@[o]@);
    assert(data.content_postings@[o]@ == collector_data::chunk_places(c, t));
    assert(data.word_postings@[o]@ == collector_data::word_places(c, t));
    if !c.metas[t as int].is_word_stripped {
        let all = collector_data::places(c.postings[t as int]);
        collector_laws::postings_are_ordered(c, t, (0u32, 0u32));
        assert forall|d: u32, p: u32| #[trigger] data.content_postings@[o]@.contains((d, p)) <==> exists|i: int|
            0 <= i < c.postings[t as int].len() && (#[trigger] c.postings[t as int][i]).0 == d
                && c.postings[t as int][i].1 == p by {
            collector_laws::postings_are_ordered(c, t, (d, p));
            if all.contains((d, p)) {
                let i = choose|i: int| 0 <= i < all.len() && all[i] == (d, p);
                assert(c.postings[t as int][i].0 == d);
            }
            if exists|i: int|
                0 <= i < c.postings[t as int].len() && (#[trigger] c.postings[t as int][i]).0 == d
                    && c.postings[t as int][i].1 == p {
                let i = choose|i: int|
                    0 <= i < c.postings[t as int].len() && (#[trigger] c.postings[t as int][i]).0 == d
                        && c.postings[t as int][i].1 == p;
                assert(all[i] == (d, p));
            }
        }
    }
}

proof fn lemma_final_pair(c: Collected, ids: Option<Seq<u64>>, a: u32, b: u32)
    requires
        collector_words::words_named(c),
        c.texts.len() <= u32::MAX,
        a < c.texts.len(),
        b < c.texts.len(),
        collector_data::final_ordinal(collector_data::final_order(c, ids), a) == collector_data::final_ordinal(
            collector_data::final_order(c, ids),
            b,
        ),
    ensures
        a == b,
{
    collector_words::every_token_has_a_final_ordinal(c, ids, a);
    collector_words::every_token_has_a_final_ordinal(c, ids, b);
}

/// Law: with positions, the file of links has one token behind another, with
/// nothing between them, exactly if the collector linked the two.
pub proof fn handed_on_links_are_those_collected(
    data: SfxCollectorDataV3,
    c: Collected,
    ids: Option<Seq<u64>>,
    fresh: Seq<bool>,
    a: u32,
    b: u32,
)
    requires
        collector_words::words_named(c),
        c.texts.len() <= u32::MAX,
        a < c.texts.len(),
        b < c.texts.len(),
        forall|i: int|
            0 <= i < c.pairs.len() ==> (#[trigger] c.pairs[i]).0 < c.texts.len() && c.pairs[i].1
                < c.texts.len(),
        collector_data::data_of(data, c, true, ids, fresh),
        bytes::flat(
            sibling_table::link_runs(
                c.texts.len() as u32,
                sibling_table::rows(
                    collector_data::final_links(c, collector_data::final_order(c, ids)),
                ),
            ),
        ).len() <= u32::MAX,
    ensures
        sibling_table::siblings_in(data.sibling_v3@, data.intern_to_final@[a as int]).contains(
            SiblingEntry { next_ordinal: data.intern_to_final@[b as int], gap_len: 0 },
        ) <==> c.pairs.contains((a, b)),
{
    let order = collector_data::final_order(c, ids);
    let links = collector_data::final_links(c, order);
    let n = order.len() as u32;
    let x = data.intern_to_final@[a as int];
    let y = data.intern_to_final@[b as int];
    let e = SiblingEntry { next_ordinal: y, gap_len: 0 };
    collector_words::every_token_has_a_final_ordinal(c, ids, a);
    collector_words::every_token_has_a_final_ordinal(c, ids, b);
    assert(x == collector_data::final_ordinal(order, a));
    assert(y == collector_data::final_ordinal(order, b));
    sibling_table::written_siblings_read_back(n, links, x);
    sibling_table::recorded_links_are_the_rows(links, x, e);
    if links.contains((x, y, 0u16)) {
        let i = choose|i: int| 0 <= i < links.len() && links[i] == (x, y, 0u16);
        assert(c.pairs[i].0 < c.texts.len());
        lemma_final_pair(c, ids, c.pairs[i].0, a);
        lemma_final_pair(c, ids, c.pairs[i].1, b);
        assert(c.pairs[i] == (a, b));
    }
    if c.pairs.contains((a, b)) {
        let i = choose|i: int| 0 <= i < c.pairs.len() && c.pairs[i] == (a, b);
        assert(links[i] == (x, y, 0u16));
    }
}

proof fn lemma_new_tokens(c: Collected, order: Seq<u32>, ids: Seq<u64>, fresh: Seq<bool>, k: int) -> (at: Seq<int>)
    requires
        0 <= k <= order.len(),
    ensures
        ({
            let all = collector_data::new_tokens(c, order, ids, fresh, k);
            &&& at.len() == all.len()
            &&& forall|i: int|
                0 <= i < at.len() ==> 0 <= (#[trigger] at[i]) < k && fresh[order[at[i]] as int] && all[i].0
                    == ids[order[at[i]] as int] as u32 && all[i].1 == c.texts[order[at[i]] as int] && is_shape(
                    all[i].2,
                    c.metas[order[at[i]] as int],
                )
            &&& forall|j: int| 0 <= j < k && fresh[#[trigger] order[j] as int] ==> at.contains(j)
            &&& forall|i: int, j: int| 0 <= i < j < at.len() ==> (#[trigger] at[i]) < (#[trigger] at[j])
        }),
    decreases k,
{
    if k <= 0 {
        Seq::empty()
    } else {
        let before = lemma_new_tokens(c, order, ids, fresh, k - 1);
        if fresh[order[k - 1] as int] {
            let at = before.push(k - 1);
            assert forall|j: int| 0 <= j < k && fresh[#[trigger] order[j] as int] implies at.contains(j) by {
                if j < k - 1 {
                    assert(before.contains(j));
                    let i = choose|i: int| 0 <= i < before.len() && before[i] == j;
                    assert(at[i] == j);
                } else {
                    assert(at[at.len() - 1] == j);
                }
            }
            at
        } else {
            before
        }
    }
}

/// Whether the entry is the new token: its id, text and shape.
pub open spec fn is_new_entry(e: (u32, Seq<u8>, TermMetaV3), c: Collected, ids: Seq<u64>, t: u32) -> bool {
    e.0 == ids[t as int] as u32 && e.1 == c.texts[t as int] && is_shape(e.2, c.metas[t as int])
}

/// Whether the entry is that of some new token.
pub open spec fn is_of_new(e: (u32, Seq<u8>, TermMetaV3), c: Collected, ids: Seq<u64>, fresh: Seq<bool>) -> bool {
    exists|t: u32| t < c.texts.len() && fresh[t as int] && #[trigger] is_new_entry(e, c, ids, t)
}

/// Whether some entry is that of the token.
pub open spec fn has_entry(all: Seq<(u32, Seq<u8>, TermMetaV3)>, c: Collected, ids: Seq<u64>, t: u32) -> bool {
    exists|i: int| 0 <= i < all.len() && is_new_entry(#[trigger] all[i], c, ids, t)
}

/// Law: what is handed on for a dictionary are the tokens that are new to it,
/// each with its id, text and shape, and no others.
pub proof fn new_tokens_are_handed_on(
    data: SfxCollectorDataV3,
    c: Collected,
    positions: bool,
    ids: Seq<u64>,
    fresh: Seq<bool>,
)
    requires
        collector_words::words_named(c),
        c.texts.len() <= u32::MAX,
        collector_data::data_of(data, c, positions, Some(ids), fresh),
    ensures
        ({
            let all = collector_data::new_of(data.newtexts@);
            &&& forall|i: int| 0 <= i < all.len() ==> is_of_new(#[trigger] all[i], c, ids, fresh)
            &&& forall|t: u32| t < c.texts.len() && fresh[t as int] ==> #[trigger] has_entry(all, c, ids, t)
        }),
{
    let order = collector_data::final_order(c, Some(ids));
    let all = collector_data::new_of(data.newtexts@);
    let n = order.len() as int;
    let at = lemma_new_tokens(c, order, ids, fresh, n);
    collector_data::lemma_final_order(c, Some(ids));
    assert forall|i: int| 0 <= i < all.len() implies is_of_new(#[trigger] all[i], c, ids, fresh) by {
        assert(0 <= at[i] < n);
        assert(order.contains(order[at[i]]));
        assert(is_new_entry(all[i], c, ids, order[at[i]]));
    }
    assert forall|t: u32| t < c.texts.len() && fresh[t as int] implies #[trigger] has_entry(all, c, ids, t) by {
        collector_words::every_token_has_a_final_ordinal(c, Some(ids), t);
        let j = collector_data::final_ordinal(order, t) as int;
        assert(order[j] == t);
        assert(at.contains(j));
        let i = choose|i: int| 0 <= i < at.len() && at[i] == j;
        assert(0 <= at[i] < n);
        assert(is_new_entry(all[i], c, ids, t));
    }
}

/// Law: final ordinals go by the ids of a dictionary where tokens have them;
/// else chunks stand before words, and either by their texts.
pub proof fn final_ordinals_follow_ids_or_texts(c: Collected, ids: Option<Seq<u64>>, i: int, j: int)
    requires
        c.texts.len() <= u32::MAX,
        0 <= i < j < collector_data::final_order(c, ids).len(),
    ensures
        ({
            let a = collector_data::final_order(c, ids)[i] as int;
            let b = collector_data::final_order(c, ids)[j] as int;
            &&& ids matches Some(g) ==> g[a] <= g[b]
            &&& ids is None ==> {
                &&& c.metas[a].is_word_stripped ==> c.metas[b].is_word_stripped
                &&& c.metas[a].is_word_stripped == c.metas[b].is_word_stripped ==> !text_order::lex_lt(
                    c.texts[b],
                    c.texts[a],
                )
            }
        }),
{
    let some = collector_data::all_tokens(c.texts.len()).filter(collector_data::kept(c));
    let order = collector_data::final_order(c, ids);
    let rel = match ids {
        Some(g) => collector_data::by_id(g),
        None => collector_data::by_shape(c.texts, c.metas),
    };
    collector_data::lemma_by_shape_total(c.texts, c.metas);
    assert(total_ordering(rel));
    some.lemma_sort_by_ensures(rel);
    assert(rel(order[i], order[j]));
    let a = order[i] as int;
    let b = order[j] as int;
    text_order::lemma_lex_irreflexive(c.texts[a]);
    if text_order::lex_lt(c.texts[a], c.texts[b]) && text_order::lex_lt(c.texts[b], c.texts[a]) {
        text_order::lemma_lex_transitive(c.texts[a], c.texts[b], c.texts[a]);
    }
}

} // verus!
