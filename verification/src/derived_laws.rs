//! The links that are rebuilt from postings are those that were collected.

use vstd::prelude::*;

use crate::collector_data;
use crate::collector_data::WordPostingEntry;
use crate::collector_laws;
use crate::collector_trace;
use crate::collector_trace::Trace;
use crate::collector_v3;
use crate::collector_v3::{Chunk, Collected};
use crate::derived;
use crate::offset_table;
use crate::order;
use crate::order::Ordered;
use crate::posmap;
use crate::posmap::EMPTY;
use crate::sibling_table;

verus! {

/// The chunk postings by final ordinal.
pub open spec fn place_lists(c: Collected, order: Seq<u32>) -> Seq<Seq<(u32, u32)>> {
    Seq::new(order.len(), |k: int| collector_data::chunk_places(c, order[k]))
}

/// Whether a list has the position.
pub open spec fn at_place(list: Seq<(u32, u32)>, d: int, p: int) -> bool {
    exists|i: int| 0 <= i < list.len() && (#[trigger] list[i]).0 == d && list[i].1 == p
}

proof fn lemma_slot_stands(docs: Seq<Seq<u32>>, d0: int, p0: int, value: u32, d: int, p: int)
    requires
        0 <= d0,
        0 <= p0,
        0 <= d,
        0 <= p,
        value != EMPTY,
    ensures
        derived::standing(posmap::with_slot(docs, d0, p0, value), d, p) == if d == d0 && p == p0 {
            Some(value)
        } else {
            derived::standing(docs, d, p)
        },
{
    let g = offset_table::grown(docs, d0 + 1);
    let row = offset_table::padded(g[d0], p0 + 1, EMPTY);
    let s = posmap::with_slot(docs, d0, p0, value);
    assert(s == g.update(d0, row.update(p0, value)));
    if d != d0 {
        if d < docs.len() {
            assert(s[d] == docs[d]);
        } else if d < g.len() {
            assert(s[d] =~= Seq::<u32>::empty());
        }
    } else {
        assert(s[d] == row.update(p0, value));
        if d < docs.len() {
            assert(g[d] == docs[d]);
        } else {
            assert(g[d] =~= Seq::<u32>::empty());
        }
    }
}

proof fn lemma_list_stands(
    docs: Seq<Seq<u32>>,
    list: Seq<(u32, u32)>,
    ordinal: u32,
    j: int,
    d: int,
    p: int,
)
    requires
        0 <= j <= list.len(),
        0 <= d,
        0 <= p,
        ordinal != EMPTY,
    ensures
        derived::standing(derived::with_positions(docs, list, ordinal, j), d, p) == if at_place(list.take(j), d, p) {
            Some(ordinal)
        } else {
            derived::standing(docs, d, p)
        },
    decreases j,
{
    if j > 0 {
        lemma_list_stands(docs, list, ordinal, j - 1, d, p);
        lemma_slot_stands(
            derived::with_positions(docs, list, ordinal, j - 1),
            list[j - 1].0 as int,
            list[j - 1].1 as int,
            ordinal,
            d,
            p,
        );
        let a = list.take(j - 1);
        let b = list.take(j);
        if at_place(a, d, p) {
            let i = choose|i: int| 0 <= i < a.len() && (#[trigger] a[i]).0 == d && a[i].1 == p;
            assert(b[i] == a[i]);
        }
        if list[j - 1].0 == d && list[j - 1].1 == p {
            assert(b[j - 1].0 == d);
        }
        if at_place(b, d, p) {
            let i = choose|i: int| 0 <= i < b.len() && (#[trigger] b[i]).0 == d && b[i].1 == p;
            if i < j - 1 {
                assert(a[i] == b[i]);
            }
        }
    }
}

/// Whether no position is that of two ordinals.
pub open spec fn one_to_a_place(lists: Seq<Seq<(u32, u32)>>) -> bool {
    forall|k: int, l: int, d: int, p: int|
        0 <= k < lists.len() && 0 <= l < lists.len() && #[trigger] at_place(lists[k], d, p)
            && #[trigger] at_place(lists[l], d, p) ==> k == l
}

proof fn lemma_docs_stand(lists: Seq<Seq<(u32, u32)>>, m: int, d: int, p: int)
    requires
        0 <= m <= lists.len(),
        lists.len() <= u32::MAX,
        0 <= d,
        0 <= p,
        one_to_a_place(lists),
    ensures
        forall|k: int|
            0 <= k < m && #[trigger] at_place(lists[k], d, p) ==> derived::standing(derived::position_docs(lists, m), d, p)
                == Some(k as u32),
        derived::standing(derived::position_docs(lists, m), d, p) matches Some(x) ==> x < m && at_place(
            lists[x as int],
            d,
            p,
        ),
    decreases m,
{
    if m > 0 {
        lemma_docs_stand(lists, m - 1, d, p);
        let list = lists[m - 1];
        lemma_list_stands(
            derived::position_docs(lists, m - 1),
            list,
            (m - 1) as u32,
            list.len() as int,
            d,
            p,
        );
        assert(list.take(list.len() as int) =~= list);
        assert forall|k: int| 0 <= k < m && #[trigger] at_place(lists[k], d, p) implies derived::standing(
            derived::position_docs(lists, m),
            d,
            p,
        ) == Some(k as u32) by {
            if at_place(lists[m - 1], d, p) {
                assert(k == m - 1);
            }
        }
    }
}

/// Whether the ordinals stand one behind the other.
pub open spec fn neighbours(docs: Seq<Seq<u32>>, d: int, p: int, x: u32, y: u32) -> bool {
    0 <= d && 0 <= p && derived::standing(docs, d, p) == Some(x) && derived::standing(docs, d, p + 1) == Some(y)
}

proof fn lemma_doc_links(slots: Seq<u32>, n: int, z: (u32, u32, u16))
    requires
        n <= slots.len(),
    ensures
        derived::doc_links(slots, n).contains(z) <==> z.2 == 0 && z.0 != EMPTY && z.1 != EMPTY && exists|p: int|
            0 <= p < n - 1 && #[trigger] slots[p] == z.0 && slots[p + 1] == z.1,
    decreases n,
{
    if n > 1 {
        lemma_doc_links(slots, n - 1, z);
        let before = derived::doc_links(slots, n - 1);
        let now = derived::doc_links(slots, n);
        if slots[n - 2] != EMPTY && slots[n - 1] != EMPTY {
            let x = (slots[n - 2], slots[n - 1], 0u16);
            assert(now == before.push(x));
            if before.contains(z) {
                let i = choose|i: int| 0 <= i < before.len() && before[i] == z;
                assert(now[i] == z);
            }
            assert(now[before.len() as int] == x);
            if now.contains(z) {
                let i = choose|i: int| 0 <= i < now.len() && now[i] == z;
                if i < before.len() {
                    assert(before[i] == z);
                } else {
                    assert(slots[n - 2] == z.0 && slots[n - 2 + 1] == z.1);
                }
            }
        }
    }
}

proof fn lemma_chunk_links(docs: Seq<Seq<u32>>, k: int, z: (u32, u32, u16))
    requires
        0 <= k <= docs.len(),
    ensures
        derived::chunk_links(docs, k).contains(z) <==> z.2 == 0 && exists|d: int, p: int|
            d < k && #[trigger] neighbours(docs, d, p, z.0, z.1),
    decreases k,
{
    if k > 0 {
        lemma_chunk_links(docs, k - 1, z);
        let slots = docs[k - 1];
        lemma_doc_links(slots, slots.len() as int, z);
        let before = derived::chunk_links(docs, k - 1);
        let more = derived::doc_links(slots, slots.len() as int);
        let now = before + more;
        if now.contains(z) {
            let i = choose|i: int| 0 <= i < now.len() && now[i] == z;
            if i < before.len() {
                assert(before[i] == z);
                let (d, p) = choose|d: int, p: int| d < k - 1 && #[trigger] neighbours(docs, d, p, z.0, z.1);
                assert(d < k && neighbours(docs, d, p, z.0, z.1));
            } else {
                assert(more[i - before.len()] == z);
                let p = choose|p: int|
                    0 <= p < slots.len() - 1 && #[trigger] slots[p] == z.0 && slots[p + 1] == z.1;
                assert(neighbours(docs, k - 1, p, z.0, z.1));
            }
        }
        if z.2 == 0 && exists|d: int, p: int| d < k && #[trigger] neighbours(docs, d, p, z.0, z.1) {
            let (d, p) = choose|d: int, p: int| d < k && #[trigger] neighbours(docs, d, p, z.0, z.1);
            if d < k - 1 {
                assert(before.contains(z));
                let i = choose|i: int| 0 <= i < before.len() && before[i] == z;
                assert(now[i] == z);
            } else {
                assert(slots[p] == z.0 && slots[p + 1] == z.1);
                assert(more.contains(z));
                let i = choose|i: int| 0 <= i < more.len() && more[i] == z;
                assert(now[before.len() + i] == z);
            }
        }
    }
}

/// The final ordinal of a token that has one leads back to it.
proof fn lemma_ordinal(c: Collected, ids: Option<Seq<u64>>, token: u32)
    requires
        c.texts.len() <= u32::MAX,
        token < c.texts.len(),
        !c.metas[token as int].is_word_stripped || c.has_word(token),
    ensures
        ({
            let order = collector_data::final_order(c, ids);
            let k = collector_data::final_ordinal(order, token);
            k < order.len() && order[k as int] == token
        }),
{
    collector_laws::final_ordinals_number_the_tokens(c, ids, token, 0);
    assert(collector_data::kept(c)(token));
}

/// A position is in the list of the ordinal whose token a value has there.
proof fn lemma_placed(c: Collected, t: Seq<Trace>, ids: Option<Seq<u64>>, k: int, d: int, p: int)
    requires
        collector_trace::traced(c, t),
        0 <= k < collector_data::final_order(c, ids).len(),
    ensures
        at_place(place_lists(c, collector_data::final_order(c, ids))[k], d, p) <==> collector_trace::stands(
            t,
            collector_data::final_order(c, ids)[k],
            d,
            p,
        ),
{
    let order = collector_data::final_order(c, ids);
    let token = order[k];
    collector_laws::final_ordinals_number_the_tokens(c, ids, 0, k);
    let list = place_lists(c, order)[k];
    assert(list == collector_data::chunk_places(c, token));
    if collector_trace::stands(t, token, d, p) {
        let v = choose|v: int| #[trigger] collector_trace::held(t, v, d, p, token);
        assert(collector_trace::trace_ok(c, t[v]));
        assert(t[v].chunks[p - t[v].ti] == token);
        let a = d as u32;
        let b = p as u32;
        assert(collector_trace::stands(t, token, a as int, b as int));
        assert(collector_trace::has_place(c, token, a, b));
        let own = c.postings[token as int];
        let i = choose|i: int| 0 <= i < own.len() && (#[trigger] own[i]).0 == a && own[i].1 == b;
        assert(collector_data::places(own)[i] == (a, b));
        collector_laws::postings_are_ordered(c, token, (a, b));
        assert(list.contains((a, b)));
        let j = choose|j: int| 0 <= j < list.len() && list[j] == (a, b);
        assert(list[j].0 == d);
    }
    if at_place(list, d, p) {
        let j = choose|j: int| 0 <= j < list.len() && (#[trigger] list[j]).0 == d && list[j].1 == p;
        let a = list[j].0;
        let b = list[j].1;
        assert(list.contains((a, b)));
        if !c.metas[token as int].is_word_stripped {
            collector_laws::postings_are_ordered(c, token, (a, b));
            let own = c.postings[token as int];
            let i = choose|i: int| 0 <= i < collector_data::places(own).len() && collector_data::places(own)[i] == (a, b);
            assert(own[i].0 == a && own[i].1 == b);
            assert(collector_trace::has_place(c, token, a, b));
        }
    }
}

/// One value at most has a position.
proof fn lemma_one_value(c: Collected, t: Seq<Trace>, v: int, w: int, d: int, p: int, a: u32, b: u32)
    requires
        collector_trace::traced(c, t),
        collector_trace::held(t, v, d, p, a),
        collector_trace::held(t, w, d, p, b),
    ensures
        v == w,
        a == b,
{
    if v < w {
        assert(collector_trace::comes_before(t[v], t[w].doc, t[w].ti as int));
    }
    if w < v {
        assert(collector_trace::comes_before(t[w], t[v].doc, t[v].ti as int));
    }
}

proof fn lemma_one_to_a_place(c: Collected, t: Seq<Trace>, ids: Option<Seq<u64>>)
    requires
        collector_trace::traced(c, t),
    ensures
        one_to_a_place(place_lists(c, collector_data::final_order(c, ids))),
{
    let order = collector_data::final_order(c, ids);
    let lists = place_lists(c, order);
    assert forall|k: int, l: int, d: int, p: int|
        0 <= k < lists.len() && 0 <= l < lists.len() && #[trigger] at_place(lists[k], d, p)
            && #[trigger] at_place(lists[l], d, p) implies k == l by {
        lemma_placed(c, t, ids, k, d, p);
        lemma_placed(c, t, ids, l, d, p);
        let v = choose|v: int| #[trigger] collector_trace::held(t, v, d, p, order[k]);
        let w = choose|w: int| #[trigger] collector_trace::held(t, w, d, p, order[l]);
        lemma_one_value(c, t, v, w, d, p, order[k], order[l]);
        collector_laws::final_ordinals_number_the_tokens(c, ids, 0, k);
        collector_laws::final_ordinals_number_the_tokens(c, ids, 0, l);
    }
}

/// The slots of the positions.
pub open spec fn slots_of(c: Collected, ids: Option<Seq<u64>>) -> Seq<Seq<u32>> {
    let order = collector_data::final_order(c, ids);
    derived::position_docs(place_lists(c, order), order.len() as int)
}

/// A slot has the final ordinal of the token that a value has there.
proof fn lemma_slots(c: Collected, t: Seq<Trace>, ids: Option<Seq<u64>>, d: int, p: int)
    requires
        collector_trace::traced(c, t),
        0 <= d,
        0 <= p,
    ensures
        forall|v: int, token: u32| #[trigger]
            collector_trace::held(t, v, d, p, token) ==> derived::standing(slots_of(c, ids), d, p) == Some(
                collector_data::final_ordinal(collector_data::final_order(c, ids), token),
            ) && collector_data::final_ordinal(collector_data::final_order(c, ids), token) < collector_data::final_order(c, ids).len()
                && collector_data::final_order(c, ids)[collector_data::final_ordinal(collector_data::final_order(c, ids), token) as int] == token,
        derived::standing(slots_of(c, ids), d, p) matches Some(x) ==> x < collector_data::final_order(c, ids).len() && collector_trace::stands(
            t,
            collector_data::final_order(c, ids)[x as int],
            d,
            p,
        ),
{
    let order = collector_data::final_order(c, ids);
    let lists = place_lists(c, order);
    collector_data::lemma_final_order(c, ids);
    lemma_one_to_a_place(c, t, ids);
    lemma_docs_stand(lists, order.len() as int, d, p);
    assert forall|v: int, token: u32| #[trigger] collector_trace::held(t, v, d, p, token) implies derived::standing(
        slots_of(c, ids),
        d,
        p,
    ) == Some(collector_data::final_ordinal(order, token)) && collector_data::final_ordinal(order, token) < order.len()
        && order[collector_data::final_ordinal(order, token) as int] == token by {
        assert(collector_trace::trace_ok(c, t[v]));
        assert(t[v].chunks[p - t[v].ti] == token);
        lemma_ordinal(c, ids, token);
        let k = collector_data::final_ordinal(order, token) as int;
        assert(collector_trace::stands(t, token, d, p));
        lemma_placed(c, t, ids, k, d, p);
        assert(at_place(lists[k], d, p));
    }
    if derived::standing(slots_of(c, ids), d, p) is Some {
        let x = derived::standing(slots_of(c, ids), d, p)->0;
        lemma_placed(c, t, ids, x as int, d, p);
    }
}

/// Whether the final ordinals are those of chunks one behind the other.
pub open spec fn chunks_linked(c: Collected, t: Seq<Trace>, order: Seq<u32>, x: u32, y: u32) -> bool {
    exists|v: int, i: int, a: u32, b: u32|
        0 <= v < t.len() && #[trigger] collector_trace::chunk_pair(t[v], i, a, b) && x == collector_data::final_ordinal(order, a) && y
            == collector_data::final_ordinal(order, b)
}

proof fn lemma_chunk_side(c: Collected, t: Seq<Trace>, ids: Option<Seq<u64>>, z: (u32, u32, u16))
    requires
        collector_trace::traced(c, t),
    ensures
        derived::chunk_links(slots_of(c, ids), slots_of(c, ids).len() as int).contains(z) <==> z.2 == 0
            && chunks_linked(c, t, collector_data::final_order(c, ids), z.0, z.1),
{
    let docs = slots_of(c, ids);
    let order = collector_data::final_order(c, ids);
    lemma_chunk_links(docs, docs.len() as int, z);
    if exists|d: int, p: int| d < docs.len() && #[trigger] neighbours(docs, d, p, z.0, z.1) {
        let (d, p) = choose|d: int, p: int| d < docs.len() && #[trigger] neighbours(docs, d, p, z.0, z.1);
        lemma_slots(c, t, ids, d, p);
        lemma_slots(c, t, ids, d, p + 1);
        let a = order[z.0 as int];
        let b = order[z.1 as int];
        let v = choose|v: int| #[trigger] collector_trace::held(t, v, d, p, a);
        let w = choose|w: int| #[trigger] collector_trace::held(t, w, d, p + 1, b);
        if v < w {
            assert(collector_trace::comes_before(t[v], t[w].doc, t[w].ti as int));
        }
        if w < v {
            assert(collector_trace::comes_before(t[w], t[v].doc, t[v].ti as int));
        }
        assert(v == w);
        assert(collector_trace::chunk_pair(t[v], p - t[v].ti, a, b));
    }
    if chunks_linked(c, t, order, z.0, z.1) {
        let (v, i, a, b) = choose|v: int, i: int, a: u32, b: u32|
            0 <= v < t.len() && #[trigger] collector_trace::chunk_pair(t[v], i, a, b) && z.0 == collector_data::final_ordinal(order, a)
                && z.1 == collector_data::final_ordinal(order, b);
        let d = t[v].doc as int;
        let p = t[v].ti + i;
        assert(collector_trace::held(t, v, d, p, a));
        assert(collector_trace::held(t, v, d, p + 1, b));
        lemma_slots(c, t, ids, d, p);
        lemma_slots(c, t, ids, d, p + 1);
        assert(neighbours(docs, d, p, z.0, z.1));
    }
}

/// A word of a value under its final ordinal: document, first and last
/// position, ordinal.
pub open spec fn word_of(t: Seq<Trace>, order: Seq<u32>, v: int, i: int) -> (u32, u32, u32, u32) {
    let w = t[v].words[i];
    (t[v].doc, w.0, w.1, collector_data::final_ordinal(order, w.2))
}

/// Whether this is word `i` of value `v`.
pub open spec fn main_at(t: Seq<Trace>, order: Seq<u32>, v: int, i: int, w: (u32, u32, u32, u32)) -> bool {
    0 <= v < t.len() && 0 <= i < t[v].words.len() && w == word_of(t, order, v, i)
}

/// Whether this is a word of some value.
pub open spec fn is_main(t: Seq<Trace>, order: Seq<u32>, w: (u32, u32, u32, u32)) -> bool {
    exists|v: int, i: int| #[trigger] main_at(t, order, v, i, w)
}

/// Words that share a position are the same.
proof fn lemma_words_apart(
    c: Collected,
    t: Seq<Trace>,
    order: Seq<u32>,
    v: int,
    i: int,
    x: int,
    j: int,
    p: int,
)
    requires
        collector_trace::traced(c, t),
        0 <= v < t.len(),
        0 <= x < t.len(),
        0 <= i < t[v].words.len(),
        0 <= j < t[x].words.len(),
        t[v].doc == t[x].doc,
        t[v].words[i].0 <= p <= t[v].words[i].1,
        t[x].words[j].0 <= p <= t[x].words[j].1,
    ensures
        v == x,
        i == j,
{
    assert(collector_trace::trace_ok(c, t[v]));
    assert(collector_trace::trace_ok(c, t[x]));
    if v < x {
        assert(collector_trace::comes_before(t[v], t[x].doc, t[x].ti as int));
    }
    if x < v {
        assert(collector_trace::comes_before(t[x], t[v].doc, t[v].ti as int));
    }
    if i < j {
        assert(t[v].words[i].1 < t[v].words[j].0);
    }
    if j < i {
        assert(t[v].words[j].1 < t[v].words[i].0);
    }
}

/// Whether a word stands before its tail where both start at one position.
pub open spec fn words_before_tails(lists: Seq<Seq<WordPostingEntry>>) -> bool {
    forall|k: int, l: int, i: int, j: int|
        0 <= k < lists.len() && 0 <= l < lists.len() && 0 <= i < lists[k].len() && 0 <= j
            < lists[l].len() && (#[trigger] lists[k][i]).tail_off == 0 && same_span(
            lists[k][i],
            #[trigger] lists[l][j],
        ) ==> k <= l
}

/// Whether occurrences stand at the same positions.
pub open spec fn same_span(a: WordPostingEntry, b: WordPostingEntry) -> bool {
    a.doc_id == b.doc_id && a.first_position == b.first_position && a.last_position == b.last_position
}

/// Whether an ordinal has the occurrence.
pub open spec fn occurs(lists: Seq<Seq<WordPostingEntry>>, w: (u32, u32, u32, u32), i: int) -> bool {
    w.3 < lists.len() && 0 <= i < lists[w.3 as int].len() && derived::occurrence(lists[w.3 as int][i], w.3) == w
}

proof fn lemma_occurrences(lists: Seq<Seq<WordPostingEntry>>, k: int, w: (u32, u32, u32, u32))
    requires
        0 <= k <= lists.len(),
        lists.len() <= u32::MAX,
    ensures
        derived::occurrences(lists, k).contains(w) <==> w.3 < k && exists|i: int| #[trigger] occurs(lists, w, i),
    decreases k,
{
    if k > 0 {
        lemma_occurrences(lists, k - 1, w);
        let before = derived::occurrences(lists, k - 1);
        let more = Seq::new(lists[k - 1].len(), |i: int| derived::occurrence(lists[k - 1][i], (k - 1) as u32));
        let now = derived::occurrences(lists, k);
        assert(now == before + more);
        if now.contains(w) {
            let i = choose|i: int| 0 <= i < now.len() && now[i] == w;
            if i < before.len() {
                assert(before[i] == w);
            } else {
                assert(more[i - before.len()] == w);
                assert(occurs(lists, w, i - before.len()));
            }
        }
        if w.3 < k && exists|i: int| #[trigger] occurs(lists, w, i) {
            let i = choose|i: int| #[trigger] occurs(lists, w, i);
            if w.3 < k - 1 {
                assert(before.contains(w));
                let j = choose|j: int| 0 <= j < before.len() && before[j] == w;
                assert(now[j] == w);
            } else {
                assert(more[i] == w);
                assert(now[before.len() + i] == w);
            }
        }
    }
}

/// Every occurrence is a word or the tail of one that comes no later, and
/// every word occurs.
proof fn lemma_word_or_tail(
    c: Collected,
    t: Seq<Trace>,
    ids: Option<Seq<u64>>,
    w: (u32, u32, u32, u32),
)
    requires
        collector_trace::traced(c, t),
        words_before_tails(collector_data::word_lists(c, collector_data::final_order(c, ids))),
    ensures
        ({
            let order = collector_data::final_order(c, ids);
            let all = derived::occurrences(collector_data::word_lists(c, order), order.len() as int);
            &&& is_main(t, order, w) ==> all.contains(w)
            &&& all.contains(w) && !is_main(t, order, w) ==> exists|m: (u32, u32, u32, u32)| #[trigger]
                is_main(t, order, m) && all.contains(m) && m.0 == w.0 && m.2 == w.2 && m.1 <= w.1 <= w.2
                    && m.not_after(w) && m != w
        }),
{
    let order = collector_data::final_order(c, ids);
    let lists = collector_data::word_lists(c, order);
    let n = order.len() as int;
    collector_data::lemma_final_order(c, ids);
    lemma_occurrences(lists, n, w);
    if is_main(t, order, w) {
        let (v, i) = choose|v: int, i: int| #[trigger] main_at(t, order, v, i, w);
        lemma_main_occurs(c, t, ids, v, i);
    }
    if derived::occurrences(lists, n).contains(w) && !is_main(t, order, w) {
        let i = choose|i: int| #[trigger] occurs(lists, w, i);
        let token = order[w.3 as int];
        collector_laws::final_ordinals_number_the_tokens(c, ids, 0, w.3 as int);
        let q = c.word_postings[token as int][i];
        assert(lists[w.3 as int][i] == collector_data::word_entry(q));
        assert(collector_trace::has_posting(c, token, q));
        assert(collector_trace::posted_somewhere(t, token, q));
        let v = choose|v: int| 0 <= v < t.len() && collector_trace::posted_in(#[trigger] t[v], token, q);
        let x = (q.1, q.2, token);
        assert(collector_trace::trace_ok(c, t[v]));
        if t[v].words.contains(x) {
            let j = choose|j: int| 0 <= j < t[v].words.len() && t[v].words[j] == x;
            assert(main_at(t, order, v, j, w));
        }
        let s = choose|s: int| 0 <= s < t[v].tails.len() && t[v].tails[s] == x;
        assert(collector_trace::ends_word(t[v].words, t[v].tails[s]));
        let j = choose|j: int|
            0 <= j < t[v].words.len() && (#[trigger] t[v].words[j]).1 == x.1 && t[v].words[j].0 <= x.0
                <= x.1;
        let m = word_of(t, order, v, j);
        assert(main_at(t, order, v, j, m));
        lemma_main_occurs(c, t, ids, v, j);
        lemma_occurrences(lists, n, m);
        if m.1 == w.1 {
            let e = choose|e: int| #[trigger] occurs(lists, m, e) && lists[m.3 as int][e].tail_off == 0;
            assert(same_span(lists[m.3 as int][e], lists[w.3 as int][i]));
            assert(m.3 <= w.3);
        }
        assert(is_main(t, order, m));
        assert(m != w);
        assert(w == (q.0, q.1, q.2, w.3));
        assert(m.not_after(w));
    }
}

/// A word of a value occurs, as a whole word.
proof fn lemma_main_occurs(c: Collected, t: Seq<Trace>, ids: Option<Seq<u64>>, v: int, i: int)
    requires
        collector_trace::traced(c, t),
        0 <= v < t.len(),
        0 <= i < t[v].words.len(),
    ensures
        ({
            let order = collector_data::final_order(c, ids);
            let lists = collector_data::word_lists(c, order);
            let w = word_of(t, order, v, i);
            &&& w.3 < order.len()
            &&& order[w.3 as int] == t[v].words[i].2
            &&& exists|e: int| #[trigger] occurs(lists, w, e) && lists[w.3 as int][e].tail_off == 0
            &&& derived::occurrences(lists, order.len() as int).contains(w)
        }),
{
    let order = collector_data::final_order(c, ids);
    let lists = collector_data::word_lists(c, order);
    let x = t[v].words[i];
    let w = word_of(t, order, v, i);
    collector_data::lemma_final_order(c, ids);
    assert(collector_trace::trace_ok(c, t[v]));
    assert(collector_trace::is_word(c, t[v].words[i].2));
    lemma_ordinal(c, ids, x.2);
    assert(collector_trace::word_posted_at(c, t[v].doc, t[v].words[i]));
    let q = choose|q: (u32, u32, u32, u32, u32, u16)| #[trigger]
        collector_trace::has_posting(c, x.2, q) && q.0 == t[v].doc && q.1 == x.0 && q.2 == x.1 && q.5 == 0;
    let own = c.word_postings[x.2 as int];
    let e = choose|e: int| 0 <= e < own.len() && own[e] == q;
    assert(lists[w.3 as int] == collector_data::word_places(c, x.2));
    assert(lists[w.3 as int][e] == collector_data::word_entry(q));
    assert(occurs(lists, w, e));
    lemma_occurrences(lists, order.len() as int, w);
}

/// What dropping the tails of the first `m` occurrences leaves: the words among
/// them, in order, each once.
pub open spec fn tails_dropped(
    t: Seq<Trace>,
    order: Seq<u32>,
    s: Seq<(u32, u32, u32, u32)>,
    m: int,
) -> bool {
    let main = derived::main_words(s, m);
    &&& forall|i: int| 0 <= i < main.len() ==> is_main(t, order, #[trigger] main[i])
    &&& forall|i: int, j: int|
        0 <= i < main.len() && m <= j < s.len() ==> (#[trigger] main[i]).not_after(#[trigger] s[j])
    &&& forall|i: int, j: int|
        0 <= i < j < main.len() ==> (#[trigger] main[i]).not_after(#[trigger] main[j]) && main[i] != main[j]
    &&& forall|j: int| 0 <= j < m && is_main(t, order, #[trigger] s[j]) ==> main.contains(s[j])
}

#[verifier::spinoff_prover]
#[verifier::rlimit(40)]
proof fn lemma_tails_dropped(
    c: Collected,
    t: Seq<Trace>,
    ids: Option<Seq<u64>>,
    s: Seq<(u32, u32, u32, u32)>,
    m: int,
)
    requires
        collector_trace::traced(c, t),
        words_before_tails(collector_data::word_lists(c, collector_data::final_order(c, ids))),
        order::is_sorted(s),
        0 <= m <= s.len(),
        forall|w: (u32, u32, u32, u32)| #[trigger]
            s.contains(w) <==> derived::occurrences(
                collector_data::word_lists(c, collector_data::final_order(c, ids)),
                collector_data::final_order(c, ids).len() as int,
            ).contains(w),
    ensures
        tails_dropped(t, collector_data::final_order(c, ids), s, m),
    decreases m,
{
    let order = collector_data::final_order(c, ids);
    if m > 0 {
        lemma_tails_dropped(c, t, ids, s, m - 1);
        let before = derived::main_words(s, m - 1);
        let w = s[m - 1];
        let main = derived::main_words(s, m);
        assert(s.contains(w));
        lemma_word_or_tail(c, t, ids, w);
        let drop = before.len() > 0 && before.last().0 == w.0 && before.last().2 == w.2 && before.last().1
            <= w.1;
        if is_main(t, order, w) {
            if drop {
                let last = before[before.len() - 1];
                assert(is_main(t, order, last));
                lemma_same_end(c, t, order, last, w);
                assert(before.contains(w));
                assert(main == before);
            } else {
                assert(main == before.push(w));
                assert(main[before.len() as int] == w);
                assert forall|i: int, j: int| 0 <= i < j < main.len() implies (#[trigger] main[i]).not_after(
                    #[trigger] main[j],
                ) && main[i] != main[j] by {
                    assert(main[i] == before[i]);
                    if j == before.len() {
                        assert(before[i].not_after(s[m - 1]));
                        if before[i] == w {
                            lemma_last_is_largest(before, i, w);
                        }
                    } else {
                        assert(main[j] == before[j]);
                    }
                }
                assert forall|j: int| 0 <= j < m && is_main(t, order, #[trigger] s[j]) implies main.contains(
                    s[j],
                ) by {
                    if j < m - 1 {
                        let i = choose|i: int| 0 <= i < before.len() && before[i] == s[j];
                        assert(main[i] == s[j]);
                    }
                }
                assert forall|i: int, j: int| 0 <= i < main.len() && m <= j < s.len() implies (
                #[trigger] main[i]).not_after(#[trigger] s[j]) by {
                    if i < before.len() {
                        assert(main[i] == before[i]);
                    } else {
                        assert(s[m - 1].not_after(s[j]));
                    }
                }
            }
        } else {
            let x = choose|x: (u32, u32, u32, u32)| #[trigger]
                is_main(t, order, x) && derived::occurrences(collector_data::word_lists(c, order), order.len() as int).contains(x)
                    && x.0 == w.0 && x.2 == w.2 && x.1 <= w.1 <= w.2 && x.not_after(w) && x != w;
            assert(s.contains(x));
            let j = choose|j: int| 0 <= j < s.len() && s[j] == x;
            if j > m - 1 {
                assert(s[m - 1].not_after(s[j]));
                assert(x == w);
            }
            assert(before.contains(s[j]));
            let i = choose|i: int| 0 <= i < before.len() && before[i] == x;
            let last = before[before.len() - 1];
            assert(is_main(t, order, last));
            assert(last.not_after(s[m - 1]));
            if i < before.len() - 1 {
                assert(before[i].not_after(before[before.len() - 1]));
            }
            lemma_between(c, t, order, x, last, w);
            assert(drop);
            assert(main == before);
        }
        assert(forall|i: int, j: int|
            0 <= i < main.len() && m <= j < s.len() ==> (#[trigger] main[i]).not_after(#[trigger] s[j]));
    }
}

/// Words that end at one position are the same.
proof fn lemma_same_end(
    c: Collected,
    t: Seq<Trace>,
    order: Seq<u32>,
    a: (u32, u32, u32, u32),
    b: (u32, u32, u32, u32),
)
    requires
        collector_trace::traced(c, t),
        is_main(t, order, a),
        is_main(t, order, b),
        a.0 == b.0,
        a.2 == b.2,
    ensures
        a == b,
{
    let (v, i) = choose|v: int, i: int| #[trigger] main_at(t, order, v, i, a);
    let (x, j) = choose|v: int, i: int| #[trigger] main_at(t, order, v, i, b);
    assert(collector_trace::trace_ok(c, t[v]));
    assert(collector_trace::trace_ok(c, t[x]));
    assert(t[v].words[i].0 <= t[v].words[i].1);
    assert(t[x].words[j].0 <= t[x].words[j].1);
    lemma_words_apart(c, t, order, v, i, x, j, a.2 as int);
}

/// A word between another and its tail is that other.
proof fn lemma_between(
    c: Collected,
    t: Seq<Trace>,
    order: Seq<u32>,
    a: (u32, u32, u32, u32),
    b: (u32, u32, u32, u32),
    w: (u32, u32, u32, u32),
)
    requires
        collector_trace::traced(c, t),
        is_main(t, order, a),
        is_main(t, order, b),
        a.not_after(b),
        b.not_after(w),
        a.0 == w.0,
        a.2 == w.2,
        w.1 <= w.2,
    ensures
        a == b,
{
    let (v, i) = choose|v: int, i: int| #[trigger] main_at(t, order, v, i, a);
    let (x, j) = choose|v: int, i: int| #[trigger] main_at(t, order, v, i, b);
    assert(collector_trace::trace_ok(c, t[v]));
    assert(collector_trace::trace_ok(c, t[x]));
    assert(t[v].words[i].0 <= t[v].words[i].1);
    assert(t[x].words[j].0 <= t[x].words[j].1);
    lemma_words_apart(c, t, order, v, i, x, j, b.1 as int);
}

/// In an ascending list the last item is the largest.
proof fn lemma_last_is_largest(s: Seq<(u32, u32, u32, u32)>, i: int, w: (u32, u32, u32, u32))
    requires
        0 <= i < s.len(),
        s[i] == w,
        s.last().not_after(w),
        forall|i: int, j: int|
            0 <= i < j < s.len() ==> (#[trigger] s[i]).not_after(#[trigger] s[j]) && s[i] != s[j],
    ensures
        s.last() == w,
{
    if i < s.len() - 1 {
        assert(s[i].not_after(s[s.len() - 1]));
    }
}

/// Whether a word of the list and the next one are linked.
pub open spec fn next_linked(
    docs: Seq<Seq<u32>>,
    main: Seq<(u32, u32, u32, u32)>,
    i: int,
    x: u32,
    y: u32,
) -> bool {
    0 <= i && i + 1 < main.len() && derived::follows(docs, main[i], main[i + 1]) && main[i].3 == x && main[i
        + 1].3 == y
}

proof fn lemma_word_links(
    docs: Seq<Seq<u32>>,
    main: Seq<(u32, u32, u32, u32)>,
    n: int,
    z: (u32, u32, u16),
)
    requires
        0 <= n <= main.len(),
    ensures
        derived::word_links(docs, main, n).contains(z) <==> z.2 == 0 && exists|i: int|
            i + 1 < n && #[trigger] next_linked(docs, main, i, z.0, z.1),
    decreases n,
{
    if n > 1 {
        lemma_word_links(docs, main, n - 1, z);
        let before = derived::word_links(docs, main, n - 1);
        let now = derived::word_links(docs, main, n);
        if derived::follows(docs, main[n - 2], main[n - 1]) {
            let x = (main[n - 2].3, main[n - 1].3, 0u16);
            assert(now == before.push(x));
            assert(now[before.len() as int] == x);
            assert(next_linked(docs, main, n - 2, x.0, x.1));
            if before.contains(z) {
                let i = choose|i: int| 0 <= i < before.len() && before[i] == z;
                assert(now[i] == z);
            }
            if now.contains(z) {
                let i = choose|i: int| 0 <= i < now.len() && now[i] == z;
                if i < before.len() {
                    assert(before[i] == z);
                }
            }
        }
        if before.contains(z) {
            let i = choose|i: int| i + 1 < n - 1 && #[trigger] next_linked(docs, main, i, z.0, z.1);
            assert(i + 1 < n && next_linked(docs, main, i, z.0, z.1));
        }
        if z.2 == 0 && exists|i: int| i + 1 < n && #[trigger] next_linked(docs, main, i, z.0, z.1) {
            let i = choose|i: int| i + 1 < n && #[trigger] next_linked(docs, main, i, z.0, z.1);
            if i + 1 < n - 1 {
                assert(before.contains(z));
            }
        }
    }
}

/// Whether the final ordinals are those of words one behind the other.
pub open spec fn words_linked(t: Seq<Trace>, order: Seq<u32>, x: u32, y: u32) -> bool {
    exists|v: int, i: int, a: u32, b: u32|
        0 <= v < t.len() && #[trigger] collector_trace::word_pair(t[v], i, a, b) && x == collector_data::final_ordinal(order, a) && y
            == collector_data::final_ordinal(order, b)
}

/// Whether a list is the words of the values, in order, each once.
pub open spec fn all_mains(t: Seq<Trace>, order: Seq<u32>, main: Seq<(u32, u32, u32, u32)>) -> bool {
    &&& forall|i: int| 0 <= i < main.len() ==> is_main(t, order, #[trigger] main[i])
    &&& forall|i: int, j: int|
        0 <= i < j < main.len() ==> (#[trigger] main[i]).not_after(#[trigger] main[j]) && main[i] != main[j]
    &&& forall|w: (u32, u32, u32, u32)| #[trigger] is_main(t, order, w) ==> main.contains(w)
}

proof fn lemma_all_mains(c: Collected, t: Seq<Trace>, ids: Option<Seq<u64>>)
    requires
        collector_trace::traced(c, t),
        words_before_tails(collector_data::word_lists(c, collector_data::final_order(c, ids))),
    ensures
        all_mains(
            t,
            collector_data::final_order(c, ids),
            derived::words_in_order(collector_data::word_lists(c, collector_data::final_order(c, ids))),
        ),
{
    let order = collector_data::final_order(c, ids);
    let lists = collector_data::word_lists(c, order);
    let all = derived::occurrences(lists, lists.len() as int);
    let s = order::sorted(all);
    order::lemma_sorted(all);
    order::lemma_sorted_items(all);
    lemma_tails_dropped(c, t, ids, s, s.len() as int);
    let main = derived::words_in_order(lists);
    assert forall|w: (u32, u32, u32, u32)| #[trigger] is_main(t, order, w) implies main.contains(w) by {
        lemma_word_or_tail(c, t, ids, w);
        assert(s.contains(w));
        let j = choose|j: int| 0 <= j < s.len() && s[j] == w;
        assert(is_main(t, order, s[j]));
    }
}

/// No value has the position behind its last.
proof fn lemma_gap_is_empty(c: Collected, t: Seq<Trace>, ids: Option<Seq<u64>>, v: int)
    requires
        collector_trace::traced(c, t),
        0 <= v < t.len(),
    ensures
        derived::standing(slots_of(c, ids), t[v].doc as int, t[v].ti + t[v].chunks.len()) is None,
{
    let d = t[v].doc as int;
    let p = t[v].ti + t[v].chunks.len();
    lemma_slots(c, t, ids, d, p);
    if derived::standing(slots_of(c, ids), d, p) is Some {
        let x = derived::standing(slots_of(c, ids), d, p)->0;
        let token = collector_data::final_order(c, ids)[x as int];
        let w = choose|w: int| #[trigger] collector_trace::held(t, w, d, p, token);
        if v < w {
            assert(collector_trace::comes_before(t[v], t[w].doc, t[w].ti as int));
        }
        if w < v {
            assert(collector_trace::comes_before(t[w], t[v].doc, t[v].ti as int));
        }
    }
}

/// Neighbours in the list that are linked are neighbours in a value.
#[verifier::spinoff_prover]
#[verifier::rlimit(50)]
proof fn lemma_next_in_value(
    c: Collected,
    t: Seq<Trace>,
    ids: Option<Seq<u64>>,
    main: Seq<(u32, u32, u32, u32)>,
    k: int,
)
    requires
        collector_trace::traced(c, t),
        all_mains(t, collector_data::final_order(c, ids), main),
        0 <= k,
        k + 1 < main.len(),
        derived::follows(slots_of(c, ids), main[k], main[k + 1]),
    ensures
        words_linked(t, collector_data::final_order(c, ids), main[k].3, main[k + 1].3),
{
    let order = collector_data::final_order(c, ids);
    let docs = slots_of(c, ids);
    let a = main[k];
    let b = main[k + 1];
    assert(is_main(t, order, main[k]));
    assert(is_main(t, order, main[k + 1]));
    assert(main[k].not_after(main[k + 1]) && main[k] != main[k + 1]);
    let (v, i) = choose|v: int, i: int| #[trigger] main_at(t, order, v, i, a);
    let (x, j) = choose|v: int, i: int| #[trigger] main_at(t, order, v, i, b);
    assert(collector_trace::trace_ok(c, t[v]));
    assert(collector_trace::trace_ok(c, t[x]));
    assert(t[v].words[i].0 <= t[v].words[i].1);
    assert(t[x].words[j].0 <= t[x].words[j].1);
    if b.1 <= a.2 {
        lemma_words_apart(c, t, order, v, i, x, j, b.1 as int);
    }
    assert(a.2 < b.1);
    if v < x {
        assert(collector_trace::comes_before(t[v], t[x].doc, t[x].ti as int));
        lemma_gap_is_empty(c, t, ids, v);
        let p = t[v].ti + t[v].chunks.len();
        assert(a.2 < p < b.1);
        assert(derived::standing(docs, a.0 as int, p) is Some);
    }
    if x < v {
        assert(collector_trace::comes_before(t[x], t[v].doc, t[v].ti as int));
    }
    assert(v == x);
    if j < i {
        assert(t[v].words[j].1 < t[v].words[i].0);
    }
    assert(i < j);
    if i + 1 < j {
        let m = word_of(t, order, v, i + 1);
        assert(main_at(t, order, v, i + 1, m));
        assert(is_main(t, order, m));
        assert(t[v].words[i].1 < t[v].words[i + 1].0);
        assert(t[v].words[i + 1].1 < t[v].words[j].0);
        assert(t[v].words[i + 1].0 <= t[v].words[i + 1].1);
        assert(main.contains(m));
        let l = choose|l: int| 0 <= l < main.len() && main[l] == m;
        if l < k {
            assert(main[l].not_after(main[k]));
        } else if l > k + 1 {
            assert(main[k + 1].not_after(main[l]));
        }
    }
    assert(collector_trace::word_pair(t[v], i, t[v].words[i].2, t[v].words[j].2));
}

/// Neighbours in a value are neighbours in the list, and linked.
#[verifier::spinoff_prover]
#[verifier::rlimit(50)]
proof fn lemma_next_in_list(
    c: Collected,
    t: Seq<Trace>,
    ids: Option<Seq<u64>>,
    main: Seq<(u32, u32, u32, u32)>,
    v: int,
    i: int,
) -> (k: int)
    requires
        collector_trace::traced(c, t),
        all_mains(t, collector_data::final_order(c, ids), main),
        0 <= v < t.len(),
        0 <= i,
        i + 1 < t[v].words.len(),
    ensures
        next_linked(
            slots_of(c, ids),
            main,
            k,
            word_of(t, collector_data::final_order(c, ids), v, i).3,
            word_of(t, collector_data::final_order(c, ids), v, i + 1).3,
        ),
{
    let order = collector_data::final_order(c, ids);
    let docs = slots_of(c, ids);
    let a = word_of(t, order, v, i);
    let b = word_of(t, order, v, i + 1);
    assert(main_at(t, order, v, i, a));
    assert(main_at(t, order, v, i + 1, b));
    assert(is_main(t, order, a));
    assert(is_main(t, order, b));
    assert(main.contains(a));
    assert(main.contains(b));
    let k = choose|k: int| 0 <= k < main.len() && main[k] == a;
    let l = choose|l: int| 0 <= l < main.len() && main[l] == b;
    assert(collector_trace::trace_ok(c, t[v]));
    assert(t[v].words[i].1 < t[v].words[i + 1].0);
    assert(t[v].words[i].0 <= t[v].words[i].1);
    assert(t[v].words[i + 1].0 <= t[v].words[i + 1].1);
    if l < k {
        assert(main[l].not_after(main[k]));
    }
    assert(k < l);
    if k + 1 < l {
        let m = main[k + 1];
        assert(is_main(t, order, main[k + 1]));
        assert(main[k].not_after(main[k + 1]) && main[k] != main[k + 1]);
        assert(main[k + 1].not_after(main[l]) && main[k + 1] != main[l]);
        let (x, j) = choose|v: int, i: int| #[trigger] main_at(t, order, v, i, m);
        assert(collector_trace::trace_ok(c, t[x]));
        assert(t[x].words[j].0 <= t[x].words[j].1);
        if m.1 <= a.2 {
            lemma_words_apart(c, t, order, v, i, x, j, m.1 as int);
        }
        if b.1 <= m.2 {
            lemma_words_apart(c, t, order, v, i + 1, x, j, b.1 as int);
        }
        if x < v {
            assert(collector_trace::comes_before(t[x], t[v].doc, t[v].ti as int));
        }
        if v < x {
            assert(collector_trace::comes_before(t[v], t[x].doc, t[x].ti as int));
        }
        if j < i {
            assert(t[v].words[j].1 < t[v].words[i].0);
        }
        if j > i + 1 {
            assert(t[v].words[i + 1].1 < t[v].words[j].0);
        }
    }
    assert forall|p: int| a.2 < p < b.1 implies (#[trigger] derived::standing(docs, a.0 as int, p)) is Some by {
        let token = t[v].chunks[p - t[v].ti];
        assert(collector_trace::held(t, v, a.0 as int, p, token));
        lemma_slots(c, t, ids, a.0 as int, p);
    }
    k
}

proof fn lemma_word_side(c: Collected, t: Seq<Trace>, ids: Option<Seq<u64>>, z: (u32, u32, u16))
    requires
        collector_trace::traced(c, t),
        words_before_tails(collector_data::word_lists(c, collector_data::final_order(c, ids))),
    ensures
        ({
            let main = derived::words_in_order(collector_data::word_lists(c, collector_data::final_order(c, ids)));
            derived::word_links(slots_of(c, ids), main, main.len() as int).contains(z) <==> z.2 == 0 && words_linked(
                t,
                collector_data::final_order(c, ids),
                z.0,
                z.1,
            )
        }),
{
    let order = collector_data::final_order(c, ids);
    let docs = slots_of(c, ids);
    let main = derived::words_in_order(collector_data::word_lists(c, order));
    lemma_all_mains(c, t, ids);
    lemma_word_links(docs, main, main.len() as int, z);
    if exists|i: int| i + 1 < main.len() && #[trigger] next_linked(docs, main, i, z.0, z.1) {
        let k = choose|i: int| i + 1 < main.len() && #[trigger] next_linked(docs, main, i, z.0, z.1);
        lemma_next_in_value(c, t, ids, main, k);
    }
    if words_linked(t, order, z.0, z.1) {
        let (v, i, a, b) = choose|v: int, i: int, a: u32, b: u32|
            0 <= v < t.len() && #[trigger] collector_trace::word_pair(t[v], i, a, b) && z.0 == collector_data::final_ordinal(order, a) && z.1
                == collector_data::final_ordinal(order, b);
        let k = lemma_next_in_list(c, t, ids, main, v, i);
        assert(k + 1 < main.len() && next_linked(docs, main, k, z.0, z.1));
    }
}

/// What was linked, under final ordinals.
proof fn lemma_collected_side(c: Collected, t: Seq<Trace>, ids: Option<Seq<u64>>, z: (u32, u32, u16))
    requires
        collector_trace::traced(c, t),
    ensures
        collector_data::final_links(c, collector_data::final_order(c, ids)).contains(z) <==> z.2 == 0 && (chunks_linked(
            c,
            t,
            collector_data::final_order(c, ids),
            z.0,
            z.1,
        ) || words_linked(t, collector_data::final_order(c, ids), z.0, z.1)),
{
    let order = collector_data::final_order(c, ids);
    let all = collector_data::final_links(c, order);
    if all.contains(z) {
        let k = choose|k: int| 0 <= k < all.len() && all[k] == z;
        let (a, b) = c.pairs[k];
        assert(c.pairs.contains((a, b)));
        assert(collector_trace::linked_somewhere(t, a, b));
        let v = choose|v: int| 0 <= v < t.len() && collector_trace::links_in(#[trigger] t[v], a, b);
        if exists|i: int| #[trigger] collector_trace::chunk_pair(t[v], i, a, b) {
            let i = choose|i: int| #[trigger] collector_trace::chunk_pair(t[v], i, a, b);
            assert(chunks_linked(c, t, order, z.0, z.1));
        } else {
            let i = choose|i: int| #[trigger] collector_trace::word_pair(t[v], i, a, b);
            assert(words_linked(t, order, z.0, z.1));
        }
    }
    if z.2 == 0 && chunks_linked(c, t, order, z.0, z.1) {
        let (v, i, a, b) = choose|v: int, i: int, a: u32, b: u32|
            0 <= v < t.len() && #[trigger] collector_trace::chunk_pair(t[v], i, a, b) && z.0 == collector_data::final_ordinal(order, a)
                && z.1 == collector_data::final_ordinal(order, b);
        assert(collector_trace::links_in(t[v], a, b));
        assert(collector_trace::linked_somewhere(t, a, b));
        assert(c.pairs.contains((a, b)));
        let k = choose|k: int| 0 <= k < c.pairs.len() && c.pairs[k] == (a, b);
        assert(all[k] == z);
    }
    if z.2 == 0 && words_linked(t, order, z.0, z.1) {
        let (v, i, a, b) = choose|v: int, i: int, a: u32, b: u32|
            0 <= v < t.len() && #[trigger] collector_trace::word_pair(t[v], i, a, b) && z.0 == collector_data::final_ordinal(order, a) && z.1
                == collector_data::final_ordinal(order, b);
        assert(collector_trace::links_in(t[v], a, b));
        assert(collector_trace::linked_somewhere(t, a, b));
        assert(c.pairs.contains((a, b)));
        let k = choose|k: int| 0 <= k < c.pairs.len() && c.pairs[k] == (a, b);
        assert(all[k] == z);
    }
}

/// The file of links depends only on which links there are.
proof fn lemma_same_links(num: u32, a: Seq<(u32, u32, u16)>, b: Seq<(u32, u32, u16)>)
    requires
        forall|z: (u32, u32, u16)| #[trigger] a.contains(z) <==> b.contains(z),
    ensures
        sibling_table::table_bytes(num, a) == sibling_table::table_bytes(num, b),
{
    let x = sibling_table::rows(a);
    let y = sibling_table::rows(b);
    order::lemma_sorted(a);
    order::lemma_sorted_items(a);
    order::lemma_dedup(order::sorted(a));
    order::lemma_sorted(b);
    order::lemma_sorted_items(b);
    order::lemma_dedup(order::sorted(b));
    assert forall|z: (u32, u32, u16)| #[trigger] x.contains(z) <==> y.contains(z) by {
        assert(a.contains(z) <==> b.contains(z));
    }
    x.lemma_multiset_has_no_duplicates();
    y.lemma_multiset_has_no_duplicates();
    x.to_multiset_ensures();
    y.to_multiset_ensures();
    assert forall|z: (u32, u32, u16)| x.to_multiset().count(z) == #[trigger] y.to_multiset().count(z) by {
        assert(x.contains(z) <==> y.contains(z));
        if x.contains(z) {
            assert(x.to_multiset().contains(z));
            assert(y.to_multiset().contains(z));
        }
    }
    assert(x.to_multiset() =~= y.to_multiset());
    order::lemma_sorted_is(y, x);
    order::lemma_sorted_is(y, y);
}

/// Whether every value is well formed.
pub open spec fn docs_ok(docs: Seq<Seq<Seq<Chunk>>>) -> bool {
    forall|i: int, j: int|
        0 <= i < docs.len() && 0 <= j < docs[i].len() ==> collector_v3::value_ok(#[trigger] docs[i][j])
}

/// Law: the links between tokens that are rebuilt from the postings of
/// collected documents are, byte for byte, those that the collector writes,
/// where every word with a tail that starts in its first chunk has a final
/// ordinal before that of the tail.
pub proof fn rebuilt_links_are_those_written(
    docs: Seq<Seq<Seq<Chunk>>>,
    overlap: int,
    ids: Option<Seq<u64>>,
)
    requires
        docs_ok(docs),
        collector_trace::docs_fit(docs, overlap),
        ({
            let c = collector_trace::after_docs(docs, overlap, docs.len() as int);
            words_before_tails(collector_data::word_lists(c, collector_data::final_order(c, ids)))
        }),
    ensures
        ({
            let c = collector_trace::after_docs(docs, overlap, docs.len() as int);
            let order = collector_data::final_order(c, ids);
            sibling_table::table_bytes(
                order.len() as u32,
                derived::all_links(
                    derived::position_docs(place_lists(c, order), order.len() as int),
                    collector_data::word_lists(c, order),
                ),
            ) == sibling_table::table_bytes(order.len() as u32, collector_data::final_links(c, order))
        }),
{
    let c = collector_trace::after_docs(docs, overlap, docs.len() as int);
    let order = collector_data::final_order(c, ids);
    let t = collector_trace::lemma_docs_traced(docs, overlap, docs.len() as int);
    let slots = slots_of(c, ids);
    let main = derived::words_in_order(collector_data::word_lists(c, order));
    let x = derived::chunk_links(slots, slots.len() as int);
    let y = derived::word_links(slots, main, main.len() as int);
    let a = derived::all_links(slots, collector_data::word_lists(c, order));
    let b = collector_data::final_links(c, order);
    assert(a == x + y);
    assert forall|z: (u32, u32, u16)| #[trigger] a.contains(z) <==> b.contains(z) by {
        lemma_chunk_side(c, t, ids, z);
        lemma_word_side(c, t, ids, z);
        lemma_collected_side(c, t, ids, z);
        if x.contains(z) {
            let i = choose|i: int| 0 <= i < x.len() && x[i] == z;
            assert(a[i] == z);
        }
        if y.contains(z) {
            let i = choose|i: int| 0 <= i < y.len() && y[i] == z;
            assert(a[x.len() + i] == z);
        }
        if a.contains(z) {
            let i = choose|i: int| 0 <= i < a.len() && a[i] == z;
            if i < x.len() {
                assert(x[i] == z);
            } else {
                assert(y[i - x.len()] == z);
            }
        }
    }
    lemma_same_links(order.len() as u32, a, b);
}

/// A posting is that of a word, or of a tail that starts later than its word.
proof fn lemma_posted_with(
    c: Collected,
    t: Seq<Trace>,
    v: int,
    token: u32,
    q: (u32, u32, u32, u32, u32, u16),
) -> (i: int)
    requires
        collector_trace::traced(c, t),
        collector_trace::all_tails_later(t),
        0 <= v < t.len(),
        collector_trace::posted_in(t[v], token, q),
    ensures
        0 <= i < t[v].words.len(),
        t[v].words[i].0 <= t[v].words[i].1,
        t[v].words[i].1 == q.2,
        t[v].words[i] == (q.1, q.2, token) || (t[v].words[i].0 < q.1 && t[v].tails.contains(
            (q.1, q.2, token),
        )),
{
    let x = (q.1, q.2, token);
    assert(collector_trace::trace_ok(c, t[v]));
    assert(collector_trace::tails_later(t[v].words, t[v].tails));
    if t[v].words.contains(x) {
        choose|i: int| 0 <= i < t[v].words.len() && t[v].words[i] == x
    } else {
        let s = choose|s: int| 0 <= s < t[v].tails.len() && t[v].tails[s] == x;
        assert(collector_trace::ends_word_later(t[v].words, t[v].tails[s]));
        choose|i: int|
            0 <= i < t[v].words.len() && (#[trigger] t[v].words[i]).1 == x.1 && t[v].words[i].0 < x.0
    }
}

/// Postings at the same positions are of one token.
proof fn lemma_one_posted(
    c: Collected,
    t: Seq<Trace>,
    order: Seq<u32>,
    a: u32,
    b: u32,
    q: (u32, u32, u32, u32, u32, u16),
    r: (u32, u32, u32, u32, u32, u16),
)
    requires
        collector_trace::traced(c, t),
        collector_trace::all_tails_later(t),
        collector_trace::has_posting(c, a, q),
        collector_trace::has_posting(c, b, r),
        q.0 == r.0,
        q.1 == r.1,
        q.2 == r.2,
    ensures
        a == b,
{
    assert(collector_trace::posted_somewhere(t, a, q));
    assert(collector_trace::posted_somewhere(t, b, r));
    let v = choose|v: int| 0 <= v < t.len() && collector_trace::posted_in(#[trigger] t[v], a, q);
    let w = choose|w: int| 0 <= w < t.len() && collector_trace::posted_in(#[trigger] t[w], b, r);
    let i = lemma_posted_with(c, t, v, a, q);
    let j = lemma_posted_with(c, t, w, b, r);
    lemma_words_apart(c, t, order, v, i, w, j, q.2 as int);
    if t[v].words[i] != (q.1, q.2, a) {
        let tails = t[v].tails;
        assert(collector_trace::tails_later(t[v].words, tails));
        let x = choose|x: int| 0 <= x < tails.len() && tails[x] == (q.1, q.2, a);
        let y = choose|y: int| 0 <= y < tails.len() && tails[y] == (r.1, r.2, b);
        if x < y {
            assert(tails[x].1 < tails[y].1);
        }
        if y < x {
            assert(tails[y].1 < tails[x].1);
        }
    }
}

/// Law: where no chunk is longer than the suffixes that are indexed, no tail
/// starts in the first chunk of its word, so that no two word postings are at
/// the same positions.
pub proof fn short_chunks_keep_tails_apart(
    docs: Seq<Seq<Seq<Chunk>>>,
    overlap: int,
    ids: Option<Seq<u64>>,
)
    requires
        docs_ok(docs),
        collector_trace::docs_fit(docs, overlap),
        collector_trace::docs_short(docs),
    ensures
        ({
            let c = collector_trace::after_docs(docs, overlap, docs.len() as int);
            words_before_tails(collector_data::word_lists(c, collector_data::final_order(c, ids)))
        }),
{
    let c = collector_trace::after_docs(docs, overlap, docs.len() as int);
    let order = collector_data::final_order(c, ids);
    let lists = collector_data::word_lists(c, order);
    let t = collector_trace::lemma_docs_traced(docs, overlap, docs.len() as int);
    collector_data::lemma_final_order(c, ids);
    assert forall|k: int, l: int, i: int, j: int|
        0 <= k < lists.len() && 0 <= l < lists.len() && 0 <= i < lists[k].len() && 0 <= j < lists[l].len()
            && (#[trigger] lists[k][i]).tail_off == 0 && same_span(
            lists[k][i],
            #[trigger] lists[l][j],
        ) implies k <= l by {
        let q = c.word_postings[order[k] as int][i];
        let r = c.word_postings[order[l] as int][j];
        assert(lists[k][i] == collector_data::word_entry(q));
        assert(lists[l][j] == collector_data::word_entry(r));
        assert(c.word_postings[order[k] as int].contains(q));
        assert(c.word_postings[order[l] as int].contains(r));
        lemma_one_posted(c, t, order, order[k], order[l], q, r);
    }
}

/// The last of the first `m` ordinals that has the position, if one has.
pub open spec fn last_at(lists: Seq<Seq<(u32, u32)>>, m: int, d: int, p: int) -> Option<u32>
    decreases m,
{
    if m <= 0 {
        None
    } else if at_place(lists[m - 1], d, p) {
        Some((m - 1) as u32)
    } else {
        last_at(lists, m - 1, d, p)
    }
}

/// Law: the slot of a position has the last ordinal that has the position, and
/// is empty where none has it.
pub proof fn a_slot_has_the_last_ordinal(lists: Seq<Seq<(u32, u32)>>, m: int, d: int, p: int)
    requires
        0 <= m <= lists.len() <= u32::MAX,
        0 <= d,
        0 <= p,
    ensures
        derived::standing(derived::position_docs(lists, m), d, p) == last_at(lists, m, d, p),
    decreases m,
{
    if m > 0 {
        a_slot_has_the_last_ordinal(lists, m - 1, d, p);
        let list = lists[m - 1];
        lemma_list_stands(
            derived::position_docs(lists, m - 1),
            list,
            (m - 1) as u32,
            list.len() as int,
            d,
            p,
        );
        assert(list.take(list.len() as int) =~= list);
    }
}

/// Where no position is that of two ordinals, the last one that has it is the
/// one that does.
pub proof fn lemma_only_one_at(lists: Seq<Seq<(u32, u32)>>, m: int, d: int, p: int, o: u32)
    requires
        0 <= m <= lists.len() <= u32::MAX,
        one_to_a_place(lists),
    ensures
        last_at(lists, m, d, p) == Some(o) <==> o < m && at_place(lists[o as int], d, p),
    decreases m,
{
    if m > 0 {
        lemma_only_one_at(lists, m - 1, d, p, o);
        if at_place(lists[m - 1], d, p) && o < m && at_place(lists[o as int], d, p) {
            assert(o == m - 1);
        }
    }
}

/// Whether every document and every position of the lists can be counted.
pub open spec fn places_fit(lists: Seq<Seq<(u32, u32)>>) -> bool {
    forall|k: int, i: int|
        0 <= k < lists.len() && 0 <= i < lists[k].len() ==> (#[trigger] lists[k][i]).0 < u32::MAX
            && lists[k][i].1 < u32::MAX
}

/// Whether every row can be counted, and the rows too.
pub open spec fn rows_fit(docs: Seq<Seq<u32>>) -> bool {
    docs.len() <= u32::MAX && forall|d: int| 0 <= d < docs.len() ==> (#[trigger] docs[d]).len() <= u32::MAX
}

proof fn lemma_slot_fits(docs: Seq<Seq<u32>>, d0: int, p0: int, value: u32)
    requires
        rows_fit(docs),
        0 <= d0 < u32::MAX,
        0 <= p0 < u32::MAX,
    ensures
        rows_fit(posmap::with_slot(docs, d0, p0, value)),
{
    let g = offset_table::grown(docs, d0 + 1);
    let s = posmap::with_slot(docs, d0, p0, value);
    assert forall|d: int| 0 <= d < s.len() implies (#[trigger] s[d]).len() <= u32::MAX by {
        if d < docs.len() {
            assert(g[d] == docs[d]);
        } else {
            assert(g[d] =~= Seq::<u32>::empty());
        }
    }
}

proof fn lemma_list_fits(docs: Seq<Seq<u32>>, lists: Seq<Seq<(u32, u32)>>, k: int, ordinal: u32, j: int)
    requires
        rows_fit(docs),
        places_fit(lists),
        0 <= k < lists.len(),
        0 <= j <= lists[k].len(),
    ensures
        rows_fit(derived::with_positions(docs, lists[k], ordinal, j)),
    decreases j,
{
    if j > 0 {
        lemma_list_fits(docs, lists, k, ordinal, j - 1);
        assert(lists[k][j - 1].0 < u32::MAX);
        lemma_slot_fits(
            derived::with_positions(docs, lists[k], ordinal, j - 1),
            lists[k][j - 1].0 as int,
            lists[k][j - 1].1 as int,
            ordinal,
        );
    }
}

/// Slots of positions that can be counted can be counted.
pub proof fn lemma_slots_fit(lists: Seq<Seq<(u32, u32)>>, m: int)
    requires
        places_fit(lists),
        0 <= m <= lists.len(),
    ensures
        rows_fit(derived::position_docs(lists, m)),
    decreases m,
{
    if m > 0 {
        lemma_slots_fit(lists, m - 1);
        lemma_list_fits(
            derived::position_docs(lists, m - 1),
            lists,
            m - 1,
            (m - 1) as u32,
            lists[m - 1].len() as int,
        );
    }
}

/// The positions of collected documents can be counted, and none is that of
/// two ordinals.
pub proof fn lemma_collected_places(docs: Seq<Seq<Seq<Chunk>>>, overlap: int, ids: Option<Seq<u64>>)
    requires
        docs_ok(docs),
        collector_trace::docs_fit(docs, overlap),
    ensures
        ({
            let c = collector_trace::after_docs(docs, overlap, docs.len() as int);
            let lists = place_lists(c, collector_data::final_order(c, ids));
            places_fit(lists) && one_to_a_place(lists)
        }),
{
    let c = collector_trace::after_docs(docs, overlap, docs.len() as int);
    let order = collector_data::final_order(c, ids);
    let lists = place_lists(c, order);
    let t = collector_trace::lemma_docs_traced(docs, overlap, docs.len() as int);
    lemma_one_to_a_place(c, t, ids);
    assert forall|k: int, i: int| 0 <= k < lists.len() && 0 <= i < lists[k].len() implies (
    #[trigger] lists[k][i]).0 < u32::MAX && lists[k][i].1 < u32::MAX by {
        let d = lists[k][i].0 as int;
        let p = lists[k][i].1 as int;
        assert(at_place(lists[k], d, p));
        lemma_placed(c, t, ids, k, d, p);
        let v = choose|v: int| #[trigger] collector_trace::held(t, v, d, p, order[k]);
        assert(collector_trace::trace_ok(c, t[v]));
        assert(t[v].doc < docs.len());
    }
}

} // verus!
