//! What the walks over the suffix terms of a file find.

use vstd::prelude::*;
use vstd::utf8::*;

use crate::dictionary_lookup::{SI0_PREFIX, SI_REST_PREFIX};
use crate::edit_distance;
use crate::file::ParentEntry;
use crate::file_walk;
use crate::suffix_terms;
use crate::text;
use crate::text_order;

verus! {

/// A filter keeps the terms that meet it, in their order.
pub proof fn lemma_kept_terms<P>(
    terms: Seq<(Seq<u8>, Seq<P>)>,
    keep: spec_fn((Seq<u8>, Seq<P>)) -> bool,
)
    requires
        suffix_terms::ascending(terms),
    ensures
        suffix_terms::ascending(terms.filter(keep)),
        forall|t: (Seq<u8>, Seq<P>)| #[trigger]
            terms.filter(keep).contains(t) <==> terms.contains(t) && keep(t),
    decreases terms.len(),
{
    reveal(Seq::filter);
    let kept = terms.filter(keep);
    if terms.len() > 0 {
        let front = terms.drop_last();
        lemma_kept_terms(front, keep);
        let some = front.filter(keep);
        assert forall|t: (Seq<u8>, Seq<P>)| #[trigger] kept.contains(t) <==> terms.contains(t) && keep(t) by {
            if kept.contains(t) {
                let i = choose|i: int| 0 <= i < kept.len() && kept[i] == t;
                if i < some.len() {
                    assert(some[i] == t);
                    assert(some.contains(t));
                    let j = choose|j: int| 0 <= j < front.len() && front[j] == t;
                    assert(terms[j] == t);
                } else {
                    assert(terms[terms.len() - 1] == t);
                }
            }
            if terms.contains(t) && keep(t) {
                let j = choose|j: int| 0 <= j < terms.len() && terms[j] == t;
                if j < front.len() {
                    assert(front[j] == t);
                    assert(some.contains(t));
                    let i = choose|i: int| 0 <= i < some.len() && some[i] == t;
                    assert(kept[i] == t);
                } else {
                    assert(kept[kept.len() - 1] == t);
                }
            }
        }
        assert forall|i: int, j: int| 0 <= i < j < kept.len() implies text_order::lex_lt(
            (#[trigger] kept[i]).0,
            (#[trigger] kept[j]).0,
        ) by {
            if j < some.len() {
                assert(kept[i] == some[i]);
                assert(kept[j] == some[j]);
            } else {
                assert(some.contains(some[i]));
                let k = choose|k: int| 0 <= k < front.len() && front[k] == some[i];
                assert(terms[k] == some[i]);
                assert(kept[j] == terms[terms.len() - 1]);
            }
        }
        assert forall|i: int| 0 <= i < kept.len() implies (#[trigger] kept[i]).0.len() > 0 by {
            assert(kept.contains(kept[i]));
            let k = choose|k: int| 0 <= k < terms.len() && terms[k] == kept[i];
            assert(terms[k].0.len() > 0);
        }
    } else {
        assert(kept =~= Seq::empty());
    }
}

/// Law: a key that starts with a partition's byte is near a query exactly if
/// the automaton of that byte and the query, made for this very distance,
/// gives the key a distance; the near terms keep their order.
pub proof fn near_terms_are_those_within_the_distance(
    terms: Seq<(Seq<u8>, Seq<ParentEntry>)>,
    partition: u8,
    query: Seq<char>,
    distance: u8,
    t: (Seq<u8>, Seq<ParentEntry>),
)
    requires
        suffix_terms::ascending(terms),
        partition == SI0_PREFIX || partition == SI_REST_PREFIX,
    ensures
        suffix_terms::ascending(file_walk::near(terms, partition, query, distance)),
        file_walk::near(terms, partition, query, distance).contains(t) <==> terms.contains(t) && t.0[0]
            == partition && edit_distance::prefix_distances(
            seq![partition as char] + query,
            distance,
        )[t.0] is Some,
{
    reveal_strlit("\0");
    reveal_strlit("\x01");
    assert(file_walk::tag_of(partition) =~= seq![partition as char]);
    lemma_kept_terms(terms, suffix_terms::starts_with(seq![partition]));
    lemma_kept_terms(
        suffix_terms::starting(terms, seq![partition]),
        file_walk::within(file_walk::tag_of(partition) + query, distance),
    );
    if terms.contains(t) {
        let j = choose|j: int| 0 <= j < terms.len() && terms[j] == t;
        assert(t.0.len() > 0);
        if t.0[0] == partition {
            assert(seq![partition] =~= t.0.subrange(0, 1));
        }
        if seq![partition].is_prefix_of(t.0) {
            assert(seq![partition][0] == t.0.subrange(0, 1)[0]);
        }
    }
}

/// Law: a walk by a start gives the terms whose keys are the partition's byte
/// and a text that starts so, in their order.
pub proof fn terms_with_a_start_are_found(
    terms: Seq<(Seq<u8>, Seq<ParentEntry>)>,
    partition: u8,
    prefix: Seq<char>,
    t: (Seq<u8>, Seq<ParentEntry>),
)
    requires
        suffix_terms::ascending(terms),
    ensures
        suffix_terms::ascending(suffix_terms::starting(terms, file_walk::key_of(partition, prefix))),
        suffix_terms::starting(terms, file_walk::key_of(partition, prefix)).contains(t)
            <==> terms.contains(t) && t.0[0] == partition && encode_utf8(prefix).is_prefix_of(t.0.skip(1)),
{
    let key = file_walk::key_of(partition, prefix);
    let b = encode_utf8(prefix);
    lemma_kept_terms(terms, suffix_terms::starts_with(key));
    if terms.contains(t) {
        let j = choose|j: int| 0 <= j < terms.len() && terms[j] == t;
        assert(t.0.len() > 0);
        if key.is_prefix_of(t.0) {
            assert(key[0] == t.0.subrange(0, key.len() as int)[0]);
            assert(b =~= t.0.skip(1).subrange(0, b.len() as int)) by {
                assert forall|i: int| 0 <= i < b.len() implies b[i] == t.0.skip(1)[i] by {
                    assert(key[i + 1] == t.0.subrange(0, key.len() as int)[i + 1]);
                }
            }
        }
        if t.0[0] == partition && b.is_prefix_of(t.0.skip(1)) {
            assert(key =~= t.0.subrange(0, key.len() as int)) by {
                assert forall|i: int| 0 <= i < key.len() implies key[i] == t.0[i] by {
                    if i > 0 {
                        assert(b[i - 1] == t.0.skip(1).subrange(0, b.len() as int)[i - 1]);
                    }
                }
            }
        }
    }
}

/// Whether an entry of a walk's result has this text and this parent.
pub open spec fn holds(out: Seq<(Seq<char>, Seq<ParentEntry>)>, x: Seq<char>, p: ParentEntry) -> bool {
    exists|i: int| 0 <= i < out.len() && (#[trigger] out[i]).0 == x && out[i].1.contains(p)
}

proof fn lemma_gathered(hits: Seq<(Seq<char>, Seq<ParentEntry>)>, x: Seq<char>, p: ParentEntry)
    ensures
        file_walk::gathered(hits, x).contains(p) <==> holds(hits, x, p),
    decreases hits.len(),
{
    if hits.len() > 0 {
        let front = hits.drop_last();
        lemma_gathered(front, x, p);
        let g = file_walk::gathered(front, x);
        if hits.last().0 == x {
            let all = g + hits.last().1;
            if all.contains(p) {
                let i = choose|i: int| 0 <= i < all.len() && all[i] == p;
                if i < g.len() {
                    assert(g[i] == p);
                } else {
                    assert(hits.last().1[i - g.len()] == p);
                    assert(hits[hits.len() - 1].1.contains(p));
                }
            }
            if g.contains(p) {
                let i = choose|i: int| 0 <= i < g.len() && g[i] == p;
                assert(all[i] == p);
            }
            if hits.last().1.contains(p) {
                let i = choose|i: int| 0 <= i < hits.last().1.len() && hits.last().1[i] == p;
                assert(all[g.len() + i] == p);
            }
        }
        if holds(front, x, p) {
            let i = choose|i: int| 0 <= i < front.len() && (#[trigger] front[i]).0 == x && front[i].1.contains(p);
            assert(hits[i].0 == x && hits[i].1.contains(p));
        }
        if holds(hits, x, p) {
            let i = choose|i: int| 0 <= i < hits.len() && (#[trigger] hits[i]).0 == x && hits[i].1.contains(p);
            if i < front.len() {
                assert(front[i].0 == x && front[i].1.contains(p));
            }
        }
    }
}

/// Law: hits put together by term lose no parent and gain none.
pub proof fn merging_hits_keeps_their_parents(
    hits: Seq<(Seq<char>, Seq<ParentEntry>)>,
    out: Seq<(Seq<char>, Seq<ParentEntry>)>,
    x: Seq<char>,
    p: ParentEntry,
)
    requires
        file_walk::merges(hits, out),
    ensures
        holds(out, x, p) <==> holds(hits, x, p),
{
    lemma_gathered(hits, x, p);
    if holds(hits, x, p) {
        let k = choose|k: int| 0 <= k < hits.len() && (#[trigger] hits[k]).0 == x && hits[k].1.contains(p);
        assert(file_walk::is_hit(out, hits[k].0));
        let i = choose|i: int| 0 <= i < out.len() && (#[trigger] out[i]).0 == x;
        assert(out[i].1 == file_walk::gathered(hits, out[i].0));
        assert(out[i].0 == x && out[i].1.contains(p));
    }
    if holds(out, x, p) {
        let i = choose|i: int| 0 <= i < out.len() && (#[trigger] out[i]).0 == x && out[i].1.contains(p);
        assert(out[i].1 == file_walk::gathered(hits, out[i].0));
    }
}

/// Whether the term is one of the two partitions', shows as this text and has
/// this parent.
pub open spec fn shows(t: (Seq<u8>, Seq<ParentEntry>), x: Seq<char>, p: ParentEntry) -> bool {
    &&& t.0[0] == SI0_PREFIX || t.0[0] == SI_REST_PREFIX
    &&& x == text::lossy(t.0.skip(1))
    &&& t.1.contains(p)
}

proof fn lemma_shown(found: Seq<(Seq<u8>, Seq<ParentEntry>)>, x: Seq<char>, p: ParentEntry)
    ensures
        holds(file_walk::shown(found), x, p) <==> exists|t: (Seq<u8>, Seq<ParentEntry>)| #[trigger]
            found.contains(t) && x == text::lossy(t.0.skip(1)) && t.1.contains(p),
{
    let s = file_walk::shown(found);
    if holds(s, x, p) {
        let i = choose|i: int| 0 <= i < s.len() && (#[trigger] s[i]).0 == x && s[i].1.contains(p);
        assert(found.contains(found[i]));
    }
    if exists|t: (Seq<u8>, Seq<ParentEntry>)| #[trigger]
        found.contains(t) && x == text::lossy(t.0.skip(1)) && t.1.contains(p) {
        let t = choose|t: (Seq<u8>, Seq<ParentEntry>)| #[trigger]
            found.contains(t) && x == text::lossy(t.0.skip(1)) && t.1.contains(p);
        let i = choose|i: int| 0 <= i < found.len() && found[i] == t;
        assert(s[i].0 == x && s[i].1.contains(p));
    }
}

proof fn lemma_holds_both(
    a: Seq<(Seq<char>, Seq<ParentEntry>)>,
    b: Seq<(Seq<char>, Seq<ParentEntry>)>,
    x: Seq<char>,
    p: ParentEntry,
)
    ensures
        holds(a + b, x, p) <==> holds(a, x, p) || holds(b, x, p),
{
    let c = a + b;
    if holds(a, x, p) {
        let i = choose|i: int| 0 <= i < a.len() && (#[trigger] a[i]).0 == x && a[i].1.contains(p);
        assert(c[i].0 == x && c[i].1.contains(p));
    }
    if holds(b, x, p) {
        let i = choose|i: int| 0 <= i < b.len() && (#[trigger] b[i]).0 == x && b[i].1.contains(p);
        assert(c[a.len() + i].0 == x && c[a.len() + i].1.contains(p));
    }
    if holds(c, x, p) {
        let i = choose|i: int| 0 <= i < c.len() && (#[trigger] c[i]).0 == x && c[i].1.contains(p);
        if i < a.len() {
            assert(a[i].0 == x && a[i].1.contains(p));
        } else {
            assert(b[i - a.len()].0 == x && b[i - a.len()].1.contains(p));
        }
    }
}

/// Law: a fuzzy walk gives a parent under a text exactly if it is a parent of
/// a term that shows as the text and whose key the automaton of its first byte
/// and the query, made for this very distance, gives a distance.
pub proof fn a_fuzzy_walk_finds_what_is_near(
    terms: Seq<(Seq<u8>, Seq<ParentEntry>)>,
    query: Seq<char>,
    distance: u8,
    out: Seq<(Seq<char>, Seq<ParentEntry>)>,
    x: Seq<char>,
    p: ParentEntry,
)
    requires
        suffix_terms::ascending(terms),
        file_walk::merges(file_walk::near_hits(terms, query, distance), out),
    ensures
        holds(out, x, p) <==> exists|t: (Seq<u8>, Seq<ParentEntry>)| #[trigger]
            terms.contains(t) && shows(t, x, p) && edit_distance::prefix_distances(
                seq![t.0[0] as char] + query,
                distance,
            )[t.0] is Some,
{
    let a = file_walk::near(terms, SI0_PREFIX, query, distance);
    let b = file_walk::near(terms, SI_REST_PREFIX, query, distance);
    merging_hits_keeps_their_parents(file_walk::near_hits(terms, query, distance), out, x, p);
    lemma_holds_both(file_walk::shown(a), file_walk::shown(b), x, p);
    lemma_shown(a, x, p);
    lemma_shown(b, x, p);
    assert forall|t: (Seq<u8>, Seq<ParentEntry>)| #[trigger] a.contains(t) <==> terms.contains(t) && t.0[0]
        == SI0_PREFIX && edit_distance::prefix_distances(seq![SI0_PREFIX as char] + query, distance)[t.0] is Some by {
        near_terms_are_those_within_the_distance(terms, SI0_PREFIX, query, distance, t);
    }
    assert forall|t: (Seq<u8>, Seq<ParentEntry>)| #[trigger] b.contains(t) <==> terms.contains(t) && t.0[0]
        == SI_REST_PREFIX && edit_distance::prefix_distances(
        seq![SI_REST_PREFIX as char] + query,
        distance,
    )[t.0] is Some by {
        near_terms_are_those_within_the_distance(terms, SI_REST_PREFIX, query, distance, t);
    }
    if exists|t: (Seq<u8>, Seq<ParentEntry>)| #[trigger]
        terms.contains(t) && shows(t, x, p) && edit_distance::prefix_distances(
            seq![t.0[0] as char] + query,
            distance,
        )[t.0] is Some {
        let t = choose|t: (Seq<u8>, Seq<ParentEntry>)| #[trigger]
            terms.contains(t) && shows(t, x, p) && edit_distance::prefix_distances(
                seq![t.0[0] as char] + query,
                distance,
            )[t.0] is Some;
        assert(a.contains(t) || b.contains(t));
    }
    if holds(file_walk::shown(a), x, p) {
        let t = choose|t: (Seq<u8>, Seq<ParentEntry>)| #[trigger]
            a.contains(t) && x == text::lossy(t.0.skip(1)) && t.1.contains(p);
        assert(terms.contains(t) && shows(t, x, p));
    }
    if holds(file_walk::shown(b), x, p) {
        let t = choose|t: (Seq<u8>, Seq<ParentEntry>)| #[trigger]
            b.contains(t) && x == text::lossy(t.0.skip(1)) && t.1.contains(p);
        assert(terms.contains(t) && shows(t, x, p));
    }
}

/// Law: a walk by a start gives a parent under a text exactly if it is a parent
/// of a term, from the start of a token or from later on, that shows as the
/// text and starts so behind its first byte.
pub proof fn a_prefix_walk_finds_what_starts_so(
    terms: Seq<(Seq<u8>, Seq<ParentEntry>)>,
    prefix: Seq<char>,
    out: Seq<(Seq<char>, Seq<ParentEntry>)>,
    x: Seq<char>,
    p: ParentEntry,
)
    requires
        suffix_terms::ascending(terms),
        file_walk::merges(file_walk::prefix_hits(terms, prefix), out),
    ensures
        holds(out, x, p) <==> exists|t: (Seq<u8>, Seq<ParentEntry>)| #[trigger]
            terms.contains(t) && shows(t, x, p) && encode_utf8(prefix).is_prefix_of(t.0.skip(1)),
{
    let a = suffix_terms::starting(terms, file_walk::key_of(SI0_PREFIX, prefix));
    let b = suffix_terms::starting(terms, file_walk::key_of(SI_REST_PREFIX, prefix));
    merging_hits_keeps_their_parents(file_walk::prefix_hits(terms, prefix), out, x, p);
    lemma_holds_both(file_walk::shown(a), file_walk::shown(b), x, p);
    lemma_shown(a, x, p);
    lemma_shown(b, x, p);
    assert forall|t: (Seq<u8>, Seq<ParentEntry>)| #[trigger] a.contains(t) <==> terms.contains(t) && t.0[0]
        == SI0_PREFIX && encode_utf8(prefix).is_prefix_of(t.0.skip(1)) by {
        terms_with_a_start_are_found(terms, SI0_PREFIX, prefix, t);
    }
    assert forall|t: (Seq<u8>, Seq<ParentEntry>)| #[trigger] b.contains(t) <==> terms.contains(t) && t.0[0]
        == SI_REST_PREFIX && encode_utf8(prefix).is_prefix_of(t.0.skip(1)) by {
        terms_with_a_start_are_found(terms, SI_REST_PREFIX, prefix, t);
    }
    if exists|t: (Seq<u8>, Seq<ParentEntry>)| #[trigger]
        terms.contains(t) && shows(t, x, p) && encode_utf8(prefix).is_prefix_of(t.0.skip(1)) {
        let t = choose|t: (Seq<u8>, Seq<ParentEntry>)| #[trigger]
            terms.contains(t) && shows(t, x, p) && encode_utf8(prefix).is_prefix_of(t.0.skip(1));
        assert(a.contains(t) || b.contains(t));
    }
    if holds(file_walk::shown(a), x, p) {
        let t = choose|t: (Seq<u8>, Seq<ParentEntry>)| #[trigger]
            a.contains(t) && x == text::lossy(t.0.skip(1)) && t.1.contains(p);
        assert(terms.contains(t) && shows(t, x, p));
    }
    if holds(file_walk::shown(b), x, p) {
        let t = choose|t: (Seq<u8>, Seq<ParentEntry>)| #[trigger]
            b.contains(t) && x == text::lossy(t.0.skip(1)) && t.1.contains(p);
        assert(terms.contains(t) && shows(t, x, p));
    }
}

/// Law: a walk over whole tokens alone gives a parent under a text exactly if
/// it is a parent of such a term that shows as the text and starts so, or is
/// near.
pub proof fn walks_over_whole_tokens_find_only_those(
    terms: Seq<(Seq<u8>, Seq<ParentEntry>)>,
    query: Seq<char>,
    distance: u8,
    x: Seq<char>,
    p: ParentEntry,
)
    requires
        suffix_terms::ascending(terms),
    ensures
        holds(file_walk::shown(file_walk::near(terms, SI0_PREFIX, query, distance)), x, p) <==> exists|
            t: (Seq<u8>, Seq<ParentEntry>),
        | #[trigger]
            terms.contains(t) && shows(t, x, p) && t.0[0] == 0 && edit_distance::prefix_distances(
                seq!['\0'] + query,
                distance,
            )[t.0] is Some,
        holds(
            file_walk::shown(suffix_terms::starting(terms, file_walk::key_of(SI0_PREFIX, query))),
            x,
            p,
        ) <==> exists|t: (Seq<u8>, Seq<ParentEntry>)| #[trigger]
            terms.contains(t) && shows(t, x, p) && t.0[0] == 0 && encode_utf8(query).is_prefix_of(
                t.0.skip(1),
            ),
{
    let a = file_walk::near(terms, SI0_PREFIX, query, distance);
    let b = suffix_terms::starting(terms, file_walk::key_of(SI0_PREFIX, query));
    lemma_shown(a, x, p);
    lemma_shown(b, x, p);
    assert(SI0_PREFIX as char == '\0');
    assert forall|t: (Seq<u8>, Seq<ParentEntry>)| #[trigger] a.contains(t) <==> terms.contains(t) && t.0[0]
        == SI0_PREFIX && edit_distance::prefix_distances(seq!['\0'] + query, distance)[t.0] is Some by {
        near_terms_are_those_within_the_distance(terms, SI0_PREFIX, query, distance, t);
    }
    assert forall|t: (Seq<u8>, Seq<ParentEntry>)| #[trigger] b.contains(t) <==> terms.contains(t) && t.0[0]
        == SI0_PREFIX && encode_utf8(query).is_prefix_of(t.0.skip(1)) by {
        terms_with_a_start_are_found(terms, SI0_PREFIX, query, t);
    }
    if exists|t: (Seq<u8>, Seq<ParentEntry>)| #[trigger]
        terms.contains(t) && shows(t, x, p) && t.0[0] == 0 && edit_distance::prefix_distances(
            seq!['\0'] + query,
            distance,
        )[t.0] is Some {
        let t = choose|t: (Seq<u8>, Seq<ParentEntry>)| #[trigger]
            terms.contains(t) && shows(t, x, p) && t.0[0] == 0 && edit_distance::prefix_distances(
                seq!['\0'] + query,
                distance,
            )[t.0] is Some;
        assert(a.contains(t));
    }
    if exists|t: (Seq<u8>, Seq<ParentEntry>)| #[trigger]
        terms.contains(t) && shows(t, x, p) && t.0[0] == 0 && encode_utf8(query).is_prefix_of(t.0.skip(1)) {
        let t = choose|t: (Seq<u8>, Seq<ParentEntry>)| #[trigger]
            terms.contains(t) && shows(t, x, p) && t.0[0] == 0 && encode_utf8(query).is_prefix_of(
                t.0.skip(1),
            );
        assert(b.contains(t));
    }
    if holds(file_walk::shown(a), x, p) {
        let t = choose|t: (Seq<u8>, Seq<ParentEntry>)| #[trigger]
            a.contains(t) && x == text::lossy(t.0.skip(1)) && t.1.contains(p);
        assert(terms.contains(t) && shows(t, x, p));
    }
    if holds(file_walk::shown(b), x, p) {
        let t = choose|t: (Seq<u8>, Seq<ParentEntry>)| #[trigger]
            b.contains(t) && x == text::lossy(t.0.skip(1)) && t.1.contains(p);
        assert(terms.contains(t) && shows(t, x, p));
    }
}

proof fn lemma_under_has<P>(terms: Seq<(Seq<u8>, Seq<P>)>, key: Seq<u8>, i: int)
    requires
        0 <= i <= terms.len(),
    ensures
        match suffix_terms::under(terms, key, i) {
            Some(ps) => exists|j: int| i <= j < terms.len() && #[trigger] terms[j] == (key, ps),
            None => forall|j: int| i <= j < terms.len() ==> (#[trigger] terms[j]).0 != key,
        },
    decreases terms.len() - i,
{
    if i < terms.len() {
        if terms[i].0 == key {
            assert(terms[i] == (key, terms[i].1));
        } else {
            lemma_under_has(terms, key, i + 1);
        }
    }
}

/// Law: the parents of a key are those of its term, all and in their order; a
/// key without a term has none.
pub proof fn a_key_has_the_parents_of_its_term<P>(terms: Seq<(Seq<u8>, Seq<P>)>, key: Seq<u8>, ps: Seq<P>)
    requires
        suffix_terms::ascending(terms),
    ensures
        terms.contains((key, ps)) ==> suffix_terms::parents_of(terms, key) == ps,
        (forall|j: int| 0 <= j < terms.len() ==> (#[trigger] terms[j]).0 != key)
            ==> suffix_terms::parents_of(terms, key).len() == 0,
{
    lemma_under_has(terms, key, 0);
    if terms.contains((key, ps)) {
        let k = choose|k: int| 0 <= k < terms.len() && terms[k] == (key, ps);
        assert(terms[k].0 == key);
        match suffix_terms::under(terms, key, 0) {
            Some(qs) => {
                let j = choose|j: int| 0 <= j < terms.len() && #[trigger] terms[j] == (key, qs);
                text_order::lemma_lex_irreflexive(key);
                if j < k {
                    assert(text_order::lex_lt(terms[j].0, terms[k].0));
                } else if k < j {
                    assert(text_order::lex_lt(terms[k].0, terms[j].0));
                }
            },
            None => {},
        }
    }
}

/// Law: a suffix is resolved to the parents that the term of whole tokens has
/// under it, and then to those of the term of later suffixes, no other and
/// none left out.
pub proof fn a_suffix_resolves_to_both_its_terms(
    terms: Seq<(Seq<u8>, Seq<ParentEntry>)>,
    suffix: Seq<char>,
    p: ParentEntry,
)
    requires
        suffix_terms::ascending(terms),
    ensures
        file_walk::resolved(terms, suffix).contains(p) <==> exists|t: (Seq<u8>, Seq<ParentEntry>)| #[trigger]
            terms.contains(t) && (t.0[0] == SI0_PREFIX || t.0[0] == SI_REST_PREFIX) && t.0.skip(1)
                == encode_utf8(suffix) && t.1.contains(p),
        forall|whole: Seq<ParentEntry>, rest: Seq<ParentEntry>|
            #![trigger terms.contains((seq![0u8] + encode_utf8(suffix), whole)), terms.contains(
                (seq![1u8] + encode_utf8(suffix), rest),
            )]
            terms.contains((seq![0u8] + encode_utf8(suffix), whole)) && terms.contains(
                (seq![1u8] + encode_utf8(suffix), rest),
            ) ==> file_walk::resolved(terms, suffix) == whole + rest,
{
    let k0 = file_walk::key_of(SI0_PREFIX, suffix);
    let k1 = file_walk::key_of(SI_REST_PREFIX, suffix);
    let p0 = suffix_terms::parents_of(terms, k0);
    let p1 = suffix_terms::parents_of(terms, k1);
    let all = file_walk::resolved(terms, suffix);
    assert forall|whole: Seq<ParentEntry>, rest: Seq<ParentEntry>|
        #![trigger terms.contains((seq![0u8] + encode_utf8(suffix), whole)), terms.contains(
            (seq![1u8] + encode_utf8(suffix), rest),
        )]
        terms.contains((seq![0u8] + encode_utf8(suffix), whole)) && terms.contains(
            (seq![1u8] + encode_utf8(suffix), rest),
        ) implies file_walk::resolved(terms, suffix) == whole + rest by {
        a_key_has_the_parents_of_its_term(terms, k0, whole);
        a_key_has_the_parents_of_its_term(terms, k1, rest);
    }
    lemma_under_has(terms, k0, 0);
    lemma_under_has(terms, k1, 0);
    assert(k0.skip(1) =~= encode_utf8(suffix));
    assert(k1.skip(1) =~= encode_utf8(suffix));
    if all.contains(p) {
        let i = choose|i: int| 0 <= i < all.len() && all[i] == p;
        if i < p0.len() {
            assert(p0[i] == p);
            assert(terms.contains((k0, p0)));
            assert((k0, p0).0[0] == SI0_PREFIX && (k0, p0).1.contains(p));
        } else {
            assert(p1[i - p0.len()] == p);
            assert(terms.contains((k1, p1)));
            assert((k1, p1).0[0] == SI_REST_PREFIX && (k1, p1).1.contains(p));
        }
    }
    if exists|t: (Seq<u8>, Seq<ParentEntry>)| #[trigger]
        terms.contains(t) && (t.0[0] == SI0_PREFIX || t.0[0] == SI_REST_PREFIX) && t.0.skip(1)
            == encode_utf8(suffix) && t.1.contains(p) {
        let t = choose|t: (Seq<u8>, Seq<ParentEntry>)| #[trigger]
            terms.contains(t) && (t.0[0] == SI0_PREFIX || t.0[0] == SI_REST_PREFIX) && t.0.skip(1)
                == encode_utf8(suffix) && t.1.contains(p);
        let j = choose|j: int| 0 <= j < terms.len() && terms[j] == t;
        assert(terms[j].0.len() > 0);
        assert(t.0 =~= seq![t.0[0]] + t.0.skip(1));
        let i = choose|i: int| 0 <= i < t.1.len() && t.1[i] == p;
        assert((t.0, t.1) == t);
        a_key_has_the_parents_of_its_term(terms, t.0, t.1);
        if t.0[0] == SI0_PREFIX {
            assert(all[i] == p);
        } else {
            assert(all[p0.len() + i] == p);
        }
    }
}

} // verus!
