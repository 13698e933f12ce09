//! What lookups, scans and walks of a term dictionary find.

use vstd::prelude::*;
use vstd::utf8::*;

use crate::dictionary_lookup::{SI0_PREFIX, SI_REST_PREFIX};
use crate::file::ParentEntry;
use crate::file_walk;
use crate::suffix_terms;
use crate::term_dictionary;
use crate::term_dictionary::{Automaton, ContinuationMatch};
use crate::text;
use crate::text_order;
use crate::walk_laws;

verus! {

/// Law: behind two texts an automaton is where the second leads it from where
/// the first did.
pub proof fn runs_compose<A: Automaton>(a: A, from: A::State, x: Seq<u8>, y: Seq<u8>)
    ensures
        term_dictionary::state_after(a, from, x + y) == term_dictionary::state_after(
            a,
            term_dictionary::state_after(a, from, x),
            y,
        ),
        term_dictionary::lives_along(a, from, x + y) <==> term_dictionary::lives_along(a, from, x)
            && term_dictionary::lives_along(a, term_dictionary::state_after(a, from, x), y),
        y.len() == 1 ==> term_dictionary::state_after(a, from, y) == a.next(from, y[0]),
    decreases y.len(),
{
    if y.len() == 0 {
        assert(x + y =~= x);
    } else {
        assert((x + y).drop_last() =~= x + y.drop_last());
        runs_compose(a, from, x, y.drop_last());
        if y.len() == 1 {
            assert(term_dictionary::state_after(a, from, y.drop_last()) == from);
        }
    }
}

proof fn lemma_dead_run<A: Automaton>(a: A, from: A::State, text: Seq<u8>)
    requires
        forall|s: A::State, b: u8| !a.lives_in(s) ==> !a.lives_in(#[trigger] a.next(s, b)),
        !term_dictionary::lives_along(a, from, text),
    ensures
        !a.lives_in(term_dictionary::state_after(a, from, text)),
    decreases text.len(),
{
    let front = text.drop_last();
    if !term_dictionary::lives_along(a, from, front) {
        lemma_dead_run(a, from, front);
    }
}

/// Law: where a dead automaton stays dead and accepts nothing, giving up early
/// loses nothing: a text is accepted exactly if the automaton accepts behind
/// it, and survives exactly if the automaton lives behind it.
pub proof fn giving_up_early_loses_nothing<A: Automaton>(a: A, from: A::State, text: Seq<u8>)
    requires
        forall|s: A::State, b: u8| !a.lives_in(s) ==> !a.lives_in(#[trigger] a.next(s, b)),
        forall|s: A::State| #[trigger] a.accepts_in(s) ==> a.lives_in(s),
    ensures
        term_dictionary::accepted(a, from, text) <==> a.accepts_in(
            term_dictionary::state_after(a, from, text),
        ),
        term_dictionary::survives(a, from, text) <==> a.lives_in(
            term_dictionary::state_after(a, from, text),
        ),
{
    if !term_dictionary::lives_along(a, from, text) {
        lemma_dead_run(a, from, text);
    }
}

/// Whether a walk reaches the term: one of a searched partition that the
/// automaton lives through and behind.
pub open spec fn reached<A: Automaton>(
    t: (Seq<u8>, Seq<ParentEntry>),
    a: A,
    from: A::State,
    si_zero_only: bool,
) -> bool {
    &&& t.0[0] == SI0_PREFIX || (!si_zero_only && t.0[0] == SI_REST_PREFIX)
    &&& term_dictionary::survives(a, from, t.0.skip(1))
}

/// Whether the match is of parent `k` of the term: its ordinal, where the
/// suffix starts in it, and where the automaton is behind the term.
pub open spec fn is_match_of<A: Automaton>(
    t: (Seq<u8>, Seq<ParentEntry>),
    k: int,
    a: A,
    from: A::State,
    m: ContinuationMatch<A::State>,
) -> bool {
    &&& 0 <= k < t.1.len()
    &&& m.raw_ordinal == t.1[k].raw_ordinal
    &&& m.si == t.1[k].si
    &&& m.end_state == term_dictionary::state_after(a, from, t.0.skip(1))
    &&& m.is_accepting == a.accepts_in(m.end_state)
}

/// How many parents the terms that a walk reaches have, all told.
pub open spec fn parents_reached<A: Automaton>(
    terms: Seq<(Seq<u8>, Seq<ParentEntry>)>,
    a: A,
    from: A::State,
    si_zero_only: bool,
) -> nat
    decreases terms.len(),
{
    if terms.len() == 0 {
        0
    } else {
        parents_reached(terms.drop_last(), a, from, si_zero_only) + (if reached(
            terms.last(),
            a,
            from,
            si_zero_only,
        ) {
            terms.last().1.len()
        } else {
            0
        })
    }
}

proof fn lemma_in_partition<A: Automaton>(
    terms: Seq<(Seq<u8>, Seq<ParentEntry>)>,
    partition: u8,
    a: A,
    from: A::State,
    m: ContinuationMatch<A::State>,
)
    requires
        forall|i: int| 0 <= i < terms.len() ==> (#[trigger] terms[i]).0.len() > 0,
    ensures
        term_dictionary::continuations(terms, partition, a, from).contains(m) <==> exists|j: int, k: int|
            0 <= j < terms.len() && terms[j].0[0] == partition && term_dictionary::survives(
                a,
                from,
                terms[j].0.skip(1),
            ) && #[trigger] is_match_of(terms[j], k, a, from, m),
    decreases terms.len(),
{
    if terms.len() > 0 {
        let front = terms.drop_last();
        let t = terms.last();
        assert forall|i: int| 0 <= i < front.len() implies (#[trigger] front[i]).0.len() > 0 by {
            assert(front[i] == terms[i]);
        }
        lemma_in_partition(front, partition, a, from, m);
        let before = term_dictionary::continuations(front, partition, a, from);
        let all = term_dictionary::continuations(terms, partition, a, from);
        let made = term_dictionary::continued(a, from, t);
        if all.contains(m) {
            let i = choose|i: int| 0 <= i < all.len() && all[i] == m;
            if i < before.len() {
                assert(before[i] == m);
                let (j, k) = choose|j: int, k: int|
                    0 <= j < front.len() && front[j].0[0] == partition && term_dictionary::survives(
                        a,
                        from,
                        front[j].0.skip(1),
                    ) && #[trigger] is_match_of(front[j], k, a, from, m);
                assert(front[j] == terms[j]);
                assert(is_match_of(terms[j], k, a, from, m));
            } else {
                let k = i - before.len();
                assert(made[k] == m);
                assert(is_match_of(terms[terms.len() - 1], k, a, from, m));
            }
        }
        if exists|j: int, k: int|
            0 <= j < terms.len() && terms[j].0[0] == partition && term_dictionary::survives(
                a,
                from,
                terms[j].0.skip(1),
            ) && #[trigger] is_match_of(terms[j], k, a, from, m) {
            let (j, k) = choose|j: int, k: int|
                0 <= j < terms.len() && terms[j].0[0] == partition && term_dictionary::survives(
                    a,
                    from,
                    terms[j].0.skip(1),
                ) && #[trigger] is_match_of(terms[j], k, a, from, m);
            if j < front.len() {
                assert(front[j] == terms[j]);
                assert(is_match_of(front[j], k, a, from, m));
                let i = choose|i: int| 0 <= i < before.len() && before[i] == m;
                assert(all[i] == m);
            } else {
                assert(terms[j].0.len() > 0);
                assert(made[k] == m);
                assert(all[before.len() + k] == m);
            }
        }
    }
}

proof fn lemma_partition_count<A: Automaton>(
    terms: Seq<(Seq<u8>, Seq<ParentEntry>)>,
    a: A,
    from: A::State,
)
    requires
        forall|i: int| 0 <= i < terms.len() ==> (#[trigger] terms[i]).0.len() > 0,
    ensures
        term_dictionary::continuations(terms, SI0_PREFIX, a, from).len() == parents_reached(
            terms,
            a,
            from,
            true,
        ),
        term_dictionary::continuations(terms, SI0_PREFIX, a, from).len() + term_dictionary::continuations(
            terms,
            SI_REST_PREFIX,
            a,
            from,
        ).len() == parents_reached(terms, a, from, false),
    decreases terms.len(),
{
    if terms.len() > 0 {
        let front = terms.drop_last();
        assert forall|i: int| 0 <= i < front.len() implies (#[trigger] front[i]).0.len() > 0 by {
            assert(front[i] == terms[i]);
        }
        assert(terms[terms.len() - 1].0.len() > 0);
        lemma_partition_count(front, a, from);
    }
}

/// Law: a continuation walk gives a match for each parent of each term of a
/// searched partition that the automaton lives through and behind, with that
/// parent's ordinal and suffix start and the state behind the term, and no
/// other match; there are as many matches as such terms have parents.
pub proof fn each_parent_of_a_reached_term_is_matched<A: Automaton>(
    terms: Seq<(Seq<u8>, Seq<ParentEntry>)>,
    a: A,
    from: A::State,
    si_zero_only: bool,
    m: ContinuationMatch<A::State>,
)
    requires
        suffix_terms::ascending(terms),
    ensures
        term_dictionary::all_continuations(terms, a, from, si_zero_only).contains(m) <==> exists|
            j: int,
            k: int,
        |
            0 <= j < terms.len() && reached(terms[j], a, from, si_zero_only) && #[trigger] is_match_of(
                terms[j],
                k,
                a,
                from,
                m,
            ),
        term_dictionary::all_continuations(terms, a, from, si_zero_only).len() == parents_reached(
            terms,
            a,
            from,
            si_zero_only,
        ),
{
    let c0 = term_dictionary::continuations(terms, SI0_PREFIX, a, from);
    let c1 = term_dictionary::continuations(terms, SI_REST_PREFIX, a, from);
    let all = term_dictionary::all_continuations(terms, a, from, si_zero_only);
    lemma_in_partition(terms, SI0_PREFIX, a, from, m);
    lemma_in_partition(terms, SI_REST_PREFIX, a, from, m);
    lemma_partition_count(terms, a, from);
    if all.contains(m) {
        let i = choose|i: int| 0 <= i < all.len() && all[i] == m;
        if i < c0.len() {
            assert(c0[i] == m);
            let (j, k) = choose|j: int, k: int|
                0 <= j < terms.len() && terms[j].0[0] == SI0_PREFIX && term_dictionary::survives(
                    a,
                    from,
                    terms[j].0.skip(1),
                ) && #[trigger] is_match_of(terms[j], k, a, from, m);
            assert(reached(terms[j], a, from, si_zero_only));
        } else {
            assert(c1[i - c0.len()] == m);
            let (j, k) = choose|j: int, k: int|
                0 <= j < terms.len() && terms[j].0[0] == SI_REST_PREFIX && term_dictionary::survives(
                    a,
                    from,
                    terms[j].0.skip(1),
                ) && #[trigger] is_match_of(terms[j], k, a, from, m);
            assert(reached(terms[j], a, from, si_zero_only));
        }
    }
    if exists|j: int, k: int|
        0 <= j < terms.len() && reached(terms[j], a, from, si_zero_only) && #[trigger] is_match_of(
            terms[j],
            k,
            a,
            from,
            m,
        ) {
        let (j, k) = choose|j: int, k: int|
            0 <= j < terms.len() && reached(terms[j], a, from, si_zero_only) && #[trigger] is_match_of(
                terms[j],
                k,
                a,
                from,
                m,
            );
        if terms[j].0[0] == SI0_PREFIX {
            assert(c0.contains(m));
            let i = choose|i: int| 0 <= i < c0.len() && c0[i] == m;
            assert(all[i] == m);
        } else {
            assert(c1.contains(m));
            let i = choose|i: int| 0 <= i < c1.len() && c1[i] == m;
            assert(all[c0.len() + i] == m);
        }
    }
}

/// Whether the text is that of a whole token of the terms, whose first parent
/// has the ordinal.
pub open spec fn is_whole(terms: Seq<(Seq<u8>, Seq<ParentEntry>)>, x: Seq<char>, o: u64) -> bool {
    exists|t: (Seq<u8>, Seq<ParentEntry>)| #[trigger] terms.contains(t) && stands_for(t, x, o)
}

/// Whether the term is the whole token of a text, and its first parent has the
/// ordinal.
pub open spec fn stands_for(t: (Seq<u8>, Seq<ParentEntry>), x: Seq<char>, o: u64) -> bool {
    &&& x.len() > 0
    &&& t.0 == seq![0u8] + encode_utf8(x)
    &&& t.1.len() > 0
    &&& t.1[0].raw_ordinal == o
}

proof fn lemma_listing(t: (Seq<u8>, Seq<ParentEntry>), x: Seq<char>, o: u64)
    requires
        t.0.len() > 0,
        t.0[0] == SI0_PREFIX,
    ensures
        term_dictionary::listing(t) == Some((x, o)) <==> stands_for(t, x, o),
{
    let rest = t.0.skip(1);
    if stands_for(t, x, o) {
        assert(rest =~= encode_utf8(x));
        encode_utf8_valid_utf8(x);
        encode_utf8_decode_utf8(x);
        if encode_utf8(x).len() == 0 {
            assert(encode_utf8(x) =~= encode_utf8(Seq::<char>::empty())) by {
                assert(encode_utf8(Seq::<char>::empty()).len() == 0);
            }
            text::lemma_encode_injective(x, Seq::<char>::empty());
        }
    }
    if term_dictionary::listing(t) == Some((x, o)) {
        decode_utf8_encode_utf8(rest);
        assert(t.0 =~= seq![0u8] + rest);
        if x.len() == 0 {
            assert(x =~= Seq::<char>::empty());
            assert(encode_utf8(Seq::<char>::empty()).len() == 0);
        }
    }
}

proof fn lemma_listed(terms: Seq<(Seq<u8>, Seq<ParentEntry>)>, l: (Seq<char>, u64))
    ensures
        term_dictionary::listed(terms).contains(l) <==> exists|t: (Seq<u8>, Seq<ParentEntry>)| #[trigger]
            terms.contains(t) && term_dictionary::listing(t) == Some(l),
    decreases terms.len(),
{
    if terms.len() > 0 {
        let front = terms.drop_last();
        lemma_listed(front, l);
        let before = term_dictionary::listed(front);
        let all = term_dictionary::listed(terms);
        if all.contains(l) {
            let i = choose|i: int| 0 <= i < all.len() && all[i] == l;
            if i < before.len() {
                assert(before[i] == l);
                let t = choose|t: (Seq<u8>, Seq<ParentEntry>)| #[trigger]
                    front.contains(t) && term_dictionary::listing(t) == Some(l);
                let j = choose|j: int| 0 <= j < front.len() && front[j] == t;
                assert(terms[j] == t);
                assert(terms.contains(t));
            } else {
                assert(terms.contains(terms[terms.len() - 1]));
            }
        }
        if exists|t: (Seq<u8>, Seq<ParentEntry>)| #[trigger]
            terms.contains(t) && term_dictionary::listing(t) == Some(l) {
            let t = choose|t: (Seq<u8>, Seq<ParentEntry>)| #[trigger]
                terms.contains(t) && term_dictionary::listing(t) == Some(l);
            let j = choose|j: int| 0 <= j < terms.len() && terms[j] == t;
            if j < front.len() {
                assert(front[j] == t);
                assert(front.contains(t));
                let i = choose|i: int| 0 <= i < before.len() && before[i] == l;
                assert(all[i] == l);
            } else {
                assert(all[all.len() - 1] == l);
            }
        }
    }
}

proof fn lemma_listed_ascends(terms: Seq<(Seq<u8>, Seq<ParentEntry>)>)
    requires
        suffix_terms::ascending(terms),
        forall|i: int| 0 <= i < terms.len() ==> (#[trigger] terms[i]).0[0] == SI0_PREFIX,
    ensures
        by_text(term_dictionary::listed(terms)),
    decreases terms.len(),
{
    let all = term_dictionary::listed(terms);
    if terms.len() > 0 {
        let front = terms.drop_last();
        let before = term_dictionary::listed(front);
        assert forall|i: int| 0 <= i < front.len() implies (#[trigger] front[i]).0[0] == SI0_PREFIX by {
            assert(front[i] == terms[i]);
        }
        lemma_listed_ascends(front);
        if let Some(l) = term_dictionary::listing(terms.last()) {
            let last = terms[terms.len() - 1];
            assert(last.0.len() > 0 && last.0[0] == SI0_PREFIX);
            lemma_listing(last, l.0, l.1);
            assert forall|i: int, j: int| 0 <= i < j < all.len() implies text_order::lex_lt(
                encode_utf8((#[trigger] all[i]).0),
                encode_utf8((#[trigger] all[j]).0),
            ) by {
                if j < before.len() {
                    assert(all[i] == before[i]);
                    assert(all[j] == before[j]);
                } else {
                    lemma_listed(front, before[i]);
                    assert(before.contains(before[i]));
                    let t = choose|t: (Seq<u8>, Seq<ParentEntry>)| #[trigger]
                        front.contains(t) && term_dictionary::listing(t) == Some(before[i]);
                    let k = choose|k: int| 0 <= k < front.len() && front[k] == t;
                    assert(terms[k] == t);
                    assert(t.0.len() > 0 && t.0[0] == SI0_PREFIX);
                    lemma_listing(t, before[i].0, before[i].1);
                    assert(text_order::lex_lt(t.0, last.0));
                    assert(t.0.drop_first() =~= encode_utf8(before[i].0));
                    assert(last.0.drop_first() =~= encode_utf8(l.0));
                }
            }
        }
    }
}

/// Whether the texts ascend, each one once.
pub open spec fn by_text(found: Seq<(Seq<char>, u64)>) -> bool {
    forall|i: int, j: int|
        0 <= i < j < found.len() ==> text_order::lex_lt(
            encode_utf8((#[trigger] found[i]).0),
            encode_utf8((#[trigger] found[j]).0),
        )
}

/// Law: a search by an automaton gives a text with an ordinal exactly if it is
/// that of a whole token whose first parent has the ordinal and the automaton
/// accepts it; the texts ascend.
pub proof fn a_search_finds_the_whole_tokens_accepted<A: Automaton>(
    terms: Seq<(Seq<u8>, Seq<ParentEntry>)>,
    a: A,
    x: Seq<char>,
    o: u64,
)
    requires
        suffix_terms::ascending(terms),
    ensures
        term_dictionary::listed(terms.filter(term_dictionary::taken_by(a))).contains((x, o)) <==> is_whole(
            terms,
            x,
            o,
        ) && term_dictionary::accepted(a, a.first(), encode_utf8(x)),
        by_text(term_dictionary::listed(terms.filter(term_dictionary::taken_by(a)))),
{
    let keep = term_dictionary::taken_by(a);
    let kept = terms.filter(keep);
    walk_laws::lemma_kept_terms(terms, keep);
    lemma_listed(kept, (x, o));
    assert forall|i: int| 0 <= i < kept.len() implies (#[trigger] kept[i]).0[0] == SI0_PREFIX by {
        assert(kept.contains(kept[i]));
        assert(keep(kept[i]));
    }
    lemma_listed_ascends(kept);
    if term_dictionary::listed(kept).contains((x, o)) {
        let t = choose|t: (Seq<u8>, Seq<ParentEntry>)| #[trigger]
            kept.contains(t) && term_dictionary::listing(t) == Some((x, o));
        assert(keep(t));
        lemma_listing(t, x, o);
        assert(t.0.skip(1) =~= encode_utf8(x));
        assert(terms.contains(t) && stands_for(t, x, o));
    }
    if is_whole(terms, x, o) && term_dictionary::accepted(a, a.first(), encode_utf8(x)) {
        let t = choose|t: (Seq<u8>, Seq<ParentEntry>)| #[trigger] terms.contains(t) && stands_for(t, x, o);
        lemma_listing(t, x, o);
        assert(t.0.skip(1) =~= encode_utf8(x));
        assert(keep(t));
        assert(kept.contains(t));
    }
}

proof fn lemma_lex_behind(b: u8, x: Seq<u8>, y: Seq<u8>)
    ensures
        text_order::lex_lt(seq![b] + x, seq![b] + y) <==> text_order::lex_lt(x, y),
{
    assert((seq![b] + x).drop_first() =~= x);
    assert((seq![b] + y).drop_first() =~= y);
}

/// Law: a scan gives a text with an ordinal exactly if it is that of a whole
/// token whose first parent has the ordinal and it stands at or behind the
/// first bound and, where there is a second, before that; the texts ascend.
pub proof fn a_scan_finds_the_whole_tokens_between(
    terms: Seq<(Seq<u8>, Seq<ParentEntry>)>,
    ge: Seq<u8>,
    lt: Option<Seq<u8>>,
    x: Seq<char>,
    o: u64,
)
    requires
        suffix_terms::ascending(terms),
    ensures
        term_dictionary::listed(term_dictionary::scanned(terms, ge, lt)).contains((x, o)) <==> is_whole(
            terms,
            x,
            o,
        ) && !text_order::lex_lt(encode_utf8(x), ge) && (lt matches Some(b) ==> text_order::lex_lt(
            encode_utf8(x),
            b,
        )),
        by_text(term_dictionary::listed(term_dictionary::scanned(terms, ge, lt))),
{
    let keep = term_dictionary::between(seq![SI0_PREFIX] + ge, term_dictionary::scan_end(lt));
    let kept = term_dictionary::scanned(terms, ge, lt);
    walk_laws::lemma_kept_terms(terms, keep);
    lemma_listed(kept, (x, o));
    assert forall|i: int| 0 <= i < kept.len() implies (#[trigger] kept[i]).0[0] == SI0_PREFIX by {
        assert(kept.contains(kept[i]));
        assert(keep(kept[i]));
        assert(kept[i].0.len() > 0);
        let k = kept[i].0;
        let e = term_dictionary::scan_end(lt);
        assert(text_order::lex_lt(k, e));
        if lt is None {
            assert(!text_order::lex_lt(k.drop_first(), e.drop_first()));
        }
        assert(k[0] == 0);
    }
    lemma_listed_ascends(kept);
    lemma_lex_behind(0, encode_utf8(x), ge);
    match lt {
        Some(b) => {
            lemma_lex_behind(0, encode_utf8(x), b);
        },
        None => {},
    }
    let key = seq![0u8] + encode_utf8(x);
    if term_dictionary::listed(kept).contains((x, o)) {
        let t = choose|t: (Seq<u8>, Seq<ParentEntry>)| #[trigger]
            kept.contains(t) && term_dictionary::listing(t) == Some((x, o));
        let i = choose|i: int| 0 <= i < kept.len() && kept[i] == t;
        assert(kept[i].0[0] == SI0_PREFIX && kept[i].0.len() > 0);
        assert(keep(t));
        lemma_listing(t, x, o);
        assert(terms.contains(t) && stands_for(t, x, o));
    }
    if is_whole(terms, x, o) && !text_order::lex_lt(encode_utf8(x), ge) && (lt matches Some(b)
        ==> text_order::lex_lt(encode_utf8(x), b)) {
        let t = choose|t: (Seq<u8>, Seq<ParentEntry>)| #[trigger] terms.contains(t) && stands_for(t, x, o);
        lemma_listing(t, x, o);
        assert(t.0 == key);
        assert(keep(t));
        assert(kept.contains(t));
    }
}

/// Law: the terms that are counted are those of whole tokens.
pub proof fn whole_tokens_are_counted(
    terms: Seq<(Seq<u8>, Seq<ParentEntry>)>,
    t: (Seq<u8>, Seq<ParentEntry>),
)
    requires
        suffix_terms::ascending(terms),
    ensures
        suffix_terms::starting(terms, seq![SI0_PREFIX]).contains(t) <==> terms.contains(t) && t.0[0] == 0,
        suffix_terms::ascending(suffix_terms::starting(terms, seq![SI0_PREFIX])),
{
    walk_laws::lemma_kept_terms(terms, suffix_terms::starts_with(seq![SI0_PREFIX]));
    if terms.contains(t) {
        let j = choose|j: int| 0 <= j < terms.len() && terms[j] == t;
        assert(terms[j].0.len() > 0);
        if t.0[0] == 0 {
            assert(seq![SI0_PREFIX] =~= t.0.subrange(0, 1));
        }
        if seq![SI0_PREFIX].is_prefix_of(t.0) {
            assert(seq![SI0_PREFIX][0] == t.0.subrange(0, 1)[0]);
        }
    }
}

/// Whether parent `k` is a whole token whose term in the table is the key.
pub open spec fn is_exact(parents: Seq<ParentEntry>, table: Seq<Vec<u8>>, key: Seq<u8>, k: int) -> bool {
    &&& 0 <= k < parents.len()
    &&& parents[k].si == 0
    &&& parents[k].raw_ordinal < table.len()
    &&& table[parents[k].raw_ordinal as int]@ == key
}

proof fn lemma_exact_from(parents: Seq<ParentEntry>, table: Seq<Vec<u8>>, key: Seq<u8>, i: int)
    requires
        0 <= i <= parents.len(),
    ensures
        match term_dictionary::exact_from(parents, table, key, i) {
            Some(o) => exists|k: int|
                i <= k && #[trigger] is_exact(parents, table, key, k) && parents[k].raw_ordinal == o,
            None => forall|k: int| i <= k ==> !#[trigger] is_exact(parents, table, key, k),
        },
    decreases parents.len() - i,
{
    if i < parents.len() {
        if is_exact(parents, table, key, i) {
            assert(i <= i && is_exact(parents, table, key, i));
        } else {
            lemma_exact_from(parents, table, key, i + 1);
            assert forall|k: int|
                i <= k && term_dictionary::exact_from(parents, table, key, i) is None implies !#[trigger] is_exact(
                parents,
                table,
                key,
                k,
            ) by {
                if k > i {
                    assert(i + 1 <= k);
                }
            }
        }
    }
}

/// Law: a term is found exactly if one of the parents of its letters is a
/// whole token with this very term; what is found is the ordinal of such a
/// parent.
pub proof fn a_term_is_found_by_its_own_text(
    parents: Seq<ParentEntry>,
    table: Seq<Vec<u8>>,
    key: Seq<u8>,
)
    ensures
        term_dictionary::exact_from(parents, table, key, 0) is Some <==> exists|k: int| #[trigger]
            is_exact(parents, table, key, k),
        term_dictionary::exact_from(parents, table, key, 0) matches Some(o) ==> exists|k: int| #[trigger]
            is_exact(parents, table, key, k) && parents[k].raw_ordinal == o,
{
    lemma_exact_from(parents, table, key, 0);
    if exists|k: int| #[trigger] is_exact(parents, table, key, k) {
        let k = choose|k: int| #[trigger] is_exact(parents, table, key, k);
        assert(0 <= k);
    }
}

/// Law: the ordinal of letters is that of the first whole token among their
/// parents; without one there is none.
pub proof fn letters_have_their_first_whole_token(parents: Seq<ParentEntry>, i: int)
    requires
        0 <= i <= parents.len(),
    ensures
        match term_dictionary::whole_from(parents, i) {
            Some(o) => exists|k: int|
                i <= k < parents.len() && (#[trigger] parents[k]).si == 0 && parents[k].raw_ordinal == o && forall|
                    j: int,
                |
                    i <= j < k ==> (#[trigger] parents[j]).si != 0,
            None => forall|j: int| i <= j < parents.len() ==> (#[trigger] parents[j]).si != 0,
        },
    decreases parents.len() - i,
{
    if i < parents.len() {
        if parents[i].si != 0 {
            letters_have_their_first_whole_token(parents, i + 1);
            match term_dictionary::whole_from(parents, i) {
                Some(o) => {
                    let k = choose|k: int|
                        i + 1 <= k < parents.len() && (#[trigger] parents[k]).si == 0 && parents[k].raw_ordinal
                            == o && forall|j: int| i + 1 <= j < k ==> (#[trigger] parents[j]).si != 0;
                    assert(parents[k].si == 0);
                    assert forall|j: int| i <= j < k implies (#[trigger] parents[j]).si != 0 by {}
                },
                None => {},
            }
        } else {
            assert(parents[i].si == 0);
        }
    }
}

/// Law: a lookup asks for the letters in lower case: a parent is among those
/// looked through exactly if it is one of a term whose text is the key in
/// lower case.
pub proof fn lookups_go_by_lower_case(
    terms: Seq<(Seq<u8>, Seq<ParentEntry>)>,
    key: Seq<u8>,
    p: ParentEntry,
)
    requires
        suffix_terms::ascending(terms),
    ensures
        term_dictionary::parents_of_text(terms, key).contains(p) <==> exists|t: (Seq<u8>, Seq<ParentEntry>)|
            #[trigger]
            terms.contains(t) && (t.0[0] == SI0_PREFIX || t.0[0] == SI_REST_PREFIX) && t.0.skip(1)
                == encode_utf8(text::lowered(decode_utf8(key))) && t.1.contains(p),
{
    let lower = text::lowered(decode_utf8(key));
    assert(term_dictionary::parents_of_text(terms, key) == file_walk::resolved(terms, lower));
    walk_laws::a_suffix_resolves_to_both_its_terms(terms, lower, p);
}

} // verus!
