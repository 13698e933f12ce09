//! What a fuzzy walk that may stop in the middle of a query finds.

use vstd::prelude::*;

use crate::dictionary_lookup::{SI0_PREFIX, SI_REST_PREFIX};
use crate::file::{ParentEntry, SplitCandidate};
use crate::file_fuzzy;
use crate::file_walk;
use crate::term_dictionary::Automaton;

verus! {

/// Whether the candidate is a parent of the term that ends where this much of
/// the query was matched.
pub open spec fn ends_there(t: (Seq<u8>, Seq<ParentEntry>), n: usize, s: SplitCandidate) -> bool {
    &&& n > 0
    &&& s.prefix_len == n
    &&& t.1.contains(s.parent)
    &&& s.parent.si + n == s.parent.token_len
}

/// Whether the candidate comes of a term that the automaton leads to, with as
/// much of the query matched behind it as the candidate says.
pub open spec fn is_led_to<A: Automaton, M: Fn(&A, A::State) -> usize>(
    terms: Seq<(Seq<u8>, Seq<ParentEntry>)>,
    a: A,
    max_prefix_len: M,
    i: int,
    s: SplitCandidate,
) -> bool {
    &&& file_fuzzy::led_to(terms, a, SI0_PREFIX, i) || file_fuzzy::led_to(terms, a, SI_REST_PREFIX, i)
    &&& file_fuzzy::matched(a, max_prefix_len, terms[i].0, s.prefix_len)
    &&& ends_there(terms[i], s.prefix_len, s)
}

proof fn lemma_reached(
    terms: Seq<(Seq<u8>, Seq<ParentEntry>)>,
    reached: Seq<(usize, usize)>,
    k: int,
    s: SplitCandidate,
)
    requires
        0 <= k <= reached.len(),
    ensures
        file_walk::reached_splits(terms, reached, k).contains(s) <==> exists|j: int|
            0 <= j < k && ends_there(terms[(#[trigger] reached[j]).0 as int], reached[j].1, s),
    decreases k,
{
    if k > 0 {
        lemma_reached(terms, reached, k - 1, s);
        let (term, n) = reached[k - 1];
        let before = file_walk::reached_splits(terms, reached, k - 1);
        let here = if n > 0 {
            file_walk::reaching(terms[term as int].1, n as int)
        } else {
            Seq::empty()
        };
        file_walk::lemma_either(before, here, s);
        if n > 0 {
            file_walk::lemma_reaching_has(terms[term as int].1, n as int, s);
        }
        assert(here.contains(s) <==> ends_there(terms[reached[k - 1].0 as int], reached[k - 1].1, s));
    } else {
        assert(file_walk::reached_splits(terms, reached, k) =~= Seq::empty());
    }
}

proof fn lemma_sorted_has(items: Seq<SplitCandidate>, out: Seq<SplitCandidate>, s: SplitCandidate)
    requires
        file_walk::longest_first(items, out),
    ensures
        out.contains(s) <==> items.contains(s),
{
    let keep = file_walk::of_length(s.prefix_len);
    assert(out.filter(keep) == items.filter(keep));
    if out.contains(s) {
        let i = choose|i: int| 0 <= i < out.len() && out[i] == s;
        out.lemma_filter_contains(keep, i);
        items.lemma_filter_contains_rev(keep, s);
    }
    if items.contains(s) {
        let i = choose|i: int| 0 <= i < items.len() && items[i] == s;
        items.lemma_filter_contains(keep, i);
        out.lemma_filter_contains_rev(keep, s);
    }
}

/// Law: leaving out repeats keeps of each candidate one that splits at the same
/// place by the same token, adds none, and leaves no two such neighbours.
pub proof fn only_repeats_are_left_out(s: Seq<SplitCandidate>)
    ensures
        forall|x: SplitCandidate| #[trigger] file_walk::without_runs(s).contains(x) ==> s.contains(x),
        forall|x: SplitCandidate| #[trigger]
            s.contains(x) ==> exists|i: int|
                0 <= i < file_walk::without_runs(s).len() && file_walk::same_split(
                    #[trigger] file_walk::without_runs(s)[i],
                    x,
                ),
        forall|i: int|
            0 < i < file_walk::without_runs(s).len() ==> !file_walk::same_split(
                #[trigger] file_walk::without_runs(s)[i],
                file_walk::without_runs(s)[i - 1],
            ),
        s.len() > 0 ==> file_walk::without_runs(s).len() > 0 && file_walk::same_split(
            file_walk::without_runs(s).last(),
            s.last(),
        ),
    decreases s.len(),
{
    let out = file_walk::without_runs(s);
    if s.len() <= 1 {
        assert forall|x: SplitCandidate| #[trigger] s.contains(x) implies exists|i: int|
            0 <= i < out.len() && file_walk::same_split(#[trigger] out[i], x) by {
            assert(file_walk::same_split(out[0], x));
        }
    } else {
        let front = s.drop_last();
        let before = file_walk::without_runs(front);
        only_repeats_are_left_out(front);
        assert(front.last() == s[s.len() - 2]);
        assert forall|x: SplitCandidate| #[trigger] out.contains(x) implies s.contains(x) by {
            let i = choose|i: int| 0 <= i < out.len() && out[i] == x;
            if i < before.len() {
                assert(before[i] == x);
                assert(before.contains(x));
                let j = choose|j: int| 0 <= j < front.len() && front[j] == x;
                assert(s[j] == x);
            } else {
                assert(s[s.len() - 1] == x);
            }
        }
        assert forall|x: SplitCandidate| #[trigger] s.contains(x) implies exists|i: int|
            0 <= i < out.len() && file_walk::same_split(#[trigger] out[i], x) by {
            let j = choose|j: int| 0 <= j < s.len() && s[j] == x;
            if j < front.len() {
                assert(front[j] == x);
                assert(front.contains(x));
                let i = choose|i: int| 0 <= i < before.len() && file_walk::same_split(#[trigger] before[i], x);
                assert(out[i] == before[i]);
                assert(file_walk::same_split(out[i], x));
            } else {
                assert(file_walk::same_split(out[out.len() - 1], x));
            }
        }
        assert forall|i: int| 0 < i < out.len() implies !file_walk::same_split(#[trigger] out[i], out[i - 1]) by {
            if i < before.len() {
                assert(out[i] == before[i]);
                assert(out[i - 1] == before[i - 1]);
            } else {
                assert(out[i - 1] == before.last());
            }
        }
    }
}

proof fn lemma_still_longest_first(s: Seq<SplitCandidate>)
    requires
        forall|i: int, j: int|
            0 <= i < j < s.len() ==> (#[trigger] s[i]).prefix_len >= (#[trigger] s[j]).prefix_len,
    ensures
        forall|i: int, j: int|
            0 <= i < j < file_walk::without_runs(s).len() ==> (#[trigger] file_walk::without_runs(s)[i]).prefix_len
                >= (#[trigger] file_walk::without_runs(s)[j]).prefix_len,
    decreases s.len(),
{
    if s.len() > 1 {
        let front = s.drop_last();
        let before = file_walk::without_runs(front);
        let out = file_walk::without_runs(s);
        assert forall|i: int, j: int| 0 <= i < j < front.len() implies (#[trigger] front[i]).prefix_len >= (
        #[trigger] front[j]).prefix_len by {
            assert(front[i] == s[i] && front[j] == s[j]);
        }
        lemma_still_longest_first(front);
        only_repeats_are_left_out(front);
        assert forall|i: int, j: int| 0 <= i < j < out.len() implies (#[trigger] out[i]).prefix_len >= (
        #[trigger] out[j]).prefix_len by {
            if j < before.len() {
                assert(out[i] == before[i] && out[j] == before[j]);
            } else {
                assert(before.contains(before[i]));
                let k = choose|k: int| 0 <= k < front.len() && front[k] == before[i];
                assert(s[k].prefix_len >= s[s.len() - 1].prefix_len);
            }
        }
    }
}

/// Law: what a fuzzy walk gives has the longest first and no two neighbours
/// that split at the same place by the same token; each comes of a term, of
/// whole tokens or of later suffixes, that the automaton leads to, and is a
/// parent that ends where this much of the query was matched; and no such
/// parent is missing.
pub proof fn fuzzy_splits_are_those_led_to<A: Automaton, M: Fn(&A, A::State) -> usize>(
    terms: Seq<(Seq<u8>, Seq<ParentEntry>)>,
    a: A,
    max_prefix_len: M,
    whole: Seq<(usize, usize)>,
    rest: Seq<(usize, usize)>,
    sorted: Seq<SplitCandidate>,
    out: Seq<SplitCandidate>,
)
    requires
        file_fuzzy::split_by(terms, a, max_prefix_len, whole, rest, sorted, out),
    ensures
        forall|i: int, j: int|
            0 <= i < j < out.len() ==> (#[trigger] out[i]).prefix_len >= (#[trigger] out[j]).prefix_len,
        forall|i: int| 0 < i < out.len() ==> !file_walk::same_split(#[trigger] out[i], out[i - 1]),
        forall|s: SplitCandidate| #[trigger]
            out.contains(s) ==> exists|i: int| #[trigger] is_led_to(terms, a, max_prefix_len, i, s),
        forall|i: int|
            (#[trigger] file_fuzzy::led_to(terms, a, SI0_PREFIX, i)) || file_fuzzy::led_to(
                terms,
                a,
                SI_REST_PREFIX,
                i,
            ) ==> is_given(terms, a, max_prefix_len, i, out),
{
    let both = whole + rest;
    let items = file_walk::reached_splits(terms, both, both.len() as int);
    only_repeats_are_left_out(sorted);
    lemma_still_longest_first(sorted);
    assert forall|s: SplitCandidate| #[trigger] out.contains(s) implies exists|i: int| #[trigger]
        is_led_to(terms, a, max_prefix_len, i, s) by {
        assert(sorted.contains(s));
        lemma_sorted_has(items, sorted, s);
        lemma_reached(terms, both, both.len() as int, s);
        let j = choose|j: int|
            0 <= j < both.len() && ends_there(terms[(#[trigger] both[j]).0 as int], both[j].1, s);
        if j < whole.len() {
            assert(both[j] == whole[j]);
        } else {
            assert(both[j] == rest[j - whole.len()]);
        }
        assert(is_led_to(terms, a, max_prefix_len, both[j].0 as int, s));
    }
    assert forall|i: int|
        (#[trigger] file_fuzzy::led_to(terms, a, SI0_PREFIX, i)) || file_fuzzy::led_to(
            terms,
            a,
            SI_REST_PREFIX,
            i,
        ) implies is_given(terms, a, max_prefix_len, i, out) by {
        let j = if file_fuzzy::led_to(terms, a, SI0_PREFIX, i) {
            let k = choose|k: int| 0 <= k < whole.len() && (#[trigger] whole[k]).0 == i;
            assert(both[k] == whole[k]);
            k
        } else {
            let k = choose|k: int| 0 <= k < rest.len() && (#[trigger] rest[k]).0 == i;
            assert(both[whole.len() + k] == rest[k]);
            whole.len() + k
        };
        let n = both[j].1;
        assert(file_fuzzy::matched(a, max_prefix_len, terms[i].0, n));
        assert forall|s: SplitCandidate| #[trigger] ends_there(terms[i], n, s) implies splits_like(out, s) by {
            lemma_reached(terms, both, both.len() as int, s);
            assert(ends_there(terms[both[j].0 as int], both[j].1, s));
            lemma_sorted_has(items, sorted, s);
            assert(sorted.contains(s));
            let k = choose|k: int| 0 <= k < out.len() && file_walk::same_split(#[trigger] out[k], s);
            assert(file_walk::same_split(out[k], s));
        }
    }
}

/// Whether a candidate splits at the same place by the same token.
pub open spec fn splits_like(out: Seq<SplitCandidate>, s: SplitCandidate) -> bool {
    exists|k: int| 0 <= k < out.len() && file_walk::same_split(#[trigger] out[k], s)
}

/// Whether, for how much of the query was matched behind the term, each of its
/// parents that ends there is given.
pub open spec fn is_given<A: Automaton, M: Fn(&A, A::State) -> usize>(
    terms: Seq<(Seq<u8>, Seq<ParentEntry>)>,
    a: A,
    max_prefix_len: M,
    i: int,
    out: Seq<SplitCandidate>,
) -> bool {
    exists|n: usize| #[trigger]
        file_fuzzy::matched(a, max_prefix_len, terms[i].0, n) && forall|s: SplitCandidate| #[trigger]
            ends_there(terms[i], n, s) ==> splits_like(out, s)
}

} // verus!
