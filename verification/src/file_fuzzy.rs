//! The terms that an automaton leads to, in the order of a walk from the root
//! of their tree, and the tokens that end where it matched part of a query.

use vstd::prelude::*;
use vstd::utf8::*;

use crate::bytes::{part, same_bytes};
use crate::dictionary_lookup::{SI0_PREFIX, SI_REST_PREFIX};
use crate::file::{ParentEntry, SfxFileReader, SplitCandidate};
use crate::file_walk;
use crate::file_walk::{drop_runs, push_reaching, sort_by_length};
use crate::suffix_terms;
use crate::term_dictionary;
use crate::term_dictionary::Automaton;
use crate::text_order;

verus! {

/// Whether a walk from the root comes to key `a` before key `b`: a key comes
/// before those it starts, and of two that part the one with the greater byte.
pub open spec fn walked_before(a: Seq<u8>, b: Seq<u8>) -> bool
    decreases a.len(),
{
    if a.len() == 0 {
        b.len() > 0
    } else if b.len() == 0 {
        false
    } else if a[0] == b[0] {
        walked_before(a.drop_first(), b.drop_first())
    } else {
        a[0] > b[0]
    }
}

proof fn lemma_not_both(a: Seq<u8>, b: Seq<u8>)
    ensures
        !(walked_before(a, b) && walked_before(b, a)),
    decreases a.len(),
{
    if a.len() > 0 && b.len() > 0 && a[0] == b[0] {
        lemma_not_both(a.drop_first(), b.drop_first());
    }
}

/// A key above `t` in byte order that `t` does not start comes before it in a
/// walk, and before every key that `t` starts.
proof fn lemma_walked(t: Seq<u8>, e: Seq<u8>, x: Seq<u8>)
    requires
        text_order::lex_lt(t, e),
        !t.is_prefix_of(e),
        t.is_prefix_of(x),
    ensures
        walked_before(e, x),
    decreases t.len(),
{
    if t.len() == 0 {
        assert(e.subrange(0, 0) =~= t);
    } else {
        assert(x[0] == t[0]) by {
            assert(x.subrange(0, t.len() as int)[0] == x[0]);
        }
        if e[0] == t[0] {
            let t1 = t.drop_first();
            let e1 = e.drop_first();
            let x1 = x.drop_first();
            assert(t1.is_prefix_of(x1)) by {
                assert(x1.subrange(0, t1.len() as int) =~= x.subrange(0, t.len() as int).drop_first());
            }
            assert(!t1.is_prefix_of(e1)) by {
                if t1.is_prefix_of(e1) {
                    assert forall|i: int| 0 <= i < t.len() implies t[i] == e[i] by {
                        if i > 0 {
                            assert(t1[i - 1] == e1.subrange(0, t1.len() as int)[i - 1]);
                        }
                    }
                    assert(e.subrange(0, t.len() as int) =~= t);
                }
            }
            lemma_walked(t1, e1, x1);
        }
    }
}

/// A key comes before those it starts.
proof fn lemma_start_first(t: Seq<u8>, e: Seq<u8>)
    requires
        text_order::lex_lt(t, e),
        t.is_prefix_of(e),
    ensures
        walked_before(t, e),
    decreases t.len(),
{
    if t.len() > 0 {
        assert(e[0] == t[0]) by {
            assert(e.subrange(0, t.len() as int)[0] == e[0]);
        }
        let t1 = t.drop_first();
        let e1 = e.drop_first();
        assert(t1.is_prefix_of(e1)) by {
            assert(e1.subrange(0, t1.len() as int) =~= e.subrange(0, t.len() as int).drop_first());
        }
        lemma_start_first(t1, e1);
    }
}

/// Whether the automaton leads to a term of the partition.
pub open spec fn led_to<A: Automaton>(
    terms: Seq<(Seq<u8>, Seq<ParentEntry>)>,
    a: A,
    partition: u8,
    i: int,
) -> bool {
    &&& 0 <= i < terms.len()
    &&& terms[i].0.len() > 0
    &&& terms[i].0[0] == partition
    &&& term_dictionary::lives_along(a, a.first(), terms[i].0.skip(1))
}

/// Whether `n` is how much of the query was matched behind a key.
pub open spec fn matched<A: Automaton, M: Fn(&A, A::State) -> usize>(
    a: A,
    max_prefix_len: M,
    key: Seq<u8>,
    n: usize,
) -> bool {
    call_ensures(
        max_prefix_len,
        (&a, term_dictionary::state_after(a, a.first(), key.skip(1))),
        n,
    )
}

/// Whether these are the terms of a partition from `from` on that the automaton
/// leads to, in the order of the walk, each with how much of the query was
/// matched behind it.
pub open spec fn walked<A: Automaton, M: Fn(&A, A::State) -> usize>(
    terms: Seq<(Seq<u8>, Seq<ParentEntry>)>,
    a: A,
    max_prefix_len: M,
    partition: u8,
    from: int,
    list: Seq<(usize, usize)>,
) -> bool {
    &&& forall|k: int|
        0 <= k < list.len() ==> {
            &&& from <= (#[trigger] list[k]).0
            &&& led_to(terms, a, partition, list[k].0 as int)
            &&& matched(a, max_prefix_len, terms[list[k].0 as int].0, list[k].1)
        }
    &&& forall|i: int| #[trigger]
        led_to(terms, a, partition, i) && from <= i ==> exists|k: int|
            0 <= k < list.len() && (#[trigger] list[k]).0 == i
    &&& forall|j: int, k: int|
        0 <= j < k < list.len() ==> walked_before(
            terms[(#[trigger] list[j]).0 as int].0,
            terms[(#[trigger] list[k]).0 as int].0,
        )
}

/// Whether the splits of a walk are those of these terms: the longest first,
/// without repeats.
pub open spec fn split_by<A: Automaton, M: Fn(&A, A::State) -> usize>(
    terms: Seq<(Seq<u8>, Seq<ParentEntry>)>,
    a: A,
    max_prefix_len: M,
    whole: Seq<(usize, usize)>,
    rest: Seq<(usize, usize)>,
    sorted: Seq<SplitCandidate>,
    out: Seq<SplitCandidate>,
) -> bool {
    &&& walked(terms, a, max_prefix_len, SI0_PREFIX, 0, whole)
    &&& walked(terms, a, max_prefix_len, SI_REST_PREFIX, 0, rest)
    &&& file_walk::longest_first(
        file_walk::reached_splits(terms, whole + rest, (whole + rest).len() as int),
        sorted,
    )
    &&& out == file_walk::without_runs(sorted)
}

/// Whether these are the splits that the automaton built for a query gives;
/// none where it could not be built.
pub open spec fn fuzzy_splits<
    A: Automaton,
    B: Fn(&str, u8) -> Option<A>,
    M: Fn(&A, A::State) -> usize,
>(
    terms: Seq<(Seq<u8>, Seq<ParentEntry>)>,
    query: &str,
    distance: u8,
    build: B,
    max_prefix_len: M,
    out: Seq<SplitCandidate>,
) -> bool {
    exists|built: Option<A>| #[trigger]
        call_ensures(build, (query, distance), built) && match built {
            None => out.len() == 0,
            Some(a) => exists|
                whole: Seq<(usize, usize)>,
                rest: Seq<(usize, usize)>,
                sorted: Seq<SplitCandidate>,
            | #[trigger] split_by(terms, a, max_prefix_len, whole, rest, sorted, out),
        }
}

/// Where a term belongs among terms above it in byte order: before those that
/// it starts, which come last.
proof fn lemma_insert<A: Automaton, M: Fn(&A, A::State) -> usize>(
    terms: Seq<(Seq<u8>, Seq<ParentEntry>)>,
    a: A,
    max_prefix_len: M,
    partition: u8,
    at: int,
    list: Seq<(usize, usize)>,
    p: int,
    n: usize,
)
    requires
        suffix_terms::ascending(terms),
        0 <= at < terms.len() <= usize::MAX,
        walked(terms, a, max_prefix_len, partition, at + 1, list),
        led_to(terms, a, partition, at),
        matched(a, max_prefix_len, terms[at].0, n),
        0 <= p <= list.len(),
        forall|k: int|
            p <= k < list.len() ==> terms[at].0.is_prefix_of(terms[(#[trigger] list[k]).0 as int].0),
        p > 0 ==> !terms[at].0.is_prefix_of(terms[list[p - 1].0 as int].0),
    ensures
        walked(terms, a, max_prefix_len, partition, at, list.insert(p, (at as usize, n))),
{
    let t = terms[at].0;
    let new = list.insert(p, (at as usize, n));
    assert forall|k: int| 0 <= k < p implies !t.is_prefix_of(terms[(#[trigger] list[k]).0 as int].0) by {
        let key = terms[list[k].0 as int].0;
        if t.is_prefix_of(key) && k < p - 1 {
            let e = terms[list[p - 1].0 as int].0;
            assert(text_order::lex_lt(t, e));
            lemma_walked(t, e, key);
            assert(walked_before(key, e));
            lemma_not_both(key, e);
        }
    }
    assert forall|k: int| 0 <= k < new.len() implies {
        &&& at <= (#[trigger] new[k]).0
        &&& led_to(terms, a, partition, new[k].0 as int)
        &&& matched(a, max_prefix_len, terms[new[k].0 as int].0, new[k].1)
    } by {
        if k < p {
            assert(new[k] == list[k]);
        } else if k > p {
            assert(new[k] == list[k - 1]);
        }
    }
    assert forall|i: int| #[trigger] led_to(terms, a, partition, i) && at <= i implies exists|k: int|
        0 <= k < new.len() && (#[trigger] new[k]).0 == i by {
        if i == at {
            assert(new[p].0 == at);
        } else {
            let k = choose|k: int| 0 <= k < list.len() && (#[trigger] list[k]).0 == i;
            if k < p {
                assert(new[k] == list[k]);
            } else {
                assert(new[k + 1] == list[k]);
            }
        }
    }
    assert forall|j: int, k: int| 0 <= j < k < new.len() implies walked_before(
        terms[(#[trigger] new[j]).0 as int].0,
        terms[(#[trigger] new[k]).0 as int].0,
    ) by {
        if j == p {
            assert(new[k] == list[k - 1]);
            let e = terms[list[k - 1].0 as int].0;
            assert(text_order::lex_lt(t, e));
            lemma_start_first(t, e);
        } else if k == p {
            assert(new[j] == list[j]);
            let e = terms[list[j].0 as int].0;
            assert(text_order::lex_lt(t, e));
            assert(t.is_prefix_of(t)) by {
                assert(t.subrange(0, t.len() as int) =~= t);
            }
            lemma_walked(t, e, t);
        } else {
            let j0 = if j < p {
                j
            } else {
                j - 1
            };
            let k0 = if k < p {
                k
            } else {
                k - 1
            };
            assert(new[j] == list[j0]);
            assert(new[k] == list[k0]);
        }
    }
}

fn begins(key: &[u8], start: &[u8]) -> (r: bool)
    ensures
        r == start@.is_prefix_of(key@),
{
    if key.len() < start.len() {
        return false;
    }
    same_bytes(part(key, 0, start.len()), start)
}

impl<'a> SfxFileReader<'a> {
    fn walk_partition<A: Automaton, M: Fn(&A, A::State) -> usize>(
        &self,
        a: &A,
        max_prefix_len: &M,
        partition: u8,
    ) -> (list: Vec<(usize, usize)>)
        requires
            self.wf(),
            forall|s: A::State| #[trigger] call_requires(*max_prefix_len, (a, s)),
        ensures
            walked(self.terms(), *a, *max_prefix_len, partition, 0, list@),
    {
        let ghost all = self.terms();
        let terms = self.fst();
        proof {
            terms.lemma_ascending();
        }
        let mut list: Vec<(usize, usize)> = Vec::new();
        let mut i: usize = terms.len();
        while i > 0
            invariant
                i <= all.len(),
                all.len() <= usize::MAX,
                all == self.terms(),
                self.wf(),
                terms.wf(),
                terms@ == all,
                suffix_terms::ascending(all),
                forall|s: A::State| #[trigger] call_requires(*max_prefix_len, (a, s)),
                walked(all, *a, *max_prefix_len, partition, i as int, list@),
            decreases i,
        {
            let at: usize = i - 1;
            let key = terms.key(at);
            let ghost before = list@;
            assert(all[at as int].0.len() > 0);
            let mut state: Option<A::State> = None;
            if key[0] == partition {
                let tail = part(key, 1, key.len());
                assert(tail@ =~= key@.skip(1));
                state = term_dictionary::walk(a, a.start(), tail);
            }
            assert(state is Some <==> led_to(all, *a, partition, at as int));
            match state {
                None => {
                    assert forall|x: int| #[trigger] led_to(all, *a, partition, x) && at <= x implies exists|
                        k: int,
                    | 0 <= k < before.len() && (#[trigger] before[k]).0 == x by {
                        assert(x != at);
                    }
                },
                Some(s) => {
                    let n: usize = max_prefix_len(a, s);
                    assert(matched(*a, *max_prefix_len, all[at as int].0, n));
                    let mut p: usize = list.len();
                    let mut more = true;
                    while p > 0 && more
                        invariant
                            p <= list@.len(),
                            at < all.len(),
                            terms.wf(),
                            terms@ == all,
                            key@ == all[at as int].0,
                            list@ == before,
                            forall|k: int|
                                0 <= k < before.len() ==> (#[trigger] before[k]).0 < all.len(),
                            forall|k: int|
                                p <= k < before.len() ==> key@.is_prefix_of(
                                    all[(#[trigger] before[k]).0 as int].0,
                                ),
                            !more ==> p > 0 && !key@.is_prefix_of(all[before[p - 1].0 as int].0),
                        decreases p + (if more { 1int } else { 0int }),
                    {
                        assert(before[p - 1].0 < all.len());
                        if begins(terms.key(list[p - 1].0), key) {
                            p -= 1;
                        } else {
                            more = false;
                        }
                    }
                    list.insert(p, (at, n));
                    proof {
                        lemma_insert(
                            all,
                            *a,
                            *max_prefix_len,
                            partition,
                            at as int,
                            before,
                            p as int,
                            n,
                        );
                    }
                },
            }
            i -= 1;
        }
        list
    }

    /// The tokens that end where a start of the query within `distance` edits
    /// does, the longest start first. `build` makes the automaton of a query,
    /// where it can, and `max_prefix_len` says how much of the query the
    /// automaton has matched in a state. Without edits the walk is exact.
    pub fn fuzzy_falling_walk<
        A: Automaton,
        B: Fn(&str, u8) -> Option<A>,
        M: Fn(&A, A::State) -> usize,
    >(&self, query: &str, distance: u8, build: &B, max_prefix_len: &M) -> (out: Vec<SplitCandidate>)
        requires
            self.wf(),
            call_requires(*build, (query, distance)),
            forall|a: &A, s: A::State| #[trigger] call_requires(*max_prefix_len, (a, s)),
        ensures
            distance == 0 ==> out@ == file_walk::splits_upto(
                self.terms(),
                encode_utf8(query@),
                encode_utf8(query@).len() as int,
            ),
            distance > 0 ==> fuzzy_splits(
                self.terms(),
                query,
                distance,
                *build,
                *max_prefix_len,
                out@,
            ),
    {
        if distance == 0 {
            return self.falling_walk(query);
        }
        let built = build(query, distance);
        assert(call_ensures(*build, (query, distance), built));
        let a = match built {
            Some(a) => a,
            None => {
                return Vec::new();
            },
        };
        let ghost all = self.terms();
        let whole = self.walk_partition(&a, max_prefix_len, SI0_PREFIX);
        let rest = self.walk_partition(&a, max_prefix_len, SI_REST_PREFIX);
        let ghost both = whole@ + rest@;
        let mut found: Vec<SplitCandidate> = Vec::new();
        let mut k: usize = 0;
        let total: usize = whole.len();
        while k < total
            invariant
                k <= total,
                total == whole@.len(),
                all == self.terms(),
                self.wf(),
                both == whole@ + rest@,
                walked(all, a, *max_prefix_len, SI0_PREFIX, 0, whole@),
                found@ == file_walk::reached_splits(all, both, k as int),
            decreases total - k,
        {
            let (term, n) = whole[k];
            assert(both[k as int] == whole@[k as int]);
            assert(led_to(all, a, SI0_PREFIX, whole@[k as int].0 as int));
            if n > 0 {
                push_reaching(&mut found, self.fst().parents(term), n);
            }
            k += 1;
            assert(found@ =~= file_walk::reached_splits(all, both, k as int));
        }
        let mut j: usize = 0;
        while j < rest.len()
            invariant
                j <= rest@.len(),
                total == whole@.len(),
                all == self.terms(),
                self.wf(),
                both == whole@ + rest@,
                walked(all, a, *max_prefix_len, SI_REST_PREFIX, 0, rest@),
                found@ == file_walk::reached_splits(all, both, total + j),
            decreases rest@.len() - j,
        {
            let (term, n) = rest[j];
            assert(both[total + j] == rest@[j as int]);
            assert(led_to(all, a, SI_REST_PREFIX, rest@[j as int].0 as int));
            if n > 0 {
                push_reaching(&mut found, self.fst().parents(term), n);
            }
            j += 1;
            assert(found@ =~= file_walk::reached_splits(all, both, total + j));
        }
        let sorted = sort_by_length(&found);
        let out = drop_runs(&sorted);
        assert(split_by(all, a, *max_prefix_len, whole@, rest@, sorted@, out@));
        out
    }
}

} // verus!
