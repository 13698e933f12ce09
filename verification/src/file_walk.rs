//! Walks over the suffix terms of a file: by a suffix, by the start of one,
//! within a few edits, and along a query to where it leaves a token.

use vstd::prelude::*;
use vstd::seq_lib::*;
use vstd::string::*;
use vstd::utf8::*;

use crate::bytes::{part, push_bytes};
use crate::dictionary_lookup::{SI0_PREFIX, SI_REST_PREFIX, same_text};
use crate::edit_distance;
use crate::edit_distance::{distance_of, prefix_dfa};
use crate::file::{ParentEntry, SfxFileReader, SplitCandidate};
use crate::suffix_terms;
use crate::text;
use crate::text::{push_text, str_copy, utf8_lossy};
use crate::text_order;
use crate::text_order::{Placed, place};

verus! {

/// The key of a suffix in a partition.
pub open spec fn key_of(partition: u8, suffix: Seq<char>) -> Seq<u8> {
    seq![partition] + encode_utf8(suffix)
}

/// The key of a suffix in a partition.
pub fn suffix_key(partition: u8, suffix: &str) -> (key: Vec<u8>)
    ensures
        key@ == key_of(partition, suffix@),
{
    let mut key: Vec<u8> = Vec::new();
    key.push(partition);
    push_bytes(&mut key, suffix.as_bytes());
    assert(key@ =~= key_of(partition, suffix@));
    key
}

/// Appends items.
pub fn push_all<P: Copy>(out: &mut Vec<P>, items: &Vec<P>)
    ensures
        final(out)@ == old(out)@ + items@,
{
    let ghost before = out@;
    let mut i: usize = 0;
    while i < items.len()
        invariant
            i <= items@.len(),
            out@ == before + items@.take(i as int),
        decreases items@.len() - i,
    {
        out.push(items[i]);
        i += 1;
        assert(items@.take(i as int) =~= items@.take(i - 1).push(items@[i - 1]));
        assert(out@ =~= before + items@.take(i as int));
    }
    assert(items@.take(items@.len() as int) =~= items@);
}

/// Terms as a walk gives them: without the partition byte.
pub open spec fn shown(terms: Seq<(Seq<u8>, Seq<ParentEntry>)>) -> Seq<
    (Seq<char>, Seq<ParentEntry>),
> {
    Seq::new(terms.len(), |i: int| (text::lossy(terms[i].0.skip(1)), terms[i].1))
}

/// What a walk gave.
pub open spec fn seen(found: Seq<(String, Vec<ParentEntry>)>) -> Seq<
    (Seq<char>, Seq<ParentEntry>),
> {
    Seq::new(found.len(), |i: int| (found[i].0@, found[i].1@))
}

/// The parents that all hits of a term have, in their order.
pub open spec fn gathered(hits: Seq<(Seq<char>, Seq<ParentEntry>)>, term: Seq<char>) -> Seq<
    ParentEntry,
>
    decreases hits.len(),
{
    if hits.len() == 0 {
        Seq::empty()
    } else if hits.last().0 == term {
        gathered(hits.drop_last(), term) + hits.last().1
    } else {
        gathered(hits.drop_last(), term)
    }
}

/// Whether some hit has this term.
pub open spec fn is_hit(hits: Seq<(Seq<char>, Seq<ParentEntry>)>, term: Seq<char>) -> bool {
    exists|k: int| 0 <= k < hits.len() && (#[trigger] hits[k]).0 == term
}

/// Whether `out` is the hits by term: each term once, in the order of the
/// terms, with the parents of all its hits.
pub open spec fn merges(
    hits: Seq<(Seq<char>, Seq<ParentEntry>)>,
    out: Seq<(Seq<char>, Seq<ParentEntry>)>,
) -> bool {
    &&& forall|i: int, j: int|
        0 <= i < j < out.len() ==> text_order::lex_lt(
            encode_utf8((#[trigger] out[i]).0),
            encode_utf8((#[trigger] out[j]).0),
        )
    &&& forall|i: int|
        0 <= i < out.len() ==> is_hit(hits, (#[trigger] out[i]).0) && out[i].1 == gathered(
            hits,
            out[i].0,
        )
    &&& forall|k: int| 0 <= k < hits.len() ==> is_hit(out, (#[trigger] hits[k]).0)
}

proof fn lemma_not_hit(hits: Seq<(Seq<char>, Seq<ParentEntry>)>, term: Seq<char>)
    requires
        !is_hit(hits, term),
    ensures
        gathered(hits, term) == Seq::<ParentEntry>::empty(),
    decreases hits.len(),
{
    if hits.len() > 0 {
        let h = hits.drop_last();
        assert(hits[hits.len() - 1].0 != term);
        assert forall|k: int| 0 <= k < h.len() implies (#[trigger] h[k]).0 != term by {
            assert(hits[k].0 != term);
        }
        lemma_not_hit(h, term);
    }
}

/// The position at which a term stands or belongs among sorted terms.
fn position_of(out: &Vec<(String, Vec<ParentEntry>)>, term: &str) -> (r: usize)
    requires
        forall|i: int, j: int|
            0 <= i < j < out@.len() ==> text_order::lex_lt(
                encode_utf8((#[trigger] out@[i]).0@),
                encode_utf8((#[trigger] out@[j]).0@),
            ),
    ensures
        r <= out@.len(),
        forall|i: int|
            0 <= i < r ==> text_order::lex_lt(encode_utf8((#[trigger] out@[i]).0@), encode_utf8(term@)),
        forall|i: int|
            r <= i < out@.len() ==> !text_order::lex_lt(
                encode_utf8((#[trigger] out@[i]).0@),
                encode_utf8(term@),
            ),
{
    let ghost t = encode_utf8(term@);
    let mut lo: usize = 0;
    let mut hi: usize = out.len();
    while lo < hi
        invariant
            lo <= hi <= out@.len(),
            t == encode_utf8(term@),
            forall|i: int, j: int|
                0 <= i < j < out@.len() ==> text_order::lex_lt(
                    encode_utf8((#[trigger] out@[i]).0@),
                    encode_utf8((#[trigger] out@[j]).0@),
                ),
            forall|i: int| 0 <= i < lo ==> text_order::lex_lt(encode_utf8((#[trigger] out@[i]).0@), t),
            forall|i: int|
                hi <= i < out@.len() ==> !text_order::lex_lt(encode_utf8((#[trigger] out@[i]).0@), t),
        decreases hi - lo,
    {
        let mid: usize = lo + (hi - lo) / 2;
        let placed = place(out[mid].0.as_str().as_bytes(), term.as_bytes());
        let ghost m = encode_utf8(out@[mid as int].0@);
        proof {
            text_order::lemma_lex_irreflexive(t);
            assert forall|i: int| 0 <= i < mid && text_order::lex_lt(m, t) implies text_order::lex_lt(
                encode_utf8((#[trigger] out@[i]).0@),
                t,
            ) by {
                text_order::lemma_lex_transitive(encode_utf8(out@[i].0@), m, t);
            }
            assert forall|i: int| mid < i < out@.len() && !text_order::lex_lt(m, t) implies !text_order::lex_lt(
                encode_utf8((#[trigger] out@[i]).0@),
                t,
            ) by {
                if text_order::lex_lt(encode_utf8(out@[i].0@), t) {
                    text_order::lemma_lex_transitive(m, encode_utf8(out@[i].0@), t);
                }
            }
        }
        match placed {
            Placed::Before => {
                lo = mid + 1;
            },
            _ => {
                hi = mid;
            },
        }
    }
    lo
}

proof fn lemma_merge_known(
    hits: Seq<(Seq<char>, Seq<ParentEntry>)>,
    out: Seq<(Seq<char>, Seq<ParentEntry>)>,
    hit: (Seq<char>, Seq<ParentEntry>),
    at: int,
)
    requires
        merges(hits, out),
        0 <= at < out.len(),
        out[at].0 == hit.0,
    ensures
        merges(hits.push(hit), out.update(at, (hit.0, out[at].1 + hit.1))),
{
    let more = hits.push(hit);
    let next = out.update(at, (hit.0, out[at].1 + hit.1));
    assert(more.drop_last() =~= hits);
    assert forall|i: int, j: int| 0 <= i < j < next.len() implies text_order::lex_lt(
        encode_utf8((#[trigger] next[i]).0),
        encode_utf8((#[trigger] next[j]).0),
    ) by {
        assert(next[i].0 == out[i].0 && next[j].0 == out[j].0);
    }
    assert forall|i: int| 0 <= i < next.len() implies is_hit(more, (#[trigger] next[i]).0)
        && next[i].1 == gathered(more, next[i].0) by {
        assert(next[i].0 == out[i].0);
        let k = choose|k: int| 0 <= k < hits.len() && (#[trigger] hits[k]).0 == out[i].0;
        assert(more[k].0 == out[i].0);
        if i != at {
            if i < at {
                text_order::lemma_lex_irreflexive(encode_utf8(hit.0));
                assert(text_order::lex_lt(encode_utf8(out[i].0), encode_utf8(out[at].0)));
            } else {
                text_order::lemma_lex_irreflexive(encode_utf8(hit.0));
                assert(text_order::lex_lt(encode_utf8(out[at].0), encode_utf8(out[i].0)));
            }
            assert(out[i].0 != hit.0);
        }
    }
    assert forall|k: int| 0 <= k < more.len() implies is_hit(next, (#[trigger] more[k]).0) by {
        if k < hits.len() {
            assert(more[k] == hits[k]);
            let i = choose|i: int| 0 <= i < out.len() && (#[trigger] out[i]).0 == hits[k].0;
            assert(next[i].0 == hits[k].0);
        } else {
            assert(next[at].0 == hit.0);
        }
    }
}

proof fn lemma_merge_new(
    hits: Seq<(Seq<char>, Seq<ParentEntry>)>,
    out: Seq<(Seq<char>, Seq<ParentEntry>)>,
    hit: (Seq<char>, Seq<ParentEntry>),
    at: int,
)
    requires
        merges(hits, out),
        0 <= at <= out.len(),
        forall|i: int|
            0 <= i < at ==> text_order::lex_lt(encode_utf8((#[trigger] out[i]).0), encode_utf8(hit.0)),
        forall|i: int|
            at <= i < out.len() ==> text_order::lex_lt(encode_utf8(hit.0), encode_utf8((#[trigger] out[i]).0)),
    ensures
        merges(hits.push(hit), out.insert(at, hit)),
{
    let more = hits.push(hit);
    let next = out.insert(at, hit);
    assert(more.drop_last() =~= hits);
    assert forall|i: int| 0 <= i < next.len() implies #[trigger] next[i] == (if i < at {
        out[i]
    } else if i == at {
        hit
    } else {
        out[i - 1]
    }) by {}
    assert forall|i: int, j: int| 0 <= i < j < next.len() implies text_order::lex_lt(
        encode_utf8((#[trigger] next[i]).0),
        encode_utf8((#[trigger] next[j]).0),
    ) by {
        if i < at && j < at {
            assert(text_order::lex_lt(encode_utf8(out[i].0), encode_utf8(out[j].0)));
        } else if i < at && j > at {
            assert(text_order::lex_lt(encode_utf8(out[i].0), encode_utf8(out[j - 1].0)));
        } else if i > at {
            assert(text_order::lex_lt(encode_utf8(out[i - 1].0), encode_utf8(out[j - 1].0)));
        }
    }
    assert forall|i: int| 0 <= i < out.len() implies (#[trigger] out[i]).0 != hit.0 by {
        text_order::lemma_lex_irreflexive(encode_utf8(hit.0));
    }
    assert(!is_hit(hits, hit.0)) by {
        if is_hit(hits, hit.0) {
            let k = choose|k: int| 0 <= k < hits.len() && (#[trigger] hits[k]).0 == hit.0;
            assert(is_hit(out, hits[k].0));
        }
    }
    assert forall|i: int| 0 <= i < next.len() implies is_hit(more, (#[trigger] next[i]).0)
        && next[i].1 == gathered(more, next[i].0) by {
        if i == at {
            assert(more[hits.len() as int].0 == hit.0);
            lemma_not_hit(hits, hit.0);
            assert(Seq::<ParentEntry>::empty() + hit.1 =~= hit.1);
        } else {
            let o = if i < at {
                i
            } else {
                i - 1
            };
            assert(next[i] == out[o]);
            let k = choose|k: int| 0 <= k < hits.len() && (#[trigger] hits[k]).0 == out[o].0;
            assert(more[k].0 == out[o].0);
        }
    }
    assert forall|k: int| 0 <= k < more.len() implies is_hit(next, (#[trigger] more[k]).0) by {
        if k < hits.len() {
            assert(more[k] == hits[k]);
            let i = choose|i: int| 0 <= i < out.len() && (#[trigger] out[i]).0 == hits[k].0;
            if i < at {
                assert(next[i].0 == hits[k].0);
            } else {
                assert(next[i + 1].0 == hits[k].0);
            }
        } else {
            assert(next[at].0 == hit.0);
        }
    }
}

/// Hits by term: each term once, in the order of the terms, with the parents
/// of all its hits.
pub fn merge_hits(hits: &Vec<(String, Vec<ParentEntry>)>) -> (out: Vec<(String, Vec<ParentEntry>)>)
    ensures
        merges(seen(hits@), seen(out@)),
{
    let ghost all = seen(hits@);
    let mut out: Vec<(String, Vec<ParentEntry>)> = Vec::new();
    let mut k: usize = 0;
    assert(all.take(0) =~= Seq::empty());
    while k < hits.len()
        invariant
            k <= hits@.len(),
            all == seen(hits@),
            merges(all.take(k as int), seen(out@)),
        decreases hits@.len() - k,
    {
        let ghost before = seen(out@);
        let ghost sofar = all.take(k as int);
        let term = hits[k].0.as_str();
        let ghost hit = (term@, hits@[k as int].1@);
        assert(all.take(k + 1) =~= sofar.push(hit));
        proof {
            assert forall|i: int, j: int| 0 <= i < j < out@.len() implies text_order::lex_lt(
                encode_utf8((#[trigger] out@[i]).0@),
                encode_utf8((#[trigger] out@[j]).0@),
            ) by {
                assert(before[i].0 == out@[i].0@ && before[j].0 == out@[j].0@);
            }
        }
        let at: usize = position_of(&out, term);
        let known = at < out.len() && same_text(out[at].0.as_str(), term);
        if known {
            let (t, mut parents) = out.remove(at);
            push_all(&mut parents, &hits[k].1);
            out.insert(at, (t, parents));
            proof {
                lemma_merge_known(sofar, before, hit, at as int);
                assert(seen(out@) =~= before.update(at as int, (hit.0, before[at as int].1 + hit.1)));
            }
        } else {
            let mut parents: Vec<ParentEntry> = Vec::new();
            push_all(&mut parents, &hits[k].1);
            assert(parents@ =~= hit.1);
            proof {
                assert forall|i: int| 0 <= i < at implies text_order::lex_lt(
                    encode_utf8((#[trigger] before[i]).0),
                    encode_utf8(hit.0),
                ) by {
                    assert(before[i].0 == out@[i].0@);
                }
                assert forall|i: int| at <= i < before.len() implies text_order::lex_lt(
                    encode_utf8(hit.0),
                    encode_utf8((#[trigger] before[i]).0),
                ) by {
                    assert(before[i].0 == out@[i].0@);
                    assert(before[at as int].0 == out@[at as int].0@);
                    text_order::lemma_lex_total(encode_utf8(hit.0), encode_utf8(before[i].0));
                    if encode_utf8(hit.0) == encode_utf8(before[i].0) {
                        text::lemma_encode_injective(hit.0, before[i].0);
                        if i > at {
                            assert(text_order::lex_lt(
                                encode_utf8(before[at as int].0),
                                encode_utf8(before[i].0),
                            ));
                        }
                    }
                }
                lemma_merge_new(sofar, before, hit, at as int);
            }
            out.insert(at, (str_copy(term), parents));
            proof {
                assert(seen(out@) =~= before.insert(at as int, hit));
            }
        }
        k += 1;
    }
    assert(all.take(all.len() as int) =~= all);
    out
}

/// A filter by how near the start of a key is to a query.
pub open spec fn within(query: Seq<char>, distance: u8) -> spec_fn(
    (Seq<u8>, Seq<ParentEntry>),
) -> bool {
    |t: (Seq<u8>, Seq<ParentEntry>)| edit_distance::prefix_distances(query, distance)[t.0] is Some
}

/// The character that stands for a partition before a query.
pub open spec fn tag_of(partition: u8) -> Seq<char> {
    if partition == SI0_PREFIX {
        "\0"@
    } else {
        "\x01"@
    }
}

/// The terms of a partition whose keys start within `distance` edits of the
/// query with its partition before it.
pub open spec fn near(
    terms: Seq<(Seq<u8>, Seq<ParentEntry>)>,
    partition: u8,
    query: Seq<char>,
    distance: u8,
) -> Seq<(Seq<u8>, Seq<ParentEntry>)> {
    suffix_terms::starting(terms, seq![partition]).filter(within(tag_of(partition) + query, distance))
}

/// The terms that start with `prefix`, whole tokens first.
pub open spec fn prefix_hits(terms: Seq<(Seq<u8>, Seq<ParentEntry>)>, prefix: Seq<char>) -> Seq<
    (Seq<char>, Seq<ParentEntry>),
> {
    shown(suffix_terms::starting(terms, key_of(SI0_PREFIX, prefix))) + shown(
        suffix_terms::starting(terms, key_of(SI_REST_PREFIX, prefix)),
    )
}

/// The terms that start within `distance` edits of the query, whole tokens
/// first.
pub open spec fn near_hits(
    terms: Seq<(Seq<u8>, Seq<ParentEntry>)>,
    query: Seq<char>,
    distance: u8,
) -> Seq<(Seq<char>, Seq<ParentEntry>)> {
    shown(near(terms, SI0_PREFIX, query, distance)) + shown(
        near(terms, SI_REST_PREFIX, query, distance),
    )
}

/// The parents of a suffix, those it is the whole token of first.
pub open spec fn resolved(terms: Seq<(Seq<u8>, Seq<ParentEntry>)>, suffix: Seq<char>) -> Seq<
    ParentEntry,
> {
    suffix_terms::parents_of(terms, key_of(SI0_PREFIX, suffix)) + suffix_terms::parents_of(
        terms,
        key_of(SI_REST_PREFIX, suffix),
    )
}

/// A filter by where a token ends.
pub open spec fn ends_at(n: int) -> spec_fn(ParentEntry) -> bool {
    |p: ParentEntry| p.si + n == p.token_len
}

/// The parents whose token ends where `n` bytes of a suffix do.
pub open spec fn reaching(parents: Seq<ParentEntry>, n: int) -> Seq<SplitCandidate> {
    parents.filter(ends_at(n)).map_values(
        |p: ParentEntry| SplitCandidate { prefix_len: n as usize, parent: p },
    )
}

/// The tokens that end where the first `n` bytes of a query do.
pub open spec fn splits_at(
    terms: Seq<(Seq<u8>, Seq<ParentEntry>)>,
    query: Seq<u8>,
    n: int,
) -> Seq<SplitCandidate> {
    reaching(suffix_terms::parents_of(terms, seq![SI0_PREFIX] + query.take(n)), n) + reaching(
        suffix_terms::parents_of(terms, seq![SI_REST_PREFIX] + query.take(n)),
        n,
    )
}

/// The tokens that end where a start of the query of at most `n` bytes does,
/// the longest start first.
pub open spec fn splits_upto(
    terms: Seq<(Seq<u8>, Seq<ParentEntry>)>,
    query: Seq<u8>,
    n: int,
) -> Seq<SplitCandidate>
    decreases n,
{
    if n <= 0 {
        Seq::empty()
    } else {
        splits_at(terms, query, n) + splits_upto(terms, query, n - 1)
    }
}

pub(crate) fn push_reaching(out: &mut Vec<SplitCandidate>, parents: &Vec<ParentEntry>, n: usize)
    ensures
        final(out)@ == old(out)@ + reaching(parents@, n as int),
{
    let ghost before = out@;
    let mut i: usize = 0;
    proof {
        reveal(Seq::filter);
        assert(parents@.take(0) =~= Seq::empty());
        assert(reaching(parents@.take(0), n as int) =~= Seq::empty());
    }
    while i < parents.len()
        invariant
            i <= parents@.len(),
            out@ == before + reaching(parents@.take(i as int), n as int),
        decreases parents@.len() - i,
    {
        let parent = parents[i];
        proof {
            reveal(Seq::filter);
            assert(parents@.take(i + 1).drop_last() =~= parents@.take(i as int));
            assert(parents@.take(i + 1).last() == parent);
        }
        let ghost kept = reaching(parents@.take(i as int), n as int);
        if n <= parent.token_len as usize && parent.si as usize + n == parent.token_len as usize {
            out.push(SplitCandidate { prefix_len: n, parent });
            assert(reaching(parents@.take(i + 1), n as int) =~= kept.push(
                SplitCandidate { prefix_len: n, parent },
            ));
        } else {
            assert(reaching(parents@.take(i + 1), n as int) =~= kept);
        }
        i += 1;
        assert(out@ =~= before + reaching(parents@.take(i as int), n as int));
    }
    assert(parents@.take(parents@.len() as int) =~= parents@);
}

/// The tokens that a walk reached terms of, each where the walk matched that
/// much of the query.
pub open spec fn reached_splits(
    terms: Seq<(Seq<u8>, Seq<ParentEntry>)>,
    reached: Seq<(usize, usize)>,
    k: int,
) -> Seq<SplitCandidate>
    decreases k,
{
    if k <= 0 {
        Seq::empty()
    } else {
        let (term, n) = reached[k - 1];
        reached_splits(terms, reached, k - 1) + (if n > 0 {
            reaching(terms[term as int].1, n as int)
        } else {
            Seq::empty()
        })
    }
}

/// A filter by length.
pub open spec fn of_length(n: usize) -> spec_fn(SplitCandidate) -> bool {
    |c: SplitCandidate| c.prefix_len == n
}

/// Whether `out` is `items` with the longest first, those of a length in the
/// order they had.
pub open spec fn longest_first(items: Seq<SplitCandidate>, out: Seq<SplitCandidate>) -> bool {
    &&& forall|i: int, j: int|
        0 <= i < j < out.len() ==> (#[trigger] out[i]).prefix_len >= (#[trigger] out[j]).prefix_len
    &&& forall|n: usize| out.filter(#[trigger] of_length(n)) == items.filter(of_length(n))
}

/// Whether two candidates split at the same place by the same token.
pub open spec fn same_split(a: SplitCandidate, b: SplitCandidate) -> bool {
    a.prefix_len == b.prefix_len && a.parent.raw_ordinal == b.parent.raw_ordinal
}

/// Candidates without those that repeat the one before.
pub open spec fn without_runs(s: Seq<SplitCandidate>) -> Seq<SplitCandidate>
    decreases s.len(),
{
    if s.len() <= 1 {
        s
    } else if same_split(s.last(), s[s.len() - 2]) {
        without_runs(s.drop_last())
    } else {
        without_runs(s.drop_last()).push(s.last())
    }
}

proof fn lemma_filter_none<T>(s: Seq<T>, keep: spec_fn(T) -> bool)
    requires
        forall|i: int| 0 <= i < s.len() ==> !keep(#[trigger] s[i]),
    ensures
        s.filter(keep) == Seq::<T>::empty(),
{
    suffix_terms::lemma_filter_run(s, keep, 0, 0);
    assert(s.subrange(0, 0) =~= Seq::<T>::empty());
}

proof fn lemma_insert_sorted(items: Seq<SplitCandidate>, out: Seq<SplitCandidate>, at: int, c: SplitCandidate)
    requires
        longest_first(items, out),
        0 <= at <= out.len(),
        forall|i: int| 0 <= i < at ==> (#[trigger] out[i]).prefix_len >= c.prefix_len,
        forall|i: int| at <= i < out.len() ==> (#[trigger] out[i]).prefix_len < c.prefix_len,
    ensures
        longest_first(items.push(c), out.insert(at, c)),
{
    let next = out.insert(at, c);
    let a = out.take(at);
    let b = out.skip(at);
    assert(out =~= a + b);
    assert(next =~= a + seq![c] + b);
    assert forall|n: usize| next.filter(#[trigger] of_length(n)) == items.push(c).filter(of_length(n)) by {
        let keep = of_length(n);
        assert(out.filter(keep) == items.filter(keep));
        Seq::filter_distributes_over_add(a, b, keep);
        Seq::filter_distributes_over_add(a + seq![c], b, keep);
        Seq::filter_distributes_over_add(a, seq![c], keep);
        Seq::filter_distributes_over_add(items, seq![c], keep);
        assert(items.push(c) =~= items + seq![c]);
        if n == c.prefix_len {
            assert forall|i: int| 0 <= i < b.len() implies !keep(#[trigger] b[i]) by {
                assert(b[i] == out[at + i]);
            }
            lemma_filter_none(b, keep);
            assert(next.filter(keep) =~= items.push(c).filter(keep));
        } else {
            assert forall|i: int| 0 <= i < seq![c].len() implies !keep(#[trigger] seq![c][i]) by {}
            lemma_filter_none(seq![c], keep);
            assert(next.filter(keep) =~= items.push(c).filter(keep));
        }
    }
    assert forall|i: int, j: int| 0 <= i < j < next.len() implies (#[trigger] next[i]).prefix_len
        >= (#[trigger] next[j]).prefix_len by {
        let oi = if i < at {
            i
        } else {
            i - 1
        };
        let oj = if j < at {
            j
        } else {
            j - 1
        };
        if i != at {
            assert(next[i] == out[oi]);
        }
        if j != at {
            assert(next[j] == out[oj]);
        }
    }
}

/// Candidates with the longest first.
pub(crate) fn sort_by_length(items: &Vec<SplitCandidate>) -> (out: Vec<SplitCandidate>)
    ensures
        longest_first(items@, out@),
{
    let mut out: Vec<SplitCandidate> = Vec::new();
    let mut k: usize = 0;
    proof {
        assert(items@.take(0) =~= Seq::<SplitCandidate>::empty());
        assert(out@ =~= items@.take(0));
    }
    while k < items.len()
        invariant
            k <= items@.len(),
            longest_first(items@.take(k as int), out@),
        decreases items@.len() - k,
    {
        let c = items[k];
        let mut at: usize = out.len();
        while at > 0 && out[at - 1].prefix_len < c.prefix_len
            invariant
                at <= out@.len(),
                forall|i: int| at <= i < out@.len() ==> (#[trigger] out@[i]).prefix_len < c.prefix_len,
            decreases at,
        {
            at -= 1;
        }
        proof {
            assert forall|i: int| 0 <= i < at implies (#[trigger] out@[i]).prefix_len
                >= c.prefix_len by {
                assert(out@[at - 1].prefix_len >= c.prefix_len);
                if i < at - 1 {
                    assert(out@[i].prefix_len >= out@[at - 1].prefix_len);
                }
            }
            lemma_insert_sorted(items@.take(k as int), out@, at as int, c);
            assert(items@.take(k + 1) =~= items@.take(k as int).push(c));
        }
        out.insert(at, c);
        k += 1;
    }
    assert(items@.take(items@.len() as int) =~= items@);
    out
}

/// Candidates without those that repeat the one before.
pub(crate) fn drop_runs(items: &Vec<SplitCandidate>) -> (out: Vec<SplitCandidate>)
    ensures
        out@ == without_runs(items@),
{
    let mut out: Vec<SplitCandidate> = Vec::new();
    let mut k: usize = 0;
    assert(items@.take(0) =~= Seq::<SplitCandidate>::empty());
    while k < items.len()
        invariant
            k <= items@.len(),
            out@ == without_runs(items@.take(k as int)),
        decreases items@.len() - k,
    {
        let c = items[k];
        proof {
            assert(items@.take(k + 1).drop_last() =~= items@.take(k as int));
            assert(items@.take(k + 1).last() == c);
        }
        if k == 0 {
            out.push(c);
            assert(out@ =~= items@.take(1));
        } else {
            let b = items[k - 1];
            assert(items@.take(k + 1)[k - 1] == b);
            if !(c.prefix_len == b.prefix_len && c.parent.raw_ordinal == b.parent.raw_ordinal) {
                out.push(c);
            }
        }
        k += 1;
    }
    assert(items@.take(items@.len() as int) =~= items@);
    out
}

/// What an exact walk gives has the longest starts of the query first.
pub proof fn splits_come_longest_first(
    terms: Seq<(Seq<u8>, Seq<ParentEntry>)>,
    query: Seq<u8>,
    n: int,
    i: int,
    j: int,
)
    requires
        n <= usize::MAX,
        0 <= i < j < splits_upto(terms, query, n).len(),
    ensures
        splits_upto(terms, query, n)[i].prefix_len >= splits_upto(terms, query, n)[j].prefix_len,
        splits_upto(terms, query, n)[j].prefix_len <= n,
    decreases n,
{
    let s = splits_upto(terms, query, n);
    let here = splits_at(terms, query, n);
    let rest = splits_upto(terms, query, n - 1);
    if j >= here.len() {
        if i >= here.len() {
            splits_come_longest_first(terms, query, n - 1, i - here.len(), j - here.len());
        } else {
            lemma_split_bound(terms, query, n - 1, j - here.len());
        }
    }
}

proof fn lemma_split_bound(
    terms: Seq<(Seq<u8>, Seq<ParentEntry>)>,
    query: Seq<u8>,
    n: int,
    j: int,
)
    requires
        n <= usize::MAX,
        0 <= j < splits_upto(terms, query, n).len(),
    ensures
        splits_upto(terms, query, n)[j].prefix_len <= n,
    decreases n,
{
    let here = splits_at(terms, query, n);
    if n > 0 && j >= here.len() {
        lemma_split_bound(terms, query, n - 1, j - here.len());
    }
}

impl<'a> SfxFileReader<'a> {
    /// The parents of a suffix, those it is the whole token of first.
    pub fn resolve_suffix(&self, suffix: &str) -> (out: Vec<ParentEntry>)
        requires
            self.wf(),
        ensures
            out@ == resolved(self.terms(), suffix@),
    {
        let mut out = self.resolve_suffix_si0(suffix);
        let key = suffix_key(SI_REST_PREFIX, suffix);
        match self.fst().get(key.as_slice()) {
            Some(parents) => {
                push_all(&mut out, parents);
            },
            None => {},
        }
        assert(out@ =~= suffix_terms::parents_of(self.terms(), key_of(SI0_PREFIX, suffix@)) + suffix_terms::parents_of(
            self.terms(),
            key_of(SI_REST_PREFIX, suffix@),
        ));
        out
    }

    /// The parents that a suffix is the whole token of.
    pub fn resolve_suffix_si0(&self, suffix: &str) -> (out: Vec<ParentEntry>)
        requires
            self.wf(),
        ensures
            out@ == suffix_terms::parents_of(self.terms(), key_of(SI0_PREFIX, suffix@)),
    {
        let key = suffix_key(SI0_PREFIX, suffix);
        let mut out: Vec<ParentEntry> = Vec::new();
        match self.fst().get(key.as_slice()) {
            Some(parents) => {
                push_all(&mut out, parents);
            },
            None => {},
        }
        assert(out@ =~= suffix_terms::parents_of(self.terms(), key_of(SI0_PREFIX, suffix@)));
        out
    }

    fn push_term(&self, out: &mut Vec<(String, Vec<ParentEntry>)>, i: usize)
        requires
            self.wf(),
            i < self.terms().len(),
            self.terms()[i as int].0.len() > 0,
        ensures
            seen(final(out)@) == seen(old(out)@).push(
                (text::lossy(self.terms()[i as int].0.skip(1)), self.terms()[i as int].1),
            ),
    {
        let key = self.fst().key(i);
        let mut parents: Vec<ParentEntry> = Vec::new();
        push_all(&mut parents, self.fst().parents(i));
        assert(parents@ =~= self.terms()[i as int].1);
        let rest = part(key, 1, key.len());
        assert(rest@ =~= key@.skip(1));
        out.push((utf8_lossy(rest), parents));
        assert(seen(out@) =~= seen(old(out)@).push(
            (text::lossy(self.terms()[i as int].0.skip(1)), self.terms()[i as int].1),
        ));
    }

    /// The terms of a partition that start with `prefix`.
    fn prefix_walk_with_byte(&self, partition: u8, prefix: &str) -> (out: Vec<
        (String, Vec<ParentEntry>),
    >)
        requires
            self.wf(),
        ensures
            seen(out@) == shown(suffix_terms::starting(self.terms(), key_of(partition, prefix@))),
    {
        let key = suffix_key(partition, prefix);
        let ghost all = self.terms();
        let terms = self.fst();
        let (from, to) = terms.prefix_range(key.as_slice());
        proof {
            terms.lemma_ascending();
        }
        let mut out: Vec<(String, Vec<ParentEntry>)> = Vec::new();
        let mut i: usize = from;
        assert(seen(out@) =~= shown(all.subrange(from as int, i as int)));
        while i < to
            invariant
                from <= i <= to <= all.len(),
                all == self.terms(),
                suffix_terms::ascending(all),
                self.wf(),
                seen(out@) == shown(all.subrange(from as int, i as int)),
            decreases to - i,
        {
            self.push_term(&mut out, i);
            i += 1;
            assert(seen(out@) =~= shown(all.subrange(from as int, i as int)));
        }
        out
    }

    /// The terms that start with `prefix`, from the start of a token or from
    /// later on, by term.
    pub fn prefix_walk(&self, prefix: &str) -> (out: Vec<(String, Vec<ParentEntry>)>)
        requires
            self.wf(),
        ensures
            merges(prefix_hits(self.terms(), prefix@), seen(out@)),
    {
        let mut hits = self.prefix_walk_with_byte(SI0_PREFIX, prefix);
        let mut rest = self.prefix_walk_with_byte(SI_REST_PREFIX, prefix);
        let ghost a = hits@;
        let ghost b = rest@;
        hits.append(&mut rest);
        assert(seen(hits@) =~= seen(a) + seen(b));
        merge_hits(&hits)
    }

    /// The terms that start with `prefix` from the start of a token.
    pub fn prefix_walk_si0(&self, prefix: &str) -> (out: Vec<(String, Vec<ParentEntry>)>)
        requires
            self.wf(),
        ensures
            seen(out@) == shown(suffix_terms::starting(self.terms(), key_of(SI0_PREFIX, prefix@))),
    {
        self.prefix_walk_with_byte(SI0_PREFIX, prefix)
    }

    /// The terms of a partition that start within `distance` edits of the
    /// query.
    fn fuzzy_walk_with_byte(&self, partition: u8, query: &str, distance: u8) -> (out: Vec<
        (String, Vec<ParentEntry>),
    >)
        requires
            self.wf(),
            distance <= 15,
        ensures
            seen(out@) == shown(near(self.terms(), partition, query@, distance)),
    {
        let ghost all = self.terms();
        let tag = if partition == SI0_PREFIX {
            "\0"
        } else {
            "\x01"
        };
        let mut prefixed = str_copy(tag);
        push_text(&mut prefixed, query);
        let ghost keep = within(tag_of(partition) + query@, distance);
        let dfa = prefix_dfa(prefixed.as_str(), distance);
        let mut start: Vec<u8> = Vec::new();
        start.push(partition);
        assert(start@ =~= seq![partition]);
        let terms = self.fst();
        let (from, to) = terms.prefix_range(start.as_slice());
        let ghost part = all.subrange(from as int, to as int);
        let mut out: Vec<(String, Vec<ParentEntry>)> = Vec::new();
        let mut i: usize = from;
        proof {
            terms.lemma_ascending();
            reveal(Seq::filter);
            assert(part.take(0).filter(keep) =~= Seq::empty());
            assert(seen(out@) =~= shown(part.take(0).filter(keep)));
        }
        while i < to
            invariant
                from <= i <= to <= all.len(),
                all == self.terms(),
                part == all.subrange(from as int, to as int),
                suffix_terms::ascending(all),
                self.wf(),
                keep == within(tag_of(partition) + query@, distance),
                edit_distance::distances_in(dfa) == edit_distance::prefix_distances(tag_of(partition) + query@, distance),
                seen(out@) == shown(part.take(i - from).filter(keep)),
            decreases to - i,
        {
            let ghost k = i - from;
            let ghost kept = part.take(k).filter(keep);
            proof {
                reveal(Seq::filter);
                assert(part.take(k + 1).drop_last() =~= part.take(k));
                assert(part.take(k + 1).last() == all[i as int]);
            }
            let found = distance_of(&dfa, self.fst().key(i));
            if found.is_some() {
                self.push_term(&mut out, i);
                assert(part.take(k + 1).filter(keep) == kept.push(all[i as int]));
                assert(seen(out@) =~= shown(kept.push(all[i as int])));
            } else {
                assert(part.take(k + 1).filter(keep) == kept);
            }
            i += 1;
        }
        assert(part.take(part.len() as int) =~= part);
        out
    }

    /// The terms that start within `distance` edits of `query`, from the start
    /// of a token or from later on, by term.
    pub fn fuzzy_walk(&self, query: &str, distance: u8) -> (out: Vec<(String, Vec<ParentEntry>)>)
        requires
            self.wf(),
            distance <= 15,
        ensures
            merges(near_hits(self.terms(), query@, distance), seen(out@)),
    {
        let mut hits = self.fuzzy_walk_with_byte(SI0_PREFIX, query, distance);
        let mut rest = self.fuzzy_walk_with_byte(SI_REST_PREFIX, query, distance);
        let ghost a = hits@;
        let ghost b = rest@;
        hits.append(&mut rest);
        assert(seen(hits@) =~= seen(a) + seen(b));
        merge_hits(&hits)
    }

    /// The terms that start within `distance` edits of `query` from the start
    /// of a token.
    pub fn fuzzy_walk_si0(&self, query: &str, distance: u8) -> (out: Vec<
        (String, Vec<ParentEntry>),
    >)
        requires
            self.wf(),
            distance <= 15,
        ensures
            seen(out@) == shown(near(self.terms(), SI0_PREFIX, query@, distance)),
    {
        self.fuzzy_walk_with_byte(SI0_PREFIX, query, distance)
    }

    /// The tokens that end where a start of the query does, the longest start
    /// first.
    pub fn falling_walk(&self, query: &str) -> (out: Vec<SplitCandidate>)
        requires
            self.wf(),
        ensures
            out@ == splits_upto(self.terms(), encode_utf8(query@), encode_utf8(query@).len() as int),
    {
        let q = query.as_bytes();
        let ghost all = self.terms();
        let mut out: Vec<SplitCandidate> = Vec::new();
        let mut n: usize = q.len();
        let ghost whole = splits_upto(all, q@, q@.len() as int);
        assert(whole =~= out@ + whole);
        while n > 0
            invariant
                n <= q@.len(),
                all == self.terms(),
                self.wf(),
                whole == out@ + splits_upto(all, q@, n as int),
            decreases n,
        {
            let ghost before = out@;
            let head = part(q, 0, n);
            assert(head@ =~= q@.take(n as int));
            self.push_splits(&mut out, SI0_PREFIX, head);
            self.push_splits(&mut out, SI_REST_PREFIX, head);
            assert(out@ =~= before + splits_at(all, q@, n as int));
            n -= 1;
            assert(whole =~= out@ + splits_upto(all, q@, n as int));
        }
        assert(out@ =~= whole);
        out
    }

    fn push_splits(&self, out: &mut Vec<SplitCandidate>, partition: u8, head: &[u8])
        requires
            self.wf(),
        ensures
            final(out)@ == old(out)@ + reaching(
                suffix_terms::parents_of(self.terms(), seq![partition] + head@),
                head@.len() as int,
            ),
    {
        let mut key: Vec<u8> = Vec::new();
        key.push(partition);
        push_bytes(&mut key, head);
        assert(key@ =~= seq![partition] + head@);
        match self.fst().get(key.as_slice()) {
            Some(parents) => {
                push_reaching(out, parents, head.len());
            },
            None => {
                proof {
                    reveal(Seq::filter);
                    assert(reaching(Seq::empty(), head@.len() as int) =~= Seq::empty());
                }
                assert(out@ =~= old(out)@ + reaching(Seq::empty(), head@.len() as int));
            },
        }
    }
}

pub proof fn lemma_reaching_has(parents: Seq<ParentEntry>, n: int, s: SplitCandidate)
    requires
        0 <= n <= usize::MAX,
    ensures
        reaching(parents, n).contains(s) <==> s.prefix_len == n && s.parent.si + n
            == s.parent.token_len && parents.contains(s.parent),
{
    let keep = ends_at(n);
    let kept = parents.filter(keep);
    let all = reaching(parents, n);
    if all.contains(s) {
        let i = choose|i: int| 0 <= i < all.len() && all[i] == s;
        parents.lemma_filter_pred(keep, i);
        assert(kept.contains(kept[i]));
        parents.lemma_filter_contains_rev(keep, kept[i]);
    }
    if s.prefix_len == n && s.parent.si + n == s.parent.token_len && parents.contains(s.parent) {
        let k = choose|k: int| 0 <= k < parents.len() && parents[k] == s.parent;
        parents.lemma_filter_contains(keep, k);
        let i = choose|i: int| 0 <= i < kept.len() && kept[i] == s.parent;
        assert(all[i] == s);
    }
}

/// Law: an exact walk gives a token at a start of the query exactly if the start
/// resolves to the token as a suffix that reaches its end.
pub proof fn splits_are_resolved_suffixes(
    terms: Seq<(Seq<u8>, Seq<ParentEntry>)>,
    query: Seq<u8>,
    n: int,
    s: SplitCandidate,
)
    requires
        0 <= n <= query.len() <= usize::MAX,
    ensures
        splits_upto(terms, query, n).contains(s) <==> {
            &&& 1 <= s.prefix_len <= n
            &&& s.parent.si + s.prefix_len == s.parent.token_len
            &&& (suffix_terms::parents_of(
                terms,
                seq![SI0_PREFIX] + query.take(s.prefix_len as int),
            ) + suffix_terms::parents_of(
                terms,
                seq![SI_REST_PREFIX] + query.take(s.prefix_len as int),
            )).contains(s.parent)
        },
    decreases n,
{
    if n > 0 {
        splits_are_resolved_suffixes(terms, query, n - 1, s);
        let a = suffix_terms::parents_of(terms, seq![SI0_PREFIX] + query.take(n));
        let b = suffix_terms::parents_of(terms, seq![SI_REST_PREFIX] + query.take(n));
        lemma_reaching_has(a, n, s);
        lemma_reaching_has(b, n, s);
        let here = splits_at(terms, query, n);
        let rest = splits_upto(terms, query, n - 1);
        lemma_either(reaching(a, n), reaching(b, n), s);
        lemma_either(here, rest, s);
        lemma_either(a, b, s.parent);
    } else {
        assert(!splits_upto(terms, query, n).contains(s));
    }
}

pub proof fn lemma_either<T>(a: Seq<T>, b: Seq<T>, x: T)
    ensures
        (a + b).contains(x) <==> a.contains(x) || b.contains(x),
{
    if a.contains(x) {
        let i = choose|i: int| 0 <= i < a.len() && a[i] == x;
        assert((a + b)[i] == x);
    }
    if b.contains(x) {
        let i = choose|i: int| 0 <= i < b.len() && b[i] == x;
        assert((a + b)[a.len() + i] == x);
    }
    if (a + b).contains(x) {
        let i = choose|i: int| 0 <= i < (a + b).len() && (a + b)[i] == x;
        if i < a.len() {
            assert(a[i] == x);
        } else {
            assert(b[i - a.len()] == x);
        }
    }
}

proof fn lemma_reaching_count(parents: Seq<ParentEntry>, n: int, s: SplitCandidate)
    requires
        0 <= n <= usize::MAX,
    ensures
        reaching(parents, n).to_multiset().count(s) == if s.prefix_len == n && s.parent.si + n
            == s.parent.token_len {
            parents.to_multiset().count(s.parent)
        } else {
            0
        },
    decreases parents.len(),
{
    broadcast use vstd::seq_lib::group_to_multiset_ensures;

    reveal(Seq::filter);
    let all = reaching(parents, n);
    if parents.len() == 0 {
        assert(all =~= Seq::empty());
        assert(parents =~= Seq::empty());
    } else {
        let rest = parents.drop_last();
        let p = parents.last();
        lemma_reaching_count(rest, n, s);
        assert(parents =~= rest.push(p));
        let c = SplitCandidate { prefix_len: n as usize, parent: p };
        if ends_at(n)(p) {
            assert(all =~= reaching(rest, n).push(c));
        } else {
            assert(all =~= reaching(rest, n));
        }
        assert(parents.to_multiset() =~= rest.to_multiset().insert(p));
    }
}

/// Law: an exact walk gives each parent of a start of the query that reaches its
/// token's end exactly one candidate, at that start.
pub proof fn each_parent_that_reaches_is_given_once(
    terms: Seq<(Seq<u8>, Seq<ParentEntry>)>,
    query: Seq<u8>,
    n: int,
    s: SplitCandidate,
)
    requires
        0 <= n <= query.len() <= usize::MAX,
    ensures
        splits_upto(terms, query, n).to_multiset().count(s) == if 1 <= s.prefix_len <= n
            && s.parent.si + s.prefix_len == s.parent.token_len {
            (suffix_terms::parents_of(
                terms,
                seq![SI0_PREFIX] + query.take(s.prefix_len as int),
            ) + suffix_terms::parents_of(
                terms,
                seq![SI_REST_PREFIX] + query.take(s.prefix_len as int),
            )).to_multiset().count(s.parent)
        } else {
            0
        },
    decreases n,
{
    broadcast use vstd::seq_lib::group_to_multiset_ensures;

    if n > 0 {
        each_parent_that_reaches_is_given_once(terms, query, n - 1, s);
        let a = suffix_terms::parents_of(terms, seq![SI0_PREFIX] + query.take(n));
        let b = suffix_terms::parents_of(terms, seq![SI_REST_PREFIX] + query.take(n));
        lemma_reaching_count(a, n, s);
        lemma_reaching_count(b, n, s);
        let rest = splits_upto(terms, query, n - 1);
        vstd::seq_lib::lemma_multiset_commutative(reaching(a, n), reaching(b, n));
        vstd::seq_lib::lemma_multiset_commutative(splits_at(terms, query, n), rest);
        vstd::seq_lib::lemma_multiset_commutative(a, b);
    } else {
        assert(splits_upto(terms, query, n) =~= Seq::empty());
    }
}

} // verus!
