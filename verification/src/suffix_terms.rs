//! The terms of a suffix FST: their keys in ascending order, each with the
//! tokens the suffix belongs to.

use vstd::prelude::*;
use vstd::utf8::*;

use crate::bytes::{part, push_bytes, same_bytes};
use crate::text_order;
use crate::text_order::{Placed, place};

verus! {

/// Whether the keys ascend, none of them empty.
pub open spec fn ascending<P>(terms: Seq<(Seq<u8>, Seq<P>)>) -> bool {
    &&& forall|i: int| 0 <= i < terms.len() ==> (#[trigger] terms[i]).0.len() > 0
    &&& forall|i: int, j: int|
        0 <= i < j < terms.len() ==> text_order::lex_lt((#[trigger] terms[i]).0, (#[trigger] terms[j]).0)
}

/// The parents of the first term from `i` on with this key.
pub open spec fn under<P>(terms: Seq<(Seq<u8>, Seq<P>)>, key: Seq<u8>, i: int) -> Option<Seq<P>>
    decreases terms.len() - i,
{
    if i >= terms.len() {
        None
    } else if terms[i].0 == key {
        Some(terms[i].1)
    } else {
        under(terms, key, i + 1)
    }
}

/// The parents of a key, none if it is no term.
pub open spec fn parents_of<P>(terms: Seq<(Seq<u8>, Seq<P>)>, key: Seq<u8>) -> Seq<P> {
    match under(terms, key, 0) {
        Some(p) => p,
        None => Seq::empty(),
    }
}

proof fn lemma_under<P>(terms: Seq<(Seq<u8>, Seq<P>)>, key: Seq<u8>, i: int, k: int)
    requires
        0 <= i <= k <= terms.len(),
        forall|j: int| i <= j < k ==> (#[trigger] terms[j]).0 != key,
    ensures
        under(terms, key, i) == under(terms, key, k),
    decreases k - i,
{
    if i < k {
        assert(terms[i].0 != key);
        lemma_under(terms, key, i + 1, k);
    }
}

/// The least key above all that start with `prefix`, if there is one.
pub open spec fn next_prefix(prefix: Seq<u8>) -> Option<Seq<u8>>
    decreases prefix.len(),
{
    if prefix.len() == 0 {
        None
    } else if prefix.last() < 0xff {
        Some(prefix.drop_last().push((prefix.last() + 1) as u8))
    } else {
        next_prefix(prefix.drop_last())
    }
}

proof fn lemma_next_front(prefix: Seq<u8>)
    requires
        prefix.len() > 0,
    ensures
        next_prefix(prefix) == (match next_prefix(prefix.drop_first()) {
            Some(u) => Some(seq![prefix[0]] + u),
            None => if prefix[0] < 0xff {
                Some(seq![(prefix[0] + 1) as u8])
            } else {
                None
            },
        }),
    decreases prefix.len(),
{
    let rest = prefix.drop_first();
    if prefix.len() == 1 {
        assert(rest =~= Seq::<u8>::empty());
        assert(prefix.drop_last() =~= Seq::<u8>::empty());
        if prefix[0] < 0xff {
            assert(prefix.drop_last().push((prefix.last() + 1) as u8) =~= seq![(prefix[0] + 1) as u8]);
        }
    } else {
        assert(rest.last() == prefix.last());
        assert(rest.drop_last() =~= prefix.drop_last().drop_first());
        if prefix.last() < 0xff {
            let n = (prefix.last() + 1) as u8;
            assert(prefix.drop_last().push(n) =~= seq![prefix[0]] + rest.drop_last().push(n));
        } else {
            lemma_next_front(prefix.drop_last());
            assert(prefix.drop_last()[0] == prefix[0]);
        }
    }
}

/// The keys that start with a prefix are those from the prefix up to the least
/// key above them.
pub proof fn prefixed_keys_are_a_range(prefix: Seq<u8>, key: Seq<u8>)
    ensures
        prefix.is_prefix_of(key) <==> !text_order::lex_lt(key, prefix) && (match next_prefix(prefix) {
            Some(u) => text_order::lex_lt(key, u),
            None => true,
        }),
    decreases prefix.len(),
{
    if prefix.len() == 0 {
        assert(key.subrange(0, 0) =~= prefix);
    } else {
        lemma_next_front(prefix);
        let rest = prefix.drop_first();
        if key.len() > 0 {
            let krest = key.drop_first();
            prefixed_keys_are_a_range(rest, krest);
            if key[0] == prefix[0] {
                if prefix.is_prefix_of(key) {
                    assert(krest.subrange(0, rest.len() as int) =~= key.subrange(
                        0,
                        prefix.len() as int,
                    ).drop_first());
                    assert(rest.is_prefix_of(krest));
                }
                if rest.is_prefix_of(krest) {
                    assert(key.subrange(0, prefix.len() as int) =~= seq![key[0]] + krest.subrange(
                        0,
                        rest.len() as int,
                    ));
                    assert(prefix =~= seq![prefix[0]] + rest);
                }
            } else {
                if prefix.is_prefix_of(key) {
                    assert(key.subrange(0, prefix.len() as int)[0] == key[0]);
                }
            }
            match next_prefix(rest) {
                Some(u) => {
                    assert((seq![prefix[0]] + u).drop_first() =~= u);
                },
                None => {
                    if prefix[0] < 0xff {
                        let u = seq![(prefix[0] + 1) as u8];
                        assert(u.drop_first() =~= Seq::<u8>::empty());
                        assert(u[0] == prefix[0] + 1);
                        assert(!text_order::lex_lt(krest, u.drop_first()));
                        assert(text_order::lex_lt(key, u) <==> key[0] <= prefix[0]);
                    }
                },
            }
            assert(text_order::lex_lt(key, prefix) <==> key[0] < prefix[0] || (key[0] == prefix[0]
                && text_order::lex_lt(krest, rest)));
        }
    }
}

/// The least key above all that start with `prefix`: its last byte raised by
/// one, bytes that cannot be raised dropped.
pub fn increment_prefix(prefix: &[u8]) -> (r: Option<Vec<u8>>)
    ensures
        r is Some <==> next_prefix(prefix@) is Some,
        r matches Some(u) ==> next_prefix(prefix@) == Some(u@),
{
    let mut n: usize = prefix.len();
    proof {
        assert(prefix@.take(n as int) =~= prefix@);
    }
    while n > 0
        invariant
            n <= prefix@.len(),
            next_prefix(prefix@) == next_prefix(prefix@.take(n as int)),
        decreases n,
    {
        let b: u8 = prefix[n - 1];
        assert(prefix@.take(n as int).last() == b);
        assert(prefix@.take(n as int).drop_last() =~= prefix@.take(n - 1));
        if b < 0xff {
            let mut upper: Vec<u8> = Vec::new();
            push_bytes(&mut upper, part(prefix, 0, n - 1));
            upper.push(b + 1);
            assert(upper@ =~= prefix@.take(n - 1).push((b + 1) as u8));
            return Some(upper);
        }
        n -= 1;
    }
    None
}

/// A filter by where the keys start.
pub open spec fn starts_with<P>(prefix: Seq<u8>) -> spec_fn((Seq<u8>, Seq<P>)) -> bool {
    |t: (Seq<u8>, Seq<P>)| prefix.is_prefix_of(t.0)
}

/// The terms whose keys start with `prefix`.
pub open spec fn starting<P>(terms: Seq<(Seq<u8>, Seq<P>)>, prefix: Seq<u8>) -> Seq<
    (Seq<u8>, Seq<P>),
> {
    terms.filter(starts_with(prefix))
}

/// What is filtered out of a run is the run, where its ends are those of the
/// condition.
pub proof fn lemma_filter_run<T>(s: Seq<T>, keep: spec_fn(T) -> bool, from: int, to: int)
    requires
        0 <= from <= to <= s.len(),
        forall|i: int| 0 <= i < s.len() ==> (keep(#[trigger] s[i]) <==> from <= i < to),
    ensures
        s.filter(keep) == s.subrange(from, to),
    decreases s.len(),
{
    reveal(Seq::filter);
    if s.len() > 0 {
        let h = s.drop_last();
        assert forall|i: int| 0 <= i < h.len() implies (keep(#[trigger] h[i]) <==> from <= i < to) by {
            assert(h[i] == s[i]);
        }
        let last = s.len() - 1;
        assert(keep(s[last]) <==> from <= last < to);
        if to == s.len() {
            if from < to {
                assert forall|i: int| 0 <= i < h.len() implies (keep(#[trigger] h[i]) <==> from <= i
                    < to - 1) by {}
                lemma_filter_run(h, keep, from, to - 1);
                assert(s.subrange(from, to) =~= h.subrange(from, to - 1).push(s[last]));
            } else {
                assert forall|i: int| 0 <= i < h.len() implies (keep(#[trigger] h[i]) <==> from - 1 <= i
                    < to - 1) by {}
                lemma_filter_run(h, keep, from - 1, to - 1);
                assert(s.subrange(from, to) =~= h.subrange(from - 1, to - 1));
            }
        } else {
            lemma_filter_run(h, keep, from, to);
            assert(s.subrange(from, to) =~= h.subrange(from, to));
        }
    } else {
        assert(s.subrange(from, to) =~= s);
        assert(s.filter(keep) =~= s);
    }
}

/// The terms of a suffix FST, by their keys.
pub struct SuffixTerms<P> {
    keys: Vec<Vec<u8>>,
    parents: Vec<Vec<P>>,
}

impl<P> View for SuffixTerms<P> {
    type V = Seq<(Seq<u8>, Seq<P>)>;

    closed spec fn view(&self) -> Seq<(Seq<u8>, Seq<P>)> {
        Seq::new(self.keys@.len(), |i: int| (self.keys@[i]@, self.parents@[i]@))
    }
}

/// The terms of a list of keys and parents.
pub open spec fn terms_in<P>(list: Seq<(Vec<u8>, Vec<P>)>) -> Seq<(Seq<u8>, Seq<P>)> {
    Seq::new(list.len(), |i: int| (list[i].0@, list[i].1@))
}

impl<P> SuffixTerms<P> {
    /// The keys ascend, and there are parents for each.
    pub closed spec fn wf(&self) -> bool {
        &&& self.keys@.len() == self.parents@.len()
        &&& ascending(self@)
    }

    /// What the invariant says of the terms.
    pub proof fn lemma_ascending(&self)
        requires
            self.wf(),
        ensures
            ascending(self@),
            self@.len() <= usize::MAX,
    {
        assert(self.keys@.len() == self.keys.len());
    }

    /// No terms.
    pub fn empty() -> (r: Self)
        ensures
            r.wf(),
            r@ == Seq::<(Seq<u8>, Seq<P>)>::empty(),
    {
        let r = SuffixTerms { keys: Vec::new(), parents: Vec::new() };
        assert(r@ =~= Seq::<(Seq<u8>, Seq<P>)>::empty());
        r
    }

    /// The terms as an FST streams them, if their keys ascend.
    pub fn new(terms: Vec<(Vec<u8>, Vec<P>)>) -> (r: Option<Self>)
        ensures
            r is Some <==> ascending(terms_in(terms@)),
            r matches Some(t) ==> t.wf() && t@ == terms_in(terms@),
    {
        let ghost all = terms_in(terms@);
        let mut list = terms;
        let mut keys: Vec<Vec<u8>> = Vec::new();
        let mut parents: Vec<Vec<P>> = Vec::new();
        let n: usize = list.len();
        let mut i: usize = 0;
        // The list is taken from its end, so the two halves come out reversed.
        while i < n
            invariant
                i <= n,
                all == terms_in(terms@),
                n == all.len(),
                n == list@.len() + i,
                keys@.len() == i,
                parents@.len() == i,
                forall|k: int| 0 <= k < n - i ==> (#[trigger] list@[k]).0@ == all[k].0 && list@[k].1@ == all[k].1,
                forall|k: int| 0 <= k < i ==> (#[trigger] keys@[k])@ == all[n - 1 - k].0,
                forall|k: int| 0 <= k < i ==> (#[trigger] parents@[k])@ == all[n - 1 - k].1,
                forall|k: int| n - i <= k < n ==> (#[trigger] all[k]).0.len() > 0,
                forall|k: int, j: int|
                    n - i <= k < j < n ==> text_order::lex_lt((#[trigger] all[k]).0, (#[trigger] all[j]).0),
            decreases n - i,
        {
            assert(list@[n - 1 - i].0@ == all[n - 1 - i].0);
            let (key, p) = list.pop().unwrap();
            assert(key@ == all[n - 1 - i].0);
            if key.len() == 0 {
                assert(all[n - 1 - i].0.len() == 0);
                return None;
            }
            if i > 0 {
                match place(key.as_slice(), keys[i - 1].as_slice()) {
                    Placed::Before => {},
                    _ => {
                        assert(keys@[i - 1]@ == all[n - i as int].0);
                        proof {
                            text_order::lemma_lex_irreflexive(key@);
                        }
                        assert(!text_order::lex_lt(all[n - 1 - i].0, all[n - i as int].0));
                        return None;
                    },
                }
            }
            proof {
                assert forall|j: int| n - 1 - i < j < n implies text_order::lex_lt(all[n - 1 - i].0, (#[trigger] all[j]).0) by {
                    assert(keys@[i - 1]@ == all[n - i as int].0);
                    if j > n - i {
                        text_order::lemma_lex_transitive(all[n - 1 - i].0, all[n - i as int].0, all[j].0);
                    }
                }
            }
            keys.push(key);
            parents.push(p);
            i += 1;
        }
        let mut ks: Vec<Vec<u8>> = Vec::new();
        let mut ps: Vec<Vec<P>> = Vec::new();
        let mut m: usize = 0;
        while m < n
            invariant
                m <= n,
                n == all.len(),
                keys@.len() == n - m,
                parents@.len() == n - m,
                ks@.len() == m,
                ps@.len() == m,
                forall|k: int| 0 <= k < n - m ==> (#[trigger] keys@[k])@ == all[n - 1 - k].0,
                forall|k: int| 0 <= k < n - m ==> (#[trigger] parents@[k])@ == all[n - 1 - k].1,
                forall|k: int| 0 <= k < m ==> (#[trigger] ks@[k])@ == all[k].0,
                forall|k: int| 0 <= k < m ==> (#[trigger] ps@[k])@ == all[k].1,
            decreases n - m,
        {
            assert(keys@[n - m - 1]@ == all[m as int].0);
            assert(parents@[n - m - 1]@ == all[m as int].1);
            ks.push(keys.pop().unwrap());
            ps.push(parents.pop().unwrap());
            m += 1;
        }
        let r = SuffixTerms { keys: ks, parents: ps };
        assert(r@ =~= all);
        Some(r)
    }

    /// Number of terms.
    pub fn len(&self) -> (n: usize)
        requires
            self.wf(),
        ensures
            n == self@.len(),
    {
        self.keys.len()
    }

    /// The key of term `i`.
    pub fn key(&self, i: usize) -> (r: &[u8])
        requires
            self.wf(),
            i < self@.len(),
        ensures
            r@ == self@[i as int].0,
    {
        self.keys[i].as_slice()
    }

    /// The parents of term `i`.
    pub fn parents(&self, i: usize) -> (r: &Vec<P>)
        requires
            self.wf(),
            i < self@.len(),
        ensures
            r@ == self@[i as int].1,
    {
        &self.parents[i]
    }

    /// How many keys come before `key`.
    pub fn first_from(&self, key: &[u8]) -> (r: usize)
        requires
            self.wf(),
        ensures
            r <= self@.len(),
            forall|i: int| 0 <= i < r ==> text_order::lex_lt((#[trigger] self@[i]).0, key@),
            forall|i: int| r <= i < self@.len() ==> !text_order::lex_lt((#[trigger] self@[i]).0, key@),
    {
        let ghost all = self@;
        let mut lo: usize = 0;
        let mut hi: usize = self.keys.len();
        while lo < hi
            invariant
                lo <= hi <= all.len(),
                all == self@,
                self.wf(),
                forall|i: int| 0 <= i < lo ==> text_order::lex_lt((#[trigger] all[i]).0, key@),
                forall|i: int| hi <= i < all.len() ==> !text_order::lex_lt((#[trigger] all[i]).0, key@),
            decreases hi - lo,
        {
            let mid: usize = lo + (hi - lo) / 2;
            let placed = place(self.key(mid), key);
            proof {
                text_order::lemma_lex_irreflexive(key@);
                assert forall|i: int| 0 <= i < mid && text_order::lex_lt(all[mid as int].0, key@) implies text_order::lex_lt(
                    (#[trigger] all[i]).0,
                    key@,
                ) by {
                    text_order::lemma_lex_transitive(all[i].0, all[mid as int].0, key@);
                }
                assert forall|i: int|
                    mid < i < all.len() && !text_order::lex_lt(all[mid as int].0, key@) implies !text_order::lex_lt(
                    (#[trigger] all[i]).0,
                    key@,
                ) by {
                    if text_order::lex_lt(all[i].0, key@) {
                        text_order::lemma_lex_transitive(all[mid as int].0, all[i].0, key@);
                    }
                }
            }
            match placed {
                Placed::Before => {
                    lo = mid + 1;
                },
                _ => {
                    hi = mid;
                },
            }
        }
        lo
    }

    /// The parents of a key, if it is a term.
    pub fn get(&self, key: &[u8]) -> (r: Option<&Vec<P>>)
        requires
            self.wf(),
        ensures
            r is Some <==> under(self@, key@, 0) is Some,
            r matches Some(p) ==> under(self@, key@, 0) == Some(p@),
    {
        let at: usize = self.first_from(key);
        let ghost all = self@;
        proof {
            text_order::lemma_lex_irreflexive(key@);
            assert forall|j: int| 0 <= j < at implies (#[trigger] all[j]).0 != key@ by {}
            lemma_under(all, key@, 0, at as int);
        }
        if at < self.keys.len() && same_bytes(self.key(at), key) {
            return Some(self.parents(at));
        }
        proof {
            assert forall|j: int| at <= j < all.len() implies (#[trigger] all[j]).0 != key@ by {
                if j > at && all[j].0 == key@ {
                    assert(text_order::lex_lt(all[at as int].0, all[j].0));
                }
            }
            lemma_under(all, key@, at as int, all.len() as int);
        }
        None
    }

    /// The terms whose keys start with `prefix`: from the first position up to
    /// the second.
    pub fn prefix_range(&self, prefix: &[u8]) -> (r: (usize, usize))
        requires
            self.wf(),
        ensures
            r.0 <= r.1 <= self@.len(),
            self@.subrange(r.0 as int, r.1 as int) == starting(self@, prefix@),
    {
        let ghost all = self@;
        let from: usize = self.first_from(prefix);
        let mut to: usize = self.keys.len();
        match increment_prefix(prefix) {
            Some(upper) => {
                to = self.first_from(upper.as_slice());
            },
            None => {},
        }
        proof {
            assert forall|i: int| 0 <= i < all.len() implies (starts_with(prefix@)(
                #[trigger] all[i],
            ) <==> from <= i < to) by {
                prefixed_keys_are_a_range(prefix@, all[i].0);
            }
            if to < from {
                assert(all[to as int].0.len() > 0);
                prefixed_keys_are_a_range(prefix@, prefix@);
                assert(prefix@.subrange(0, prefix@.len() as int) =~= prefix@);
                text_order::lemma_lex_irreflexive(prefix@);
                let u = next_prefix(prefix@).unwrap();
                text_order::lemma_lex_transitive(all[to as int].0, prefix@, u);
            }
            lemma_filter_run(all, starts_with(prefix@), from as int, to as int);
        }
        (from, to)
    }
}

} // verus!
