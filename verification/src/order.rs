//! Sorting by a total order.

use vstd::prelude::*;
use vstd::seq_lib::*;

verus! {

/// A type with a total order.
pub trait Ordered: Sized {
    /// Whether `self` comes before `other` or is the same.
    spec fn not_after(self, other: Self) -> bool;

    proof fn order_is_total()
        ensures
            vstd::relations::total_ordering(|a: Self, b: Self| a.not_after(b)),
    ;

    /// Whether `self` comes before `other` or is the same.
    fn at_most(&self, other: &Self) -> (r: bool)
        ensures
            r == self.not_after(*other),
    ;

    /// The same item.
    fn dup(&self) -> (r: Self)
        ensures
            r == *self,
    ;
}

impl Ordered for u32 {
    open spec fn not_after(self, other: Self) -> bool {
        self <= other
    }

    proof fn order_is_total() {
    }

    fn at_most(&self, other: &Self) -> (r: bool) {
        *self <= *other
    }

    fn dup(&self) -> (r: Self) {
        *self
    }
}

impl Ordered for usize {
    open spec fn not_after(self, other: Self) -> bool {
        self <= other
    }

    proof fn order_is_total() {
    }

    fn at_most(&self, other: &Self) -> (r: bool) {
        *self <= *other
    }

    fn dup(&self) -> (r: Self) {
        *self
    }
}

impl Ordered for u64 {
    open spec fn not_after(self, other: Self) -> bool {
        self <= other
    }

    proof fn order_is_total() {
    }

    fn at_most(&self, other: &Self) -> (r: bool) {
        *self <= *other
    }

    fn dup(&self) -> (r: Self) {
        *self
    }
}

impl Ordered for (u64, u64) {
    open spec fn not_after(self, other: Self) -> bool {
        self.0 < other.0 || (self.0 == other.0 && self.1 <= other.1)
    }

    proof fn order_is_total() {
    }

    fn at_most(&self, other: &Self) -> (r: bool) {
        self.0 < other.0 || (self.0 == other.0 && self.1 <= other.1)
    }

    fn dup(&self) -> (r: Self) {
        *self
    }
}

impl Ordered for (u32, u16) {
    open spec fn not_after(self, other: Self) -> bool {
        self.0 < other.0 || (self.0 == other.0 && self.1 <= other.1)
    }

    proof fn order_is_total() {
    }

    fn at_most(&self, other: &Self) -> (r: bool) {
        self.0 < other.0 || (self.0 == other.0 && self.1 <= other.1)
    }

    fn dup(&self) -> (r: Self) {
        *self
    }
}

impl Ordered for (u32, u32, u32, u32) {
    open spec fn not_after(self, other: Self) -> bool {
        self.0 < other.0 || (self.0 == other.0 && (self.1 < other.1 || (self.1 == other.1 && (self.2
            < other.2 || (self.2 == other.2 && self.3 <= other.3)))))
    }

    proof fn order_is_total() {
    }

    fn at_most(&self, other: &Self) -> (r: bool) {
        self.0 < other.0 || (self.0 == other.0 && (self.1 < other.1 || (self.1 == other.1 && (self.2
            < other.2 || (self.2 == other.2 && self.3 <= other.3)))))
    }

    fn dup(&self) -> (r: Self) {
        *self
    }
}

impl Ordered for (u32, u64) {
    open spec fn not_after(self, other: Self) -> bool {
        self.0 < other.0 || (self.0 == other.0 && self.1 <= other.1)
    }

    proof fn order_is_total() {
    }

    fn at_most(&self, other: &Self) -> (r: bool) {
        self.0 < other.0 || (self.0 == other.0 && self.1 <= other.1)
    }

    fn dup(&self) -> (r: Self) {
        *self
    }
}

impl Ordered for (u32, u32) {
    open spec fn not_after(self, other: Self) -> bool {
        self.0 < other.0 || (self.0 == other.0 && self.1 <= other.1)
    }

    proof fn order_is_total() {
    }

    fn at_most(&self, other: &Self) -> (r: bool) {
        self.0 < other.0 || (self.0 == other.0 && self.1 <= other.1)
    }

    fn dup(&self) -> (r: Self) {
        *self
    }
}

impl Ordered for (u32, u32, u16) {
    open spec fn not_after(self, other: Self) -> bool {
        self.0 < other.0 || (self.0 == other.0 && (self.1 < other.1 || (self.1 == other.1 && self.2
            <= other.2)))
    }

    proof fn order_is_total() {
    }

    fn at_most(&self, other: &Self) -> (r: bool) {
        self.0 < other.0 || (self.0 == other.0 && (self.1 < other.1 || (self.1 == other.1 && self.2
            <= other.2)))
    }

    fn dup(&self) -> (r: Self) {
        *self
    }
}

/// The order as a relation.
pub open spec fn leq<T: Ordered>() -> spec_fn(T, T) -> bool {
    |a: T, b: T| a.not_after(b)
}

/// The same items, each at most the one after it.
pub open spec fn sorted<T: Ordered>(s: Seq<T>) -> Seq<T> {
    s.sort_by(leq::<T>())
}

/// Each item is at most those after it.
pub open spec fn is_sorted<T: Ordered>(s: Seq<T>) -> bool {
    forall|i: int, j: int| 0 <= i < j < s.len() ==> (#[trigger] s[i]).not_after(#[trigger] s[j])
}

/// Sorting keeps the items and puts them in order.
pub proof fn lemma_sorted<T: Ordered>(s: Seq<T>)
    ensures
        is_sorted(sorted(s)),
        sorted(s).to_multiset() == s.to_multiset(),
        sorted(s).len() == s.len(),
{
    T::order_is_total();
    assert(leq::<T>() =~= (|a: T, b: T| a.not_after(b)));
    s.lemma_sort_by_ensures(leq::<T>());
    s.to_multiset_ensures();
    sorted(s).to_multiset_ensures();
    assert forall|i: int, j: int| 0 <= i < j < sorted(s).len() implies (#[trigger] sorted(
        s,
    )[i]).not_after(#[trigger] sorted(s)[j]) by {
        assert(leq::<T>()(sorted(s)[i], sorted(s)[j]));
    }
}

/// Sorting keeps which items there are, and leaves distinct items distinct.
pub proof fn lemma_sorted_items<T: Ordered>(s: Seq<T>)
    ensures
        forall|x: T| #[trigger] sorted(s).contains(x) <==> s.contains(x),
        s.no_duplicates() ==> sorted(s).no_duplicates(),
{
    lemma_sorted(s);
    s.to_multiset_ensures();
    sorted(s).to_multiset_ensures();
    assert forall|x: T| #[trigger] sorted(s).contains(x) <==> s.contains(x) by {
        assert(s.to_multiset().count(x) == sorted(s).to_multiset().count(x));
    }
    if s.no_duplicates() {
        s.lemma_multiset_has_no_duplicates();
        sorted(s).lemma_multiset_has_no_duplicates_conv();
    }
}

/// There is only one way to put the same items in order.
pub proof fn lemma_sorted_is<T: Ordered>(s: Seq<T>, r: Seq<T>)
    requires
        is_sorted(r),
        r.to_multiset() == s.to_multiset(),
    ensures
        r == sorted(s),
{
    T::order_is_total();
    assert(leq::<T>() =~= (|a: T, b: T| a.not_after(b)));
    s.lemma_sort_by_ensures(leq::<T>());
    assert forall|i: int, j: int| 0 <= i < j < r.len() implies #[trigger] leq::<T>()(r[i], r[j]) by {
        assert(r[i].not_after(r[j]));
    }
    lemma_sorted_unique(r, sorted(s), leq::<T>());
}

fn merge<T: Ordered>(a: &Vec<T>, b: &Vec<T>) -> (out: Vec<T>)
    requires
        is_sorted(a@),
        is_sorted(b@),
    ensures
        is_sorted(out@),
        out@.to_multiset() == a@.to_multiset().add(b@.to_multiset()),
{
    broadcast use group_to_multiset_ensures;

    proof {
        T::order_is_total();
        assert(leq::<T>() =~= (|a: T, b: T| a.not_after(b)));
    }
    let mut out: Vec<T> = Vec::new();
    let mut i: usize = 0;
    let mut j: usize = 0;
    proof {
        assert(a@.take(0) =~= Seq::<T>::empty());
        assert(b@.take(0) =~= Seq::<T>::empty());
        assert(out@.to_multiset() =~= a@.take(0).to_multiset().add(b@.take(0).to_multiset()));
    }
    while i < a.len() || j < b.len()
        invariant
            vstd::relations::total_ordering(leq::<T>()),
            is_sorted(a@),
            is_sorted(b@),
            i <= a@.len(),
            j <= b@.len(),
            is_sorted(out@),
            out@.to_multiset() == a@.take(i as int).to_multiset().add(
                b@.take(j as int).to_multiset(),
            ),
            forall|k: int, l: int|
                0 <= k < out@.len() && i <= l < a@.len() ==> (#[trigger] out@[k]).not_after(
                    #[trigger] a@[l],
                ),
            forall|k: int, l: int|
                0 <= k < out@.len() && j <= l < b@.len() ==> (#[trigger] out@[k]).not_after(
                    #[trigger] b@[l],
                ),
        decreases a@.len() - i + b@.len() - j,
    {
        let ghost before = out@;
        let take_a: bool = if i >= a.len() {
            false
        } else if j >= b.len() {
            true
        } else {
            a[i].at_most(&b[j])
        };
        if take_a {
            let x = a[i].dup();
            out.push(x);
            proof {
                before.to_multiset_ensures();
                a@.take(i as int).to_multiset_ensures();
                assert(a@.take(i + 1) =~= a@.take(i as int).push(x));
                assert(out@.to_multiset() =~= before.to_multiset().insert(x));
                assert(a@.take(i + 1).to_multiset() =~= a@.take(i as int).to_multiset().insert(x));
                assert(out@.to_multiset() =~= a@.take(i + 1).to_multiset().add(
                    b@.take(j as int).to_multiset(),
                ));
                assert forall|l: int| j <= l < b@.len() implies x.not_after(#[trigger] b@[l]) by {
                    assert(leq::<T>()(x, b@[j as int]));
                    if l > j {
                        assert(b@[j as int].not_after(b@[l]));
                        assert(leq::<T>()(b@[j as int], b@[l]));
                    }
                    assert(leq::<T>()(x, b@[l]));
                }
            }
            i += 1;
        } else {
            let x = b[j].dup();
            out.push(x);
            proof {
                before.to_multiset_ensures();
                b@.take(j as int).to_multiset_ensures();
                assert(b@.take(j + 1) =~= b@.take(j as int).push(x));
                assert(out@.to_multiset() =~= before.to_multiset().insert(x));
                assert(b@.take(j + 1).to_multiset() =~= b@.take(j as int).to_multiset().insert(x));
                assert(out@.to_multiset() =~= a@.take(i as int).to_multiset().add(
                    b@.take(j + 1).to_multiset(),
                ));
                assert forall|l: int| i <= l < a@.len() implies x.not_after(#[trigger] a@[l]) by {
                    assert(leq::<T>()(x, a@[i as int]) || leq::<T>()(a@[i as int], x));
                    if l > i {
                        assert(a@[i as int].not_after(a@[l]));
                        assert(leq::<T>()(a@[i as int], a@[l]));
                    }
                    assert(leq::<T>()(x, a@[l]));
                }
            }
            j += 1;
        }
    }
    proof {
        assert(a@.take(i as int) =~= a@);
        assert(b@.take(j as int) =~= b@);
    }
    out
}

/// The items in order.
pub fn sort<T: Ordered>(items: &Vec<T>) -> (out: Vec<T>)
    ensures
        out@ == sorted(items@),
    decreases items@.len(),
{
    let n: usize = items.len();
    if n <= 1 {
        let mut out: Vec<T> = Vec::new();
        if n == 1 {
            out.push(items[0].dup());
        }
        proof {
            assert(out@ =~= items@);
            lemma_sorted_is(items@, out@);
        }
        return out;
    }
    let half: usize = n / 2;
    let mut left: Vec<T> = Vec::new();
    let mut right: Vec<T> = Vec::new();
    let mut i: usize = 0;
    while i < n
        invariant
            n == items@.len(),
            half == n / 2,
            i <= n,
            left@ =~= items@.take(if i < half {
                i as int
            } else {
                half as int
            }),
            i <= half ==> right@.len() == 0,
            i > half ==> right@ =~= items@.subrange(half as int, i as int),
        decreases n - i,
    {
        if i < half {
            left.push(items[i].dup());
        } else {
            right.push(items[i].dup());
        }
        i += 1;
    }
    let a = sort(&left);
    let b = sort(&right);
    proof {
        lemma_sorted(left@);
        lemma_sorted(right@);
    }
    let out = merge(&a, &b);
    proof {
        assert(items@ =~= left@ + right@);
        lemma_multiset_commutative(left@, right@);
        lemma_sorted_is(items@, out@);
    }
    out
}

/// The items, a run of the same item only once.
pub open spec fn dedup<T>(s: Seq<T>) -> Seq<T>
    decreases s.len(),
{
    if s.len() <= 1 {
        s
    } else if s[s.len() - 2] == s.last() {
        dedup(s.drop_last())
    } else {
        dedup(s.drop_last()).push(s.last())
    }
}

/// Taking repeated items of an ordered sequence out leaves every item, in
/// order, once.
pub proof fn lemma_dedup<T: Ordered>(s: Seq<T>)
    requires
        is_sorted(s),
    ensures
        is_sorted(dedup(s)),
        dedup(s).no_duplicates(),
        dedup(s).len() <= s.len(),
        s.len() > 0 ==> dedup(s).len() > 0 && dedup(s).last() == s.last(),
        forall|x: T| #[trigger] dedup(s).contains(x) <==> s.contains(x),
    decreases s.len(),
{
    T::order_is_total();
    assert(leq::<T>() =~= (|a: T, b: T| a.not_after(b)));
    if s.len() > 1 {
        let d = s.drop_last();
        let x = s.last();
        assert forall|i: int, j: int| 0 <= i < j < d.len() implies (#[trigger] d[i]).not_after(
            #[trigger] d[j],
        ) by {
            assert(s[i].not_after(s[j]));
        }
        lemma_dedup(d);
        assert(d.last() == s[s.len() - 2]);
        assert forall|y: T| #[trigger] s.contains(y) <==> d.contains(y) || y == x by {
            if s.contains(y) {
                let k = choose|k: int| 0 <= k < s.len() && s[k] == y;
                if k < d.len() {
                    assert(d[k] == y);
                }
            }
            if d.contains(y) {
                let k = choose|k: int| 0 <= k < d.len() && d[k] == y;
                assert(s[k] == y);
            }
            if y == x {
                assert(s[s.len() - 1] == y);
            }
        }
        if d.last() == x {
            assert(d[d.len() - 1] == x);
        } else {
            let e = dedup(d);
            let r = e.push(x);
            assert forall|i: int| 0 <= i < e.len() implies #[trigger] e[i].not_after(x) && e[i] != x by {
                assert(e.contains(e[i]));
                let k = choose|k: int| 0 <= k < d.len() && d[k] == e[i];
                assert(s[k].not_after(s[s.len() - 1]));
                if e[i] == x {
                    assert(leq::<T>()(d.last(), x));
                    if k < d.len() - 1 {
                        assert(s[k].not_after(s[s.len() - 2]));
                        assert(leq::<T>()(x, d.last()));
                    }
                    assert(s[s.len() - 2].not_after(s[s.len() - 1]));
                    assert(d.last() == x);
                }
            }
            assert forall|y: T| #[trigger] r.contains(y) <==> e.contains(y) || y == x by {
                if r.contains(y) {
                    let k = choose|k: int| 0 <= k < r.len() && r[k] == y;
                    if k < e.len() {
                        assert(e[k] == y);
                    }
                }
                if e.contains(y) {
                    let k = choose|k: int| 0 <= k < e.len() && e[k] == y;
                    assert(r[k] == y);
                }
                if y == x {
                    assert(r[r.len() - 1] == y);
                }
            }
        }
    } else if s.len() == 1 {
        assert(dedup(s) == s);
    }
}

/// A selection from distinct items has distinct items.
pub proof fn lemma_filter_distinct<T>(s: Seq<T>, keep: spec_fn(T) -> bool)
    requires
        s.no_duplicates(),
    ensures
        s.filter(keep).no_duplicates(),
    decreases s.len(),
{
    reveal(Seq::filter);
    if s.len() > 0 {
        let d = s.drop_last();
        lemma_filter_distinct(d, keep);
        let kept = d.filter(keep);
        assert forall|i: int| 0 <= i < kept.len() implies kept[i] != s.last() by {
            d.lemma_filter_contains_rev(keep, kept[i]);
            let k = choose|k: int| 0 <= k < d.len() && d[k] == kept[i];
            assert(s[k] != s[s.len() - 1]);
        }
    }
}

/// The items, a run of the same item only once.
pub fn without_repeats<T: Ordered>(items: &Vec<T>) -> (out: Vec<T>)
    ensures
        out@ == dedup(items@),
{
    proof {
        T::order_is_total();
        assert(leq::<T>() =~= (|a: T, b: T| a.not_after(b)));
    }
    let mut out: Vec<T> = Vec::new();
    let mut i: usize = 0;
    assert(items@.take(0) =~= Seq::<T>::empty());
    while i < items.len()
        invariant
            i <= items@.len(),
            vstd::relations::total_ordering(leq::<T>()),
            out@ == dedup(items@.take(i as int)),
        decreases items@.len() - i,
    {
        let ghost t = items@.take(i + 1);
        assert(t.drop_last() =~= items@.take(i as int));
        assert(t.last() == items@[i as int]);
        if i == 0 {
            let x = items[i].dup();
            out.push(x);
            assert(out@ =~= t);
        } else {
            assert(t[t.len() - 2] == items@[i - 1]);
            let again: bool = items[i - 1].at_most(&items[i]) && items[i].at_most(&items[i - 1]);
            proof {
                let a = items@[i - 1];
                let b = items@[i as int];
                assert(leq::<T>()(a, b) == a.not_after(b));
                assert(leq::<T>()(b, a) == b.not_after(a));
                assert(leq::<T>()(a, a));
                assert(again <==> a == b);
            }
            if !again {
                let x = items[i].dup();
                out.push(x);
            }
        }
        i += 1;
    }
    assert(items@.take(i as int) =~= items@);
    out
}

/// There is only one sequence in order with the same items, each once.
pub proof fn lemma_distinct_is<T: Ordered>(a: Seq<T>, b: Seq<T>)
    requires
        is_sorted(a),
        is_sorted(b),
        a.no_duplicates(),
        b.no_duplicates(),
        forall|x: T| #[trigger] a.contains(x) <==> b.contains(x),
    ensures
        a == b,
{
    broadcast use group_to_multiset_ensures;

    a.lemma_multiset_has_no_duplicates();
    b.lemma_multiset_has_no_duplicates();
    assert forall|x: T| #[trigger] a.to_multiset().count(x) == b.to_multiset().count(x) by {
        assert(a.contains(x) <==> b.contains(x));
        assert(a.contains(x) <==> a.to_multiset().count(x) > 0);
        assert(b.contains(x) <==> b.to_multiset().count(x) > 0);
        if a.contains(x) {
            assert(a.to_multiset().contains(x));
            assert(b.to_multiset().contains(x));
        }
    }
    assert(a.to_multiset() =~= b.to_multiset());
    lemma_sorted_is(a, a);
    lemma_sorted_is(a, b);
}

} // verus!
