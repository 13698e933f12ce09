//! The order of texts, and sorting by it.

use vstd::prelude::*;
use vstd::seq_lib::*;

verus! {

/// Whether `a` comes before `b`, byte by byte; a text comes before those it
/// starts.
pub open spec fn lex_lt(a: Seq<u8>, b: Seq<u8>) -> bool
    decreases a.len(),
{
    if b.len() == 0 {
        false
    } else if a.len() == 0 {
        true
    } else {
        a[0] < b[0] || (a[0] == b[0] && lex_lt(a.drop_first(), b.drop_first()))
    }
}

pub proof fn lemma_lex_irreflexive(a: Seq<u8>)
    ensures
        !lex_lt(a, a),
    decreases a.len(),
{
    if a.len() > 0 {
        lemma_lex_irreflexive(a.drop_first());
    }
}

pub proof fn lemma_lex_transitive(a: Seq<u8>, b: Seq<u8>, c: Seq<u8>)
    requires
        lex_lt(a, b),
        lex_lt(b, c),
    ensures
        lex_lt(a, c),
    decreases a.len(),
{
    if a.len() > 0 && b.len() > 0 && c.len() > 0 && a[0] == b[0] && b[0] == c[0] {
        lemma_lex_transitive(a.drop_first(), b.drop_first(), c.drop_first());
    }
}

pub proof fn lemma_lex_total(a: Seq<u8>, b: Seq<u8>)
    ensures
        lex_lt(a, b) || lex_lt(b, a) || a == b,
    decreases a.len(),
{
    if a.len() > 0 && b.len() > 0 {
        if a[0] == b[0] {
            lemma_lex_total(a.drop_first(), b.drop_first());
            if a.drop_first() == b.drop_first() {
                assert(a =~= seq![a[0]] + a.drop_first());
                assert(b =~= seq![b[0]] + b.drop_first());
            }
        }
    } else if a.len() == 0 && b.len() == 0 {
        assert(a =~= b);
    }
}

/// How two texts compare.
#[derive(Debug, Clone, Copy, PartialEq, Eq, Structural)]
pub enum Placed {
    /// The first comes before the second.
    Before,
    /// They are the same.
    Same,
    /// The first comes after the second.
    After,
}

/// How two texts compare.
pub open spec fn placed(a: Seq<u8>, b: Seq<u8>) -> Placed {
    if a == b {
        Placed::Same
    } else if lex_lt(a, b) {
        Placed::Before
    } else {
        Placed::After
    }
}

/// How two texts compare.
pub fn place(a: &[u8], b: &[u8]) -> (r: Placed)
    ensures
        r == placed(a@, b@),
{
    let mut i: usize = 0;
    proof {
        assert(a@.skip(0) =~= a@);
        assert(b@.skip(0) =~= b@);
    }
    while i < a.len() && i < b.len()
        invariant
            i <= a@.len(),
            i <= b@.len(),
            forall|k: int| 0 <= k < i ==> a@[k] == b@[k],
            lex_lt(a@, b@) == lex_lt(a@.skip(i as int), b@.skip(i as int)),
        decreases a@.len() - i,
    {
        proof {
            assert(a@.skip(i as int).drop_first() =~= a@.skip(i + 1));
            assert(b@.skip(i as int).drop_first() =~= b@.skip(i + 1));
        }
        if a[i] != b[i] {
            assert(a@ != b@);
            if a[i] < b[i] {
                return Placed::Before;
            }
            return Placed::After;
        }
        i += 1;
    }
    if i < b.len() {
        assert(a@ != b@);
        Placed::Before
    } else if i < a.len() {
        assert(a@ != b@);
        Placed::After
    } else {
        assert(a@ =~= b@);
        Placed::Same
    }
}

/// What an item is sorted by: a group, a text within the group, and a number
/// among items of the same text.
pub struct SortKey<'a> {
    /// The group.
    pub group: u64,
    /// The text.
    pub text: &'a [u8],
    /// The number.
    pub last: u64,
}

/// Whether item `a` stands before item `b`: by group, text and number, then by
/// their own numbers.
pub open spec fn stands_before(keys: Seq<SortKey>, a: u32, b: u32) -> bool {
    let x = keys[a as int];
    let y = keys[b as int];
    ||| x.group < y.group
    ||| x.group == y.group && lex_lt(x.text@, y.text@)
    ||| x.group == y.group && x.text@ == y.text@ && x.last < y.last
    ||| x.group == y.group && x.text@ == y.text@ && x.last == y.last && a < b
}

/// Whether each item stands before those after it.
pub open spec fn in_order(keys: Seq<SortKey>, s: Seq<u32>) -> bool {
    forall|i: int, j: int| 0 <= i < j < s.len() ==> stands_before(keys, #[trigger] s[i], #[trigger] s[j])
}

proof fn lemma_before_transitive(keys: Seq<SortKey>, a: u32, b: u32, c: u32)
    requires
        stands_before(keys, a, b),
        stands_before(keys, b, c),
    ensures
        stands_before(keys, a, c),
{
    let x = keys[a as int];
    let y = keys[b as int];
    let z = keys[c as int];
    if x.group == y.group && y.group == z.group && lex_lt(x.text@, y.text@) && lex_lt(
        y.text@,
        z.text@,
    ) {
        lemma_lex_transitive(x.text@, y.text@, z.text@);
    }
}

proof fn lemma_before_total(keys: Seq<SortKey>, a: u32, b: u32)
    ensures
        stands_before(keys, a, b) || stands_before(keys, b, a) || a == b,
        !(stands_before(keys, a, b) && stands_before(keys, b, a)),
{
    let x = keys[a as int];
    let y = keys[b as int];
    lemma_lex_total(x.text@, y.text@);
    lemma_lex_irreflexive(x.text@);
    if lex_lt(x.text@, y.text@) && lex_lt(y.text@, x.text@) {
        lemma_lex_transitive(x.text@, y.text@, x.text@);
    }
}

fn goes_first(keys: &Vec<SortKey<'_>>, a: u32, b: u32) -> (r: bool)
    requires
        a < keys@.len(),
        b < keys@.len(),
    ensures
        r == (stands_before(keys@, a, b) || a == b),
{
    let x = &keys[a as usize];
    let y = &keys[b as usize];
    proof {
        lemma_before_total(keys@, a, b);
        lemma_lex_total(x.text@, y.text@);
        lemma_lex_irreflexive(x.text@);
    }
    if x.group != y.group {
        return x.group < y.group;
    }
    match place(x.text, y.text) {
        Placed::Before => true,
        Placed::After => false,
        Placed::Same => {
            if x.last != y.last {
                x.last < y.last
            } else {
                a <= b
            }
        },
    }
}

fn merge_order(keys: &Vec<SortKey<'_>>, a: &Vec<u32>, b: &Vec<u32>) -> (out: Vec<u32>)
    requires
        forall|i: int| 0 <= i < a@.len() ==> (#[trigger] a@[i]) < keys@.len(),
        forall|i: int| 0 <= i < b@.len() ==> (#[trigger] b@[i]) < keys@.len(),
        in_order(keys@, a@),
        in_order(keys@, b@),
        (a@ + b@).no_duplicates(),
    ensures
        in_order(keys@, out@),
        out@.to_multiset() == a@.to_multiset().add(b@.to_multiset()),
{
    broadcast use group_to_multiset_ensures;

    let mut out: Vec<u32> = Vec::new();
    let mut i: usize = 0;
    let mut j: usize = 0;
    proof {
        assert(a@.take(0) =~= Seq::<u32>::empty());
        assert(b@.take(0) =~= Seq::<u32>::empty());
        assert(out@.to_multiset() =~= a@.take(0).to_multiset().add(b@.take(0).to_multiset()));
        assert forall|p: int, q: int| 0 <= p < a@.len() && 0 <= q < b@.len() implies a@[p] != b@[q] by {
            assert((a@ + b@)[p] == a@[p]);
            assert((a@ + b@)[a@.len() + q] == b@[q]);
        }
    }
    while i < a.len() || j < b.len()
        invariant
            forall|i: int| 0 <= i < a@.len() ==> (#[trigger] a@[i]) < keys@.len(),
            forall|i: int| 0 <= i < b@.len() ==> (#[trigger] b@[i]) < keys@.len(),
            in_order(keys@, a@),
            in_order(keys@, b@),
            forall|p: int, q: int|
                #![trigger a@[p], b@[q]]
                0 <= p < a@.len() && 0 <= q < b@.len() ==> a@[p] != b@[q],
            i <= a@.len(),
            j <= b@.len(),
            in_order(keys@, out@),
            out@.to_multiset() == a@.take(i as int).to_multiset().add(
                b@.take(j as int).to_multiset(),
            ),
            forall|k: int, l: int|
                0 <= k < out@.len() && i <= l < a@.len() ==> stands_before(
                    keys@,
                    #[trigger] out@[k],
                    #[trigger] a@[l],
                ),
            forall|k: int, l: int|
                0 <= k < out@.len() && j <= l < b@.len() ==> stands_before(
                    keys@,
                    #[trigger] out@[k],
                    #[trigger] b@[l],
                ),
        decreases a@.len() - i + b@.len() - j,
    {
        let ghost before = out@;
        let take_a: bool = if i >= a.len() {
            false
        } else if j >= b.len() {
            true
        } else {
            goes_first(keys, a[i], b[j])
        };
        if take_a {
            let x: u32 = a[i];
            out.push(x);
            proof {
                before.to_multiset_ensures();
                a@.take(i as int).to_multiset_ensures();
                assert(a@.take(i + 1) =~= a@.take(i as int).push(x));
                assert(out@.to_multiset() =~= a@.take(i + 1).to_multiset().add(
                    b@.take(j as int).to_multiset(),
                ));
                assert forall|l: int| j <= l < b@.len() implies stands_before(
                    keys@,
                    x,
                    #[trigger] b@[l],
                ) by {
                    assert(a@[i as int] != b@[j as int]);
                    assert(stands_before(keys@, x, b@[j as int]));
                    if l > j {
                        assert(stands_before(keys@, b@[j as int], b@[l]));
                        lemma_before_transitive(keys@, x, b@[j as int], b@[l]);
                    }
                }
            }
            i += 1;
        } else {
            let x: u32 = b[j];
            out.push(x);
            proof {
                before.to_multiset_ensures();
                b@.take(j as int).to_multiset_ensures();
                assert(b@.take(j + 1) =~= b@.take(j as int).push(x));
                assert(out@.to_multiset() =~= a@.take(i as int).to_multiset().add(
                    b@.take(j + 1).to_multiset(),
                ));
                assert forall|l: int| i <= l < a@.len() implies stands_before(
                    keys@,
                    x,
                    #[trigger] a@[l],
                ) by {
                    assert(a@[i as int] != b@[j as int]);
                    lemma_before_total(keys@, x, a@[i as int]);
                    assert(stands_before(keys@, x, a@[i as int]));
                    if l > i {
                        assert(stands_before(keys@, a@[i as int], a@[l]));
                        lemma_before_transitive(keys@, x, a@[i as int], a@[l]);
                    }
                }
            }
            j += 1;
        }
    }
    proof {
        assert(a@.take(i as int) =~= a@);
        assert(b@.take(j as int) =~= b@);
    }
    out
}

/// The items in the order of their keys.
pub fn sort_by_keys(keys: &Vec<SortKey<'_>>, items: &Vec<u32>) -> (out: Vec<u32>)
    requires
        forall|i: int| 0 <= i < items@.len() ==> (#[trigger] items@[i]) < keys@.len(),
        items@.no_duplicates(),
    ensures
        in_order(keys@, out@),
        out@.to_multiset() == items@.to_multiset(),
    decreases items@.len(),
{
    let n: usize = items.len();
    if n <= 1 {
        let mut out: Vec<u32> = Vec::new();
        if n == 1 {
            out.push(items[0]);
        }
        assert(out@ =~= items@);
        return out;
    }
    let half: usize = n / 2;
    let mut left: Vec<u32> = Vec::new();
    let mut right: Vec<u32> = Vec::new();
    let mut i: usize = 0;
    while i < n
        invariant
            n == items@.len(),
            half == n / 2,
            i <= n,
            left@ =~= items@.take(if i < half {
                i as int
            } else {
                half as int
            }),
            i <= half ==> right@.len() == 0,
            i > half ==> right@ =~= items@.subrange(half as int, i as int),
        decreases n - i,
    {
        if i < half {
            left.push(items[i]);
        } else {
            right.push(items[i]);
        }
        i += 1;
    }
    assert(items@ =~= left@ + right@);
    let a = sort_by_keys(keys, &left);
    let b = sort_by_keys(keys, &right);
    proof {
        lemma_multiset_commutative(left@, right@);
        lemma_multiset_commutative(a@, b@);
        lemma_same_items(left@, a@);
        lemma_same_items(right@, b@);
        items@.lemma_multiset_has_no_duplicates();
        (a@ + b@).lemma_multiset_has_no_duplicates_conv();
    }
    merge_order(keys, &a, &b)
}

/// Sequences of the same items hold the same items.
pub proof fn lemma_same_items(a: Seq<u32>, b: Seq<u32>)
    requires
        a.to_multiset() == b.to_multiset(),
    ensures
        a.len() == b.len(),
        forall|x: u32| #[trigger] a.contains(x) <==> b.contains(x),
        forall|i: int| 0 <= i < b.len() ==> a.contains(#[trigger] b[i]),
{
    a.to_multiset_ensures();
    b.to_multiset_ensures();
    assert forall|x: u32| #[trigger] a.contains(x) <==> b.contains(x) by {
        assert(a.contains(x) <==> a.to_multiset().count(x) > 0);
        assert(b.contains(x) <==> b.to_multiset().count(x) > 0);
    }
    assert forall|i: int| 0 <= i < b.len() implies a.contains(#[trigger] b[i]) by {
        assert(b.contains(b[i]));
    }
}

} // verus!
