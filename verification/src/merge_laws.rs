//! Merging suffixes gives what building those of all parts at once gives.

use vstd::multiset::*;
use vstd::prelude::*;

use crate::bytes;
use crate::dictionary_compact;
use crate::dictionary_compact::{MergedSuffixes, SfxPart, TextsError, UnionEntry};
use crate::dictionary_generation;
use crate::dictionary_generation::{Compacted, FoundPart};
use crate::dictionary_lookup::ParentEntryV3;
use crate::newtexts;
use crate::parents_table;
use crate::termtexts_v3::IdEntry;
use crate::text_order;

verus! {

/// The parents of a key among suffixes.
pub open spec fn parents_under(
    suffixes: Seq<(Seq<u8>, ParentEntryV3)>,
    key: Seq<u8>,
) -> Multiset<ParentEntryV3>
    decreases suffixes.len(),
{
    if suffixes.len() == 0 {
        Multiset::empty()
    } else {
        let before = parents_under(suffixes.drop_last(), key);
        if suffixes.last().0 == key {
            before.insert(suffixes.last().1)
        } else {
            before
        }
    }
}

/// Whether one of the suffixes is the key.
pub open spec fn has_key(suffixes: Seq<(Seq<u8>, ParentEntryV3)>, key: Seq<u8>) -> bool {
    exists|i: int| 0 <= i < suffixes.len() && (#[trigger] suffixes[i]).0 == key
}

/// The suffixes of the parts, together.
pub open spec fn together(
    given: Seq<Seq<(Seq<u8>, ParentEntryV3)>>,
) -> Multiset<(Seq<u8>, ParentEntryV3)>
    decreases given.len(),
{
    if given.len() == 0 {
        Multiset::empty()
    } else {
        together(given.drop_last()).add(given.last().to_multiset())
    }
}

/// Whether records are written as `write` says: it orders the parents it is
/// given, so that only which they are counts.
pub open spec fn writes_as<E: Fn(Vec<ParentEntryV3>, Vec<u8>) -> Vec<u8>>(
    encode: E,
    write: spec_fn(Multiset<ParentEntryV3>, Seq<u8>) -> Seq<u8>,
) -> bool {
    forall|all: Vec<ParentEntryV3>, k: Vec<u8>, out: Vec<u8>| #[trigger]
        call_ensures(encode, (all, k), out) ==> out@ == write(all@.to_multiset(), k@)
}

/// Whether the value that a part has for the key leads to the parents it was
/// built from: to their record, and by `decode` to themselves.
pub open spec fn leads_to_its_parents<'a, D: Fn(usize, u64, Vec<u8>) -> Vec<ParentEntryV3>>(
    parts: Seq<SfxPart<'a>>,
    given: Seq<Seq<(Seq<u8>, ParentEntryV3)>>,
    decode: D,
    write: spec_fn(Multiset<ParentEntryV3>, Seq<u8>) -> Seq<u8>,
    key: Seq<u8>,
    held: (usize, u64),
) -> bool {
    let own = parents_under(given[held.0 as int], key);
    &&& parts[held.0 as int].current ==> parents_table::record_at(
        parts[held.0 as int].table@,
        held.1 as int,
    ) == Some(write(own, key))
    &&& forall|list: Vec<ParentEntryV3>| #[trigger]
        dictionary_compact::decoded(decode, held, key, list) ==> list@.to_multiset() == own
}

/// Whether the parts that hold the key are those with a suffix that is the key,
/// each once.
pub open spec fn held_by_its_parts(
    given: Seq<Seq<(Seq<u8>, ParentEntryV3)>>,
    e: UnionEntry,
) -> bool {
    &&& forall|j: int| 0 <= j < e.held@.len() ==> (#[trigger] e.held@[j]).0 < given.len()
    &&& forall|i: int, j: int|
        0 <= i < j < e.held@.len() ==> (#[trigger] e.held@[i]).0 != (#[trigger] e.held@[j]).0
    &&& forall|p: int|
        0 <= p < given.len() ==> (#[trigger] has_key(given[p], e.key@) <==> exists|j: int|
            0 <= j < e.held@.len() && (#[trigger] e.held@[j]).0 == p)
}

/// The keys of the union.
pub open spec fn keys_of(union: Seq<UnionEntry>) -> Seq<Seq<u8>> {
    Seq::new(union.len(), |i: int| union[i].key@)
}

/// Whether the keys ascend, and are those of the suffixes of the parts.
pub open spec fn union_of(
    given: Seq<Seq<(Seq<u8>, ParentEntryV3)>>,
    union: Seq<UnionEntry>,
) -> bool {
    &&& ascend(keys_of(union))
    &&& forall|i: int| 0 <= i < union.len() ==> held_by_its_parts(given, #[trigger] union[i])
    &&& forall|i: int| 0 <= i < union.len() ==> (#[trigger] union[i]).held@.len() > 0
    &&& forall|p: int, key: Seq<u8>|
        0 <= p < given.len() && #[trigger] has_key(given[p], key) ==> keys_of(union).contains(key)
}

/// Whether each key comes before the next.
pub open spec fn ascend(keys: Seq<Seq<u8>>) -> bool {
    forall|i: int, j: int|
        0 <= i < j < keys.len() ==> text_order::lex_lt(#[trigger] keys[i], #[trigger] keys[j])
}

/// The records of the keys.
pub open spec fn records_of(
    suffixes: Seq<(Seq<u8>, ParentEntryV3)>,
    keys: Seq<Seq<u8>>,
    write: spec_fn(Multiset<ParentEntryV3>, Seq<u8>) -> Seq<u8>,
) -> Seq<Seq<u8>> {
    Seq::new(keys.len(), |i: int| write(parents_under(suffixes, keys[i]), keys[i]))
}

/// What building suffixes gives: the keys in order, each with where its record
/// starts, and the table of the records.
pub open spec fn is_build(
    suffixes: Seq<(Seq<u8>, ParentEntryV3)>,
    write: spec_fn(Multiset<ParentEntryV3>, Seq<u8>) -> Seq<u8>,
    keys: Seq<Seq<u8>>,
    starts: Seq<int>,
    table: Seq<u8>,
) -> bool {
    &&& ascend(keys)
    &&& forall|key: Seq<u8>| #[trigger] keys.contains(key) <==> has_key(suffixes, key)
    &&& table == parents_table::table_of(records_of(suffixes, keys, write))
    &&& starts == Seq::new(
        keys.len(),
        |i: int| parents_table::record_start(records_of(suffixes, keys, write), i),
    )
}

proof fn lemma_count(suffixes: Seq<(Seq<u8>, ParentEntryV3)>, key: Seq<u8>, x: ParentEntryV3)
    ensures
        parents_under(suffixes, key).count(x) == suffixes.to_multiset().count((key, x)),
    decreases suffixes.len(),
{
    broadcast use vstd::seq_lib::group_to_multiset_ensures;

    if suffixes.len() > 0 {
        lemma_count(suffixes.drop_last(), key, x);
        assert(suffixes =~= suffixes.drop_last().push(suffixes.last()));
        assert(suffixes.to_multiset() =~= suffixes.drop_last().to_multiset().insert(
            suffixes.last(),
        ));
    }
}

proof fn lemma_no_key(suffixes: Seq<(Seq<u8>, ParentEntryV3)>, key: Seq<u8>, x: ParentEntryV3)
    requires
        !has_key(suffixes, key),
    ensures
        suffixes.to_multiset().count((key, x)) == 0,
{
    broadcast use vstd::seq_lib::group_to_multiset_ensures;

    if suffixes.contains((key, x)) {
        let i = choose|i: int| 0 <= i < suffixes.len() && suffixes[i] == (key, x);
        assert(suffixes[i].0 == key);
    }
}

/// The sum of `f` over the first `n` numbers.
spec fn sum_to(f: spec_fn(int) -> nat, n: int) -> nat
    decreases n,
{
    if n <= 0 {
        0
    } else {
        sum_to(f, n - 1) + f(n - 1)
    }
}

/// The sum of `f` over the given numbers.
spec fn sum_over(f: spec_fn(int) -> nat, held: Seq<int>) -> nat
    decreases held.len(),
{
    if held.len() == 0 {
        0
    } else {
        sum_over(f, held.drop_last()) + f(held.last())
    }
}

proof fn lemma_sum_without(f: spec_fn(int) -> nat, held: Seq<int>, j: int)
    requires
        0 <= j < held.len(),
    ensures
        sum_over(f, held) == f(held[j]) + sum_over(f, held.remove(j)),
    decreases held.len(),
{
    if j == held.len() - 1 {
        assert(held.remove(j) =~= held.drop_last());
    } else {
        lemma_sum_without(f, held.drop_last(), j);
        assert(held.remove(j).drop_last() =~= held.drop_last().remove(j));
        assert(held.remove(j).last() == held.last());
    }
}

proof fn lemma_sums(f: spec_fn(int) -> nat, held: Seq<int>, n: int)
    requires
        0 <= n,
        held.no_duplicates(),
        forall|j: int| 0 <= j < held.len() ==> 0 <= #[trigger] held[j] < n,
        forall|p: int| 0 <= p < n && #[trigger] f(p) != 0 ==> held.contains(p),
    ensures
        sum_over(f, held) == sum_to(f, n),
    decreases n,
{
    if n == 0 {
        if held.len() > 0 {
            assert(0 <= held[0] < n);
        }
    } else if held.contains(n - 1) {
        let j = choose|j: int| 0 <= j < held.len() && held[j] == n - 1;
        let rest = held.remove(j);
        lemma_sum_without(f, held, j);
        assert forall|i: int| 0 <= i < rest.len() implies 0 <= #[trigger] rest[i] < n - 1 by {
            let k = if i < j {
                i
            } else {
                i + 1
            };
            assert(rest[i] == held[k]);
            assert(held[k] != held[j]);
        }
        assert(rest.no_duplicates()) by {
            assert forall|a: int, b: int|
                0 <= a < rest.len() && 0 <= b < rest.len() && a != b implies rest[a] != rest[b] by {
                let x = if a < j {
                    a
                } else {
                    a + 1
                };
                let y = if b < j {
                    b
                } else {
                    b + 1
                };
                assert(rest[a] == held[x] && rest[b] == held[y]);
            }
        }
        assert forall|p: int| 0 <= p < n - 1 && #[trigger] f(p) != 0 implies rest.contains(p) by {
            assert(held.contains(p));
            let k = choose|k: int| 0 <= k < held.len() && held[k] == p;
            let i = if k < j {
                k
            } else {
                k - 1
            };
            assert(rest[i] == p);
        }
        lemma_sums(f, rest, n - 1);
    } else {
        assert(f(n - 1) == 0);
        assert forall|i: int| 0 <= i < held.len() implies 0 <= #[trigger] held[i] < n - 1 by {
            assert(held[i] != n - 1) by {
                if held[i] == n - 1 {
                    assert(held.contains(n - 1));
                }
            }
        }
        lemma_sums(f, held, n - 1);
    }
}

/// How often each part has the suffix with the parent.
spec fn counts(
    given: Seq<Seq<(Seq<u8>, ParentEntryV3)>>,
    key: Seq<u8>,
    x: ParentEntryV3,
) -> spec_fn(int) -> nat {
    |p: int| given[p].to_multiset().count((key, x))
}

proof fn lemma_together(
    given: Seq<Seq<(Seq<u8>, ParentEntryV3)>>,
    key: Seq<u8>,
    x: ParentEntryV3,
    n: int,
)
    requires
        0 <= n <= given.len(),
    ensures
        together(given.take(n)).count((key, x)) == sum_to(counts(given, key, x), n),
    decreases n,
{
    if n > 0 {
        lemma_together(given, key, x, n - 1);
        assert(given.take(n).drop_last() =~= given.take(n - 1));
        assert(given.take(n).last() == given[n - 1]);
    }
}

/// The numbers of the parts that hold a key.
spec fn holders(e: UnionEntry) -> Seq<int> {
    Seq::new(e.held@.len(), |j: int| e.held@[j].0 as int)
}

proof fn lemma_joined(
    given: Seq<Seq<(Seq<u8>, ParentEntryV3)>>,
    e: UnionEntry,
    lists: Seq<Vec<ParentEntryV3>>,
    x: ParentEntryV3,
    n: int,
)
    requires
        0 <= n <= lists.len(),
        lists.len() == e.held@.len(),
        forall|j: int|
            0 <= j < lists.len() ==> (#[trigger] lists[j])@.to_multiset() == parents_under(
                given[e.held@[j].0 as int],
                e.key@,
            ),
    ensures
        dictionary_compact::joined_parents(lists.take(n)).to_multiset().count(x) == sum_over(
            counts(given, e.key@, x),
            holders(e).take(n),
        ),
    decreases n,
{
    broadcast use vstd::seq_lib::group_to_multiset_ensures;

    if n > 0 {
        lemma_joined(given, e, lists, x, n - 1);
        assert(lists.take(n).drop_last() =~= lists.take(n - 1));
        assert(lists.take(n).last() == lists[n - 1]);
        assert(holders(e).take(n).drop_last() =~= holders(e).take(n - 1));
        vstd::seq_lib::lemma_multiset_commutative(
            dictionary_compact::joined_parents(lists.take(n - 1)),
            lists[n - 1]@,
        );
        lemma_count(given[e.held@[n - 1].0 as int], e.key@, x);
    } else {
        assert(dictionary_compact::joined_parents(lists.take(0)) =~= Seq::empty());
    }
}

/// How often the parts that hold a key have a parent under it, together.
proof fn lemma_held(
    given: Seq<Seq<(Seq<u8>, ParentEntryV3)>>,
    whole: Seq<(Seq<u8>, ParentEntryV3)>,
    e: UnionEntry,
    x: ParentEntryV3,
)
    requires
        held_by_its_parts(given, e),
        whole.to_multiset() == together(given),
    ensures
        parents_under(whole, e.key@).count(x) == sum_over(counts(given, e.key@, x), holders(e)),
{
    let f = counts(given, e.key@, x);
    let h = holders(e);
    let n = given.len() as int;
    lemma_count(whole, e.key@, x);
    lemma_together(given, e.key@, x, n);
    assert(given.take(n) =~= given);
    assert forall|j: int| 0 <= j < h.len() implies 0 <= #[trigger] h[j] < n by {
        assert(e.held@[j].0 < given.len());
    }
    assert(h.no_duplicates()) by {
        assert forall|i: int, j: int| 0 <= i < h.len() && 0 <= j < h.len() && i != j implies h[i]
            != h[j] by {
            if i < j {
                assert(e.held@[i].0 != e.held@[j].0);
            } else {
                assert(e.held@[j].0 != e.held@[i].0);
            }
        }
    }
    assert forall|p: int| 0 <= p < n && #[trigger] f(p) != 0 implies h.contains(p) by {
        if !has_key(given[p], e.key@) {
            lemma_no_key(given[p], e.key@, x);
        }
        let j = choose|j: int| 0 <= j < e.held@.len() && (#[trigger] e.held@[j]).0 == p;
        assert(h[j] == p);
    }
    lemma_sums(f, h, n);
}

proof fn lemma_merged_record<
    'a,
    D: Fn(usize, u64, Vec<u8>) -> Vec<ParentEntryV3>,
    E: Fn(Vec<ParentEntryV3>, Vec<u8>) -> Vec<u8>,
>(
    parts: Seq<SfxPart<'a>>,
    given: Seq<Seq<(Seq<u8>, ParentEntryV3)>>,
    whole: Seq<(Seq<u8>, ParentEntryV3)>,
    decode: D,
    encode: E,
    write: spec_fn(Multiset<ParentEntryV3>, Seq<u8>) -> Seq<u8>,
    e: UnionEntry,
    record: Seq<u8>,
)
    requires
        writes_as(encode, write),
        held_by_its_parts(given, e),
        whole.to_multiset() == together(given),
        forall|j: int|
            0 <= j < e.held@.len() ==> leads_to_its_parents(
                parts,
                given,
                decode,
                write,
                e.key@,
                #[trigger] e.held@[j],
            ),
        dictionary_compact::is_record(parts, decode, encode, e, record),
    ensures
        record == write(parents_under(whole, e.key@), e.key@),
{
    let all = parents_under(whole, e.key@);
    if dictionary_compact::copied(parts, e) {
        let p = e.held@[0].0 as int;
        assert(leads_to_its_parents(parts, given, decode, write, e.key@, e.held@[0]));
        let own = parents_under(given[p], e.key@);
        assert(own =~= all) by {
            assert forall|x: ParentEntryV3| own.count(x) == all.count(x) by {
                lemma_held(given, whole, e, x);
                lemma_count(given[p], e.key@, x);
                let f = counts(given, e.key@, x);
                let h = holders(e);
                assert(h.last() == p);
                assert(h.drop_last() =~= Seq::empty());
                assert(sum_over(f, h) == sum_over(f, h.drop_last()) + f(p));
            }
        }
    } else {
        let (lists, joined, k, out) = choose|
            lists: Seq<Vec<ParentEntryV3>>,
            joined: Vec<ParentEntryV3>,
            k: Vec<u8>,
            out: Vec<u8>,
        |
            #![trigger dictionary_compact::parents_of(decode, e, lists), call_ensures(encode, (joined, k), out)]
            dictionary_compact::parents_of(decode, e, lists) && joined@
                == dictionary_compact::joined_parents(lists) && k@ == e.key@ && call_ensures(
                encode,
                (joined, k),
                out,
            ) && out@ == record;
        assert forall|j: int| 0 <= j < lists.len() implies (#[trigger] lists[j])@.to_multiset()
            == parents_under(given[e.held@[j].0 as int], e.key@) by {
            assert(leads_to_its_parents(parts, given, decode, write, e.key@, e.held@[j]));
            assert(dictionary_compact::decoded(decode, e.held@[j], e.key@, lists[j]));
        }
        assert(joined@.to_multiset() =~= all) by {
            assert forall|x: ParentEntryV3| joined@.to_multiset().count(x) == all.count(x) by {
                lemma_joined(given, e, lists, x, lists.len() as int);
                assert(lists.take(lists.len() as int) =~= lists);
                assert(holders(e).take(lists.len() as int) =~= holders(e));
                lemma_held(given, whole, e, x);
            }
        }
        assert(out@ == write(joined@.to_multiset(), k@));
    }
}

/// The keys of all suffixes are those of the parts.
proof fn lemma_keys(
    given: Seq<Seq<(Seq<u8>, ParentEntryV3)>>,
    whole: Seq<(Seq<u8>, ParentEntryV3)>,
    key: Seq<u8>,
)
    requires
        whole.to_multiset() == together(given),
    ensures
        has_key(whole, key) <==> exists|p: int|
            0 <= p < given.len() && #[trigger] has_key(given[p], key),
{
    broadcast use vstd::seq_lib::group_to_multiset_ensures;

    let n = given.len() as int;
    assert(given.take(n) =~= given);
    if has_key(whole, key) {
        let i = choose|i: int| 0 <= i < whole.len() && (#[trigger] whole[i]).0 == key;
        let x = whole[i].1;
        assert(whole.contains((key, x)));
        lemma_together(given, key, x, n);
        let p = lemma_some_part(counts(given, key, x), n);
        if !has_key(given[p], key) {
            lemma_no_key(given[p], key, x);
        }
    }
    if exists|p: int| 0 <= p < given.len() && #[trigger] has_key(given[p], key) {
        let p = choose|p: int| 0 <= p < given.len() && #[trigger] has_key(given[p], key);
        let i = choose|i: int| 0 <= i < given[p].len() && (#[trigger] given[p][i]).0 == key;
        let x = given[p][i].1;
        assert(given[p].contains((key, x)));
        lemma_together(given, key, x, n);
        lemma_part_of_sum(counts(given, key, x), n, p);
        assert(whole.contains((key, x)));
        let j = choose|j: int| 0 <= j < whole.len() && whole[j] == (key, x);
        assert(whole[j].0 == key);
    }
}

proof fn lemma_some_part(f: spec_fn(int) -> nat, n: int) -> (p: int)
    requires
        sum_to(f, n) > 0,
    ensures
        0 <= p < n,
        f(p) > 0,
    decreases n,
{
    if f(n - 1) > 0 {
        n - 1
    } else {
        lemma_some_part(f, n - 1)
    }
}

proof fn lemma_part_of_sum(f: spec_fn(int) -> nat, n: int, p: int)
    requires
        0 <= p < n,
    ensures
        f(p) <= sum_to(f, n),
    decreases n,
{
    if p < n - 1 {
        lemma_part_of_sum(f, n - 1, p);
    }
}

/// Law: where the parts were built from suffixes, merging them gives what
/// building the suffixes of all of them at once gives, in whatever order.
pub proof fn merging_is_building_at_once<
    'a,
    D: Fn(usize, u64, Vec<u8>) -> Vec<ParentEntryV3>,
    E: Fn(Vec<ParentEntryV3>, Vec<u8>) -> Vec<u8>,
>(
    parts: Seq<SfxPart<'a>>,
    given: Seq<Seq<(Seq<u8>, ParentEntryV3)>>,
    whole: Seq<(Seq<u8>, ParentEntryV3)>,
    union: Seq<UnionEntry>,
    decode: D,
    encode: E,
    write: spec_fn(Multiset<ParentEntryV3>, Seq<u8>) -> Seq<u8>,
    records: Seq<Seq<u8>>,
    m: MergedSuffixes,
)
    requires
        dictionary_compact::merge_of(parts, union, decode, encode, records, m),
        given.len() == parts.len(),
        whole.to_multiset() == together(given),
        writes_as(encode, write),
        union_of(given, union),
        forall|i: int, j: int|
            #![trigger union[i].held@[j]]
            0 <= i < union.len() && 0 <= j < union[i].held@.len() ==> leads_to_its_parents(
                parts,
                given,
                decode,
                write,
                union[i].key@,
                union[i].held@[j],
            ),
    ensures
        is_build(
            whole,
            write,
            Seq::new(m.entries@.len(), |i: int| m.entries@[i].0@),
            Seq::new(m.entries@.len(), |i: int| m.entries@[i].1 as int),
            m.table@,
        ),
{
    let keys = Seq::new(m.entries@.len(), |i: int| m.entries@[i].0@);
    let starts = Seq::new(m.entries@.len(), |i: int| m.entries@[i].1 as int);
    assert(keys =~= keys_of(union)) by {
        assert forall|i: int| 0 <= i < union.len() implies keys[i] == keys_of(union)[i] by {
            assert(m.entries@[i].0@ == union[i].key@);
        }
    }
    let want = records_of(whole, keys, write);
    assert(records =~= want) by {
        assert forall|i: int| 0 <= i < union.len() implies records[i] == want[i] by {
            let e = union[i];
            assert(dictionary_compact::is_record(parts, decode, encode, e, records[i]));
            assert(held_by_its_parts(given, e));
            assert forall|j: int| 0 <= j < e.held@.len() implies leads_to_its_parents(
                parts,
                given,
                decode,
                write,
                e.key@,
                #[trigger] e.held@[j],
            ) by {
                assert(union[i].held@[j] == e.held@[j]);
            }
            lemma_merged_record(parts, given, whole, decode, encode, write, e, records[i]);
            assert(keys[i] == e.key@);
        }
    }
    assert(starts =~= Seq::new(keys.len(), |i: int| parents_table::record_start(want, i))) by {
        assert forall|i: int| 0 <= i < starts.len() implies starts[i]
            == parents_table::record_start(want, i) by {
            assert(m.entries@[i].1 == parents_table::record_start(records, i));
        }
    }
    assert forall|key: Seq<u8>| #[trigger] keys.contains(key) <==> has_key(whole, key) by {
        lemma_keys(given, whole, key);
        if keys.contains(key) {
            let i = choose|i: int| 0 <= i < keys.len() && keys[i] == key;
            let e = union[i];
            assert(held_by_its_parts(given, e));
            assert(e.held@.len() > 0);
            let p = e.held@[0].0 as int;
            assert(has_key(given[p], e.key@));
        }
    }
}

/// Law: suffixes have one build: the same keys, records at the same places and
/// the same table.
pub proof fn a_build_is_unique(
    suffixes: Seq<(Seq<u8>, ParentEntryV3)>,
    write: spec_fn(Multiset<ParentEntryV3>, Seq<u8>) -> Seq<u8>,
    a: (Seq<Seq<u8>>, Seq<int>, Seq<u8>),
    b: (Seq<Seq<u8>>, Seq<int>, Seq<u8>),
)
    requires
        is_build(suffixes, write, a.0, a.1, a.2),
        is_build(suffixes, write, b.0, b.1, b.2),
    ensures
        a == b,
{
    assert forall|key: Seq<u8>| #[trigger] a.0.contains(key) <==> b.0.contains(key) by {
        assert(a.0.contains(key) <==> has_key(suffixes, key));
    }
    lemma_same_keys(a.0, b.0);
}

proof fn lemma_last(keys: Seq<Seq<u8>>, key: Seq<u8>)
    requires
        ascend(keys),
        keys.contains(key),
    ensures
        key == keys.last() || text_order::lex_lt(key, keys.last()),
        keys.drop_last().contains(key) <==> key != keys.last(),
{
    let i = choose|i: int| 0 <= i < keys.len() && keys[i] == key;
    let n = keys.len() - 1;
    text_order::lemma_lex_irreflexive(key);
    if i < n {
        assert(text_order::lex_lt(keys[i], keys[n]));
        assert(keys.drop_last()[i] == key);
    } else if keys.drop_last().contains(key) {
        let j = choose|j: int| 0 <= j < keys.drop_last().len() && keys.drop_last()[j] == key;
        assert(text_order::lex_lt(keys[j], keys[n]));
    }
}

proof fn lemma_same_keys(a: Seq<Seq<u8>>, b: Seq<Seq<u8>>)
    requires
        ascend(a),
        ascend(b),
        forall|key: Seq<u8>| #[trigger] a.contains(key) <==> b.contains(key),
    ensures
        a == b,
    decreases a.len(),
{
    if a.len() == 0 {
        if b.len() > 0 {
            assert(b.contains(b[0]));
            assert(a.contains(b[0]));
        }
        assert(a =~= b);
    } else {
        let x = a.last();
        assert(a[a.len() - 1] == x);
        assert(a.contains(x));
        assert(b.contains(x));
        let y = b.last();
        assert(b[b.len() - 1] == y);
        assert(b.contains(y));
        assert(a.contains(y));
        lemma_last(b, x);
        lemma_last(a, y);
        if x != y {
            text_order::lemma_lex_transitive(x, y, x);
            text_order::lemma_lex_irreflexive(x);
        }
        let s = a.drop_last();
        let t = b.drop_last();
        assert forall|key: Seq<u8>| #[trigger] s.contains(key) <==> t.contains(key) by {
            if s.contains(key) {
                let i = choose|i: int| 0 <= i < s.len() && s[i] == key;
                assert(a[i] == key);
                assert(a.contains(key));
                lemma_last(a, key);
                lemma_last(b, key);
            }
            if t.contains(key) {
                let i = choose|i: int| 0 <= i < t.len() && t[i] == key;
                assert(b[i] == key);
                assert(b.contains(key));
                assert(a.contains(key));
                lemma_last(a, key);
                lemma_last(b, key);
            }
        }
        lemma_same_keys(s, t);
        assert(a =~= s.push(x));
        assert(b =~= t.push(y));
    }
}

/// Law: merging generations that were written from entries gives what writing
/// all their entries at once gives: the same file of texts, and the same keys,
/// places and table of suffixes. The generations without the field are left
/// out of the count, and without any there is nothing to write.
pub proof fn compacting_is_writing_at_once<
    'a,
    D: Fn(usize, u64, Vec<u8>) -> Vec<ParentEntryV3>,
    E: Fn(Vec<ParentEntryV3>, Vec<u8>) -> Vec<u8>,
>(
    found: Seq<FoundPart>,
    sfx: Seq<Vec<u8>>,
    texts: Seq<Vec<u8>>,
    lists: Seq<Seq<IdEntry>>,
    all: Seq<IdEntry>,
    parts: Seq<SfxPart<'a>>,
    given: Seq<Seq<(Seq<u8>, ParentEntryV3)>>,
    whole: Seq<(Seq<u8>, ParentEntryV3)>,
    union: Seq<UnionEntry>,
    decode: D,
    encode: E,
    write: spec_fn(Multiset<ParentEntryV3>, Seq<u8>) -> Seq<u8>,
    r: Result<Compacted, TextsError>,
)
    requires
        dictionary_generation::picked(found, sfx, texts),
        parts.len() == sfx.len(),
        parts.len() <= usize::MAX,
        union.len() <= u64::MAX,
        bytes::deep(texts) == dictionary_compact::files_of(lists),
        forall|j: int| 0 <= j < lists.len() ==> newtexts::entries_encodable(#[trigger] lists[j]),
        newtexts::entries_encodable(all),
        forall|e: IdEntry| #[trigger] all.contains(e) <==> dictionary_compact::in_a_list(lists, e),
        given.len() == parts.len(),
        whole.to_multiset() == together(given),
        writes_as(encode, write),
        union_of(given, union),
        forall|i: int, j: int|
            #![trigger union[i].held@[j]]
            0 <= i < union.len() && 0 <= j < union[i].held@.len() ==> leads_to_its_parents(
                parts,
                given,
                decode,
                write,
                union[i].key@,
                union[i].held@[j],
            ),
        dictionary_generation::compacted(parts, union, bytes::deep(texts), decode, encode, r),
    ensures
        r is Ok,
        r->Ok_0.report.parts == found.filter(dictionary_generation::is_whole()).len(),
        r->Ok_0.report.parts == 0 ==> r->Ok_0.suffixes is None && r->Ok_0.texts is None,
        r->Ok_0.report.parts > 0 ==> {
            &&& r->Ok_0.report.texts == all.len()
            &&& r->Ok_0.report.keys == union.len()
            &&& r->Ok_0.texts is Some
            &&& r->Ok_0.texts->0@ == newtexts::entries_file(all)
            &&& r->Ok_0.suffixes is Some
            &&& is_build(
                whole,
                write,
                Seq::new(
                    r->Ok_0.suffixes->0.entries@.len(),
                    |i: int| r->Ok_0.suffixes->0.entries@[i].0@,
                ),
                Seq::new(
                    r->Ok_0.suffixes->0.entries@.len(),
                    |i: int| r->Ok_0.suffixes->0.entries@[i].1 as int,
                ),
                r->Ok_0.suffixes->0.table@,
            )
        },
{
    if parts.len() > 0 {
        dictionary_compact::merged_texts_are_those_written_at_once(lists, all);
        let m = r->Ok_0.suffixes->0;
        let records = choose|records: Seq<Seq<u8>>| #[trigger]
            dictionary_compact::merge_of(parts, union, decode, encode, records, m);
        merging_is_building_at_once(
            parts,
            given,
            whole,
            union,
            decode,
            encode,
            write,
            records,
            m,
        );
    }
}

} // verus!
