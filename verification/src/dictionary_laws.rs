//! What a dictionary promises over a series of lookups.

use vstd::prelude::*;
use vstd::utf8::*;

use crate::collector_v3::TokenMetaV3;
use crate::dictionary;
use crate::dictionary::SfxDictionary;
use crate::dictionary_bloom::Filter;
use crate::dictionary_lookup::ParentEntryV3;
use crate::dictionary_pending;
use crate::text;

verus! {

/// One lookup: field, key, the two hashes of the key, the token and its shape.
#[verifier::ext_equal]
pub struct Lookup {
    /// The field.
    pub field_id: u32,
    /// The key.
    pub key: Seq<char>,
    /// The hash of field and key.
    pub key_hash: u64,
    /// The hash of the key in the field's filter.
    pub filter_hash: u64,
    /// The token.
    pub text: Seq<char>,
    /// Its shape.
    pub meta: TokenMetaV3,
}

/// Whether two lookups are of the same key in the same field.
pub open spec fn same_key(a: Lookup, b: Lookup) -> bool {
    a.field_id == b.field_id && a.key == b.key
}

/// Whether a lookup is the first of its key.
pub open spec fn is_first(calls: Seq<Lookup>, i: int) -> bool {
    forall|j: int| 0 <= j < i ==> !same_key(#[trigger] calls[j], calls[i])
}

/// How many different keys of a field are among the first `n` lookups.
pub open spec fn different_keys(calls: Seq<Lookup>, field_id: u32, n: int) -> int
    decreases n,
{
    if n <= 0 {
        0
    } else {
        different_keys(calls, field_id, n - 1) + (if calls[n - 1].field_id == field_id && is_first(
            calls,
            n - 1,
        ) {
            1int
        } else {
            0int
        })
    }
}

/// Whether these lookups were made one after the other in a dictionary that
/// had no texts and no ids, with these results. Between two lookups commits
/// may have begun, but none of their texts was forgotten.
pub open spec fn looked_up<'a, W: Fn(Vec<u8>, Vec<u8>) -> Vec<Vec<ParentEntryV3>>>(
    calls: Seq<Lookup>,
    before: Seq<SfxDictionary<'a>>,
    after: Seq<SfxDictionary<'a>>,
    walk: W,
    results: Seq<(u64, bool)>,
) -> bool {
    &&& before.len() == calls.len()
    &&& after.len() == calls.len()
    &&& results.len() == calls.len()
    &&& calls.len() > 0 ==> before[0].shared.next().len() == 0 && before[0].shared.epochs().len()
        == 0
    &&& forall|i: int|
        0 <= i < calls.len() ==> {
            &&& (#[trigger] before[i]).wf()
            &&& before[i].fields@.len() == 0
            &&& i > 0 ==> before[i].shared.next() == after[i - 1].shared.next()
                && before[i].shared.epochs() == after[i - 1].shared.epochs()
        }
    &&& forall|i: int|
        0 <= i < calls.len() ==> dictionary::mint_outcome(
            before[i],
            after[i],
            (#[trigger] calls[i]).field_id,
            calls[i].key,
            calls[i].key_hash,
            calls[i].filter_hash,
            calls[i].text,
            calls[i].meta,
            walk,
            results[i],
        )
}

/// Whether a result is that of its lookup: a key looked up for the first time
/// gets the next id of its field, and every later lookup of it gives that id.
pub open spec fn answered(calls: Seq<Lookup>, results: Seq<(u64, bool)>, i: int) -> bool {
    &&& is_first(calls, i) ==> results[i] == (
        different_keys(calls, calls[i].field_id, i) as u64,
        true,
    )
    &&& forall|j: int|
        0 <= j < i && same_key(#[trigger] calls[j], calls[i]) ==> results[i] == (results[j].0, false)
}

proof fn lemma_few_keys(calls: Seq<Lookup>, field_id: u32, n: int)
    requires
        0 <= n,
    ensures
        0 <= different_keys(calls, field_id, n) <= n,
    decreases n,
{
    if n > 0 {
        lemma_few_keys(calls, field_id, n - 1);
    }
}

/// The ids that lookups in an empty dictionary give, key by key.
proof fn lemma_answered<'a, W: Fn(Vec<u8>, Vec<u8>) -> Vec<Vec<ParentEntryV3>>>(
    calls: Seq<Lookup>,
    before: Seq<SfxDictionary<'a>>,
    after: Seq<SfxDictionary<'a>>,
    walk: W,
    results: Seq<(u64, bool)>,
    n: int,
)
    requires
        looked_up(calls, before, after, walk, results),
        calls.len() < u64::MAX,
        0 <= n < calls.len(),
    ensures
        forall|i: int| 0 <= i <= n ==> #[trigger] answered(calls, results, i),
        forall|f: u32| #[trigger]
            dictionary::counter(after[n].shared.next(), f) == different_keys(calls, f, n + 1),
        forall|j: int|
            0 <= j <= n ==> dictionary_pending::pending_id(
                after[n].shared.epochs(),
                (#[trigger] calls[j]).field_id,
                encode_utf8(calls[j].key),
            ) == Some(results[j].0),
        forall|f: u32, k: Seq<u8>|
            (forall|j: int|
                0 <= j <= n ==> !((#[trigger] calls[j]).field_id == f && encode_utf8(calls[j].key)
                    == k)) ==> #[trigger] dictionary_pending::pending_id(
                after[n].shared.epochs(),
                f,
                k,
            ) is None,
    decreases n,
{
    let b = before[n];
    let a = after[n];
    let c = calls[n];
    let key = encode_utf8(c.key);
    let r = results[n];
    assert(b.wf());
    b.shared.lemma_pending_whole();
    assert(dictionary::field_files(b.fields@, c.field_id) is None);
    let s = b.shared;
    assert forall|x: Seq<char>, y: Seq<char>| #[trigger] encode_utf8(x) == #[trigger] encode_utf8(
        y,
    ) implies x == y by {
        text::lemma_encode_injective(x, y);
    }
    if n > 0 {
        lemma_answered(calls, before, after, walk, results, n - 1);
    } else {
        assert forall|f: u32| #[trigger] dictionary::counter(s.next(), f) == 0 by {}
    }
    assert forall|f: u32| #[trigger] dictionary::counter(s.next(), f) == different_keys(calls, f, n) by {
        if n > 0 {
            assert(dictionary::counter(after[n - 1].shared.next(), f) == different_keys(calls, f, n));
        }
    }
    assert(dictionary::mint_outcome(
        b,
        a,
        c.field_id,
        c.key,
        c.key_hash,
        c.filter_hash,
        c.text,
        c.meta,
        walk,
        r,
    ));
    let (chain, walked) = choose|chain: Seq<Filter>, walked: Option<u64>|
        #[trigger] dictionary::ready_and_walked(
            s,
            c.field_id,
            None,
            chain,
            walk,
            c.filter_hash,
            c.text,
            c.meta,
            walked,
        ) && r == dictionary::settled(
            walked,
            dictionary_pending::pending_id(s.epochs(), c.field_id, key),
            dictionary::counter(s.next(), c.field_id),
        );
    assert(walked is None);
    lemma_few_keys(calls, c.field_id, n);
    if is_first(calls, n) {
        assert(dictionary_pending::pending_id(s.epochs(), c.field_id, key) is None) by {
            if n > 0 {
                assert forall|j: int| 0 <= j <= n - 1 implies !((#[trigger] calls[j]).field_id == c.field_id
                    && encode_utf8(calls[j].key) == key) by {
                    assert(!same_key(calls[j], calls[n]));
                }
            }
        }
        assert(r == (dictionary::counter(s.next(), c.field_id), true));
        dictionary_pending::minted_text_is_found(s.epochs(), s.now(), c.field_id, key, r.0);
        assert forall|f: u32, k: Seq<u8>| f != c.field_id || k != key implies #[trigger]
            dictionary_pending::pending_id(a.shared.epochs(), f, k)
                == dictionary_pending::pending_id(s.epochs(), f, k) by {
            dictionary_pending::minting_keeps_other_texts(
                s.epochs(),
                s.now(),
                c.field_id,
                key,
                r.0,
                f,
                k,
            );
        }
    } else {
        let j = choose|j: int| 0 <= j < n && same_key(#[trigger] calls[j], calls[n]);
        assert(dictionary_pending::pending_id(
            after[n - 1].shared.epochs(),
            calls[j].field_id,
            encode_utf8(calls[j].key),
        ) == Some(results[j].0));
        assert(r == (results[j].0, false));
    }
    assert forall|f: u32| #[trigger] dictionary::counter(a.shared.next(), f) == different_keys(
        calls,
        f,
        n + 1,
    ) by {
        assert(dictionary::counter(s.next(), f) == different_keys(calls, f, n));
        if is_first(calls, n) {
            dictionary::ids_are_counted_up(s.next(), c.field_id, f);
        }
    }
    assert forall|j: int| 0 <= j <= n implies dictionary_pending::pending_id(
        a.shared.epochs(),
        (#[trigger] calls[j]).field_id,
        encode_utf8(calls[j].key),
    ) == Some(results[j].0) by {
        if j < n {
            assert(dictionary_pending::pending_id(
                s.epochs(),
                calls[j].field_id,
                encode_utf8(calls[j].key),
            ) == Some(results[j].0));
            if is_first(calls, n) {
                assert(!same_key(calls[j], calls[n]));
            }
        }
    }
    assert forall|f: u32, k: Seq<u8>|
        (forall|j: int|
            0 <= j <= n ==> !((#[trigger] calls[j]).field_id == f && encode_utf8(calls[j].key)
                == k)) implies #[trigger] dictionary_pending::pending_id(a.shared.epochs(), f, k) is None by {
        assert(!(calls[n].field_id == f && encode_utf8(calls[n].key) == k));
        if n > 0 {
            assert(forall|j: int|
                0 <= j <= n - 1 ==> !((#[trigger] calls[j]).field_id == f && encode_utf8(
                    calls[j].key,
                ) == k));
            assert(dictionary_pending::pending_id(after[n - 1].shared.epochs(), f, k) is None);
        }
    }
    assert(answered(calls, results, n)) by {
        assert forall|j: int| 0 <= j < n && same_key(#[trigger] calls[j], calls[n]) implies results[n]
            == (results[j].0, false) by {
            assert(dictionary_pending::pending_id(
                after[n - 1].shared.epochs(),
                calls[j].field_id,
                encode_utf8(calls[j].key),
            ) == Some(results[j].0));
        }
    }
    assert forall|i: int| 0 <= i <= n implies #[trigger] answered(calls, results, i) by {
        if i < n {
        }
    }
}

/// Law: in a dictionary that starts empty, the first lookup of a key in a field
/// gives the next of the ids 0, 1, 2 and so on of that field, and every later
/// one the same id, which is not new, whatever hashes are passed and whatever
/// is looked up in between.
pub proof fn each_key_is_minted_once<'a, W: Fn(Vec<u8>, Vec<u8>) -> Vec<Vec<ParentEntryV3>>>(
    calls: Seq<Lookup>,
    before: Seq<SfxDictionary<'a>>,
    after: Seq<SfxDictionary<'a>>,
    walk: W,
    results: Seq<(u64, bool)>,
    i: int,
)
    requires
        looked_up(calls, before, after, walk, results),
        calls.len() < u64::MAX,
        0 <= i < calls.len(),
    ensures
        answered(calls, results, i),
{
    lemma_answered(calls, before, after, walk, results, i);
}

proof fn lemma_keys_grow(calls: Seq<Lookup>, field_id: u32, m: int, n: int)
    requires
        0 <= m <= n,
    ensures
        different_keys(calls, field_id, m) <= different_keys(calls, field_id, n),
    decreases n,
{
    if m < n {
        lemma_keys_grow(calls, field_id, m, n - 1);
    }
}

/// Law: different keys of a field have different ids.
pub proof fn different_keys_get_different_ids<
    'a,
    W: Fn(Vec<u8>, Vec<u8>) -> Vec<Vec<ParentEntryV3>>,
>(
    calls: Seq<Lookup>,
    before: Seq<SfxDictionary<'a>>,
    after: Seq<SfxDictionary<'a>>,
    walk: W,
    results: Seq<(u64, bool)>,
    i: int,
    j: int,
)
    requires
        looked_up(calls, before, after, walk, results),
        calls.len() < u64::MAX,
        0 <= i < j < calls.len(),
        is_first(calls, i),
        is_first(calls, j),
        calls[i].field_id == calls[j].field_id,
    ensures
        results[i].0 < results[j].0,
{
    each_key_is_minted_once(calls, before, after, walk, results, i);
    each_key_is_minted_once(calls, before, after, walk, results, j);
    lemma_keys_grow(calls, calls[i].field_id, i + 1, j);
    lemma_few_keys(calls, calls[i].field_id, i);
    lemma_few_keys(calls, calls[i].field_id, j);
}

} // verus!
