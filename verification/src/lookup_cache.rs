//! The ids found so far, by the hash of field and key: a table of pairs of
//! slots. What it gives is a proposal, to be checked against the texts.

use vstd::prelude::*;

verus! {

/// Slots of the table.
pub const LOOKUP_CACHE_SLOTS: usize = 4194304;

/// The hash a slot keeps: never 0, which marks an empty slot.
pub open spec fn slot_hash(key_hash: u64) -> u64 {
    if key_hash == 0 {
        1
    } else {
        key_hash
    }
}

/// The first slot of a hash.
pub open spec fn first_slot(key_hash: u64) -> int {
    slot_hash(key_hash) as int % (LOOKUP_CACHE_SLOTS as int)
}

/// The second slot of a hash: the other of the pair.
pub open spec fn second_slot(key_hash: u64) -> int {
    if first_slot(key_hash) % 2 == 0 {
        first_slot(key_hash) + 1
    } else {
        first_slot(key_hash) - 1
    }
}

/// The id kept under a hash.
pub open spec fn cached(keys: Seq<u64>, ids: Seq<u64>, key_hash: u64) -> Option<u64> {
    if keys[first_slot(key_hash)] == slot_hash(key_hash) {
        Some(ids[first_slot(key_hash)])
    } else if keys[second_slot(key_hash)] == slot_hash(key_hash) {
        Some(ids[second_slot(key_hash)])
    } else {
        None
    }
}

/// The slot an id is put in: the one that has the hash, else an empty one, the
/// first before the second, else the first.
pub open spec fn slot_for(keys: Seq<u64>, key_hash: u64) -> int {
    let a = first_slot(key_hash);
    let b = second_slot(key_hash);
    if keys[a] == slot_hash(key_hash) {
        a
    } else if keys[b] == slot_hash(key_hash) {
        b
    } else if keys[a] != 0 && keys[b] == 0 {
        b
    } else {
        a
    }
}

/// The hashes and ids of the slots after ids were put in, each under its hash,
/// in a table that was empty.
pub open spec fn after_inserts(history: Seq<(u64, u64)>) -> (Seq<u64>, Seq<u64>)
    decreases history.len(),
{
    if history.len() == 0 {
        (
            Seq::new(LOOKUP_CACHE_SLOTS as nat, |i: int| 0u64),
            Seq::new(LOOKUP_CACHE_SLOTS as nat, |i: int| 0u64),
        )
    } else {
        let (keys, ids) = after_inserts(history.drop_last());
        let i = slot_for(keys, history.last().0);
        (keys.update(i, slot_hash(history.last().0)), ids.update(i, history.last().1))
    }
}

/// The id put in last under a hash, if one was.
pub open spec fn last_under(history: Seq<(u64, u64)>, key_hash: u64) -> Option<u64>
    decreases history.len(),
{
    if history.len() == 0 {
        None
    } else if slot_hash(history.last().0) == slot_hash(key_hash) {
        Some(history.last().1)
    } else {
        last_under(history.drop_last(), key_hash)
    }
}

/// Each slot that is not empty has the id put in last under its hash, and no
/// hash is in two slots.
proof fn lemma_slots_are_last(history: Seq<(u64, u64)>)
    ensures
        ({
            let (keys, ids) = after_inserts(history);
            &&& keys.len() == LOOKUP_CACHE_SLOTS
            &&& ids.len() == LOOKUP_CACHE_SLOTS
            &&& forall|i: int|
                0 <= i < keys.len() && #[trigger] keys[i] != 0 ==> {
                    &&& i == first_slot(keys[i]) || i == second_slot(keys[i])
                    &&& last_under(history, keys[i]) == Some(ids[i])
                }
            &&& forall|h: u64|
                h != 0 ==> !(keys[#[trigger] first_slot(h)] == h && keys[second_slot(h)] == h)
        }),
    decreases history.len(),
{
    let (keys, ids) = after_inserts(history);
    if history.len() == 0 {
        assert(forall|i: int| 0 <= i < keys.len() ==> #[trigger] keys[i] == 0);
        assert forall|h: u64| h != 0 implies !(keys[#[trigger] first_slot(h)] == h
            && keys[second_slot(h)] == h) by {
            assert(0 <= first_slot(h) < LOOKUP_CACHE_SLOTS);
        }
    } else {
        lemma_slots_are_last(history.drop_last());
        let (keys0, ids0) = after_inserts(history.drop_last());
        let h = slot_hash(history.last().0);
        let i = slot_for(keys0, history.last().0);
        assert(first_slot(h) == first_slot(history.last().0));
        assert(second_slot(h) == second_slot(history.last().0));
        assert forall|j: int| 0 <= j < keys.len() && #[trigger] keys[j] != 0 implies {
            &&& j == first_slot(keys[j]) || j == second_slot(keys[j])
            &&& last_under(history, keys[j]) == Some(ids[j])
        } by {
            if j != i {
                assert(keys[j] == keys0[j]);
                if keys0[j] == h {
                    assert(keys0[first_slot(h)] == h || keys0[second_slot(h)] == h);
                    assert(j == i);
                }
            }
        }
        assert forall|g: u64| g != 0 implies !(keys[#[trigger] first_slot(g)] == g
            && keys[second_slot(g)] == g) by {
            assert(!(keys0[first_slot(g)] == g && keys0[second_slot(g)] == g));
        }
    }
}

/// Law: what is given for a hash is the id put in last under it: never an
/// earlier one, nor one of another hash.
pub proof fn given_ids_are_the_last(history: Seq<(u64, u64)>, key_hash: u64)
    ensures
        ({
            let (keys, ids) = after_inserts(history);
            cached(keys, ids, key_hash) matches Some(id) ==> last_under(history, key_hash) == Some(id)
        }),
{
    lemma_slots_are_last(history);
    let (keys, ids) = after_inserts(history);
    assert(0 <= first_slot(key_hash) < LOOKUP_CACHE_SLOTS);
    assert(0 <= second_slot(key_hash) < LOOKUP_CACHE_SLOTS);
    let h = slot_hash(key_hash);
    lemma_same_hash(history, h, key_hash);
    if keys[first_slot(key_hash)] == h {
        assert(keys[first_slot(key_hash)] != 0);
    } else if keys[second_slot(key_hash)] == h {
        assert(keys[second_slot(key_hash)] != 0);
    }
}

proof fn lemma_same_hash(history: Seq<(u64, u64)>, a: u64, b: u64)
    requires
        slot_hash(a) == slot_hash(b),
    ensures
        last_under(history, a) == last_under(history, b),
    decreases history.len(),
{
    if history.len() > 0 {
        lemma_same_hash(history.drop_last(), a, b);
    }
}

/// An id that was put in is given back until another takes its slot.
pub proof fn kept_id_is_given_back(keys: Seq<u64>, ids: Seq<u64>, key_hash: u64, id: u64)
    requires
        keys.len() == LOOKUP_CACHE_SLOTS,
        ids.len() == LOOKUP_CACHE_SLOTS,
    ensures
        ({
            let i = slot_for(keys, key_hash);
            cached(keys.update(i, slot_hash(key_hash)), ids.update(i, id), key_hash) == Some(id)
        }),
{
}

/// The table.
pub struct LookupCache {
    /// The hashes of the slots, 0 where one is empty.
    pub keys: Vec<u64>,
    /// The ids of the slots.
    pub ids: Vec<u64>,
    /// Lookups that found a slot.
    pub hits: u64,
    /// Lookups that found none.
    pub misses: u64,
    /// Hits whose id was not that of the text.
    pub unverified: u64,
}

impl Default for LookupCache {
    fn default() -> (r: Self)
        ensures
            r.wf(),
            (r.keys(), r.ids()) == after_inserts(Seq::empty()),
            forall|i: int| 0 <= i < r.keys().len() ==> #[trigger] r.keys()[i] == 0,
            r.hits == 0,
            r.misses == 0,
            r.unverified == 0,
    {
        Self::new()
    }
}

fn zeros(n: usize) -> (v: Vec<u64>)
    ensures
        v@.len() == n,
        forall|i: int| 0 <= i < n ==> #[trigger] v@[i] == 0,
{
    let mut v: Vec<u64> = Vec::new();
    while v.len() < n
        invariant
            v@.len() <= n,
            forall|i: int| 0 <= i < v@.len() ==> #[trigger] v@[i] == 0,
        decreases n - v@.len(),
    {
        v.push(0);
    }
    v
}

impl LookupCache {
    /// The hashes of the slots, 0 where one is empty.
    pub open spec fn keys(&self) -> Seq<u64> {
        self.keys@
    }

    /// The ids of the slots.
    pub open spec fn ids(&self) -> Seq<u64> {
        self.ids@
    }

    /// Every slot is there.
    pub open spec fn wf(&self) -> bool {
        self.keys().len() == LOOKUP_CACHE_SLOTS && self.ids().len() == LOOKUP_CACHE_SLOTS
    }

    /// An empty table.
    pub fn new() -> (r: Self)
        ensures
            r.wf(),
            (r.keys(), r.ids()) == after_inserts(Seq::empty()),
            forall|i: int| 0 <= i < r.keys().len() ==> #[trigger] r.keys()[i] == 0,
            r.hits == 0,
            r.misses == 0,
            r.unverified == 0,
    {
        let r = LookupCache {
            keys: zeros(LOOKUP_CACHE_SLOTS),
            ids: zeros(LOOKUP_CACHE_SLOTS),
            hits: 0,
            misses: 0,
            unverified: 0,
        };
        proof {
            assert(r.keys() =~= after_inserts(Seq::empty()).0);
            assert(r.ids() =~= after_inserts(Seq::empty()).1);
        }
        r
    }

    fn slots(key_hash: u64) -> (r: (usize, usize, u64))
        ensures
            r.0 == first_slot(key_hash),
            r.1 == second_slot(key_hash),
            r.2 == slot_hash(key_hash),
            r.0 < LOOKUP_CACHE_SLOTS,
            r.1 < LOOKUP_CACHE_SLOTS,
    {
        let h: u64 = if key_hash == 0 {
            1
        } else {
            key_hash
        };
        let a: usize = (h % 4194304) as usize;
        let b: usize = if a % 2 == 0 {
            a + 1
        } else {
            a - 1
        };
        (a, b, h)
    }

    /// The id last put in under this hash, if it is there still.
    pub fn get(&mut self, key_hash: u64) -> (r: Option<u64>)
        requires
            old(self).wf(),
        ensures
            final(self).wf(),
            r == cached(old(self).keys(), old(self).ids(), key_hash),
            final(self).keys() == old(self).keys(),
            final(self).ids() == old(self).ids(),
            final(self).hits == if r is Some {
                old(self).hits.wrapping_add(1)
            } else {
                old(self).hits
            },
            final(self).misses == if r is None {
                old(self).misses.wrapping_add(1)
            } else {
                old(self).misses
            },
            final(self).unverified == old(self).unverified,
    {
        let (a, b, h) = Self::slots(key_hash);
        if self.keys[a] == h {
            self.hits = self.hits.wrapping_add(1);
            return Some(self.ids[a]);
        }
        if self.keys[b] == h {
            self.hits = self.hits.wrapping_add(1);
            return Some(self.ids[b]);
        }
        self.misses = self.misses.wrapping_add(1);
        None
    }

    /// Puts an id in under this hash; another's may have to leave.
    pub fn insert(&mut self, key_hash: u64, id: u64)
        requires
            old(self).wf(),
        ensures
            final(self).wf(),
            final(self).keys() == old(self).keys().update(
                slot_for(old(self).keys(), key_hash),
                slot_hash(key_hash),
            ),
            final(self).ids() == old(self).ids().update(slot_for(old(self).keys(), key_hash), id),
            final(self).hits == old(self).hits,
            final(self).misses == old(self).misses,
            final(self).unverified == old(self).unverified,
    {
        let (a, b, h) = Self::slots(key_hash);
        let i: usize = if self.keys[a] == h {
            a
        } else if self.keys[b] == h {
            b
        } else if self.keys[a] != 0 && self.keys[b] == 0 {
            b
        } else {
            a
        };
        self.ids[i] = id;
        self.keys[i] = h;
    }

    /// Hits, misses and unverified hits since this was last asked.
    pub fn stats(&mut self) -> (r: (u64, u64, u64))
        requires
            old(self).wf(),
        ensures
            final(self).wf(),
            r == (old(self).hits, old(self).misses, old(self).unverified),
            final(self).keys() == old(self).keys(),
            final(self).ids() == old(self).ids(),
            final(self).hits == 0,
            final(self).misses == 0,
            final(self).unverified == 0,
    {
        let r = (self.hits, self.misses, self.unverified);
        self.hits = 0;
        self.misses = 0;
        self.unverified = 0;
        r
    }
}

/// Law: two hashes that start at the same slot are both kept: putting in the
/// second, while the other slot of the pair is free, takes nothing from the
/// first.
pub proof fn a_pair_of_slots_keeps_two(keys: Seq<u64>, ids: Seq<u64>, a: u64, b: u64, id: u64, x: u64)
    requires
        keys.len() == LOOKUP_CACHE_SLOTS,
        ids.len() == LOOKUP_CACHE_SLOTS,
        first_slot(a) == first_slot(b),
        slot_hash(a) != slot_hash(b),
        keys[first_slot(a)] == slot_hash(a),
        keys[second_slot(a)] == 0,
        ids[first_slot(a)] == x,
    ensures
        ({
            let i = slot_for(keys, b);
            let k = keys.update(i, slot_hash(b));
            let v = ids.update(i, id);
            &&& second_slot(a) != first_slot(a)
            &&& 0 <= second_slot(a) < LOOKUP_CACHE_SLOTS
            &&& cached(k, v, a) == Some(x)
            &&& cached(k, v, b) == Some(id)
        }),
{
    assert(0 <= first_slot(a) < LOOKUP_CACHE_SLOTS);
}

} // verus!
