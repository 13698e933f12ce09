//! Keys with numbers: each key is a tag and a run of bytes, and gets the
//! number of keys before it.
//!
//! The bytes of all keys stand in one arena; a hash table over their numbers
//! finds a key again.

use vstd::prelude::*;

use crate::bytes::{part, push_bytes, same_bytes};

use hashbrown::HashTable;
use rustc_hash::FxHasher;
use std::hash::Hasher;

verus! {

/// The keys, in the order of their numbers.
pub struct KeyStore {
    tags: Vec<u64>,
    arena: Vec<u8>,
    ends: Vec<usize>,
}

impl KeyStore {
    /// Where key `i` starts.
    spec fn start(&self, i: int) -> int {
        if i <= 0 {
            0
        } else {
            self.ends@[i - 1] as int
        }
    }

    /// The keys: tag and bytes.
    pub closed spec fn keys(&self) -> Seq<(u64, Seq<u8>)> {
        Seq::new(
            self.tags@.len(),
            |i: int|
                (self.tags@[i], self.arena@.subrange(self.start(i), self.ends@[i] as int)),
        )
    }

    /// Every key ends where the next one starts, the last at the arena's end.
    pub closed spec fn wf(&self) -> bool {
        &&& self.tags@.len() == self.ends@.len()
        &&& forall|i: int|
            0 <= i < self.ends@.len() ==> self.start(i) <= #[trigger] self.ends@[i]
                <= self.arena@.len()
        &&& self.ends@.len() > 0 ==> self.ends@.last() == self.arena@.len()
        &&& self.ends@.len() == 0 ==> self.arena@.len() == 0
    }

    /// No keys.
    fn new() -> (r: Self)
        ensures
            r.wf(),
            r.keys() == Seq::<(u64, Seq<u8>)>::empty(),
    {
        let r = KeyStore { tags: Vec::new(), arena: Vec::new(), ends: Vec::new() };
        assert(r.keys() =~= Seq::<(u64, Seq<u8>)>::empty());
        r
    }

    /// Number of keys.
    fn len(&self) -> (n: usize)
        ensures
            n == self.keys().len(),
    {
        self.tags.len()
    }

    /// The bytes of key `i`.
    fn bytes_of(&self, i: usize) -> (r: &[u8])
        requires
            self.wf(),
            i < self.keys().len(),
        ensures
            r@ == self.keys()[i as int].1,
    {
        let from: usize = if i == 0 {
            0
        } else {
            self.ends[i - 1]
        };
        assert(self.start(i as int) <= self.ends@[i as int] <= self.arena@.len());
        part(self.arena.as_slice(), from, self.ends[i])
    }

    /// Whether key `i` is this one.
    fn holds(&self, i: u32, tag: u64, key: &[u8]) -> (r: bool)
        requires
            self.wf(),
            i < self.keys().len(),
        ensures
            r == (self.keys()[i as int] == (tag, key@)),
    {
        self.tags[i as usize] == tag && same_bytes(self.bytes_of(i as usize), key)
    }

    /// Adds a key.
    fn push(&mut self, tag: u64, key: &[u8])
        requires
            old(self).wf(),
        ensures
            final(self).wf(),
            final(self).keys() == old(self).keys().push((tag, key@)),
    {
        let ghost n = self.tags@.len() as int;
        let ghost before = self.arena@;
        self.tags.push(tag);
        push_bytes(&mut self.arena, key);
        self.ends.push(self.arena.len());
        proof {
            assert forall|i: int| 0 <= i < self.ends@.len() implies self.start(i)
                <= #[trigger] self.ends@[i] <= self.arena@.len() by {
                if i < n {
                    assert(old(self).start(i) <= old(self).ends@[i] <= before.len());
                }
            }
            assert forall|i: int| 0 <= i < n implies #[trigger] self.keys()[i] == old(self).keys()[i] by {
                assert(old(self).start(i) <= old(self).ends@[i] <= before.len());
                assert(self.arena@.subrange(self.start(i), self.ends@[i] as int) =~= before.subrange(
                    self.start(i),
                    self.ends@[i] as int,
                ));
            }
            assert(self.arena@.subrange(before.len() as int, self.arena@.len() as int) =~= key@);
            assert(self.start(n) == before.len());
            assert(self.keys() =~= old(self).keys().push((tag, key@)));
        }
    }
}

/// Numbers of keys, found by the hash of the key.
#[verifier::external_body]
pub struct KeyTable {
    table: HashTable<(u64, u32)>,
}

/// The numbers in a table, each with the key it was put in under.
pub uninterp spec fn numbered(t: KeyTable) -> Map<u32, (u64, Seq<u8>)>;

/// An empty table.
///
/// Calls `hashbrown::HashTable::new`, which creates a table without entries.
#[verifier::external_body]
fn empty_table() -> (r: KeyTable)
    ensures
        numbered(r).dom() == Set::<u32>::empty(),
{
    KeyTable { table: HashTable::new() }
}

/// The number of a key, looked up by its hash.
///
/// Calls `rustc_hash::FxHasher`, which gives the same bytes the same hash
/// within a process, and `hashbrown::HashTable::find`, which tries every entry
/// that was put in under the given hash, and maybe others, and returns one that
/// the comparison accepts, or `None` if it accepts none of those tried.
#[verifier::external_body]
fn find_number(t: &KeyTable, keys: &KeyStore, tag: u64, key: &[u8]) -> (r: Option<u32>)
    requires
        keys.wf(),
        forall|i: u32|
            #[trigger] numbered(*t).dom().contains(i) ==> i < keys.keys().len()
                && keys.keys()[i as int] == numbered(*t)[i],
    ensures
        r matches Some(i) ==> numbered(*t).dom().contains(i) && numbered(*t)[i] == (tag, key@),
        r is None ==> forall|i: u32|
            #[trigger] numbered(*t).dom().contains(i) ==> numbered(*t)[i] != (tag, key@),
{
    let mut h = FxHasher::default();
    h.write_u64(tag);
    h.write(key);
    t.table.find(h.finish(), |e| keys.holds(e.1, tag, key)).map(|e| e.1)
}

/// Puts a number in under its key.
///
/// Calls `rustc_hash::FxHasher`, and `hashbrown::HashTable::insert_unique`,
/// which adds an entry under the given hash without looking for an equal one
/// and keeps the others; the hash is kept in the entry, so that an entry moves
/// under the hash it came with when the table grows.
#[verifier::external_body]
fn put_number(t: &mut KeyTable, number: u32, tag: u64, key: &[u8])
    requires
        !numbered(*old(t)).dom().contains(number),
    ensures
        numbered(*final(t)) == numbered(*old(t)).insert(number, (tag, key@)),
{
    let mut h = FxHasher::default();
    h.write_u64(tag);
    h.write(key);
    t.table.insert_unique(h.finish(), (h.finish(), number), |e| e.0);
}

/// Keys with numbers, each key once.
pub struct KeyIndex {
    store: KeyStore,
    table: KeyTable,
}

impl KeyIndex {
    /// The keys, in the order of their numbers.
    pub closed spec fn keys(&self) -> Seq<(u64, Seq<u8>)> {
        self.store.keys()
    }

    /// The table has the number of every key, and no key has two.
    pub closed spec fn wf(&self) -> bool {
        &&& self.store.wf()
        &&& self.store.keys().len() <= u32::MAX
        &&& self.store.keys().no_duplicates()
        &&& forall|i: u32|
            #[trigger] numbered(self.table).dom().contains(i) <==> i < self.store.keys().len()
        &&& forall|i: u32|
            #[trigger] numbered(self.table).dom().contains(i) ==> numbered(self.table)[i]
                == self.store.keys()[i as int]
    }

    /// No key stands twice, and the keys can be numbered.
    pub proof fn lemma_distinct(&self)
        requires
            self.wf(),
        ensures
            self.keys().no_duplicates(),
            self.keys().len() <= u32::MAX,
    {
    }

    /// No keys.
    pub fn new() -> (r: Self)
        ensures
            r.wf(),
            r.keys() == Seq::<(u64, Seq<u8>)>::empty(),
    {
        KeyIndex { store: KeyStore::new(), table: empty_table() }
    }

    /// Number of keys.
    pub fn len(&self) -> (n: usize)
        ensures
            n == self.keys().len(),
    {
        self.store.len()
    }

    /// The number of a key, if it has one.
    pub fn find(&self, tag: u64, key: &[u8]) -> (r: Option<u32>)
        requires
            self.wf(),
        ensures
            r is Some <==> self.keys().contains((tag, key@)),
            r matches Some(i) ==> i < self.keys().len() && self.keys()[i as int] == (tag, key@),
    {
        let r = find_number(&self.table, &self.store, tag, key);
        proof {
            if r is None && self.keys().contains((tag, key@)) {
                let k = choose|k: int| 0 <= k < self.keys().len() && self.keys()[k] == (tag, key@);
                assert(numbered(self.table).dom().contains(k as u32));
            }
        }
        r
    }

    /// Gives a new key the next number.
    pub fn push(&mut self, tag: u64, key: &[u8]) -> (number: u32)
        requires
            old(self).wf(),
            old(self).keys().len() < u32::MAX,
            !old(self).keys().contains((tag, key@)),
        ensures
            final(self).wf(),
            final(self).keys() == old(self).keys().push((tag, key@)),
            number == old(self).keys().len(),
    {
        let number: u32 = self.store.len() as u32;
        put_number(&mut self.table, number, tag, key);
        self.store.push(tag, key);
        proof {
            let before = old(self).keys();
            let now = self.keys();
            assert forall|i: int, j: int| 0 <= i < now.len() && 0 <= j < now.len() && i != j implies now[i]
                != now[j] by {
                if i < before.len() && j < before.len() {
                    assert(before[i] != before[j]);
                } else if i < before.len() {
                    assert(before.contains(before[i]));
                } else {
                    assert(before.contains(before[j]));
                }
            }
            assert forall|i: u32| #[trigger] numbered(self.table).dom().contains(i) <==> i
                < now.len() by {
                if i != number {
                    assert(numbered(old(self).table).dom().contains(i) <==> i < before.len());
                }
            }
            assert forall|i: u32| #[trigger] numbered(self.table).dom().contains(i) implies numbered(
                self.table,
            )[i] == now[i as int] by {
                if i != number {
                    assert(numbered(old(self).table).dom().contains(i));
                }
            }
        }
        number
    }
}

} // verus!
