//! A filter in front of the lookups of a dictionary: it says of a key that it
//! was surely never inserted, or that it may have been.
//!
//! A chain of filters, each of twice the capacity of the one before. A key is
//! known by two hashes, from which its bits follow.

use vstd::prelude::*;

use rustc_hash::FxHasher;
use std::hash::Hasher;

verus! {

/// Bits per key.
pub const BITS_PER_KEY: u64 = 10;

/// Bits a key sets.
pub const HASHES: u64 = 7;

/// Keys the first filter of a chain takes.
pub const FIRST_CAPACITY: u64 = 262144;

/// A filter: its bits, how many of them are used, how many keys it takes, and
/// how many it has taken.
#[verifier::ext_equal]
pub struct Filter {
    /// The bits.
    pub bits: Seq<bool>,
    /// How many of them are used.
    pub nbits: u64,
    /// How many keys it takes.
    pub capacity: u64,
    /// How many keys it has taken.
    pub inserted: u64,
}

/// The bit that probe `i` of a key reads.
pub open spec fn probe(h1: u64, h2: u64, i: u64, nbits: u64) -> int {
    (h1.wrapping_add(i.wrapping_mul(h2)) % nbits) as int
}

/// The bits with the first `k` probes of a key set.
pub open spec fn with_probes(bits: Seq<bool>, h1: u64, h2: u64, nbits: u64, k: int) -> Seq<bool>
    decreases k,
{
    if k <= 0 {
        bits
    } else {
        with_probes(bits, h1, h2, nbits, k - 1).update(probe(h1, h2, (k - 1) as u64, nbits), true)
    }
}

/// How many bits a filter for `capacity` keys uses.
pub open spec fn bits_for(capacity: u64) -> int {
    if capacity * BITS_PER_KEY < 64 {
        64
    } else {
        capacity * BITS_PER_KEY
    }
}

/// A filter that has taken no key.
pub open spec fn empty_filter(capacity: u64) -> Filter {
    Filter {
        bits: Seq::new((64 * ((bits_for(capacity) + 63) / 64)) as nat, |i: int| false),
        nbits: bits_for(capacity) as u64,
        capacity,
        inserted: 0,
    }
}

impl Filter {
    /// Whether the filter's bits are there.
    pub open spec fn sound(self) -> bool {
        0 < self.nbits <= self.bits.len()
    }

    /// Whether every bit of a key is set.
    pub open spec fn has(self, h1: u64, h2: u64) -> bool {
        forall|i: u64| i < HASHES ==> self.bits[#[trigger] probe(h1, h2, i, self.nbits)]
    }

    /// With a key taken.
    pub open spec fn with(self, h1: u64, h2: u64) -> Filter {
        Filter {
            bits: with_probes(self.bits, h1, h2, self.nbits, HASHES as int),
            inserted: if self.inserted < u64::MAX {
                (self.inserted + 1) as u64
            } else {
                self.inserted
            },
            ..self
        }
    }

    /// Whether no more keys are taken.
    pub open spec fn is_full(self) -> bool {
        self.inserted >= self.capacity
    }
}

/// Whether a filter of the chain has a key.
pub open spec fn found(chain: Seq<Filter>, h1: u64, h2: u64) -> bool {
    exists|k: int| 0 <= k < chain.len() && (#[trigger] chain[k]).has(h1, h2)
}

/// Whether a filter of twice the capacity has a number of bits and words that
/// can be counted.
pub open spec fn can_double(capacity: u64) -> bool {
    &&& 2 * capacity * BITS_PER_KEY + 63 <= u64::MAX
    &&& 2 * capacity * BITS_PER_KEY / 64 < usize::MAX
}

/// The chain with a key: in the last filter, or in a new one of twice its
/// capacity where it is full, as long as there can be one.
pub open spec fn after_insert(chain: Seq<Filter>, h1: u64, h2: u64) -> Seq<Filter> {
    let last = chain.last();
    if last.is_full() && can_double(last.capacity) {
        chain.push(empty_filter((2 * last.capacity) as u64).with(h1, h2))
    } else {
        chain.update(chain.len() - 1, last.with(h1, h2))
    }
}

/// The second hash of a key, from the first.
pub open spec fn second_hash(h1: u64) -> u64 {
    let a = h1 ^ 0x9E37_79B9_7F4A_7C15u64;
    let b = (a ^ (a >> 33u64)).wrapping_mul(0xff51_afd7_ed55_8ccdu64);
    let c = (b ^ (b >> 33u64)).wrapping_mul(0xc4ce_b9fe_1a85_ec53u64);
    (c ^ (c >> 33u64)) | 1u64
}

proof fn lemma_probes(bits: Seq<bool>, h1: u64, h2: u64, nbits: u64, k: int)
    requires
        0 < nbits <= bits.len(),
        0 <= k <= HASHES,
    ensures
        with_probes(bits, h1, h2, nbits, k).len() == bits.len(),
        forall|i: int| 0 <= i < bits.len() && #[trigger] bits[i] ==> with_probes(bits, h1, h2, nbits, k)[i],
        forall|i: u64| i < k ==> with_probes(bits, h1, h2, nbits, k)[#[trigger] probe(h1, h2, i, nbits)],
    decreases k,
{
    if k > 0 {
        lemma_probes(bits, h1, h2, nbits, k - 1);
    }
}

/// A key that was inserted is found.
pub proof fn inserted_key_is_found(chain: Seq<Filter>, h1: u64, h2: u64)
    requires
        chain.len() > 0,
        chain.last().sound(),
    ensures
        found(after_insert(chain, h1, h2), h1, h2),
{
    let last = chain.last();
    let f = if last.is_full() && can_double(last.capacity) {
        empty_filter((2 * last.capacity) as u64)
    } else {
        last
    };
    lemma_probes(f.bits, h1, h2, f.nbits, HASHES as int);
    let after = after_insert(chain, h1, h2);
    assert(after[after.len() - 1].has(h1, h2));
}

/// A key that is found stays found whatever is inserted after it: the filter
/// never says of an inserted key that it was not.
pub proof fn found_keys_stay_found(chain: Seq<Filter>, h1: u64, h2: u64, g1: u64, g2: u64)
    requires
        chain.len() > 0,
        forall|k: int| 0 <= k < chain.len() ==> (#[trigger] chain[k]).sound(),
        found(chain, g1, g2),
    ensures
        found(after_insert(chain, h1, h2), g1, g2),
{
    let k = choose|k: int| 0 <= k < chain.len() && (#[trigger] chain[k]).has(g1, g2);
    let after = after_insert(chain, h1, h2);
    let f = chain[k];
    lemma_probes(f.bits, h1, h2, f.nbits, HASHES as int);
    assert(after[k].has(g1, g2)) by {
        assert forall|i: u64| i < HASHES implies after[k].bits[#[trigger] probe(
            g1,
            g2,
            i,
            after[k].nbits,
        )] by {
            assert(f.bits[probe(g1, g2, i, f.nbits)]);
        }
    }
}

/// Bit `b` of the words.
spec fn bit_at(words: Seq<u64>, b: int) -> bool {
    words[b / 64] & (1u64 << ((b % 64) as u64)) != 0
}

struct Bloom {
    words: Vec<u64>,
    nbits: u64,
    capacity: u64,
    inserted: u64,
}

impl Bloom {
    spec fn filter(&self) -> Filter {
        Filter {
            bits: Seq::new((64 * self.words@.len()) as nat, |b: int| bit_at(self.words@, b)),
            nbits: self.nbits,
            capacity: self.capacity,
            inserted: self.inserted,
        }
    }

    fn with_capacity(capacity: u64) -> (r: Self)
        requires
            capacity * BITS_PER_KEY + 63 <= u64::MAX,
            capacity * BITS_PER_KEY / 64 < usize::MAX,
        ensures
            r.filter() == empty_filter(capacity),
            r.filter().sound(),
    {
        let asked: u64 = capacity * BITS_PER_KEY;
        let nbits: u64 = if asked < 64 {
            64
        } else {
            asked
        };
        let n: usize = ((nbits + 63) / 64) as usize;
        let mut words: Vec<u64> = Vec::new();
        while words.len() < n
            invariant
                words@.len() <= n,
                forall|i: int| 0 <= i < words@.len() ==> #[trigger] words@[i] == 0,
            decreases n - words@.len(),
        {
            words.push(0);
        }
        let r = Bloom { words, nbits, capacity, inserted: 0 };
        proof {
            assert forall|b: int| 0 <= b < 64 * words@.len() implies !bit_at(words@, b) by {
                let m = 1u64 << ((b % 64) as u64);
                assert(words@[b / 64] == 0);
                assert(0u64 & m == 0) by (bit_vector);
            }
            assert(r.filter() =~= empty_filter(capacity));
        }
        r
    }

    fn maybe_contains(&self, h1: u64, h2: u64) -> (r: bool)
        requires
            self.filter().sound(),
        ensures
            r == self.filter().has(h1, h2),
    {
        let n: usize = self.words.len();
        let mut i: u64 = 0;
        while i < HASHES
            invariant
                i <= HASHES,
                n == self.words@.len(),
                self.filter().sound(),
                forall|j: u64|
                    j < i ==> self.filter().bits[#[trigger] probe(h1, h2, j, self.nbits)],
            decreases HASHES - i,
        {
            let bit: u64 = h1.wrapping_add(i.wrapping_mul(h2)) % self.nbits;
            assert(bit == probe(h1, h2, i, self.nbits));
            proof {
                lemma_below(h1.wrapping_add(i.wrapping_mul(h2)), self.nbits);
            }
            let set = self.words[(bit / 64) as usize] & (1u64 << (bit % 64)) != 0;
            assert(set == self.filter().bits[bit as int]);
            if !set {
                return false;
            }
            i += 1;
        }
        true
    }

    fn insert(&mut self, h1: u64, h2: u64)
        requires
            old(self).filter().sound(),
        ensures
            final(self).filter() == old(self).filter().with(h1, h2),
            final(self).filter().sound(),
    {
        let ghost first = self.filter().bits;
        let ghost nbits = self.nbits;
        let n: usize = self.words.len();
        let mut i: u64 = 0;
        while i < HASHES
            invariant
                i <= HASHES,
                self.nbits == nbits,
                self.capacity == old(self).capacity,
                self.inserted == old(self).inserted,
                self.words@.len() == n,
                0 < nbits <= 64 * n,
                first.len() == 64 * n,
                self.filter().bits == with_probes(first, h1, h2, nbits, i as int),
            decreases HASHES - i,
        {
            let ghost before = self.filter().bits;
            let ghost old_words = self.words@;
            let bit: u64 = h1.wrapping_add(i.wrapping_mul(h2)) % self.nbits;
            proof {
                lemma_below(h1.wrapping_add(i.wrapping_mul(h2)), self.nbits);
            }
            let at: usize = (bit / 64) as usize;
            let word: u64 = self.words[at];
            self.words[at] = word | (1u64 << (bit % 64));
            proof {
                assert forall|b: int| 0 <= b < 64 * n implies #[trigger] self.filter().bits[b]
                    == before.update(bit as int, true)[b] by {
                    assert(before[b] == bit_at(old_words, b));
                    if b / 64 == at {
                        let s = (b % 64) as u64;
                        let t = bit % 64;
                        lemma_or_bit(word, t, s);
                        assert(b == bit <==> s == t);
                    }
                }
                assert(self.filter().bits =~= before.update(bit as int, true));
            }
            i += 1;
        }
        if self.inserted < u64::MAX {
            self.inserted = self.inserted + 1;
        }
        proof {
            lemma_probes(first, h1, h2, nbits, HASHES as int);
            assert(self.filter() =~= old(self).filter().with(h1, h2));
        }
    }
}

proof fn lemma_below(x: u64, n: u64)
    requires
        n > 0,
    ensures
        x % n < n,
{
    assert(x % n < n) by (nonlinear_arith)
        requires
            n > 0,
    ;
}

proof fn lemma_or_bit(word: u64, t: u64, s: u64)
    requires
        t < 64,
        s < 64,
    ensures
        ((word | (1u64 << t)) & (1u64 << s) != 0) == (s == t || word & (1u64 << s) != 0),
{
    assert(((word | (1u64 << t)) & (1u64 << s) != 0) == (s == t || word & (1u64 << s) != 0))
        by (bit_vector)
        requires
            t < 64,
            s < 64,
    ;
}

/// The first hash of a key.
///
/// Calls `rustc_hash::FxHasher` on the bytes. Nothing is claimed of the value,
/// which differs with the machine.
#[verifier::external_body]
pub(crate) fn first_hash(key: &[u8]) -> (h: u64) {
    let mut h = FxHasher::default();
    h.write(key);
    h.finish()
}

/// Whether this is a first hash that the hasher gives the bytes of a key.
pub closed spec fn hash_of(key: Seq<u8>, h: u64) -> bool {
    exists|b: &[u8]| b@ == key && #[trigger] call_ensures(first_hash, (b,), h)
}

/// Whether equal keys get equal first hashes.
pub open spec fn hashes_agree() -> bool {
    forall|key: Seq<u8>, a: u64, b: u64|
        #[trigger] hash_of(key, a) && #[trigger] hash_of(key, b) ==> a == b
}

fn apply<F: Fn(&[u8]) -> u64>(f: F, key: &[u8]) -> (h: u64)
    requires
        call_requires(f, (key,)),
    ensures
        call_ensures(f, (key,), h),
{
    f(key)
}

/// Whether there can be a filter of twice the capacity.
fn doubles(capacity: u64) -> (r: bool)
    ensures
        r == can_double(capacity),
{
    if capacity > 922337203685477577 {
        return false;
    }
    20 * capacity / 64 < usize::MAX as u64
}

/// The chain of filters.
pub struct ScalableBloom {
    chain: Vec<Bloom>,
}

impl Default for ScalableBloom {
    fn default() -> (r: Self)
        ensures
            r.wf(),
            r.chain() == seq![empty_filter(FIRST_CAPACITY)],
    {
        Self::with_capacity(FIRST_CAPACITY)
    }
}

/// How many keys the filters took.
pub open spec fn total_inserted(chain: Seq<Filter>) -> int
    decreases chain.len(),
{
    if chain.len() == 0 {
        0
    } else {
        total_inserted(chain.drop_last()) + chain.last().inserted
    }
}

/// How many bytes the bits take.
pub open spec fn total_bytes(chain: Seq<Filter>) -> int
    decreases chain.len(),
{
    if chain.len() == 0 {
        0
    } else {
        total_bytes(chain.drop_last()) + chain.last().bits.len() / 8
    }
}

impl ScalableBloom {
    /// The filters.
    pub closed spec fn chain(&self) -> Seq<Filter> {
        Seq::new(self.chain@.len(), |k: int| self.chain@[k].filter())
    }

    /// There is a filter, and each has its bits.
    pub open spec fn wf(&self) -> bool {
        &&& self.chain().len() > 0
        &&& forall|k: int| 0 <= k < self.chain().len() ==> (#[trigger] self.chain()[k]).sound()
    }

    /// A chain whose first filter takes `capacity` keys, or the least number a
    /// first filter takes.
    pub fn with_capacity(capacity: u64) -> (r: Self)
        requires
            capacity * BITS_PER_KEY + 63 <= u64::MAX,
            capacity * BITS_PER_KEY / 64 < usize::MAX,
        ensures
            r.wf(),
            r.chain() == seq![
                empty_filter(
                    if capacity < FIRST_CAPACITY {
                        FIRST_CAPACITY
                    } else {
                        capacity
                    },
                ),
            ],
    {
        let first: u64 = if capacity < FIRST_CAPACITY {
            FIRST_CAPACITY
        } else {
            capacity
        };
        let mut chain: Vec<Bloom> = Vec::new();
        chain.push(Bloom::with_capacity(first));
        let r = ScalableBloom { chain };
        assert(r.chain() =~= seq![empty_filter(first)]);
        r
    }

    /// The two hashes of a key: the second follows from the first.
    pub fn hashes(key: &[u8]) -> (r: (u64, u64))
        ensures
            hash_of(key@, r.0),
            r.1 == second_hash(r.0),
    {
        let h1: u64 = apply(first_hash, key);
        (h1, Self::finalize(h1))
    }

    /// The second hash of a key, from the first.
    pub fn finalize(h1: u64) -> (h2: u64)
        ensures
            h2 == second_hash(h1),
    {
        let a: u64 = h1 ^ 0x9E37_79B9_7F4A_7C15u64;
        let b: u64 = (a ^ (a >> 33u64)).wrapping_mul(0xff51_afd7_ed55_8ccdu64);
        let c: u64 = (b ^ (b >> 33u64)).wrapping_mul(0xc4ce_b9fe_1a85_ec53u64);
        (c ^ (c >> 33u64)) | 1u64
    }

    /// Whether a key of these hashes may have been inserted.
    pub fn maybe_contains_hashed(&self, h1: u64, h2: u64) -> (r: bool)
        requires
            self.wf(),
        ensures
            r == found(self.chain(), h1, h2),
    {
        let mut k: usize = 0;
        while k < self.chain.len()
            invariant
                k <= self.chain@.len(),
                self.wf(),
                forall|j: int| 0 <= j < k ==> !(#[trigger] self.chain()[j]).has(h1, h2),
            decreases self.chain@.len() - k,
        {
            assert(self.chain()[k as int].sound());
            if self.chain[k].maybe_contains(h1, h2) {
                assert(self.chain()[k as int].has(h1, h2));
                return true;
            }
            k += 1;
        }
        false
    }

    /// Whether the key may have been inserted; false where it surely was not.
    pub fn maybe_contains(&self, key: &[u8]) -> (r: bool)
        requires
            self.wf(),
        ensures
            exists|h: u64| #[trigger]
                hash_of(key@, h) && r == found(self.chain(), h, second_hash(h)),
    {
        let (h1, h2) = Self::hashes(key);
        self.maybe_contains_hashed(h1, h2)
    }

    /// Inserts a key of these hashes.
    pub fn insert_hashed(&mut self, h1: u64, h2: u64)
        requires
            old(self).wf(),
        ensures
            final(self).wf(),
            final(self).chain() == after_insert(old(self).chain(), h1, h2),
    {
        let ghost before = self.chain();
        let n: usize = self.chain.len();
        let capacity: u64 = self.chain[n - 1].capacity;
        let full = self.chain[n - 1].inserted >= capacity;
        assert(before[n - 1] == self.chain@[n - 1].filter());
        assert(before.last() == before[n - 1]);
        if full && doubles(capacity) {
            let next: u64 = capacity * 2;
            let mut f = Bloom::with_capacity(next);
            f.insert(h1, h2);
            self.chain.push(f);
        } else {
            assert(before[n - 1].sound());
            self.chain[n - 1].insert(h1, h2);
        }
        proof {
            assert(self.chain() =~= after_insert(before, h1, h2));
            assert forall|k: int| 0 <= k < self.chain().len() implies (#[trigger] self.chain()[k]).sound() by {
                if k < before.len() {
                    assert(before[k].sound());
                }
            }
        }
    }

    /// Inserts a key.
    pub fn insert(&mut self, key: &[u8])
        requires
            old(self).wf(),
        ensures
            final(self).wf(),
            exists|h: u64| #[trigger]
                hash_of(key@, h) && final(self).chain() == after_insert(
                    old(self).chain(),
                    h,
                    second_hash(h),
                ),
    {
        let (h1, h2) = Self::hashes(key);
        self.insert_hashed(h1, h2);
    }

    /// Keys inserted, and bytes held.
    pub fn stats(&self) -> (r: (u64, usize))
        requires
            total_inserted(self.chain()) <= u64::MAX,
            total_bytes(self.chain()) <= usize::MAX,
        ensures
            r.0 == total_inserted(self.chain()),
            r.1 == total_bytes(self.chain()),
    {
        let ghost all = self.chain();
        let mut keys: u64 = 0;
        let mut size: usize = 0;
        let mut k: usize = 0;
        assert(all.take(0) =~= Seq::<Filter>::empty());
        while k < self.chain.len()
            invariant
                k <= self.chain@.len(),
                all == self.chain(),
                all.len() == self.chain@.len(),
                total_inserted(all) <= u64::MAX,
                total_bytes(all) <= usize::MAX,
                keys == total_inserted(all.take(k as int)),
                size == total_bytes(all.take(k as int)),
            decreases self.chain@.len() - k,
        {
            let b = &self.chain[k];
            proof {
                let t = all.take(k + 1);
                assert(t.drop_last() =~= all.take(k as int));
                assert(t.last() == b.filter());
                lemma_total_mono(all, k + 1);
            }
            keys = keys + b.inserted;
            size = size + b.words.len() * 8;
            k += 1;
        }
        assert(all.take(k as int) =~= all);
        (keys, size)
    }
}

proof fn lemma_total_mono(chain: Seq<Filter>, k: int)
    requires
        0 <= k <= chain.len(),
    ensures
        total_inserted(chain.take(k)) <= total_inserted(chain),
        total_bytes(chain.take(k)) <= total_bytes(chain),
    decreases chain.len(),
{
    if k < chain.len() {
        lemma_total_mono(chain.drop_last(), k);
        assert(chain.drop_last().take(k) =~= chain.take(k));
    } else {
        assert(chain.take(k) =~= chain);
    }
}

/// The chain after keys of these first hashes were inserted.
pub open spec fn after_all(chain: Seq<Filter>, hashes: Seq<u64>) -> Seq<Filter>
    decreases hashes.len(),
{
    if hashes.len() == 0 {
        chain
    } else {
        after_insert(
            after_all(chain, hashes.drop_last()),
            hashes.last(),
            second_hash(hashes.last()),
        )
    }
}

/// Whether every filter's bits are there.
pub open spec fn sound(chain: Seq<Filter>) -> bool {
    chain.len() > 0 && forall|k: int| 0 <= k < chain.len() ==> (#[trigger] chain[k]).sound()
}

/// Whether these are first hashes of the keys, one by one.
pub open spec fn hashes_of(keys: Seq<Seq<u8>>, hashes: Seq<u64>) -> bool {
    hashes.len() == keys.len() && forall|i: int|
        0 <= i < keys.len() ==> hash_of(keys[i], #[trigger] hashes[i])
}

/// A chain keeps its bits when a key is inserted.
pub proof fn inserting_keeps_a_chain_sound(chain: Seq<Filter>, h1: u64, h2: u64)
    requires
        sound(chain),
    ensures
        sound(after_insert(chain, h1, h2)),
{
    let last = chain.last();
    assert(last.sound());
    let f = if last.is_full() && can_double(last.capacity) {
        empty_filter((2 * last.capacity) as u64)
    } else {
        last
    };
    lemma_probes(f.bits, h1, h2, f.nbits, HASHES as int);
    let after = after_insert(chain, h1, h2);
    assert forall|k: int| 0 <= k < after.len() implies (#[trigger] after[k]).sound() by {
        if k < chain.len() {
            assert(chain[k].sound());
        }
    }
}

/// Law: of keys that were inserted one after the other, each is found.
pub proof fn inserted_keys_are_found(chain: Seq<Filter>, hashes: Seq<u64>, i: int)
    requires
        sound(chain),
        0 <= i < hashes.len(),
    ensures
        sound(after_all(chain, hashes)),
        found(after_all(chain, hashes), hashes[i], second_hash(hashes[i])),
    decreases hashes.len(),
{
    let rest = hashes.drop_last();
    let h = hashes.last();
    lemma_all_sound(chain, rest);
    inserting_keeps_a_chain_sound(after_all(chain, rest), h, second_hash(h));
    if i == hashes.len() - 1 {
        inserted_key_is_found(after_all(chain, rest), h, second_hash(h));
    } else {
        inserted_keys_are_found(chain, rest, i);
        found_keys_stay_found(
            after_all(chain, rest),
            h,
            second_hash(h),
            hashes[i],
            second_hash(hashes[i]),
        );
    }
}

proof fn lemma_all_sound(chain: Seq<Filter>, hashes: Seq<u64>)
    requires
        sound(chain),
    ensures
        sound(after_all(chain, hashes)),
    decreases hashes.len(),
{
    if hashes.len() > 0 {
        lemma_all_sound(chain, hashes.drop_last());
        inserting_keeps_a_chain_sound(
            after_all(chain, hashes.drop_last()),
            hashes.last(),
            second_hash(hashes.last()),
        );
    }
}

/// Law: a filter that a key was inserted in says that it may have the key,
/// where equal keys get equal hashes.
pub proof fn a_filter_has_what_it_was_given(
    chain: Seq<Filter>,
    keys: Seq<Seq<u8>>,
    hashes: Seq<u64>,
    i: int,
    h: u64,
)
    requires
        hashes_agree(),
        sound(chain),
        hashes_of(keys, hashes),
        0 <= i < keys.len(),
        hash_of(keys[i], h),
    ensures
        found(after_all(chain, hashes), h, second_hash(h)),
{
    assert(hash_of(keys[i], hashes[i]));
    inserted_keys_are_found(chain, hashes, i);
}

/// Law: a filter that nothing was inserted in says of every key that it surely
/// was not.
pub proof fn a_new_filter_has_nothing(capacity: u64, h1: u64, h2: u64)
    requires
        capacity * BITS_PER_KEY + 63 <= u64::MAX,
    ensures
        !found(seq![empty_filter(capacity)], h1, h2),
{
    let f = empty_filter(capacity);
    let chain = seq![f];
    if found(chain, h1, h2) {
        let k = choose|k: int| 0 <= k < chain.len() && (#[trigger] chain[k]).has(h1, h2);
        assert(chain[k] == f);
        assert(f.bits[probe(h1, h2, 0, f.nbits)]);
    }
}

} // verus!
