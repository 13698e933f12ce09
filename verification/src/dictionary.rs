//! The dictionary of a shard: one text, one id, for all its segments.
//!
//! A token's id is looked for in the ids found before, in the parts of the
//! dictionary, and among the texts minted since the last commit; a token found
//! nowhere gets the next id of its field.

use vstd::prelude::*;
use vstd::string::*;
use vstd::utf8::*;

use crate::collector_v3;
use crate::collector_v3::TokenMetaV3;
use crate::dictionary_bloom;
use crate::dictionary_bloom::{FIRST_CAPACITY, Filter, ScalableBloom};
use crate::dictionary_lookup;
use crate::dictionary_lookup::{ParentEntryV3, fst_key, pick_token, same_text, want_overlap};
use crate::dictionary_names;
use crate::dictionary_names::{dictionary_file_name, pending_file_name};
use crate::dictionary_parts;
use crate::dictionary_parts::{ReadPart, open_fields};
use crate::dictionary_pending;
use crate::dictionary_pending::{Epoch, PendingTexts};
use crate::intern_key;
use crate::intern_key::intern_key;
use crate::lookup_cache;
use crate::lookup_cache::{LOOKUP_CACHE_SLOTS, LookupCache};
use crate::order;
use crate::order::sort;
use crate::termtexts_v3;
use crate::termtexts_v3::{IdEntry, TermMetaV3, TermTextsReaderV3, TextFile};

use rustc_hash::FxHasher;
use std::hash::{Hash, Hasher};

verus! {

/// The version of an index with a dictionary.
pub const DICTIONARY_SFX_VERSION: u8 = 4;

/// What is written of a dictionary besides its files.
#[derive(Debug, Clone)]
pub struct SfxDictionaryMeta {
    /// The live generations, ascending.
    pub generations: Vec<u64>,
    /// The number of the next generation.
    pub next_generation: u64,
    /// The next id of each field.
    pub next_ids: Vec<(u32, u64)>,
    /// The fields.
    pub field_ids: Vec<u32>,
    /// The segments whose files are not in a generation yet.
    pub pending_segments: Vec<String>,
}

/// The files of one part of a field.
#[derive(Debug, Clone)]
pub struct PartFiles {
    /// The suffixes and their parents.
    pub sfx: String,
    /// The texts.
    pub termtexts: String,
    /// The group index, which only a generation has.
    pub group_index: Option<String>,
}

/// The files of the `k`th part of a field: the generations come first, the
/// pending segments behind them.
pub open spec fn part_at(
    generations: Seq<u64>,
    pending: Seq<String>,
    field_id: u32,
    k: int,
) -> (Seq<char>, Seq<char>, Option<Seq<char>>) {
    if k < generations.len() {
        let g = generations[k];
        (
            dictionary_names::file_text(g, field_id, seq!['s', 'f', 'x']),
            dictionary_names::file_text(g, field_id, seq!['t', 'e', 'r', 'm', 't', 'e', 'x', 't', 's']),
            Some(dictionary_names::file_text(g, field_id, seq!['p', 'i', 'd', 'x'])),
        )
    } else {
        let u = pending[k - generations.len()]@;
        (
            dictionary_names::pair_text(u, field_id, seq!['n', 'e', 'w', 's', 'f', 'x']),
            dictionary_names::pair_text(u, field_id, seq!['n', 'e', 'w', 't', 'e', 'x', 't', 's']),
            None,
        )
    }
}

/// The names of a part's files.
pub open spec fn names_of(p: PartFiles) -> (Seq<char>, Seq<char>, Option<Seq<char>>) {
    (
        p.sfx@,
        p.termtexts@,
        match p.group_index {
            Some(g) => Some(g@),
            None => None,
        },
    )
}

impl SfxDictionaryMeta {
    /// The files of a field's parts, in the order in which they are asked.
    pub fn part_files(&self, field_id: u32) -> (out: Vec<PartFiles>)
        ensures
            out@.len() == self.generations@.len() + self.pending_segments@.len(),
            forall|k: int|
                0 <= k < out@.len() ==> names_of(#[trigger] out@[k]) == part_at(
                    self.generations@,
                    self.pending_segments@,
                    field_id,
                    k,
                ),
    {
        proof {
            reveal_strlit("sfx");
            reveal_strlit("termtexts");
            reveal_strlit("pidx");
            reveal_strlit("newsfx");
            reveal_strlit("newtexts");
            assert("sfx"@ =~= seq!['s', 'f', 'x']);
            assert("termtexts"@ =~= seq!['t', 'e', 'r', 'm', 't', 'e', 'x', 't', 's']);
            assert("pidx"@ =~= seq!['p', 'i', 'd', 'x']);
            assert("newsfx"@ =~= seq!['n', 'e', 'w', 's', 'f', 'x']);
            assert("newtexts"@ =~= seq!['n', 'e', 'w', 't', 'e', 'x', 't', 's']);
        }
        let mut out: Vec<PartFiles> = Vec::new();
        let mut i: usize = 0;
        while i < self.generations.len()
            invariant
                i <= self.generations@.len(),
                out@.len() == i,
                "sfx"@ == seq!['s', 'f', 'x'],
                "termtexts"@ == seq!['t', 'e', 'r', 'm', 't', 'e', 'x', 't', 's'],
                "pidx"@ == seq!['p', 'i', 'd', 'x'],
                forall|k: int|
                    0 <= k < i ==> names_of(#[trigger] out@[k]) == part_at(
                        self.generations@,
                        self.pending_segments@,
                        field_id,
                        k,
                    ),
            decreases self.generations@.len() - i,
        {
            let g: u64 = self.generations[i];
            out.push(
                PartFiles {
                    sfx: dictionary_file_name(g, field_id, "sfx"),
                    termtexts: dictionary_file_name(g, field_id, "termtexts"),
                    group_index: Some(dictionary_file_name(g, field_id, "pidx")),
                },
            );
            i += 1;
        }
        let n: usize = i;
        let mut j: usize = 0;
        while j < self.pending_segments.len()
            invariant
                j <= self.pending_segments@.len(),
                n == self.generations@.len(),
                out@.len() == n + j,
                "newsfx"@ == seq!['n', 'e', 'w', 's', 'f', 'x'],
                "newtexts"@ == seq!['n', 'e', 'w', 't', 'e', 'x', 't', 's'],
                forall|k: int|
                    0 <= k < n + j ==> names_of(#[trigger] out@[k]) == part_at(
                        self.generations@,
                        self.pending_segments@,
                        field_id,
                        k,
                    ),
            decreases self.pending_segments@.len() - j,
        {
            let u = self.pending_segments[j].as_str();
            out.push(
                PartFiles {
                    sfx: pending_file_name(u, field_id, "newsfx"),
                    termtexts: pending_file_name(u, field_id, "newtexts"),
                    group_index: None,
                },
            );
            j += 1;
        }
        out
    }
}

/// The next id of a field: 0 for one not seen yet.
pub open spec fn counter(next: Seq<(u32, u64)>, field_id: u32) -> u64
    decreases next.len(),
{
    if next.len() == 0 {
        0
    } else if next[0].0 == field_id {
        next[0].1
    } else {
        counter(next.drop_first(), field_id)
    }
}

/// The counters after an id of the field was given.
pub open spec fn counted_up(next: Seq<(u32, u64)>, field_id: u32) -> Seq<(u32, u64)>
    decreases next.len(),
{
    if next.len() == 0 {
        seq![(field_id, 1u64)]
    } else if next[0].0 == field_id {
        next.update(0, (field_id, (next[0].1 + 1) as u64))
    } else {
        seq![next[0]] + counted_up(next.drop_first(), field_id)
    }
}

/// The filter of a field.
pub open spec fn filter_of(filters: Seq<(u32, Seq<Filter>)>, field_id: u32) -> Option<Seq<Filter>>
    decreases filters.len(),
{
    if filters.len() == 0 {
        None
    } else if filters[0].0 == field_id {
        Some(filters[0].1)
    } else {
        filter_of(filters.drop_first(), field_id)
    }
}

/// Whether a stored shape is that of the token.
pub open spec fn same_shape(m: TermMetaV3, t: TokenMetaV3) -> bool {
    &&& m.is_word_stripped == t.is_word_stripped
    &&& if t.is_word_stripped {
        dictionary_lookup::less(m.own_len, m.sep_len) == dictionary_lookup::less(t.own_len, t.sep_len)
    } else {
        m.own_len == t.own_len && m.sep_len == t.sep_len && m.is_word_start == t.is_word_start
    }
}

/// Whether the texts say that the id is the token's.
pub open spec fn confirms(
    files: Option<Seq<TextFile>>,
    id: u64,
    text: Seq<char>,
    t: TokenMetaV3,
) -> bool {
    &&& id <= u32::MAX
    &&& files is Some
    &&& termtexts_v3::text_for(files->0, id as u32) == Some(text)
    &&& termtexts_v3::meta_for(files->0, id as u32) is Some
    &&& same_shape(termtexts_v3::meta_for(files->0, id as u32)->0, t)
}

/// The texts of one field.
pub struct DictionaryField<'a> {
    /// The texts of all parts as one reader, where they open.
    pub texts: Option<TermTextsReaderV3<'a>>,
}

/// Whether the dictionary has the field.
pub open spec fn has_field<'a>(fields: Seq<(u32, DictionaryField<'a>)>, field_id: u32) -> bool {
    exists|i: int| 0 <= i < fields.len() && (#[trigger] fields[i]).0 == field_id
}

/// The texts of a field, if the dictionary has it and they open.
pub open spec fn field_files<'a>(fields: Seq<(u32, DictionaryField<'a>)>, field_id: u32) -> Option<
    Seq<TextFile>,
>
    decreases fields.len(),
{
    if fields.len() == 0 {
        None
    } else if fields[0].0 == field_id {
        fields[0].1.files()
    } else {
        field_files(fields.drop_first(), field_id)
    }
}

/// Whether the texts of a field can be gone through: every entry has an id,
/// and every word owns its separators.
pub open spec fn usable(files: Seq<TextFile>) -> bool {
    &&& forall|k: int| 0 <= k < files.len() ==> (#[trigger] files[k]).identified()
    &&& forall|i: int|
        0 <= i < termtexts_v3::all_entries(files).len() ==> {
            let m = (#[trigger] termtexts_v3::all_entries(files)[i]).meta;
            m.is_word_stripped ==> m.own_len >= m.sep_len
        }
}

/// The hash of a field and a key.
///
/// Calls `rustc_hash::FxHasher` on both. Nothing is claimed of the value,
/// which differs with the machine.
#[verifier::external_body]
fn field_key_hash(field_id: u32, key: &str) -> (h: u64) {
    let mut h = FxHasher::default();
    field_id.hash(&mut h);
    key.hash(&mut h);
    h.finish()
}

/// Whether this is a hash that the hasher gives the field and the key.
pub closed spec fn field_hash_of(field_id: u32, key: Seq<char>, h: u64) -> bool {
    exists|k: &str| k@ == key && #[trigger] call_ensures(field_key_hash, (field_id, k), h)
}

fn apply<F: Fn(u32, &str) -> u64>(f: F, field_id: u32, key: &str) -> (h: u64)
    requires
        call_requires(f, (field_id, key)),
    ensures
        call_ensures(f, (field_id, key), h),
{
    f(field_id, key)
}

/// The key of a stored text, as bytes.
pub open spec fn entry_key(e: IdEntry) -> Seq<u8> {
    encode_utf8(
        intern_key::key_text(
            e.text,
            e.meta.is_word_stripped,
            e.meta.own_len,
            e.meta.sep_len,
            e.meta.is_word_start,
        ),
    )
}

/// The keys of all texts.
pub open spec fn stored_keys(files: Option<Seq<TextFile>>) -> Seq<Seq<u8>> {
    match files {
        Some(f) => Seq::new(
            termtexts_v3::all_entries(f).len(),
            |i: int| entry_key(termtexts_v3::all_entries(f)[i]),
        ),
        None => Seq::empty(),
    }
}

/// Hits, misses and unconfirmed hits after one more lookup of an id found
/// before.
pub open spec fn recalled(counts: (u64, u64, u64), known: bool, confirmed: bool) -> (u64, u64, u64) {
    if !known {
        (counts.0, counts.1.wrapping_add(1), counts.2)
    } else if confirmed {
        (counts.0.wrapping_add(1), counts.1, counts.2)
    } else {
        (counts.0.wrapping_add(1), counts.1, counts.2.wrapping_add(1))
    }
}

/// What all generations of a dictionary share.
pub struct DictionaryShared {
    next_ids: Vec<(u32, u64)>,
    pending: PendingTexts,
    epoch: u64,
    filters: Vec<(u32, ScalableBloom)>,
    cache: LookupCache,
}

impl DictionaryShared {
    /// The next id of each field.
    pub closed spec fn next(&self) -> Seq<(u32, u64)> {
        self.next_ids@
    }

    /// The pending texts.
    pub closed spec fn epochs(&self) -> Seq<Epoch> {
        self.pending.epochs()
    }

    /// The current epoch.
    pub closed spec fn now(&self) -> u64 {
        self.epoch
    }

    /// The filters of the fields.
    pub closed spec fn filters(&self) -> Seq<(u32, Seq<Filter>)> {
        Seq::new(self.filters@.len(), |i: int| (self.filters@[i].0, self.filters@[i].1.chain()))
    }

    /// The hashes of the ids found before.
    pub closed spec fn cache_keys(&self) -> Seq<u64> {
        self.cache.keys()
    }

    /// The ids found before.
    pub closed spec fn cache_ids(&self) -> Seq<u64> {
        self.cache.ids()
    }

    /// Lookups among the ids found before: hits, misses, and hits that the
    /// texts did not confirm.
    pub closed spec fn counts(&self) -> (u64, u64, u64) {
        (self.cache.hits, self.cache.misses, self.cache.unverified)
    }

    /// The pending texts, the filters and the ids found before are whole.
    pub closed spec fn wf(&self) -> bool {
        &&& self.pending.wf()
        &&& self.cache.wf()
        &&& forall|i: int| 0 <= i < self.filters@.len() ==> (#[trigger] self.filters@[i]).1.wf()
    }

    /// Every pending text has an id, and none stands twice in an epoch.
    pub proof fn lemma_pending_whole(&self)
        requires
            self.wf(),
        ensures
            forall|i: int|
                0 <= i < self.epochs().len() ==> (#[trigger] self.epochs()[i]).ids.len()
                    == self.epochs()[i].keys.len() && self.epochs()[i].keys.no_duplicates(),
    {
        self.pending.lemma_epochs();
    }

    /// Nothing minted; the fields go on from the given ids.
    pub fn new(next_ids: Vec<(u32, u64)>) -> (r: Self)
        ensures
            r.wf(),
            r.next() == next_ids@,
            r.epochs() == Seq::<Epoch>::empty(),
            r.now() == 1,
            r.filters() == Seq::<(u32, Seq<Filter>)>::empty(),
            forall|i: int| 0 <= i < r.cache_keys().len() ==> #[trigger] r.cache_keys()[i] == 0,
            r.cache_keys().len() == LOOKUP_CACHE_SLOTS,
            r.cache_ids().len() == LOOKUP_CACHE_SLOTS,
            (r.cache_keys(), r.cache_ids()) == lookup_cache::after_inserts(Seq::empty()),
            r.counts() == (0u64, 0u64, 0u64),
    {
        let r = DictionaryShared {
            next_ids,
            pending: PendingTexts::new(),
            epoch: 1,
            filters: Vec::new(),
            cache: LookupCache::new(),
        };
        assert(r.filters() =~= Seq::<(u32, Seq<Filter>)>::empty());
        r
    }

    /// Where a field's filter stands.
    fn find_filter(&self, field_id: u32) -> (r: Option<usize>)
        ensures
            r is Some <==> filter_of(self.filters(), field_id) is Some,
            r matches Some(i) ==> i < self.filters@.len() && self.filters@[i as int].0 == field_id
                && filter_of(self.filters(), field_id) == Some(self.filters@[i as int].1.chain())
                && forall|k: int| 0 <= k < i ==> (#[trigger] self.filters@[k]).0 != field_id,
    {
        let ghost all = self.filters();
        let mut i: usize = 0;
        assert(all.subrange(0, all.len() as int) =~= all);
        while i < self.filters.len()
            invariant
                i <= self.filters@.len(),
                all == self.filters(),
                all.len() == self.filters@.len(),
                forall|k: int| 0 <= k < i ==> (#[trigger] self.filters@[k]).0 != field_id,
                filter_of(all, field_id) == filter_of(
                    all.subrange(i as int, all.len() as int),
                    field_id,
                ),
            decreases self.filters@.len() - i,
        {
            let ghost t = all.subrange(i as int, all.len() as int);
            assert(t[0] == (self.filters@[i as int].0, self.filters@[i as int].1.chain()));
            assert(t.drop_first() =~= all.subrange(i + 1, all.len() as int));
            if self.filters[i].0 == field_id {
                return Some(i);
            }
            i += 1;
        }
        None
    }

    /// The next id of a field, which is given away.
    fn take_id(&mut self, field_id: u32) -> (id: u64)
        requires
            old(self).wf(),
            counter(old(self).next(), field_id) < u64::MAX,
        ensures
            final(self).wf(),
            id == counter(old(self).next(), field_id),
            final(self).next() == counted_up(old(self).next(), field_id),
            final(self).epochs() == old(self).epochs(),
            final(self).now() == old(self).now(),
            final(self).filters() == old(self).filters(),
            final(self).cache_keys() == old(self).cache_keys(),
            final(self).cache_ids() == old(self).cache_ids(),
            final(self).counts() == old(self).counts(),
    {
        let ghost all = self.next_ids@;
        let n: usize = self.next_ids.len();
        let mut i: usize = 0;
        assert(all.subrange(0, n as int) =~= all);
        assert(all.take(0) + counted_up(all, field_id) =~= counted_up(all, field_id));
        while i < n
            invariant
                i <= n,
                n == all.len(),
                all == self.next_ids@,
                *self == *old(self),
                self.wf(),
                counter(all, field_id) < u64::MAX,
                counter(all, field_id) == counter(all.subrange(i as int, n as int), field_id),
                counted_up(all, field_id) == all.take(i as int) + counted_up(
                    all.subrange(i as int, n as int),
                    field_id,
                ),
            decreases n - i,
        {
            let ghost t = all.subrange(i as int, n as int);
            assert(t[0] == all[i as int]);
            assert(t.drop_first() =~= all.subrange(i + 1, n as int));
            if self.next_ids[i].0 == field_id {
                let id: u64 = self.next_ids[i].1;
                self.next_ids[i] = (field_id, id + 1);
                proof {
                    assert(self.next_ids@ =~= all.take(i as int) + t.update(0, (field_id, (id + 1) as u64)));
                    assert(self.filters() =~= old(self).filters());
                }
                return id;
            }
            assert(all.take(i as int) + (seq![t[0]] + counted_up(t.drop_first(), field_id))
                =~= all.take(i + 1) + counted_up(all.subrange(i + 1, n as int), field_id));
            i += 1;
        }
        assert(all.subrange(n as int, n as int) =~= Seq::<(u32, u64)>::empty());
        self.next_ids.push((field_id, 1));
        proof {
            assert(self.next_ids@ =~= all.take(n as int) + seq![(field_id, 1u64)]);
            assert(self.filters() =~= old(self).filters());
        }
        0
    }

    /// The id proposed for a hash, where the texts confirm it.
    pub fn recall(
        &mut self,
        texts: Option<&TermTextsReaderV3<'_>>,
        key_hash: u64,
        text: &str,
        meta: &TokenMetaV3,
    ) -> (r: Option<u64>)
        requires
            old(self).wf(),
            texts matches Some(t) ==> t.wf(),
        ensures
            final(self).wf(),
            final(self).next() == old(self).next(),
            final(self).epochs() == old(self).epochs(),
            final(self).now() == old(self).now(),
            final(self).filters() == old(self).filters(),
            final(self).cache_keys() == old(self).cache_keys(),
            final(self).cache_ids() == old(self).cache_ids(),
            final(self).counts() == recalled(
                old(self).counts(),
                lookup_cache::cached(old(self).cache_keys(), old(self).cache_ids(), key_hash) is Some,
                r is Some,
            ),
            r == match lookup_cache::cached(old(self).cache_keys(), old(self).cache_ids(), key_hash) {
                Some(id) => if confirms(
                    match texts {
                        Some(t) => Some(t.files()),
                        None => None,
                    },
                    id,
                    text@,
                    *meta,
                ) {
                    Some(id)
                } else {
                    None
                },
                None => None,
            },
    {
        let found = self.cache.get(key_hash);
        let r = match found {
            Some(id) => {
                if confirm(texts, id, text, meta) {
                    Some(id)
                } else {
                    self.cache.unverified = self.cache.unverified.wrapping_add(1);
                    None
                }
            },
            None => None,
        };
        assert(self.filters() =~= old(self).filters());
        r
    }

    /// Puts a key of this hash in the filter of its field.
    fn note_key(&mut self, field_id: u32, filter_hash: u64)
        requires
            old(self).wf(),
            filter_of(old(self).filters(), field_id) is Some,
        ensures
            final(self).wf(),
            final(self).next_ids == old(self).next_ids,
            final(self).pending == old(self).pending,
            final(self).epoch == old(self).epoch,
            final(self).cache == old(self).cache,
            filter_of(final(self).filters(), field_id) == Some(
                dictionary_bloom::after_insert(
                    filter_of(old(self).filters(), field_id)->0,
                    filter_hash,
                    dictionary_bloom::second_hash(filter_hash),
                ),
            ),
            forall|other: u32|
                other != field_id ==> #[trigger] filter_of(final(self).filters(), other) == filter_of(
                    old(self).filters(),
                    other,
                ),
    {
        let ghost before = self.filters();
        let i: usize = self.find_filter(field_id).unwrap();
        let ghost was = self.filters@;
        assert(was[i as int].1.wf());
        self.filters[i].1.insert_hashed(filter_hash, ScalableBloom::finalize(filter_hash));
        proof {
            let chain = was[i as int].1.chain();
            let next = dictionary_bloom::after_insert(chain, filter_hash, dictionary_bloom::second_hash(filter_hash));
            assert(self.filters() =~= before.update(i as int, (field_id, next)));
            lemma_filter_update(before, field_id, i as int, next);
            assert forall|k: int| 0 <= k < self.filters@.len() implies (#[trigger] self.filters@[k]).1.wf() by {
                if k != i {
                    assert(self.filters@[k] == was[k]);
                }
            }
        }
    }

    /// The id of a token, given what the parts of the dictionary have for it:
    /// that one, or that of the pending text, or the next of the field. Says
    /// whether it is new.
    pub fn settle(
        &mut self,
        field_id: u32,
        key: &str,
        key_hash: u64,
        filter_hash: u64,
        walked: Option<u64>,
    ) -> (r: (u64, bool))
        requires
            old(self).wf(),
            filter_of(old(self).filters(), field_id) is Some,
            counter(old(self).next(), field_id) < u64::MAX,
            old(self).epochs().len() > 0 ==> old(self).epochs().last().keys.len() < u32::MAX,
        ensures
            final(self).wf(),
            final(self).now() == old(self).now(),
            r == match walked {
                Some(id) => (id, false),
                None => match dictionary_pending::pending_id(old(self).epochs(), field_id, encode_utf8(key@)) {
                    Some(id) => (id, false),
                    None => (counter(old(self).next(), field_id), true),
                },
            },
            final(self).next() == if r.1 {
                counted_up(old(self).next(), field_id)
            } else {
                old(self).next()
            },
            final(self).epochs() == if r.1 {
                dictionary_pending::with_pending(
                    old(self).epochs(),
                    old(self).now(),
                    field_id,
                    encode_utf8(key@),
                    r.0,
                )
            } else {
                old(self).epochs()
            },
            final(self).cache_keys() == old(self).cache_keys().update(
                lookup_cache::slot_for(old(self).cache_keys(), key_hash),
                lookup_cache::slot_hash(key_hash),
            ),
            final(self).cache_ids() == old(self).cache_ids().update(
                lookup_cache::slot_for(old(self).cache_keys(), key_hash),
                r.0,
            ),
            final(self).counts() == old(self).counts(),
            forall|other: u32|
                other != field_id ==> #[trigger] filter_of(final(self).filters(), other) == filter_of(
                    old(self).filters(),
                    other,
                ),
            !r.1 ==> final(self).filters() == old(self).filters(),
            r.1 ==> filter_of(final(self).filters(), field_id) == Some(
                dictionary_bloom::after_insert(
                    filter_of(old(self).filters(), field_id)->0,
                    filter_hash,
                    dictionary_bloom::second_hash(filter_hash),
                ),
            ),
    {
        let known = match walked {
            Some(id) => Some(id),
            None => self.pending.get(field_id, key.as_bytes()),
        };
        match known {
            Some(id) => {
                self.cache.insert(key_hash, id);
                assert(self.filters() =~= old(self).filters());
                (id, false)
            },
            None => {
                let id: u64 = self.take_id(field_id);
                self.pending.insert(self.epoch, field_id, key.as_bytes(), id);
                self.note_key(field_id, filter_hash);
                self.cache.insert(key_hash, id);
                (id, true)
            },
        }
    }

    /// Makes the filter of a field, where it has none: for twice the ids given
    /// so far, with the key of every text there is.
    pub fn filter(&mut self, field_id: u32, texts: Option<&TermTextsReaderV3<'_>>)
        requires
            old(self).wf(),
            counter(old(self).next(), field_id) <= u32::MAX,
            texts matches Some(t) ==> t.wf() && usable(t.files()),
        ensures
            final(self).wf(),
            final(self).next() == old(self).next(),
            final(self).epochs() == old(self).epochs(),
            final(self).now() == old(self).now(),
            final(self).cache_keys() == old(self).cache_keys(),
            final(self).cache_ids() == old(self).cache_ids(),
            filter_of(old(self).filters(), field_id) is Some ==> final(self).filters() == old(
                self,
            ).filters(),
            final(self).counts() == old(self).counts(),
            filter_of(final(self).filters(), field_id) is Some,
            forall|other: u32|
                other != field_id ==> #[trigger] filter_of(final(self).filters(), other) == filter_of(
                    old(self).filters(),
                    other,
                ),
            filter_of(old(self).filters(), field_id) is None ==> seeded(
                counter(old(self).next(), field_id),
                match texts {
                    Some(t) => Some(t.files()),
                    None => None,
                },
                filter_of(final(self).filters(), field_id)->0,
            ),
    {
        if self.find_filter(field_id).is_some() {
            return;
        }
        let minted: u64 = self.peek_id(field_id);
        let mut f = ScalableBloom::with_capacity(2 * minted);
        let ghost first = f.chain();
        let ghost mut hashes: Seq<u64> = Seq::empty();
        let ghost files = match texts {
            Some(t) => Some(t.files()),
            None => None,
        };
        let ghost keys = stored_keys(files);
        match texts {
            Some(t) => {
                let all = t.iter();
                let ghost entries = termtexts_v3::all_entries(t.files());
                assert(termtexts_v3::as_entries(all@).len() == all@.len());
                let mut i: usize = 0;
                while i < all.len()
                    invariant
                        i <= all@.len(),
                        entries == termtexts_v3::as_entries(all@),
                        entries == termtexts_v3::all_entries(t.files()),
                        usable(t.files()),
                        f.wf(),
                        f.chain() == dictionary_bloom::after_all(first, hashes),
                        hashes.len() == i,
                        keys == stored_keys(Some(t.files())),
                        keys.len() == all@.len(),
                        forall|j: int|
                            0 <= j < i ==> dictionary_bloom::hash_of(keys[j], #[trigger] hashes[j]),
                    decreases all@.len() - i,
                {
                    let (_, text, m) = all[i];
                    assert(entries[i as int].meta == m);
                    let key = intern_key(
                        text,
                        m.is_word_stripped,
                        m.own_len,
                        m.sep_len,
                        m.is_word_start,
                    );
                    let ghost before = f.chain();
                    f.insert(key.as_str().as_bytes());
                    proof {
                        let h = choose|h: u64| #[trigger]
                            dictionary_bloom::hash_of(encode_utf8(key@), h) && f.chain()
                                == dictionary_bloom::after_insert(before, h, dictionary_bloom::second_hash(h));
                        assert(entries[i as int].text == text@);
                        assert(keys[i as int] == encode_utf8(key@));
                        let more = hashes.push(h);
                        assert(more.drop_last() =~= hashes);
                        assert(more.last() == h);
                        hashes = more;
                    }
                    i += 1;
                }
            },
            None => {},
        }
        let ghost old_filters = self.filters();
        self.filters.push((field_id, f));
        proof {
            assert(self.filters() =~= old_filters.push((field_id, f.chain())));
            lemma_filter_push(old_filters, field_id, f.chain());
            assert(first =~= seq![first_filter(counter(old(self).next(), field_id))]);
            assert(filter_of(self.filters(), field_id) == Some(dictionary_bloom::after_all(first, hashes)));
            assert(dictionary_bloom::hashes_of(keys, hashes));
            assert forall|other: u32| other != field_id implies #[trigger] filter_of(
                self.filters(),
                other,
            ) == filter_of(old_filters, other) by {
                lemma_filter_push_other(old_filters, field_id, f.chain(), other);
            }
        }
    }

    /// The next id of a field.
    fn peek_id(&self, field_id: u32) -> (id: u64)
        ensures
            id == counter(self.next(), field_id),
    {
        let ghost all = self.next_ids@;
        let n: usize = self.next_ids.len();
        let mut i: usize = 0;
        assert(all.subrange(0, n as int) =~= all);
        while i < n
            invariant
                i <= n,
                n == all.len(),
                all == self.next_ids@,
                counter(all, field_id) == counter(all.subrange(i as int, n as int), field_id),
            decreases n - i,
        {
            let ghost t = all.subrange(i as int, n as int);
            assert(t[0] == all[i as int]);
            assert(t.drop_first() =~= all.subrange(i + 1, n as int));
            if self.next_ids[i].0 == field_id {
                return self.next_ids[i].1;
            }
            i += 1;
        }
        0
    }

    /// Whether the parts of the dictionary may have a key of this hash: false
    /// where its field's filter says that it was never given an id.
    pub fn may_have(&self, field_id: u32, filter_hash: u64) -> (r: bool)
        requires
            self.wf(),
            filter_of(self.filters(), field_id) is Some,
        ensures
            r == dictionary_bloom::found(filter_of(self.filters(), field_id)->0, filter_hash, dictionary_bloom::second_hash(filter_hash)),
    {
        let i: usize = self.find_filter(field_id).unwrap();
        assert(self.filters@[i as int].1.wf());
        self.filters[i].1.maybe_contains_hashed(filter_hash, ScalableBloom::finalize(filter_hash))
    }

    /// A commit begins: the next epoch.
    pub fn begin_commit_epoch(&mut self) -> (r: u64)
        requires
            old(self).wf(),
            old(self).now() < u64::MAX,
        ensures
            final(self).wf(),
            r == old(self).now() + 1,
            final(self).now() == r,
            final(self).next() == old(self).next(),
            final(self).epochs() == old(self).epochs(),
            final(self).filters() == old(self).filters(),
            final(self).cache_keys() == old(self).cache_keys(),
            final(self).cache_ids() == old(self).cache_ids(),
            final(self).counts() == old(self).counts(),
    {
        self.epoch = self.epoch + 1;
        assert(self.filters() =~= old(self).filters());
        self.epoch
    }

    /// A commit is done: the texts of the epochs before the current one are no
    /// longer pending.
    pub fn forget_committed_pending(&mut self)
        requires
            old(self).wf(),
        ensures
            final(self).wf(),
            final(self).epochs() == old(self).epochs().filter(dictionary_pending::from_epoch(old(self).now())),
            final(self).now() == old(self).now(),
            final(self).next() == old(self).next(),
            final(self).filters() == old(self).filters(),
            final(self).cache_keys() == old(self).cache_keys(),
            final(self).cache_ids() == old(self).cache_ids(),
            final(self).counts() == old(self).counts(),
    {
        self.pending.forget_before(self.epoch);
        assert(self.filters() =~= old(self).filters());
    }

    /// Number of pending texts.
    pub fn pending_len(&self) -> (n: usize)
        requires
            dictionary_pending::pending_count(self.epochs()) <= usize::MAX,
        ensures
            n == dictionary_pending::pending_count(self.epochs()),
    {
        self.pending.len()
    }

    /// The next id of each field, by field.
    pub fn next_ids(&self) -> (out: Vec<(u32, u64)>)
        ensures
            out@ == order::sorted(self.next()),
    {
        sort(&self.next_ids)
    }
}

/// Whether this is the filter of a field that has given `minted` ids and has
/// these texts: a new one in which the key of every text was put.
pub open spec fn seeded(minted: u64, files: Option<Seq<TextFile>>, chain: Seq<Filter>) -> bool {
    exists|hashes: Seq<u64>|
        chain == #[trigger] dictionary_bloom::after_all(seq![first_filter(minted)], hashes)
            && dictionary_bloom::hashes_of(stored_keys(files), hashes)
}

/// The first filter of a field that has given `minted` ids.
pub open spec fn first_filter(minted: u64) -> Filter {
    dictionary_bloom::empty_filter(
        if 2 * minted < FIRST_CAPACITY {
            FIRST_CAPACITY
        } else {
            (2 * minted) as u64
        },
    )
}

proof fn lemma_filter_update(
    filters: Seq<(u32, Seq<Filter>)>,
    field_id: u32,
    i: int,
    chain: Seq<Filter>,
)
    requires
        0 <= i < filters.len(),
        filters[i].0 == field_id,
        forall|k: int| 0 <= k < i ==> (#[trigger] filters[k]).0 != field_id,
    ensures
        filter_of(filters.update(i, (field_id, chain)), field_id) == Some(chain),
        forall|other: u32|
            other != field_id ==> #[trigger] filter_of(filters.update(i, (field_id, chain)), other)
                == filter_of(filters, other),
    decreases filters.len(),
{
    if i == 0 {
        assert(filters.update(i, (field_id, chain)).drop_first() =~= filters.drop_first());
    } else {
        assert(filters[0].0 != field_id);
        let rest = filters.drop_first();
        assert forall|k: int| 0 <= k < i - 1 implies (#[trigger] rest[k]).0 != field_id by {
            assert(filters[k + 1].0 != field_id);
        }
        lemma_filter_update(rest, field_id, i - 1, chain);
        let after = filters.update(i, (field_id, chain));
        assert(after.drop_first() =~= rest.update(i - 1, (field_id, chain)));
        assert forall|other: u32| other != field_id implies #[trigger] filter_of(after, other)
            == filter_of(filters, other) by {
            assert(filter_of(rest.update(i - 1, (field_id, chain)), other) == filter_of(rest, other));
        }
    }
}

proof fn lemma_filter_push(filters: Seq<(u32, Seq<Filter>)>, field_id: u32, chain: Seq<Filter>)
    requires
        filter_of(filters, field_id) is None,
    ensures
        filter_of(filters.push((field_id, chain)), field_id) == Some(chain),
    decreases filters.len(),
{
    let more = filters.push((field_id, chain));
    if filters.len() > 0 {
        lemma_filter_push(filters.drop_first(), field_id, chain);
        assert(more.drop_first() =~= filters.drop_first().push((field_id, chain)));
    }
}

proof fn lemma_filter_push_other(
    filters: Seq<(u32, Seq<Filter>)>,
    field_id: u32,
    chain: Seq<Filter>,
    other: u32,
)
    requires
        other != field_id,
    ensures
        filter_of(filters.push((field_id, chain)), other) == filter_of(filters, other),
    decreases filters.len(),
{
    let more = filters.push((field_id, chain));
    if filters.len() > 0 {
        lemma_filter_push_other(filters.drop_first(), field_id, chain, other);
        assert(more.drop_first() =~= filters.drop_first().push((field_id, chain)));
    } else {
        assert(more.drop_first() =~= Seq::<(u32, Seq<Filter>)>::empty());
        assert(filter_of(more.drop_first(), other) is None);
    }
}

/// Whether the texts say that the id is the token's.
fn confirm(texts: Option<&TermTextsReaderV3<'_>>, id: u64, text: &str, meta: &TokenMetaV3) -> (r: bool)
    requires
        texts matches Some(t) ==> t.wf(),
    ensures
        r == confirms(
            match texts {
                Some(t) => Some(t.files()),
                None => None,
            },
            id,
            text@,
            *meta,
        ),
{
    if id > 0xFFFF_FFFF {
        return false;
    }
    match texts {
        None => false,
        Some(t) => match t.entry(id as u32) {
            None => false,
            Some((stored, m)) => {
                if !same_text(stored, text) || m.is_word_stripped != meta.is_word_stripped {
                    false
                } else if meta.is_word_stripped {
                    m.own_len.saturating_sub(m.sep_len as u16) == meta.own_len.saturating_sub(
                        meta.sep_len as u16,
                    )
                } else {
                    m.own_len == meta.own_len && m.sep_len == meta.sep_len && m.is_word_start
                        == meta.is_word_start
                }
            },
        },
    }
}

/// The id of a token and whether it is new: the one the parts have, the one
/// of the pending text, or the next.
pub open spec fn settled(walked: Option<u64>, pending: Option<u64>, next: u64) -> (u64, bool) {
    match walked {
        Some(id) => (id, false),
        None => match pending {
            Some(id) => (id, false),
            None => (next, true),
        },
    }
}

/// Whether a walk through the parts, by the token's key and overlap, gave this
/// id for the token.
pub open spec fn walk_gave<W: Fn(Vec<u8>, Vec<u8>) -> Vec<Vec<ParentEntryV3>>>(
    walk: W,
    files: Seq<TextFile>,
    text: Seq<char>,
    m: TokenMetaV3,
    walked: Option<u64>,
) -> bool {
    exists|k: Vec<u8>, o: Vec<u8>, parts: Vec<Vec<ParentEntryV3>>| #[trigger]
        call_ensures(walk, (k, o), parts) && {
            &&& k@ == dictionary_lookup::key_bytes(text, m.is_word_stripped, m.own_len, m.overlap_len)
            &&& o@ == dictionary_lookup::wanted_overlap(text, m.is_word_stripped, m.own_len, m.overlap_len)
            &&& dictionary_lookup::pick(files, collector_v3::contents(parts@), text, m, 0) == walked
        }
}

/// What the parts have for a token: what a walk gives, unless the filter says
/// that its key was never given an id or there are no texts.
pub open spec fn parts_gave<W: Fn(Vec<u8>, Vec<u8>) -> Vec<Vec<ParentEntryV3>>>(
    walk: W,
    chain: Seq<Filter>,
    filter_hash: u64,
    files: Option<Seq<TextFile>>,
    text: Seq<char>,
    m: TokenMetaV3,
    walked: Option<u64>,
) -> bool {
    if dictionary_bloom::found(chain, filter_hash, dictionary_bloom::second_hash(filter_hash)) && files is Some {
        walk_gave(walk, files->0, text, m, walked)
    } else {
        walked is None
    }
}

/// Whether this is the filter of a field once it has one: the one it had, or a
/// new one with the key of every text.
pub open spec fn filter_ready(
    shared: DictionaryShared,
    field_id: u32,
    files: Option<Seq<TextFile>>,
    chain: Seq<Filter>,
) -> bool {
    match filter_of(shared.filters(), field_id) {
        Some(c) => chain == c,
        None => seeded(counter(shared.next(), field_id), files, chain),
    }
}

impl<'a> DictionaryField<'a> {
    /// The texts of all parts, file by file.
    pub open spec fn files(&self) -> Option<Seq<TextFile>> {
        match self.texts {
            Some(t) => Some(t.files()),
            None => None,
        }
    }

    /// Whether the texts can be gone through.
    pub open spec fn ready(&self) -> bool {
        self.texts matches Some(t) ==> t.wf() && usable(t.files())
    }

    /// The texts of all parts, where they open.
    pub fn termtexts(&self) -> (r: Option<&TermTextsReaderV3<'a>>)
        ensures
            r is Some <==> self.texts is Some,
            r matches Some(t) ==> Some(*t) == self.texts,
    {
        match &self.texts {
            Some(t) => Some(t),
            None => None,
        }
    }

    /// The id of a token in the parts: `walk` gives for a key and an overlap
    /// the parents that each part has.
    pub fn lookup<W: Fn(Vec<u8>, Vec<u8>) -> Vec<Vec<ParentEntryV3>>>(
        &self,
        text: &str,
        meta: &TokenMetaV3,
        walk: &W,
    ) -> (r: Option<u64>)
        requires
            self.texts matches Some(t) ==> t.wf(),
            dictionary_lookup::splits(text@, meta.is_word_stripped, meta.own_len, meta.overlap_len),
            forall|k: Vec<u8>, o: Vec<u8>| #[trigger] call_requires(*walk, (k, o)),
        ensures
            self.files() is None ==> r is None,
            self.files() matches Some(f) ==> walk_gave(*walk, f, text@, *meta, r),
    {
        let key = fst_key(text, meta.is_word_stripped, meta.own_len, meta.overlap_len);
        self.lookup_with_key(text, meta, key, walk)
    }

    /// `lookup` with the token's key.
    pub fn lookup_with_key<W: Fn(Vec<u8>, Vec<u8>) -> Vec<Vec<ParentEntryV3>>>(
        &self,
        text: &str,
        meta: &TokenMetaV3,
        key: Vec<u8>,
        walk: &W,
    ) -> (r: Option<u64>)
        requires
            self.texts matches Some(t) ==> t.wf(),
            dictionary_lookup::splits(text@, meta.is_word_stripped, meta.own_len, meta.overlap_len),
            key@ == dictionary_lookup::key_bytes(text@, meta.is_word_stripped, meta.own_len, meta.overlap_len),
            forall|k: Vec<u8>, o: Vec<u8>| #[trigger] call_requires(*walk, (k, o)),
        ensures
            self.files() is None ==> r is None,
            self.files() matches Some(f) ==> walk_gave(*walk, f, text@, *meta, r),
    {
        let overlap = want_overlap(text, meta.is_word_stripped, meta.own_len, meta.overlap_len);
        match &self.texts {
            None => None,
            Some(texts) => {
                let ghost k = key;
                let ghost o = overlap;
                let parts = walk(key, overlap);
                let r = pick_token(texts, &parts, text, meta);
                assert(call_ensures(*walk, (k, o), parts));
                r
            },
        }
    }
}

/// A dictionary: what is written of it, the texts of its fields, and what its
/// generations share.
pub struct SfxDictionary<'a> {
    /// What is written of it.
    pub meta: SfxDictionaryMeta,
    /// The texts of its fields.
    pub fields: Vec<(u32, DictionaryField<'a>)>,
    /// What its generations share.
    pub shared: DictionaryShared,
}

impl<'a> SfxDictionary<'a> {
    /// The texts of every field can be read.
    pub open spec fn wf(&self) -> bool {
        &&& self.shared.wf()
        &&& forall|i: int| 0 <= i < self.fields@.len() ==> (#[trigger] self.fields@[i]).1.ready()
    }

    /// A dictionary over the files that `meta` names, as they were read: for
    /// each of its fields the parts in the order of `part_files`. A field
    /// without suffixes that open is not there. It goes on with what the dictionary it
    /// replaces shared, where there is one.
    pub fn open(
        meta: SfxDictionaryMeta,
        read: &'a Vec<Vec<ReadPart>>,
        previous: Option<DictionaryShared>,
    ) -> (r: Self)
        requires
            read@.len() == meta.field_ids@.len(),
            forall|i: int| 0 <= i < read@.len() ==> dictionary_parts::parts_ok((#[trigger] read@[i])@),
            previous matches Some(s) ==> s.wf(),
        ensures
            r.wf(),
            r.meta == meta,
            dictionary_parts::texts_of_fields(r.fields@) == dictionary_parts::fields_in(meta.field_ids@, collector_v3::contents(read@)),
            previous matches Some(s) ==> r.shared == s,
            previous is None ==> {
                &&& r.shared.next() == meta.next_ids@
                &&& r.shared.epochs() == Seq::<Epoch>::empty()
                &&& r.shared.now() == 1
                &&& r.shared.filters() == Seq::<(u32, Seq<Filter>)>::empty()
                &&& (r.shared.cache_keys(), r.shared.cache_ids()) == lookup_cache::after_inserts(
                    Seq::empty(),
                )
                &&& r.shared.counts() == (0u64, 0u64, 0u64)
            },
    {
        let fields = open_fields(&meta.field_ids, read);
        Self::over(meta, fields, previous)
    }

    /// A dictionary over the texts of its fields.
    pub fn over(
        meta: SfxDictionaryMeta,
        fields: Vec<(u32, DictionaryField<'a>)>,
        previous: Option<DictionaryShared>,
    ) -> (r: Self)
        requires
            forall|i: int| 0 <= i < fields@.len() ==> (#[trigger] fields@[i]).1.ready(),
            previous matches Some(s) ==> s.wf(),
        ensures
            r.wf(),
            r.meta == meta,
            r.fields == fields,
            previous matches Some(s) ==> r.shared == s,
            previous is None ==> {
                &&& r.shared.next() == meta.next_ids@
                &&& r.shared.epochs() == Seq::<Epoch>::empty()
                &&& r.shared.now() == 1
                &&& r.shared.filters() == Seq::<(u32, Seq<Filter>)>::empty()
                &&& (r.shared.cache_keys(), r.shared.cache_ids()) == lookup_cache::after_inserts(
                    Seq::empty(),
                )
                &&& r.shared.counts() == (0u64, 0u64, 0u64)
            },
    {
        let shared = match previous {
            Some(s) => s,
            None => DictionaryShared::new(copy_counters(&meta.next_ids)),
        };
        SfxDictionary { meta, fields, shared }
    }

    /// The dictionary of an index that has committed nothing.
    pub fn empty() -> (r: Self)
        ensures
            r.wf(),
            r.meta.generations@ == Seq::<u64>::empty(),
            r.meta.next_generation == 1,
            r.meta.next_ids@ == Seq::<(u32, u64)>::empty(),
            r.meta.field_ids@ == Seq::<u32>::empty(),
            r.meta.pending_segments@ == Seq::<String>::empty(),
            r.fields@.len() == 0,
            r.shared.next() == Seq::<(u32, u64)>::empty(),
            r.shared.epochs() == Seq::<Epoch>::empty(),
            r.shared.now() == 1,
            r.shared.filters() == Seq::<(u32, Seq<Filter>)>::empty(),
            (r.shared.cache_keys(), r.shared.cache_ids()) == lookup_cache::after_inserts(
                Seq::empty(),
            ),
            r.shared.counts() == (0u64, 0u64, 0u64),
    {
        let meta = SfxDictionaryMeta {
            generations: Vec::new(),
            next_generation: 1,
            next_ids: Vec::new(),
            field_ids: Vec::new(),
            pending_segments: Vec::new(),
        };
        Self::over(meta, Vec::new(), None)
    }

    /// The texts of a field, if the dictionary has it.
    pub fn field(&self, field_id: u32) -> (r: Option<&DictionaryField<'a>>)
        ensures
            r is Some <==> has_field(self.fields@, field_id),
            field_files(self.fields@, field_id) == match r {
                Some(f) => f.files(),
                None => None,
            },
            r matches Some(f) ==> exists|i: int|
                0 <= i < self.fields@.len() && (#[trigger] self.fields@[i]).1 == *f,
    {
        find_field(&self.fields, field_id)
    }

    /// The id of a token in a field, and whether it is new. `walk` gives for a
    /// key and an overlap the parents that each part of the dictionary has.
    pub fn lookup_or_mint<W: Fn(Vec<u8>, Vec<u8>) -> Vec<Vec<ParentEntryV3>>>(
        &mut self,
        field_id: u32,
        key: &str,
        text: &str,
        meta: &TokenMetaV3,
        walk: &W,
    ) -> (r: (u64, bool))
        requires
            old(self).wf(),
            dictionary_lookup::splits(text@, meta.is_word_stripped, meta.own_len, meta.overlap_len),
            counter(old(self).shared.next(), field_id) <= u32::MAX,
            old(self).shared.epochs().len() > 0 ==> old(self).shared.epochs().last().keys.len()
                < u32::MAX,
            forall|k: Vec<u8>, o: Vec<u8>| #[trigger] call_requires(*walk, (k, o)),
        ensures
            final(self).wf(),
            final(self).meta == old(self).meta,
            final(self).fields == old(self).fields,
            final(self).shared.now() == old(self).shared.now(),
            exists|h: u64, f: u64|
                field_hash_of(field_id, key@, h) && dictionary_bloom::hash_of(encode_utf8(key@), f)
                    && #[trigger] mint_outcome(
                    *old(self),
                    *final(self),
                    field_id,
                    key@,
                    h,
                    f,
                    text@,
                    *meta,
                    *walk,
                    r,
                ),
    {
        let h: u64 = apply(field_key_hash, field_id, key);
        self.lookup_or_mint_hashed(field_id, key, h, text, meta, walk)
    }

    /// `lookup_or_mint` with the hash of field and key.
    pub fn lookup_or_mint_hashed<W: Fn(Vec<u8>, Vec<u8>) -> Vec<Vec<ParentEntryV3>>>(
        &mut self,
        field_id: u32,
        key: &str,
        key_hash: u64,
        text: &str,
        meta: &TokenMetaV3,
        walk: &W,
    ) -> (r: (u64, bool))
        requires
            old(self).wf(),
            dictionary_lookup::splits(text@, meta.is_word_stripped, meta.own_len, meta.overlap_len),
            counter(old(self).shared.next(), field_id) <= u32::MAX,
            old(self).shared.epochs().len() > 0 ==> old(self).shared.epochs().last().keys.len()
                < u32::MAX,
            forall|k: Vec<u8>, o: Vec<u8>| #[trigger] call_requires(*walk, (k, o)),
        ensures
            final(self).wf(),
            final(self).meta == old(self).meta,
            final(self).fields == old(self).fields,
            final(self).shared.now() == old(self).shared.now(),
            exists|f: u64|
                dictionary_bloom::hash_of(encode_utf8(key@), f) && #[trigger] mint_outcome(
                    *old(self),
                    *final(self),
                    field_id,
                    key@,
                    key_hash,
                    f,
                    text@,
                    *meta,
                    *walk,
                    r,
                ),
    {
        let (filter_hash, _) = ScalableBloom::hashes(key.as_bytes());
        self.lookup_or_mint_with_hashes(field_id, key, key_hash, filter_hash, text, meta, walk)
    }

    /// `lookup_or_mint` with both hashes of the key: that of field and key, by
    /// which an id found before is kept, and that of the field's filter.
    pub fn lookup_or_mint_with_hashes<W: Fn(Vec<u8>, Vec<u8>) -> Vec<Vec<ParentEntryV3>>>(
        &mut self,
        field_id: u32,
        key: &str,
        key_hash: u64,
        filter_hash: u64,
        text: &str,
        meta: &TokenMetaV3,
        walk: &W,
    ) -> (r: (u64, bool))
        requires
            old(self).wf(),
            dictionary_lookup::splits(text@, meta.is_word_stripped, meta.own_len, meta.overlap_len),
            counter(old(self).shared.next(), field_id) <= u32::MAX,
            old(self).shared.epochs().len() > 0 ==> old(self).shared.epochs().last().keys.len()
                < u32::MAX,
            forall|k: Vec<u8>, o: Vec<u8>| #[trigger] call_requires(*walk, (k, o)),
        ensures
            final(self).wf(),
            final(self).meta == old(self).meta,
            final(self).fields == old(self).fields,
            final(self).shared.now() == old(self).shared.now(),
            mint_outcome(
                *old(self),
                *final(self),
                field_id,
                key@,
                key_hash,
                filter_hash,
                text@,
                *meta,
                *walk,
                r,
            ),
    {
        let ghost files = field_files(self.fields@, field_id);
        let field = find_field(&self.fields, field_id);
        let texts = match field {
            Some(f) => f.termtexts(),
            None => None,
        };
        proof {
            if field is Some {
                let i = choose|i: int|
                    0 <= i < self.fields@.len() && (#[trigger] self.fields@[i]).1 == *(field->0);
                assert(self.fields@[i].1.ready());
            }
        }
        match self.shared.recall(texts, key_hash, text, meta) {
            Some(id) => {
                return (id, false);
            },
            None => {},
        }
        self.shared.filter(field_id, texts);
        let ghost chain = filter_of(self.shared.filters(), field_id)->0;
        assert(filter_ready(old(self).shared, field_id, files, chain));
        let mut walked: Option<u64> = None;
        if self.shared.may_have(field_id, filter_hash) {
            match field {
                Some(f) => {
                    walked = f.lookup(text, meta, walk);
                },
                None => {},
            }
        }
        assert(parts_gave(*walk, chain, filter_hash, files, text@, *meta, walked));
        let r = self.shared.settle(field_id, key, key_hash, filter_hash, walked);
        assert(ready_and_walked(
            old(self).shared,
            field_id,
            files,
            chain,
            *walk,
            filter_hash,
            text@,
            *meta,
            walked,
        ));
        r
    }

    /// Makes the filter of a field, where it has none.
    pub fn filter(&mut self, field_id: u32)
        requires
            old(self).wf(),
            counter(old(self).shared.next(), field_id) <= u32::MAX,
        ensures
            final(self).wf(),
            final(self).meta == old(self).meta,
            final(self).fields == old(self).fields,
            final(self).shared.now() == old(self).shared.now(),
            final(self).shared.next() == old(self).shared.next(),
            final(self).shared.epochs() == old(self).shared.epochs(),
            final(self).shared.cache_keys() == old(self).shared.cache_keys(),
            final(self).shared.cache_ids() == old(self).shared.cache_ids(),
            final(self).shared.counts() == old(self).shared.counts(),
            forall|other: u32|
                other != field_id ==> #[trigger] filter_of(final(self).shared.filters(), other)
                    == filter_of(old(self).shared.filters(), other),
            filter_of(final(self).shared.filters(), field_id) is Some,
            filter_ready(
                old(self).shared,
                field_id,
                field_files(old(self).fields@, field_id),
                filter_of(final(self).shared.filters(), field_id)->0,
            ),
    {
        let field = find_field(&self.fields, field_id);
        let texts = match field {
            Some(f) => f.termtexts(),
            None => None,
        };
        proof {
            if field is Some {
                let i = choose|i: int|
                    0 <= i < self.fields@.len() && (#[trigger] self.fields@[i]).1 == *(field->0);
                assert(self.fields@[i].1.ready());
            }
        }
        self.shared.filter(field_id, texts);
    }

    /// Whether the texts say that the id is the token's.
    pub fn verify(&self, field_id: u32, id: u64, text: &str, meta: &TokenMetaV3) -> (r: bool)
        requires
            self.wf(),
        ensures
            r == confirms(field_files(self.fields@, field_id), id, text@, *meta),
    {
        let field = self.field(field_id);
        proof {
            if field is Some {
                let i = choose|i: int|
                    0 <= i < self.fields@.len() && (#[trigger] self.fields@[i]).1 == *(field->0);
                assert(self.fields@[i].1.ready());
            }
        }
        match field {
            Some(f) => confirm(f.termtexts(), id, text, meta),
            None => confirm(None, id, text, meta),
        }
    }

    /// A commit begins: the next epoch.
    pub fn begin_commit_epoch(&mut self) -> (r: u64)
        requires
            old(self).wf(),
            old(self).shared.now() < u64::MAX,
        ensures
            final(self).wf(),
            r == old(self).shared.now() + 1,
            final(self).shared.now() == r,
            final(self).shared.next() == old(self).shared.next(),
            final(self).shared.epochs() == old(self).shared.epochs(),
            final(self).shared.filters() == old(self).shared.filters(),
            final(self).shared.cache_keys() == old(self).shared.cache_keys(),
            final(self).shared.cache_ids() == old(self).shared.cache_ids(),
            final(self).shared.counts() == old(self).shared.counts(),
            final(self).meta == old(self).meta,
            final(self).fields == old(self).fields,
    {
        self.shared.begin_commit_epoch()
    }

    /// A commit is done: the texts of the epochs before the current one are no
    /// longer pending.
    pub fn forget_committed_pending(&mut self)
        requires
            old(self).wf(),
        ensures
            final(self).wf(),
            final(self).shared.epochs() == old(self).shared.epochs().filter(
                dictionary_pending::from_epoch(old(self).shared.now()),
            ),
            final(self).shared.now() == old(self).shared.now(),
            final(self).shared.next() == old(self).shared.next(),
            final(self).shared.filters() == old(self).shared.filters(),
            final(self).shared.cache_keys() == old(self).shared.cache_keys(),
            final(self).shared.cache_ids() == old(self).shared.cache_ids(),
            final(self).shared.counts() == old(self).shared.counts(),
            final(self).meta == old(self).meta,
            final(self).fields == old(self).fields,
    {
        self.shared.forget_committed_pending()
    }

    /// Number of pending texts.
    pub fn pending_len(&self) -> (n: usize)
        requires
            dictionary_pending::pending_count(self.shared.epochs()) <= usize::MAX,
        ensures
            n == dictionary_pending::pending_count(self.shared.epochs()),
    {
        self.shared.pending_len()
    }

    /// The live generations.
    pub fn generations(&self) -> (r: &[u64])
        ensures
            r@ == self.meta.generations@,
    {
        self.meta.generations.as_slice()
    }

    /// What is written of the dictionary.
    pub fn meta(&self) -> (r: &SfxDictionaryMeta)
        ensures
            *r == self.meta,
    {
        &self.meta
    }

    /// The next id of each field, by field.
    pub fn next_ids(&self) -> (out: Vec<(u32, u64)>)
        ensures
            out@ == order::sorted(self.shared.next()),
    {
        self.shared.next_ids()
    }

    /// Whether the dictionary is made of the parts that `meta` names.
    pub fn same_parts(&self, meta: &SfxDictionaryMeta) -> (r: bool)
        ensures
            r == (self.meta.generations@ == meta.generations@ && texts_equal(
                self.meta.pending_segments@,
                meta.pending_segments@,
            )),
    {
        same_numbers(&self.meta.generations, &meta.generations) && same_texts(
            &self.meta.pending_segments,
            &meta.pending_segments,
        )
    }
}

/// Whether this is the field's filter and this what the parts have for the
/// token.
pub open spec fn ready_and_walked<W: Fn(Vec<u8>, Vec<u8>) -> Vec<Vec<ParentEntryV3>>>(
    shared: DictionaryShared,
    field_id: u32,
    files: Option<Seq<TextFile>>,
    chain: Seq<Filter>,
    walk: W,
    filter_hash: u64,
    text: Seq<char>,
    m: TokenMetaV3,
    walked: Option<u64>,
) -> bool {
    filter_ready(shared, field_id, files, chain) && parts_gave(
        walk,
        chain,
        filter_hash,
        files,
        text,
        m,
        walked,
    )
}

/// What looking a token up gives, and what it leaves behind: the id found
/// before where the texts confirm it; else the id of the parts, of the pending
/// text, or the next one, which is then pending and counted up.
pub open spec fn mint_outcome<'a, W: Fn(Vec<u8>, Vec<u8>) -> Vec<Vec<ParentEntryV3>>>(
    before: SfxDictionary<'a>,
    after: SfxDictionary<'a>,
    field_id: u32,
    key: Seq<char>,
    key_hash: u64,
    filter_hash: u64,
    text: Seq<char>,
    m: TokenMetaV3,
    walk: W,
    r: (u64, bool),
) -> bool {
    let files = field_files(before.fields@, field_id);
    let s = before.shared;
    let known = lookup_cache::cached(s.cache_keys(), s.cache_ids(), key_hash);
    let confirmed = known is Some && confirms(files, known->0, text, m);
    &&& after.shared.counts() == recalled(s.counts(), known is Some, confirmed)
    &&& if confirmed {
        &&& r == (known->0, false)
        &&& after.shared.next() == s.next()
        &&& after.shared.epochs() == s.epochs()
        &&& after.shared.cache_keys() == s.cache_keys()
        &&& after.shared.cache_ids() == s.cache_ids()
        &&& after.shared.filters() == s.filters()
    } else {
        &&& exists|chain: Seq<Filter>, walked: Option<u64>|
            {
                &&& #[trigger] ready_and_walked(
                    s,
                    field_id,
                    files,
                    chain,
                    walk,
                    filter_hash,
                    text,
                    m,
                    walked,
                )
                &&& r == settled(
                    walked,
                    dictionary_pending::pending_id(s.epochs(), field_id, encode_utf8(key)),
                    counter(s.next(), field_id),
                )
                &&& filter_of(after.shared.filters(), field_id) == Some(
                    if r.1 {
                        dictionary_bloom::after_insert(chain, filter_hash, dictionary_bloom::second_hash(filter_hash))
                    } else {
                        chain
                    },
                )
            }
        &&& forall|other: u32|
            other != field_id ==> #[trigger] filter_of(after.shared.filters(), other) == filter_of(
                s.filters(),
                other,
            )
        &&& after.shared.next() == if r.1 {
            counted_up(s.next(), field_id)
        } else {
            s.next()
        }
        &&& after.shared.epochs() == if r.1 {
            dictionary_pending::with_pending(s.epochs(), s.now(), field_id, encode_utf8(key), r.0)
        } else {
            s.epochs()
        }
        &&& after.shared.cache_keys() == s.cache_keys().update(
            lookup_cache::slot_for(s.cache_keys(), key_hash),
            lookup_cache::slot_hash(key_hash),
        )
        &&& after.shared.cache_ids() == s.cache_ids().update(
            lookup_cache::slot_for(s.cache_keys(), key_hash),
            r.0,
        )
    }
}

/// Whether the texts are the same, one by one.
pub open spec fn texts_equal(a: Seq<String>, b: Seq<String>) -> bool {
    a.len() == b.len() && forall|i: int| 0 <= i < a.len() ==> (#[trigger] a[i])@ == b[i]@
}

fn same_numbers(a: &Vec<u64>, b: &Vec<u64>) -> (r: bool)
    ensures
        r == (a@ == b@),
{
    if a.len() != b.len() {
        return false;
    }
    let mut i: usize = 0;
    while i < a.len()
        invariant
            i <= a@.len(),
            a@.len() == b@.len(),
            forall|k: int| 0 <= k < i ==> a@[k] == b@[k],
        decreases a@.len() - i,
    {
        if a[i] != b[i] {
            return false;
        }
        i += 1;
    }
    assert(a@ =~= b@);
    true
}

fn same_texts(a: &Vec<String>, b: &Vec<String>) -> (r: bool)
    ensures
        r == texts_equal(a@, b@),
{
    if a.len() != b.len() {
        return false;
    }
    let mut i: usize = 0;
    while i < a.len()
        invariant
            i <= a@.len(),
            a@.len() == b@.len(),
            forall|k: int| 0 <= k < i ==> (#[trigger] a@[k])@ == b@[k]@,
        decreases a@.len() - i,
    {
        if !same_text(a[i].as_str(), b[i].as_str()) {
            assert(a@[i as int]@ != b@[i as int]@);
            return false;
        }
        i += 1;
    }
    true
}

fn copy_counters(v: &Vec<(u32, u64)>) -> (out: Vec<(u32, u64)>)
    ensures
        out@ == v@,
{
    let mut out: Vec<(u32, u64)> = Vec::new();
    let mut i: usize = 0;
    while i < v.len()
        invariant
            i <= v@.len(),
            out@ =~= v@.take(i as int),
        decreases v@.len() - i,
    {
        out.push(v[i]);
        i += 1;
    }
    assert(out@ =~= v@);
    out
}

/// The texts of a field.
fn find_field<'b, 'a>(fields: &'b Vec<(u32, DictionaryField<'a>)>, field_id: u32) -> (r: Option<
    &'b DictionaryField<'a>,
>)
    ensures
        r is Some <==> has_field(fields@, field_id),
        field_files(fields@, field_id) == match r {
            Some(f) => f.files(),
            None => None,
        },
        r matches Some(f) ==> exists|i: int|
            0 <= i < fields@.len() && (#[trigger] fields@[i]).1 == *f,
{
    let ghost all = fields@;
    let mut i: usize = 0;
    assert(all.subrange(0, all.len() as int) =~= all);
    while i < fields.len()
        invariant
            i <= fields@.len(),
            all == fields@,
            forall|k: int| 0 <= k < i ==> (#[trigger] all[k]).0 != field_id,
            field_files(all, field_id) == field_files(
                all.subrange(i as int, all.len() as int),
                field_id,
            ),
        decreases fields@.len() - i,
    {
        let ghost t = all.subrange(i as int, all.len() as int);
        assert(t[0] == all[i as int]);
        assert(t.drop_first() =~= all.subrange(i + 1, all.len() as int));
        if fields[i].0 == field_id {
            return Some(&fields[i].1);
        }
        i += 1;
    }
    None
}

/// A new id is one more than the last of its field, and no other field's next
/// id changes.
pub proof fn ids_are_counted_up(next: Seq<(u32, u64)>, field_id: u32, other: u32)
    requires
        counter(next, field_id) < u64::MAX,
    ensures
        counter(counted_up(next, field_id), field_id) == counter(next, field_id) + 1,
        other != field_id ==> counter(counted_up(next, field_id), other) == counter(next, other),
    decreases next.len(),
{
    let after = counted_up(next, field_id);
    if next.len() == 0 {
        assert(after.drop_first() =~= Seq::<(u32, u64)>::empty());
        assert(counter(after.drop_first(), other) == 0);
    } else if next[0].0 == field_id {
        assert(after.drop_first() =~= next.drop_first());
    } else {
        ids_are_counted_up(next.drop_first(), field_id, other);
        assert(after.drop_first() =~= counted_up(next.drop_first(), field_id));
    }
}

/// A token that was given a new id has it when it is looked up again, as long
/// as its text is pending and the parts do not have it.
pub proof fn minted_token_keeps_its_id<'a, W: Fn(Vec<u8>, Vec<u8>) -> Vec<Vec<ParentEntryV3>>>(
    first: SfxDictionary<'a>,
    then: SfxDictionary<'a>,
    last: SfxDictionary<'a>,
    field_id: u32,
    key: Seq<char>,
    key_hash: u64,
    filter_hash: u64,
    text: Seq<char>,
    m: TokenMetaV3,
    walk: W,
    id: u64,
    r: (u64, bool),
)
    requires
        first.wf(),
        then.fields == first.fields,
        mint_outcome(first, then, field_id, key, key_hash, filter_hash, text, m, walk, (id, true)),
        mint_outcome(then, last, field_id, key, key_hash, filter_hash, text, m, walk, r),
        forall|k: u64| !#[trigger] confirms(field_files(first.fields@, field_id), k, text, m),
        forall|w: Option<u64>|
            field_files(first.fields@, field_id) is Some && #[trigger] walk_gave(
                walk,
                field_files(first.fields@, field_id)->0,
                text,
                m,
                w,
            ) ==> w is None,
    ensures
        r == (id, false),
{
    let files = field_files(first.fields@, field_id);
    let s = first.shared;
    let b = encode_utf8(key);
    s.pending.lemma_epochs();
    let (c1, w1) = choose|chain: Seq<Filter>, walked: Option<u64>|
        #[trigger] ready_and_walked(
            s,
            field_id,
            files,
            chain,
            walk,
            filter_hash,
            text,
            m,
            walked,
        ) && (id, true) == settled(
            walked,
            dictionary_pending::pending_id(s.epochs(), field_id, b),
            counter(s.next(), field_id),
        );
    assert(dictionary_pending::pending_id(s.epochs(), field_id, b) is None);
    dictionary_pending::minted_text_is_found(s.epochs(), s.now(), field_id, b, id);
    let t = then.shared;
    assert(dictionary_pending::pending_id(t.epochs(), field_id, b) == Some(id));
    let (c2, w2) = choose|chain: Seq<Filter>, walked: Option<u64>|
        #[trigger] ready_and_walked(
            t,
            field_id,
            files,
            chain,
            walk,
            filter_hash,
            text,
            m,
            walked,
        ) && r == settled(
            walked,
            dictionary_pending::pending_id(t.epochs(), field_id, b),
            counter(t.next(), field_id),
        );
    assert(w2 is None);
}

/// Whether a filter says of every key that it may have it.
pub open spec fn covers(chain: Seq<Filter>, keys: Seq<Seq<u8>>) -> bool {
    forall|i: int, h: u64|
        0 <= i < keys.len() && #[trigger] dictionary_bloom::hash_of(keys[i], h)
            ==> dictionary_bloom::found(chain, h, dictionary_bloom::second_hash(h))
}

/// Whether the filter of a field, where it has one, may have the key of every
/// text of the parts.
pub open spec fn filter_covers<'a>(d: SfxDictionary<'a>, field_id: u32) -> bool {
    filter_of(d.shared.filters(), field_id) matches Some(c) ==> covers(
        c,
        stored_keys(field_files(d.fields@, field_id)),
    )
}

proof fn lemma_filters_sound(s: DictionaryShared, field_id: u32)
    requires
        s.wf(),
    ensures
        filter_of(s.filters(), field_id) matches Some(c) ==> dictionary_bloom::sound(c),
{
    lemma_filter_among(s.filters(), field_id);
    if filter_of(s.filters(), field_id) is Some {
        let i = choose|i: int|
            0 <= i < s.filters().len() && (#[trigger] s.filters()[i]).1 == filter_of(
                s.filters(),
                field_id,
            )->0;
        assert(s.filters@[i].1.wf());
    }
}

proof fn lemma_filter_among(filters: Seq<(u32, Seq<Filter>)>, field_id: u32)
    ensures
        filter_of(filters, field_id) matches Some(c) ==> exists|i: int|
            0 <= i < filters.len() && (#[trigger] filters[i]).1 == c,
    decreases filters.len(),
{
    if filters.len() > 0 {
        if filters[0].0 == field_id {
            assert(filters[0].1 == filter_of(filters, field_id)->0);
        } else {
            lemma_filter_among(filters.drop_first(), field_id);
            if filter_of(filters, field_id) is Some {
                let rest = filters.drop_first();
                let i = choose|i: int|
                    0 <= i < rest.len() && (#[trigger] rest[i]).1 == filter_of(filters, field_id)->0;
                assert(filters[i + 1] == rest[i]);
            }
        }
    }
}

/// The filter that a lookup finds or makes is whole and has the key of every
/// text.
proof fn lemma_ready_filter<'a>(d: SfxDictionary<'a>, field_id: u32, chain: Seq<Filter>)
    requires
        d.wf(),
        dictionary_bloom::hashes_agree(),
        counter(d.shared.next(), field_id) <= u32::MAX,
        filter_covers(d, field_id),
        filter_ready(d.shared, field_id, field_files(d.fields@, field_id), chain),
    ensures
        dictionary_bloom::sound(chain),
        covers(chain, stored_keys(field_files(d.fields@, field_id))),
{
    lemma_filters_sound(d.shared, field_id);
    let keys = stored_keys(field_files(d.fields@, field_id));
    if filter_of(d.shared.filters(), field_id) is None {
        let minted = counter(d.shared.next(), field_id);
        let first = seq![first_filter(minted)];
        let hashes = choose|hashes: Seq<u64>|
            chain == #[trigger] dictionary_bloom::after_all(first, hashes)
                && dictionary_bloom::hashes_of(keys, hashes);
        assert(first[0].sound());
        assert(dictionary_bloom::sound(first));
        if hashes.len() > 0 {
            dictionary_bloom::inserted_keys_are_found(first, hashes, 0);
        }
        assert forall|i: int, h: u64|
            0 <= i < keys.len() && #[trigger] dictionary_bloom::hash_of(keys[i], h) implies
            dictionary_bloom::found(chain, h, dictionary_bloom::second_hash(h)) by {
            dictionary_bloom::a_filter_has_what_it_was_given(first, keys, hashes, i, h);
        }
    }
}

/// Law: a filter that may have the key of every text of the parts still does
/// after a lookup, whichever token is looked up, where equal keys get equal
/// hashes. A field without a filter gets one that does.
pub proof fn lookups_keep_filters_covering<'a, W: Fn(Vec<u8>, Vec<u8>) -> Vec<Vec<ParentEntryV3>>>(
    before: SfxDictionary<'a>,
    after: SfxDictionary<'a>,
    field_id: u32,
    key: Seq<char>,
    key_hash: u64,
    filter_hash: u64,
    text: Seq<char>,
    m: TokenMetaV3,
    walk: W,
    r: (u64, bool),
    other: u32,
)
    requires
        before.wf(),
        after.fields == before.fields,
        dictionary_bloom::hashes_agree(),
        counter(before.shared.next(), field_id) <= u32::MAX,
        mint_outcome(before, after, field_id, key, key_hash, filter_hash, text, m, walk, r),
        filter_covers(before, field_id),
        filter_covers(before, other),
    ensures
        filter_covers(after, other),
{
    let s = before.shared;
    let files = field_files(before.fields@, field_id);
    let known = lookup_cache::cached(s.cache_keys(), s.cache_ids(), key_hash);
    if other == field_id && !(known is Some && confirms(files, known->0, text, m)) {
        let (chain, walked) = choose|chain: Seq<Filter>, walked: Option<u64>|
            #[trigger] ready_and_walked(
                s,
                field_id,
                files,
                chain,
                walk,
                filter_hash,
                text,
                m,
                walked,
            ) && filter_of(after.shared.filters(), field_id) == Some(
                if r.1 {
                    dictionary_bloom::after_insert(
                        chain,
                        filter_hash,
                        dictionary_bloom::second_hash(filter_hash),
                    )
                } else {
                    chain
                },
            );
        lemma_ready_filter(before, field_id, chain);
        let keys = stored_keys(files);
        if r.1 {
            let h2 = dictionary_bloom::second_hash(filter_hash);
            let next = dictionary_bloom::after_insert(chain, filter_hash, h2);
            assert forall|i: int, h: u64|
                0 <= i < keys.len() && #[trigger] dictionary_bloom::hash_of(keys[i], h) implies
                dictionary_bloom::found(next, h, dictionary_bloom::second_hash(h)) by {
                dictionary_bloom::found_keys_stay_found(
                    chain,
                    filter_hash,
                    h2,
                    h,
                    dictionary_bloom::second_hash(h),
                );
            }
        }
    }
}

/// Law: a token that the parts have is found there and gets no new id, also
/// where its field has no filter yet, if equal keys get equal hashes, the texts
/// have the token under one id only and a walk gives that id.
pub proof fn written_token_is_found<'a, W: Fn(Vec<u8>, Vec<u8>) -> Vec<Vec<ParentEntryV3>>>(
    before: SfxDictionary<'a>,
    after: SfxDictionary<'a>,
    field_id: u32,
    key: Seq<char>,
    key_hash: u64,
    filter_hash: u64,
    text: Seq<char>,
    m: TokenMetaV3,
    walk: W,
    id: u64,
    r: (u64, bool),
)
    requires
        before.wf(),
        dictionary_bloom::hashes_agree(),
        counter(before.shared.next(), field_id) <= u32::MAX,
        filter_covers(before, field_id),
        dictionary_bloom::hash_of(encode_utf8(key), filter_hash),
        mint_outcome(before, after, field_id, key, key_hash, filter_hash, text, m, walk, r),
        field_files(before.fields@, field_id) is Some,
        stored_keys(field_files(before.fields@, field_id)).contains(encode_utf8(key)),
        forall|k: u64| #[trigger]
            confirms(field_files(before.fields@, field_id), k, text, m) ==> k == id,
        forall|w: Option<u64>| #[trigger]
            walk_gave(walk, field_files(before.fields@, field_id)->0, text, m, w) ==> w == Some(id),
    ensures
        r == (id, false),
        after.shared.next() == before.shared.next(),
        after.shared.epochs() == before.shared.epochs(),
{
    let s = before.shared;
    let files = field_files(before.fields@, field_id);
    let known = lookup_cache::cached(s.cache_keys(), s.cache_ids(), key_hash);
    if !(known is Some && confirms(files, known->0, text, m)) {
        let (chain, walked) = choose|chain: Seq<Filter>, walked: Option<u64>|
            #[trigger] ready_and_walked(
                s,
                field_id,
                files,
                chain,
                walk,
                filter_hash,
                text,
                m,
                walked,
            ) && r == settled(
                walked,
                dictionary_pending::pending_id(s.epochs(), field_id, encode_utf8(key)),
                counter(s.next(), field_id),
            );
        lemma_ready_filter(before, field_id, chain);
        let keys = stored_keys(files);
        let i = choose|i: int| 0 <= i < keys.len() && keys[i] == encode_utf8(key);
        assert(dictionary_bloom::hash_of(keys[i], filter_hash));
    }
}

} // verus!
