//! Which stored tokens are the one looked up: those with its text and its key.

use vstd::prelude::*;
use vstd::utf8::*;

use crate::collector_v3;
use crate::collector_v3::TokenMetaV3;
use crate::dictionary;
use crate::dictionary::SfxDictionary;
use crate::dictionary_bloom;
use crate::dictionary_lookup;
use crate::dictionary_lookup::ParentEntryV3;
use crate::intern_key;
use crate::intern_key::intern_key;
use crate::termtexts_v3;
use crate::termtexts_v3::{TermMetaV3, TextFile};

verus! {

/// The key of a token of this text and shape.
pub open spec fn key_of(text: Seq<char>, m: TokenMetaV3) -> Seq<char> {
    intern_key::key_text(text, m.is_word_stripped, m.own_len, m.sep_len, m.is_word_start)
}

/// The key of the token that a parent among words, or among chunks, is the
/// whole of.
pub open spec fn parent_key(text: Seq<char>, words: bool, p: ParentEntryV3) -> Seq<char> {
    intern_key::key_text(text, words, p.own_len, p.sep_len, p.is_word_start)
}

/// The key of a stored token.
pub open spec fn stored_key(text: Seq<char>, m: TermMetaV3) -> Seq<char> {
    intern_key::key_text(text, m.is_word_stripped, m.own_len, m.sep_len, m.is_word_start)
}

/// Whether a word owns at least its separators.
pub open spec fn owns_its_separators(words: bool, own_len: u16, sep_len: u8) -> bool {
    words ==> own_len >= sep_len
}

/// Law: a parent fits a token exactly if it is of a whole token and that has,
/// with the same text, the same key: a word goes by its content alone, whatever
/// separators follow it.
pub proof fn a_parent_fits_by_its_key(text: Seq<char>, p: ParentEntryV3, m: TokenMetaV3)
    requires
        owns_its_separators(m.is_word_stripped, p.own_len, p.sep_len),
        owns_its_separators(m.is_word_stripped, m.own_len, m.sep_len),
    ensures
        dictionary_lookup::shape_fits(p, m) <==> p.sti == 0 && parent_key(text, m.is_word_stripped, p) == key_of(
            text,
            m,
        ),
{
    if parent_key(text, m.is_word_stripped, p) == key_of(text, m) {
        intern_key::keys_tell_tokens_apart(
            text,
            m.is_word_stripped,
            p.own_len,
            p.sep_len,
            p.is_word_start,
            text,
            m.is_word_stripped,
            m.own_len,
            m.sep_len,
            m.is_word_start,
        );
    }
}

/// Law: the parent of a whole token fits the tokens that are told apart from it
/// by nothing, and no others.
pub proof fn a_parent_fits_its_own_token(p: ParentEntryV3, q: TokenMetaV3, m: TokenMetaV3)
    requires
        p.sti == 0,
        p.own_len == q.own_len,
        p.sep_len == q.sep_len,
        p.is_word_start == q.is_word_start,
        q.is_word_stripped == m.is_word_stripped,
        collector_v3::shaped(q),
        collector_v3::shaped(m),
    ensures
        dictionary_lookup::shape_fits(p, m) <==> collector_v3::shape_tag(q) == collector_v3::shape_tag(m),
{
}

/// Law: a stored shape is that of a token exactly if both have, with the same
/// text, the same key.
pub proof fn a_stored_shape_is_known_by_its_key(text: Seq<char>, q: TermMetaV3, m: TokenMetaV3)
    requires
        owns_its_separators(q.is_word_stripped, q.own_len, q.sep_len),
        owns_its_separators(m.is_word_stripped, m.own_len, m.sep_len),
    ensures
        dictionary::same_shape(q, m) <==> stored_key(text, q) == key_of(text, m),
{
    if stored_key(text, q) == key_of(text, m) {
        intern_key::keys_tell_tokens_apart(
            text,
            q.is_word_stripped,
            q.own_len,
            q.sep_len,
            q.is_word_start,
            text,
            m.is_word_stripped,
            m.own_len,
            m.sep_len,
            m.is_word_start,
        );
    }
}

/// Whether parent `j` of part `i` is the token: a whole one with its text and
/// its key.
pub open spec fn is_held(
    files: Seq<TextFile>,
    parts: Seq<Seq<ParentEntryV3>>,
    i: int,
    j: int,
    text: Seq<char>,
    m: TokenMetaV3,
) -> bool {
    &&& 0 <= i < parts.len()
    &&& 0 <= j < parts[i].len()
    &&& parts[i][j].sti == 0
    &&& parent_key(text, m.is_word_stripped, parts[i][j]) == key_of(text, m)
    &&& termtexts_v3::text_for(files, parts[i][j].raw_ordinal as u32) == Some(text)
}

/// Whether every parent among words owns at least its separators.
pub open spec fn parents_shaped(parts: Seq<Seq<ParentEntryV3>>, words: bool) -> bool {
    forall|i: int, j: int|
        0 <= i < parts.len() && 0 <= j < parts[i].len() ==> owns_its_separators(
            words,
            (#[trigger] parts[i][j]).own_len,
            parts[i][j].sep_len,
        )
}

proof fn lemma_pick_in(
    files: Seq<TextFile>,
    parents: Seq<ParentEntryV3>,
    text: Seq<char>,
    m: TokenMetaV3,
    k: int,
)
    requires
        0 <= k <= parents.len(),
    ensures
        match dictionary_lookup::pick_in(files, parents, text, m, k) {
            Some(id) => exists|j: int|
                k <= j < parents.len() && dictionary_lookup::is_token(files, #[trigger] parents[j], text, m)
                    && parents[j].raw_ordinal == id,
            None => forall|j: int|
                k <= j < parents.len() ==> !dictionary_lookup::is_token(files, #[trigger] parents[j], text, m),
        },
    decreases parents.len() - k,
{
    if k < parents.len() {
        if !dictionary_lookup::is_token(files, parents[k], text, m) {
            lemma_pick_in(files, parents, text, m, k + 1);
        }
    }
}

proof fn lemma_pick(
    files: Seq<TextFile>,
    parts: Seq<Seq<ParentEntryV3>>,
    text: Seq<char>,
    m: TokenMetaV3,
    k: int,
)
    requires
        0 <= k <= parts.len(),
        owns_its_separators(m.is_word_stripped, m.own_len, m.sep_len),
        parents_shaped(parts, m.is_word_stripped),
    ensures
        match dictionary_lookup::pick(files, parts, text, m, k) {
            Some(id) => exists|i: int, j: int|
                k <= i && #[trigger] is_held(files, parts, i, j, text, m) && parts[i][j].raw_ordinal == id,
            None => forall|i: int, j: int| k <= i ==> !#[trigger] is_held(files, parts, i, j, text, m),
        },
    decreases parts.len() - k,
{
    if k < parts.len() {
        lemma_pick_in(files, parts[k], text, m, 0);
        lemma_pick(files, parts, text, m, k + 1);
        assert forall|j: int| 0 <= j < parts[k].len() implies (dictionary_lookup::is_token(
            files,
            #[trigger] parts[k][j],
            text,
            m,
        ) <==> is_held(files, parts, k, j, text, m)) by {
            a_parent_fits_by_its_key(text, parts[k][j], m);
        }
        match dictionary_lookup::pick_in(files, parts[k], text, m, 0) {
            Some(id) => {
                let j = choose|j: int|
                    0 <= j < parts[k].len() && dictionary_lookup::is_token(
                        files,
                        #[trigger] parts[k][j],
                        text,
                        m,
                    ) && parts[k][j].raw_ordinal == id;
                assert(k <= k && is_held(files, parts, k, j, text, m));
            },
            None => {
                assert forall|i: int, j: int|
                    k <= i && dictionary_lookup::pick(files, parts, text, m, k) is None implies !#[trigger] is_held(
                    files,
                    parts,
                    i,
                    j,
                    text,
                    m,
                ) by {
                    if i == k && 0 <= j < parts[k].len() {
                        assert(!dictionary_lookup::is_token(files, parts[k][j], text, m));
                    }
                }
            },
        }
    }
}

/// Law: among the parents that the parts have under a token's key, one is
/// picked exactly if one is the token, with its text and its key, and then the
/// one picked is such a one.
pub proof fn the_token_is_picked_where_it_is_held(
    files: Seq<TextFile>,
    parts: Seq<Seq<ParentEntryV3>>,
    text: Seq<char>,
    m: TokenMetaV3,
)
    requires
        owns_its_separators(m.is_word_stripped, m.own_len, m.sep_len),
        parents_shaped(parts, m.is_word_stripped),
    ensures
        dictionary_lookup::pick(files, parts, text, m, 0) is Some <==> exists|i: int, j: int| #[trigger]
            is_held(files, parts, i, j, text, m),
        dictionary_lookup::pick(files, parts, text, m, 0) matches Some(id) ==> exists|i: int, j: int|
            #[trigger]
            is_held(files, parts, i, j, text, m) && parts[i][j].raw_ordinal == id,
{
    lemma_pick(files, parts, text, m, 0);
    if exists|i: int, j: int| #[trigger] is_held(files, parts, i, j, text, m) {
        let (i, j) = choose|i: int, j: int| #[trigger] is_held(files, parts, i, j, text, m);
        assert(0 <= i);
    }
}

/// Whether these parents hold the token, and under no other id than this.
pub open spec fn hold_it_as(
    files: Seq<TextFile>,
    parts: Seq<Seq<ParentEntryV3>>,
    text: Seq<char>,
    m: TokenMetaV3,
    id: u64,
) -> bool {
    &&& parents_shaped(parts, m.is_word_stripped)
    &&& exists|i: int, j: int| #[trigger] is_held(files, parts, i, j, text, m)
    &&& forall|i: int, j: int| #[trigger]
        is_held(files, parts, i, j, text, m) ==> parts[i][j].raw_ordinal == id
}

/// Whether the texts have the token, by its text and its key, under no other
/// id than this.
pub open spec fn stored_only_as(files: Seq<TextFile>, text: Seq<char>, m: TokenMetaV3, id: u64) -> bool {
    forall|k: u32|
        #![trigger termtexts_v3::meta_for(files, k)]
        (termtexts_v3::meta_for(files, k) matches Some(q) ==> {
            &&& owns_its_separators(q.is_word_stripped, q.own_len, q.sep_len)
            &&& termtexts_v3::text_for(files, k) == Some(text) && stored_key(text, q) == key_of(text, m) ==> k == id
        })
}

/// Law: looking up a token that the parts hold, by its text and its key, gives
/// the id it has there and no new one, whatever separators follow a word this
/// time.
pub proof fn a_held_token_gets_no_new_id<'a, W: Fn(Vec<u8>, Vec<u8>) -> Vec<Vec<ParentEntryV3>>>(
    before: SfxDictionary<'a>,
    after: SfxDictionary<'a>,
    field_id: u32,
    key_hash: u64,
    filter_hash: u64,
    text: Seq<char>,
    m: TokenMetaV3,
    walk: W,
    id: u64,
    r: (u64, bool),
)
    requires
        before.wf(),
        dictionary_bloom::hashes_agree(),
        owns_its_separators(m.is_word_stripped, m.own_len, m.sep_len),
        dictionary::counter(before.shared.next(), field_id) <= u32::MAX,
        dictionary::filter_covers(before, field_id),
        dictionary_bloom::hash_of(encode_utf8(key_of(text, m)), filter_hash),
        dictionary::mint_outcome(
            before,
            after,
            field_id,
            key_of(text, m),
            key_hash,
            filter_hash,
            text,
            m,
            walk,
            r,
        ),
        dictionary::field_files(before.fields@, field_id) is Some,
        dictionary::stored_keys(dictionary::field_files(before.fields@, field_id)).contains(
            encode_utf8(key_of(text, m)),
        ),
        stored_only_as(dictionary::field_files(before.fields@, field_id)->0, text, m, id),
        forall|k: Vec<u8>, o: Vec<u8>, parts: Vec<Vec<ParentEntryV3>>| #[trigger]
            call_ensures(walk, (k, o), parts) && k@ == dictionary_lookup::key_bytes(
                text,
                m.is_word_stripped,
                m.own_len,
                m.overlap_len,
            ) && o@ == dictionary_lookup::wanted_overlap(text, m.is_word_stripped, m.own_len, m.overlap_len)
                ==> hold_it_as(
                dictionary::field_files(before.fields@, field_id)->0,
                collector_v3::contents(parts@),
                text,
                m,
                id,
            ),
    ensures
        r == (id, false),
        after.shared.next() == before.shared.next(),
        after.shared.epochs() == before.shared.epochs(),
{
    let files = dictionary::field_files(before.fields@, field_id);
    assert forall|k: u64| #[trigger] dictionary::confirms(files, k, text, m) implies k == id by {
        let q = termtexts_v3::meta_for(files->0, k as u32)->0;
        a_stored_shape_is_known_by_its_key(text, q, m);
    }
    assert forall|w: Option<u64>| #[trigger] dictionary::walk_gave(walk, files->0, text, m, w) implies w == Some(
        id,
    ) by {
        let (k, o, parts) = choose|k: Vec<u8>, o: Vec<u8>, parts: Vec<Vec<ParentEntryV3>>| #[trigger]
            call_ensures(walk, (k, o), parts) && {
                &&& k@ == dictionary_lookup::key_bytes(text, m.is_word_stripped, m.own_len, m.overlap_len)
                &&& o@ == dictionary_lookup::wanted_overlap(
                    text,
                    m.is_word_stripped,
                    m.own_len,
                    m.overlap_len,
                )
                &&& dictionary_lookup::pick(files->0, collector_v3::contents(parts@), text, m, 0) == w
            };
        the_token_is_picked_where_it_is_held(files->0, collector_v3::contents(parts@), text, m);
    }
    dictionary::written_token_is_found(
        before,
        after,
        field_id,
        key_of(text, m),
        key_hash,
        filter_hash,
        text,
        m,
        walk,
        id,
        r,
    );
}

} // verus!
