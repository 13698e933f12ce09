//! What a merge of generations takes and what its suffixes are made of.

use vstd::prelude::*;
use vstd::utf8::*;

use crate::dictionary_compact;
use crate::dictionary_compact::{SuffixToken, UnionEntry};
use crate::dictionary_generation;
use crate::dictionary_generation::FoundPart;
use crate::dictionary_lookup;
use crate::dictionary_lookup::{MAX_OVERLAP_BYTES, ParentEntryV3, SI0_PREFIX, SI_REST_PREFIX, SI_STRIPPED_PREFIX};
use crate::file_v3;
use crate::file_walk;
use crate::order;
use crate::order::Ordered;
use crate::suffix_terms;
use crate::termtexts_v3::TermMetaV3;
use crate::text;
use crate::walk_laws;

verus! {

/// Law: a merge takes generations that are there, in order, as many as bring
/// their number down to half of what is allowed, and leaves none that is
/// smaller than one it takes.
pub proof fn a_merge_takes_the_smallest(live: Seq<(u64, u64)>, max_generations: usize, g: u64)
    requires
        live.len() > max_generations,
        live.len() > 1,
        forall|i: int, j: int| 0 <= i < j < live.len() ==> (#[trigger] live[i]).0 != (#[trigger] live[j]).0,
    ensures
        ({
            let chosen = dictionary_compact::smallest(live, max_generations);
            &&& live.len() - chosen.len() + 1 == if max_generations <= 3 {
                1
            } else {
                max_generations as int / 2
            }
            &&& forall|i: int, j: int| 0 <= i < j < chosen.len() ==> (#[trigger] chosen[i]) <= (#[trigger] chosen[j])
            &&& chosen.contains(g) ==> exists|i: int| 0 <= i < live.len() && (#[trigger] live[i]).0 == g
            &&& forall|i: int, j: int|
                0 <= i < live.len() && 0 <= j < live.len() && chosen.contains((#[trigger] live[i]).0)
                    && !chosen.contains((#[trigger] live[j]).0) ==> live[i].1 <= live[j].1
        }),
{
    let sized = dictionary_compact::by_size(live);
    let all = order::sorted(sized);
    let n = live.len() - dictionary_compact::aimed_at(max_generations) + 1;
    let some = all.take(n);
    let list = dictionary_compact::generations_of(some);
    let chosen = dictionary_compact::smallest(live, max_generations);
    order::lemma_sorted(sized);
    order::lemma_sorted_items(sized);
    order::lemma_sorted(list);
    order::lemma_sorted_items(list);
    assert(dictionary_compact::aimed_at(max_generations) == if max_generations <= 3 {
        1
    } else {
        max_generations as int / 2
    });
    assert(0 <= n <= live.len());
    assert forall|i: int, j: int| 0 <= i < j < chosen.len() implies (#[trigger] chosen[i]) <= (#[trigger] chosen[j]) by {
        assert(chosen[i].not_after(chosen[j]));
    }
    assert forall|x: u64| #[trigger] list.contains(x) implies exists|k: int|
        0 <= k < n && (#[trigger] all[k]).1 == x by {
        let k = choose|k: int| 0 <= k < list.len() && list[k] == x;
        assert(all[k].1 == x);
    }
    if chosen.contains(g) {
        let k = choose|k: int| 0 <= k < n && (#[trigger] all[k]).1 == g;
        assert(all.contains(all[k]));
        let i = choose|i: int| 0 <= i < sized.len() && sized[i] == all[k];
        assert(live[i].0 == g);
    }
    assert forall|i: int, j: int|
        0 <= i < live.len() && 0 <= j < live.len() && chosen.contains((#[trigger] live[i]).0) && !chosen.contains(
            (#[trigger] live[j]).0,
        ) implies live[i].1 <= live[j].1 by {
        assert(list.contains(live[i].0));
        let a = choose|a: int| 0 <= a < n && (#[trigger] all[a]).1 == live[i].0;
        assert(all.contains(all[a]));
        let x = choose|x: int| 0 <= x < sized.len() && sized[x] == all[a];
        assert(live[x].0 == live[i].0);
        assert(x == i);
        assert(sized[j] == (live[j].1, live[j].0));
        assert(sized.contains(sized[j]));
        assert(all.contains(sized[j]));
        let b = choose|b: int| 0 <= b < all.len() && all[b] == sized[j];
        if b < n {
            assert(list[b] == live[j].0);
            assert(list.contains(live[j].0));
        }
        assert(all[a].not_after(all[b]));
    }
}

proof fn lemma_whole(found: Seq<FoundPart>)
    ensures
        forall|p: FoundPart| #[trigger]
            found.filter(dictionary_generation::is_whole()).contains(p) <==> found.contains(p) && p.sfx is Some
                && p.termtexts is Some,
{
    let keep = dictionary_generation::is_whole();
    let whole = found.filter(keep);
    assert forall|p: FoundPart| #[trigger] whole.contains(p) <==> found.contains(p) && p.sfx is Some
        && p.termtexts is Some by {
        if whole.contains(p) {
            let i = choose|i: int| 0 <= i < whole.len() && whole[i] == p;
            found.lemma_filter_pred(keep, i);
            found.lemma_filter_contains_rev(keep, p);
        }
        if found.contains(p) && p.sfx is Some && p.termtexts is Some {
            let i = choose|i: int| 0 <= i < found.len() && found[i] == p;
            found.lemma_filter_contains(keep, i);
        }
    }
}

/// Whether some part has these two files.
pub open spec fn has_both(found: Seq<FoundPart>, sfx: Vec<u8>, texts: Vec<u8>) -> bool {
    exists|i: int|
        0 <= i < found.len() && (#[trigger] found[i]).sfx == Some(sfx) && found[i].termtexts == Some(texts)
}

/// Law: a part is taken, with its suffixes and its texts, exactly if it has
/// both.
pub proof fn parts_with_both_files_are_taken(found: Seq<FoundPart>, sfx: Seq<Vec<u8>>, texts: Seq<Vec<u8>>)
    requires
        dictionary_generation::picked(found, sfx, texts),
    ensures
        sfx.len() == texts.len(),
        forall|i: int|
            0 <= i < found.len() && (#[trigger] found[i]).sfx is Some && found[i].termtexts is Some ==> exists|k: int|
                0 <= k < sfx.len() && found[i].sfx == Some(#[trigger] sfx[k]) && found[i].termtexts == Some(texts[k]),
        forall|k: int| 0 <= k < sfx.len() ==> has_both(found, #[trigger] sfx[k], texts[k]),
{
    let whole = found.filter(dictionary_generation::is_whole());
    lemma_whole(found);
    assert forall|i: int|
        0 <= i < found.len() && (#[trigger] found[i]).sfx is Some && found[i].termtexts is Some implies exists|k: int|
        0 <= k < sfx.len() && found[i].sfx == Some(#[trigger] sfx[k]) && found[i].termtexts == Some(texts[k]) by {
        assert(found.contains(found[i]));
        assert(whole.contains(found[i]));
        let k = choose|k: int| 0 <= k < whole.len() && whole[k] == found[i];
        assert(whole[k].sfx == Some(sfx[k]));
        assert(whole[k].termtexts == Some(texts[k]));
    }
    assert forall|k: int| 0 <= k < sfx.len() implies has_both(found, #[trigger] sfx[k], texts[k]) by {
        assert(whole.contains(whole[k]));
        let i = choose|i: int| 0 <= i < found.len() && found[i] == whole[k];
        assert(whole[k].termtexts == Some(texts[k]));
        assert(found[i].sfx == Some(sfx[k]));
    }
}

/// How many parents the lists have, all told.
pub open spec fn total(lists: Seq<Vec<ParentEntryV3>>) -> nat
    decreases lists.len(),
{
    if lists.len() == 0 {
        0
    } else {
        total(lists.drop_last()) + lists.last()@.len()
    }
}

/// Law: a key that several parts hold has the parents of all of them, none left
/// out and none besides.
pub proof fn a_shared_key_has_all_parents(lists: Seq<Vec<ParentEntryV3>>, p: ParentEntryV3)
    ensures
        dictionary_compact::joined_parents(lists).contains(p) <==> exists|i: int|
            0 <= i < lists.len() && (#[trigger] lists[i])@.contains(p),
        dictionary_compact::joined_parents(lists).len() == total(lists),
    decreases lists.len(),
{
    let all = dictionary_compact::joined_parents(lists);
    if lists.len() > 0 {
        let front = lists.drop_last();
        a_shared_key_has_all_parents(front, p);
        let before = dictionary_compact::joined_parents(front);
        file_walk::lemma_either(before, lists.last()@, p);
        if exists|i: int| 0 <= i < lists.len() && (#[trigger] lists[i])@.contains(p) {
            let i = choose|i: int| 0 <= i < lists.len() && (#[trigger] lists[i])@.contains(p);
            if i < front.len() {
                assert(front[i]@.contains(p));
            }
        }
        if before.contains(p) {
            let i = choose|i: int| 0 <= i < front.len() && (#[trigger] front[i])@.contains(p);
            assert(lists[i]@.contains(p));
        }
        if lists.last()@.contains(p) {
            assert(lists[lists.len() - 1]@.contains(p));
        }
    } else {
        assert(!all.contains(p));
    }
}

/// Law: the keys that are counted as merged are those that not one part alone
/// holds.
pub proof fn merged_keys_are_counted(union: Seq<UnionEntry>, n: int)
    requires
        0 <= n <= union.len(),
    ensures
        dictionary_compact::shared_keys(union, n) == union.take(n).filter(
            |e: UnionEntry| e.held@.len() != 1,
        ).len(),
    decreases n,
{
    reveal(Seq::filter);
    if n > 0 {
        merged_keys_are_counted(union, n - 1);
        assert(union.take(n).drop_last() =~= union.take(n - 1));
        assert(union.take(n).last() == union[n - 1]);
    }
}

/// Law: a token of a generation is its entry's: under its id and with its shape,
/// its text and its overlap together the entry's text, and of a word the overlap
/// as long as the shape says.
pub proof fn a_suffix_token_has_its_entrys_text<'a>(t: SuffixToken<'a>, e: (u32, String, TermMetaV3))
    requires
        dictionary_compact::token_of(t, e),
    ensures
        t.ordinal == e.0,
        t.meta == e.2,
        t.is_word_stripped == e.2.is_word_stripped,
        encode_utf8(t.text@) + encode_utf8(t.overlap@) == encode_utf8(e.1@),
        e.2.is_word_stripped && e.2.overlap_len <= encode_utf8(e.1@).len() ==> encode_utf8(t.overlap@).len()
            == e.2.overlap_len,
        !e.2.is_word_stripped ==> t.text@ == e.1@,
{
    let b = encode_utf8(e.1@);
    if e.2.is_word_stripped {
        assert(encode_utf8(t.text@) + encode_utf8(t.overlap@) =~= b);
    } else {
        assert(t.overlap@ =~= Seq::<char>::empty());
        assert(encode_utf8(t.overlap@).len() == 0);
        assert(encode_utf8(t.text@) + encode_utf8(t.overlap@) =~= b);
    }
}

/// Law: the own text of a token and its overlap are its text, cut where a
/// chunk's own length ends, or where a word's overlap starts.
pub proof fn own_text_and_overlap_are_the_text(text: Seq<char>, words: bool, own_len: u16, overlap_len: u8)
    requires
        dictionary_lookup::splits(text, words, own_len, overlap_len),
    ensures
        ({
            let own = encode_utf8(dictionary_lookup::own_text(text, words, own_len, overlap_len));
            let over = encode_utf8(dictionary_lookup::overlap_text(text, words, own_len, overlap_len));
            let b = encode_utf8(text);
            &&& own + over == b
            &&& !words && own_len <= b.len() ==> own.len() == own_len
            &&& words && overlap_len <= b.len() ==> over.len() == overlap_len
        }),
{
    let b = encode_utf8(text);
    let end = dictionary_lookup::own_end(b, words, own_len, overlap_len);
    encode_utf8_valid_utf8(text);
    valid_utf8_split(b, end);
    decode_utf8_encode_utf8(b.subrange(0, end));
    decode_utf8_encode_utf8(b.subrange(end, b.len() as int));
    assert(b.subrange(0, end) + b.subrange(end, b.len() as int) =~= b);
}

/// Law: the key of a token is a byte that tells words from chunks, and its own
/// text in lower case; it is found by as much of its overlap, in lower case, as
/// whole characters fill in what a parent keeps.
pub proof fn a_token_is_keyed_by_its_own_text(text: Seq<char>, words: bool, own_len: u16, overlap_len: u8)
    ensures
        ({
            let key = dictionary_lookup::key_bytes(text, words, own_len, overlap_len);
            &&& key.len() > 0
            &&& key[0] == if words {
                SI_STRIPPED_PREFIX
            } else {
                SI0_PREFIX
            }
            &&& key.skip(1) == encode_utf8(
                text::lowered(dictionary_lookup::own_text(text, words, own_len, overlap_len)),
            )
            &&& text::is_head(
                dictionary_lookup::wanted_overlap(text, words, own_len, overlap_len),
                encode_utf8(
                    text::lowered(dictionary_lookup::overlap_text(text, words, own_len, overlap_len)),
                ),
                MAX_OVERLAP_BYTES as int,
            )
        }),
{
    let key = dictionary_lookup::key_bytes(text, words, own_len, overlap_len);
    let own = text::lowered(dictionary_lookup::own_text(text, words, own_len, overlap_len));
    let over = text::lowered(dictionary_lookup::overlap_text(text, words, own_len, overlap_len));
    assert(key.skip(1) =~= encode_utf8(own));
    encode_utf8_valid_utf8(over);
    text::a_head_is_the_longest_that_fits(encode_utf8(over), MAX_OVERLAP_BYTES as int);
}

/// Whether the term is of a partition and its text is this.
pub open spec fn is_term_of(t: (Seq<u8>, Seq<ParentEntryV3>), text: Seq<char>) -> bool {
    &&& t.0[0] == SI0_PREFIX || t.0[0] == SI_REST_PREFIX || t.0[0] == SI_STRIPPED_PREFIX
    &&& t.0.skip(1) == encode_utf8(text)
}

proof fn lemma_parents_has(
    terms: Seq<(Seq<u8>, Seq<ParentEntryV3>)>,
    partition: u8,
    text: Seq<char>,
    p: ParentEntryV3,
)
    requires
        suffix_terms::ascending(terms),
    ensures
        suffix_terms::parents_of(terms, file_walk::key_of(partition, text)).contains(p) <==> exists|
            t: (Seq<u8>, Seq<ParentEntryV3>),
        | #[trigger]
            terms.contains(t) && t.0[0] == partition && t.0.skip(1) == encode_utf8(text) && t.1.contains(p),
{
    let key = file_walk::key_of(partition, text);
    let ps = suffix_terms::parents_of(terms, key);
    assert(key.skip(1) =~= encode_utf8(text));
    if ps.contains(p) {
        walk_laws::a_key_has_the_parents_of_its_term(terms, key, ps);
        let j = choose|j: int| 0 <= j < terms.len() && (#[trigger] terms[j]).0 == key;
        walk_laws::a_key_has_the_parents_of_its_term(terms, key, terms[j].1);
        assert(terms[j] == (key, terms[j].1));
        assert(terms.contains(terms[j]));
    }
    if exists|t: (Seq<u8>, Seq<ParentEntryV3>)| #[trigger]
        terms.contains(t) && t.0[0] == partition && t.0.skip(1) == encode_utf8(text) && t.1.contains(p) {
        let t = choose|t: (Seq<u8>, Seq<ParentEntryV3>)| #[trigger]
            terms.contains(t) && t.0[0] == partition && t.0.skip(1) == encode_utf8(text) && t.1.contains(p);
        let j = choose|j: int| 0 <= j < terms.len() && terms[j] == t;
        assert(terms[j].0.len() > 0);
        assert(t.0 =~= key) by {
            assert(t.0 =~= seq![t.0[0]] + t.0.skip(1));
        }
        assert(t == (key, t.1));
        walk_laws::a_key_has_the_parents_of_its_term(terms, key, t.1);
    }
}

/// Law: a suffix, in any case, resolves to the parents that the terms of its
/// lower case have: of chunks that start with it, of those it starts later in,
/// and of words; no other and none left out.
pub proof fn a_suffix_resolves_to_chunks_and_words(
    terms: Seq<(Seq<u8>, Seq<ParentEntryV3>)>,
    suffix: Seq<char>,
    p: ParentEntryV3,
)
    requires
        suffix_terms::ascending(terms),
    ensures
        file_v3::resolved(terms, suffix).contains(p) <==> exists|t: (Seq<u8>, Seq<ParentEntryV3>)| #[trigger]
            terms.contains(t) && is_term_of(t, text::lowered(suffix)) && t.1.contains(p),
{
    let lower = text::lowered(suffix);
    let a = suffix_terms::parents_of(terms, file_walk::key_of(SI0_PREFIX, lower));
    let b = suffix_terms::parents_of(terms, file_walk::key_of(SI_REST_PREFIX, lower));
    let c = suffix_terms::parents_of(terms, file_walk::key_of(SI_STRIPPED_PREFIX, lower));
    lemma_parents_has(terms, SI0_PREFIX, lower, p);
    lemma_parents_has(terms, SI_REST_PREFIX, lower, p);
    lemma_parents_has(terms, SI_STRIPPED_PREFIX, lower, p);
    file_walk::lemma_either(a, b, p);
    file_walk::lemma_either(a + b, c, p);
    if exists|t: (Seq<u8>, Seq<ParentEntryV3>)| #[trigger]
        terms.contains(t) && is_term_of(t, lower) && t.1.contains(p) {
        let t = choose|t: (Seq<u8>, Seq<ParentEntryV3>)| #[trigger]
            terms.contains(t) && is_term_of(t, lower) && t.1.contains(p);
        assert(terms.contains(t));
    }
    if a.contains(p) {
        let t = choose|t: (Seq<u8>, Seq<ParentEntryV3>)| #[trigger]
            terms.contains(t) && t.0[0] == SI0_PREFIX && t.0.skip(1) == encode_utf8(lower) && t.1.contains(p);
        assert(is_term_of(t, lower));
    }
    if b.contains(p) {
        let t = choose|t: (Seq<u8>, Seq<ParentEntryV3>)| #[trigger]
            terms.contains(t) && t.0[0] == SI_REST_PREFIX && t.0.skip(1) == encode_utf8(lower) && t.1.contains(p);
        assert(is_term_of(t, lower));
    }
    if c.contains(p) {
        let t = choose|t: (Seq<u8>, Seq<ParentEntryV3>)| #[trigger]
            terms.contains(t) && t.0[0] == SI_STRIPPED_PREFIX && t.0.skip(1) == encode_utf8(lower) && t.1.contains(p);
        assert(is_term_of(t, lower));
    }
}

} // verus!
