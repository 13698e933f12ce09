//! What a collector hands on: the tokens under their final ordinals, with
//! their postings, words and links.

use vstd::prelude::*;
use vstd::relations::*;
use vstd::seq_lib::*;
use vstd::string::*;
use vstd::utf8::*;

use crate::bytes;
use crate::bytes::part;
use crate::collector_v3;
use crate::collector_v3::{Collected, TokenMetaV3, WordStrippedEntry, tag_for};
use crate::order;
use crate::order::{sort, without_repeats};
use crate::posmap;
use crate::sibling_table;
use crate::sibling_table::SiblingTableWriter;
use crate::termtexts_v3::TermMetaV3;
use crate::text::str_copy;
use crate::text_order;
use crate::text_order::{SortKey, sort_by_keys};
use crate::word_pos_map;
use crate::word_pos_map::{ORDINAL_LIMIT, WordPosMapWriter};

verus! {

/// An occurrence of a word.
#[derive(Debug, Clone, Copy, PartialEq, Eq, Structural)]
pub struct WordPostingEntry {
    /// The document.
    pub doc_id: u32,
    /// The position of its first chunk.
    pub first_position: u32,
    /// The position of its last chunk.
    pub last_position: u32,
    /// Where its content starts in the value.
    pub byte_from: u32,
    /// Where its content ends in the value.
    pub byte_to: u32,
    /// Where in the first chunk it starts.
    pub tail_off: u16,
}

/// The tokens by text, then by number.
pub open spec fn by_text(texts: Seq<Seq<u8>>) -> spec_fn(u32, u32) -> bool {
    |a: u32, b: u32|
        text_order::lex_lt(texts[a as int], texts[b as int]) || (texts[a as int] == texts[b as int] && a <= b)
}

/// The tokens, chunks first, by text and shape, then by number.
pub open spec fn by_shape(texts: Seq<Seq<u8>>, metas: Seq<TokenMetaV3>) -> spec_fn(u32, u32) -> bool {
    |a: u32, b: u32|
        {
            let x = metas[a as int];
            let y = metas[b as int];
            let same = x.is_word_stripped == y.is_word_stripped;
            ||| !x.is_word_stripped && y.is_word_stripped
            ||| same && text_order::lex_lt(texts[a as int], texts[b as int])
            ||| same && texts[a as int] == texts[b as int] && collector_v3::shape_tag(x) < collector_v3::shape_tag(y)
            ||| same && texts[a as int] == texts[b as int] && collector_v3::shape_tag(x) == collector_v3::shape_tag(y) && a <= b
        }
}

/// The tokens by their ids, then by number.
pub open spec fn by_id(ids: Seq<u64>) -> spec_fn(u32, u32) -> bool {
    |a: u32, b: u32| ids[a as int] < ids[b as int] || (ids[a as int] == ids[b as int] && a <= b)
}

/// The first `n` tokens.
pub open spec fn all_tokens(n: nat) -> Seq<u32> {
    Seq::new(n, |i: int| i as u32)
}

/// Whether a token gets a final ordinal: a chunk always, a word where it has
/// an entry.
pub open spec fn kept(c: Collected) -> spec_fn(u32) -> bool {
    |t: u32| !c.metas[t as int].is_word_stripped || c.has_word(t)
}

/// The tokens in the order of their texts.
pub open spec fn sorted_tokens(c: Collected) -> Seq<u32> {
    all_tokens(c.texts.len()).sort_by(by_text(c.texts))
}

/// The tokens in the order of their final ordinals: by id where they have ids
/// of a dictionary, else chunks first, by text and shape.
pub open spec fn final_order(c: Collected, ids: Option<Seq<u64>>) -> Seq<u32> {
    all_tokens(c.texts.len()).filter(kept(c)).sort_by(
        match ids {
            Some(g) => by_id(g),
            None => by_shape(c.texts, c.metas),
        },
    )
}

/// The final ordinal of a token, 0 where it has none.
pub open spec fn final_ordinal(order: Seq<u32>, token: u32) -> u32 {
    if order.contains(token) {
        order.index_of(token) as u32
    } else {
        0
    }
}

/// Document and position of postings.
pub open spec fn places(p: Seq<(u32, u32, u32, u32)>) -> Seq<(u32, u32)> {
    Seq::new(p.len(), |i: int| (p[i].0, p[i].1))
}

/// The postings of a token, in order, each once; none for a word.
pub open spec fn chunk_places(c: Collected, token: u32) -> Seq<(u32, u32)> {
    if c.metas[token as int].is_word_stripped {
        Seq::empty()
    } else {
        order::dedup(order::sorted(places(c.postings[token as int])))
    }
}

/// An occurrence of a word.
pub open spec fn word_entry(p: (u32, u32, u32, u32, u32, u16)) -> WordPostingEntry {
    WordPostingEntry {
        doc_id: p.0,
        first_position: p.1,
        last_position: p.2,
        byte_from: p.3,
        byte_to: p.4,
        tail_off: p.5,
    }
}

/// The occurrences of a word; none for a chunk.
pub open spec fn word_places(c: Collected, token: u32) -> Seq<WordPostingEntry> {
    if c.metas[token as int].is_word_stripped && token < c.word_postings.len() {
        Seq::new(
            c.word_postings[token as int].len(),
            |i: int| word_entry(c.word_postings[token as int][i]),
        )
    } else {
        Seq::empty()
    }
}

/// The word slots with the first `k` occurrences of a word in them.
pub open spec fn with_places(
    docs: Seq<Seq<u32>>,
    s: Seq<WordPostingEntry>,
    ordinal: u32,
    k: int,
) -> Seq<Seq<u32>>
    decreases k,
{
    if k <= 0 {
        docs
    } else {
        let p = s[k - 1];
        posmap::with_slot(
            with_places(docs, s, ordinal, k - 1),
            p.doc_id as int,
            p.first_position as int,
            word_pos_map::word_slot(p.first_position, p.last_position, ordinal),
        )
    }
}

/// The word slots of the first `k` ordinals, given the occurrences of each.
pub open spec fn word_docs(lists: Seq<Seq<WordPostingEntry>>, k: int) -> Seq<Seq<u32>>
    decreases k,
{
    if k <= 0 {
        Seq::empty()
    } else if k - 1 >= ORDINAL_LIMIT {
        word_docs(lists, k - 1)
    } else {
        with_places(word_docs(lists, k - 1), lists[k - 1], (k - 1) as u32, lists[k - 1].len() as int)
    }
}

/// Whether a word among the first `k` ordinals has an ordinal that does not
/// fit in a slot.
pub open spec fn overflows(lists: Seq<Seq<WordPostingEntry>>, k: int) -> bool {
    exists|i: int| ORDINAL_LIMIT <= i < k && (#[trigger] lists[i]).len() > 0
}

/// The file of the words at positions.
pub open spec fn word_map_file(lists: Seq<Seq<WordPostingEntry>>) -> Seq<u8> {
    if overflows(lists, lists.len() as int) {
        Seq::empty()
    } else {
        word_pos_map::word_map_bytes(word_docs(lists, lists.len() as int))
    }
}

/// The occurrences of words by final ordinal.
pub open spec fn word_lists(c: Collected, order: Seq<u32>) -> Seq<Seq<WordPostingEntry>> {
    Seq::new(order.len(), |k: int| word_places(c, order[k]))
}

/// The links between final ordinals.
pub open spec fn final_links(c: Collected, order: Seq<u32>) -> Seq<(u32, u32, u16)> {
    Seq::new(
        c.pairs.len(),
        |i: int|
            (final_ordinal(order, c.pairs[i].0), final_ordinal(order, c.pairs[i].1), 0u16),
    )
}

/// The longest content of a word among the first `n` tokens.
pub open spec fn longest_word(metas: Seq<TokenMetaV3>, n: int) -> u16
    decreases n,
{
    if n <= 0 {
        0
    } else {
        let m = metas[n - 1];
        let before = longest_word(metas, n - 1);
        if m.is_word_stripped && m.own_len - m.sep_len > before {
            (m.own_len - m.sep_len) as u16
        } else {
            before
        }
    }
}

/// The shape of a token as a dictionary keeps it.
pub open spec fn term_meta(m: TokenMetaV3) -> TermMetaV3 {
    TermMetaV3 {
        own_len: m.own_len,
        sep_len: m.sep_len,
        overlap_len: m.overlap_len,
        is_word_start: m.is_word_start,
        is_word_stripped: m.is_word_stripped,
    }
}

/// The tokens new to the dictionary among the first `k` final ordinals: id,
/// text and shape.
pub open spec fn new_tokens(
    c: Collected,
    order: Seq<u32>,
    ids: Seq<u64>,
    fresh: Seq<bool>,
    k: int,
) -> Seq<(u32, Seq<u8>, TermMetaV3)>
    decreases k,
{
    if k <= 0 {
        Seq::empty()
    } else {
        let t = order[k - 1] as int;
        let before = new_tokens(c, order, ids, fresh, k - 1);
        if fresh[t] {
            before.push((ids[t] as u32, c.texts[t], term_meta(c.metas[t])))
        } else {
            before
        }
    }
}

/// New tokens, their texts as bytes.
pub open spec fn new_of(v: Seq<(u32, String, TermMetaV3)>) -> Seq<(u32, Seq<u8>, TermMetaV3)> {
    Seq::new(v.len(), |i: int| (v[i].0, encode_utf8(v[i].1@), v[i].2))
}

proof fn lemma_by_text_total(texts: Seq<Seq<u8>>)
    ensures
        total_ordering(by_text(texts)),
{
    let rel = by_text(texts);
    assert forall|a: u32, b: u32| #[trigger] rel(a, b) || #[trigger] rel(b, a) by {
        text_order::lemma_lex_total(texts[a as int], texts[b as int]);
    }
    assert forall|a: u32, b: u32| #[trigger] rel(a, b) && #[trigger] rel(b, a) implies a == b by {
        text_order::lemma_lex_irreflexive(texts[a as int]);
        if text_order::lex_lt(texts[a as int], texts[b as int]) && text_order::lex_lt(texts[b as int], texts[a as int]) {
            text_order::lemma_lex_transitive(texts[a as int], texts[b as int], texts[a as int]);
        }
    }
    assert forall|a: u32, b: u32, d: u32| #[trigger] rel(a, b) && #[trigger] rel(b, d) implies rel(
        a,
        d,
    ) by {
        if text_order::lex_lt(texts[a as int], texts[b as int]) && text_order::lex_lt(texts[b as int], texts[d as int]) {
            text_order::lemma_lex_transitive(texts[a as int], texts[b as int], texts[d as int]);
        }
    }
}

pub proof fn lemma_by_shape_total(texts: Seq<Seq<u8>>, metas: Seq<TokenMetaV3>)
    ensures
        total_ordering(by_shape(texts, metas)),
{
    let rel = by_shape(texts, metas);
    assert forall|a: u32, b: u32| #[trigger] rel(a, b) || #[trigger] rel(b, a) by {
        text_order::lemma_lex_total(texts[a as int], texts[b as int]);
    }
    assert forall|a: u32, b: u32| #[trigger] rel(a, b) && #[trigger] rel(b, a) implies a == b by {
        text_order::lemma_lex_irreflexive(texts[a as int]);
        if text_order::lex_lt(texts[a as int], texts[b as int]) && text_order::lex_lt(texts[b as int], texts[a as int]) {
            text_order::lemma_lex_transitive(texts[a as int], texts[b as int], texts[a as int]);
        }
    }
    assert forall|a: u32, b: u32, d: u32| #[trigger] rel(a, b) && #[trigger] rel(b, d) implies rel(
        a,
        d,
    ) by {
        if text_order::lex_lt(texts[a as int], texts[b as int]) && text_order::lex_lt(texts[b as int], texts[d as int]) {
            text_order::lemma_lex_transitive(texts[a as int], texts[b as int], texts[d as int]);
        }
    }
}

/// Items in the order of their keys are the items sorted by a relation that
/// orders as the keys do.
proof fn lemma_ordered_is_sorted(
    keys: Seq<SortKey>,
    rel: spec_fn(u32, u32) -> bool,
    items: Seq<u32>,
    out: Seq<u32>,
)
    requires
        text_order::in_order(keys, out),
        out.to_multiset() == items.to_multiset(),
        total_ordering(rel),
        forall|i: int| 0 <= i < items.len() ==> (#[trigger] items[i]) < keys.len(),
        forall|a: u32, b: u32|
            a < keys.len() && b < keys.len() && #[trigger] text_order::stands_before(keys, a, b) ==> rel(a, b),
    ensures
        out == items.sort_by(rel),
{
    items.lemma_sort_by_ensures(rel);
    text_order::lemma_same_items(items, out);
    assert forall|i: int, j: int| 0 <= i < j < out.len() implies #[trigger] rel(out[i], out[j]) by {
        assert(items.contains(out[i]));
        assert(items.contains(out[j]));
        assert(text_order::stands_before(keys, out[i], out[j]));
    }
    lemma_sorted_unique(out, items.sort_by(rel), rel);
}

/// The numbers up to `n`.
fn first_tokens(n: usize) -> (out: Vec<u32>)
    requires
        n <= u32::MAX,
    ensures
        out@ == all_tokens(n as nat),
{
    let mut out: Vec<u32> = Vec::new();
    let mut i: usize = 0;
    while i < n
        invariant
            i <= n <= u32::MAX,
            out@ =~= all_tokens(i as nat),
        decreases n - i,
    {
        out.push(i as u32);
        i += 1;
    }
    out
}

/// The tokens in the order of their texts.
pub(crate) fn sort_tokens(c: Ghost<Collected>, token_texts: &Vec<String>) -> (out: Vec<u32>)
    requires
        c@.texts == collector_v3::texts_of(token_texts@),
        token_texts@.len() <= u32::MAX,
    ensures
        out@ == sorted_tokens(c@),
{
    let n: usize = token_texts.len();
    let mut keys: Vec<SortKey> = Vec::new();
    let mut i: usize = 0;
    while i < n
        invariant
            i <= n,
            n == token_texts@.len(),
            keys@.len() == i,
            forall|k: int|
                0 <= k < i ==> (#[trigger] keys@[k]).group == 0 && keys@[k].last == 0 && keys@[k].text@
                    == encode_utf8(token_texts@[k]@),
        decreases n - i,
    {
        keys.push(SortKey { group: 0, text: token_texts[i].as_str().as_bytes(), last: 0 });
        i += 1;
    }
    let all = first_tokens(n);
    let out = sort_by_keys(&keys, &all);
    proof {
        lemma_by_text_total(c@.texts);
        lemma_ordered_is_sorted(keys@, by_text(c@.texts), all@, out@);
    }
    out
}

/// Every token that is kept has one final ordinal.
pub proof fn lemma_final_order(c: Collected, ids: Option<Seq<u64>>)
    requires
        c.texts.len() <= u32::MAX,
    ensures
        final_order(c, ids).no_duplicates(),
        final_order(c, ids).len() <= c.texts.len(),
        final_order(c, ids).len() == all_tokens(c.texts.len()).filter(kept(c)).len(),
        forall|t: u32|
            #[trigger] final_order(c, ids).contains(t) <==> t < c.texts.len() && kept(c)(t),
{
    let all = all_tokens(c.texts.len());
    let some = all.filter(kept(c));
    let rel = match ids {
        Some(g) => by_id(g),
        None => by_shape(c.texts, c.metas),
    };
    let order = final_order(c, ids);
    lemma_by_shape_total(c.texts, c.metas);
    assert(total_ordering(rel));
    assert(all.no_duplicates());
    order::lemma_filter_distinct(all, kept(c));
    all.lemma_filter_len(kept(c));
    some.lemma_sort_by_ensures(rel);
    text_order::lemma_same_items(order, some);
    some.lemma_multiset_has_no_duplicates();
    order.lemma_multiset_has_no_duplicates_conv();
    assert forall|t: u32| #[trigger] order.contains(t) <==> t < c.texts.len() && kept(c)(t) by {
        if some.contains(t) {
            let i = choose|i: int| 0 <= i < some.len() && some[i] == t;
            all.lemma_filter_pred(kept(c), i);
            all.lemma_filter_contains_rev(kept(c), t);
        }
        if t < c.texts.len() && kept(c)(t) {
            assert(all[t as int] == t);
            all.lemma_filter_contains(kept(c), t as int);
        }
    }
}

/// The tokens in the order of their final ordinals.
pub(crate) fn order_tokens(
    c: Ghost<Collected>,
    token_texts: &Vec<String>,
    token_meta: &Vec<TokenMetaV3>,
    pushed: &Vec<bool>,
    ids: Option<&Vec<u64>>,
) -> (out: Vec<u32>)
    requires
        c@.texts == collector_v3::texts_of(token_texts@),
        c@.metas == token_meta@,
        token_meta@.len() == token_texts@.len(),
        token_texts@.len() <= u32::MAX,
        forall|i: int| 0 <= i < token_meta@.len() ==> collector_v3::shaped(#[trigger] token_meta@[i]),
        forall|t: u32|
            #[trigger] c@.has_word(t) <==> t < pushed@.len() && pushed@[t as int],
        ids matches Some(g) ==> g@.len() == token_texts@.len(),
    ensures
        out@ == final_order(
            c@,
            match ids {
                Some(g) => Some(g@),
                None => None,
            },
        ),
{
    let n: usize = token_texts.len();
    let mut keys: Vec<SortKey> = Vec::new();
    let mut some: Vec<u32> = Vec::new();
    let mut i: usize = 0;
    proof {
        assert(all_tokens(0) =~= Seq::<u32>::empty());
        reveal(Seq::filter);
    }
    while i < n
        invariant
            i <= n,
            n == token_texts@.len(),
            n == token_meta@.len(),
            n <= u32::MAX,
            c@.texts == collector_v3::texts_of(token_texts@),
            c@.metas == token_meta@,
            forall|i: int| 0 <= i < token_meta@.len() ==> collector_v3::shaped(#[trigger] token_meta@[i]),
            forall|t: u32|
                #[trigger] c@.has_word(t) <==> t < pushed@.len() && pushed@[t as int],
            ids matches Some(g) ==> g@.len() == token_texts@.len(),
            keys@.len() == i,
            ids matches Some(g) ==> forall|k: int|
                0 <= k < i ==> (#[trigger] keys@[k]).group == g@[k] && keys@[k].last == 0
                    && keys@[k].text@ == Seq::<u8>::empty(),
            ids is None ==> forall|k: int|
                0 <= k < i ==> (#[trigger] keys@[k]).group == (if token_meta@[k].is_word_stripped {
                    1int
                } else {
                    0
                }) && keys@[k].last == collector_v3::shape_tag(token_meta@[k]) && keys@[k].text@ == encode_utf8(
                    token_texts@[k]@,
                ),
            some@ == all_tokens(i as nat).filter(kept(c@)),
        decreases n - i,
    {
        let m = &token_meta[i];
        let keep = !m.is_word_stripped || (i < pushed.len() && pushed[i]);
        proof {
            assert(all_tokens((i + 1) as nat) =~= all_tokens(i as nat).push(i as u32));
            assert(all_tokens((i + 1) as nat).drop_last() =~= all_tokens(i as nat));
            reveal(Seq::filter);
            assert(keep == kept(c@)(i as u32)) by {
                assert(c@.has_word(i as u32) <==> i < pushed@.len() && pushed@[i as int]);
            }
        }
        if keep {
            some.push(i as u32);
        }
        match ids {
            Some(g) => {
                let text = token_texts[i].as_str().as_bytes();
                keys.push(SortKey { group: g[i], text: part(text, 0, 0), last: 0 });
                assert(keys@[i as int].text@ =~= Seq::<u8>::empty());
            },
            None => {
                keys.push(
                    SortKey {
                        group: if m.is_word_stripped {
                            1
                        } else {
                            0
                        },
                        text: token_texts[i].as_str().as_bytes(),
                        last: tag_for(m),
                    },
                );
            },
        }
        i += 1;
    }
    proof {
        let all = all_tokens(n as nat);
        assert(all.no_duplicates());
        order::lemma_filter_distinct(all, kept(c@));
        assert forall|i: int| 0 <= i < some@.len() implies (#[trigger] some@[i]) < keys@.len() by {
            all.lemma_filter_contains_rev(kept(c@), some@[i]);
        }
    }
    let out = sort_by_keys(&keys, &some);
    proof {
        lemma_by_shape_total(c@.texts, c@.metas);
        let rel = match ids {
            Some(g) => by_id(g@),
            None => by_shape(c@.texts, c@.metas),
        };
        assert(total_ordering(rel));
        assert forall|a: u32, b: u32|
            a < keys@.len() && b < keys@.len() && #[trigger] text_order::stands_before(keys@, a, b) implies rel(
            a,
            b,
        ) by {
            let x = keys@[a as int];
            let y = keys@[b as int];
            match ids {
                Some(g) => {
                    text_order::lemma_lex_irreflexive(x.text@);
                },
                None => {},
            }
        }
        lemma_ordered_is_sorted(keys@, rel, some@, out@);
    }
    out
}

/// The final ordinal of each token, 0 where it has none.
pub open spec fn final_ordinals(order: Seq<u32>, n: nat) -> Seq<u32> {
    Seq::new(n, |i: int| final_ordinal(order, i as u32))
}

/// Whether each document and each position of a word can be counted.
pub open spec fn places_fit(lists: Seq<Seq<WordPostingEntry>>) -> bool {
    forall|k: int, i: int|
        0 <= k < lists.len() && 0 <= i < lists[k].len() ==> (#[trigger] lists[k][i]).doc_id
            < usize::MAX && lists[k][i].first_position < usize::MAX
}

/// Whether the words at positions fit in their file.
pub open spec fn word_map_fits(lists: Seq<Seq<WordPostingEntry>>) -> bool {
    let docs = word_docs(lists, lists.len() as int);
    &&& places_fit(lists)
    &&& overflows(lists, lists.len() as int) || (docs.len() <= u32::MAX && bytes::flat(
        word_pos_map::slot_runs(docs),
    ).len() <= u64::MAX)
}

/// Whether the words at positions and the links fit in their files.
pub open spec fn files_fit(c: Collected, order: Seq<u32>) -> bool {
    &&& word_map_fits(word_lists(c, order))
    &&& bytes::flat(
        sibling_table::link_runs(order.len() as u32, sibling_table::rows(final_links(c, order))),
    ).len() <= u32::MAX
}

/// What a collector hands on.
pub struct SfxCollectorDataV3 {
    /// The tokens in the order of their texts.
    pub sorted_indices: Vec<u32>,
    /// The final ordinal of each token, 0 where it has none.
    pub intern_to_final: Vec<u32>,
    /// The texts by token.
    pub token_texts: Vec<String>,
    /// The shapes by token.
    pub token_meta: Vec<TokenMetaV3>,
    /// The texts by final ordinal.
    pub tokens: Vec<String>,
    /// Document and position of each occurrence, by final ordinal.
    pub content_postings: Vec<Vec<(u32, u32)>>,
    /// The own lengths by final ordinal.
    pub own_lens: Vec<u16>,
    /// Number of final ordinals.
    pub num_content_ords: usize,
    /// Number of documents.
    pub num_docs: u32,
    /// Bytes of the shortest suffix to index.
    pub min_suffix_len: usize,
    /// The words.
    pub word_stripped: Vec<WordStrippedEntry>,
    /// The occurrences of words, by final ordinal.
    pub word_postings: Vec<Vec<WordPostingEntry>>,
    /// The file of the words at positions; empty without positions.
    pub word_pos_map: Vec<u8>,
    /// The file of the links; empty without positions.
    pub sibling_v3: Vec<u8>,
    /// The ids of a dictionary by final ordinal, where there is one.
    pub globals: Option<Vec<u32>>,
    /// The tokens new to the dictionary: id, text and shape.
    pub newtexts: Vec<(u32, String, TermMetaV3)>,
    /// Bytes of the longest content of a word.
    pub max_word_content_len: Option<u16>,
    /// Whether positions are kept.
    pub positions: bool,
}

/// Whether the data is what was collected, under final ordinals.
pub open spec fn data_of(
    data: SfxCollectorDataV3,
    c: Collected,
    positions: bool,
    ids: Option<Seq<u64>>,
    fresh: Seq<bool>,
) -> bool {
    let order = final_order(c, ids);
    let n = order.len() as int;
    &&& data.sorted_indices@ == sorted_tokens(c)
    &&& data.intern_to_final@ == final_ordinals(order, c.texts.len())
    &&& collector_v3::texts_of(data.token_texts@) == c.texts
    &&& data.token_meta@ == c.metas
    &&& collector_v3::texts_of(data.tokens@) == Seq::new(order.len(), |k: int| c.texts[order[k] as int])
    &&& collector_v3::contents(data.content_postings@) == Seq::new(order.len(), |k: int| chunk_places(c, order[k]))
    &&& data.own_lens@ == Seq::new(order.len(), |k: int| c.metas[order[k] as int].own_len)
    &&& data.num_content_ords == n
    &&& data.num_docs == c.doc
    &&& collector_v3::entries_of(data.word_stripped@) == c.words
    &&& collector_v3::contents(data.word_postings@) == word_lists(c, order)
    &&& data.word_pos_map@ == if positions {
        word_map_file(word_lists(c, order))
    } else {
        Seq::empty()
    }
    &&& data.sibling_v3@ == if positions {
        sibling_table::table_bytes(n as u32, final_links(c, order))
    } else {
        Seq::empty()
    }
    &&& data.globals is Some <==> ids is Some
    &&& ids matches Some(g) ==> (data.globals->0)@ == Seq::new(
        order.len(),
        |k: int| g[order[k] as int] as u32,
    )
    &&& new_of(data.newtexts@) == match ids {
        Some(g) => new_tokens(c, order, g, fresh, n),
        None => Seq::empty(),
    }
    &&& data.max_word_content_len == Some(longest_word(c.metas, c.metas.len() as int))
    &&& data.positions == positions
}

/// The final ordinal of each of `n` tokens.
fn number_tokens(order: &Vec<u32>, n: usize) -> (out: Vec<u32>)
    requires
        order@.no_duplicates(),
        order@.len() <= u32::MAX,
        n <= u32::MAX,
        forall|k: int| 0 <= k < order@.len() ==> (#[trigger] order@[k]) < n,
    ensures
        out@ == final_ordinals(order@, n as nat),
{
    let mut out: Vec<u32> = Vec::new();
    while out.len() < n
        invariant
            out@.len() <= n,
            forall|i: int| 0 <= i < out@.len() ==> #[trigger] out@[i] == 0,
        decreases n - out@.len(),
    {
        out.push(0);
    }
    proof {
        assert forall|i: int| 0 <= i < n implies #[trigger] out@[i] == final_ordinal(
            order@.take(0),
            i as u32,
        ) by {
            assert(!order@.take(0).contains(i as u32));
        }
    }
    let mut k: usize = 0;
    while k < order.len()
        invariant
            k <= order@.len() <= u32::MAX,
            out@.len() == n,
            n <= u32::MAX,
            order@.no_duplicates(),
            forall|k: int| 0 <= k < order@.len() ==> (#[trigger] order@[k]) < n,
            forall|i: int|
                0 <= i < n ==> #[trigger] out@[i] == final_ordinal(order@.take(k as int), i as u32),
        decreases order@.len() - k,
    {
        let t: u32 = order[k];
        let ghost before = out@;
        out[t as usize] = k as u32;
        proof {
            let a = order@.take(k as int);
            let b = order@.take(k + 1);
            assert forall|i: int| 0 <= i < n implies #[trigger] out@[i] == final_ordinal(b, i as u32) by {
                let x = i as u32;
                if x == t {
                    assert(b[k as int] == t);
                    assert(b.contains(x));
                    let j = b.index_of(x);
                    assert(order@[j] == order@[k as int]);
                } else {
                    assert(out@[i] == before[i]);
                    assert(before[i] == final_ordinal(a, x));
                    if a.contains(x) {
                        let j = a.index_of(x);
                        assert(b[j] == x);
                        let j2 = b.index_of(x);
                        assert(order@[j] == order@[j2]);
                    } else if b.contains(x) {
                        let j = b.index_of(x);
                        assert(j < k);
                        assert(a[j] == x);
                    }
                }
            }
        }
        k += 1;
    }
    proof {
        assert(order@.take(k as int) =~= order@);
        assert(out@ =~= final_ordinals(order@, n as nat));
    }
    out
}

/// Document and position of postings, in order, each once.
fn sort_places(p: &Vec<(u32, u32, u32, u32)>) -> (out: Vec<(u32, u32)>)
    ensures
        out@ == order::dedup(order::sorted(places(p@))),
{
    let mut all: Vec<(u32, u32)> = Vec::new();
    let mut i: usize = 0;
    while i < p.len()
        invariant
            i <= p@.len(),
            all@.len() == i,
            forall|k: int| 0 <= k < i ==> #[trigger] all@[k] == (p@[k].0, p@[k].1),
        decreases p@.len() - i,
    {
        all.push((p[i].0, p[i].1));
        i += 1;
    }
    assert(all@ =~= places(p@));
    let in_order = sort(&all);
    without_repeats(&in_order)
}

/// The occurrences of a word.
fn word_list(p: &Vec<(u32, u32, u32, u32, u32, u16)>) -> (out: Vec<WordPostingEntry>)
    ensures
        out@ == Seq::new(p@.len(), |i: int| word_entry(p@[i])),
{
    let mut out: Vec<WordPostingEntry> = Vec::new();
    let mut i: usize = 0;
    while i < p.len()
        invariant
            i <= p@.len(),
            out@.len() == i,
            forall|k: int| 0 <= k < i ==> #[trigger] out@[k] == word_entry(p@[k]),
        decreases p@.len() - i,
    {
        let q = p[i];
        out.push(
            WordPostingEntry {
                doc_id: q.0,
                first_position: q.1,
                last_position: q.2,
                byte_from: q.3,
                byte_to: q.4,
                tail_off: q.5,
            },
        );
        i += 1;
    }
    assert(out@ =~= Seq::new(p@.len(), |i: int| word_entry(p@[i])));
    out
}

/// Bytes of the longest content of a word.
fn find_longest(token_meta: &Vec<TokenMetaV3>) -> (r: u16)
    requires
        forall|i: int| 0 <= i < token_meta@.len() ==> collector_v3::shaped(#[trigger] token_meta@[i]),
    ensures
        r == longest_word(token_meta@, token_meta@.len() as int),
{
    let mut r: u16 = 0;
    let mut i: usize = 0;
    while i < token_meta.len()
        invariant
            i <= token_meta@.len(),
            forall|i: int| 0 <= i < token_meta@.len() ==> collector_v3::shaped(#[trigger] token_meta@[i]),
            r == longest_word(token_meta@, i as int),
        decreases token_meta@.len() - i,
    {
        let m = &token_meta[i];
        assert(collector_v3::shaped(token_meta@[i as int]));
        if m.is_word_stripped && m.own_len - m.sep_len as u16 > r {
            r = m.own_len - m.sep_len as u16;
        }
        i += 1;
    }
    r
}

/// The tokens new to the dictionary.
fn find_new(
    c: Ghost<Collected>,
    order: &Vec<u32>,
    token_texts: &Vec<String>,
    token_meta: &Vec<TokenMetaV3>,
    ids: &Vec<u64>,
    fresh: &Vec<bool>,
) -> (out: Vec<(u32, String, TermMetaV3)>)
    requires
        c@.texts == collector_v3::texts_of(token_texts@),
        c@.metas == token_meta@,
        token_meta@.len() == token_texts@.len(),
        ids@.len() == token_texts@.len(),
        fresh@.len() == token_texts@.len(),
        forall|k: int| 0 <= k < order@.len() ==> (#[trigger] order@[k]) < token_texts@.len(),
    ensures
        new_of(out@) == new_tokens(c@, order@, ids@, fresh@, order@.len() as int),
{
    let mut out: Vec<(u32, String, TermMetaV3)> = Vec::new();
    let mut k: usize = 0;
    assert(new_of(out@) =~= Seq::empty());
    while k < order.len()
        invariant
            k <= order@.len(),
            c@.texts == collector_v3::texts_of(token_texts@),
            c@.metas == token_meta@,
            token_meta@.len() == token_texts@.len(),
            ids@.len() == token_texts@.len(),
            fresh@.len() == token_texts@.len(),
            forall|k: int| 0 <= k < order@.len() ==> (#[trigger] order@[k]) < token_texts@.len(),
            new_of(out@) == new_tokens(c@, order@, ids@, fresh@, k as int),
        decreases order@.len() - k,
    {
        let t: usize = order[k] as usize;
        if fresh[t] {
            let ghost before = new_of(out@);
            let m = &token_meta[t];
            let item = (
                ids[t] as u32,
                str_copy(token_texts[t].as_str()),
                TermMetaV3 {
                    own_len: m.own_len,
                    sep_len: m.sep_len,
                    overlap_len: m.overlap_len,
                    is_word_start: m.is_word_start,
                    is_word_stripped: m.is_word_stripped,
                },
            );
            out.push(item);
            assert(new_of(out@) =~= before.push(
                (ids@[t as int] as u32, c@.texts[t as int], term_meta(c@.metas[t as int])),
            ));
        }
        k += 1;
    }
    out
}

/// Puts the occurrences of a word in the word slots.
fn add_places(map: &mut WordPosMapWriter, list: &Vec<WordPostingEntry>, ordinal: u32)
    requires
        forall|i: int|
            0 <= i < list@.len() ==> (#[trigger] list@[i]).doc_id < usize::MAX
                && list@[i].first_position < usize::MAX,
    ensures
        final(map).overflowed() == (old(map).overflowed() || (ordinal >= ORDINAL_LIMIT && list@.len()
            > 0)),
        final(map).docs() == if ordinal >= ORDINAL_LIMIT {
            old(map).docs()
        } else {
            with_places(old(map).docs(), list@, ordinal, list@.len() as int)
        },
{
    let ghost first = map.docs();
    let ghost was = map.overflowed();
    let mut i: usize = 0;
    while i < list.len()
        invariant
            i <= list@.len(),
            forall|i: int|
                0 <= i < list@.len() ==> (#[trigger] list@[i]).doc_id < usize::MAX
                    && list@[i].first_position < usize::MAX,
            map.overflowed() == (was || (ordinal >= ORDINAL_LIMIT && i > 0)),
            map.docs() == if ordinal >= ORDINAL_LIMIT {
                first
            } else {
                with_places(first, list@, ordinal, i as int)
            },
        decreases list@.len() - i,
    {
        let p = list[i];
        assert(list@[i as int].doc_id < usize::MAX);
        map.add_word(p.doc_id, p.first_position, p.last_position, ordinal);
        i += 1;
    }
}

/// The file of the words at positions.
pub fn write_word_map(lists: &Vec<Vec<WordPostingEntry>>) -> (out: Vec<u8>)
    requires
        word_map_fits(collector_v3::contents(lists@)),
        lists@.len() <= u32::MAX,
    ensures
        out@ == word_map_file(collector_v3::contents(lists@)),
{
    let mut map = WordPosMapWriter::new();
    let mut k: usize = 0;
    let ghost all = collector_v3::contents(lists@);
    while k < lists.len()
        invariant
            k <= lists@.len() <= u32::MAX,
            all == collector_v3::contents(lists@),
            all.len() == lists@.len(),
            places_fit(all),
            map.docs() == word_docs(all, k as int),
            map.overflowed() == overflows(all, k as int),
        decreases lists@.len() - k,
    {
        let list = &lists[k];
        proof {
            assert(all[k as int] == list@);
            assert forall|i: int| 0 <= i < list@.len() implies (#[trigger] list@[i]).doc_id
                < usize::MAX && list@[i].first_position < usize::MAX by {
                assert(all[k as int][i].doc_id < usize::MAX);
            }
        }
        let ghost before = map.overflowed();
        add_places(&mut map, list, k as u32);
        proof {
            if overflows(all, k + 1) {
                let i = choose|i: int| ORDINAL_LIMIT <= i < k + 1 && (#[trigger] all[i]).len() > 0;
                if i < k {
                    assert(overflows(all, k as int));
                }
            }
            if before {
                let i = choose|i: int| ORDINAL_LIMIT <= i < k && (#[trigger] all[i]).len() > 0;
                assert(ORDINAL_LIMIT <= i < k + 1 && all[i].len() > 0);
            }
            if k >= ORDINAL_LIMIT && list@.len() > 0 {
                assert(ORDINAL_LIMIT <= k < k + 1 && all[k as int].len() > 0);
            }
        }
        k += 1;
    }
    map.serialize()
}

/// The file of the links.
fn write_links(c: Ghost<Collected>, order: &Vec<u32>, numbers: &Vec<u32>, pairs: &Vec<(u32, u32)>) -> (out:
    Vec<u8>)
    requires
        files_fit(c@, order@),
        order@.len() <= u32::MAX,
        pairs@ == c@.pairs,
        numbers@ == final_ordinals(order@, c@.texts.len()),
        forall|i: int|
            0 <= i < pairs@.len() ==> (#[trigger] pairs@[i]).0 < c@.texts.len() && pairs@[i].1
                < c@.texts.len(),
    ensures
        out@ == sibling_table::table_bytes(order@.len() as u32, final_links(c@, order@)),
{
    let mut table = SiblingTableWriter::new(order.len() as u32);
    let mut i: usize = 0;
    assert(table.pairs() =~= final_links(c@, order@).take(0));
    while i < pairs.len()
        invariant
            i <= pairs@.len(),
            pairs@ == c@.pairs,
            numbers@ == final_ordinals(order@, c@.texts.len()),
            forall|i: int|
                0 <= i < pairs@.len() ==> (#[trigger] pairs@[i]).0 < c@.texts.len() && pairs@[i].1
                    < c@.texts.len(),
            table.num() == order@.len() as u32,
            table.pairs() == final_links(c@, order@).take(i as int),
        decreases pairs@.len() - i,
    {
        let (a, b) = pairs[i];
        assert(pairs@[i as int].0 < c@.texts.len());
        table.add(numbers[a as usize], numbers[b as usize], 0);
        assert(table.pairs() =~= final_links(c@, order@).take(i + 1));
        i += 1;
    }
    assert(final_links(c@, order@).take(i as int) =~= final_links(c@, order@));
    table.serialize()
}

/// What was collected, under final ordinals.
#[verifier::spinoff_prover]
pub(crate) fn finish(
    c: Ghost<Collected>,
    token_texts: Vec<String>,
    token_meta: Vec<TokenMetaV3>,
    token_postings: &Vec<Vec<(u32, u32, u32, u32)>>,
    word_stripped: Vec<WordStrippedEntry>,
    pushed: &Vec<bool>,
    word_postings: &Vec<Vec<(u32, u32, u32, u32, u32, u16)>>,
    pairs: &Vec<(u32, u32)>,
    positions: bool,
    by_dictionary: bool,
    ids: &Vec<u64>,
    fresh: &Vec<bool>,
    num_docs: u32,
    min_suffix_len: usize,
) -> (data: SfxCollectorDataV3)
    requires
        c@.texts == collector_v3::texts_of(token_texts@),
        c@.metas == token_meta@,
        c@.postings == collector_v3::contents(token_postings@),
        c@.words == collector_v3::entries_of(word_stripped@),
        c@.word_postings == collector_v3::contents(word_postings@),
        c@.pairs == pairs@,
        c@.doc == num_docs,
        token_meta@.len() == token_texts@.len(),
        token_postings@.len() == token_texts@.len(),
        token_texts@.len() <= u32::MAX,
        forall|i: int| 0 <= i < token_meta@.len() ==> collector_v3::shaped(#[trigger] token_meta@[i]),
        forall|t: u32|
            #[trigger] c@.has_word(t) <==> t < pushed@.len() && pushed@[t as int],
        forall|i: int|
            0 <= i < pairs@.len() ==> (#[trigger] pairs@[i]).0 < token_texts@.len() && pairs@[i].1
                < token_texts@.len(),
        by_dictionary ==> ids@.len() == token_texts@.len() && fresh@.len() == token_texts@.len(),
        positions ==> files_fit(
            c@,
            final_order(
                c@,
                if by_dictionary {
                    Some(ids@)
                } else {
                    None
                },
            ),
        ),
    ensures
        data_of(
            data,
            c@,
            positions,
            if by_dictionary {
                Some(ids@)
            } else {
                None
            },
            fresh@,
        ),
        data.min_suffix_len == min_suffix_len,
{
    let ghost spec_ids: Option<Seq<u64>> = if by_dictionary {
        Some(ids@)
    } else {
        None
    };
    let n: usize = token_texts.len();
    let sorted_indices = sort_tokens(c, &token_texts);
    let order = order_tokens(
        c,
        &token_texts,
        &token_meta,
        pushed,
        if by_dictionary {
            Some(ids)
        } else {
            None
        },
    );
    assert(order@ == final_order(c@, spec_ids));
    proof {
        lemma_final_order(c@, spec_ids);
        assert forall|k: int| 0 <= k < order@.len() implies (#[trigger] order@[k]) < n by {
            assert(order@.contains(order@[k]));
        }
    }
    let intern_to_final = number_tokens(&order, n);
    let mut tokens: Vec<String> = Vec::new();
    let mut content_postings: Vec<Vec<(u32, u32)>> = Vec::new();
    let mut own_lens: Vec<u16> = Vec::new();
    let mut lists: Vec<Vec<WordPostingEntry>> = Vec::new();
    let mut globals: Vec<u32> = Vec::new();
    let mut k: usize = 0;
    while k < order.len()
        invariant
            k <= order@.len(),
            n == token_texts@.len(),
            n <= u32::MAX,
            forall|k: int| 0 <= k < order@.len() ==> (#[trigger] order@[k]) < n,
            c@.texts == collector_v3::texts_of(token_texts@),
            c@.metas == token_meta@,
            c@.postings == collector_v3::contents(token_postings@),
            c@.word_postings == collector_v3::contents(word_postings@),
            token_meta@.len() == n,
            token_postings@.len() == n,
            by_dictionary ==> ids@.len() == n,
            tokens@.len() == k,
            content_postings@.len() == k,
            own_lens@.len() == k,
            lists@.len() == k,
            by_dictionary ==> globals@.len() == k,
            forall|j: int|
                0 <= j < k ==> encode_utf8((#[trigger] tokens@[j])@) == c@.texts[order@[j] as int],
            forall|j: int|
                0 <= j < k ==> (#[trigger] content_postings@[j])@ == chunk_places(c@, order@[j]),
            forall|j: int|
                0 <= j < k ==> #[trigger] own_lens@[j] == c@.metas[order@[j] as int].own_len,
            forall|j: int|
                0 <= j < k ==> (#[trigger] lists@[j])@ == word_places(c@, order@[j]),
            by_dictionary ==> forall|j: int|
                0 <= j < k ==> #[trigger] globals@[j] == ids@[order@[j] as int] as u32,
        decreases order@.len() - k,
    {
        let t: usize = order[k] as usize;
        let m = token_meta[t];
        assert(c@.metas[t as int] == m);
        tokens.push(str_copy(token_texts[t].as_str()));
        own_lens.push(m.own_len);
        if by_dictionary {
            globals.push(ids[t] as u32);
        }
        let list = if m.is_word_stripped {
            Vec::new()
        } else {
            sort_places(&token_postings[t])
        };
        assert(list@ =~= chunk_places(c@, order@[k as int]));
        content_postings.push(list);
        let words = if m.is_word_stripped && t < word_postings.len() {
            word_list(&word_postings[t])
        } else {
            Vec::new()
        };
        assert(words@ =~= word_places(c@, order@[k as int]));
        lists.push(words);
        k += 1;
    }
    assert(collector_v3::contents(lists@) =~= word_lists(c@, order@));
    let word_pos_map = if positions {
        write_word_map(&lists)
    } else {
        Vec::new()
    };
    let sibling_v3 = if positions {
        write_links(c, &order, &intern_to_final, pairs)
    } else {
        Vec::new()
    };
    let newtexts = if by_dictionary {
        find_new(c, &order, &token_texts, &token_meta, ids, fresh)
    } else {
        Vec::new()
    };
    let longest: u16 = find_longest(&token_meta);
    let data = SfxCollectorDataV3 {
        sorted_indices,
        intern_to_final,
        token_texts,
        token_meta,
        tokens,
        content_postings,
        own_lens,
        num_content_ords: order.len(),
        num_docs,
        min_suffix_len,
        word_stripped,
        word_postings: lists,
        word_pos_map,
        sibling_v3,
        globals: if by_dictionary {
            Some(globals)
        } else {
            None
        },
        newtexts,
        max_word_content_len: Some(longest),
        positions,
    };
    proof {
        assert(collector_v3::texts_of(data.tokens@) =~= Seq::new(
            order@.len(),
            |k: int| c@.texts[order@[k] as int],
        ));
        assert(collector_v3::contents(data.content_postings@) =~= Seq::new(
            order@.len(),
            |k: int| chunk_places(c@, order@[k]),
        ));
        assert(data.own_lens@ =~= Seq::new(
            order@.len(),
            |k: int| c@.metas[order@[k] as int].own_len,
        ));
        if by_dictionary {
            assert((data.globals->0)@ =~= Seq::new(
                order@.len(),
                |k: int| ids@[order@[k] as int] as u32,
            ));
        } else {
            assert(new_of(data.newtexts@) =~= Seq::empty());
        }
    }
    data
}

/// Every token stands once in the order of the texts.
pub proof fn lemma_sorted_tokens(c: Collected)
    requires
        c.texts.len() <= u32::MAX,
    ensures
        sorted_tokens(c).len() == c.texts.len(),
        sorted_tokens(c).no_duplicates(),
        forall|i: int| 0 <= i < sorted_tokens(c).len() ==> #[trigger] sorted_tokens(c)[i] < c.texts.len(),
        forall|i: int, j: int|
            0 <= i < j < sorted_tokens(c).len() ==> !text_order::lex_lt(
                c.texts[#[trigger] sorted_tokens(c)[j] as int],
                c.texts[#[trigger] sorted_tokens(c)[i] as int],
            ),
{
    let all = all_tokens(c.texts.len());
    let rel = by_text(c.texts);
    let s = sorted_tokens(c);
    lemma_by_text_total(c.texts);
    all.lemma_sort_by_ensures(rel);
    text_order::lemma_same_items(s, all);
    assert(all.no_duplicates());
    all.lemma_multiset_has_no_duplicates();
    s.lemma_multiset_has_no_duplicates_conv();
    assert forall|i: int| 0 <= i < s.len() implies #[trigger] s[i] < c.texts.len() by {
        assert(s.contains(s[i]));
        assert(all.contains(s[i]));
    }
    assert forall|i: int, j: int| 0 <= i < j < s.len() implies !text_order::lex_lt(
        c.texts[#[trigger] s[j] as int],
        c.texts[#[trigger] s[i] as int],
    ) by {
        let a = c.texts[s[i] as int];
        let b = c.texts[s[j] as int];
        assert(rel(s[i], s[j]));
        text_order::lemma_lex_irreflexive(a);
        if text_order::lex_lt(a, b) && text_order::lex_lt(b, a) {
            text_order::lemma_lex_transitive(a, b, a);
        }
    }
}

/// Law: no word that was collected has more content than the longest word, and
/// one has that much unless there is no word with content.
pub proof fn the_longest_collected_word_is_the_longest(metas: Seq<TokenMetaV3>, n: int)
    requires
        0 <= n <= metas.len(),
        forall|i: int| 0 <= i < metas.len() ==> collector_v3::shaped(#[trigger] metas[i]),
    ensures
        forall|i: int|
            0 <= i < n && (#[trigger] metas[i]).is_word_stripped ==> metas[i].own_len - metas[i].sep_len
                <= longest_word(metas, n),
        longest_word(metas, n) == 0 || exists|i: int|
            0 <= i < n && (#[trigger] metas[i]).is_word_stripped && metas[i].own_len - metas[i].sep_len
                == longest_word(metas, n),
    decreases n,
{
    if n > 0 {
        the_longest_collected_word_is_the_longest(metas, n - 1);
        assert(collector_v3::shaped(metas[n - 1]));
        if longest_word(metas, n) != 0 {
            if longest_word(metas, n) == longest_word(metas, n - 1) {
                let i = choose|i: int|
                    0 <= i < n - 1 && (#[trigger] metas[i]).is_word_stripped && metas[i].own_len
                        - metas[i].sep_len == longest_word(metas, n - 1);
                assert(metas[i].is_word_stripped);
            } else {
                assert(metas[n - 1].is_word_stripped);
            }
        }
    }
}

} // verus!
