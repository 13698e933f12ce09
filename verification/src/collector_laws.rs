//! What holds of collecting, whatever is collected.

use vstd::prelude::*;

use crate::collector_data;
use crate::collector_v3;
use crate::collector_v3::{Chunk, Collected, DEFAULT_MAX_TOKEN, MAX_SUFFIX_INDEX, TokenMetaV3, WordEntry};
use crate::order;
use crate::text;

verus! {

/// Whether each token has a shape and no two have the same key.
pub open spec fn distinct_tokens(c: Collected) -> bool {
    &&& c.metas.len() == c.texts.len()
    &&& c.keys().no_duplicates()
}

/// Whether no two word entries are of the same token.
pub open spec fn distinct_words(c: Collected) -> bool {
    forall|i: int, j: int|
        0 <= i < j < c.words.len() ==> (#[trigger] c.words[i]).token != (#[trigger] c.words[j]).token
}

/// Whether `d` has the tokens of `c` under their numbers, and whatever holds of
/// `c`'s tokens and words.
pub open spec fn grown_from(c: Collected, d: Collected) -> bool {
    &&& c.texts.is_prefix_of(d.texts)
    &&& c.metas.is_prefix_of(d.metas)
    &&& c.words.is_prefix_of(d.words)
    &&& distinct_tokens(c) ==> distinct_tokens(d)
    &&& distinct_words(c) ==> distinct_words(d)
}

/// A token that was interned is found again under its number, and nothing is
/// added for it.
pub proof fn interned_token_is_found_again(
    c: Collected,
    text: Seq<u8>,
    m: TokenMetaV3,
    m2: TokenMetaV3,
)
    requires
        distinct_tokens(c),
        c.texts.len() < u32::MAX,
        collector_v3::shape_tag(m) == collector_v3::shape_tag(m2),
    ensures
        ({
            let (d, token) = c.interned(text, m);
            &&& d.interned(text, m2) == (d, token)
            &&& token < d.texts.len()
            &&& d.texts[token as int] == text
            &&& collector_v3::shape_tag(d.metas[token as int]) == collector_v3::shape_tag(m)
        }),
{
    let (d, token) = c.interned(text, m);
    let key = (collector_v3::shape_tag(m), text);
    lemma_interned(c, text, m);
    if !c.keys().contains(key) {
        assert(d.keys()[token as int] == key);
    } else {
        let i = c.keys().index_of(key);
        assert(c.keys()[i] == key);
    }
    assert(d.keys()[token as int] == key);
    assert(d.keys().contains(key));
    let i = d.keys().index_of(key);
    assert(d.keys()[i] == key);
}

/// Tokens of different texts or shapes get different numbers.
pub proof fn different_tokens_get_different_numbers(
    c: Collected,
    text: Seq<u8>,
    m: TokenMetaV3,
    text2: Seq<u8>,
    m2: TokenMetaV3,
)
    requires
        distinct_tokens(c),
        c.texts.len() + 1 < u32::MAX,
        text != text2 || collector_v3::shape_tag(m) != collector_v3::shape_tag(m2),
    ensures
        c.interned(text, m).1 != c.interned(text, m).0.interned(text2, m2).1,
{
    let (d, token) = c.interned(text, m);
    lemma_interned(c, text, m);
    interned_token_is_found_again(c, text, m, m);
    interned_token_is_found_again(d, text2, m2, m2);
    let e = d.interned(text2, m2).0;
    lemma_interned(d, text2, m2);
    assert(e.texts[token as int] == d.texts[token as int]);
    assert(e.metas[token as int] == d.metas[token as int]);
}

proof fn lemma_interned(c: Collected, text: Seq<u8>, m: TokenMetaV3)
    ensures
        grown_from(c, c.interned(text, m).0),
{
    let (d, token) = c.interned(text, m);
    let key = (collector_v3::shape_tag(m), text);
    if distinct_tokens(c) && !c.keys().contains(key) {
        assert(d.keys() =~= c.keys().push(key));
        assert forall|i: int, j: int| 0 <= i < d.keys().len() && 0 <= j < d.keys().len() && i != j implies d.keys()[i]
            != d.keys()[j] by {
            if i < c.keys().len() && j < c.keys().len() {
                assert(c.keys()[i] != c.keys()[j]);
            } else if i < c.keys().len() {
                assert(c.keys().contains(c.keys()[i]));
            } else {
                assert(c.keys().contains(c.keys()[j]));
            }
        }
    }
}

proof fn lemma_worded(c: Collected, e: WordEntry)
    ensures
        grown_from(c, c.worded(e)),
{
    let d = c.worded(e);
    assert(d.keys() =~= c.keys());
    if distinct_words(c) && !c.has_word(e.token) {
        assert forall|i: int, j: int| 0 <= i < j < d.words.len() implies (#[trigger] d.words[i]).token != (
        #[trigger] d.words[j]).token by {
            if j < c.words.len() {
                assert(c.words[i].token != c.words[j].token);
            } else {
                assert(c.words[i].token != e.token);
            }
        }
    }
}

proof fn lemma_same(c: Collected, d: Collected)
    requires
        c.texts == d.texts,
        c.metas == d.metas,
        c.words == d.words,
    ensures
        grown_from(c, d),
{
    assert(c.keys() =~= d.keys());
}

proof fn lemma_grown_trans(c: Collected, d: Collected, e: Collected)
    requires
        grown_from(c, d),
        grown_from(d, e),
    ensures
        grown_from(c, e),
{
}

proof fn lemma_chunks_grow(c: Collected, chunks: Seq<Chunk>, overlap: int, k: int)
    ensures
        grown_from(c, collector_v3::after_chunks(c, chunks, overlap, k).0),
    decreases k,
{
    if k <= 0 {
        lemma_same(c, c);
    } else {
        lemma_chunks_grow(c, chunks, overlap, k - 1);
        let d = collector_v3::after_chunks(c, chunks, overlap, k - 1).0;
        let i = k - 1;
        let over = collector_v3::chunk_overlap(chunks, i, overlap);
        let text = collector_v3::chunk_bytes(chunks[i]) + over;
        let m = collector_v3::chunk_shape(chunks[i], over.len() as int);
        lemma_interned(d, text, m);
        let e = d.interned(text, m).0;
        let f = collector_v3::after_chunks(c, chunks, overlap, k).0;
        lemma_same(e, f);
        lemma_grown_trans(c, d, e);
        lemma_grown_trans(c, e, f);
    }
}

proof fn lemma_tail_grows(
    c: Collected,
    chunks: Seq<Chunk>,
    tokens: Seq<u32>,
    over: Seq<u8>,
    a: int,
    b: int,
)
    ensures
        grown_from(c, collector_v3::tail_step(c, chunks, tokens, over, a, b)),
{
    let content = collector_v3::content_of(chunks, a, b);
    let last = chunks[b - 1].meta;
    let ts = text::ceil_boundary(content, content.len() - DEFAULT_MAX_TOKEN);
    let tail = content.subrange(ts, content.len() as int);
    let own_len = (tail.len() + last.sep_len) as u16;
    let m = TokenMetaV3 {
        own_len,
        sep_len: last.sep_len as u8,
        overlap_len: over.len() as u8,
        is_word_start: false,
        word_id: last.word_id,
        is_word_stripped: true,
    };
    let (d, token) = c.interned(tail + over, m);
    lemma_interned(c, tail + over, m);
    let first = collector_v3::chunk_holding(chunks, a, b, collector_v3::offset_of(chunks, a) + ts);
    let e = WordEntry {
        content: tail,
        overlap: over,
        token,
        first_chunk: tokens[first],
        last_chunk: tokens[b - 1],
        own_len,
        sep_len: last.sep_len as u8,
        is_word_start: false,
        num_chunks: (b - first) as u32,
    };
    lemma_worded(d, e);
    let f = d.worded(e);
    let g = collector_v3::tail_step(c, chunks, tokens, over, a, b);
    lemma_same(f, g);
    lemma_grown_trans(c, d, f);
    lemma_grown_trans(c, f, g);
}

proof fn lemma_word_grows(
    c: Collected,
    chunks: Seq<Chunk>,
    tokens: Seq<u32>,
    overlap: int,
    a: int,
    b: int,
)
    ensures
        grown_from(c, collector_v3::word_step(c, chunks, tokens, overlap, a, b).0),
{
    let content = collector_v3::content_of(chunks, a, b);
    let over = collector_v3::word_overlap(chunks, b, overlap);
    let first = chunks[a].meta;
    let last = chunks[b - 1].meta;
    let own_len = collector_v3::word_own_len(content.len() as int, last.sep_len as int);
    if content.len() == 0 {
        lemma_same(c, c);
    } else {
        let m = TokenMetaV3 {
            own_len,
            sep_len: last.sep_len as u8,
            overlap_len: over.len() as u8,
            is_word_start: first.is_word_start,
            word_id: first.word_id,
            is_word_stripped: true,
        };
        let (d, token) = c.interned(content + over, m);
        lemma_interned(c, content + over, m);
        let e = WordEntry {
            content,
            overlap: over,
            token,
            first_chunk: tokens[a],
            last_chunk: tokens[b - 1],
            own_len,
            sep_len: last.sep_len as u8,
            is_word_start: first.is_word_start,
            num_chunks: (b - a) as u32,
        };
        lemma_worded(d, e);
        let f = d.worded(e);
        let g = f.word_posted(
            token,
            (
                c.doc,
                (c.ti + a) as u32,
                (c.ti + b - 1) as u32,
                collector_v3::offset_of(chunks, a) as u32,
                (collector_v3::offset_of(chunks, a) + content.len()) as u32,
                0u16,
            ),
        );
        lemma_same(f, g);
        lemma_grown_trans(c, d, f);
        lemma_grown_trans(c, f, g);
        if content.len() > MAX_SUFFIX_INDEX + DEFAULT_MAX_TOKEN {
            lemma_tail_grows(g, chunks, tokens, over, a, b);
            lemma_grown_trans(c, g, collector_v3::tail_step(g, chunks, tokens, over, a, b));
        }
    }
}

proof fn lemma_words_grow(
    c: Collected,
    chunks: Seq<Chunk>,
    tokens: Seq<u32>,
    overlap: int,
    ranges: Seq<(int, int)>,
    k: int,
)
    ensures
        grown_from(c, collector_v3::after_words(c, chunks, tokens, overlap, ranges, k).0),
    decreases k,
{
    if k <= 0 {
        lemma_same(c, c);
    } else {
        lemma_words_grow(c, chunks, tokens, overlap, ranges, k - 1);
        let d = collector_v3::after_words(c, chunks, tokens, overlap, ranges, k - 1).0;
        lemma_word_grows(d, chunks, tokens, overlap, ranges[k - 1].0, ranges[k - 1].1);
        lemma_grown_trans(c, d, collector_v3::after_words(c, chunks, tokens, overlap, ranges, k).0);
    }
}

/// A value adds tokens and words and takes none away: every token keeps its
/// number, text and shape. No key gets two tokens, and no token two word
/// entries.
pub proof fn a_value_keeps_what_was_collected(
    c: Collected,
    chunks: Seq<Chunk>,
    overlap: int,
    positions: bool,
)
    ensures
        grown_from(c, collector_v3::after_value(c, chunks, overlap, positions)),
{
    let n = chunks.len() as int;
    let f = collector_v3::after_value(c, chunks, overlap, positions);
    if n == 0 {
        lemma_same(c, f);
    } else {
        let (d, tokens) = collector_v3::after_chunks(c, chunks, overlap, n);
        lemma_chunks_grow(c, chunks, overlap, n);
        let e = if positions {
            d.linked(tokens)
        } else {
            d
        };
        lemma_same(d, e);
        lemma_grown_trans(c, d, e);
        let ranges = collector_v3::word_ranges(chunks, n);
        lemma_words_grow(e, chunks, tokens, overlap, ranges, ranges.len() as int);
        let g = collector_v3::after_words(e, chunks, tokens, overlap, ranges, ranges.len() as int).0;
        lemma_grown_trans(c, e, g);
        lemma_same(g, f);
        lemma_grown_trans(c, g, f);
    }
}

/// A value takes as many positions as it has chunks, and one between it and
/// the next; nothing else of the document changes.
pub proof fn a_value_takes_its_positions(
    c: Collected,
    chunks: Seq<Chunk>,
    overlap: int,
    positions: bool,
)
    requires
        c.ti + chunks.len() < u32::MAX,
    ensures
        collector_v3::after_value(c, chunks, overlap, positions).ti == c.ti + chunks.len() + 1,
        collector_v3::after_value(c, chunks, overlap, positions).doc == c.doc,
{
    let n = chunks.len() as int;
    lemma_chunks_doc(c, chunks, overlap, n);
    let (d, tokens) = collector_v3::after_chunks(c, chunks, overlap, n);
    let e = if positions {
        d.linked(tokens)
    } else {
        d
    };
    let ranges = collector_v3::word_ranges(chunks, n);
    lemma_words_doc(e, chunks, tokens, overlap, ranges, ranges.len() as int);
}

proof fn lemma_chunks_doc(c: Collected, chunks: Seq<Chunk>, overlap: int, k: int)
    ensures
        collector_v3::after_chunks(c, chunks, overlap, k).0.doc == c.doc,
    decreases k,
{
    if k > 0 {
        lemma_chunks_doc(c, chunks, overlap, k - 1);
    }
}

proof fn lemma_words_doc(
    c: Collected,
    chunks: Seq<Chunk>,
    tokens: Seq<u32>,
    overlap: int,
    ranges: Seq<(int, int)>,
    k: int,
)
    ensures
        collector_v3::after_words(c, chunks, tokens, overlap, ranges, k).0.doc == c.doc,
    decreases k,
{
    if k > 0 {
        lemma_words_doc(c, chunks, tokens, overlap, ranges, k - 1);
    }
}

/// Every token that is kept has a final ordinal of its own, and every final
/// ordinal is that of a kept token.
pub proof fn final_ordinals_number_the_tokens(c: Collected, ids: Option<Seq<u64>>, token: u32, k: int)
    requires
        c.texts.len() <= u32::MAX,
    ensures
        token < c.texts.len() && collector_data::kept(c)(token) ==> collector_data::final_ordinal(collector_data::final_order(c, ids), token)
            < collector_data::final_order(c, ids).len() && collector_data::final_order(c, ids)[collector_data::final_ordinal(
            collector_data::final_order(c, ids),
            token,
        ) as int] == token,
        0 <= k < collector_data::final_order(c, ids).len() ==> collector_data::kept(c)(collector_data::final_order(c, ids)[k])
            && collector_data::final_order(c, ids)[k] < c.texts.len() && collector_data::final_ordinal(
            collector_data::final_order(c, ids),
            collector_data::final_order(c, ids)[k],
        ) == k,
{
    let order = collector_data::final_order(c, ids);
    collector_data::lemma_final_order(c, ids);
    if token < c.texts.len() && collector_data::kept(c)(token) {
        assert(order.contains(token));
        let i = order.index_of(token);
        assert(order[i] == token);
    }
    if 0 <= k < order.len() {
        assert(order.contains(order[k]));
        let i = order.index_of(order[k]);
        assert(order[i] == order[k]);
    }
}

/// The postings that are handed on are in order, each once, and are those
/// collected.
pub proof fn postings_are_ordered(c: Collected, token: u32, p: (u32, u32))
    requires
        !c.metas[token as int].is_word_stripped,
    ensures
        order::is_sorted(collector_data::chunk_places(c, token)),
        collector_data::chunk_places(c, token).no_duplicates(),
        collector_data::chunk_places(c, token).contains(p) <==> collector_data::places(c.postings[token as int]).contains(p),
{
    let s = collector_data::places(c.postings[token as int]);
    order::lemma_sorted(s);
    order::lemma_sorted_items(s);
    order::lemma_dedup(order::sorted(s));
}

} // verus!
