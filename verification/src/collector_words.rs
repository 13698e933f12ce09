//! Every word that is collected is named by an entry, so that every token has
//! a final ordinal.

use vstd::prelude::*;
use vstd::utf8::*;

use crate::collector_data;
use crate::collector_data::SfxCollectorDataV3;
use crate::collector_laws;
use crate::collector_trace;
use crate::collector_v3;
use crate::collector_v3::{Chunk, Collected, DEFAULT_MAX_TOKEN, MAX_SUFFIX_INDEX, TokenMetaV3, WordEntry};
use crate::order;
use crate::suffix_terms;
use crate::text_order;

verus! {

/// Whether every token that is a word has an entry.
pub open spec fn words_named(c: Collected) -> bool {
    &&& c.metas.len() == c.texts.len()
    &&& forall|t: u32|
        t < c.texts.len() && c.metas[t as int].is_word_stripped ==> #[trigger] c.has_word(t)
}

/// A chunk needs no entry.
proof fn lemma_chunk_named(c: Collected, text: Seq<u8>, m: TokenMetaV3)
    requires
        words_named(c),
        !m.is_word_stripped,
    ensures
        words_named(c.interned(text, m).0),
{
    let d = c.interned(text, m).0;
    assert forall|t: u32| t < d.texts.len() && d.metas[t as int].is_word_stripped implies #[trigger] d.has_word(
        t,
    ) by {
        assert(t < c.texts.len());
        assert(c.has_word(t));
        let k = choose|k: int| 0 <= k < c.words.len() && (#[trigger] c.words[k]).token == t;
        assert(d.words[k].token == t);
    }
}

/// A word that gets its entry is named.
proof fn lemma_word_named(c: Collected, text: Seq<u8>, m: TokenMetaV3, e: WordEntry)
    requires
        words_named(c),
        c.interned(text, m).0.texts.len() <= u32::MAX,
        e.token == c.interned(text, m).1,
    ensures
        words_named(c.interned(text, m).0.worded(e)),
{
    let d = c.interned(text, m).0;
    let w = d.worded(e);
    assert(w.has_word(e.token)) by {
        if d.has_word(e.token) {
            let k = choose|k: int| 0 <= k < d.words.len() && (#[trigger] d.words[k]).token == e.token;
            assert(w.words[k].token == e.token);
        } else {
            assert(w.words[w.words.len() - 1].token == e.token);
        }
    }
    assert forall|t: u32| t < w.texts.len() && w.metas[t as int].is_word_stripped implies #[trigger] w.has_word(
        t,
    ) by {
        if t < c.texts.len() {
            assert(c.has_word(t));
            let k = choose|k: int| 0 <= k < c.words.len() && (#[trigger] c.words[k]).token == t;
            assert(w.words[k] == c.words[k]);
        } else {
            assert(t == e.token);
        }
    }
}

/// Whether words have entries depends on tokens and entries alone.
proof fn lemma_moved(c: Collected, d: Collected)
    requires
        words_named(c),
        d.texts == c.texts,
        d.metas == c.metas,
        d.words == c.words,
    ensures
        words_named(d),
{
    assert forall|t: u32| t < d.texts.len() && d.metas[t as int].is_word_stripped implies #[trigger] d.has_word(
        t,
    ) by {
        assert(c.has_word(t));
    }
}

proof fn lemma_chunks_named(c: Collected, chunks: Seq<Chunk>, overlap: int, k: int)
    requires
        words_named(c),
        0 <= k <= chunks.len(),
    ensures
        words_named(collector_v3::after_chunks(c, chunks, overlap, k).0),
    decreases k,
{
    if k > 0 {
        lemma_chunks_named(c, chunks, overlap, k - 1);
        let b = collector_v3::after_chunks(c, chunks, overlap, k - 1).0;
        let i = k - 1;
        let over = collector_v3::chunk_overlap(chunks, i, overlap);
        let text = collector_v3::chunk_bytes(chunks[i]) + over;
        let m = collector_v3::chunk_shape(chunks[i], over.len() as int);
        lemma_chunk_named(b, text, m);
        lemma_moved(b.interned(text, m).0, collector_v3::after_chunks(c, chunks, overlap, k).0);
    }
}

proof fn lemma_step_named(
    c: Collected,
    chunks: Seq<Chunk>,
    tokens: Seq<u32>,
    overlap: int,
    a: int,
    b: int,
)
    requires
        words_named(c),
        collector_v3::word_step(c, chunks, tokens, overlap, a, b).0.texts.len() <= u32::MAX,
    ensures
        c.texts.len() <= collector_v3::word_step(c, chunks, tokens, overlap, a, b).0.texts.len(),
        words_named(collector_v3::word_step(c, chunks, tokens, overlap, a, b).0),
{
    let content = collector_v3::content_of(chunks, a, b);
    let over = collector_v3::word_overlap(chunks, b, overlap);
    let first = chunks[a].meta;
    let last = chunks[b - 1].meta;
    let own_len = collector_v3::word_own_len(content.len() as int, last.sep_len as int);
    let z = collector_v3::word_step(c, chunks, tokens, overlap, a, b).0;
    if content.len() > 0 {
        let m = TokenMetaV3 {
            own_len,
            sep_len: last.sep_len as u8,
            overlap_len: over.len() as u8,
            is_word_start: first.is_word_start,
            word_id: first.word_id,
            is_word_stripped: true,
        };
        let (d, token) = c.interned(content + over, m);
        let e = WordEntry {
            content,
            overlap: over,
            token,
            first_chunk: tokens[a],
            last_chunk: tokens[b - 1],
            own_len,
            sep_len: last.sep_len as u8,
            is_word_start: first.is_word_start,
            num_chunks: (b - a) as u32,
        };
        let p = (
            c.doc,
            (c.ti + a) as u32,
            (c.ti + b - 1) as u32,
            collector_v3::offset_of(chunks, a) as u32,
            (collector_v3::offset_of(chunks, a) + content.len()) as u32,
            0u16,
        );
        let y = d.worded(e).word_posted(token, p);
        let long = content.len() > MAX_SUFFIX_INDEX + DEFAULT_MAX_TOKEN;
        assert(z == if long {
            collector_v3::tail_step(y, chunks, tokens, over, a, b)
        } else {
            y
        });
        assert(d.texts.len() <= z.texts.len());
        lemma_word_named(c, content + over, m, e);
        lemma_moved(d.worded(e), y);
        if long {
            lemma_tail_named(y, chunks, tokens, over, a, b);
        }
    }
}

proof fn lemma_tail_named(
    c: Collected,
    chunks: Seq<Chunk>,
    tokens: Seq<u32>,
    over: Seq<u8>,
    a: int,
    b: int,
)
    requires
        words_named(c),
        collector_v3::tail_step(c, chunks, tokens, over, a, b).texts.len() <= u32::MAX,
    ensures
        words_named(collector_v3::tail_step(c, chunks, tokens, over, a, b)),
{
    let content = collector_v3::content_of(chunks, a, b);
    let last = chunks[b - 1].meta;
    let ts = crate::text::ceil_boundary(content, content.len() - DEFAULT_MAX_TOKEN);
    let tail = content.subrange(ts, content.len() as int);
    let own_len = (tail.len() + last.sep_len) as u16;
    let m = TokenMetaV3 {
        own_len,
        sep_len: last.sep_len as u8,
        overlap_len: over.len() as u8,
        is_word_start: false,
        word_id: last.word_id,
        is_word_stripped: true,
    };
    let (d, token) = c.interned(tail + over, m);
    let from = collector_v3::offset_of(chunks, a) + ts;
    let first = collector_v3::chunk_holding(chunks, a, b, from);
    let e = WordEntry {
        content: tail,
        overlap: over,
        token,
        first_chunk: tokens[first],
        last_chunk: tokens[b - 1],
        own_len,
        sep_len: last.sep_len as u8,
        is_word_start: false,
        num_chunks: (b - first) as u32,
    };
    lemma_word_named(c, tail + over, m, e);
    lemma_moved(d.worded(e), collector_v3::tail_step(c, chunks, tokens, over, a, b));
}

proof fn lemma_words_named(
    c: Collected,
    chunks: Seq<Chunk>,
    tokens: Seq<u32>,
    overlap: int,
    ranges: Seq<(int, int)>,
    k: int,
)
    requires
        words_named(c),
        0 <= k <= ranges.len(),
        collector_v3::after_words(c, chunks, tokens, overlap, ranges, k).0.texts.len() <= u32::MAX,
    ensures
        words_named(collector_v3::after_words(c, chunks, tokens, overlap, ranges, k).0),
    decreases k,
{
    if k > 0 {
        let b = collector_v3::after_words(c, chunks, tokens, overlap, ranges, k - 1).0;
        lemma_step_grows(b, chunks, tokens, overlap, ranges[k - 1].0, ranges[k - 1].1);
        lemma_words_named(c, chunks, tokens, overlap, ranges, k - 1);
        lemma_step_named(b, chunks, tokens, overlap, ranges[k - 1].0, ranges[k - 1].1);
    }
}

proof fn lemma_step_grows(
    c: Collected,
    chunks: Seq<Chunk>,
    tokens: Seq<u32>,
    overlap: int,
    a: int,
    b: int,
)
    ensures
        c.texts.len() <= collector_v3::word_step(c, chunks, tokens, overlap, a, b).0.texts.len(),
{
}

/// Law: where every word has an entry, it still has one after a value.
pub proof fn a_value_names_its_words(c: Collected, chunks: Seq<Chunk>, overlap: int, positions: bool)
    requires
        words_named(c),
        collector_v3::after_value(c, chunks, overlap, positions).texts.len() <= u32::MAX,
    ensures
        words_named(collector_v3::after_value(c, chunks, overlap, positions)),
{
    let n = chunks.len() as int;
    let h = collector_v3::after_value(c, chunks, overlap, positions);
    if n > 0 {
        let (d, tokens) = collector_v3::after_chunks(c, chunks, overlap, n);
        lemma_chunks_named(c, chunks, overlap, n);
        let e = if positions {
            d.linked(tokens)
        } else {
            d
        };
        lemma_moved(d, e);
        let ranges = collector_v3::word_ranges(chunks, n);
        let f = collector_v3::after_words(e, chunks, tokens, overlap, ranges, ranges.len() as int).0;
        assert(h.texts == f.texts && h.metas == f.metas && h.words == f.words);
        lemma_words_named(e, chunks, tokens, overlap, ranges, ranges.len() as int);
        lemma_moved(f, h);
    } else {
        lemma_moved(c, h);
    }
}

proof fn lemma_value_grows(c: Collected, chunks: Seq<Chunk>, overlap: int, positions: bool)
    ensures
        c.texts.len() <= collector_v3::after_value(c, chunks, overlap, positions).texts.len(),
{
    let n = chunks.len() as int;
    let (d, tokens) = collector_v3::after_chunks(c, chunks, overlap, n);
    lemma_chunks_grow(c, chunks, overlap, n);
    let e = if positions {
        d.linked(tokens)
    } else {
        d
    };
    let ranges = collector_v3::word_ranges(chunks, n);
    lemma_words_grow(e, chunks, tokens, overlap, ranges, ranges.len() as int);
}

proof fn lemma_chunks_grow(c: Collected, chunks: Seq<Chunk>, overlap: int, k: int)
    ensures
        c.texts.len() <= collector_v3::after_chunks(c, chunks, overlap, k).0.texts.len(),
    decreases k,
{
    if k > 0 {
        lemma_chunks_grow(c, chunks, overlap, k - 1);
    }
}

proof fn lemma_words_grow(
    c: Collected,
    chunks: Seq<Chunk>,
    tokens: Seq<u32>,
    overlap: int,
    ranges: Seq<(int, int)>,
    k: int,
)
    ensures
        c.texts.len() <= collector_v3::after_words(c, chunks, tokens, overlap, ranges, k).0.texts.len(),
    decreases k,
{
    if k > 0 {
        lemma_words_grow(c, chunks, tokens, overlap, ranges, k - 1);
        let b = collector_v3::after_words(c, chunks, tokens, overlap, ranges, k - 1).0;
        lemma_step_grows(b, chunks, tokens, overlap, ranges[k - 1].0, ranges[k - 1].1);
    }
}

proof fn lemma_values_named(c: Collected, values: Seq<Seq<Chunk>>, overlap: int, k: int)
    requires
        words_named(c),
        collector_trace::after_values(c, values, overlap, k).texts.len() <= u32::MAX,
    ensures
        words_named(collector_trace::after_values(c, values, overlap, k)),
    decreases k,
{
    if k > 0 {
        let b = collector_trace::after_values(c, values, overlap, k - 1);
        lemma_value_grows(b, values[k - 1], overlap, true);
        lemma_values_named(c, values, overlap, k - 1);
        a_value_names_its_words(b, values[k - 1], overlap, true);
    }
}

proof fn lemma_values_grow(c: Collected, values: Seq<Seq<Chunk>>, overlap: int, k: int)
    ensures
        c.texts.len() <= collector_trace::after_values(c, values, overlap, k).texts.len(),
    decreases k,
{
    if k > 0 {
        let b = collector_trace::after_values(c, values, overlap, k - 1);
        lemma_value_grows(b, values[k - 1], overlap, true);
        lemma_values_grow(c, values, overlap, k - 1);
    }
}

/// Law: after any documents every word has an entry.
pub proof fn documents_name_their_words(docs: Seq<Seq<Seq<Chunk>>>, overlap: int, k: int)
    requires
        collector_trace::after_docs(docs, overlap, k).texts.len() <= u32::MAX,
    ensures
        words_named(collector_trace::after_docs(docs, overlap, k)),
    decreases k,
{
    if k > 0 {
        let c = collector_trace::after_docs(docs, overlap, k - 1);
        let values = docs[k - 1];
        let b = Collected { ti: 0, ..c };
        let d = collector_trace::after_values(b, values, overlap, values.len() as int);
        lemma_values_grow(b, values, overlap, values.len() as int);
        documents_name_their_words(docs, overlap, k - 1);
        lemma_moved(c, b);
        lemma_values_named(b, values, overlap, values.len() as int);
        lemma_moved(d, collector_trace::after_docs(docs, overlap, k));
    }
}

/// Law: where every word has an entry, the final ordinals number all tokens,
/// and each ordinal is that of one token.
pub proof fn every_token_has_a_final_ordinal(c: Collected, ids: Option<Seq<u64>>, token: u32)
    requires
        words_named(c),
        c.texts.len() <= u32::MAX,
    ensures
        collector_data::final_order(c, ids).len() == c.texts.len(),
        collector_data::final_order(c, ids).no_duplicates(),
        token < c.texts.len() ==> {
            let order = collector_data::final_order(c, ids);
            let k = collector_data::final_ordinal(order, token);
            k < order.len() && order[k as int] == token
        },
{
    collector_data::lemma_final_order(c, ids);
    let order = collector_data::final_order(c, ids);
    let all = collector_data::all_tokens(c.texts.len());
    let keep = collector_data::kept(c);
    assert forall|i: int| 0 <= i < all.len() implies keep(#[trigger] all[i]) by {
        assert(c.metas[i].is_word_stripped ==> c.has_word(i as u32));
    }
    suffix_terms::lemma_filter_run(all, keep, 0, all.len() as int);
    assert(all.subrange(0, all.len() as int) =~= all);
    if token < c.texts.len() {
        assert(keep(all[token as int]));
        assert(order.contains(token));
        let i = order.index_of(token);
        assert(order[i] == token);
    }
}

/// Whether handed-on data is in order: every token stands once in the order of
/// the texts and has one final ordinal, under which its text stands, and the
/// postings of an ordinal ascend, with none for a word.
pub open spec fn orderly(data: SfxCollectorDataV3) -> bool {
    let n = data.token_texts@.len();
    &&& data.sorted_indices@.len() == n
    &&& data.sorted_indices@.no_duplicates()
    &&& forall|i: int| 0 <= i < n ==> (#[trigger] data.sorted_indices@[i]) < n
    &&& forall|i: int, j: int|
        0 <= i < j < n ==> !text_order::lex_lt(
            encode_utf8(data.token_texts@[#[trigger] data.sorted_indices@[j] as int]@),
            encode_utf8(data.token_texts@[#[trigger] data.sorted_indices@[i] as int]@),
        )
    &&& data.num_content_ords == n
    &&& data.tokens@.len() == n
    &&& data.content_postings@.len() == n
    &&& data.own_lens@.len() == n
    &&& data.token_meta@.len() == n
    &&& data.intern_to_final@.len() == n
    &&& data.intern_to_final@.no_duplicates()
    &&& forall|i: int| 0 <= i < n ==> (#[trigger] data.intern_to_final@[i]) < n
    &&& forall|i: int|
        0 <= i < n ==> encode_utf8(data.tokens@[(#[trigger] data.intern_to_final@[i]) as int]@)
            == encode_utf8(data.token_texts@[i]@)
    &&& forall|o: int|
        0 <= o < n ==> order::is_sorted((#[trigger] data.content_postings@[o])@)
            && data.content_postings@[o]@.no_duplicates()
    &&& forall|i: int|
        0 <= i < n && data.token_meta@[i].is_word_stripped ==> data.content_postings@[(
        #[trigger] data.intern_to_final@[i]) as int]@.len() == 0
}

/// Law: what a collector hands on is in order, after any values and documents.
pub proof fn data_is_orderly(
    data: SfxCollectorDataV3,
    c: Collected,
    positions: bool,
    ids: Option<Seq<u64>>,
    fresh: Seq<bool>,
)
    requires
        words_named(c),
        c.texts.len() <= u32::MAX,
        collector_data::data_of(data, c, positions, ids, fresh),
    ensures
        orderly(data),
{
    let n = data.token_texts@.len();
    let order = collector_data::final_order(c, ids);
    collector_data::lemma_sorted_tokens(c);
    collector_data::lemma_final_order(c, ids);
    every_token_has_a_final_ordinal(c, ids, 0);
    assert(c.texts.len() == n);
    assert forall|i: int| 0 <= i < n implies c.texts[i] == encode_utf8(#[trigger] data.token_texts@[i]@) by {
        assert(collector_v3::texts_of(data.token_texts@)[i] == c.texts[i]);
    }
    assert(collector_v3::texts_of(data.tokens@).len() == n);
    assert(collector_v3::contents(data.content_postings@).len() == n);
    assert forall|o: int| 0 <= o < n implies encode_utf8(#[trigger] data.tokens@[o]@)
        == c.texts[order[o] as int] by {
        assert(collector_v3::texts_of(data.tokens@)[o] == c.texts[order[o] as int]);
    }
    assert forall|o: int| 0 <= o < n implies (#[trigger] data.content_postings@[o])@
        == collector_data::chunk_places(c, order[o]) by {
        assert(collector_v3::contents(data.content_postings@)[o] == collector_data::chunk_places(
            c,
            order[o],
        ));
    }
    assert forall|i: int| 0 <= i < n implies (#[trigger] data.intern_to_final@[i]) < n
        && order[data.intern_to_final@[i] as int] == i by {
        every_token_has_a_final_ordinal(c, ids, i as u32);
        assert(data.intern_to_final@[i] == collector_data::final_ordinal(order, i as u32));
    }
    assert forall|o: int| 0 <= o < n implies order::is_sorted((#[trigger] data.content_postings@[o])@)
        && data.content_postings@[o]@.no_duplicates() by {
        let t = order[o];
        if !c.metas[t as int].is_word_stripped {
            collector_laws::postings_are_ordered(c, t, (0u32, 0u32));
        }
    }
    assert forall|i: int, j: int| 0 <= i < j < n implies !text_order::lex_lt(
        encode_utf8(data.token_texts@[#[trigger] data.sorted_indices@[j] as int]@),
        encode_utf8(data.token_texts@[#[trigger] data.sorted_indices@[i] as int]@),
    ) by {
        let s = collector_data::sorted_tokens(c);
        assert(s[i] < c.texts.len() && s[j] < c.texts.len());
    }
}

} // verus!
