//! What the things that were collected are taken to cost, all told.

use vstd::prelude::*;

use crate::collector_v3;
use crate::collector_v3::{CHUNK_POSTING_BYTES, Chunk, Collected, DEFAULT_MAX_TOKEN, INTERNED_TOKEN_OVERHEAD, MAX_SUFFIX_INDEX, SIBLING_PAIR_BYTES, TokenMetaV3, WORD_POSTING_BYTES, WORD_STRIPPED_OVERHEAD, WordEntry};
use crate::offset_table;

verus! {

/// How many items the lists have, all told.
pub open spec fn items<T>(lists: Seq<Seq<T>>) -> int
    decreases lists.len(),
{
    if lists.len() == 0 {
        0
    } else {
        items(lists.drop_last()) + lists.last().len()
    }
}

/// How many bytes the texts have, and as many overheads.
pub open spec fn token_cost(texts: Seq<Seq<u8>>) -> int
    decreases texts.len(),
{
    if texts.len() == 0 {
        0
    } else {
        token_cost(texts.drop_last()) + texts.last().len() + INTERNED_TOKEN_OVERHEAD
    }
}

/// The cost of all tokens, postings and links: a token costs its text and an
/// overhead, a word's occurrence what an entry and a posting do.
pub open spec fn cost(c: Collected) -> int {
    token_cost(c.texts) + CHUNK_POSTING_BYTES * items(c.postings) + (WORD_STRIPPED_OVERHEAD + WORD_POSTING_BYTES)
        * items(c.word_postings) + SIBLING_PAIR_BYTES * c.pairs.len()
}

/// Whether what is counted is the cost, as far as it can be counted.
pub open spec fn counted(c: Collected) -> bool {
    c.mem == if cost(c) <= usize::MAX {
        cost(c)
    } else {
        usize::MAX as int
    }
}

proof fn lemma_items_update<T>(lists: Seq<Seq<T>>, k: int, x: T)
    requires
        0 <= k < lists.len(),
    ensures
        items(lists.update(k, lists[k].push(x))) == items(lists) + 1,
    decreases lists.len(),
{
    let d = lists.drop_last();
    let all = lists.update(k, lists[k].push(x));
    if k == lists.len() - 1 {
        assert(all.drop_last() =~= d);
    } else {
        assert(all.drop_last() =~= d.update(k, d[k].push(x)));
        lemma_items_update(d, k, x);
    }
}

proof fn lemma_items_padded<T>(lists: Seq<Seq<T>>, n: int)
    ensures
        items(offset_table::padded(lists, n, Seq::empty())) == items(lists),
    decreases n - lists.len(),
{
    let all = offset_table::padded(lists, n, Seq::<T>::empty());
    if n > lists.len() {
        lemma_items_padded(lists, n - 1);
        assert(all.drop_last() =~= offset_table::padded(lists, n - 1, Seq::<T>::empty()));
        assert(all.last() =~= Seq::<T>::empty());
    }
}

proof fn lemma_items_push<T>(lists: Seq<Seq<T>>)
    ensures
        items(lists.push(Seq::empty())) == items(lists),
{
    assert(lists.push(Seq::empty()).drop_last() =~= lists);
}

proof fn lemma_interned_counted(c: Collected, text: Seq<u8>, m: TokenMetaV3)
    requires
        counted(c),
        c.metas.len() == c.texts.len(),
        c.postings.len() == c.texts.len(),
    ensures
        counted(c.interned(text, m).0),
        c.interned(text, m).0.metas.len() == c.interned(text, m).0.texts.len(),
        c.interned(text, m).0.postings.len() == c.interned(text, m).0.texts.len(),
        c.interned(text, m).0.texts.len() <= u32::MAX ==> c.interned(text, m).1 < c.interned(text, m).0.texts.len(),
        c.texts.len() <= c.interned(text, m).0.texts.len(),
{
    let key = (collector_v3::shape_tag(m), text);
    if c.keys().contains(key) {
        let i = c.keys().index_of(key);
        assert(0 <= i < c.keys().len());
    } else {
        assert(c.texts.push(text).drop_last() =~= c.texts);
        lemma_items_push(c.postings);
    }
}

proof fn lemma_word_counted(
    c: Collected,
    text: Seq<u8>,
    m: TokenMetaV3,
    e: WordEntry,
    q: (u32, u32, u32, u32, u32, u16),
)
    requires
        counted(c),
        c.metas.len() == c.texts.len(),
        c.postings.len() == c.texts.len(),
    ensures
        ({
            let d = c.interned(text, m).0.worded(e).word_posted(e.token, q);
            &&& counted(d)
            &&& d.metas.len() == d.texts.len()
            &&& d.postings.len() == d.texts.len()
        }),
{
    lemma_interned_counted(c, text, m);
    let b = c.interned(text, m).0;
    let w = b.worded(e);
    let g = offset_table::padded(w.word_postings, e.token + 1, Seq::empty());
    lemma_items_padded(w.word_postings, e.token + 1);
    lemma_items_update(g, e.token as int, q);
}

proof fn lemma_linked_counted(c: Collected, tokens: Seq<u32>)
    requires
        counted(c),
    ensures
        counted(c.linked(tokens)),
{
    if tokens.len() > 1 {
        assert(collector_v3::links(tokens, tokens.len() as int).len() == tokens.len() - 1);
    }
}

proof fn lemma_chunks_counted(c: Collected, chunks: Seq<Chunk>, overlap: int, k: int)
    requires
        counted(c),
        c.metas.len() == c.texts.len(),
        c.postings.len() == c.texts.len(),
        collector_v3::after_chunks(c, chunks, overlap, k).0.texts.len() <= u32::MAX,
    ensures
        ({
            let d = collector_v3::after_chunks(c, chunks, overlap, k).0;
            &&& counted(d)
            &&& d.metas.len() == d.texts.len()
            &&& d.postings.len() == d.texts.len()
        }),
    decreases k,
{
    if k > 0 {
        let b = collector_v3::after_chunks(c, chunks, overlap, k - 1).0;
        let d = collector_v3::after_chunks(c, chunks, overlap, k).0;
        let i = k - 1;
        let over = collector_v3::chunk_overlap(chunks, i, overlap);
        let text = collector_v3::chunk_bytes(chunks[i]) + over;
        let m = collector_v3::chunk_shape(chunks[i], over.len() as int);
        let (e, token) = b.interned(text, m);
        assert(d.texts == e.texts);
        assert(b.texts.len() <= e.texts.len());
        lemma_chunks_counted(c, chunks, overlap, k - 1);
        lemma_interned_counted(b, text, m);
        let place = (
            b.doc,
            (b.ti + i) as u32,
            collector_v3::offset_of(chunks, i) as u32,
            collector_v3::offset_of(chunks, i + 1) as u32,
        );
        lemma_items_update(e.postings, token as int, place);
        assert(d == e.posted(token, place));
    }
}

proof fn lemma_step_counted(
    c: Collected,
    chunks: Seq<Chunk>,
    tokens: Seq<u32>,
    overlap: int,
    a: int,
    b: int,
)
    requires
        counted(c),
        c.metas.len() == c.texts.len(),
        c.postings.len() == c.texts.len(),
    ensures
        ({
            let d = collector_v3::word_step(c, chunks, tokens, overlap, a, b).0;
            &&& counted(d)
            &&& d.metas.len() == d.texts.len()
            &&& d.postings.len() == d.texts.len()
        }),
{
    let content = collector_v3::content_of(chunks, a, b);
    let over = collector_v3::word_overlap(chunks, b, overlap);
    let first = chunks[a].meta;
    let last = chunks[b - 1].meta;
    let own_len = collector_v3::word_own_len(content.len() as int, last.sep_len as int);
    if content.len() > 0 {
        let m = TokenMetaV3 {
            own_len,
            sep_len: last.sep_len as u8,
            overlap_len: over.len() as u8,
            is_word_start: first.is_word_start,
            word_id: first.word_id,
            is_word_stripped: true,
        };
        let (x, token) = c.interned(content + over, m);
        let e = WordEntry {
            content,
            overlap: over,
            token,
            first_chunk: tokens[a],
            last_chunk: tokens[b - 1],
            own_len,
            sep_len: last.sep_len as u8,
            is_word_start: first.is_word_start,
            num_chunks: (b - a) as u32,
        };
        let q = (
            c.doc,
            (c.ti + a) as u32,
            (c.ti + b - 1) as u32,
            collector_v3::offset_of(chunks, a) as u32,
            (collector_v3::offset_of(chunks, a) + content.len()) as u32,
            0u16,
        );
        let y = x.worded(e).word_posted(token, q);
        lemma_word_counted(c, content + over, m, e, q);
        if content.len() > MAX_SUFFIX_INDEX + DEFAULT_MAX_TOKEN {
            lemma_tail_counted(y, chunks, tokens, over, a, b);
        }
    }
}

proof fn lemma_tail_counted(
    c: Collected,
    chunks: Seq<Chunk>,
    tokens: Seq<u32>,
    over: Seq<u8>,
    a: int,
    b: int,
)
    requires
        counted(c),
        c.metas.len() == c.texts.len(),
        c.postings.len() == c.texts.len(),
    ensures
        ({
            let d = collector_v3::tail_step(c, chunks, tokens, over, a, b);
            &&& counted(d)
            &&& d.metas.len() == d.texts.len()
            &&& d.postings.len() == d.texts.len()
        }),
{
    let content = collector_v3::content_of(chunks, a, b);
    let last = chunks[b - 1].meta;
    let ts = crate::text::ceil_boundary(content, content.len() - DEFAULT_MAX_TOKEN);
    let tail = content.subrange(ts, content.len() as int);
    let own_len = (tail.len() + last.sep_len) as u16;
    let m = TokenMetaV3 {
        own_len,
        sep_len: last.sep_len as u8,
        overlap_len: over.len() as u8,
        is_word_start: false,
        word_id: last.word_id,
        is_word_stripped: true,
    };
    let (x, token) = c.interned(tail + over, m);
    let from = collector_v3::offset_of(chunks, a) + ts;
    let first = collector_v3::chunk_holding(chunks, a, b, from);
    let e = WordEntry {
        content: tail,
        overlap: over,
        token,
        first_chunk: tokens[first],
        last_chunk: tokens[b - 1],
        own_len,
        sep_len: last.sep_len as u8,
        is_word_start: false,
        num_chunks: (b - first) as u32,
    };
    let q = (
        c.doc,
        (c.ti + first) as u32,
        (c.ti + b - 1) as u32,
        from as u32,
        (from + tail.len()) as u32,
        (from - collector_v3::offset_of(chunks, first)) as u16,
    );
    lemma_word_counted(c, tail + over, m, e, q);
}

proof fn lemma_words_counted(
    c: Collected,
    chunks: Seq<Chunk>,
    tokens: Seq<u32>,
    overlap: int,
    ranges: Seq<(int, int)>,
    k: int,
)
    requires
        counted(c),
        c.metas.len() == c.texts.len(),
        c.postings.len() == c.texts.len(),
    ensures
        ({
            let d = collector_v3::after_words(c, chunks, tokens, overlap, ranges, k).0;
            &&& counted(d)
            &&& d.metas.len() == d.texts.len()
            &&& d.postings.len() == d.texts.len()
        }),
    decreases k,
{
    if k > 0 {
        let b = collector_v3::after_words(c, chunks, tokens, overlap, ranges, k - 1).0;
        lemma_words_counted(c, chunks, tokens, overlap, ranges, k - 1);
        lemma_step_counted(b, chunks, tokens, overlap, ranges[k - 1].0, ranges[k - 1].1);
    }
}

/// Law: where what is counted is the cost of all that was collected, it still
/// is after a value: each token, posting and link is counted, once and at its
/// cost.
pub proof fn a_value_is_counted_at_its_cost(c: Collected, chunks: Seq<Chunk>, overlap: int, positions: bool)
    requires
        counted(c),
        c.metas.len() == c.texts.len(),
        c.postings.len() == c.texts.len(),
        collector_v3::after_chunks(c, chunks, overlap, chunks.len() as int).0.texts.len() <= u32::MAX,
    ensures
        counted(collector_v3::after_value(c, chunks, overlap, positions)),
{
    let n = chunks.len() as int;
    let h = collector_v3::after_value(c, chunks, overlap, positions);
    if n > 0 {
        let (d, tokens) = collector_v3::after_chunks(c, chunks, overlap, n);
        lemma_chunks_counted(c, chunks, overlap, n);
        let e = if positions {
            d.linked(tokens)
        } else {
            d
        };
        lemma_linked_counted(d, tokens);
        let ranges = collector_v3::word_ranges(chunks, n);
        let (f, list) = collector_v3::after_words(e, chunks, tokens, overlap, ranges, ranges.len() as int);
        lemma_words_counted(e, chunks, tokens, overlap, ranges, ranges.len() as int);
        lemma_linked_counted(f, list);
    }
}

/// Law: nothing collected costs nothing.
pub proof fn nothing_is_counted_at_first()
    ensures
        counted(collector_v3::nothing_collected()),
        cost(collector_v3::nothing_collected()) == 0,
{
}

} // verus!
