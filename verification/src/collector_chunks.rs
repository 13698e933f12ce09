//! Which bytes of a value the tokens of its chunks have and where they are
//! posted.

use vstd::prelude::*;
use vstd::utf8::*;

use crate::collector_contents;
use crate::collector_spans;
use crate::collector_trace;
use crate::collector_v3;
use crate::collector_v3::{Chunk, Collected, TokenMetaV3};
use crate::text;

verus! {

/// Whether the lengths of every chunk's token add up to its text.
pub open spec fn lengths_true(c: Collected) -> bool {
    &&& c.metas.len() == c.texts.len()
    &&& c.postings.len() == c.texts.len()
    &&& forall|t: int|
        0 <= t < c.texts.len() && !(#[trigger] c.metas[t]).is_word_stripped ==> c.metas[t].own_len
            + c.metas[t].overlap_len == c.texts[t].len()
}

/// Whether these bytes are what chunk `i` borrows: as much of the next chunk as
/// whole characters fill in `overlap` bytes, and nothing behind the last.
pub open spec fn borrows(chunks: Seq<Chunk>, i: int, overlap: int, over: Seq<u8>) -> bool {
    if i + 1 < chunks.len() {
        text::is_head(over, collector_v3::chunk_bytes(chunks[i + 1]), overlap)
    } else {
        over.len() == 0
    }
}

/// Whether the token is that of chunk `i`: its bytes and what it borrows, with
/// the chunk's lengths and word start.
pub open spec fn is_token_of(c: Collected, t: int, chunks: Seq<Chunk>, overlap: int, i: int) -> bool {
    let own = collector_v3::chunk_bytes(chunks[i]);
    &&& 0 <= t < c.texts.len()
    &&& own.is_prefix_of(c.texts[t])
    &&& borrows(chunks, i, overlap, c.texts[t].skip(own.len() as int))
    &&& !c.metas[t].is_word_stripped
    &&& c.metas[t].own_len == own.len()
    &&& c.metas[t].sep_len == chunks[i].meta.sep_len
    &&& c.metas[t].is_word_start == chunks[i].meta.is_word_start
}

/// Whether the posting is that of chunk `i`: at its position, over its bytes of
/// the value.
pub open spec fn is_place_of(p: (u32, u32, u32, u32), chunks: Seq<Chunk>, doc: u32, ti: u32, i: int) -> bool {
    &&& 0 <= i < chunks.len()
    &&& p.0 == doc
    &&& p.1 == ti + i
    &&& p.2 == collector_contents::value_bytes(chunks, i).len()
    &&& p.3 == p.2 + collector_v3::chunk_bytes(chunks[i]).len()
}

/// Whether chunk `i` is posted for its token.
pub open spec fn chunk_done(c: Collected, chunks: Seq<Chunk>, overlap: int, doc: u32, ti: u32, i: int) -> bool {
    exists|t: int, j: int, p: (u32, u32, u32, u32)| #[trigger]
        collector_spans::is_posted(c, t, j, p) && is_token_of(c, t, chunks, overlap, i) && is_place_of(
            p,
            chunks,
            doc,
            ti,
            i,
        )
}

/// Whether the token has the posting.
pub open spec fn posted(c: Collected, t: int, p: (u32, u32, u32, u32)) -> bool {
    0 <= t < c.postings.len() && c.postings[t].contains(p)
}

/// Whether `d` has the tokens of `c` and their postings.
spec fn keeps(c: Collected, d: Collected) -> bool {
    &&& c.texts.is_prefix_of(d.texts)
    &&& c.metas.is_prefix_of(d.metas)
    &&& collector_spans::postings_stay(c, d)
}

proof fn lemma_keeps_trans(c: Collected, d: Collected, e: Collected)
    requires
        keeps(c, d),
        keeps(d, e),
    ensures
        keeps(c, e),
{
    assert(c.texts =~= e.texts.subrange(0, c.texts.len() as int)) by {
        assert forall|i: int| 0 <= i < c.texts.len() implies c.texts[i] == e.texts[i] by {
            assert(c.texts[i] == d.texts.subrange(0, c.texts.len() as int)[i]);
            assert(d.texts[i] == e.texts.subrange(0, d.texts.len() as int)[i]);
        }
    }
    assert(c.metas =~= e.metas.subrange(0, c.metas.len() as int)) by {
        assert forall|i: int| 0 <= i < c.metas.len() implies c.metas[i] == e.metas[i] by {
            assert(c.metas[i] == d.metas.subrange(0, c.metas.len() as int)[i]);
            assert(d.metas[i] == e.metas.subrange(0, d.metas.len() as int)[i]);
        }
    }
    assert forall|k: int| 0 <= k < c.postings.len() implies (#[trigger] c.postings[k]).is_prefix_of(
        e.postings[k],
    ) by {
        assert(c.postings[k].is_prefix_of(d.postings[k]));
        assert(d.postings[k].is_prefix_of(e.postings[k]));
    }
}

proof fn lemma_keeps_same(c: Collected, d: Collected)
    requires
        c.texts == d.texts,
        c.metas == d.metas,
        c.postings == d.postings,
    ensures
        keeps(c, d),
{
    assert(c.texts =~= d.texts.subrange(0, c.texts.len() as int));
    assert(c.metas =~= d.metas.subrange(0, c.metas.len() as int));
}

proof fn lemma_done_stays(
    c: Collected,
    d: Collected,
    chunks: Seq<Chunk>,
    overlap: int,
    doc: u32,
    ti: u32,
    i: int,
)
    requires
        keeps(c, d),
        c.metas.len() == c.texts.len(),
        chunk_done(c, chunks, overlap, doc, ti, i),
    ensures
        chunk_done(d, chunks, overlap, doc, ti, i),
{
    let (t, j, p) = choose|t: int, j: int, p: (u32, u32, u32, u32)| #[trigger]
        collector_spans::is_posted(c, t, j, p) && is_token_of(c, t, chunks, overlap, i) && is_place_of(
            p,
            chunks,
            doc,
            ti,
            i,
        );
    assert(c.postings[t].is_prefix_of(d.postings[t]));
    assert(d.texts[t] == d.texts.subrange(0, c.texts.len() as int)[t]);
    assert(d.metas[t] == d.metas.subrange(0, c.metas.len() as int)[t]);
    assert(collector_spans::is_posted(d, t, j, p));
}

proof fn lemma_interned_keeps(c: Collected, text: Seq<u8>, m: TokenMetaV3)
    requires
        lengths_true(c),
        m.is_word_stripped || m.own_len + m.overlap_len == text.len(),
    ensures
        lengths_true(c.interned(text, m).0),
        keeps(c, c.interned(text, m).0),
        forall|t: int, p: (u32, u32, u32, u32)| #[trigger]
            posted(c.interned(text, m).0, t, p) ==> posted(c, t, p),
{
    let d = c.interned(text, m).0;
    assert(c.texts =~= d.texts.subrange(0, c.texts.len() as int));
    assert(c.metas =~= d.metas.subrange(0, c.metas.len() as int));
}

proof fn lemma_chunks_done(c: Collected, chunks: Seq<Chunk>, overlap: int, k: int)
    requires
        lengths_true(c),
        collector_trace::all_shaped(c),
        collector_v3::value_ok(chunks),
        0 <= k <= chunks.len(),
        0 <= overlap <= u8::MAX,
        c.ti + chunks.len() < u32::MAX,
        collector_v3::after_chunks(c, chunks, overlap, k).0.texts.len() <= u32::MAX,
    ensures
        ({
            let d = collector_v3::after_chunks(c, chunks, overlap, k).0;
            &&& lengths_true(d)
            &&& collector_trace::all_shaped(d)
            &&& keeps(c, d)
            &&& d.doc == c.doc
            &&& d.ti == c.ti
            &&& forall|i: int| 0 <= i < k ==> #[trigger] chunk_done(d, chunks, overlap, c.doc, c.ti, i)
            &&& forall|t: int, p: (u32, u32, u32, u32)| #[trigger]
                posted(d, t, p) ==> posted(c, t, p) || exists|i: int|
                    0 <= i < k && #[trigger] is_place_of(p, chunks, c.doc, c.ti, i)
        }),
    decreases k,
{
    let d = collector_v3::after_chunks(c, chunks, overlap, k).0;
    if k > 0 {
        let b = collector_v3::after_chunks(c, chunks, overlap, k - 1).0;
        let i = k - 1;
        let over = collector_v3::chunk_overlap(chunks, i, overlap);
        let own = collector_v3::chunk_bytes(chunks[i]);
        let m = collector_v3::chunk_shape(chunks[i], over.len() as int);
        let (e, token) = b.interned(own + over, m);
        assert(d.texts == e.texts && d.metas == e.metas);
        lemma_chunks_done(c, chunks, overlap, k - 1);
        assert(collector_v3::chunk_ok(chunks[i]));
        if i + 1 < chunks.len() {
            encode_utf8_valid_utf8(chunks[i + 1].text@);
            text::a_head_is_the_longest_that_fits(collector_v3::chunk_bytes(chunks[i + 1]), overlap);
        }
        assert(borrows(chunks, i, overlap, over));
        assert(over.len() <= overlap);
        lemma_interned_keeps(b, own + over, m);
        let key = (collector_v3::shape_tag(m), own + over);
        if b.keys().contains(key) {
            let x = b.keys().index_of(key);
            assert(b.keys()[x] == key);
        } else {
            assert(e.metas[token as int] == m);
        }
        let place = (
            b.doc,
            (b.ti + i) as u32,
            collector_v3::offset_of(chunks, i) as u32,
            collector_v3::offset_of(chunks, i + 1) as u32,
        );
        assert(d.postings == e.postings.update(token as int, e.postings[token as int].push(place)));
        assert(collector_spans::postings_stay(e, d));
        assert(e.texts =~= d.texts.subrange(0, e.texts.len() as int));
        assert(e.metas =~= d.metas.subrange(0, e.metas.len() as int));
        lemma_keeps_trans(b, e, d);
        lemma_keeps_trans(c, b, d);
        collector_contents::lemma_value_len(chunks, i);
        collector_contents::lemma_value_len(chunks, i + 1);
        collector_v3::lemma_offset_mono(chunks, i, i + 1);
        collector_v3::lemma_offset_mono(chunks, i + 1, chunks.len() as int);
        assert(is_place_of(place, chunks, c.doc, c.ti, i));
        assert(collector_trace::all_shaped(d));
        assert(is_token_of(d, token as int, chunks, overlap, i)) by {
            let t = token as int;
            assert(d.texts[t] == own + over);
            assert(own =~= (own + over).subrange(0, own.len() as int));
            assert(over =~= (own + over).skip(own.len() as int));
            assert(collector_v3::shape_tag(d.metas[t]) == collector_v3::shape_tag(m));
            assert(collector_v3::shaped(d.metas[t]));
        }
        assert forall|x: int| 0 <= x < k implies #[trigger] chunk_done(d, chunks, overlap, c.doc, c.ti, x) by {
            if x < k - 1 {
                lemma_done_stays(b, d, chunks, overlap, c.doc, c.ti, x);
            } else {
                assert(collector_spans::is_posted(
                    d,
                    token as int,
                    e.postings[token as int].len() as int,
                    place,
                ));
            }
        }
        assert forall|t: int, p: (u32, u32, u32, u32)| #[trigger] posted(d, t, p) implies posted(c, t, p)
            || exists|x: int| 0 <= x < k && #[trigger] is_place_of(p, chunks, c.doc, c.ti, x) by {
            if p == place {
                assert(0 <= i < k && is_place_of(p, chunks, c.doc, c.ti, i));
            } else {
                let j = choose|j: int| 0 <= j < d.postings[t].len() && d.postings[t][j] == p;
                assert(e.postings[t][j] == p);
                assert(posted(e, t, p));
                assert(posted(b, t, p));
                if !posted(c, t, p) {
                    let x = choose|x: int| 0 <= x < k - 1 && #[trigger] is_place_of(p, chunks, c.doc, c.ti, x);
                    assert(0 <= x < k && is_place_of(p, chunks, c.doc, c.ti, x));
                }
            }
        }
    } else {
        lemma_keeps_same(c, d);
    }
}

proof fn lemma_word_keeps(
    c: Collected,
    chunks: Seq<Chunk>,
    tokens: Seq<u32>,
    overlap: int,
    a: int,
    b: int,
)
    requires
        lengths_true(c),
    ensures
        ({
            let d = collector_v3::word_step(c, chunks, tokens, overlap, a, b).0;
            &&& lengths_true(d)
            &&& keeps(c, d)
            &&& forall|t: int, p: (u32, u32, u32, u32)| #[trigger] posted(d, t, p) ==> posted(c, t, p)
        }),
{
    let d = collector_v3::word_step(c, chunks, tokens, overlap, a, b).0;
    assert(c.texts =~= d.texts.subrange(0, c.texts.len() as int));
    assert(c.metas =~= d.metas.subrange(0, c.metas.len() as int));
}

proof fn lemma_words_keep(
    c: Collected,
    chunks: Seq<Chunk>,
    tokens: Seq<u32>,
    overlap: int,
    ranges: Seq<(int, int)>,
    k: int,
)
    requires
        lengths_true(c),
    ensures
        ({
            let d = collector_v3::after_words(c, chunks, tokens, overlap, ranges, k).0;
            &&& lengths_true(d)
            &&& keeps(c, d)
            &&& forall|t: int, p: (u32, u32, u32, u32)| #[trigger] posted(d, t, p) ==> posted(c, t, p)
        }),
    decreases k,
{
    if k > 0 {
        let b = collector_v3::after_words(c, chunks, tokens, overlap, ranges, k - 1).0;
        lemma_words_keep(c, chunks, tokens, overlap, ranges, k - 1);
        lemma_word_keeps(b, chunks, tokens, overlap, ranges[k - 1].0, ranges[k - 1].1);
        lemma_keeps_trans(c, b, collector_v3::after_words(c, chunks, tokens, overlap, ranges, k).0);
    } else {
        lemma_keeps_same(c, c);
    }
}

/// Law: every chunk of a value is posted at its position, over its bytes of the
/// value, for a token whose text is these bytes and as much of the next chunk as
/// whole characters fill in the overlap, with the chunk's lengths and word
/// start; and the value adds no other chunk posting.
pub proof fn chunks_are_posted_with_their_bytes(
    c: Collected,
    chunks: Seq<Chunk>,
    overlap: int,
    positions: bool,
)
    requires
        lengths_true(c),
        collector_trace::all_shaped(c),
        collector_v3::value_ok(chunks),
        0 <= overlap <= u8::MAX,
        c.ti + chunks.len() < u32::MAX,
        collector_v3::after_value(c, chunks, overlap, positions).texts.len() <= u32::MAX,
    ensures
        ({
            let h = collector_v3::after_value(c, chunks, overlap, positions);
            &&& lengths_true(h)
            &&& forall|i: int| 0 <= i < chunks.len() ==> #[trigger] chunk_done(h, chunks, overlap, c.doc, c.ti, i)
            &&& forall|t: int, p: (u32, u32, u32, u32)| #[trigger]
                posted(h, t, p) ==> posted(c, t, p) || exists|i: int| #[trigger]
                    is_place_of(p, chunks, c.doc, c.ti, i)
        }),
{
    let n = chunks.len() as int;
    let h = collector_v3::after_value(c, chunks, overlap, positions);
    if n > 0 {
        let (d, tokens) = collector_v3::after_chunks(c, chunks, overlap, n);
        let e = if positions {
            d.linked(tokens)
        } else {
            d
        };
        let ranges = collector_v3::word_ranges(chunks, n);
        let (f, list) = collector_v3::after_words(e, chunks, tokens, overlap, ranges, ranges.len() as int);
        assert(h.texts == f.texts && h.metas == f.metas && h.postings == f.postings);
        assert(e.texts == d.texts && e.metas == d.metas && e.postings == d.postings);
        collector_trace::lemma_words_texts(e, chunks, tokens, overlap, ranges, ranges.len() as int);
        lemma_chunks_done(c, chunks, overlap, n);
        lemma_keeps_same(d, e);
        lemma_words_keep(e, chunks, tokens, overlap, ranges, ranges.len() as int);
        lemma_keeps_same(f, h);
        lemma_keeps_trans(d, e, f);
        lemma_keeps_trans(d, f, h);
        assert forall|i: int| 0 <= i < chunks.len() implies #[trigger] chunk_done(
            h,
            chunks,
            overlap,
            c.doc,
            c.ti,
            i,
        ) by {
            lemma_done_stays(d, h, chunks, overlap, c.doc, c.ti, i);
        }
        assert forall|t: int, p: (u32, u32, u32, u32)| #[trigger] posted(h, t, p) implies posted(c, t, p)
            || exists|i: int| #[trigger] is_place_of(p, chunks, c.doc, c.ti, i) by {
            assert(posted(f, t, p));
            assert(posted(e, t, p));
            assert(posted(d, t, p));
        }
    }
}

} // verus!
