//! Where the postings of words start: in the chunk at their first position.

use vstd::prelude::*;
use vstd::utf8::*;

use crate::collector_trace;
use crate::collector_trace::Trace;
use crate::collector_v3;
use crate::collector_v3::{Chunk, Collected, DEFAULT_MAX_TOKEN, MAX_SUFFIX_INDEX, TokenMetaV3, WordEntry};
use crate::offset_table;
use crate::text;

verus! {

/// Whether a chunk posting is at the word posting's first position and holds
/// its first byte, as far into the chunk as the word posting says.
pub open spec fn covers(p: (u32, u32, u32, u32), q: (u32, u32, u32, u32, u32, u16)) -> bool {
    &&& p.0 == q.0
    &&& p.1 == q.1
    &&& p.2 <= q.3 < p.3
    &&& q.5 == q.3 - p.2
}

/// Whether chunk posting `i` of a token covers the word posting.
pub open spec fn covered_by(c: Collected, k: int, i: int, q: (u32, u32, u32, u32, u32, u16)) -> bool {
    0 <= k < c.postings.len() && 0 <= i < c.postings[k].len() && covers(c.postings[k][i], q)
}

/// Whether some chunk posting covers the word posting.
pub open spec fn covered(c: Collected, q: (u32, u32, u32, u32, u32, u16)) -> bool {
    exists|k: int, i: int| #[trigger] covered_by(c, k, i, q)
}

/// Whether every word posting is covered.
pub open spec fn all_covered(c: Collected) -> bool {
    forall|t: u32, q: (u32, u32, u32, u32, u32, u16)| #[trigger] collector_trace::has_posting(c, t, q) ==> covered(c, q)
}

/// Whether `d` has the chunk postings of `c`.
pub open spec fn postings_stay(c: Collected, d: Collected) -> bool {
    &&& c.postings.len() <= d.postings.len()
    &&& forall|k: int| 0 <= k < c.postings.len() ==> (#[trigger] c.postings[k]).is_prefix_of(d.postings[k])
}

/// Whether the chunk is posted.
pub open spec fn chunk_posted(c: Collected, chunks: Seq<Chunk>, i: int) -> bool {
    exists|k: int, j: int| #[trigger]
        is_posted(
            c,
            k,
            j,
            (c.doc, (c.ti + i) as u32, collector_v3::offset_of(chunks, i) as u32, collector_v3::offset_of(chunks, i + 1) as u32),
        )
}

/// Whether posting `j` of a token is this.
pub open spec fn is_posted(c: Collected, k: int, j: int, p: (u32, u32, u32, u32)) -> bool {
    0 <= k < c.postings.len() && 0 <= j < c.postings[k].len() && c.postings[k][j] == p
}

proof fn lemma_covered_stays(c: Collected, d: Collected, q: (u32, u32, u32, u32, u32, u16))
    requires
        postings_stay(c, d),
        covered(c, q),
    ensures
        covered(d, q),
{
    let (k, i) = choose|k: int, i: int| #[trigger] covered_by(c, k, i, q);
    assert(c.postings[k].is_prefix_of(d.postings[k]));
    assert(covered_by(d, k, i, q));
}

proof fn lemma_posted_stays(c: Collected, d: Collected, chunks: Seq<Chunk>, i: int)
    requires
        postings_stay(c, d),
        c.doc == d.doc,
        c.ti == d.ti,
        chunk_posted(c, chunks, i),
    ensures
        chunk_posted(d, chunks, i),
{
    let p = (
        c.doc,
        (c.ti + i) as u32,
        collector_v3::offset_of(chunks, i) as u32,
        collector_v3::offset_of(chunks, i + 1) as u32,
    );
    let (k, j) = choose|k: int, j: int| #[trigger] is_posted(c, k, j, p);
    assert(c.postings[k].is_prefix_of(d.postings[k]));
    assert(is_posted(d, k, j, p));
}

proof fn lemma_interned_stays(c: Collected, text: Seq<u8>, m: TokenMetaV3)
    requires
        collector_trace::sound(c),
    ensures
        postings_stay(c, c.interned(text, m).0),
        c.interned(text, m).0.word_postings == c.word_postings,
{
}

proof fn lemma_stay_trans(c: Collected, d: Collected, e: Collected)
    requires
        postings_stay(c, d),
        postings_stay(d, e),
    ensures
        postings_stay(c, e),
{
    assert forall|k: int| 0 <= k < c.postings.len() implies (#[trigger] c.postings[k]).is_prefix_of(
        e.postings[k],
    ) by {
        assert(c.postings[k].is_prefix_of(d.postings[k]));
        assert(d.postings[k].is_prefix_of(e.postings[k]));
    }
}

/// Chunks are posted with their bytes.
proof fn lemma_chunks_posted(c: Collected, chunks: Seq<Chunk>, overlap: int, k: int)
    requires
        collector_trace::sound(c),
        collector_trace::all_shaped(c),
        0 <= k <= chunks.len(),
        c.ti + chunks.len() < u32::MAX,
        collector_v3::after_chunks(c, chunks, overlap, k).0.texts.len() <= u32::MAX,
    ensures
        postings_stay(c, collector_v3::after_chunks(c, chunks, overlap, k).0),
        forall|i: int|
            0 <= i < k ==> #[trigger] chunk_posted(collector_v3::after_chunks(c, chunks, overlap, k).0, chunks, i),
    decreases k,
{
    if k > 0 {
        let b = collector_v3::after_chunks(c, chunks, overlap, k - 1).0;
        let d = collector_v3::after_chunks(c, chunks, overlap, k).0;
        let i = k - 1;
        let over = collector_v3::chunk_overlap(chunks, i, overlap);
        let content = collector_v3::chunk_bytes(chunks[i]) + over;
        let m = collector_v3::chunk_shape(chunks[i], over.len() as int);
        let (e, token) = b.interned(content, m);
        assert(d.texts == e.texts);
        assert(b.texts.len() <= e.texts.len());
        lemma_chunks_posted(c, chunks, overlap, k - 1);
        collector_trace::lemma_chunks_leave(c, chunks, overlap, k - 1);
        collector_trace::lemma_interned_token(b, content, m);
        lemma_interned_stays(b, content, m);
        let place = (
            b.doc,
            (b.ti + i) as u32,
            collector_v3::offset_of(chunks, i) as u32,
            collector_v3::offset_of(chunks, i + 1) as u32,
        );
        assert(d.postings == e.postings.update(token as int, e.postings[token as int].push(place)));
        assert(postings_stay(e, d));
        lemma_stay_trans(b, e, d);
        lemma_stay_trans(c, b, d);
        assert forall|x: int| 0 <= x < k implies #[trigger] chunk_posted(d, chunks, x) by {
            if x < k - 1 {
                lemma_posted_stays(b, d, chunks, x);
            } else {
                assert(is_posted(d, token as int, e.postings[token as int].len() as int, place));
            }
        }
    }
}

proof fn lemma_boundary_near(b: Seq<u8>, k: int) -> (j: int)
    requires
        valid_utf8(b),
        0 <= k,
        k + 3 <= b.len(),
    ensures
        k <= j <= k + 3,
        is_char_boundary(b, j),
    decreases b.len(),
{
    if k == 0 {
        0
    } else {
        let f = length_of_first_scalar(b);
        let rest = pop_first_scalar(b);
        if k < f {
            assert(is_char_boundary(rest, 0));
            f
        } else {
            f + lemma_boundary_near(rest, k - f)
        }
    }
}

proof fn lemma_ceil_below(b: Seq<u8>, k: int, j: int)
    requires
        0 <= k <= j <= b.len(),
        is_char_boundary(b, j),
    ensures
        text::ceil_boundary(b, k) <= j,
    decreases b.len() - k,
{
    if k < b.len() && !is_char_boundary(b, k) {
        lemma_ceil_below(b, k + 1, j);
    }
}

/// The content of chunks is a text, no longer than the chunks.
pub proof fn lemma_content_valid(chunks: Seq<Chunk>, a: int, b: int)
    requires
        0 <= a <= b <= chunks.len(),
        collector_v3::value_ok(chunks),
    ensures
        valid_utf8(collector_v3::content_of(chunks, a, b)),
        collector_v3::offset_of(chunks, a) + collector_v3::content_of(chunks, a, b).len() <= collector_v3::offset_of(chunks, b),
    decreases b - a,
{
    if a < b {
        lemma_content_valid(chunks, a, b - 1);
        assert(collector_v3::chunk_ok(chunks[b - 1]));
        encode_utf8_valid_utf8(chunks[b - 1].text@);
        valid_utf8_split(collector_v3::chunk_bytes(chunks[b - 1]), chunks[b - 1].meta.content_len as int);
        valid_utf8_concat(
            collector_v3::content_of(chunks, a, b - 1),
            collector_v3::chunk_bytes(chunks[b - 1]).subrange(0, chunks[b - 1].meta.content_len as int),
        );
    }
}

/// A byte is in the chunk that is found to hold it.
proof fn lemma_holds(chunks: Seq<Chunk>, a: int, b: int, at: int)
    requires
        0 <= a < b,
        collector_v3::offset_of(chunks, a) <= at < collector_v3::offset_of(chunks, b),
    ensures
        ({
            let i = collector_v3::chunk_holding(chunks, a, b, at);
            &&& a <= i < b
            &&& collector_v3::offset_of(chunks, i) <= at < collector_v3::offset_of(chunks, i + 1)
        }),
    decreases b - a,
{
    if a < b - 1 && !(collector_v3::offset_of(chunks, a) <= at < collector_v3::offset_of(chunks, a + 1)) {
        lemma_holds(chunks, a + 1, b, at);
    }
}

/// A word posting whose chunk is posted with its bytes is covered.
proof fn lemma_covered(c: Collected, chunks: Seq<Chunk>, i: int, q: (u32, u32, u32, u32, u32, u16))
    requires
        collector_v3::value_ok(chunks),
        0 <= i < chunks.len(),
        chunk_posted(c, chunks, i),
        q.0 == c.doc,
        q.1 == (c.ti + i) as u32,
        collector_v3::offset_of(chunks, i) <= q.3 < collector_v3::offset_of(chunks, i + 1),
        q.5 == q.3 - collector_v3::offset_of(chunks, i),
    ensures
        covered(c, q),
{
    collector_v3::lemma_offset_mono(chunks, i, i + 1);
    collector_v3::lemma_offset_mono(chunks, i + 1, chunks.len() as int);
    let p = (
        c.doc,
        (c.ti + i) as u32,
        collector_v3::offset_of(chunks, i) as u32,
        collector_v3::offset_of(chunks, i + 1) as u32,
    );
    let (k, j) = choose|k: int, j: int| #[trigger] is_posted(c, k, j, p);
    assert(covered_by(c, k, j, q));
}

/// A word posting that is covered leaves all covered.
proof fn lemma_posting_covered(
    c: Collected,
    text: Seq<u8>,
    m: TokenMetaV3,
    e: WordEntry,
    q: (u32, u32, u32, u32, u32, u16),
)
    requires
        collector_trace::sound(c),
        collector_trace::all_shaped(c),
        all_covered(c),
        c.interned(text, m).0.texts.len() <= u32::MAX,
        collector_v3::shaped(m),
        m.is_word_stripped,
        e.token == c.interned(text, m).1,
        covered(c, q),
        q.0 == c.doc,
    ensures
        ({
            let d = c.interned(text, m).0.worded(e).word_posted(e.token, q);
            &&& all_covered(d)
            &&& postings_stay(c, d)
            &&& collector_trace::sound(d)
            &&& collector_trace::all_shaped(d)
        }),
{
    let (b, token) = c.interned(text, m);
    let d = b.worded(e).word_posted(token, q);
    collector_trace::lemma_word_added(c, text, m, e, q);
    lemma_interned_stays(c, text, m);
    assert(d.postings == b.postings);
    assert(postings_stay(c, d));
    let g = offset_table::padded(b.word_postings, token + 1, Seq::empty());
    assert(d.word_postings == g.update(token as int, g[token as int].push(q)));
    assert forall|t: u32, x: (u32, u32, u32, u32, u32, u16)| #[trigger] collector_trace::has_posting(d, t, x) implies covered(
        d,
        x,
    ) by {
        if x == q {
            lemma_covered_stays(c, d, q);
        } else {
            let list = d.word_postings[t as int];
            let k = choose|k: int| 0 <= k < list.len() && list[k] == x;
            assert(g[t as int][k] == x);
            if t >= b.word_postings.len() {
                assert(g[t as int] =~= Seq::<(u32, u32, u32, u32, u32, u16)>::empty());
            }
            assert(c.word_postings[t as int][k] == x);
            assert(collector_trace::has_posting(c, t, x));
            lemma_covered_stays(c, d, x);
        }
    }
}

/// A word leaves all covered.
#[verifier::spinoff_prover]
#[verifier::rlimit(40)]
proof fn lemma_word_covered(
    c: Collected,
    chunks: Seq<Chunk>,
    tokens: Seq<u32>,
    overlap: int,
    a: int,
    b: int,
)
    requires
        collector_trace::sound(c),
        collector_trace::all_shaped(c),
        all_covered(c),
        0 <= a < b <= chunks.len(),
        c.ti + chunks.len() < u32::MAX,
        collector_v3::value_ok(chunks),
        forall|i: int| 0 <= i < chunks.len() ==> collector_v3::chunk_bytes(#[trigger] chunks[i]).len() > 0,
        forall|i: int| 0 <= i < chunks.len() ==> #[trigger] chunk_posted(c, chunks, i),
        collector_v3::word_step(c, chunks, tokens, overlap, a, b).0.texts.len() <= u32::MAX,
    ensures
        ({
            let d = collector_v3::word_step(c, chunks, tokens, overlap, a, b).0;
            &&& all_covered(d)
            &&& postings_stay(c, d)
            &&& collector_trace::sound(d)
            &&& collector_trace::all_shaped(d)
            &&& d.doc == c.doc
            &&& d.ti == c.ti
        }),
{
    let content = collector_v3::content_of(chunks, a, b);
    let over = collector_v3::word_overlap(chunks, b, overlap);
    let first = chunks[a].meta;
    let last = chunks[b - 1].meta;
    assert(collector_v3::chunk_ok(chunks[b - 1]));
    let own_len = collector_v3::word_own_len(content.len() as int, last.sep_len as int);
    let d = collector_v3::word_step(c, chunks, tokens, overlap, a, b).0;
    if content.len() > 0 {
        let m = TokenMetaV3 {
            own_len,
            sep_len: last.sep_len as u8,
            overlap_len: over.len() as u8,
            is_word_start: first.is_word_start,
            word_id: first.word_id,
            is_word_stripped: true,
        };
        let (x, token) = c.interned(content + over, m);
        let e = WordEntry {
            content,
            overlap: over,
            token,
            first_chunk: tokens[a],
            last_chunk: tokens[b - 1],
            own_len,
            sep_len: last.sep_len as u8,
            is_word_start: first.is_word_start,
            num_chunks: (b - a) as u32,
        };
        let q = (
            c.doc,
            (c.ti + a) as u32,
            (c.ti + b - 1) as u32,
            collector_v3::offset_of(chunks, a) as u32,
            (collector_v3::offset_of(chunks, a) + content.len()) as u32,
            0u16,
        );
        let y = x.worded(e).word_posted(token, q);
        assert(y.texts == x.texts);
        assert(collector_v3::chunk_bytes(chunks[a]).len() > 0);
        collector_v3::lemma_offset_mono(chunks, a, chunks.len() as int);
        assert(chunk_posted(c, chunks, a));
        lemma_covered(c, chunks, a, q);
        if content.len() > MAX_SUFFIX_INDEX + DEFAULT_MAX_TOKEN {
            let ts = text::ceil_boundary(content, content.len() - DEFAULT_MAX_TOKEN);
            let tail = content.subrange(ts, content.len() as int);
            let own2 = (tail.len() + last.sep_len) as u16;
            let m2 = TokenMetaV3 {
                own_len: own2,
                sep_len: last.sep_len as u8,
                overlap_len: over.len() as u8,
                is_word_start: false,
                word_id: last.word_id,
                is_word_stripped: true,
            };
            let (x2, token2) = y.interned(tail + over, m2);
            let from = collector_v3::offset_of(chunks, a) + ts;
            let at = collector_v3::chunk_holding(chunks, a, b, from);
            let e2 = WordEntry {
                content: tail,
                overlap: over,
                token: token2,
                first_chunk: tokens[at],
                last_chunk: tokens[b - 1],
                own_len: own2,
                sep_len: last.sep_len as u8,
                is_word_start: false,
                num_chunks: (b - at) as u32,
            };
            let q2 = (
                y.doc,
                (y.ti + at) as u32,
                (y.ti + b - 1) as u32,
                from as u32,
                (from + tail.len()) as u32,
                (from - collector_v3::offset_of(chunks, at)) as u16,
            );
            let z = x2.worded(e2).word_posted(token2, q2);
            assert(z.texts == x2.texts);
            assert(x.texts.len() <= x2.texts.len());
            assert(d =~= z);
            lemma_posting_covered(c, content + over, m, e, q);
            collector_trace::lemma_ceil_within(content, content.len() - DEFAULT_MAX_TOKEN);
            lemma_content_valid(chunks, a, b);
            let j = lemma_boundary_near(content, content.len() - DEFAULT_MAX_TOKEN);
            lemma_ceil_below(content, content.len() - DEFAULT_MAX_TOKEN, j);
            lemma_holds(chunks, a, b, from);
            collector_v3::lemma_offset_mono(chunks, b, chunks.len() as int);
            assert(collector_v3::chunk_ok(chunks[at]));
            assert(chunk_posted(c, chunks, at));
            lemma_posted_stays(c, y, chunks, at);
            lemma_covered(y, chunks, at, q2);
            lemma_posting_covered(y, tail + over, m2, e2, q2);
            lemma_stay_trans(c, y, z);
        } else {
            assert(d =~= y);
            lemma_posting_covered(c, content + over, m, e, q);
        }
    }
}

proof fn lemma_words_covered(
    c: Collected,
    chunks: Seq<Chunk>,
    tokens: Seq<u32>,
    overlap: int,
    ranges: Seq<(int, int)>,
    k: int,
)
    requires
        collector_trace::sound(c),
        collector_trace::all_shaped(c),
        all_covered(c),
        0 <= k <= ranges.len(),
        collector_trace::apart(ranges, chunks.len() as int),
        c.ti + chunks.len() < u32::MAX,
        collector_v3::value_ok(chunks),
        forall|i: int| 0 <= i < chunks.len() ==> collector_v3::chunk_bytes(#[trigger] chunks[i]).len() > 0,
        forall|i: int| 0 <= i < chunks.len() ==> #[trigger] chunk_posted(c, chunks, i),
        collector_v3::after_words(c, chunks, tokens, overlap, ranges, k).0.texts.len() <= u32::MAX,
    ensures
        ({
            let d = collector_v3::after_words(c, chunks, tokens, overlap, ranges, k).0;
            &&& all_covered(d)
            &&& postings_stay(c, d)
            &&& collector_trace::sound(d)
            &&& collector_trace::all_shaped(d)
            &&& d.doc == c.doc
            &&& d.ti == c.ti
        }),
    decreases k,
{
    if k > 0 {
        let b = collector_v3::after_words(c, chunks, tokens, overlap, ranges, k - 1).0;
        let (x, y) = ranges[k - 1];
        collector_trace::lemma_word_texts(b, chunks, tokens, overlap, x, y);
        lemma_words_covered(c, chunks, tokens, overlap, ranges, k - 1);
        assert forall|i: int| 0 <= i < chunks.len() implies #[trigger] chunk_posted(b, chunks, i) by {
            assert(chunk_posted(c, chunks, i));
            lemma_posted_stays(c, b, chunks, i);
        }
        lemma_word_covered(b, chunks, tokens, overlap, x, y);
        lemma_stay_trans(c, b, collector_v3::after_words(c, chunks, tokens, overlap, ranges, k).0);
    }
}

proof fn lemma_same_covered(c: Collected, d: Collected)
    requires
        all_covered(c),
        c.postings == d.postings,
        c.word_postings == d.word_postings,
    ensures
        all_covered(d),
{
    assert(postings_stay(c, d));
    assert forall|t: u32, q: (u32, u32, u32, u32, u32, u16)| #[trigger] collector_trace::has_posting(d, t, q) implies covered(
        d,
        q,
    ) by {
        assert(collector_trace::has_posting(c, t, q));
        lemma_covered_stays(c, d, q);
    }
}

/// Whether no chunk is empty.
pub open spec fn no_empty_chunk(docs: Seq<Seq<Seq<Chunk>>>) -> bool {
    forall|i: int, j: int|
        0 <= i < docs.len() && 0 <= j < docs[i].len() ==> none_empty(#[trigger] docs[i][j])
}

/// Whether no chunk of the value is empty.
pub open spec fn none_empty(chunks: Seq<Chunk>) -> bool {
    forall|i: int| 0 <= i < chunks.len() ==> collector_v3::chunk_bytes(#[trigger] chunks[i]).len() > 0
}

proof fn lemma_value_covered(c: Collected, chunks: Seq<Chunk>, overlap: int)
    requires
        collector_trace::sound(c),
        collector_trace::all_shaped(c),
        all_covered(c),
        c.ti + chunks.len() < u32::MAX,
        collector_v3::value_ok(chunks),
        none_empty(chunks),
        collector_v3::after_value(c, chunks, overlap, true).texts.len() <= u32::MAX,
    ensures
        all_covered(collector_v3::after_value(c, chunks, overlap, true)),
{
    let n = chunks.len() as int;
    let h = collector_v3::after_value(c, chunks, overlap, true);
    if n == 0 {
        lemma_same_covered(c, h);
    } else {
        let (d, tokens) = collector_v3::after_chunks(c, chunks, overlap, n);
        let e = d.linked(tokens);
        let ranges = collector_v3::word_ranges(chunks, n);
        let (f, list) = collector_v3::after_words(e, chunks, tokens, overlap, ranges, ranges.len() as int);
        collector_trace::lemma_words_texts(e, chunks, tokens, overlap, ranges, ranges.len() as int);
        assert(h.texts == f.texts);
        collector_trace::lemma_chunks_leave(c, chunks, overlap, n);
        lemma_chunks_posted(c, chunks, overlap, n);
        collector_trace::lemma_ranges_apart(chunks, n);
        assert forall|t: u32, q: (u32, u32, u32, u32, u32, u16)| #[trigger] collector_trace::has_posting(e, t, q) implies covered(
            e,
            q,
        ) by {
            assert(collector_trace::has_posting(c, t, q));
            lemma_covered_stays(c, d, q);
            lemma_covered_stays(d, e, q);
        }
        assert forall|i: int| 0 <= i < chunks.len() implies #[trigger] chunk_posted(e, chunks, i) by {
            assert(chunk_posted(d, chunks, i));
            lemma_posted_stays(d, e, chunks, i);
        }
        lemma_words_covered(e, chunks, tokens, overlap, ranges, ranges.len() as int);
        lemma_same_covered(f, h);
    }
}

proof fn lemma_values_covered(
    c: Collected,
    t: Seq<Trace>,
    values: Seq<Seq<Chunk>>,
    overlap: int,
    k: int,
)
    requires
        collector_trace::traced(c, t),
        all_covered(c),
        0 <= k <= values.len(),
        collector_trace::values_fit(c, values, overlap),
        forall|i: int| 0 <= i < values.len() ==> collector_v3::value_ok(#[trigger] values[i]),
        forall|i: int| 0 <= i < values.len() ==> none_empty(#[trigger] values[i]),
        collector_trace::after_values(c, values, overlap, k).texts.len() <= u32::MAX,
    ensures
        all_covered(collector_trace::after_values(c, values, overlap, k)),
    decreases k,
{
    if k > 0 {
        let b = collector_trace::after_values(c, values, overlap, k - 1);
        collector_trace::lemma_value_texts(b, values[k - 1], overlap);
        lemma_values_covered(c, t, values, overlap, k - 1);
        let u = collector_trace::lemma_values_traced(c, t, values, overlap, k - 1);
        assert(b.ti + values[k - 1].len() < u32::MAX);
        assert(collector_v3::value_ok(values[k - 1]));
        assert(none_empty(values[k - 1]));
        lemma_value_covered(b, values[k - 1], overlap);
    }
}

/// Law: every word posting of collected documents starts in the chunk at its
/// first position, as far into it as the posting says; no chunk being empty.
pub proof fn words_start_in_their_first_chunk(docs: Seq<Seq<Seq<Chunk>>>, overlap: int, k: int)
    requires
        0 <= k <= docs.len(),
        collector_trace::docs_fit(docs, overlap),
        forall|i: int, j: int|
            0 <= i < docs.len() && 0 <= j < docs[i].len() ==> collector_v3::value_ok(#[trigger] docs[i][j]),
        no_empty_chunk(docs),
    ensures
        all_covered(collector_trace::after_docs(docs, overlap, k)),
    decreases k,
{
    if k > 0 {
        let c = collector_trace::after_docs(docs, overlap, k - 1);
        let d = collector_trace::after_docs(docs, overlap, k);
        let values = docs[k - 1];
        let b = Collected { ti: 0, ..c };
        let e = collector_trace::after_values(b, values, overlap, values.len() as int);
        collector_trace::lemma_docs_texts(docs, overlap, k - 1, docs.len() as int);
        collector_trace::lemma_docs_texts(docs, overlap, k, docs.len() as int);
        words_start_in_their_first_chunk(docs, overlap, k - 1);
        lemma_same_covered(c, b);
        let before = collector_trace::lemma_docs_traced(docs, overlap, k - 1);
        collector_trace::lemma_traced_moves(c, b, before);
        assert(collector_trace::values_fit(Collected { ti: 0, ..collector_trace::after_docs(docs, overlap, k - 1) }, docs[k - 1], overlap));
        assert forall|i: int| 0 <= i < values.len() implies collector_v3::value_ok(#[trigger] values[i]) by {
            assert(values[i] == docs[k - 1][i]);
        }
        assert forall|i: int| 0 <= i < values.len() implies none_empty(#[trigger] values[i]) by {
            assert(values[i] == docs[k - 1][i]);
        }
        lemma_values_covered(b, before, values, overlap, values.len() as int);
        lemma_same_covered(e, d);
    } else {
        assert(collector_v3::nothing_collected().word_postings.len() == 0);
    }
}

} // verus!
