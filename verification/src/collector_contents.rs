//! Which bytes of a value the postings of its words span: the content of the
//! word, no separator among them.

use vstd::prelude::*;
use vstd::utf8::*;

use crate::collector_spans;
use crate::collector_trace;
use crate::collector_v3;
use crate::collector_v3::{Chunk, Collected, DEFAULT_MAX_TOKEN, MAX_SUFFIX_INDEX, TokenMetaV3, WordEntry};
use crate::offset_table;
use crate::text;

verus! {

/// The bytes of the first `k` chunks.
pub open spec fn value_bytes(chunks: Seq<Chunk>, k: int) -> Seq<u8>
    decreases k,
{
    if k <= 0 {
        Seq::empty()
    } else {
        value_bytes(chunks, k - 1) + collector_v3::chunk_bytes(chunks[k - 1])
    }
}

/// Whether the chunks from `a` up to `b` are of one word.
pub open spec fn one_word(chunks: Seq<Chunk>, a: int, b: int) -> bool {
    forall|i: int| a <= i < b ==> (#[trigger] chunks[i]).meta.word_id == chunks[a].meta.word_id
}

/// Whether the chunks from `a` up to `b` are a word: of one word, with chunks
/// of others around them.
pub open spec fn is_run(chunks: Seq<Chunk>, a: int, b: int) -> bool {
    &&& 0 <= a < b <= chunks.len()
    &&& one_word(chunks, a, b)
    &&& a > 0 ==> !one_word(chunks, a - 1, b)
    &&& b < chunks.len() ==> !one_word(chunks, a, b + 1)
}

/// Whether the lengths of all words can be held.
pub open spec fn words_fit(chunks: Seq<Chunk>) -> bool {
    forall|a: int, b: int|
        0 <= a < b <= chunks.len() && #[trigger] one_word(chunks, a, b) ==> collector_v3::content_of(
            chunks,
            a,
            b,
        ).len() + chunks[b - 1].meta.sep_len <= u16::MAX
}

/// Whether the chunks before chunk `l` that are of its word have no separators.
pub open spec fn solid_at(chunks: Seq<Chunk>, l: int) -> bool {
    forall|i: int| 0 <= i < l && #[trigger] one_word(chunks, i, l + 1) ==> chunks[i].meta.sep_len == 0
}

/// Whether an entry has its token's text, and the token its content length.
pub open spec fn entry_true(c: Collected, e: WordEntry) -> bool {
    &&& e.token < c.texts.len()
    &&& c.texts[e.token as int] == e.content + e.overlap
    &&& c.metas[e.token as int].is_word_stripped
    &&& c.metas[e.token as int].own_len - c.metas[e.token as int].sep_len == e.content.len()
}

/// Whether all entries do.
pub open spec fn entries_true(c: Collected) -> bool {
    &&& c.metas.len() == c.texts.len()
    &&& forall|k: int| 0 <= k < c.words.len() ==> #[trigger] entry_true(c, c.words[k])
}

/// Whether the token has an entry with this content.
pub open spec fn has_content(c: Collected, t: u32, content: Seq<u8>) -> bool {
    exists|k: int| 0 <= k < c.words.len() && (#[trigger] c.words[k]).token == t && c.words[k].content == content
}

/// Whether the word posting spans as many bytes as its token's content has.
pub open spec fn spans_content(c: Collected, t: u32, q: (u32, u32, u32, u32, u32, u16)) -> bool {
    exists|content: Seq<u8>| #[trigger] has_content(c, t, content) && q.4 - q.3 == content.len()
}

/// Whether every word posting does.
pub open spec fn all_span(c: Collected) -> bool {
    forall|t: u32, q: (u32, u32, u32, u32, u32, u16)| #[trigger]
        collector_trace::has_posting(c, t, q) ==> spans_content(c, t, q)
}

/// Whether the word posting is of the value: at its positions, over bytes that
/// are the content of the token's word and end where the separators of its last
/// chunk start.
pub open spec fn is_of_value(
    c: Collected,
    chunks: Seq<Chunk>,
    doc: u32,
    ti: u32,
    t: u32,
    q: (u32, u32, u32, u32, u32, u16),
) -> bool {
    &&& q.0 == doc
    &&& ti <= q.1 <= q.2 < ti + chunks.len()
    &&& solid_at(chunks, q.2 - ti) ==> {
        let l = q.2 - ti;
        &&& q.3 <= q.4 <= value_bytes(chunks, chunks.len() as int).len()
        &&& has_content(
            c,
            t,
            value_bytes(chunks, chunks.len() as int).subrange(q.3 as int, q.4 as int),
        )
        &&& q.4 + chunks[l].meta.sep_len == value_bytes(chunks, l + 1).len()
    }
}

/// Whether chunk `j` is the first from `end` on that has content.
pub open spec fn is_next(chunks: Seq<Chunk>, end: int, j: int) -> bool {
    &&& end <= j < chunks.len()
    &&& chunks[j].meta.content_len > 0
    &&& forall|i: int| end <= i < j ==> (#[trigger] chunks[i]).meta.content_len == 0
}

/// Whether these bytes are what a word that ends before chunk `end` borrows: as
/// much of the next content as whole characters fill in `overlap` bytes, and
/// nothing where there is no next.
pub open spec fn borrows(chunks: Seq<Chunk>, end: int, overlap: int, over: Seq<u8>) -> bool {
    &&& forall|j: int| #[trigger] is_next(chunks, end, j) ==> text::is_head(
        over,
        collector_v3::chunk_bytes(chunks[j]),
        if overlap <= chunks[j].meta.content_len {
            overlap
        } else {
            chunks[j].meta.content_len as int
        },
    )
    &&& (forall|j: int| !#[trigger] is_next(chunks, end, j)) ==> over.len() == 0
}

/// Whether the token is the word with this content and what it borrows.
pub open spec fn is_word_of(
    c: Collected,
    t: u32,
    content: Seq<u8>,
    chunks: Seq<Chunk>,
    end: int,
    overlap: int,
) -> bool {
    &&& has_content(c, t, content)
    &&& content.is_prefix_of(c.texts[t as int])
    &&& borrows(chunks, end, overlap, c.texts[t as int].skip(content.len() as int))
}

/// Whether the word of the chunks from `a` up to `b` is posted: over its
/// chunks, from their first byte on, for the token with its content and what it
/// borrows.
pub open spec fn run_posted(
    c: Collected,
    chunks: Seq<Chunk>,
    overlap: int,
    doc: u32,
    ti: u32,
    a: int,
    b: int,
) -> bool {
    let content = collector_v3::content_of(chunks, a, b);
    exists|t: u32, q: (u32, u32, u32, u32, u32, u16)| #[trigger]
        collector_trace::has_posting(c, t, q) && is_word_of(c, t, content, chunks, b, overlap) && q.0 == doc
            && q.1 == ti + a && q.2 == ti + b - 1 && q.3 == value_bytes(chunks, a).len() && q.4 == q.3
            + content.len() && q.5 == 0
}

/// Whether the end of a long word is posted too: its last bytes, as many as a
/// chunk can have without splitting a character, up to where the word ends.
pub open spec fn end_posted(
    c: Collected,
    chunks: Seq<Chunk>,
    overlap: int,
    doc: u32,
    ti: u32,
    a: int,
    b: int,
) -> bool {
    let content = collector_v3::content_of(chunks, a, b);
    exists|t: u32, q: (u32, u32, u32, u32, u32, u16), tail: Seq<u8>|
        #[trigger] collector_trace::has_posting(c, t, q) && #[trigger] is_word_of(
            c,
            t,
            tail,
            chunks,
            b,
            overlap,
        ) && text::is_end(tail, content, DEFAULT_MAX_TOKEN as int) && q.0 == doc && ti + a <= q.1 && q.2 == ti
            + b - 1 && q.3 == q.4 - tail.len() && q.4 == value_bytes(chunks, a).len() + content.len()
}

/// Whether `d` has the tokens, entries and word postings of `c`.
spec fn keeps(c: Collected, d: Collected) -> bool {
    &&& c.texts.is_prefix_of(d.texts)
    &&& c.metas.is_prefix_of(d.metas)
    &&& c.words.is_prefix_of(d.words)
    &&& c.doc == d.doc
    &&& c.ti == d.ti
    &&& forall|t: u32, q: (u32, u32, u32, u32, u32, u16)| #[trigger]
        collector_trace::has_posting(c, t, q) ==> collector_trace::has_posting(d, t, q)
}

pub proof fn lemma_value_len(chunks: Seq<Chunk>, k: int)
    ensures
        value_bytes(chunks, k).len() == collector_v3::offset_of(chunks, k),
    decreases k,
{
    if k > 0 {
        lemma_value_len(chunks, k - 1);
    }
}

proof fn lemma_value_prefix(chunks: Seq<Chunk>, j: int, k: int)
    requires
        0 <= j <= k,
    ensures
        value_bytes(chunks, j).is_prefix_of(value_bytes(chunks, k)),
    decreases k,
{
    if j < k {
        lemma_value_prefix(chunks, j, k - 1);
        let x = value_bytes(chunks, j);
        let y = value_bytes(chunks, k - 1);
        let z = value_bytes(chunks, k);
        assert(z.subrange(0, x.len() as int) =~= y.subrange(0, x.len() as int));
    }
}

/// Chunks of one word without separators between them are the word's content
/// and the separators of the last.
proof fn lemma_solid_content(chunks: Seq<Chunk>, a: int, b: int)
    requires
        0 <= a < b <= chunks.len(),
        collector_v3::value_ok(chunks),
        forall|i: int| a <= i < b - 1 ==> (#[trigger] chunks[i]).meta.sep_len == 0,
    ensures
        ({
            let content = collector_v3::content_of(chunks, a, b);
            let from = value_bytes(chunks, a).len() as int;
            &&& from + content.len() + chunks[b - 1].meta.sep_len == value_bytes(chunks, b).len()
            &&& value_bytes(chunks, b).subrange(from, from + content.len()) == content
        }),
    decreases b - a,
{
    let content = collector_v3::content_of(chunks, a, b);
    let from = value_bytes(chunks, a).len() as int;
    let before = value_bytes(chunks, b - 1);
    let all = value_bytes(chunks, b);
    let last = collector_v3::chunk_bytes(chunks[b - 1]);
    let l = chunks[b - 1].meta.content_len as int;
    assert(collector_v3::chunk_ok(chunks[b - 1]));
    assert(all == before + last);
    if a < b - 1 {
        lemma_solid_content(chunks, a, b - 1);
        let head = collector_v3::content_of(chunks, a, b - 1);
        assert(chunks[b - 2].meta.sep_len == 0);
        assert(content == head + last.subrange(0, l));
        assert(from + head.len() == before.len());
        assert(all.subrange(from, from + content.len()) =~= before.subrange(from, from + head.len())
            + last.subrange(0, l));
    } else {
        assert(collector_v3::content_of(chunks, a, b - 1).len() == 0);
        assert(content =~= last.subrange(0, l));
        assert(all.subrange(from, from + content.len()) =~= last.subrange(0, l));
    }
}

proof fn lemma_ranges_are_runs(chunks: Seq<Chunk>, k: int)
    requires
        0 <= k <= chunks.len(),
    ensures
        ({
            let r = collector_v3::word_ranges(chunks, k);
            &&& k > 0 ==> r.len() > 0 && r.last().1 == k
            &&& forall|i: int|
                0 <= i < r.len() ==> 0 <= (#[trigger] r[i]).0 < r[i].1 <= k && one_word(chunks, r[i].0, r[i].1)
        }),
    decreases k,
{
    if k > 0 {
        lemma_ranges_are_runs(chunks, k - 1);
        let r = collector_v3::word_ranges(chunks, k - 1);
        let s = collector_v3::word_ranges(chunks, k);
        assert forall|i: int| 0 <= i < s.len() implies 0 <= (#[trigger] s[i]).0 < s[i].1 <= k && one_word(
            chunks,
            s[i].0,
            s[i].1,
        ) by {
            if i < s.len() - 1 {
                assert(s[i] == r[i]);
            } else if r.len() > 0 && chunks[r.last().0].meta.word_id == chunks[k - 1].meta.word_id {
                assert(r.last() == r[r.len() - 1]);
                assert(one_word(chunks, r.last().0, r.last().1));
                assert(one_word(chunks, r.last().0, k));
            } else {
                assert(one_word(chunks, k - 1, k));
            }
        }
    }
}

/// Every run is among the words.
proof fn lemma_runs_are_ranges(chunks: Seq<Chunk>, k: int, a: int, b: int)
    requires
        0 <= a < b <= k <= chunks.len(),
        one_word(chunks, a, b),
        a > 0 ==> !one_word(chunks, a - 1, b),
        b < k ==> !one_word(chunks, a, b + 1),
    ensures
        collector_v3::word_ranges(chunks, k).contains((a, b)),
    decreases k,
{
    let r = collector_v3::word_ranges(chunks, k - 1);
    let s = collector_v3::word_ranges(chunks, k);
    lemma_ranges_are_runs(chunks, k - 1);
    if b < k {
        lemma_runs_are_ranges(chunks, k - 1, a, b);
        let i = choose|i: int| 0 <= i < r.len() && r[i] == (a, b);
        if i == r.len() - 1 && chunks[r.last().0].meta.word_id == chunks[k - 1].meta.word_id {
            assert(r.last() == (a, b));
            assert(b == k - 1);
            assert(one_word(chunks, a, b + 1));
        }
        assert(s[i] == (a, b));
    } else if a == k - 1 {
        if r.len() > 0 && chunks[r.last().0].meta.word_id == chunks[k - 1].meta.word_id {
            assert(r.last() == r[r.len() - 1]);
            assert(one_word(chunks, r.last().0, k - 1));
            assert(chunks[k - 2].meta.word_id == chunks[r.last().0].meta.word_id);
            assert(one_word(chunks, a - 1, b));
        }
        assert(s.last() == (a, b));
        assert(s[s.len() - 1] == (a, b));
    } else {
        assert(one_word(chunks, a, k - 1));
        if a > 0 && one_word(chunks, a - 1, k - 1) {
            assert(chunks[a].meta.word_id == chunks[a - 1].meta.word_id);
            assert(one_word(chunks, a - 1, b)) by {
                assert(chunks[k - 1].meta.word_id == chunks[a].meta.word_id);
            }
        }
        lemma_runs_are_ranges(chunks, k - 1, a, k - 1);
        let i = choose|i: int| 0 <= i < r.len() && r[i] == (a, k - 1);
        collector_trace::lemma_ranges_apart(chunks, k - 1);
        if i < r.len() - 1 {
            assert(r[i].1 <= r[r.len() - 1].0);
            assert(r[r.len() - 1].0 < r[r.len() - 1].1 <= k - 1);
        }
        assert(r.last() == (a, k - 1));
        assert(chunks[k - 1].meta.word_id == chunks[a].meta.word_id);
        assert(s.last() == (a, k));
        assert(s[s.len() - 1] == (a, b));
    }
}

proof fn lemma_content_stays(c: Collected, d: Collected, t: u32, content: Seq<u8>)
    requires
        c.words.is_prefix_of(d.words),
        has_content(c, t, content),
    ensures
        has_content(d, t, content),
{
    let k = choose|k: int|
        0 <= k < c.words.len() && (#[trigger] c.words[k]).token == t && c.words[k].content == content;
    assert(d.words[k] == d.words.subrange(0, c.words.len() as int)[k]);
    assert(d.words[k].token == t && d.words[k].content == content);
}

proof fn lemma_of_value_stays(
    c: Collected,
    d: Collected,
    chunks: Seq<Chunk>,
    doc: u32,
    ti: u32,
    t: u32,
    q: (u32, u32, u32, u32, u32, u16),
)
    requires
        c.words.is_prefix_of(d.words),
        is_of_value(c, chunks, doc, ti, t, q),
    ensures
        is_of_value(d, chunks, doc, ti, t, q),
{
    if solid_at(chunks, q.2 - ti) {
        lemma_content_stays(
            c,
            d,
            t,
            value_bytes(chunks, chunks.len() as int).subrange(q.3 as int, q.4 as int),
        );
    }
}

proof fn lemma_word_stays(
    c: Collected,
    d: Collected,
    t: u32,
    content: Seq<u8>,
    chunks: Seq<Chunk>,
    end: int,
    overlap: int,
)
    requires
        keeps(c, d),
        entries_true(c),
        is_word_of(c, t, content, chunks, end, overlap),
    ensures
        is_word_of(d, t, content, chunks, end, overlap),
{
    lemma_content_stays(c, d, t, content);
    let k = choose|k: int|
        0 <= k < c.words.len() && (#[trigger] c.words[k]).token == t && c.words[k].content == content;
    assert(entry_true(c, c.words[k]));
    assert(d.texts[t as int] == d.texts.subrange(0, c.texts.len() as int)[t as int]);
}

proof fn lemma_run_stays(
    c: Collected,
    d: Collected,
    chunks: Seq<Chunk>,
    overlap: int,
    doc: u32,
    ti: u32,
    a: int,
    b: int,
)
    requires
        keeps(c, d),
        entries_true(c),
    ensures
        run_posted(c, chunks, overlap, doc, ti, a, b) ==> run_posted(d, chunks, overlap, doc, ti, a, b),
        end_posted(c, chunks, overlap, doc, ti, a, b) ==> end_posted(d, chunks, overlap, doc, ti, a, b),
{
    let content = collector_v3::content_of(chunks, a, b);
    if run_posted(c, chunks, overlap, doc, ti, a, b) {
        let (t, q) = choose|t: u32, q: (u32, u32, u32, u32, u32, u16)| #[trigger]
            collector_trace::has_posting(c, t, q) && is_word_of(c, t, content, chunks, b, overlap) && q.0
                == doc && q.1 == ti + a && q.2 == ti + b - 1 && q.3 == value_bytes(chunks, a).len() && q.4
                == q.3 + content.len() && q.5 == 0;
        lemma_word_stays(c, d, t, content, chunks, b, overlap);
        assert(collector_trace::has_posting(d, t, q));
    }
    if end_posted(c, chunks, overlap, doc, ti, a, b) {
        let (t, q, tail) = choose|t: u32, q: (u32, u32, u32, u32, u32, u16), tail: Seq<u8>|
            #[trigger] collector_trace::has_posting(c, t, q) && #[trigger] is_word_of(
                c,
                t,
                tail,
                chunks,
                b,
                overlap,
            ) && text::is_end(tail, content, DEFAULT_MAX_TOKEN as int) && q.0 == doc && ti + a <= q.1 && q.2
                == ti + b - 1 && q.3 == q.4 - tail.len() && q.4 == value_bytes(chunks, a).len()
                + content.len();
        lemma_word_stays(c, d, t, tail, chunks, b, overlap);
        assert(collector_trace::has_posting(d, t, q));
    }
}

proof fn lemma_next(chunks: Seq<Chunk>, i: int)
    requires
        0 <= i,
    ensures
        match collector_v3::next_content(chunks, i) {
            Some(j) => is_next(chunks, i, j),
            None => forall|j: int| i <= j < chunks.len() ==> (#[trigger] chunks[j]).meta.content_len == 0,
        },
    decreases chunks.len() - i,
{
    if i < chunks.len() && chunks[i].meta.content_len == 0 {
        lemma_next(chunks, i + 1);
    }
}

proof fn lemma_borrows(chunks: Seq<Chunk>, end: int, overlap: int)
    requires
        collector_v3::value_ok(chunks),
        0 <= end,
        0 <= overlap,
    ensures
        borrows(chunks, end, overlap, collector_v3::word_overlap(chunks, end, overlap)),
{
    let over = collector_v3::word_overlap(chunks, end, overlap);
    lemma_next(chunks, end);
    match collector_v3::next_content(chunks, end) {
        Some(i) => {
            let n = if overlap <= chunks[i].meta.content_len {
                overlap
            } else {
                chunks[i].meta.content_len as int
            };
            encode_utf8_valid_utf8(chunks[i].text@);
            text::a_head_is_the_longest_that_fits(collector_v3::chunk_bytes(chunks[i]), n);
            assert forall|j: int| #[trigger] is_next(chunks, end, j) implies j == i by {
                if j < i {
                    assert(chunks[j].meta.content_len == 0);
                } else if i < j {
                    assert(chunks[i].meta.content_len == 0);
                }
            }
            assert(is_next(chunks, end, i));
        },
        None => {},
    }
}

proof fn lemma_keeps_trans(c: Collected, d: Collected, e: Collected)
    requires
        keeps(c, d),
        keeps(d, e),
    ensures
        keeps(c, e),
{
    assert(c.texts =~= e.texts.subrange(0, c.texts.len() as int)) by {
        assert forall|i: int| 0 <= i < c.texts.len() implies c.texts[i] == e.texts[i] by {
            assert(c.texts[i] == d.texts.subrange(0, c.texts.len() as int)[i]);
            assert(d.texts[i] == e.texts.subrange(0, d.texts.len() as int)[i]);
        }
    }
    assert(c.metas =~= e.metas.subrange(0, c.metas.len() as int)) by {
        assert forall|i: int| 0 <= i < c.metas.len() implies c.metas[i] == e.metas[i] by {
            assert(c.metas[i] == d.metas.subrange(0, c.metas.len() as int)[i]);
            assert(d.metas[i] == e.metas.subrange(0, d.metas.len() as int)[i]);
        }
    }
    assert(c.words =~= e.words.subrange(0, c.words.len() as int)) by {
        assert forall|i: int| 0 <= i < c.words.len() implies c.words[i] == e.words[i] by {
            assert(c.words[i] == d.words.subrange(0, c.words.len() as int)[i]);
            assert(d.words[i] == e.words.subrange(0, d.words.len() as int)[i]);
        }
    }
}

/// A word with its entry and its posting: all entries stay true, and the token
/// has this content.
proof fn lemma_word_spans(
    c: Collected,
    text: Seq<u8>,
    m: TokenMetaV3,
    e: WordEntry,
    q: (u32, u32, u32, u32, u32, u16),
)
    requires
        entries_true(c),
        all_span(c),
        collector_trace::all_shaped(c),
        c.interned(text, m).0.texts.len() <= u32::MAX,
        m.is_word_stripped,
        m.own_len - m.sep_len == e.content.len(),
        text == e.content + e.overlap,
        e.token == c.interned(text, m).1,
        q.4 - q.3 == e.content.len(),
    ensures
        ({
            let d = c.interned(text, m).0.worded(e).word_posted(e.token, q);
            &&& entries_true(d)
            &&& all_span(d)
            &&& collector_trace::all_shaped(d)
            &&& keeps(c, d)
            &&& has_content(d, e.token, e.content)
            &&& collector_trace::has_posting(d, e.token, q)
            &&& e.token < d.texts.len()
            &&& d.texts[e.token as int] == text
            &&& forall|t: u32, x: (u32, u32, u32, u32, u32, u16)| #[trigger]
                collector_trace::has_posting(d, t, x) ==> collector_trace::has_posting(c, t, x) || (t == e.token
                    && x == q)
        }),
{
    let (b, token) = c.interned(text, m);
    let w = b.worded(e);
    let d = w.word_posted(token, q);
    let key = (collector_v3::shape_tag(m), text);
    if c.keys().contains(key) {
        let i = c.keys().index_of(key);
        assert(c.keys()[i] == key);
        assert(c.texts.len() <= u32::MAX);
    } else {
        assert(b.metas[token as int] == m);
        assert(b.texts[token as int] == text);
    }
    assert(token < b.texts.len());
    assert(b.texts[token as int] == text);
    assert(collector_v3::shape_tag(b.metas[token as int]) == collector_v3::shape_tag(m));
    assert(collector_trace::all_shaped(b));
    assert(collector_v3::shaped(b.metas[token as int]));
    let x = b.metas[token as int];
    assert(x.is_word_stripped && x.own_len - x.sep_len == m.own_len - m.sep_len);
    assert forall|k: int| 0 <= k < w.words.len() implies #[trigger] entry_true(d, w.words[k]) by {
        if k < c.words.len() {
            assert(entry_true(c, c.words[k]));
        } else {
            assert(w.words[k] == e);
        }
    }
    assert(has_content(d, token, e.content)) by {
        if b.has_word(token) {
            let k = choose|k: int| 0 <= k < b.words.len() && (#[trigger] b.words[k]).token == token;
            let f = b.words[k];
            assert(entry_true(c, c.words[k]));
            assert(f.content + f.overlap == e.content + e.overlap);
            assert(f.content =~= (f.content + f.overlap).subrange(0, e.content.len() as int));
            assert(e.content =~= (e.content + e.overlap).subrange(0, e.content.len() as int));
            assert(d.words[k].token == token && d.words[k].content == e.content);
        } else {
            assert(d.words[d.words.len() - 1] == e);
        }
    }
    let g = offset_table::padded(b.word_postings, token + 1, Seq::empty());
    assert(d.word_postings == g.update(token as int, g[token as int].push(q)));
    assert(c.words =~= d.words.subrange(0, c.words.len() as int));
    assert(c.texts =~= d.texts.subrange(0, c.texts.len() as int));
    assert(c.metas =~= d.metas.subrange(0, c.metas.len() as int));
    assert(d.word_postings[token as int][g[token as int].len() as int] == q);
    assert forall|t: u32, y: (u32, u32, u32, u32, u32, u16)| #[trigger] collector_trace::has_posting(
        c,
        t,
        y,
    ) implies collector_trace::has_posting(d, t, y) by {
        let k = choose|k: int| 0 <= k < c.word_postings[t as int].len() && c.word_postings[t as int][k] == y;
        assert(d.word_postings[t as int][k] == y);
    }
    assert forall|t: u32, y: (u32, u32, u32, u32, u32, u16)| #[trigger] collector_trace::has_posting(
        d,
        t,
        y,
    ) implies collector_trace::has_posting(c, t, y) || (t == token && y == q) by {
        if !(t == token && y == q) {
            let list = d.word_postings[t as int];
            let k = choose|k: int| 0 <= k < list.len() && list[k] == y;
            assert(g[t as int][k] == y);
            if t >= b.word_postings.len() {
                assert(g[t as int] =~= Seq::<(u32, u32, u32, u32, u32, u16)>::empty());
            }
            assert(c.word_postings[t as int][k] == y);
        }
    }
    assert forall|t: u32, y: (u32, u32, u32, u32, u32, u16)| #[trigger] collector_trace::has_posting(
        d,
        t,
        y,
    ) implies spans_content(d, t, y) by {
        if collector_trace::has_posting(c, t, y) {
            assert(spans_content(c, t, y));
            let content = choose|content: Seq<u8>| #[trigger]
                has_content(c, t, content) && y.4 - y.3 == content.len();
            lemma_content_stays(c, d, t, content);
        } else {
            assert(has_content(d, token, e.content));
        }
    }
}

/// Whether the word of the chunks from `a` up to `b`, if it has content, is
/// posted, and its end too if it is long.
pub open spec fn runs_done(
    c: Collected,
    chunks: Seq<Chunk>,
    overlap: int,
    doc: u32,
    ti: u32,
    a: int,
    b: int,
) -> bool {
    let n = collector_v3::content_of(chunks, a, b).len();
    &&& n > 0 ==> run_posted(c, chunks, overlap, doc, ti, a, b)
    &&& n > MAX_SUFFIX_INDEX + DEFAULT_MAX_TOKEN ==> end_posted(c, chunks, overlap, doc, ti, a, b)
}

/// What is owed of what words left: all span their contents, and those that
/// were not there before are of the value.
spec fn words_true(c: Collected, d: Collected, chunks: Seq<Chunk>) -> bool {
    &&& entries_true(d)
    &&& all_span(d)
    &&& collector_trace::all_shaped(d)
    &&& keeps(c, d)
    &&& forall|t: u32, q: (u32, u32, u32, u32, u32, u16)| #[trigger]
        collector_trace::has_posting(d, t, q) ==> collector_trace::has_posting(c, t, q) || is_of_value(
            d,
            chunks,
            c.doc,
            c.ti,
            t,
            q,
        )
}

proof fn lemma_true_trans(c: Collected, d: Collected, e: Collected, chunks: Seq<Chunk>)
    requires
        words_true(c, d, chunks),
        words_true(d, e, chunks),
    ensures
        words_true(c, e, chunks),
{
    lemma_keeps_trans(c, d, e);
    assert forall|t: u32, q: (u32, u32, u32, u32, u32, u16)| #[trigger] collector_trace::has_posting(
        e,
        t,
        q,
    ) implies collector_trace::has_posting(c, t, q) || is_of_value(e, chunks, c.doc, c.ti, t, q) by {
        if collector_trace::has_posting(d, t, q) {
            if !collector_trace::has_posting(c, t, q) {
                lemma_of_value_stays(d, e, chunks, c.doc, c.ti, t, q);
            }
        }
    }
}

proof fn lemma_solid_run(chunks: Seq<Chunk>, a: int, b: int)
    requires
        0 <= a < b <= chunks.len(),
        one_word(chunks, a, b),
        solid_at(chunks, b - 1),
    ensures
        forall|i: int| a <= i < b - 1 ==> (#[trigger] chunks[i]).meta.sep_len == 0,
{
    assert forall|i: int| a <= i < b - 1 implies (#[trigger] chunks[i]).meta.sep_len == 0 by {
        assert(one_word(chunks, i, b - 1 + 1)) by {
            assert(chunks[i].meta.word_id == chunks[a].meta.word_id);
        }
    }
}

#[verifier::spinoff_prover]
#[verifier::rlimit(40)]
proof fn lemma_tail_true(
    c: Collected,
    chunks: Seq<Chunk>,
    tokens: Seq<u32>,
    over: Seq<u8>,
    overlap: int,
    a: int,
    b: int,
)
    requires
        borrows(chunks, b, overlap, over),
        entries_true(c),
        all_span(c),
        collector_trace::all_shaped(c),
        0 <= a < b <= chunks.len(),
        one_word(chunks, a, b),
        collector_v3::value_ok(chunks),
        c.ti + chunks.len() < u32::MAX,
        collector_v3::content_of(chunks, a, b).len() > MAX_SUFFIX_INDEX + DEFAULT_MAX_TOKEN,
        collector_v3::tail_step(c, chunks, tokens, over, a, b).texts.len() <= u32::MAX,
    ensures
        words_true(c, collector_v3::tail_step(c, chunks, tokens, over, a, b), chunks),
        end_posted(
            collector_v3::tail_step(c, chunks, tokens, over, a, b),
            chunks,
            overlap,
            c.doc,
            c.ti,
            a,
            b,
        ),
{
    let content = collector_v3::content_of(chunks, a, b);
    let last = chunks[b - 1].meta;
    assert(collector_v3::chunk_ok(chunks[b - 1]));
    let ts = text::ceil_boundary(content, content.len() - DEFAULT_MAX_TOKEN);
    collector_trace::lemma_ceil_within(content, content.len() - DEFAULT_MAX_TOKEN);
    let tail = content.subrange(ts, content.len() as int);
    let own_len = (tail.len() + last.sep_len) as u16;
    let m = TokenMetaV3 {
        own_len,
        sep_len: last.sep_len as u8,
        overlap_len: over.len() as u8,
        is_word_start: false,
        word_id: last.word_id,
        is_word_stripped: true,
    };
    let (x, token) = c.interned(tail + over, m);
    let from = collector_v3::offset_of(chunks, a) + ts;
    let first = collector_v3::chunk_holding(chunks, a, b, from);
    let e = WordEntry {
        content: tail,
        overlap: over,
        token,
        first_chunk: tokens[first],
        last_chunk: tokens[b - 1],
        own_len,
        sep_len: last.sep_len as u8,
        is_word_start: false,
        num_chunks: (b - first) as u32,
    };
    let q = (
        c.doc,
        (c.ti + first) as u32,
        (c.ti + b - 1) as u32,
        from as u32,
        (from + tail.len()) as u32,
        (from - collector_v3::offset_of(chunks, first)) as u16,
    );
    let d = x.worded(e).word_posted(token, q);
    assert(d == collector_v3::tail_step(c, chunks, tokens, over, a, b));
    collector_spans::lemma_content_valid(chunks, a, b);
    collector_v3::lemma_offset_mono(chunks, a, b);
    collector_v3::lemma_offset_mono(chunks, b, chunks.len() as int);
    lemma_holding_among(chunks, a, b, from);
    lemma_word_spans(c, tail + over, m, e, q);
    lemma_value_len(chunks, a);
    text::an_end_is_the_longest_that_fits(content, DEFAULT_MAX_TOKEN as int);
    assert(tail =~= (tail + over).subrange(0, tail.len() as int));
    assert(over =~= (tail + over).skip(tail.len() as int));
    assert(is_word_of(d, token, tail, chunks, b, overlap));
    assert(collector_trace::has_posting(d, token, q));
    assert(is_of_value(d, chunks, c.doc, c.ti, token, q)) by {
        if solid_at(chunks, b - 1) {
            lemma_solid_run(chunks, a, b);
            lemma_solid_content(chunks, a, b);
            lemma_value_len(chunks, a);
            lemma_value_prefix(chunks, b, chunks.len() as int);
            let all = value_bytes(chunks, chunks.len() as int);
            let head = value_bytes(chunks, b);
            let start = value_bytes(chunks, a).len() as int;
            assert(head =~= all.subrange(0, head.len() as int));
            assert(all.subrange(q.3 as int, q.4 as int) =~= head.subrange(start, start + content.len()).subrange(
                ts,
                content.len() as int,
            ));
        }
    }
}

proof fn lemma_holding_among(chunks: Seq<Chunk>, a: int, b: int, at: int)
    requires
        a < b,
    ensures
        a <= collector_v3::chunk_holding(chunks, a, b, at) < b,
    decreases b - a,
{
    if a < b - 1 && !(collector_v3::offset_of(chunks, a) <= at < collector_v3::offset_of(chunks, a + 1)) {
        lemma_holding_among(chunks, a + 1, b, at);
    }
}

#[verifier::spinoff_prover]
#[verifier::rlimit(40)]
proof fn lemma_step_true(
    c: Collected,
    chunks: Seq<Chunk>,
    tokens: Seq<u32>,
    overlap: int,
    a: int,
    b: int,
)
    requires
        entries_true(c),
        all_span(c),
        collector_trace::all_shaped(c),
        0 <= a < b <= chunks.len(),
        one_word(chunks, a, b),
        words_fit(chunks),
        collector_v3::value_ok(chunks),
        c.ti + chunks.len() < u32::MAX,
        0 <= overlap,
        collector_v3::word_step(c, chunks, tokens, overlap, a, b).0.texts.len() <= u32::MAX,
    ensures
        words_true(c, collector_v3::word_step(c, chunks, tokens, overlap, a, b).0, chunks),
        runs_done(
            collector_v3::word_step(c, chunks, tokens, overlap, a, b).0,
            chunks,
            overlap,
            c.doc,
            c.ti,
            a,
            b,
        ),
{
    let content = collector_v3::content_of(chunks, a, b);
    let over = collector_v3::word_overlap(chunks, b, overlap);
    let first = chunks[a].meta;
    let last = chunks[b - 1].meta;
    let own_len = collector_v3::word_own_len(content.len() as int, last.sep_len as int);
    let z = collector_v3::word_step(c, chunks, tokens, overlap, a, b).0;
    assert(collector_v3::chunk_ok(chunks[b - 1]));
    if content.len() > 0 {
        let m = TokenMetaV3 {
            own_len,
            sep_len: last.sep_len as u8,
            overlap_len: over.len() as u8,
            is_word_start: first.is_word_start,
            word_id: first.word_id,
            is_word_stripped: true,
        };
        let (x, token) = c.interned(content + over, m);
        let e = WordEntry {
            content,
            overlap: over,
            token,
            first_chunk: tokens[a],
            last_chunk: tokens[b - 1],
            own_len,
            sep_len: last.sep_len as u8,
            is_word_start: first.is_word_start,
            num_chunks: (b - a) as u32,
        };
        let q = (
            c.doc,
            (c.ti + a) as u32,
            (c.ti + b - 1) as u32,
            collector_v3::offset_of(chunks, a) as u32,
            (collector_v3::offset_of(chunks, a) + content.len()) as u32,
            0u16,
        );
        let y = x.worded(e).word_posted(token, q);
        let long = content.len() > MAX_SUFFIX_INDEX + DEFAULT_MAX_TOKEN;
        assert(z == if long {
            collector_v3::tail_step(y, chunks, tokens, over, a, b)
        } else {
            y
        });
        assert(x.texts.len() <= z.texts.len());
        collector_spans::lemma_content_valid(chunks, a, b);
        collector_v3::lemma_offset_mono(chunks, a, b);
        collector_v3::lemma_offset_mono(chunks, b, chunks.len() as int);
        lemma_value_len(chunks, a);
        lemma_word_spans(c, content + over, m, e, q);
        assert(is_of_value(y, chunks, c.doc, c.ti, token, q)) by {
            if solid_at(chunks, b - 1) {
                lemma_solid_run(chunks, a, b);
                lemma_solid_content(chunks, a, b);
                lemma_value_prefix(chunks, b, chunks.len() as int);
                let all = value_bytes(chunks, chunks.len() as int);
                let head = value_bytes(chunks, b);
                assert(head =~= all.subrange(0, head.len() as int));
                assert(all.subrange(q.3 as int, q.4 as int) =~= head.subrange(q.3 as int, q.4 as int));
            }
        }
        assert(words_true(c, y, chunks));
        assert(content =~= (content + over).subrange(0, content.len() as int));
        assert(over =~= (content + over).skip(content.len() as int));
        lemma_borrows(chunks, b, overlap);
        assert(is_word_of(y, token, content, chunks, b, overlap));
        assert(collector_trace::has_posting(y, token, q));
        assert(run_posted(y, chunks, overlap, c.doc, c.ti, a, b));
        if long {
            lemma_tail_true(y, chunks, tokens, over, overlap, a, b);
            lemma_true_trans(c, y, z, chunks);
            lemma_run_stays(y, z, chunks, overlap, c.doc, c.ti, a, b);
        }
    } else {
        assert(c.texts =~= c.texts.subrange(0, c.texts.len() as int));
        assert(c.metas =~= c.metas.subrange(0, c.metas.len() as int));
        assert(c.words =~= c.words.subrange(0, c.words.len() as int));
    }
}

proof fn lemma_words_true(
    c: Collected,
    chunks: Seq<Chunk>,
    tokens: Seq<u32>,
    overlap: int,
    ranges: Seq<(int, int)>,
    k: int,
)
    requires
        entries_true(c),
        all_span(c),
        collector_trace::all_shaped(c),
        0 <= k <= ranges.len(),
        forall|i: int|
            0 <= i < ranges.len() ==> 0 <= (#[trigger] ranges[i]).0 < ranges[i].1 <= chunks.len() && one_word(
                chunks,
                ranges[i].0,
                ranges[i].1,
            ),
        words_fit(chunks),
        collector_v3::value_ok(chunks),
        c.ti + chunks.len() < u32::MAX,
        0 <= overlap,
        collector_v3::after_words(c, chunks, tokens, overlap, ranges, k).0.texts.len() <= u32::MAX,
    ensures
        words_true(c, collector_v3::after_words(c, chunks, tokens, overlap, ranges, k).0, chunks),
        forall|i: int|
            0 <= i < k ==> runs_done(
                collector_v3::after_words(c, chunks, tokens, overlap, ranges, k).0,
                chunks,
                overlap,
                c.doc,
                c.ti,
                (#[trigger] ranges[i]).0,
                ranges[i].1,
            ),
    decreases k,
{
    if k > 0 {
        let b = collector_v3::after_words(c, chunks, tokens, overlap, ranges, k - 1).0;
        let d = collector_v3::after_words(c, chunks, tokens, overlap, ranges, k).0;
        let (x, y) = ranges[k - 1];
        collector_trace::lemma_word_texts(b, chunks, tokens, overlap, x, y);
        lemma_words_true(c, chunks, tokens, overlap, ranges, k - 1);
        assert(0 <= ranges[k - 1].0 < ranges[k - 1].1 <= chunks.len());
        lemma_step_true(b, chunks, tokens, overlap, x, y);
        lemma_true_trans(c, b, d, chunks);
        assert forall|i: int| 0 <= i < k implies runs_done(
            d,
            chunks,
            overlap,
            c.doc,
            c.ti,
            (#[trigger] ranges[i]).0,
            ranges[i].1,
        ) by {
            if i < k - 1 {
                lemma_run_stays(b, d, chunks, overlap, c.doc, c.ti, ranges[i].0, ranges[i].1);
            }
        }
    } else {
        assert(c.texts =~= c.texts.subrange(0, c.texts.len() as int));
        assert(c.metas =~= c.metas.subrange(0, c.metas.len() as int));
        assert(c.words =~= c.words.subrange(0, c.words.len() as int));
    }
}

proof fn lemma_chunks_true(c: Collected, chunks: Seq<Chunk>, overlap: int, k: int)
    requires
        entries_true(c),
        all_span(c),
        collector_trace::all_shaped(c),
        0 <= k <= chunks.len(),
    ensures
        ({
            let d = collector_v3::after_chunks(c, chunks, overlap, k).0;
            &&& entries_true(d)
            &&& all_span(d)
            &&& collector_trace::all_shaped(d)
            &&& keeps(c, d)
            &&& d.word_postings == c.word_postings
            &&& d.words == c.words
        }),
    decreases k,
{
    let d = collector_v3::after_chunks(c, chunks, overlap, k).0;
    if k > 0 {
        lemma_chunks_true(c, chunks, overlap, k - 1);
        let b = collector_v3::after_chunks(c, chunks, overlap, k - 1).0;
        assert forall|i: int| 0 <= i < d.words.len() implies #[trigger] entry_true(d, d.words[i]) by {
            assert(entry_true(b, b.words[i]));
        }
        assert(c.texts =~= d.texts.subrange(0, c.texts.len() as int)) by {
            assert(c.texts =~= b.texts.subrange(0, c.texts.len() as int));
            assert forall|i: int| 0 <= i < c.texts.len() implies c.texts[i] == d.texts[i] by {
                assert(c.texts[i] == b.texts.subrange(0, c.texts.len() as int)[i]);
            }
        }
        assert(c.metas =~= d.metas.subrange(0, c.metas.len() as int)) by {
            assert forall|i: int| 0 <= i < c.metas.len() implies c.metas[i] == d.metas[i] by {
                assert(c.metas[i] == b.metas.subrange(0, c.metas.len() as int)[i]);
            }
        }
        assert forall|t: u32, q: (u32, u32, u32, u32, u32, u16)| #[trigger] collector_trace::has_posting(
            d,
            t,
            q,
        ) implies spans_content(d, t, q) by {
            assert(collector_trace::has_posting(b, t, q));
            let content = choose|content: Seq<u8>| #[trigger]
                has_content(b, t, content) && q.4 - q.3 == content.len();
            lemma_content_stays(b, d, t, content);
        }
    } else {
        assert(c.texts =~= c.texts.subrange(0, c.texts.len() as int));
        assert(c.metas =~= c.metas.subrange(0, c.metas.len() as int));
    }
    assert(c.words =~= d.words.subrange(0, c.words.len() as int));
}

proof fn lemma_moved(c: Collected, d: Collected)
    requires
        entries_true(c),
        all_span(c),
        collector_trace::all_shaped(c),
        d.texts == c.texts,
        d.metas == c.metas,
        d.words == c.words,
        d.word_postings == c.word_postings,
    ensures
        entries_true(d),
        all_span(d),
        collector_trace::all_shaped(d),
{
    assert forall|i: int| 0 <= i < d.words.len() implies #[trigger] entry_true(d, d.words[i]) by {
        assert(entry_true(c, c.words[i]));
    }
    assert forall|t: u32, q: (u32, u32, u32, u32, u32, u16)| #[trigger] collector_trace::has_posting(
        d,
        t,
        q,
    ) implies spans_content(d, t, q) by {
        assert(collector_trace::has_posting(c, t, q));
        let content = choose|content: Seq<u8>| #[trigger]
            has_content(c, t, content) && q.4 - q.3 == content.len();
        assert(d.words =~= d.words.subrange(0, d.words.len() as int));
        lemma_content_stays(c, d, t, content);
    }
}

/// Law: every word posting that a value leaves spans as many bytes as the
/// content of its word's entry; and where the chunks of its word have no
/// separators between them, as in a word of one chunk, these bytes of the value
/// are that content, and the separators of the last chunk follow.
pub proof fn words_span_their_content(
    c: Collected,
    chunks: Seq<Chunk>,
    overlap: int,
    positions: bool,
)
    requires
        entries_true(c),
        all_span(c),
        collector_trace::all_shaped(c),
        words_fit(chunks),
        collector_v3::value_ok(chunks),
        c.ti + chunks.len() < u32::MAX,
        0 <= overlap,
        collector_v3::after_value(c, chunks, overlap, positions).texts.len() <= u32::MAX,
    ensures
        ({
            let h = collector_v3::after_value(c, chunks, overlap, positions);
            &&& entries_true(h)
            &&& all_span(h)
            &&& collector_trace::all_shaped(h)
            &&& forall|t: u32, q: (u32, u32, u32, u32, u32, u16)| #[trigger]
                collector_trace::has_posting(h, t, q) ==> collector_trace::has_posting(c, t, q)
                    || is_of_value(h, chunks, c.doc, c.ti, t, q)
        }),
{
    lemma_value_true(c, chunks, overlap, positions);
}

/// Law: every word of a value that has content, over however many chunks, is
/// posted: at its first and last chunk, from its first byte on and over as many
/// as its content has, for the token of its content and of what it borrows from
/// the next; and of a long word its last bytes are posted too.
pub proof fn every_word_is_posted(
    c: Collected,
    chunks: Seq<Chunk>,
    overlap: int,
    positions: bool,
    a: int,
    b: int,
)
    requires
        entries_true(c),
        all_span(c),
        collector_trace::all_shaped(c),
        words_fit(chunks),
        collector_v3::value_ok(chunks),
        c.ti + chunks.len() < u32::MAX,
        0 <= overlap,
        collector_v3::after_value(c, chunks, overlap, positions).texts.len() <= u32::MAX,
        is_run(chunks, a, b),
    ensures
        runs_done(
            collector_v3::after_value(c, chunks, overlap, positions),
            chunks,
            overlap,
            c.doc,
            c.ti,
            a,
            b,
        ),
{
    lemma_value_true(c, chunks, overlap, positions);
}

proof fn lemma_value_true(c: Collected, chunks: Seq<Chunk>, overlap: int, positions: bool)
    requires
        entries_true(c),
        all_span(c),
        collector_trace::all_shaped(c),
        words_fit(chunks),
        collector_v3::value_ok(chunks),
        c.ti + chunks.len() < u32::MAX,
        0 <= overlap,
        collector_v3::after_value(c, chunks, overlap, positions).texts.len() <= u32::MAX,
    ensures
        ({
            let h = collector_v3::after_value(c, chunks, overlap, positions);
            &&& entries_true(h)
            &&& all_span(h)
            &&& collector_trace::all_shaped(h)
            &&& forall|t: u32, q: (u32, u32, u32, u32, u32, u16)| #[trigger]
                collector_trace::has_posting(h, t, q) ==> collector_trace::has_posting(c, t, q)
                    || is_of_value(h, chunks, c.doc, c.ti, t, q)
            &&& forall|a: int, b: int| #[trigger]
                is_run(chunks, a, b) ==> runs_done(h, chunks, overlap, c.doc, c.ti, a, b)
        }),
{
    let n = chunks.len() as int;
    let h = collector_v3::after_value(c, chunks, overlap, positions);
    if n == 0 {
        lemma_moved(c, h);
    } else {
        let (d, tokens) = collector_v3::after_chunks(c, chunks, overlap, n);
        let e = if positions {
            d.linked(tokens)
        } else {
            d
        };
        let ranges = collector_v3::word_ranges(chunks, n);
        let (f, list) = collector_v3::after_words(e, chunks, tokens, overlap, ranges, ranges.len() as int);
        assert(h.texts == f.texts && h.metas == f.metas && h.words == f.words && h.word_postings
            == f.word_postings);
        lemma_chunks_true(c, chunks, overlap, n);
        lemma_moved(d, e);
        lemma_ranges_are_runs(chunks, n);
        lemma_words_true(e, chunks, tokens, overlap, ranges, ranges.len() as int);
        lemma_moved(f, h);
        assert(f.words =~= h.words.subrange(0, f.words.len() as int));
        assert forall|t: u32, q: (u32, u32, u32, u32, u32, u16)| #[trigger] collector_trace::has_posting(
            h,
            t,
            q,
        ) implies collector_trace::has_posting(c, t, q) || is_of_value(h, chunks, c.doc, c.ti, t, q) by {
            assert(collector_trace::has_posting(f, t, q));
            if collector_trace::has_posting(e, t, q) {
                assert(collector_trace::has_posting(c, t, q));
            } else {
                lemma_of_value_stays(f, h, chunks, c.doc, c.ti, t, q);
            }
        }
        let g = Collected { doc: f.doc, ti: f.ti, ..h };
        lemma_moved(f, g);
        assert(f.texts =~= g.texts.subrange(0, f.texts.len() as int));
        assert(f.metas =~= g.metas.subrange(0, f.metas.len() as int));
        assert(f.words =~= g.words.subrange(0, f.words.len() as int));
        assert forall|t: u32, q: (u32, u32, u32, u32, u32, u16)| #[trigger] collector_trace::has_posting(
            f,
            t,
            q,
        ) implies collector_trace::has_posting(g, t, q) by {}
        assert(keeps(f, g));
        assert forall|a: int, b: int| #[trigger] is_run(chunks, a, b) implies runs_done(
            h,
            chunks,
            overlap,
            c.doc,
            c.ti,
            a,
            b,
        ) by {
            lemma_runs_are_ranges(chunks, n, a, b);
            let i = choose|i: int| 0 <= i < ranges.len() && ranges[i] == (a, b);
            assert(runs_done(f, chunks, overlap, c.doc, c.ti, ranges[i].0, ranges[i].1));
            lemma_run_stays(f, g, chunks, overlap, c.doc, c.ti, a, b);
            lemma_run_moves(g, h, chunks, overlap, c.doc, c.ti, a, b);
        }
    }
}

/// Where a word is posted depends on texts, entries and postings alone.
proof fn lemma_run_moves(
    c: Collected,
    d: Collected,
    chunks: Seq<Chunk>,
    overlap: int,
    doc: u32,
    ti: u32,
    a: int,
    b: int,
)
    requires
        c.texts == d.texts,
        c.words == d.words,
        c.word_postings == d.word_postings,
    ensures
        run_posted(c, chunks, overlap, doc, ti, a, b) ==> run_posted(d, chunks, overlap, doc, ti, a, b),
        end_posted(c, chunks, overlap, doc, ti, a, b) ==> end_posted(d, chunks, overlap, doc, ti, a, b),
{
    let content = collector_v3::content_of(chunks, a, b);
    if run_posted(c, chunks, overlap, doc, ti, a, b) {
        let (t, q) = choose|t: u32, q: (u32, u32, u32, u32, u32, u16)| #[trigger]
            collector_trace::has_posting(c, t, q) && is_word_of(c, t, content, chunks, b, overlap) && q.0
                == doc && q.1 == ti + a && q.2 == ti + b - 1 && q.3 == value_bytes(chunks, a).len() && q.4
                == q.3 + content.len() && q.5 == 0;
        assert(collector_trace::has_posting(d, t, q) && is_word_of(d, t, content, chunks, b, overlap));
    }
    if end_posted(c, chunks, overlap, doc, ti, a, b) {
        let (t, q, tail) = choose|t: u32, q: (u32, u32, u32, u32, u32, u16), tail: Seq<u8>|
            #[trigger] collector_trace::has_posting(c, t, q) && #[trigger] is_word_of(
                c,
                t,
                tail,
                chunks,
                b,
                overlap,
            ) && text::is_end(tail, content, DEFAULT_MAX_TOKEN as int) && q.0 == doc && ti + a <= q.1 && q.2
                == ti + b - 1 && q.3 == q.4 - tail.len() && q.4 == value_bytes(chunks, a).len()
                + content.len();
        assert(collector_trace::has_posting(d, t, q) && is_word_of(d, t, tail, chunks, b, overlap));
    }
}

proof fn lemma_values_true(c: Collected, values: Seq<Seq<Chunk>>, overlap: int, k: int)
    requires
        entries_true(c),
        all_span(c),
        collector_trace::all_shaped(c),
        0 <= k <= values.len(),
        collector_trace::values_fit(c, values, overlap),
        0 <= overlap,
        forall|i: int|
            0 <= i < values.len() ==> collector_v3::value_ok(#[trigger] values[i]) && words_fit(values[i]),
        collector_trace::after_values(c, values, overlap, k).texts.len() <= u32::MAX,
    ensures
        entries_true(collector_trace::after_values(c, values, overlap, k)),
        all_span(collector_trace::after_values(c, values, overlap, k)),
        collector_trace::all_shaped(collector_trace::after_values(c, values, overlap, k)),
    decreases k,
{
    if k > 0 {
        let b = collector_trace::after_values(c, values, overlap, k - 1);
        collector_trace::lemma_value_texts(b, values[k - 1], overlap);
        lemma_values_true(c, values, overlap, k - 1);
        assert(b.ti + values[k - 1].len() < u32::MAX);
        assert(collector_v3::value_ok(values[k - 1]));
        words_span_their_content(b, values[k - 1], overlap, true);
    }
}

/// Law: after any documents every word posting spans as many bytes as the
/// content of its word's entry.
pub proof fn documents_words_span_their_content(docs: Seq<Seq<Seq<Chunk>>>, overlap: int, k: int)
    requires
        0 <= k <= docs.len(),
        0 <= overlap,
        collector_trace::docs_fit(docs, overlap),
        forall|i: int, j: int|
            0 <= i < docs.len() && 0 <= j < docs[i].len() ==> collector_v3::value_ok(#[trigger] docs[i][j])
                && words_fit(docs[i][j]),
    ensures
        entries_true(collector_trace::after_docs(docs, overlap, k)),
        all_span(collector_trace::after_docs(docs, overlap, k)),
        collector_trace::all_shaped(collector_trace::after_docs(docs, overlap, k)),
    decreases k,
{
    if k > 0 {
        let c = collector_trace::after_docs(docs, overlap, k - 1);
        let d = collector_trace::after_docs(docs, overlap, k);
        let values = docs[k - 1];
        let b = Collected { ti: 0, ..c };
        let e = collector_trace::after_values(b, values, overlap, values.len() as int);
        collector_trace::lemma_docs_texts(docs, overlap, k, docs.len() as int);
        documents_words_span_their_content(docs, overlap, k - 1);
        lemma_moved(c, b);
        assert(collector_trace::values_fit(
            Collected { ti: 0, ..collector_trace::after_docs(docs, overlap, k - 1) },
            docs[k - 1],
            overlap,
        ));
        assert forall|i: int| 0 <= i < values.len() implies collector_v3::value_ok(#[trigger] values[i])
            && words_fit(values[i]) by {
            assert(values[i] == docs[k - 1][i]);
        }
        lemma_values_true(b, values, overlap, values.len() as int);
        lemma_moved(e, d);
    } else {
        assert(collector_v3::nothing_collected().word_postings.len() == 0);
        assert(collector_v3::nothing_collected().words.len() == 0);
    }
}

} // verus!
