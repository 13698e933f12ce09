//! What each value left in what was collected: which tokens stand at its
//! positions, and which words.

use vstd::prelude::*;

use crate::collector_v3;
use crate::collector_v3::{Chunk, Collected, DEFAULT_MAX_TOKEN, MAX_SUFFIX_INDEX, TokenMetaV3, WordEntry};
use crate::offset_table;
use crate::text;

verus! {

/// What a value left.
#[verifier::ext_equal]
pub struct Trace {
    /// Its document.
    pub doc: u32,
    /// Its first position.
    pub ti: u32,
    /// The tokens of its chunks, one to a position.
    pub chunks: Seq<u32>,
    /// Its words: first and last position, and token.
    pub words: Seq<(u32, u32, u32)>,
    /// The tails of its words: first and last position, and token.
    pub tails: Seq<(u32, u32, u32)>,
}

/// What is collected after the first `k` values of a document.
pub open spec fn after_values(c: Collected, values: Seq<Seq<Chunk>>, overlap: int, k: int) -> Collected
    decreases k,
{
    if k <= 0 {
        c
    } else {
        collector_v3::after_value(after_values(c, values, overlap, k - 1), values[k - 1], overlap, true)
    }
}

/// What is collected after the first `k` documents, each given as its values.
pub open spec fn after_docs(docs: Seq<Seq<Seq<Chunk>>>, overlap: int, k: int) -> Collected
    decreases k,
{
    if k <= 0 {
        collector_v3::nothing_collected()
    } else {
        let c = after_docs(docs, overlap, k - 1);
        let values = docs[k - 1];
        let d = after_values(Collected { ti: 0, ..c }, values, overlap, values.len() as int);
        Collected { doc: (d.doc + 1) as u32, ..d }
    }
}

/// Whether every position of the first `k` values can be numbered.
pub open spec fn values_fit(c: Collected, values: Seq<Seq<Chunk>>, overlap: int) -> bool {
    forall|k: int|
        0 <= k < values.len() ==> (#[trigger] after_values(c, values, overlap, k)).ti + values[k].len()
            < u32::MAX
}

/// Whether the documents, their positions and their tokens can be numbered.
pub open spec fn docs_fit(docs: Seq<Seq<Seq<Chunk>>>, overlap: int) -> bool {
    &&& docs.len() <= u32::MAX
    &&& after_docs(docs, overlap, docs.len() as int).texts.len() <= u32::MAX
    &&& forall|k: int|
        0 <= k < docs.len() ==> values_fit(
            Collected { ti: 0, ..#[trigger] after_docs(docs, overlap, k) },
            docs[k],
            overlap,
        )
}

/// Whether value `v` has the token at a position.
pub open spec fn held(t: Seq<Trace>, v: int, d: int, p: int, token: u32) -> bool {
    &&& 0 <= v < t.len()
    &&& t[v].doc == d
    &&& t[v].ti <= p < t[v].ti + t[v].chunks.len()
    &&& t[v].chunks[p - t[v].ti] == token
}

/// Whether the token has the chunk posting.
pub open spec fn has_place(c: Collected, token: u32, d: u32, p: u32) -> bool {
    exists|i: int|
        0 <= i < c.postings[token as int].len() && (#[trigger] c.postings[token as int][i]).0 == d
            && c.postings[token as int][i].1 == p
}

/// Whether the token has the word posting.
pub open spec fn has_posting(c: Collected, token: u32, q: (u32, u32, u32, u32, u32, u16)) -> bool {
    token < c.word_postings.len() && c.word_postings[token as int].contains(q)
}

/// Whether the parts of what was collected belong together.
pub open spec fn sound(c: Collected) -> bool {
    &&& c.metas.len() == c.texts.len()
    &&& c.postings.len() == c.texts.len()
    &&& c.word_postings.len() <= c.texts.len()
    &&& c.texts.len() <= u32::MAX
}

/// Whether `d` has the tokens and words of `c`.
pub open spec fn extends(c: Collected, d: Collected) -> bool {
    &&& c.texts.is_prefix_of(d.texts)
    &&& c.metas.is_prefix_of(d.metas)
    &&& c.words.is_prefix_of(d.words)
    &&& c.doc == d.doc
    &&& c.ti == d.ti
}

proof fn lemma_has_word_stays(c: Collected, d: Collected, token: u32)
    requires
        c.words.is_prefix_of(d.words),
        c.has_word(token),
    ensures
        d.has_word(token),
{
    let k = choose|k: int| 0 <= k < c.words.len() && (#[trigger] c.words[k]).token == token;
    assert(d.words[k].token == token);
}

pub proof fn lemma_interned_token(c: Collected, text: Seq<u8>, m: TokenMetaV3)
    requires
        sound(c),
        c.interned(text, m).0.texts.len() <= u32::MAX,
        collector_v3::shaped(m),
    ensures
        ({
            let (d, token) = c.interned(text, m);
            &&& sound(d)
            &&& extends(c, d)
            &&& token < d.texts.len()
            &&& collector_v3::shape_tag(d.metas[token as int]) == collector_v3::shape_tag(m)
            &&& d.pairs == c.pairs
            &&& d.word_postings == c.word_postings
            &&& d.words == c.words
            &&& forall|t: u32, a: u32, p: u32|
                t < d.texts.len() ==> (#[trigger] has_place(d, t, a, p) <==> t < c.texts.len() && has_place(
                    c,
                    t,
                    a,
                    p,
                ))
        }),
{
    let (d, token) = c.interned(text, m);
    let key = (collector_v3::shape_tag(m), text);
    if c.keys().contains(key) {
        let i = c.keys().index_of(key);
        assert(c.keys()[i] == key);
    } else {
        assert(d.metas[token as int] == m);
        assert forall|t: u32, a: u32, p: u32| t < d.texts.len() implies (#[trigger] has_place(d, t, a, p)
            <==> t < c.texts.len() && has_place(c, t, a, p)) by {
            if t < c.texts.len() {
                assert(d.postings[t as int] == c.postings[t as int]);
            } else {
                assert(d.postings[t as int] =~= Seq::<(u32, u32, u32, u32)>::empty());
            }
        }
    }
}

proof fn lemma_chunk_tag(m: TokenMetaV3, x: TokenMetaV3)
    requires
        collector_v3::shape_tag(m) == collector_v3::shape_tag(x),
        collector_v3::shaped(x),
        collector_v3::shaped(m),
    ensures
        m.is_word_stripped == x.is_word_stripped,
{
}

/// Whether every token's shape is one that a token can have.
pub open spec fn all_shaped(c: Collected) -> bool {
    forall|i: int| 0 <= i < c.metas.len() ==> collector_v3::shaped(#[trigger] c.metas[i])
}

proof fn lemma_shaped_stays(c: Collected, text: Seq<u8>, m: TokenMetaV3)
    requires
        all_shaped(c),
        collector_v3::shaped(m),
    ensures
        all_shaped(c.interned(text, m).0),
{
}

/// Chunks leave their tokens one to a position and change no word.
pub proof fn lemma_chunks_leave(c: Collected, chunks: Seq<Chunk>, overlap: int, k: int)
    requires
        sound(c),
        all_shaped(c),
        0 <= k <= chunks.len(),
        c.ti + chunks.len() < u32::MAX,
        collector_v3::after_chunks(c, chunks, overlap, k).0.texts.len() <= u32::MAX,
    ensures
        ({
            let (d, tokens) = collector_v3::after_chunks(c, chunks, overlap, k);
            &&& sound(d)
            &&& all_shaped(d)
            &&& extends(c, d)
            &&& tokens.len() == k
            &&& d.pairs == c.pairs
            &&& d.word_postings == c.word_postings
            &&& forall|i: int|
                0 <= i < k ==> (#[trigger] tokens[i]) < d.texts.len()
                    && !d.metas[tokens[i] as int].is_word_stripped
            &&& forall|t: u32, a: u32, p: u32|
                t < d.texts.len() ==> (#[trigger] has_place(d, t, a, p) <==> (t < c.texts.len()
                    && has_place(c, t, a, p)) || (a == c.doc && c.ti <= p < c.ti + k && tokens[p - c.ti]
                    == t))
        }),
    decreases k,
{
    if k > 0 {
        let (b, before) = collector_v3::after_chunks(c, chunks, overlap, k - 1);
        let (d, tokens) = collector_v3::after_chunks(c, chunks, overlap, k);
        let i = k - 1;
        let over = collector_v3::chunk_overlap(chunks, i, overlap);
        let content = collector_v3::chunk_bytes(chunks[i]) + over;
        let m = collector_v3::chunk_shape(chunks[i], over.len() as int);
        let (e, token) = b.interned(content, m);
        assert(d.texts == e.texts);
        assert(b.texts.len() <= e.texts.len());
        lemma_chunks_leave(c, chunks, overlap, k - 1);
        lemma_interned_token(b, content, m);
        lemma_shaped_stays(b, content, m);
        lemma_chunk_tag(e.metas[token as int], m);
        assert(tokens == before.push(token));
        assert(d.metas == e.metas);
        let place = (
            b.doc,
            (b.ti + i) as u32,
            collector_v3::offset_of(chunks, i) as u32,
            collector_v3::offset_of(chunks, i + 1) as u32,
        );
        assert(d.postings == e.postings.update(token as int, e.postings[token as int].push(place)));
        assert forall|j: int| 0 <= j < k implies (#[trigger] tokens[j]) < d.texts.len()
            && !d.metas[tokens[j] as int].is_word_stripped by {
            if j < k - 1 {
                assert(tokens[j] == before[j]);
                assert(d.metas[tokens[j] as int] == b.metas[tokens[j] as int]);
            }
        }
        assert forall|t: u32, a: u32, p: u32| t < d.texts.len() implies (#[trigger] has_place(d, t, a, p)
            <==> (t < c.texts.len() && has_place(c, t, a, p)) || (a == c.doc && c.ti <= p < c.ti + k
            && tokens[p - c.ti] == t)) by {
            let list = e.postings[token as int];
            if t == token {
                assert(d.postings[t as int] == list.push(place));
                if has_place(e, t, a, p) {
                    let j = choose|j: int|
                        0 <= j < list.len() && (#[trigger] list[j]).0 == a && list[j].1 == p;
                    assert(d.postings[t as int][j] == list[j]);
                }
                if a == place.0 && p == place.1 {
                    assert(d.postings[t as int][list.len() as int] == place);
                }
                if has_place(d, t, a, p) {
                    let j = choose|j: int|
                        0 <= j < d.postings[t as int].len() && (#[trigger] d.postings[t as int][j]).0 == a
                            && d.postings[t as int][j].1 == p;
                    if j < list.len() {
                        assert(list[j].0 == a);
                    }
                }
                assert(has_place(d, t, a, p) <==> has_place(e, t, a, p) || (a == place.0 && p == place.1));
            } else {
                assert(d.postings[t as int] == e.postings[t as int]);
                assert(has_place(d, t, a, p) <==> has_place(e, t, a, p));
            }
            assert(has_place(e, t, a, p) <==> t < b.texts.len() && has_place(b, t, a, p));
            if c.ti <= p < c.ti + k - 1 {
                assert(tokens[p - c.ti] == before[p - c.ti]);
            }
            if t < b.texts.len() {
                assert(has_place(b, t, a, p) <==> (t < c.texts.len() && has_place(c, t, a, p)) || (a
                    == c.doc && c.ti <= p < c.ti + k - 1 && before[p - c.ti] == t));
            } else if c.ti <= p < c.ti + k - 1 {
                assert(before[p - c.ti] < b.texts.len());
            }
        }
    }
}

/// Whether `d` is `c` with word postings for words and tails, given by first
/// and last position and token.
pub open spec fn words_left(
    c: Collected,
    d: Collected,
    words: Seq<(u32, u32, u32)>,
    tails: Seq<(u32, u32, u32)>,
) -> bool {
    &&& sound(d)
    &&& all_shaped(d)
    &&& extends(c, d)
    &&& d.pairs == c.pairs
    &&& forall|t: u32, a: u32, p: u32|
        t < d.texts.len() ==> (#[trigger] has_place(d, t, a, p) <==> t < c.texts.len() && has_place(
            c,
            t,
            a,
            p,
        ))
    &&& forall|i: int| 0 <= i < words.len() ==> is_word(d, (#[trigger] words[i]).2)
    &&& forall|i: int| 0 <= i < tails.len() ==> is_word(d, (#[trigger] tails[i]).2)
    &&& forall|t: u32, q: (u32, u32, u32, u32, u32, u16)| #[trigger]
        has_posting(d, t, q) ==> has_posting(c, t, q) || (q.0 == c.doc && (words.contains((q.1, q.2, t))
            || tails.contains((q.1, q.2, t))))
    &&& forall|t: u32, q: (u32, u32, u32, u32, u32, u16)|
        has_posting(c, t, q) ==> #[trigger] has_posting(d, t, q)
    &&& forall|i: int| 0 <= i < words.len() ==> word_posted_at(d, c.doc, #[trigger] words[i])
}

/// Whether the token is that of a word with an entry.
pub open spec fn is_word(c: Collected, token: u32) -> bool {
    &&& token < c.texts.len()
    &&& c.metas[token as int].is_word_stripped
    &&& c.has_word(token)
}

/// Whether a whole word is posted at these positions.
pub open spec fn word_posted_at(c: Collected, doc: u32, w: (u32, u32, u32)) -> bool {
    exists|q: (u32, u32, u32, u32, u32, u16)| #[trigger]
        has_posting(c, w.2, q) && q.0 == doc && q.1 == w.0 && q.2 == w.1 && q.5 == 0
}

proof fn lemma_is_word_stays(c: Collected, d: Collected, token: u32)
    requires
        sound(c),
        extends(c, d),
        is_word(c, token),
    ensures
        is_word(d, token),
{
    lemma_has_word_stays(c, d, token);
    assert(d.metas[token as int] == c.metas[token as int]);
}

pub proof fn lemma_word_added(
    c: Collected,
    text: Seq<u8>,
    m: TokenMetaV3,
    e: WordEntry,
    q: (u32, u32, u32, u32, u32, u16),
)
    requires
        sound(c),
        all_shaped(c),
        c.interned(text, m).0.texts.len() <= u32::MAX,
        collector_v3::shaped(m),
        m.is_word_stripped,
        e.token == c.interned(text, m).1,
        q.0 == c.doc,
    ensures
        ({
            let d = c.interned(text, m).0.worded(e).word_posted(e.token, q);
            &&& words_left(c, d, Seq::empty(), seq![(q.1, q.2, e.token)])
            &&& has_posting(d, e.token, q)
        }),
{
    let (b, token) = c.interned(text, m);
    lemma_interned_token(c, text, m);
    lemma_shaped_stays(c, text, m);
    lemma_chunk_tag(b.metas[token as int], m);
    let f = b.worded(e);
    let d = f.word_posted(token, q);
    assert(f.words.len() >= b.words.len());
    if b.has_word(token) {
        let k = choose|k: int| 0 <= k < b.words.len() && (#[trigger] b.words[k]).token == token;
        assert(d.words[k].token == token);
    } else {
        assert(d.words[b.words.len() as int].token == token);
    }
    assert(d.has_word(token));
    let g = offset_table::padded(b.word_postings, token + 1, Seq::empty());
    assert(d.word_postings == g.update(token as int, g[token as int].push(q)));
    let tails = seq![(q.1, q.2, token)];
    assert(tails[0] == (q.1, q.2, token));
    assert(g[token as int].push(q)[g[token as int].len() as int] == q);
    assert(has_posting(d, token, q));
    assert forall|t: u32, x: (u32, u32, u32, u32, u32, u16)| #[trigger] has_posting(d, t, x) implies has_posting(
        c,
        t,
        x,
    ) || (x.0 == c.doc && tails.contains((x.1, x.2, t))) by {
        if t == token {
            let k = choose|k: int| 0 <= k < d.word_postings[t as int].len() && d.word_postings[t as int][k] == x;
            if k < g[t as int].len() {
                assert(g[t as int][k] == x);
                assert(g[t as int].contains(x));
                if t >= b.word_postings.len() {
                    assert(g[t as int] =~= Seq::<(u32, u32, u32, u32, u32, u16)>::empty());
                }
            }
        } else {
            assert(d.word_postings[t as int] == g[t as int]);
            if t >= b.word_postings.len() {
                assert(g[t as int] =~= Seq::<(u32, u32, u32, u32, u32, u16)>::empty());
            }
        }
    }
    assert forall|t: u32, x: (u32, u32, u32, u32, u32, u16)| has_posting(c, t, x) implies #[trigger] has_posting(
        d,
        t,
        x,
    ) by {
        assert(g[t as int] == b.word_postings[t as int]);
        let k = choose|k: int| 0 <= k < g[t as int].len() && g[t as int][k] == x;
        assert(d.word_postings[t as int][k] == x);
    }
    assert forall|t: u32, a: u32, p: u32| t < d.texts.len() implies (#[trigger] has_place(d, t, a, p)
        <==> t < c.texts.len() && has_place(c, t, a, p)) by {
        assert(d.postings == b.postings);
        assert(has_place(d, t, a, p) == has_place(b, t, a, p));
    }
}

/// What two steps leave one after the other.
proof fn lemma_words_join(
    c: Collected,
    d: Collected,
    e: Collected,
    words: Seq<(u32, u32, u32)>,
    tails: Seq<(u32, u32, u32)>,
    words2: Seq<(u32, u32, u32)>,
    tails2: Seq<(u32, u32, u32)>,
)
    requires
        sound(c),
        words_left(c, d, words, tails),
        words_left(d, e, words2, tails2),
    ensures
        words_left(c, e, words + words2, tails + tails2),
{
    let w = words + words2;
    let s = tails + tails2;
    assert forall|i: int| 0 <= i < w.len() implies is_word(e, (#[trigger] w[i]).2) by {
        if i < words.len() {
            assert(w[i] == words[i]);
            lemma_is_word_stays(d, e, words[i].2);
        } else {
            assert(w[i] == words2[i - words.len()]);
        }
    }
    assert forall|i: int| 0 <= i < s.len() implies is_word(e, (#[trigger] s[i]).2) by {
        if i < tails.len() {
            assert(s[i] == tails[i]);
            lemma_is_word_stays(d, e, tails[i].2);
        } else {
            assert(s[i] == tails2[i - tails.len()]);
        }
    }
    assert forall|t: u32, q: (u32, u32, u32, u32, u32, u16)| #[trigger] has_posting(e, t, q) implies has_posting(
        c,
        t,
        q,
    ) || (q.0 == c.doc && (w.contains((q.1, q.2, t)) || s.contains((q.1, q.2, t)))) by {
        let x = (q.1, q.2, t);
        if !has_posting(d, t, q) {
            if words2.contains(x) {
                let k = choose|k: int| 0 <= k < words2.len() && words2[k] == x;
                assert(w[words.len() + k] == x);
            } else {
                let k = choose|k: int| 0 <= k < tails2.len() && tails2[k] == x;
                assert(s[tails.len() + k] == x);
            }
        } else if !has_posting(c, t, q) {
            if words.contains(x) {
                let k = choose|k: int| 0 <= k < words.len() && words[k] == x;
                assert(w[k] == x);
            } else {
                let k = choose|k: int| 0 <= k < tails.len() && tails[k] == x;
                assert(s[k] == x);
            }
        }
    }
    assert forall|t: u32, q: (u32, u32, u32, u32, u32, u16)| has_posting(c, t, q) implies #[trigger] has_posting(
        e,
        t,
        q,
    ) by {
        assert(has_posting(d, t, q));
    }
    assert forall|i: int| 0 <= i < w.len() implies word_posted_at(e, c.doc, #[trigger] w[i]) by {
        if i < words.len() {
            assert(w[i] == words[i]);
            assert(word_posted_at(d, c.doc, words[i]));
            let q = choose|q: (u32, u32, u32, u32, u32, u16)| #[trigger]
                has_posting(d, words[i].2, q) && q.0 == c.doc && q.1 == words[i].0 && q.2 == words[i].1
                    && q.5 == 0;
            assert(has_posting(e, words[i].2, q));
        } else {
            assert(w[i] == words2[i - words.len()]);
        }
    }
    assert forall|t: u32, a: u32, p: u32| t < e.texts.len() implies (#[trigger] has_place(e, t, a, p)
        <==> t < c.texts.len() && has_place(c, t, a, p)) by {
        if t < d.texts.len() {
            assert(has_place(d, t, a, p) <==> t < c.texts.len() && has_place(c, t, a, p));
        }
    }
}

/// Nothing more than before.
proof fn lemma_words_none(c: Collected)
    requires
        sound(c),
        all_shaped(c),
    ensures
        words_left(c, c, Seq::empty(), Seq::empty()),
{
}

/// A whole word is posted as such.
proof fn lemma_word_posted(
    c: Collected,
    d: Collected,
    w: (u32, u32, u32),
    q: (u32, u32, u32, u32, u32, u16),
)
    requires
        words_left(c, d, Seq::empty(), seq![w]),
        has_posting(d, w.2, q),
        q.0 == c.doc && q.1 == w.0 && q.2 == w.1 && q.5 == 0,
    ensures
        words_left(c, d, seq![w], Seq::empty()),
{
    let tails = seq![w];
    assert(tails[0] == w);
    assert(word_posted_at(d, c.doc, w));
    assert forall|t: u32, x: (u32, u32, u32, u32, u32, u16)| #[trigger] has_posting(d, t, x) implies has_posting(
        c,
        t,
        x,
    ) || (x.0 == c.doc && (seq![w].contains((x.1, x.2, t)) || Seq::<(u32, u32, u32)>::empty().contains(
        (x.1, x.2, t),
    ))) by {
    }
}

pub proof fn lemma_ceil_within(b: Seq<u8>, k: int)
    requires
        0 <= k <= b.len(),
    ensures
        k <= text::ceil_boundary(b, k) <= b.len(),
    decreases b.len() - k,
{
    if k < b.len() {
        lemma_ceil_within(b, k + 1);
    }
}

proof fn lemma_holding_in(chunks: Seq<Chunk>, a: int, b: int, at: int)
    requires
        a < b,
    ensures
        a <= collector_v3::chunk_holding(chunks, a, b, at) < b,
    decreases b - a,
{
    if a < b - 1 {
        lemma_holding_in(chunks, a + 1, b, at);
    }
}

/// Whether the words, in order and apart, stand at the positions from `lo` up
/// to `hi`, and each tail ends with a word, starting no earlier.
pub open spec fn placed(
    words: Seq<(u32, u32, u32)>,
    tails: Seq<(u32, u32, u32)>,
    lo: int,
    hi: int,
) -> bool {
    &&& forall|i: int|
        0 <= i < words.len() ==> lo <= (#[trigger] words[i]).0 <= words[i].1 && words[i].1 < hi
    &&& forall|i: int, j: int|
        0 <= i < j < words.len() ==> (#[trigger] words[i]).1 < (#[trigger] words[j]).0
    &&& forall|i: int| 0 <= i < tails.len() ==> ends_word(words, #[trigger] tails[i])
}

/// Whether no two tails end at one position.
pub open spec fn ends_differ(tails: Seq<(u32, u32, u32)>) -> bool {
    forall|i: int, j: int|
        0 <= i < j < tails.len() ==> (#[trigger] tails[i]).1 < (#[trigger] tails[j]).1
}

/// Whether a tail ends with one of the words, starting later.
pub open spec fn ends_word_later(words: Seq<(u32, u32, u32)>, s: (u32, u32, u32)) -> bool {
    exists|i: int| 0 <= i < words.len() && (#[trigger] words[i]).1 == s.1 && words[i].0 < s.0
}

/// Whether every tail starts later than its word, and no two end at one
/// position.
pub open spec fn tails_later(words: Seq<(u32, u32, u32)>, tails: Seq<(u32, u32, u32)>) -> bool {
    &&& ends_differ(tails)
    &&& forall|i: int| 0 <= i < tails.len() ==> ends_word_later(words, #[trigger] tails[i])
}

/// Whether no chunk is longer than the suffixes that are indexed.
pub open spec fn chunks_short(chunks: Seq<Chunk>) -> bool {
    forall|i: int|
        0 <= i < chunks.len() ==> collector_v3::chunk_bytes(#[trigger] chunks[i]).len()
            <= MAX_SUFFIX_INDEX
}

/// Whether a tail ends with one of the words, starting no earlier.
pub open spec fn ends_word(words: Seq<(u32, u32, u32)>, s: (u32, u32, u32)) -> bool {
    exists|i: int|
        0 <= i < words.len() && (#[trigger] words[i]).1 == s.1 && words[i].0 <= s.0 <= s.1
}

/// The tail of a word whose chunks are short does not start in its first chunk.
proof fn lemma_tail_is_later(chunks: Seq<Chunk>, a: int, b: int, ts: int)
    requires
        0 <= a < b <= chunks.len(),
        chunks_short(chunks),
        forall|i: int| 0 <= i < chunks.len() ==> collector_v3::chunk_ok(#[trigger] chunks[i]),
        collector_v3::content_of(chunks, a, b).len() > MAX_SUFFIX_INDEX + DEFAULT_MAX_TOKEN,
        ts >= collector_v3::content_of(chunks, a, b).len() - DEFAULT_MAX_TOKEN,
    ensures
        collector_v3::chunk_holding(chunks, a, b, collector_v3::offset_of(chunks, a) + ts) > a,
{
    assert(collector_v3::chunk_bytes(chunks[a]).len() <= MAX_SUFFIX_INDEX);
    if b == a + 1 {
        assert(collector_v3::chunk_ok(chunks[a]));
        assert(collector_v3::content_of(chunks, a, a) =~= Seq::<u8>::empty());
        assert(collector_v3::content_of(chunks, a, b).len() <= collector_v3::chunk_bytes(chunks[a]).len());
    } else {
        lemma_holding_in(chunks, a + 1, b, collector_v3::offset_of(chunks, a) + ts);
    }
}

/// A word leaves its posting, and that of its tail where it has one.
proof fn lemma_word_leaves(
    c: Collected,
    chunks: Seq<Chunk>,
    tokens: Seq<u32>,
    overlap: int,
    a: int,
    b: int,
) -> (r: (Seq<(u32, u32, u32)>, Seq<(u32, u32, u32)>))
    requires
        sound(c),
        all_shaped(c),
        0 <= a < b <= chunks.len(),
        c.ti + chunks.len() < u32::MAX,
        forall|i: int| 0 <= i < chunks.len() ==> collector_v3::chunk_ok(#[trigger] chunks[i]),
        collector_v3::word_step(c, chunks, tokens, overlap, a, b).0.texts.len() <= u32::MAX,
    ensures
        ({
            let (d, w) = collector_v3::word_step(c, chunks, tokens, overlap, a, b);
            &&& words_left(c, d, r.0, r.1)
            &&& placed(r.0, r.1, c.ti + a, c.ti + b)
            &&& chunks_short(chunks) ==> tails_later(r.0, r.1)
            &&& forall|i: int| 0 <= i < r.1.len() ==> c.ti + a <= (#[trigger] r.1[i]).1 < c.ti + b
            &&& w is None ==> r.0.len() == 0
            &&& w matches Some(t) ==> r.0.len() == 1 && r.0[0].2 == t
        }),
{
    let content = collector_v3::content_of(chunks, a, b);
    let over = collector_v3::word_overlap(chunks, b, overlap);
    let first = chunks[a].meta;
    let last = chunks[b - 1].meta;
    assert(collector_v3::chunk_ok(chunks[b - 1]));
    let own_len = collector_v3::word_own_len(content.len() as int, last.sep_len as int);
    let d = collector_v3::word_step(c, chunks, tokens, overlap, a, b).0;
    if content.len() == 0 {
        lemma_words_none(c);
        (Seq::empty(), Seq::empty())
    } else {
        let m = TokenMetaV3 {
            own_len,
            sep_len: last.sep_len as u8,
            overlap_len: over.len() as u8,
            is_word_start: first.is_word_start,
            word_id: first.word_id,
            is_word_stripped: true,
        };
        let (x, token) = c.interned(content + over, m);
        let e = WordEntry {
            content,
            overlap: over,
            token,
            first_chunk: tokens[a],
            last_chunk: tokens[b - 1],
            own_len,
            sep_len: last.sep_len as u8,
            is_word_start: first.is_word_start,
            num_chunks: (b - a) as u32,
        };
        let q = (
            c.doc,
            (c.ti + a) as u32,
            (c.ti + b - 1) as u32,
            collector_v3::offset_of(chunks, a) as u32,
            (collector_v3::offset_of(chunks, a) + content.len()) as u32,
            0u16,
        );
        let y = x.worded(e).word_posted(token, q);
        assert(y.texts == x.texts);
        let w = (q.1, q.2, token);
        if content.len() > MAX_SUFFIX_INDEX + DEFAULT_MAX_TOKEN {
            let ts = text::ceil_boundary(content, content.len() - DEFAULT_MAX_TOKEN);
            let tail = content.subrange(ts, content.len() as int);
            let own2 = (tail.len() + last.sep_len) as u16;
            let m2 = TokenMetaV3 {
                own_len: own2,
                sep_len: last.sep_len as u8,
                overlap_len: over.len() as u8,
                is_word_start: false,
                word_id: last.word_id,
                is_word_stripped: true,
            };
            let (x2, token2) = y.interned(tail + over, m2);
            let from = collector_v3::offset_of(chunks, a) + ts;
            let at = collector_v3::chunk_holding(chunks, a, b, from);
            let e2 = WordEntry {
                content: tail,
                overlap: over,
                token: token2,
                first_chunk: tokens[at],
                last_chunk: tokens[b - 1],
                own_len: own2,
                sep_len: last.sep_len as u8,
                is_word_start: false,
                num_chunks: (b - at) as u32,
            };
            let q2 = (
                y.doc,
                (y.ti + at) as u32,
                (y.ti + b - 1) as u32,
                from as u32,
                (from + tail.len()) as u32,
                (from - collector_v3::offset_of(chunks, at)) as u16,
            );
            let z = x2.worded(e2).word_posted(token2, q2);
            assert(z.texts == x2.texts);
            assert(x.texts.len() <= x2.texts.len());
            assert(d =~= z);
            lemma_word_added(c, content + over, m, e, q);
            lemma_word_posted(c, y, w, q);
            lemma_ceil_within(content, content.len() - DEFAULT_MAX_TOKEN);
            lemma_word_added(y, tail + over, m2, e2, q2);
            let w2 = (q2.1, q2.2, token2);
            lemma_words_join(c, y, z, seq![w], Seq::empty(), Seq::empty(), seq![w2]);
            assert(seq![w] + Seq::<(u32, u32, u32)>::empty() =~= seq![w]);
            assert(Seq::<(u32, u32, u32)>::empty() + seq![w2] =~= seq![w2]);
            lemma_holding_in(chunks, a, b, from);
            assert(seq![w][0] == w);
            assert(ends_word(seq![w], w2));
            if chunks_short(chunks) {
                lemma_tail_is_later(chunks, a, b, ts);
                assert(ends_word_later(seq![w], w2));
            }
            (seq![w], seq![w2])
        } else {
            assert(d =~= y);
            lemma_word_added(c, content + over, m, e, q);
            lemma_word_posted(c, y, w, q);
            (seq![w], Seq::empty())
        }
    }
}

/// Whether words come in order, apart from each other, within `n` chunks.
pub open spec fn apart(ranges: Seq<(int, int)>, n: int) -> bool {
    &&& forall|i: int| 0 <= i < ranges.len() ==> 0 <= (#[trigger] ranges[i]).0 < ranges[i].1 <= n
    &&& forall|i: int, j: int|
        0 <= i < j < ranges.len() ==> (#[trigger] ranges[i]).1 <= (#[trigger] ranges[j]).0
}

pub proof fn lemma_ranges_apart(chunks: Seq<Chunk>, k: int)
    requires
        0 <= k <= chunks.len(),
    ensures
        apart(collector_v3::word_ranges(chunks, k), k),
    decreases k,
{
    if k > 0 {
        lemma_ranges_apart(chunks, k - 1);
        let r = collector_v3::word_ranges(chunks, k - 1);
        let s = collector_v3::word_ranges(chunks, k);
        assert forall|i: int, j: int| 0 <= i < j < s.len() implies (#[trigger] s[i]).1 <= (
        #[trigger] s[j]).0 by {
            assert(s[i] == r[i]);
            if j < r.len() {
                assert(s[j].0 == r[j].0);
                assert(r[i].1 <= r[j].0);
            }
        }
    }
}

/// The words of a value leave their postings, in order.
proof fn lemma_words_leave(
    c: Collected,
    chunks: Seq<Chunk>,
    tokens: Seq<u32>,
    overlap: int,
    ranges: Seq<(int, int)>,
    k: int,
) -> (r: (Seq<(u32, u32, u32)>, Seq<(u32, u32, u32)>))
    requires
        sound(c),
        all_shaped(c),
        0 <= k <= ranges.len(),
        apart(ranges, chunks.len() as int),
        c.ti + chunks.len() < u32::MAX,
        forall|i: int| 0 <= i < chunks.len() ==> collector_v3::chunk_ok(#[trigger] chunks[i]),
        collector_v3::after_words(c, chunks, tokens, overlap, ranges, k).0.texts.len() <= u32::MAX,
    ensures
        ({
            let (d, list) = collector_v3::after_words(c, chunks, tokens, overlap, ranges, k);
            &&& words_left(c, d, r.0, r.1)
            &&& placed(
                r.0,
                r.1,
                c.ti as int,
                c.ti + (if k > 0 {
                    ranges[k - 1].1
                } else {
                    0
                }),
            )
            &&& chunks_short(chunks) ==> tails_later(r.0, r.1)
            &&& list.len() == r.0.len()
            &&& forall|i: int| 0 <= i < list.len() ==> #[trigger] list[i] == r.0[i].2
        }),
    decreases k,
{
    if k <= 0 {
        lemma_words_none(c);
        (Seq::empty(), Seq::empty())
    } else {
        let (b, before) = collector_v3::after_words(c, chunks, tokens, overlap, ranges, k - 1);
        let (d, list) = collector_v3::after_words(c, chunks, tokens, overlap, ranges, k);
        let (x, y) = ranges[k - 1];
        lemma_word_texts(b, chunks, tokens, overlap, x, y);
        let r = lemma_words_leave(c, chunks, tokens, overlap, ranges, k - 1);
        let s = lemma_word_leaves(b, chunks, tokens, overlap, x, y);
        lemma_words_join(c, b, d, r.0, r.1, s.0, s.1);
        let words = r.0 + s.0;
        let tails = r.1 + s.1;
        let mid = c.ti + (if k > 1 {
            ranges[k - 2].1
        } else {
            0
        });
        assert(mid <= c.ti + x);
        assert forall|i: int| 0 <= i < words.len() implies c.ti <= (#[trigger] words[i]).0 <= words[i].1
            && words[i].1 < c.ti + y by {
            if i < r.0.len() {
                assert(words[i] == r.0[i]);
            } else {
                assert(words[i] == s.0[i - r.0.len()]);
            }
        }
        assert forall|i: int, j: int| 0 <= i < j < words.len() implies (#[trigger] words[i]).1 < (
        #[trigger] words[j]).0 by {
            if j < r.0.len() {
                assert(words[i] == r.0[i] && words[j] == r.0[j]);
            } else if i < r.0.len() {
                assert(words[i] == r.0[i] && words[j] == s.0[j - r.0.len()]);
            } else {
                assert(s.0.len() == 1);
            }
        }
        assert forall|i: int| 0 <= i < tails.len() implies ends_word(words, #[trigger] tails[i]) by {
            if i < r.1.len() {
                assert(tails[i] == r.1[i]);
                assert(ends_word(r.0, r.1[i]));
                let j = choose|j: int|
                    0 <= j < r.0.len() && (#[trigger] r.0[j]).1 == tails[i].1 && r.0[j].0 <= tails[i].0
                        <= tails[i].1;
                assert(words[j] == r.0[j]);
            } else {
                assert(tails[i] == s.1[i - r.1.len()]);
                assert(ends_word(s.0, s.1[i - r.1.len()]));
                let j = choose|j: int|
                    0 <= j < s.0.len() && (#[trigger] s.0[j]).1 == tails[i].1 && s.0[j].0 <= tails[i].0
                        <= tails[i].1;
                assert(words[r.0.len() + j] == s.0[j]);
            }
        }
        if chunks_short(chunks) {
            lemma_tails_join(r.0, r.1, s.0, s.1, mid);
        }
        assert forall|i: int| 0 <= i < list.len() implies #[trigger] list[i] == words[i].2 by {
            if i < before.len() {
                assert(list[i] == before[i]);
                assert(words[i] == r.0[i]);
            } else {
                assert(words[i] == s.0[i - r.0.len()]);
            }
        }
        (words, tails)
    }
}

/// Tails of words behind those before them keep apart.
proof fn lemma_tails_join(
    words: Seq<(u32, u32, u32)>,
    tails: Seq<(u32, u32, u32)>,
    words2: Seq<(u32, u32, u32)>,
    tails2: Seq<(u32, u32, u32)>,
    mid: int,
)
    requires
        tails_later(words, tails),
        tails_later(words2, tails2),
        forall|i: int| 0 <= i < words.len() ==> (#[trigger] words[i]).1 < mid,
        forall|i: int| 0 <= i < tails2.len() ==> mid <= (#[trigger] tails2[i]).1,
    ensures
        tails_later(words + words2, tails + tails2),
{
    let w = words + words2;
    let s = tails + tails2;
    assert forall|i: int| 0 <= i < s.len() implies ends_word_later(w, #[trigger] s[i]) by {
        if i < tails.len() {
            assert(s[i] == tails[i]);
            assert(ends_word_later(words, tails[i]));
            let j = choose|j: int| 0 <= j < words.len() && (#[trigger] words[j]).1 == s[i].1 && words[j].0 < s[i].0;
            assert(w[j] == words[j]);
        } else {
            assert(s[i] == tails2[i - tails.len()]);
            assert(ends_word_later(words2, tails2[i - tails.len()]));
            let j = choose|j: int|
                0 <= j < words2.len() && (#[trigger] words2[j]).1 == s[i].1 && words2[j].0 < s[i].0;
            assert(w[words.len() + j] == words2[j]);
        }
    }
    assert forall|i: int, j: int| 0 <= i < j < s.len() implies (#[trigger] s[i]).1 < (#[trigger] s[j]).1 by {
        if j < tails.len() {
            assert(s[i] == tails[i] && s[j] == tails[j]);
        } else if i >= tails.len() {
            assert(s[i] == tails2[i - tails.len()] && s[j] == tails2[j - tails.len()]);
        } else {
            assert(s[i] == tails[i] && s[j] == tails2[j - tails.len()]);
            assert(ends_word_later(words, tails[i]));
        }
    }
}

/// A word takes no token away.
pub proof fn lemma_word_texts(c: Collected, chunks: Seq<Chunk>, tokens: Seq<u32>, overlap: int, a: int, b: int)
    ensures
        c.texts.len() <= collector_v3::word_step(c, chunks, tokens, overlap, a, b).0.texts.len(),
{
}

/// Whether the tokens stand one behind the other among the value's chunks.
pub open spec fn chunk_pair(s: Trace, i: int, a: u32, b: u32) -> bool {
    0 <= i && i + 1 < s.chunks.len() && s.chunks[i] == a && s.chunks[i + 1] == b
}

/// Whether the tokens are those of words one behind the other.
pub open spec fn word_pair(s: Trace, i: int, a: u32, b: u32) -> bool {
    0 <= i && i + 1 < s.words.len() && s.words[i].2 == a && s.words[i + 1].2 == b
}

/// Whether the value links the tokens.
pub open spec fn links_in(s: Trace, a: u32, b: u32) -> bool {
    ||| exists|i: int| #[trigger] chunk_pair(s, i, a, b)
    ||| exists|i: int| #[trigger] word_pair(s, i, a, b)
}

/// Whether some value has the token at the position.
pub open spec fn stands(t: Seq<Trace>, token: u32, d: int, p: int) -> bool {
    exists|v: int| #[trigger] held(t, v, d, p, token)
}

/// Whether some value links the tokens.
pub open spec fn linked_somewhere(t: Seq<Trace>, a: u32, b: u32) -> bool {
    exists|v: int| 0 <= v < t.len() && links_in(#[trigger] t[v], a, b)
}

/// Whether a word or a tail of a value is posted here.
pub open spec fn posted_in(s: Trace, token: u32, q: (u32, u32, u32, u32, u32, u16)) -> bool {
    s.doc == q.0 && (s.words.contains((q.1, q.2, token)) || s.tails.contains((q.1, q.2, token)))
}

/// Whether a word or a tail of some value is posted here.
pub open spec fn posted_somewhere(t: Seq<Trace>, token: u32, q: (u32, u32, u32, u32, u32, u16)) -> bool {
    exists|v: int| 0 <= v < t.len() && posted_in(#[trigger] t[v], token, q)
}

/// Whether a value's tokens are chunks and words as it says.
pub open spec fn trace_ok(c: Collected, s: Trace) -> bool {
    &&& s.ti + s.chunks.len() <= u32::MAX
    &&& placed(s.words, s.tails, s.ti as int, s.ti + s.chunks.len())
    &&& forall|i: int|
        0 <= i < s.chunks.len() ==> (#[trigger] s.chunks[i]) < c.texts.len()
            && !c.metas[s.chunks[i] as int].is_word_stripped
    &&& forall|i: int| 0 <= i < s.words.len() ==> is_word(c, (#[trigger] s.words[i]).2)
    &&& forall|i: int| 0 <= i < s.tails.len() ==> is_word(c, (#[trigger] s.tails[i]).2)
    &&& forall|i: int| 0 <= i < s.words.len() ==> word_posted_at(c, s.doc, #[trigger] s.words[i])
}

/// Whether a value's positions come before a position, one left out.
pub open spec fn comes_before(s: Trace, doc: u32, ti: int) -> bool {
    s.doc < doc || (s.doc == doc && s.ti + s.chunks.len() < ti)
}

/// Whether what was collected is what these values left.
pub open spec fn traced(c: Collected, t: Seq<Trace>) -> bool {
    &&& sound(c)
    &&& all_shaped(c)
    &&& forall|v: int| 0 <= v < t.len() ==> trace_ok(c, #[trigger] t[v])
    &&& forall|v: int| 0 <= v < t.len() ==> comes_before(#[trigger] t[v], c.doc, c.ti as int)
    &&& forall|v: int, w: int|
        0 <= v < w < t.len() ==> comes_before(#[trigger] t[v], (#[trigger] t[w]).doc, t[w].ti as int)
    &&& forall|k: u32, a: u32, p: u32|
        k < c.texts.len() ==> (#[trigger] has_place(c, k, a, p) <==> stands(t, k, a as int, p as int))
    &&& forall|k: u32, q: (u32, u32, u32, u32, u32, u16)| #[trigger]
        has_posting(c, k, q) ==> posted_somewhere(t, k, q)
    &&& forall|a: u32, b: u32| #[trigger]
        c.pairs.contains((a, b)) <==> linked_somewhere(t, a, b)
}

proof fn lemma_links(tokens: Seq<u32>, pairs: Seq<(u32, u32)>, a: u32, b: u32)
    requires
        tokens.len() > 1,
    ensures
        (pairs + collector_v3::links(tokens, tokens.len() as int)).contains((a, b)) <==> pairs.contains((a, b))
            || exists|i: int|
            0 <= i && i + 1 < tokens.len() && #[trigger] tokens[i] == a && tokens[i + 1] == b,
{
    let more = collector_v3::links(tokens, tokens.len() as int);
    let all = pairs + more;
    if all.contains((a, b)) {
        let k = choose|k: int| 0 <= k < all.len() && all[k] == (a, b);
        if k >= pairs.len() {
            let i = k - pairs.len();
            assert(more[i] == (a, b));
            assert(tokens[i] == a && tokens[i + 1] == b);
        } else {
            assert(pairs[k] == (a, b));
        }
    }
    if pairs.contains((a, b)) {
        let k = choose|k: int| 0 <= k < pairs.len() && pairs[k] == (a, b);
        assert(all[k] == (a, b));
    }
    if exists|i: int| 0 <= i && i + 1 < tokens.len() && #[trigger] tokens[i] == a && tokens[i + 1] == b {
        let i = choose|i: int| 0 <= i && i + 1 < tokens.len() && #[trigger] tokens[i] == a && tokens[i + 1] == b;
        assert(more[i] == (a, b));
        assert(all[pairs.len() + i] == (a, b));
    }
}

proof fn lemma_linked(c: Collected, tokens: Seq<u32>, a: u32, b: u32)
    ensures
        c.linked(tokens).pairs.contains((a, b)) <==> c.pairs.contains((a, b)) || exists|i: int|
            0 <= i && i + 1 < tokens.len() && #[trigger] tokens[i] == a && tokens[i + 1] == b,
{
    if tokens.len() > 1 {
        lemma_links(tokens, c.pairs, a, b);
    }
}

proof fn lemma_trace_ok_stays(c: Collected, d: Collected, s: Trace)
    requires
        sound(c),
        extends(c, d),
        trace_ok(c, s),
        forall|t: u32, q: (u32, u32, u32, u32, u32, u16)|
            has_posting(c, t, q) ==> #[trigger] has_posting(d, t, q),
    ensures
        trace_ok(d, s),
{
    assert forall|i: int| 0 <= i < s.chunks.len() implies (#[trigger] s.chunks[i]) < d.texts.len()
        && !d.metas[s.chunks[i] as int].is_word_stripped by {
        assert(d.metas[s.chunks[i] as int] == c.metas[s.chunks[i] as int]);
    }
    assert forall|i: int| 0 <= i < s.words.len() implies is_word(d, (#[trigger] s.words[i]).2) by {
        lemma_is_word_stays(c, d, s.words[i].2);
    }
    assert forall|i: int| 0 <= i < s.tails.len() implies is_word(d, (#[trigger] s.tails[i]).2) by {
        lemma_is_word_stays(c, d, s.tails[i].2);
    }
    assert forall|i: int| 0 <= i < s.words.len() implies word_posted_at(d, s.doc, #[trigger] s.words[i]) by {
        let w = s.words[i];
        assert(word_posted_at(c, s.doc, w));
        let q = choose|q: (u32, u32, u32, u32, u32, u16)| #[trigger]
            has_posting(c, w.2, q) && q.0 == s.doc && q.1 == w.0 && q.2 == w.1 && q.5 == 0;
        assert(has_posting(d, w.2, q));
    }
}

/// What follows a value of the traces before it.
spec fn grown_by(c: Collected, d: Collected, s: Trace) -> bool {
    &&& sound(d)
    &&& all_shaped(d)
    &&& c.texts.is_prefix_of(d.texts)
    &&& c.metas.is_prefix_of(d.metas)
    &&& c.words.is_prefix_of(d.words)
    &&& d.doc == c.doc
    &&& d.ti == c.ti + s.chunks.len() + 1
    &&& s.doc == c.doc
    &&& s.ti == c.ti
    &&& trace_ok(d, s)
    &&& forall|t: u32, q: (u32, u32, u32, u32, u32, u16)|
        has_posting(c, t, q) ==> #[trigger] has_posting(d, t, q)
    &&& forall|t: u32, q: (u32, u32, u32, u32, u32, u16)| #[trigger]
        has_posting(d, t, q) ==> has_posting(c, t, q) || posted_in(s, t, q)
    &&& forall|t: u32, a: u32, p: u32|
        t < d.texts.len() ==> (#[trigger] has_place(d, t, a, p) <==> (t < c.texts.len() && has_place(
            c,
            t,
            a,
            p,
        )) || (a == s.doc && s.ti <= p < s.ti + s.chunks.len() && s.chunks[p - s.ti] == t))
    &&& forall|a: u32, b: u32| #[trigger]
        d.pairs.contains((a, b)) <==> c.pairs.contains((a, b)) || links_in(s, a, b)
}

/// What a value leaves.
#[verifier::spinoff_prover]
#[verifier::rlimit(40)]
proof fn lemma_value_leaves(c: Collected, chunks: Seq<Chunk>, overlap: int) -> (s: Trace)
    requires
        sound(c),
        all_shaped(c),
        chunks.len() > 0,
        c.ti + chunks.len() < u32::MAX,
        forall|i: int| 0 <= i < chunks.len() ==> collector_v3::chunk_ok(#[trigger] chunks[i]),
        collector_v3::after_value(c, chunks, overlap, true).texts.len() <= u32::MAX,
    ensures
        grown_by(c, collector_v3::after_value(c, chunks, overlap, true), s),
        s.chunks.len() == chunks.len(),
        chunks_short(chunks) ==> tails_later(s.words, s.tails),
{
    let n = chunks.len() as int;
    let (d, tokens) = collector_v3::after_chunks(c, chunks, overlap, n);
    let e = d.linked(tokens);
    let ranges = collector_v3::word_ranges(chunks, n);
    let (f, list) = collector_v3::after_words(e, chunks, tokens, overlap, ranges, ranges.len() as int);
    let g = f.linked(list);
    let h = collector_v3::after_value(c, chunks, overlap, true);
    lemma_words_texts(e, chunks, tokens, overlap, ranges, ranges.len() as int);
    assert(h.texts == f.texts);
    lemma_chunks_leave(c, chunks, overlap, n);
    assert(e.texts == d.texts && e.metas == d.metas && e.postings == d.postings);
    lemma_ranges_apart(chunks, n);
    let r = lemma_words_leave(e, chunks, tokens, overlap, ranges, ranges.len() as int);
    let s = Trace { doc: c.doc, ti: c.ti, chunks: tokens, words: r.0, tails: r.1 };
    assert(extends(e, f));
    assert(h.words == f.words && h.metas == f.metas && h.postings == f.postings && h.word_postings
        == f.word_postings && h.pairs == g.pairs);
    assert forall|t: u32| #[trigger] h.has_word(t) == f.has_word(t) by {
        lemma_same_word(f, h, t);
    }
    assert(placed(s.words, s.tails, s.ti as int, s.ti + s.chunks.len()));
    assert forall|i: int| 0 <= i < s.chunks.len() implies (#[trigger] s.chunks[i]) < h.texts.len()
        && !h.metas[s.chunks[i] as int].is_word_stripped by {
        assert(f.metas[tokens[i] as int] == e.metas[tokens[i] as int]);
    }
    assert forall|i: int| 0 <= i < s.words.len() implies is_word(h, (#[trigger] s.words[i]).2) by {
        assert(is_word(f, r.0[i].2));
    }
    assert forall|i: int| 0 <= i < s.tails.len() implies is_word(h, (#[trigger] s.tails[i]).2) by {
        assert(is_word(f, r.1[i].2));
    }
    assert forall|t: u32, q: (u32, u32, u32, u32, u32, u16)| #[trigger] has_posting(h, t, q) == has_posting(
        f,
        t,
        q,
    ) by {
    }
    assert forall|i: int| 0 <= i < s.words.len() implies word_posted_at(h, s.doc, #[trigger] s.words[i]) by {
        let w = s.words[i];
        assert(word_posted_at(f, c.doc, w));
        let q = choose|q: (u32, u32, u32, u32, u32, u16)| #[trigger]
            has_posting(f, w.2, q) && q.0 == c.doc && q.1 == w.0 && q.2 == w.1 && q.5 == 0;
        assert(has_posting(h, w.2, q));
    }
    assert(trace_ok(h, s));
    assert forall|t: u32, q: (u32, u32, u32, u32, u32, u16)| has_posting(c, t, q) implies #[trigger] has_posting(
        h,
        t,
        q,
    ) by {
        assert(has_posting(e, t, q));
        assert(has_posting(f, t, q));
    }
    assert forall|t: u32, q: (u32, u32, u32, u32, u32, u16)| #[trigger] has_posting(h, t, q) implies has_posting(
        c,
        t,
        q,
    ) || posted_in(s, t, q) by {
        assert(has_posting(f, t, q));
        if has_posting(e, t, q) {
            assert(has_posting(c, t, q));
        }
    }
    assert forall|t: u32, a: u32, p: u32| t < h.texts.len() implies (#[trigger] has_place(h, t, a, p)
        <==> (t < c.texts.len() && has_place(c, t, a, p)) || (a == s.doc && s.ti <= p < s.ti
        + s.chunks.len() && s.chunks[p - s.ti] == t)) by {
        assert(has_place(h, t, a, p) == has_place(f, t, a, p));
        if t < e.texts.len() {
            assert(has_place(e, t, a, p) == has_place(d, t, a, p));
        } else if s.ti <= p < s.ti + s.chunks.len() {
            assert(tokens[p - c.ti] < d.texts.len());
        }
    }
    assert forall|a: u32, b: u32| #[trigger] h.pairs.contains((a, b)) <==> c.pairs.contains((a, b))
        || links_in(s, a, b) by {
        lemma_linked(d, tokens, a, b);
        lemma_linked(f, list, a, b);
        lemma_chunk_links_in(s, a, b);
        lemma_word_links_in(s, list, a, b);
    }
    s
}

proof fn lemma_same_word(c: Collected, d: Collected, t: u32)
    requires
        c.words == d.words,
    ensures
        c.has_word(t) == d.has_word(t),
{
    if c.has_word(t) {
        lemma_has_word_stays(c, d, t);
    }
    if d.has_word(t) {
        lemma_has_word_stays(d, c, t);
    }
}

proof fn lemma_chunk_links_in(s: Trace, a: u32, b: u32)
    ensures
        (exists|i: int| #[trigger] chunk_pair(s, i, a, b)) <==> exists|i: int|
            0 <= i && i + 1 < s.chunks.len() && #[trigger] s.chunks[i] == a && s.chunks[i + 1] == b,
{
    if exists|i: int| 0 <= i && i + 1 < s.chunks.len() && #[trigger] s.chunks[i] == a && s.chunks[i + 1] == b {
        let i = choose|i: int|
            0 <= i && i + 1 < s.chunks.len() && #[trigger] s.chunks[i] == a && s.chunks[i + 1] == b;
        assert(chunk_pair(s, i, a, b));
    }
    if exists|i: int| #[trigger] chunk_pair(s, i, a, b) {
        let i = choose|i: int| #[trigger] chunk_pair(s, i, a, b);
        assert(s.chunks[i] == a);
    }
}

proof fn lemma_word_links_in(s: Trace, list: Seq<u32>, a: u32, b: u32)
    requires
        list.len() == s.words.len(),
        forall|i: int| 0 <= i < list.len() ==> #[trigger] list[i] == s.words[i].2,
    ensures
        (exists|i: int| #[trigger] word_pair(s, i, a, b)) <==> exists|i: int|
            0 <= i && i + 1 < list.len() && #[trigger] list[i] == a && list[i + 1] == b,
{
    if exists|i: int| 0 <= i && i + 1 < list.len() && #[trigger] list[i] == a && list[i + 1] == b {
        let i = choose|i: int| 0 <= i && i + 1 < list.len() && #[trigger] list[i] == a && list[i + 1] == b;
        assert(word_pair(s, i, a, b));
    }
    if exists|i: int| #[trigger] word_pair(s, i, a, b) {
        let i = choose|i: int| #[trigger] word_pair(s, i, a, b);
        assert(list[i] == a && list[i + 1] == b);
    }
}

pub proof fn lemma_words_texts(
    c: Collected,
    chunks: Seq<Chunk>,
    tokens: Seq<u32>,
    overlap: int,
    ranges: Seq<(int, int)>,
    k: int,
)
    ensures
        c.texts.len() <= collector_v3::after_words(c, chunks, tokens, overlap, ranges, k).0.texts.len(),
    decreases k,
{
    if k > 0 {
        lemma_words_texts(c, chunks, tokens, overlap, ranges, k - 1);
        let b = collector_v3::after_words(c, chunks, tokens, overlap, ranges, k - 1).0;
        lemma_word_texts(b, chunks, tokens, overlap, ranges[k - 1].0, ranges[k - 1].1);
    }
}

proof fn lemma_traced_grows(c: Collected, d: Collected, t: Seq<Trace>, s: Trace)
    requires
        traced(c, t),
        grown_by(c, d, s),
    ensures
        traced(d, t.push(s)),
{
    let u = t.push(s);
    assert forall|v: int| 0 <= v < u.len() implies trace_ok(d, #[trigger] u[v]) by {
        if v < t.len() {
            assert(u[v] == t[v]);
            lemma_trace_ok_moves(c, d, t[v]);
        }
    }
    assert forall|v: int| 0 <= v < u.len() implies comes_before(#[trigger] u[v], d.doc, d.ti as int) by {
        if v < t.len() {
            assert(u[v] == t[v]);
            assert(comes_before(t[v], c.doc, c.ti as int));
        }
    }
    assert forall|v: int, w: int| 0 <= v < w < u.len() implies comes_before(
        #[trigger] u[v],
        (#[trigger] u[w]).doc,
        u[w].ti as int,
    ) by {
        assert(u[v] == t[v]);
        if w < t.len() {
            assert(u[w] == t[w]);
        } else {
            assert(comes_before(t[v], c.doc, c.ti as int));
        }
    }
    assert forall|k: u32, a: u32, p: u32| k < d.texts.len() implies (#[trigger] has_place(d, k, a, p)
        <==> stands(u, k, a as int, p as int)) by {
        let here = a == s.doc && s.ti <= p < s.ti + s.chunks.len() && s.chunks[p - s.ti] == k;
        if here {
            assert(u[t.len() as int] == s);
            assert(held(u, t.len() as int, a as int, p as int, k));
        }
        if k < c.texts.len() && has_place(c, k, a, p) {
            assert(stands(t, k, a as int, p as int));
            let v = choose|v: int| #[trigger] held(t, v, a as int, p as int, k);
            assert(u[v] == t[v]);
            assert(held(u, v, a as int, p as int, k));
        }
        if stands(u, k, a as int, p as int) {
            let v = choose|v: int| #[trigger] held(u, v, a as int, p as int, k);
            if v < t.len() {
                assert(u[v] == t[v]);
                assert(held(t, v, a as int, p as int, k));
                assert(trace_ok(c, t[v]));
                assert(t[v].chunks[p - t[v].ti] == k);
                assert(stands(t, k, a as int, p as int));
                assert(has_place(c, k, a, p));
            }
        }
    }
    assert forall|k: u32, q: (u32, u32, u32, u32, u32, u16)| #[trigger] has_posting(d, k, q) implies posted_somewhere(
        u,
        k,
        q,
    ) by {
        if has_posting(c, k, q) {
            assert(posted_somewhere(t, k, q));
            let v = choose|v: int| 0 <= v < t.len() && posted_in(#[trigger] t[v], k, q);
            assert(u[v] == t[v]);
        } else {
            assert(u[t.len() as int] == s);
        }
    }
    assert forall|a: u32, b: u32| #[trigger] d.pairs.contains((a, b)) <==> linked_somewhere(u, a, b) by {
        if c.pairs.contains((a, b)) {
            assert(linked_somewhere(t, a, b));
            let v = choose|v: int| 0 <= v < t.len() && links_in(#[trigger] t[v], a, b);
            assert(u[v] == t[v]);
        }
        if links_in(s, a, b) {
            assert(u[t.len() as int] == s);
        }
        if linked_somewhere(u, a, b) {
            let v = choose|v: int| 0 <= v < u.len() && links_in(#[trigger] u[v], a, b);
            if v < t.len() {
                assert(u[v] == t[v]);
                assert(linked_somewhere(t, a, b));
            }
        }
    }
}

proof fn lemma_trace_ok_moves(c: Collected, d: Collected, s: Trace)
    requires
        sound(c),
        c.texts.is_prefix_of(d.texts),
        c.metas.is_prefix_of(d.metas),
        c.words.is_prefix_of(d.words),
        trace_ok(c, s),
        forall|t: u32, q: (u32, u32, u32, u32, u32, u16)|
            has_posting(c, t, q) ==> #[trigger] has_posting(d, t, q),
    ensures
        trace_ok(d, s),
{
    let e = Collected { doc: c.doc, ti: c.ti, ..d };
    assert forall|t: u32, q: (u32, u32, u32, u32, u32, u16)| has_posting(c, t, q) implies #[trigger] has_posting(
        e,
        t,
        q,
    ) by {
        assert(has_posting(d, t, q));
    }
    lemma_trace_ok_stays(c, e, s);
    lemma_trace_ok_same(e, d, s);
}

proof fn lemma_trace_ok_same(c: Collected, d: Collected, s: Trace)
    requires
        trace_ok(c, s),
        c.texts == d.texts,
        c.metas == d.metas,
        c.words == d.words,
        c.word_postings == d.word_postings,
    ensures
        trace_ok(d, s),
{
    assert forall|i: int| 0 <= i < s.words.len() implies is_word(d, (#[trigger] s.words[i]).2) by {
        assert(is_word(c, s.words[i].2));
        lemma_same_word(c, d, s.words[i].2);
    }
    assert forall|i: int| 0 <= i < s.tails.len() implies is_word(d, (#[trigger] s.tails[i]).2) by {
        assert(is_word(c, s.tails[i].2));
        lemma_same_word(c, d, s.tails[i].2);
    }
    assert forall|i: int| 0 <= i < s.words.len() implies word_posted_at(d, s.doc, #[trigger] s.words[i]) by {
        let w = s.words[i];
        assert(word_posted_at(c, s.doc, w));
        let q = choose|q: (u32, u32, u32, u32, u32, u16)| #[trigger]
            has_posting(c, w.2, q) && q.0 == s.doc && q.1 == w.0 && q.2 == w.1 && q.5 == 0;
        assert(has_posting(d, w.2, q));
    }
}

proof fn lemma_same_place(c: Collected, d: Collected, k: u32, a: u32, p: u32)
    requires
        c.postings == d.postings,
    ensures
        has_place(c, k, a, p) == has_place(d, k, a, p),
{
    if has_place(c, k, a, p) {
        let i = choose|i: int|
            0 <= i < c.postings[k as int].len() && (#[trigger] c.postings[k as int][i]).0 == a
                && c.postings[k as int][i].1 == p;
        assert(d.postings[k as int][i].0 == a);
    }
    if has_place(d, k, a, p) {
        let i = choose|i: int|
            0 <= i < d.postings[k as int].len() && (#[trigger] d.postings[k as int][i]).0 == a
                && d.postings[k as int][i].1 == p;
        assert(c.postings[k as int][i].0 == a);
    }
}

/// Another document or position changes nothing of the values before it.
pub proof fn lemma_traced_moves(c: Collected, d: Collected, t: Seq<Trace>)
    requires
        traced(c, t),
        d == (Collected { doc: d.doc, ti: d.ti, ..c }),
        forall|v: int| 0 <= v < t.len() ==> comes_before(#[trigger] t[v], d.doc, d.ti as int),
    ensures
        traced(d, t),
{
    assert forall|v: int| 0 <= v < t.len() implies trace_ok(d, #[trigger] t[v]) by {
        lemma_trace_ok_same(c, d, t[v]);
    }
    assert forall|k: u32, a: u32, p: u32| k < d.texts.len() implies (#[trigger] has_place(d, k, a, p)
        <==> stands(t, k, a as int, p as int)) by {
        lemma_same_place(c, d, k, a, p);
    }
    assert forall|k: u32, q: (u32, u32, u32, u32, u32, u16)| #[trigger] has_posting(d, k, q) implies posted_somewhere(
        t,
        k,
        q,
    ) by {
        assert(has_posting(c, k, q));
    }
}

/// Whether the tails of every value start later than their words.
pub open spec fn all_tails_later(t: Seq<Trace>) -> bool {
    forall|v: int| 0 <= v < t.len() ==> tails_later((#[trigger] t[v]).words, t[v].tails)
}

/// The values of a document leave their traces.
pub proof fn lemma_values_traced(
    c: Collected,
    t: Seq<Trace>,
    values: Seq<Seq<Chunk>>,
    overlap: int,
    k: int,
) -> (u: Seq<Trace>)
    requires
        traced(c, t),
        0 <= k <= values.len(),
        values_fit(c, values, overlap),
        forall|i: int| 0 <= i < values.len() ==> collector_v3::value_ok(#[trigger] values[i]),
        after_values(c, values, overlap, k).texts.len() <= u32::MAX,
    ensures
        traced(after_values(c, values, overlap, k), u),
        after_values(c, values, overlap, k).doc == c.doc,
        all_tails_later(t) && (forall|i: int| 0 <= i < values.len() ==> chunks_short(#[trigger] values[i]))
            ==> all_tails_later(u),
    decreases k,
{
    if k <= 0 {
        t
    } else {
        let b = after_values(c, values, overlap, k - 1);
        let d = after_values(c, values, overlap, k);
        let chunks = values[k - 1];
        lemma_value_texts(b, chunks, overlap);
        let before = lemma_values_traced(c, t, values, overlap, k - 1);
        assert(b.ti + chunks.len() < u32::MAX);
        assert(collector_v3::value_ok(chunks));
        if chunks.len() == 0 {
            lemma_traced_moves(b, d, before);
            before
        } else {
            let s = lemma_value_leaves(b, chunks, overlap);
            lemma_traced_grows(b, d, before, s);
            before.push(s)
        }
    }
}

pub proof fn lemma_value_texts(c: Collected, chunks: Seq<Chunk>, overlap: int)
    ensures
        c.texts.len() <= collector_v3::after_value(c, chunks, overlap, true).texts.len(),
{
    let n = chunks.len() as int;
    let (d, tokens) = collector_v3::after_chunks(c, chunks, overlap, n);
    lemma_chunk_texts(c, chunks, overlap, n);
    let ranges = collector_v3::word_ranges(chunks, n);
    lemma_words_texts(d.linked(tokens), chunks, tokens, overlap, ranges, ranges.len() as int);
}

proof fn lemma_chunk_texts(c: Collected, chunks: Seq<Chunk>, overlap: int, k: int)
    ensures
        c.texts.len() <= collector_v3::after_chunks(c, chunks, overlap, k).0.texts.len(),
    decreases k,
{
    if k > 0 {
        lemma_chunk_texts(c, chunks, overlap, k - 1);
    }
}

proof fn lemma_values_texts(c: Collected, values: Seq<Seq<Chunk>>, overlap: int, k: int)
    ensures
        c.texts.len() <= after_values(c, values, overlap, k).texts.len(),
    decreases k,
{
    if k > 0 {
        lemma_values_texts(c, values, overlap, k - 1);
        lemma_value_texts(after_values(c, values, overlap, k - 1), values[k - 1], overlap);
    }
}

pub proof fn lemma_docs_texts(docs: Seq<Seq<Seq<Chunk>>>, overlap: int, k: int, n: int)
    requires
        k <= n,
    ensures
        after_docs(docs, overlap, k).texts.len() <= after_docs(docs, overlap, n).texts.len(),
    decreases n,
{
    if k < n && n > 0 {
        lemma_docs_texts(docs, overlap, k, n - 1);
        let c = after_docs(docs, overlap, n - 1);
        lemma_values_texts(Collected { ti: 0, ..c }, docs[n - 1], overlap, docs[n - 1].len() as int);
    }
}

/// Whether no chunk of the documents is longer than the suffixes that are
/// indexed.
pub open spec fn docs_short(docs: Seq<Seq<Seq<Chunk>>>) -> bool {
    forall|i: int, j: int|
        0 <= i < docs.len() && 0 <= j < docs[i].len() ==> chunks_short(#[trigger] docs[i][j])
}

/// The values of documents leave their traces, all before the next document.
pub proof fn lemma_docs_traced(docs: Seq<Seq<Seq<Chunk>>>, overlap: int, k: int) -> (t: Seq<Trace>)
    requires
        0 <= k <= docs.len(),
        docs_fit(docs, overlap),
        forall|i: int, j: int|
            0 <= i < docs.len() && 0 <= j < docs[i].len() ==> collector_v3::value_ok(#[trigger] docs[i][j]),
    ensures
        traced(after_docs(docs, overlap, k), t),
        after_docs(docs, overlap, k).doc == k,
        forall|v: int| 0 <= v < t.len() ==> (#[trigger] t[v]).doc < k,
        docs_short(docs) ==> all_tails_later(t),
    decreases k,
{
    if k <= 0 {
        let c = collector_v3::nothing_collected();
        let t = Seq::<Trace>::empty();
        assert(traced(c, t));
        t
    } else {
        let c = after_docs(docs, overlap, k - 1);
        let d = after_docs(docs, overlap, k);
        let values = docs[k - 1];
        let b = Collected { ti: 0, ..c };
        let e = after_values(b, values, overlap, values.len() as int);
        lemma_docs_texts(docs, overlap, k - 1, docs.len() as int);
        lemma_docs_texts(docs, overlap, k, docs.len() as int);
        let before = lemma_docs_traced(docs, overlap, k - 1);
        lemma_traced_moves(c, b, before);
        assert(values_fit(Collected { ti: 0, ..after_docs(docs, overlap, k - 1) }, docs[k - 1], overlap));
        assert forall|i: int| 0 <= i < values.len() implies collector_v3::value_ok(#[trigger] values[i]) by {
            assert(values[i] == docs[k - 1][i]);
        }
        let t = lemma_values_traced(b, before, values, overlap, values.len() as int);
        if docs_short(docs) {
            assert forall|i: int| 0 <= i < values.len() implies chunks_short(#[trigger] values[i]) by {
                assert(values[i] == docs[k - 1][i]);
            }
        }
        assert forall|v: int| 0 <= v < t.len() implies (#[trigger] t[v]).doc < k by {
            assert(comes_before(t[v], e.doc, e.ti as int));
        }
        lemma_traced_moves(e, d, t);
        t
    }
}

} // verus!
