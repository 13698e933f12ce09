//! Giving collected tokens the ids of a dictionary.

use vstd::prelude::*;
use vstd::string::*;
use vstd::utf8::*;

use crate::collector_spans;
use crate::collector_trace;
use crate::collector_v3;
use crate::collector_v3::{Chunk, Collected, DEFAULT_MAX_TOKEN, MAX_SUFFIX_INDEX, SfxCollectorV3, TokenMetaV3, WordEntry};
use crate::dictionary;
use crate::dictionary::SfxDictionary;
use crate::dictionary_bloom;
use crate::dictionary_lookup;
use crate::dictionary_lookup::ParentEntryV3;
use crate::intern_key;
use crate::intern_key::intern_key;
use crate::text;

verus! {

/// Whether a token's own text ends between characters.
pub open spec fn text_splits(text: Seq<u8>, m: TokenMetaV3) -> bool {
    is_char_boundary(
        text,
        dictionary_lookup::own_end(text, m.is_word_stripped, m.own_len, m.overlap_len),
    )
}

/// Whether the own texts of all tokens end between characters.
pub open spec fn all_split(c: Collected) -> bool {
    forall|i: int| 0 <= i < c.texts.len() ==> text_splits(#[trigger] c.texts[i], c.metas[i])
}

/// How many texts the last epoch of the pending ones holds.
pub open spec fn pending_now<'a>(d: SfxDictionary<'a>) -> int {
    if d.shared.epochs().len() > 0 {
        d.shared.epochs().last().keys.len() as int
    } else {
        0
    }
}

/// Whether these are hashes of the token's key: with the field, and alone.
pub open spec fn hashed(token: Seq<char>, m: TokenMetaV3, field_id: u32, h: u64, f: u64) -> bool {
    let key = intern_key::key_text(token, m.is_word_stripped, m.own_len, m.sep_len, m.is_word_start);
    dictionary::field_hash_of(field_id, key, h) && dictionary_bloom::hash_of(encode_utf8(key), f)
}

/// Whether looking the token up in the dictionary `before` gave this id, and
/// left the dictionary `after`.
pub open spec fn id_given<'a, W: Fn(Vec<u8>, Vec<u8>) -> Vec<Vec<ParentEntryV3>>>(
    before: SfxDictionary<'a>,
    after: SfxDictionary<'a>,
    field_id: u32,
    token: Seq<u8>,
    m: TokenMetaV3,
    walk: W,
    r: (u64, bool),
) -> bool {
    exists|t: Seq<char>, h: u64, f: u64|
        encode_utf8(t) == token && hashed(t, m, field_id, h, f) && #[trigger] dictionary::mint_outcome(
            before,
            after,
            field_id,
            intern_key::key_text(t, m.is_word_stripped, m.own_len, m.sep_len, m.is_word_start),
            h,
            f,
            t,
            m,
            walk,
            r,
        )
}

/// Whether the tokens from `from` on were given these ids one after the other,
/// the dictionary going through these states.
pub open spec fn ids_given<'a, W: Fn(Vec<u8>, Vec<u8>) -> Vec<Vec<ParentEntryV3>>>(
    c: Collected,
    from: int,
    states: Seq<SfxDictionary<'a>>,
    field_id: u32,
    walk: W,
    ids: Seq<u64>,
    fresh: Seq<bool>,
) -> bool {
    &&& states.len() == ids.len() - from + 1
    &&& fresh.len() == ids.len()
    &&& forall|i: int|
        from <= i < ids.len() ==> id_given(
            states[i - from],
            states[i - from + 1],
            field_id,
            c.texts[i],
            c.metas[i],
            walk,
            (#[trigger] ids[i], fresh[i]),
        )
}

/// Looks up the first token that has no id, if there is one.
fn next_id<'a, W: Fn(Vec<u8>, Vec<u8>) -> Vec<Vec<ParentEntryV3>>>(
    collector: &SfxCollectorV3,
    dictionary: &mut SfxDictionary<'a>,
    field_id: u32,
    walk: &W,
) -> (r: Option<(u64, bool)>)
    requires
        collector.wf(),
        old(dictionary).wf(),
        all_split(collector.collected()),
        collector.ids().len() < collector.collected().texts.len() ==> dictionary::counter(
            old(dictionary).shared.next(),
            field_id,
        ) <= u32::MAX && pending_now(*old(dictionary)) < u32::MAX,
        forall|k: Vec<u8>, o: Vec<u8>| #[trigger] call_requires(*walk, (k, o)),
    ensures
        final(dictionary).wf(),
        final(dictionary).meta == old(dictionary).meta,
        final(dictionary).fields == old(dictionary).fields,
        r is None <==> collector.ids().len() == collector.collected().texts.len(),
        r is None ==> *final(dictionary) == *old(dictionary),
        r matches Some(x) ==> {
            let i = collector.ids().len() as int;
            &&& i < collector.collected().texts.len()
            &&& id_given(
                *old(dictionary),
                *final(dictionary),
                field_id,
                collector.collected().texts[i],
                collector.collected().metas[i],
                *walk,
                x,
            )
            &&& dictionary::counter(final(dictionary).shared.next(), field_id) <= dictionary::counter(
                old(dictionary).shared.next(),
                field_id,
            ) + 1
            &&& pending_now(*final(dictionary)) <= pending_now(*old(dictionary)) + 1
        },
{
    proof {
        collector.ids_are_of_tokens();
    }
    match collector.token_without_id() {
        None => None,
        Some((token, meta)) => {
            let ghost i = collector.ids().len() as int;
            assert(text_splits(collector.collected().texts[i], collector.collected().metas[i]));
            let key = intern_key::intern_key(
                token,
                meta.is_word_stripped,
                meta.own_len,
                meta.sep_len,
                meta.is_word_start,
            );
            let ghost before = *dictionary;
            let x = dictionary.lookup_or_mint(field_id, key.as_str(), token, &meta, walk);
            proof {
                let (h, f) = choose|h: u64, f: u64|
                    dictionary::field_hash_of(field_id, key@, h) && dictionary_bloom::hash_of(
                        encode_utf8(key@),
                        f,
                    ) && #[trigger] dictionary::mint_outcome(
                        before,
                        *dictionary,
                        field_id,
                        key@,
                        h,
                        f,
                        token@,
                        meta,
                        *walk,
                        x,
                    );
                assert(dictionary::mint_outcome(
                    before,
                    *dictionary,
                    field_id,
                    intern_key::key_text(
                        token@,
                        meta.is_word_stripped,
                        meta.own_len,
                        meta.sep_len,
                        meta.is_word_start,
                    ),
                    h,
                    f,
                    token@,
                    meta,
                    *walk,
                    x,
                ));
                dictionary::ids_are_counted_up(before.shared.next(), field_id, field_id);
            }
            Some(x)
        },
    }
}

/// Gives every token that has no id one of the dictionary, in the order in
/// which they were collected. `walk` gives for a key and an overlap the parents
/// that each part of the dictionary has.
pub fn assign_ids<'a, W: Fn(Vec<u8>, Vec<u8>) -> Vec<Vec<ParentEntryV3>>>(
    collector: &mut SfxCollectorV3,
    dictionary: &mut SfxDictionary<'a>,
    field_id: u32,
    walk: &W,
)
    requires
        old(collector).wf(),
        old(dictionary).wf(),
        all_split(old(collector).collected()),
        dictionary::counter(old(dictionary).shared.next(), field_id) + old(collector).collected().texts.len()
            <= u32::MAX,
        pending_now(*old(dictionary)) + old(collector).collected().texts.len() <= u32::MAX,
        forall|k: Vec<u8>, o: Vec<u8>| #[trigger] call_requires(*walk, (k, o)),
    ensures
        final(collector).wf(),
        final(collector).collected() == old(collector).collected(),
        final(collector).ids().len() == old(collector).collected().texts.len(),
        old(collector).ids().is_prefix_of(final(collector).ids()),
        old(collector).fresh().is_prefix_of(final(collector).fresh()),
        final(collector).borrowed() == old(collector).borrowed(),
        final(collector).keeps_positions() == old(collector).keeps_positions(),
        final(collector).by_dictionary() == old(collector).by_dictionary(),
        final(collector).in_doc() == old(collector).in_doc(),
        final(collector).shortest_suffix() == old(collector).shortest_suffix(),
        final(collector).longest_chunk() == old(collector).longest_chunk(),
        final(dictionary).wf(),
        final(dictionary).meta == old(dictionary).meta,
        final(dictionary).fields == old(dictionary).fields,
        exists|states: Seq<SfxDictionary<'a>>|
            {
                &&& #[trigger] ids_given(
                    old(collector).collected(),
                    old(collector).ids().len() as int,
                    states,
                    field_id,
                    *walk,
                    final(collector).ids(),
                    final(collector).fresh(),
                )
                &&& states.first() == *old(dictionary)
                &&& states.last() == *final(dictionary)
            },
{
    let ghost c = collector.collected();
    let ghost from = collector.ids().len() as int;
    let ghost first_id = dictionary::counter(dictionary.shared.next(), field_id) as int;
    let ghost first_pending = pending_now(*dictionary);
    let ghost mut states: Seq<SfxDictionary<'a>> = seq![*dictionary];
    proof {
        collector.ids_are_of_tokens();
    }
    loop
        invariant
            c == old(collector).collected(),
            from == old(collector).ids().len(),
            from <= c.texts.len(),
            all_split(c),
            collector.wf(),
            collector.collected() == c,
            from <= collector.ids().len() <= c.texts.len(),
            old(collector).ids().is_prefix_of(collector.ids()),
            old(collector).fresh().is_prefix_of(collector.fresh()),
            collector.borrowed() == old(collector).borrowed(),
            collector.keeps_positions() == old(collector).keeps_positions(),
            collector.by_dictionary() == old(collector).by_dictionary(),
            collector.in_doc() == old(collector).in_doc(),
            collector.shortest_suffix() == old(collector).shortest_suffix(),
            collector.longest_chunk() == old(collector).longest_chunk(),
            dictionary.wf(),
            dictionary.meta == old(dictionary).meta,
            dictionary.fields == old(dictionary).fields,
            first_id + c.texts.len() <= u32::MAX,
            first_pending + c.texts.len() <= u32::MAX,
            dictionary::counter(dictionary.shared.next(), field_id) <= first_id + collector.ids().len() - from,
            pending_now(*dictionary) <= first_pending + collector.ids().len() - from,
            forall|k: Vec<u8>, o: Vec<u8>| #[trigger] call_requires(*walk, (k, o)),
            ids_given(c, from, states, field_id, *walk, collector.ids(), collector.fresh()),
            states.first() == *old(dictionary),
            states.last() == *dictionary,
        ensures
            collector.ids().len() == c.texts.len(),
        decreases c.texts.len() - collector.ids().len(),
    {
        let ghost ids = collector.ids();
        let ghost fresh = collector.fresh();
        let ghost before = states;
        match next_id(collector, dictionary, field_id, walk) {
            None => {
                break;
            },
            Some((id, minted)) => {
                collector.assign_id(id, minted);
                proof {
                    states = before.push(*dictionary);
                    assert forall|i: int| from <= i < ids.len() + 1 implies id_given(
                        states[i - from],
                        states[i - from + 1],
                        field_id,
                        c.texts[i],
                        c.metas[i],
                        *walk,
                        (#[trigger] collector.ids()[i], collector.fresh()[i]),
                    ) by {
                        if i < ids.len() {
                            assert(collector.ids()[i] == ids[i]);
                            assert(states[i - from] == before[i - from]);
                            assert(states[i - from + 1] == before[i - from + 1]);
                        } else {
                            assert(states[i - from] == before.last());
                        }
                    }
                }
            },
        }
    }
}

proof fn lemma_boundary_between(a: Seq<u8>, b: Seq<u8>)
    requires
        valid_utf8(a),
        valid_utf8(b),
    ensures
        valid_utf8(a + b),
        is_char_boundary(a + b, a.len() as int),
    decreases a.len(),
{
    valid_utf8_concat(a, b);
    if a.len() > 0 {
        let rest = pop_first_scalar(a);
        lemma_boundary_between(rest, b);
        assert((a + b)[0] == a[0]);
        assert(length_of_first_scalar(a + b) == length_of_first_scalar(a));
        assert(pop_first_scalar(a + b) =~= rest + b);
    }
}

/// A new token whose own text ends between characters leaves all so.
proof fn lemma_interned_splits(c: Collected, text: Seq<u8>, m: TokenMetaV3)
    requires
        c.metas.len() == c.texts.len(),
        all_split(c),
        text_splits(text, m),
    ensures
        all_split(c.interned(text, m).0),
        c.interned(text, m).0.metas.len() == c.interned(text, m).0.texts.len(),
{
}

/// What starts a text, as far as characters fit, is a text.
proof fn lemma_head_valid(b: Seq<u8>, n: int)
    requires
        valid_utf8(b),
        n >= 0,
    ensures
        valid_utf8(text::head_within(b, n)),
        text::head_within(b, n).len() <= n,
{
    let k = if n <= b.len() {
        n
    } else {
        b.len() as int
    };
    text::lemma_floor_boundary(b, k);
    valid_utf8_split(b, text::floor_boundary(b, k));
}

proof fn lemma_chunks_split(c: Collected, chunks: Seq<Chunk>, overlap: int, k: int)
    requires
        c.metas.len() == c.texts.len(),
        all_split(c),
        collector_v3::value_ok(chunks),
        0 <= overlap,
        0 <= k <= chunks.len(),
    ensures
        all_split(collector_v3::after_chunks(c, chunks, overlap, k).0),
        collector_v3::after_chunks(c, chunks, overlap, k).0.metas.len() == collector_v3::after_chunks(
            c,
            chunks,
            overlap,
            k,
        ).0.texts.len(),
    decreases k,
{
    if k > 0 {
        lemma_chunks_split(c, chunks, overlap, k - 1);
        let b = collector_v3::after_chunks(c, chunks, overlap, k - 1).0;
        let i = k - 1;
        let own = collector_v3::chunk_bytes(chunks[i]);
        let over = collector_v3::chunk_overlap(chunks, i, overlap);
        let m = collector_v3::chunk_shape(chunks[i], over.len() as int);
        assert(collector_v3::chunk_ok(chunks[i]));
        encode_utf8_valid_utf8(chunks[i].text@);
        if i + 1 < chunks.len() {
            encode_utf8_valid_utf8(chunks[i + 1].text@);
            lemma_head_valid(collector_v3::chunk_bytes(chunks[i + 1]), overlap);
        }
        lemma_boundary_between(own, over);
        assert(text_splits(own + over, m));
        lemma_interned_splits(b, own + over, m);
        let (e, token) = b.interned(own + over, m);
        let d = collector_v3::after_chunks(c, chunks, overlap, k).0;
        assert(d.texts == e.texts && d.metas == e.metas);
    }
}

/// The first bytes of the next content are a text, at most as many as asked.
proof fn lemma_word_overlap(chunks: Seq<Chunk>, end: int, overlap: int)
    requires
        collector_v3::value_ok(chunks),
        0 <= end,
        0 <= overlap,
    ensures
        valid_utf8(collector_v3::word_overlap(chunks, end, overlap)),
        collector_v3::word_overlap(chunks, end, overlap).len() <= overlap,
{
    lemma_next_content(chunks, end);
    match collector_v3::next_content(chunks, end) {
        Some(i) => {
            encode_utf8_valid_utf8(chunks[i].text@);
            let n = if overlap <= chunks[i].meta.content_len {
                overlap
            } else {
                chunks[i].meta.content_len as int
            };
            lemma_head_valid(collector_v3::chunk_bytes(chunks[i]), n);
        },
        None => {},
    }
}

proof fn lemma_next_content(chunks: Seq<Chunk>, i: int)
    requires
        0 <= i,
    ensures
        collector_v3::next_content(chunks, i) matches Some(k) ==> i <= k < chunks.len(),
    decreases chunks.len() - i,
{
    if i < chunks.len() && chunks[i].meta.content_len == 0 {
        lemma_next_content(chunks, i + 1);
    }
}

proof fn lemma_word_splits(
    c: Collected,
    chunks: Seq<Chunk>,
    tokens: Seq<u32>,
    overlap: int,
    a: int,
    b: int,
)
    requires
        c.metas.len() == c.texts.len(),
        all_split(c),
        collector_v3::value_ok(chunks),
        0 <= overlap <= u8::MAX,
        0 <= a < b <= chunks.len(),
    ensures
        all_split(collector_v3::word_step(c, chunks, tokens, overlap, a, b).0),
        collector_v3::word_step(c, chunks, tokens, overlap, a, b).0.metas.len()
            == collector_v3::word_step(c, chunks, tokens, overlap, a, b).0.texts.len(),
{
    let content = collector_v3::content_of(chunks, a, b);
    let over = collector_v3::word_overlap(chunks, b, overlap);
    let first = chunks[a].meta;
    let last = chunks[b - 1].meta;
    let own_len = collector_v3::word_own_len(content.len() as int, last.sep_len as int);
    let d = collector_v3::word_step(c, chunks, tokens, overlap, a, b).0;
    if content.len() > 0 {
        let m = TokenMetaV3 {
            own_len,
            sep_len: last.sep_len as u8,
            overlap_len: over.len() as u8,
            is_word_start: first.is_word_start,
            word_id: first.word_id,
            is_word_stripped: true,
        };
        collector_spans::lemma_content_valid(chunks, a, b);
        lemma_word_overlap(chunks, b, overlap);
        lemma_boundary_between(content, over);
        assert(text_splits(content + over, m));
        lemma_interned_splits(c, content + over, m);
        let (x, token) = c.interned(content + over, m);
        if content.len() > MAX_SUFFIX_INDEX + DEFAULT_MAX_TOKEN {
            let e = WordEntry {
                content,
                overlap: over,
                token,
                first_chunk: tokens[a],
                last_chunk: tokens[b - 1],
                own_len,
                sep_len: last.sep_len as u8,
                is_word_start: first.is_word_start,
                num_chunks: (b - a) as u32,
            };
            let y = x.worded(e).word_posted(
                token,
                (
                    c.doc,
                    (c.ti + a) as u32,
                    (c.ti + b - 1) as u32,
                    collector_v3::offset_of(chunks, a) as u32,
                    (collector_v3::offset_of(chunks, a) + content.len()) as u32,
                    0u16,
                ),
            );
            assert(y.texts == x.texts && y.metas == x.metas);
            let ts = text::ceil_boundary(content, content.len() - DEFAULT_MAX_TOKEN);
            let tail = content.subrange(ts, content.len() as int);
            let m2 = TokenMetaV3 {
                own_len: (tail.len() + last.sep_len) as u16,
                sep_len: last.sep_len as u8,
                overlap_len: over.len() as u8,
                is_word_start: false,
                word_id: last.word_id,
                is_word_stripped: true,
            };
            text::lemma_ceil_boundary(content, content.len() - DEFAULT_MAX_TOKEN);
            valid_utf8_split(content, ts);
            lemma_boundary_between(tail, over);
            assert(text_splits(tail + over, m2));
            lemma_interned_splits(y, tail + over, m2);
            let z = y.interned(tail + over, m2).0;
            assert(d.texts == z.texts && d.metas == z.metas);
        } else {
            assert(d.texts == x.texts && d.metas == x.metas);
        }
    }
}

proof fn lemma_words_split(
    c: Collected,
    chunks: Seq<Chunk>,
    tokens: Seq<u32>,
    overlap: int,
    ranges: Seq<(int, int)>,
    k: int,
)
    requires
        c.metas.len() == c.texts.len(),
        all_split(c),
        collector_v3::value_ok(chunks),
        0 <= overlap <= u8::MAX,
        0 <= k <= ranges.len(),
        collector_trace::apart(ranges, chunks.len() as int),
    ensures
        all_split(collector_v3::after_words(c, chunks, tokens, overlap, ranges, k).0),
        collector_v3::after_words(c, chunks, tokens, overlap, ranges, k).0.metas.len()
            == collector_v3::after_words(c, chunks, tokens, overlap, ranges, k).0.texts.len(),
    decreases k,
{
    if k > 0 {
        lemma_words_split(c, chunks, tokens, overlap, ranges, k - 1);
        let b = collector_v3::after_words(c, chunks, tokens, overlap, ranges, k - 1).0;
        lemma_word_splits(b, chunks, tokens, overlap, ranges[k - 1].0, ranges[k - 1].1);
    }
}

/// Law: where the own texts of all tokens end between characters, they still
/// do after a value, if at most 255 bytes are borrowed from the next token.
pub proof fn a_value_leaves_texts_whole(c: Collected, chunks: Seq<Chunk>, overlap: int, positions: bool)
    requires
        c.metas.len() == c.texts.len(),
        all_split(c),
        collector_v3::value_ok(chunks),
        0 <= overlap <= u8::MAX,
    ensures
        all_split(collector_v3::after_value(c, chunks, overlap, positions)),
{
    let n = chunks.len() as int;
    let h = collector_v3::after_value(c, chunks, overlap, positions);
    if n > 0 {
        let (d, tokens) = collector_v3::after_chunks(c, chunks, overlap, n);
        lemma_chunks_split(c, chunks, overlap, n);
        let e = if positions {
            d.linked(tokens)
        } else {
            d
        };
        assert(e.texts == d.texts && e.metas == d.metas);
        let ranges = collector_v3::word_ranges(chunks, n);
        collector_trace::lemma_ranges_apart(chunks, n);
        lemma_words_split(e, chunks, tokens, overlap, ranges, ranges.len() as int);
        let f = collector_v3::after_words(e, chunks, tokens, overlap, ranges, ranges.len() as int).0;
        assert(h.texts == f.texts && h.metas == f.metas);
    }
}

/// A lookup gives the next id exactly if the token is new, and counts it up
/// then.
proof fn lemma_counted<'a, W: Fn(Vec<u8>, Vec<u8>) -> Vec<Vec<ParentEntryV3>>>(
    before: SfxDictionary<'a>,
    after: SfxDictionary<'a>,
    field_id: u32,
    token: Seq<u8>,
    m: TokenMetaV3,
    walk: W,
    r: (u64, bool),
)
    requires
        id_given(before, after, field_id, token, m, walk, r),
        dictionary::counter(before.shared.next(), field_id) < u64::MAX,
    ensures
        r.1 ==> r.0 == dictionary::counter(before.shared.next(), field_id),
        dictionary::counter(after.shared.next(), field_id) == dictionary::counter(
            before.shared.next(),
            field_id,
        ) + (if r.1 {
            1int
        } else {
            0int
        }),
{
    dictionary::ids_are_counted_up(before.shared.next(), field_id, field_id);
}

proof fn lemma_counters_grow<'a, W: Fn(Vec<u8>, Vec<u8>) -> Vec<Vec<ParentEntryV3>>>(
    c: Collected,
    from: int,
    states: Seq<SfxDictionary<'a>>,
    field_id: u32,
    walk: W,
    ids: Seq<u64>,
    fresh: Seq<bool>,
    i: int,
    j: int,
)
    requires
        ids_given(c, from, states, field_id, walk, ids, fresh),
        from <= i <= j <= ids.len(),
        dictionary::counter(states[i - from].shared.next(), field_id) + (j - i) < u64::MAX,
    ensures
        dictionary::counter(states[i - from].shared.next(), field_id) <= dictionary::counter(
            states[j - from].shared.next(),
            field_id,
        ) <= dictionary::counter(states[i - from].shared.next(), field_id) + (j - i),
    decreases j - i,
{
    if i < j {
        lemma_counters_grow(c, from, states, field_id, walk, ids, fresh, i, j - 1);
        let k = j - 1;
        assert(id_given(
            states[k - from],
            states[k - from + 1],
            field_id,
            c.texts[k],
            c.metas[k],
            walk,
            (ids[k], fresh[k]),
        ));
        lemma_counted(
            states[k - from],
            states[k - from + 1],
            field_id,
            c.texts[k],
            c.metas[k],
            walk,
            (ids[k], fresh[k]),
        );
    }
}

/// Law: of the tokens that get ids one after the other, those that are new get
/// different ids, in ascending order, none below the first free one.
pub proof fn new_tokens_get_new_ids<'a, W: Fn(Vec<u8>, Vec<u8>) -> Vec<Vec<ParentEntryV3>>>(
    c: Collected,
    from: int,
    states: Seq<SfxDictionary<'a>>,
    field_id: u32,
    walk: W,
    ids: Seq<u64>,
    fresh: Seq<bool>,
    i: int,
    j: int,
)
    requires
        ids_given(c, from, states, field_id, walk, ids, fresh),
        0 <= from <= i < j < ids.len(),
        fresh[i],
        fresh[j],
        dictionary::counter(states.first().shared.next(), field_id) + ids.len() < u64::MAX,
    ensures
        dictionary::counter(states.first().shared.next(), field_id) <= ids[i] < ids[j],
{
    lemma_counters_grow(c, from, states, field_id, walk, ids, fresh, from, i);
    lemma_counters_grow(c, from, states, field_id, walk, ids, fresh, from, i + 1);
    lemma_counters_grow(c, from, states, field_id, walk, ids, fresh, i + 1, j);
    assert(id_given(
        states[i - from],
        states[i - from + 1],
        field_id,
        c.texts[i],
        c.metas[i],
        walk,
        (ids[i], fresh[i]),
    ));
    lemma_counted(
        states[i - from],
        states[i - from + 1],
        field_id,
        c.texts[i],
        c.metas[i],
        walk,
        (ids[i], fresh[i]),
    );
    assert(id_given(
        states[j - from],
        states[j - from + 1],
        field_id,
        c.texts[j],
        c.metas[j],
        walk,
        (ids[j], fresh[j]),
    ));
    lemma_counted(
        states[j - from],
        states[j - from + 1],
        field_id,
        c.texts[j],
        c.metas[j],
        walk,
        (ids[j], fresh[j]),
    );
}

} // verus!
