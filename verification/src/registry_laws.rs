//! What the indexes that are built and merged together hold.

use vstd::prelude::*;
use vstd::utf8::*;

use crate::bytes;
use crate::collector_v3;
use crate::index_registry;
use crate::sepmap;
use crate::sibling_index;
use crate::termtexts;
use crate::text;

verus! {

/// Law: the own part of a token is its start up to its own length, and where
/// that splits a character on to the end of the character and no further; all
/// of it where no length is given.
pub proof fn an_own_part_ends_with_its_last_character(token: Seq<u8>, own_len: Option<u16>)
    requires
        valid_utf8(token),
    ensures
        ({
            let own = index_registry::own_text(token, own_len);
            &&& own.is_prefix_of(token)
            &&& is_char_boundary(token, own.len() as int)
            &&& own_len is None ==> own == token
            &&& own_len matches Some(n) ==> {
                &&& n <= token.len() ==> n <= own.len()
                &&& n >= token.len() ==> own == token
                &&& forall|k: int| n <= k < own.len() ==> !#[trigger] is_char_boundary(token, k)
            }
        }),
{
    let own = index_registry::own_text(token, own_len);
    is_char_boundary_start_end_of_seq(token);
    match own_len {
        Some(n) => {
            let m = if n <= token.len() {
                n as int
            } else {
                token.len() as int
            };
            text::lemma_ceil_boundary(token, m);
            text::an_end_is_the_longest_that_fits(token, token.len() - m);
            let at = text::ceil_boundary(token, m);
            assert(own.len() == at);
            assert(own =~= token.subrange(0, own.len() as int));
            let rest = token.subrange(at, token.len() as int);
            assert(token.len() - (token.len() - m) == m);
            assert(token.len() - rest.len() == at);
            assert forall|k: int| n <= k < own.len() implies !#[trigger] is_char_boundary(token, k) by {
                assert(token.len() - (token.len() - m) <= k < token.len() - rest.len());
            }
            if n >= token.len() {
                assert(own =~= token);
            }
        },
        None => {
            assert(token =~= token.subrange(0, token.len() as int));
        },
    }
}

/// Law: each token's own part goes by the length given for it; a token without
/// one is its own part whole.
pub proof fn own_parts_go_by_their_own_lengths(tokens: Seq<String>, lens: Seq<u16>, i: int)
    requires
        0 <= i < tokens.len(),
        encode_utf8(tokens[i]@).len() <= u16::MAX,
    ensures
        index_registry::own_texts(tokens, Some(lens)).len() == tokens.len(),
        i < lens.len() ==> index_registry::own_texts(tokens, Some(lens))[i] == index_registry::own_text(
            encode_utf8(tokens[i]@),
            Some(lens[i]),
        ),
        i >= lens.len() ==> index_registry::own_texts(tokens, Some(lens))[i] == encode_utf8(tokens[i]@),
        index_registry::own_texts(tokens, None)[i] == encode_utf8(tokens[i]@),
{
    let b = encode_utf8(tokens[i]@);
    encode_utf8_valid_utf8(tokens[i]@);
    an_own_part_ends_with_its_last_character(b, Some(b.len() as u16));
}

/// Whether the source's ordinal is the first that has this text.
pub open spec fn is_text_at(texts: Option<Vec<u8>>, text: Seq<u8>, ordinal: u32) -> bool {
    &&& texts matches Some(t) && termtexts::opens(t@)
    &&& ordinal < bytes::get32((texts->0)@, 4)
    &&& termtexts::text_in((texts->0)@, ordinal) matches Some(t) && encode_utf8(t) == text
    &&& forall|i: u32|
        i < ordinal ==> !((#[trigger] termtexts::text_in((texts->0)@, i)) matches Some(t) && encode_utf8(t)
            == text)
}

/// Whether a source marks the byte behind the text: for the ordinal that has
/// it, in separators that open.
pub open spec fn source_marks_it(
    seps: Option<Vec<u8>>,
    texts: Option<Vec<u8>>,
    text: Seq<u8>,
    ordinal: u32,
    x: u8,
) -> bool {
    &&& is_text_at(texts, text, ordinal)
    &&& seps matches Some(s) && (sepmap::opens(s@) && (sepmap::bitmap_in(s@, ordinal) matches Some(bm)
        && sepmap::marked(bm, x)))
}

proof fn lemma_renamings(t: Seq<u8>, tokens: Seq<Seq<u8>>, n: int)
    requires
        0 <= n <= u32::MAX,
    ensures
        ({
            let r = index_registry::renamings(t, tokens, n);
            &&& forall|i: int|
                0 <= i < r.len() ==> (#[trigger] r[i]).0 < n && sibling_index::renamed(t, tokens, r[i].0) == Some(
                    r[i].1,
                )
            &&& forall|j: u32|
                j < n ==> ((#[trigger] sibling_index::renamed(t, tokens, j)) matches Some(o) ==> r.contains((j, o)))
            &&& forall|i: int, k: int| 0 <= i < k < r.len() ==> (#[trigger] r[i]).0 < (#[trigger] r[k]).0
        }),
    decreases n,
{
    if n > 0 {
        lemma_renamings(t, tokens, n - 1);
        let before = index_registry::renamings(t, tokens, n - 1);
        let r = index_registry::renamings(t, tokens, n);
        assert forall|j: u32| j < n implies ((#[trigger] sibling_index::renamed(t, tokens, j)) matches Some(o)
            ==> r.contains((j, o))) by {
            if let Some(o) = sibling_index::renamed(t, tokens, j) {
                if j < n - 1 {
                    assert(before.contains((j, o)));
                    let i = choose|i: int| 0 <= i < before.len() && before[i] == (j, o);
                    assert(r[i] == (j, o));
                } else {
                    assert(r[r.len() - 1] == (j, o));
                }
            }
        }
    }
}

proof fn lemma_renamed(t: Seq<u8>, tokens: Seq<Seq<u8>>, o: u32, j: u32)
    requires
        tokens.no_duplicates(),
        tokens.len() <= u32::MAX,
        o < tokens.len(),
    ensures
        sibling_index::renamed(t, tokens, j) == Some(o) <==> (termtexts::text_in(t, j) matches Some(x)
            && encode_utf8(x) == tokens[o as int]),
{
    if let Some(x) = termtexts::text_in(t, j) {
        let b = encode_utf8(x);
        if tokens.contains(b) {
            let i = tokens.index_of(b);
            assert(0 <= i < tokens.len() && tokens[i] == b);
        }
        if b == tokens[o as int] {
            assert(tokens.contains(b));
        }
    }
}

proof fn lemma_source_gives(
    v: Option<&[u8]>,
    seps: Option<Vec<u8>>,
    texts: Option<Vec<u8>>,
    tokens: Seq<Seq<u8>>,
    map: Seq<(u32, u32)>,
    o: u32,
    x: u8,
)
    requires
        tokens.no_duplicates(),
        tokens.len() <= u32::MAX,
        o < tokens.len(),
        map == index_registry::source_renamings(texts, tokens),
        match seps {
            Some(s) => v matches Some(b) && b@ == s@,
            None => v is None,
        },
    ensures
        (exists|i: int| #[trigger] sepmap::gives_mark(v, map, i, o, x)) <==> exists|j: u32| #[trigger]
            source_marks_it(seps, texts, tokens[o as int], j, x),
{
    if texts matches Some(t) && termtexts::opens(t@) {
        let t = texts->0;
        let n = bytes::get32(t@, 4) as int;
        lemma_renamings(t@, tokens, n);
        if exists|i: int| #[trigger] sepmap::gives_mark(v, map, i, o, x) {
            let i = choose|i: int| #[trigger] sepmap::gives_mark(v, map, i, o, x);
            let j = map[i].0;
            lemma_renamed(t@, tokens, o, j);
            assert forall|k: u32| k < j implies !((#[trigger] termtexts::text_in(t@, k)) matches Some(y)
                && encode_utf8(y) == tokens[o as int]) by {
                lemma_renamed(t@, tokens, o, k);
                if sibling_index::renamed(t@, tokens, k) == Some(o) {
                    assert(map.contains((k, o)));
                    let l = choose|l: int| 0 <= l < map.len() && map[l] == (k, o);
                    if l < i {
                        assert(map[l].1 != o);
                    } else if i < l {
                        assert(map[i].0 < map[l].0);
                    }
                }
            }
            assert(source_marks_it(seps, texts, tokens[o as int], j, x));
        }
        if exists|j: u32| #[trigger] source_marks_it(seps, texts, tokens[o as int], j, x) {
            let j = choose|j: u32| #[trigger] source_marks_it(seps, texts, tokens[o as int], j, x);
            lemma_renamed(t@, tokens, o, j);
            assert(map.contains((j, o)));
            let i = choose|i: int| 0 <= i < map.len() && map[i] == (j, o);
            assert forall|l: int| 0 <= l < i implies (#[trigger] map[l]).1 != o by {
                assert(map[l].0 < map[i].0);
                lemma_renamed(t@, tokens, o, map[l].0);
                assert(!(termtexts::text_in(t@, map[l].0) matches Some(y) && encode_utf8(y) == tokens[o as int]));
            }
            assert(sepmap::gives_mark(v, map, i, o, x));
        }
    } else {
        assert(map.len() == 0);
    }
}

/// Law: merged separators mark a byte behind a token exactly if some source,
/// the first or a later one, marks it behind the token of the same text.
pub proof fn merged_separators_go_by_text(
    sources: Seq<Option<Vec<u8>>>,
    texts: Seq<Option<Vec<u8>>>,
    tokens: Seq<Seq<u8>>,
    file: Seq<u8>,
    o: u32,
    x: u8,
)
    requires
        tokens.no_duplicates(),
        tokens.len() < u32::MAX,
        sources.len() == texts.len(),
        o < tokens.len(),
        index_registry::merged_seps(sources, texts, tokens, file),
    ensures
        sepmap::opens(file),
        sepmap::bitmap_in(file, o) matches Some(bm) && (sepmap::marked(bm, x) <==> exists|k: int, j: u32|
            0 <= k < sources.len() && #[trigger] source_marks_it(
                sources[k],
                texts[k],
                tokens[o as int],
                j,
                x,
            )),
{
    let terms = index_registry::first_ordinals(tokens.len());
    let (v, maps) = choose|v: Seq<Option<&[u8]>>, maps: Seq<Vec<(u32, u32)>>| #[trigger]
        index_registry::lent(v, sources) && collector_v3::contents(maps) == Seq::new(
            texts.len(),
            |k: int| index_registry::source_renamings(texts[k], tokens),
        ) && file == sepmap::sepmap_bytes(
            #[trigger] sepmap::merged_maps(v, maps, terms, tokens.len() as int),
        );
    let all = sepmap::merged_maps(v, maps, terms, terms.len() as int);
    assert(terms[o as int] == o);
    assert(terms.contains(o));
    sepmap::lemma_merged_len(v, maps, terms, terms.len() as int);
    sepmap::a_merge_reads_back(v, maps, terms, o, x);
    assert(collector_v3::contents(maps).len() == texts.len());
    if exists|s: int, i: int| 0 <= s < v.len() && #[trigger] sepmap::gives_mark(v[s], maps[s]@, i, o, x) {
        let (s, i) = choose|s: int, i: int|
            0 <= s < v.len() && #[trigger] sepmap::gives_mark(v[s], maps[s]@, i, o, x);
        assert(collector_v3::contents(maps)[s] == maps[s]@);
        lemma_source_gives(v[s], sources[s], texts[s], tokens, maps[s]@, o, x);
        let j = choose|j: u32| #[trigger] source_marks_it(sources[s], texts[s], tokens[o as int], j, x);
        assert(0 <= s < sources.len() && source_marks_it(sources[s], texts[s], tokens[o as int], j, x));
    }
    if exists|k: int, j: u32|
        0 <= k < sources.len() && #[trigger] source_marks_it(sources[k], texts[k], tokens[o as int], j, x) {
        let (k, j) = choose|k: int, j: u32|
            0 <= k < sources.len() && #[trigger] source_marks_it(sources[k], texts[k], tokens[o as int], j, x);
        assert(collector_v3::contents(maps)[k] == maps[k]@);
        assert(v[k] == v[k]);
        lemma_source_gives(v[k], sources[k], texts[k], tokens, maps[k]@, o, x);
        let i = choose|i: int| #[trigger] sepmap::gives_mark(v[k], maps[k]@, i, o, x);
        assert(0 <= k < v.len() && sepmap::gives_mark(v[k], maps[k]@, i, o, x));
    }
}

} // verus!
