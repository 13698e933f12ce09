//! The words of tokens that are given with their word numbers.

use vstd::prelude::*;
use vstd::string::*;
use vstd::utf8::*;

use crate::collector_v3;
use crate::collector_v3::{TokenMetaV3, WordEntry, WordStrippedEntry};
use crate::order;
use crate::order::{Ordered, sort, without_repeats};
use crate::text;
use crate::text::{push_text, str_copy, str_head, str_len, str_upto};

verus! {

/// The word numbers of the tokens.
pub open spec fn ids_of(metas: Seq<TokenMetaV3>) -> Seq<usize> {
    Seq::new(metas.len(), |i: int| metas[i].word_id)
}

/// The numbers of the words, in order, each once.
pub open spec fn word_order(metas: Seq<TokenMetaV3>) -> Seq<usize> {
    order::dedup(order::sorted(ids_of(metas)))
}

/// Which of the first `n` tokens belong to the word.
pub open spec fn members(metas: Seq<TokenMetaV3>, id: usize, n: int) -> Seq<usize>
    decreases n,
{
    if n <= 0 {
        Seq::empty()
    } else if metas[n - 1].word_id == id {
        members(metas, id, n - 1).push((n - 1) as usize)
    } else {
        members(metas, id, n - 1)
    }
}

/// Bytes of a token's content.
pub open spec fn content_len(m: TokenMetaV3) -> int {
    m.own_len - m.sep_len
}

/// Where a token's content ends.
pub open spec fn content_end(text: Seq<u8>, m: TokenMetaV3) -> int {
    if content_len(m) <= text.len() {
        content_len(m)
    } else {
        text.len() as int
    }
}

/// The content of tokens, one behind the other.
pub open spec fn joined_content(
    texts: Seq<Seq<u8>>,
    metas: Seq<TokenMetaV3>,
    tokens: Seq<usize>,
) -> Seq<u8>
    decreases tokens.len(),
{
    if tokens.len() == 0 {
        Seq::empty()
    } else {
        let i = tokens.last() as int;
        joined_content(texts, metas, tokens.drop_last()) + texts[i].subrange(
            0,
            content_end(texts[i], metas[i]),
        )
    }
}

/// The first of the tokens from `k` on that has content.
pub open spec fn first_with_content(metas: Seq<TokenMetaV3>, tokens: Seq<usize>, k: int) -> Option<
    usize,
>
    decreases tokens.len() - k,
{
    if k >= tokens.len() {
        None
    } else if content_len(metas[tokens[k] as int]) > 0 {
        Some(tokens[k])
    } else {
        first_with_content(metas, tokens, k + 1)
    }
}

/// The first token with content of the words from the `w`th on.
pub open spec fn next_with_content(metas: Seq<TokenMetaV3>, ids: Seq<usize>, w: int) -> Option<usize>
    decreases ids.len() - w,
{
    if w >= ids.len() {
        None
    } else {
        match first_with_content(metas, members(metas, ids[w], metas.len() as int), 0) {
            Some(t) => Some(t),
            None => next_with_content(metas, ids, w + 1),
        }
    }
}

/// What a word borrows: the first bytes of the token's content, and nothing
/// where its first character does not fit.
pub open spec fn borrowed_from(
    texts: Seq<Seq<u8>>,
    metas: Seq<TokenMetaV3>,
    token: Option<usize>,
    overlap: int,
) -> Seq<u8> {
    match token {
        Some(t) => text::head_within(
            texts[t as int],
            if overlap <= content_len(metas[t as int]) {
                overlap
            } else {
                content_len(metas[t as int])
            },
        ),
        None => Seq::empty(),
    }
}

/// The entry of the `w`th word.
pub open spec fn stripped(
    texts: Seq<Seq<u8>>,
    metas: Seq<TokenMetaV3>,
    overlap: int,
    w: int,
) -> WordEntry {
    let ids = word_order(metas);
    let tokens = members(metas, ids[w], metas.len() as int);
    let first = tokens[0];
    let last = tokens.last();
    WordEntry {
        content: joined_content(texts, metas, tokens),
        overlap: borrowed_from(texts, metas, next_with_content(metas, ids, w + 1), overlap),
        token: first as u32,
        first_chunk: first as u32,
        last_chunk: last as u32,
        own_len: metas[first as int].own_len,
        sep_len: metas[last as int].sep_len,
        is_word_start: metas[first as int].is_word_start,
        num_chunks: tokens.len() as u32,
    }
}

/// The entries of the first `k` words that have content.
pub open spec fn stripped_upto(
    texts: Seq<Seq<u8>>,
    metas: Seq<TokenMetaV3>,
    overlap: int,
    k: int,
) -> Seq<WordEntry>
    decreases k,
{
    if k <= 0 {
        Seq::empty()
    } else {
        let e = stripped(texts, metas, overlap, k - 1);
        let before = stripped_upto(texts, metas, overlap, k - 1);
        if e.content.len() == 0 {
            before
        } else {
            before.push(e)
        }
    }
}

/// Whether a token's separators are part of it and its content ends between
/// characters.
pub open spec fn token_ok(text: Seq<u8>, m: TokenMetaV3) -> bool {
    &&& m.own_len >= m.sep_len
    &&& is_char_boundary(text, content_end(text, m))
}

proof fn lemma_members(metas: Seq<TokenMetaV3>, id: usize, n: int)
    requires
        0 <= n <= metas.len(),
        metas.len() <= usize::MAX,
    ensures
        forall|k: int| 0 <= k < members(metas, id, n).len() ==> #[trigger] members(metas, id, n)[k] < n,
        (exists|i: int| 0 <= i < n && (#[trigger] metas[i]).word_id == id) ==> members(
            metas,
            id,
            n,
        ).len() > 0,
        members(metas, id, n).len() <= n,
    decreases n,
{
    if n > 0 {
        lemma_members(metas, id, n - 1);
    }
}

/// Where `x` stands among numbers in order.
fn place_of(ids: &Vec<usize>, x: usize) -> (r: usize)
    requires
        order::is_sorted(ids@),
        ids@.contains(x),
    ensures
        r < ids@.len(),
        ids@[r as int] == x,
{
    let mut lo: usize = 0;
    let mut hi: usize = ids.len();
    while hi - lo > 1
        invariant
            lo < hi <= ids@.len(),
            order::is_sorted(ids@),
            exists|k: int| lo <= k < hi && ids@[k] == x,
        decreases hi - lo,
    {
        let mid: usize = lo + (hi - lo) / 2;
        let ghost k = choose|k: int| lo <= k < hi && ids@[k] == x;
        if ids[mid] <= x {
            assert(k < mid ==> ids@[k].not_after(ids@[mid as int]));
            assert(ids@[mid as int] == x || k >= mid);
            lo = mid;
        } else {
            assert(mid < k ==> ids@[mid as int].not_after(ids@[k]));
            hi = mid;
        }
    }
    lo
}

/// The tokens of each word.
fn group(token_meta: &Vec<TokenMetaV3>, ids: &Vec<usize>) -> (groups: Vec<Vec<usize>>)
    requires
        ids@ == word_order(token_meta@),
    ensures
        groups@.len() == ids@.len(),
        forall|k: int|
            0 <= k < ids@.len() ==> (#[trigger] groups@[k])@ == members(
                token_meta@,
                ids@[k],
                token_meta@.len() as int,
            ),
{
    proof {
        order::lemma_sorted(ids_of(token_meta@));
        order::lemma_sorted_items(ids_of(token_meta@));
        order::lemma_dedup(order::sorted(ids_of(token_meta@)));
    }
    let mut groups: Vec<Vec<usize>> = Vec::new();
    while groups.len() < ids.len()
        invariant
            groups@.len() <= ids@.len(),
            forall|k: int| 0 <= k < groups@.len() ==> (#[trigger] groups@[k])@ == Seq::<usize>::empty(),
        decreases ids@.len() - groups@.len(),
    {
        groups.push(Vec::new());
    }
    let mut i: usize = 0;
    while i < token_meta.len()
        invariant
            i <= token_meta@.len(),
            groups@.len() == ids@.len(),
            order::is_sorted(ids@),
            ids@.no_duplicates(),
            forall|x: usize| #[trigger] ids@.contains(x) <==> ids_of(token_meta@).contains(x),
            forall|k: int|
                0 <= k < ids@.len() ==> (#[trigger] groups@[k])@ == members(
                    token_meta@,
                    ids@[k],
                    i as int,
                ),
        decreases token_meta@.len() - i,
    {
        let id: usize = token_meta[i].word_id;
        assert(ids_of(token_meta@)[i as int] == id);
        assert(ids@.contains(id));
        let g: usize = place_of(ids, id);
        groups[g].push(i);
        proof {
            assert forall|k: int| 0 <= k < ids@.len() implies (#[trigger] groups@[k])@ == members(
                token_meta@,
                ids@[k],
                i + 1,
            ) by {
                if k != g {
                    assert(ids@[k] != id);
                }
            }
        }
        i += 1;
    }
    groups
}

/// The content of tokens, one behind the other.
fn content_of_tokens(
    token_texts: &Vec<String>,
    token_meta: &Vec<TokenMetaV3>,
    tokens: &Vec<usize>,
) -> (content: String)
    requires
        forall|k: int| 0 <= k < tokens@.len() ==> #[trigger] tokens@[k] < token_meta@.len(),
        token_meta@.len() <= token_texts@.len(),
        forall|i: int|
            0 <= i < token_meta@.len() ==> token_ok(
                encode_utf8(token_texts@[i]@),
                #[trigger] token_meta@[i],
            ),
    ensures
        encode_utf8(content@) == joined_content(collector_v3::texts_of(token_texts@), token_meta@, tokens@),
{
    let mut content = String::new();
    let mut k: usize = 0;
    assert(encode_utf8(content@) =~= Seq::empty());
    while k < tokens.len()
        invariant
            k <= tokens@.len(),
            forall|k: int| 0 <= k < tokens@.len() ==> #[trigger] tokens@[k] < token_meta@.len(),
            token_meta@.len() <= token_texts@.len(),
            forall|i: int|
                0 <= i < token_meta@.len() ==> token_ok(
                    encode_utf8(token_texts@[i]@),
                    #[trigger] token_meta@[i],
                ),
            encode_utf8(content@) == joined_content(
                collector_v3::texts_of(token_texts@),
                token_meta@,
                tokens@.take(k as int),
            ),
        decreases tokens@.len() - k,
    {
        let i: usize = tokens[k];
        assert(tokens@[k as int] < token_meta@.len());
        assert(token_ok(encode_utf8(token_texts@[i as int]@), token_meta@[i as int]));
        let text = token_texts[i].as_str();
        let len: usize = (token_meta[i].own_len - token_meta[i].sep_len as u16) as usize;
        let text_len: usize = str_len(text);
        let end: usize = if len <= text_len {
            len
        } else {
            text_len
        };
        let piece = str_upto(text, end);
        proof {
            text::lemma_encode_add(content@, piece@);
            let t = tokens@.take(k + 1);
            assert(t.drop_last() =~= tokens@.take(k as int));
            assert(t.last() == i);
        }
        push_text(&mut content, piece);
        k += 1;
    }
    assert(tokens@.take(k as int) =~= tokens@);
    content
}

/// The first of the tokens that has content.
fn find_with_content(token_meta: &Vec<TokenMetaV3>, tokens: &Vec<usize>) -> (r: Option<usize>)
    requires
        forall|k: int| 0 <= k < tokens@.len() ==> #[trigger] tokens@[k] < token_meta@.len(),
        forall|i: int|
            0 <= i < token_meta@.len() ==> (#[trigger] token_meta@[i]).own_len
                >= token_meta@[i].sep_len,
    ensures
        r == first_with_content(token_meta@, tokens@, 0),
{
    let mut k: usize = 0;
    while k < tokens.len()
        invariant
            k <= tokens@.len(),
            forall|k: int| 0 <= k < tokens@.len() ==> #[trigger] tokens@[k] < token_meta@.len(),
            forall|i: int|
                0 <= i < token_meta@.len() ==> (#[trigger] token_meta@[i]).own_len
                    >= token_meta@[i].sep_len,
            first_with_content(token_meta@, tokens@, 0) == first_with_content(
                token_meta@,
                tokens@,
                k as int,
            ),
        decreases tokens@.len() - k,
    {
        let i: usize = tokens[k];
        assert(tokens@[k as int] < token_meta@.len());
        if token_meta[i].own_len > token_meta[i].sep_len as u16 {
            return Some(i);
        }
        k += 1;
    }
    None
}

/// The words of the tokens: tokens with the same word number are one word, in
/// the order of the numbers.
pub fn build_word_stripped_pub(
    token_texts: &Vec<String>,
    token_meta: &Vec<TokenMetaV3>,
    overlap_size: usize,
) -> (out: Vec<WordStrippedEntry>)
    requires
        token_texts@.len() == 0 || token_meta@.len() <= token_texts@.len(),
        token_texts@.len() > 0 ==> forall|i: int|
            0 <= i < token_meta@.len() ==> token_ok(
                encode_utf8(token_texts@[i]@),
                #[trigger] token_meta@[i],
            ),
    ensures
        collector_v3::entries_of(out@) == if token_texts@.len() == 0 {
            Seq::empty()
        } else {
            stripped_upto(
                collector_v3::texts_of(token_texts@),
                token_meta@,
                overlap_size as int,
                word_order(token_meta@).len() as int,
            )
        },
{
    let mut entries: Vec<WordStrippedEntry> = Vec::new();
    if token_texts.len() == 0 {
        assert(collector_v3::entries_of(entries@) =~= Seq::empty());
        return entries;
    }
    let ghost texts = collector_v3::texts_of(token_texts@);
    let ghost metas = token_meta@;
    let mut all: Vec<usize> = Vec::new();
    let mut i: usize = 0;
    while i < token_meta.len()
        invariant
            i <= token_meta@.len(),
            all@.len() == i,
            forall|k: int| 0 <= k < i ==> #[trigger] all@[k] == token_meta@[k].word_id,
        decreases token_meta@.len() - i,
    {
        all.push(token_meta[i].word_id);
        i += 1;
    }
    assert(all@ =~= ids_of(metas));
    let in_order = sort(&all);
    let ids = without_repeats(&in_order);
    let groups = group(token_meta, &ids);
    proof {
        order::lemma_sorted(ids_of(metas));
        order::lemma_sorted_items(ids_of(metas));
        order::lemma_dedup(order::sorted(ids_of(metas)));
        assert forall|k: int| 0 <= k < ids@.len() implies (#[trigger] groups@[k])@.len() > 0
            && forall|j: int| 0 <= j < groups@[k]@.len() ==> groups@[k]@[j] < metas.len() by {
            assert(ids@.contains(ids@[k]));
            let p = choose|p: int| 0 <= p < ids_of(metas).len() && ids_of(metas)[p] == ids@[k];
            assert(metas[p].word_id == ids@[k]);
            lemma_members(metas, ids@[k], metas.len() as int);
            assert forall|j: int| 0 <= j < groups@[k]@.len() implies groups@[k]@[j] < metas.len() by {
                assert(members(metas, ids@[k], metas.len() as int)[j] < metas.len());
            }
        }
    }
    assert(collector_v3::entries_of(entries@) =~= Seq::empty());
    let mut w: usize = 0;
    while w < ids.len()
        invariant
            w <= ids@.len(),
            ids@ == word_order(metas),
            metas == token_meta@,
            texts == collector_v3::texts_of(token_texts@),
            groups@.len() == ids@.len(),
            token_meta@.len() <= token_texts@.len(),
            forall|i: int|
                0 <= i < token_meta@.len() ==> token_ok(
                    encode_utf8(token_texts@[i]@),
                    #[trigger] token_meta@[i],
                ),
            forall|k: int|
                0 <= k < ids@.len() ==> (#[trigger] groups@[k])@ == members(
                    metas,
                    ids@[k],
                    metas.len() as int,
                ),
            forall|k: int|
                0 <= k < ids@.len() ==> (#[trigger] groups@[k])@.len() > 0 && forall|j: int|
                    0 <= j < groups@[k]@.len() ==> groups@[k]@[j] < metas.len(),
            collector_v3::entries_of(entries@) == stripped_upto(texts, metas, overlap_size as int, w as int),
        decreases ids@.len() - w,
    {
        let tokens = &groups[w];
        let ghost before = collector_v3::entries_of(entries@);
        assert(tokens@ == members(metas, ids@[w as int], metas.len() as int));
        let content = content_of_tokens(token_texts, token_meta, tokens);
        if str_len(content.as_str()) > 0 {
            let mut next: Option<usize> = None;
            let mut v: usize = w + 1;
            while v < ids.len() && next.is_none()
                invariant
                    w < v <= ids@.len(),
                    ids@ == word_order(metas),
                    metas == token_meta@,
                    groups@.len() == ids@.len(),
                    forall|i: int|
                        0 <= i < token_meta@.len() ==> token_ok(
                            encode_utf8(token_texts@[i]@),
                            #[trigger] token_meta@[i],
                        ),
                    forall|k: int|
                        0 <= k < ids@.len() ==> (#[trigger] groups@[k])@ == members(
                            metas,
                            ids@[k],
                            metas.len() as int,
                        ),
                    forall|k: int|
                        0 <= k < ids@.len() ==> (#[trigger] groups@[k])@.len() > 0 && forall|j: int|
                            0 <= j < groups@[k]@.len() ==> groups@[k]@[j] < metas.len(),
                    next is Some ==> next_with_content(metas, ids@, w + 1) == next && next->0
                        < metas.len(),
                    next is None ==> next_with_content(metas, ids@, w + 1) == next_with_content(
                        metas,
                        ids@,
                        v as int,
                    ),
                decreases ids@.len() - v,
            {
                assert(groups@[v as int]@ == members(metas, ids@[v as int], metas.len() as int));
                next = find_with_content(token_meta, &groups[v]);
                proof {
                    if next is Some {
                        lemma_found(metas, groups@[v as int]@, 0);
                    }
                }
                v += 1;
            }
            let over = match next {
                Some(t) => {
                    assert(token_ok(encode_utf8(token_texts@[t as int]@), token_meta@[t as int]));
                    let len: usize = (token_meta[t].own_len - token_meta[t].sep_len as u16) as usize;
                    let n: usize = if overlap_size <= len {
                        overlap_size
                    } else {
                        len
                    };
                    str_head(token_texts[t].as_str(), n)
                },
                None => {
                    proof {
                        reveal_strlit("");
                        assert(encode_utf8(""@) =~= Seq::empty());
                    }
                    ""
                },
            };
            let first: usize = tokens[0];
            let last: usize = tokens[tokens.len() - 1];
            assert(groups@[w as int]@[0] < metas.len());
            assert(groups@[w as int]@[tokens@.len() - 1] < metas.len());
            let e = WordStrippedEntry {
                word_content: content,
                content_overlap: str_copy(over),
                first_intern_ord: first as u32,
                first_chunk_intern_ord: first as u32,
                last_chunk_intern_ord: last as u32,
                first_own_len: token_meta[first].own_len,
                last_sep_len: token_meta[last].sep_len,
                is_word_start: token_meta[first].is_word_start,
                num_chunks: tokens.len() as u32,
            };
            assert(collector_v3::entry_of(e) == stripped(texts, metas, overlap_size as int, w as int));
            entries.push(e);
            assert(collector_v3::entries_of(entries@) =~= before.push(collector_v3::entry_of(e)));
        }
        w += 1;
    }
    entries
}

proof fn lemma_found(metas: Seq<TokenMetaV3>, tokens: Seq<usize>, k: int)
    requires
        0 <= k,
        forall|j: int| 0 <= j < tokens.len() ==> #[trigger] tokens[j] < metas.len(),
    ensures
        first_with_content(metas, tokens, k) matches Some(t) ==> t < metas.len(),
    decreases tokens.len() - k,
{
    if k < tokens.len() && content_len(metas[tokens[k] as int]) <= 0 {
        lemma_found(metas, tokens, k + 1);
    }
}

} // verus!
