//! What the words of tokens with word numbers are made of.

use vstd::prelude::*;
use vstd::utf8::*;

use crate::collector_v3::{TokenMetaV3, WordEntry};
use crate::order;
use crate::order::Ordered;
use crate::text;
use crate::word_stripped;

verus! {

/// The bytes of a token's content.
pub open spec fn content_of(text: Seq<u8>, m: TokenMetaV3) -> Seq<u8> {
    if m.own_len - m.sep_len <= text.len() {
        text.subrange(0, m.own_len - m.sep_len)
    } else {
        text
    }
}

/// The content of the word among the first `n` tokens, whichever tokens of
/// other words stand between its own.
pub open spec fn word_content(texts: Seq<Seq<u8>>, metas: Seq<TokenMetaV3>, id: usize, n: int) -> Seq<u8>
    decreases n,
{
    if n <= 0 {
        Seq::empty()
    } else if metas[n - 1].word_id == id {
        word_content(texts, metas, id, n - 1) + content_of(texts[n - 1], metas[n - 1])
    } else {
        word_content(texts, metas, id, n - 1)
    }
}

/// How many of the first `n` tokens are of the word.
pub open spec fn word_size(metas: Seq<TokenMetaV3>, id: usize, n: int) -> int
    decreases n,
{
    if n <= 0 {
        0
    } else {
        word_size(metas, id, n - 1) + (if metas[n - 1].word_id == id {
            1int
        } else {
            0
        })
    }
}

/// Whether the token has content and is of a later word than this.
pub open spec fn is_later(metas: Seq<TokenMetaV3>, id: usize, j: int) -> bool {
    &&& 0 <= j < metas.len()
    &&& metas[j].own_len > metas[j].sep_len
    &&& metas[j].word_id > id
}

/// Whether the token is the first with content behind the word, by word number
/// and then by place.
pub open spec fn is_next(metas: Seq<TokenMetaV3>, id: usize, j: int) -> bool {
    &&& is_later(metas, id, j)
    &&& forall|i: int| #[trigger]
        is_later(metas, id, i) ==> metas[j].word_id < metas[i].word_id || (metas[j].word_id
            == metas[i].word_id && j <= i)
}

/// Whether these bytes are what the word borrows: as much of the next content
/// as whole characters fill in `overlap` bytes.
pub open spec fn borrows(
    texts: Seq<Seq<u8>>,
    metas: Seq<TokenMetaV3>,
    id: usize,
    overlap: int,
    over: Seq<u8>,
) -> bool {
    &&& forall|j: int| #[trigger] is_next(metas, id, j) ==> text::is_head(
        over,
        texts[j],
        if overlap <= metas[j].own_len - metas[j].sep_len {
            overlap
        } else {
            metas[j].own_len - metas[j].sep_len
        },
    )
    &&& (forall|j: int| !#[trigger] is_later(metas, id, j)) ==> over.len() == 0
}

/// Whether the entry is that of the word.
pub open spec fn is_entry_of(
    texts: Seq<Seq<u8>>,
    metas: Seq<TokenMetaV3>,
    overlap: int,
    id: usize,
    e: WordEntry,
) -> bool {
    let a = e.first_chunk as int;
    let b = e.last_chunk as int;
    &&& 0 <= a <= b < metas.len()
    &&& metas[a].word_id == id
    &&& metas[b].word_id == id
    &&& forall|i: int| 0 <= i < metas.len() && (#[trigger] metas[i]).word_id == id ==> a <= i <= b
    &&& e.token == e.first_chunk
    &&& e.num_chunks == word_size(metas, id, metas.len() as int)
    &&& e.content == word_content(texts, metas, id, metas.len() as int)
    &&& e.own_len == metas[a].own_len
    &&& e.is_word_start == metas[a].is_word_start
    &&& e.sep_len == metas[b].sep_len
    &&& borrows(texts, metas, id, overlap, e.overlap)
}

proof fn lemma_members(texts: Seq<Seq<u8>>, metas: Seq<TokenMetaV3>, id: usize, n: int)
    requires
        0 <= n <= metas.len() <= texts.len(),
        metas.len() <= u32::MAX,
        forall|i: int| 0 <= i < metas.len() ==> (#[trigger] metas[i]).own_len >= metas[i].sep_len,
    ensures
        ({
            let m = word_stripped::members(metas, id, n);
            &&& m.len() == word_size(metas, id, n)
            &&& word_stripped::joined_content(texts, metas, m) == word_content(texts, metas, id, n)
            &&& forall|k: int| 0 <= k < m.len() ==> (#[trigger] m[k]) < n && metas[m[k] as int].word_id == id
            &&& forall|i: int| 0 <= i < n && (#[trigger] metas[i]).word_id == id ==> m.contains(i as usize)
            &&& forall|j: int, k: int| 0 <= j < k < m.len() ==> (#[trigger] m[j]) < (#[trigger] m[k])
        }),
    decreases n,
{
    if n > 0 {
        lemma_members(texts, metas, id, n - 1);
        let before = word_stripped::members(metas, id, n - 1);
        let m = word_stripped::members(metas, id, n);
        if metas[n - 1].word_id == id {
            assert(m.drop_last() =~= before);
            assert(m.last() == n - 1);
            let x = texts[n - 1];
            assert(content_of(x, metas[n - 1]) =~= x.subrange(0, word_stripped::content_end(x, metas[n - 1])));
        }
        assert forall|i: int| 0 <= i < n && (#[trigger] metas[i]).word_id == id implies m.contains(i as usize) by {
            if i < n - 1 {
                assert(before.contains(i as usize));
                let k = choose|k: int| 0 <= k < before.len() && before[k] == i as usize;
                assert(m[k] == i as usize);
            } else {
                assert(m[m.len() - 1] == i as usize);
            }
        }
    }
}

proof fn lemma_first_with(metas: Seq<TokenMetaV3>, tokens: Seq<usize>, k: int)
    requires
        0 <= k <= tokens.len(),
    ensures
        match word_stripped::first_with_content(metas, tokens, k) {
            Some(t) => exists|j: int|
                k <= j < tokens.len() && #[trigger] tokens[j] == t && word_stripped::content_len(metas[t as int])
                    > 0 && forall|i: int|
                    k <= i < j ==> word_stripped::content_len(metas[#[trigger] tokens[i] as int]) <= 0,
            None => forall|i: int|
                k <= i < tokens.len() ==> word_stripped::content_len(metas[#[trigger] tokens[i] as int]) <= 0,
        },
    decreases tokens.len() - k,
{
    if k < tokens.len() {
        if word_stripped::content_len(metas[tokens[k] as int]) > 0 {
            assert(tokens[k] == tokens[k]);
        } else {
            lemma_first_with(metas, tokens, k + 1);
        }
    }
}

/// Whether the token is the first with content of the words from the `w`th on.
spec fn is_first_from(metas: Seq<TokenMetaV3>, ids: Seq<usize>, w: int, j: int) -> bool {
    &&& 0 <= j < metas.len()
    &&& metas[j].own_len > metas[j].sep_len
    &&& exists|v: int| w <= v < ids.len() && #[trigger] ids[v] == metas[j].word_id
    &&& forall|i: int, v: int|
        0 <= i < metas.len() && w <= v < ids.len() && (#[trigger] metas[i]).word_id == (#[trigger] ids[v])
            && metas[i].own_len > metas[i].sep_len ==> metas[j].word_id < metas[i].word_id || (
        metas[j].word_id == metas[i].word_id && j <= i)
}

proof fn lemma_next_with(texts: Seq<Seq<u8>>, metas: Seq<TokenMetaV3>, ids: Seq<usize>, w: int)
    requires
        0 <= w <= ids.len(),
        metas.len() <= texts.len(),
        metas.len() <= u32::MAX,
        forall|i: int| 0 <= i < metas.len() ==> (#[trigger] metas[i]).own_len >= metas[i].sep_len,
        forall|i: int, j: int| 0 <= i < j < ids.len() ==> (#[trigger] ids[i]) < (#[trigger] ids[j]),
    ensures
        match word_stripped::next_with_content(metas, ids, w) {
            Some(t) => is_first_from(metas, ids, w, t as int),
            None => forall|i: int, v: int|
                0 <= i < metas.len() && w <= v < ids.len() && (#[trigger] metas[i]).word_id == (#[trigger] ids[v])
                    ==> metas[i].own_len <= metas[i].sep_len,
        },
    decreases ids.len() - w,
{
    if w < ids.len() {
        let tokens = word_stripped::members(metas, ids[w], metas.len() as int);
        lemma_members(texts, metas, ids[w], metas.len() as int);
        lemma_first_with(metas, tokens, 0);
        lemma_next_with(texts, metas, ids, w + 1);
        match word_stripped::first_with_content(metas, tokens, 0) {
            Some(t) => {
                let j = choose|j: int|
                    0 <= j < tokens.len() && #[trigger] tokens[j] == t && word_stripped::content_len(
                        metas[t as int],
                    ) > 0 && forall|i: int|
                        0 <= i < j ==> word_stripped::content_len(metas[#[trigger] tokens[i] as int]) <= 0;
                assert(metas[tokens[j] as int].word_id == ids[w]);
                assert forall|i: int, v: int|
                    0 <= i < metas.len() && w <= v < ids.len() && (#[trigger] metas[i]).word_id == (
                    #[trigger] ids[v]) && metas[i].own_len > metas[i].sep_len implies metas[t as int].word_id
                    < metas[i].word_id || (metas[t as int].word_id == metas[i].word_id && t <= i) by {
                    if v > w {
                        assert(ids[w] < ids[v]);
                    } else {
                        assert(tokens.contains(i as usize));
                        let k = choose|k: int| 0 <= k < tokens.len() && tokens[k] == i as usize;
                        if k < j {
                            assert(word_stripped::content_len(metas[tokens[k] as int]) <= 0);
                        } else if j < k {
                            assert(tokens[j] < tokens[k]);
                        }
                    }
                }
                assert(ids[w] == metas[t as int].word_id);
            },
            None => {
                assert forall|i: int| 0 <= i < metas.len() && (#[trigger] metas[i]).word_id == ids[w] implies metas[i].own_len
                    <= metas[i].sep_len by {
                    assert(tokens.contains(i as usize));
                    let k = choose|k: int| 0 <= k < tokens.len() && tokens[k] == i as usize;
                    assert(word_stripped::content_len(metas[tokens[k] as int]) <= 0);
                }
                match word_stripped::next_with_content(metas, ids, w + 1) {
                    Some(t) => {
                        let v = choose|v: int|
                            w + 1 <= v < ids.len() && #[trigger] ids[v] == metas[t as int].word_id;
                        assert(w <= v && ids[v] == metas[t as int].word_id);
                    },
                    None => {},
                }
            },
        }
    }
}

proof fn lemma_order(metas: Seq<TokenMetaV3>)
    ensures
        ({
            let ids = word_stripped::word_order(metas);
            &&& forall|i: int, j: int| 0 <= i < j < ids.len() ==> (#[trigger] ids[i]) < (#[trigger] ids[j])
            &&& forall|i: int| 0 <= i < metas.len() ==> ids.contains((#[trigger] metas[i]).word_id)
            &&& forall|v: int|
                0 <= v < ids.len() ==> exists|i: int|
                    0 <= i < metas.len() && (#[trigger] metas[i]).word_id == #[trigger] ids[v]
        }),
{
    let all = word_stripped::ids_of(metas);
    let ids = word_stripped::word_order(metas);
    order::lemma_sorted(all);
    order::lemma_sorted_items(all);
    order::lemma_dedup(order::sorted(all));
    assert forall|i: int, j: int| 0 <= i < j < ids.len() implies (#[trigger] ids[i]) < (#[trigger] ids[j]) by {
        assert(ids[i].not_after(ids[j]));
        assert(ids[i] != ids[j]);
    }
    assert forall|i: int| 0 <= i < metas.len() implies ids.contains((#[trigger] metas[i]).word_id) by {
        assert(all[i] == metas[i].word_id);
        assert(all.contains(metas[i].word_id));
    }
    assert forall|v: int| 0 <= v < ids.len() implies exists|i: int|
        0 <= i < metas.len() && (#[trigger] metas[i]).word_id == #[trigger] ids[v] by {
        assert(ids.contains(ids[v]));
        assert(all.contains(ids[v]));
        let i = choose|i: int| 0 <= i < all.len() && all[i] == ids[v];
        assert(metas[i].word_id == ids[v]);
    }
}

proof fn lemma_stripped(texts: Seq<Seq<u8>>, metas: Seq<TokenMetaV3>, overlap: int, w: int)
    requires
        metas.len() <= texts.len(),
        metas.len() <= u32::MAX,
        0 <= overlap,
        forall|i: int| 0 <= i < metas.len() ==> (#[trigger] metas[i]).own_len >= metas[i].sep_len,
        forall|i: int| 0 <= i < texts.len() ==> valid_utf8(#[trigger] texts[i]),
        0 <= w < word_stripped::word_order(metas).len(),
    ensures
        is_entry_of(
            texts,
            metas,
            overlap,
            word_stripped::word_order(metas)[w],
            word_stripped::stripped(texts, metas, overlap, w),
        ),
{
    let ids = word_stripped::word_order(metas);
    let id = ids[w];
    let n = metas.len() as int;
    let tokens = word_stripped::members(metas, id, n);
    let e = word_stripped::stripped(texts, metas, overlap, w);
    lemma_order(metas);
    lemma_members(texts, metas, id, n);
    let some = choose|i: int| 0 <= i < metas.len() && (#[trigger] metas[i]).word_id == ids[w];
    assert(metas[some].word_id == id);
    assert(tokens.contains(some as usize));
    assert(tokens[0] < n && tokens[tokens.len() - 1] < n);
    lemma_size(metas, id, n);
    assert forall|i: int| 0 <= i < metas.len() && (#[trigger] metas[i]).word_id == id implies e.first_chunk
        <= i <= e.last_chunk by {
        assert(tokens.contains(i as usize));
        let k = choose|k: int| 0 <= k < tokens.len() && tokens[k] == i as usize;
        if k > 0 {
            assert(tokens[0] < tokens[k]);
        }
        if k < tokens.len() - 1 {
            assert(tokens[k] < tokens[tokens.len() - 1]);
        }
    }
    lemma_next_with(texts, metas, ids, w + 1);
    assert forall|i: int| #[trigger] is_later(metas, id, i) implies exists|v: int|
        w + 1 <= v < ids.len() && #[trigger] ids[v] == metas[i].word_id by {
        assert(ids.contains(metas[i].word_id));
        let v = choose|v: int| 0 <= v < ids.len() && ids[v] == metas[i].word_id;
        if v < w {
            assert(ids[v] < ids[w]);
        }
        assert(w + 1 <= v && ids[v] == metas[i].word_id);
    }
    match word_stripped::next_with_content(metas, ids, w + 1) {
        Some(t) => {
            let j = t as int;
            let v = choose|v: int| w + 1 <= v < ids.len() && #[trigger] ids[v] == metas[j].word_id;
            assert(ids[w] < ids[v]);
            assert(is_later(metas, id, j));
            assert forall|i: int| #[trigger] is_next(metas, id, i) implies i == j by {
                let x = choose|x: int| w + 1 <= x < ids.len() && #[trigger] ids[x] == metas[i].word_id;
                assert(ids[x] == metas[i].word_id);
                assert(is_later(metas, id, j));
            }
            text::a_head_is_the_longest_that_fits(
                texts[j],
                if overlap <= metas[j].own_len - metas[j].sep_len {
                    overlap
                } else {
                    metas[j].own_len - metas[j].sep_len
                },
            );
        },
        None => {
            assert forall|i: int| !#[trigger] is_later(metas, id, i) by {
                if is_later(metas, id, i) {
                    let x = choose|x: int| w + 1 <= x < ids.len() && #[trigger] ids[x] == metas[i].word_id;
                    assert(ids[x] == metas[i].word_id);
                }
            }
        },
    }
}

proof fn lemma_size(metas: Seq<TokenMetaV3>, id: usize, n: int)
    requires
        0 <= n,
    ensures
        0 <= word_size(metas, id, n) <= n,
    decreases n,
{
    if n > 0 {
        lemma_size(metas, id, n - 1);
    }
}

proof fn lemma_upto(texts: Seq<Seq<u8>>, metas: Seq<TokenMetaV3>, overlap: int, k: int) -> (at: Seq<int>)
    requires
        0 <= k,
    ensures
        ({
            let all = word_stripped::stripped_upto(texts, metas, overlap, k);
            &&& at.len() == all.len()
            &&& forall|x: int|
                0 <= x < all.len() ==> 0 <= (#[trigger] at[x]) < k && all[x] == word_stripped::stripped(
                    texts,
                    metas,
                    overlap,
                    at[x],
                ) && all[x].content.len() > 0
            &&& forall|v: int|
                0 <= v < k && (#[trigger] word_stripped::stripped(texts, metas, overlap, v)).content.len() > 0
                    ==> at.contains(v)
            &&& forall|x: int, y: int| 0 <= x < y < at.len() ==> (#[trigger] at[x]) < (#[trigger] at[y])
        }),
    decreases k,
{
    if k > 0 {
        let before = lemma_upto(texts, metas, overlap, k - 1);
        if word_stripped::stripped(texts, metas, overlap, k - 1).content.len() == 0 {
            before
        } else {
            let at = before.push(k - 1);
            assert forall|v: int|
                0 <= v < k && (#[trigger] word_stripped::stripped(texts, metas, overlap, v)).content.len()
                    > 0 implies at.contains(v) by {
                if v < k - 1 {
                    assert(before.contains(v));
                    let x = choose|x: int| 0 <= x < before.len() && before[x] == v;
                    assert(at[x] == v);
                } else {
                    assert(at[at.len() - 1] == v);
                }
            }
            at
        }
    } else {
        Seq::empty()
    }
}

/// Law: the tokens of a number that have content between them are one word: its
/// content is theirs in their order, its chunks are the first and the last of
/// them, and it borrows from the first content of a later number; the words
/// stand in the order of their numbers, each once, and there are no others.
pub proof fn words_are_the_tokens_of_their_numbers(
    texts: Seq<Seq<u8>>,
    metas: Seq<TokenMetaV3>,
    overlap: int,
)
    requires
        metas.len() <= texts.len(),
        metas.len() <= u32::MAX,
        0 <= overlap,
        forall|i: int| 0 <= i < metas.len() ==> (#[trigger] metas[i]).own_len >= metas[i].sep_len,
        forall|i: int| 0 <= i < texts.len() ==> valid_utf8(#[trigger] texts[i]),
    ensures
        ({
            let all = word_stripped::stripped_upto(
                texts,
                metas,
                overlap,
                word_stripped::word_order(metas).len() as int,
            );
            &&& forall|x: int|
                0 <= x < all.len() ==> is_entry_of(
                    texts,
                    metas,
                    overlap,
                    metas[(#[trigger] all[x]).first_chunk as int].word_id,
                    all[x],
                ) && all[x].content.len() > 0
            &&& forall|i: int|
                0 <= i < metas.len() && word_content(
                    texts,
                    metas,
                    (#[trigger] metas[i]).word_id,
                    metas.len() as int,
                ).len() > 0 ==> exists|x: int|
                    0 <= x < all.len() && is_entry_of(texts, metas, overlap, metas[i].word_id, #[trigger] all[x])
            &&& forall|x: int, y: int|
                0 <= x < y < all.len() ==> metas[(#[trigger] all[x]).first_chunk as int].word_id < metas[(
                #[trigger] all[y]).first_chunk as int].word_id
        }),
{
    let ids = word_stripped::word_order(metas);
    let k = ids.len() as int;
    let all = word_stripped::stripped_upto(texts, metas, overlap, k);
    let at = lemma_upto(texts, metas, overlap, k);
    lemma_order(metas);
    assert forall|x: int| 0 <= x < all.len() implies is_entry_of(
        texts,
        metas,
        overlap,
        metas[(#[trigger] all[x]).first_chunk as int].word_id,
        all[x],
    ) && all[x].content.len() > 0 && metas[all[x].first_chunk as int].word_id == ids[at[x]] by {
        assert(0 <= at[x] < k);
        lemma_stripped(texts, metas, overlap, at[x]);
    }
    assert forall|x: int, y: int| 0 <= x < y < all.len() implies metas[(#[trigger] all[x]).first_chunk as int].word_id
        < metas[(#[trigger] all[y]).first_chunk as int].word_id by {
        assert(at[x] < at[y]);
        assert(0 <= at[x] && at[y] < k);
        assert(ids[at[x]] < ids[at[y]]);
    }
    assert forall|i: int|
        0 <= i < metas.len() && word_content(texts, metas, (#[trigger] metas[i]).word_id, metas.len() as int).len()
            > 0 implies exists|x: int|
        0 <= x < all.len() && is_entry_of(texts, metas, overlap, metas[i].word_id, #[trigger] all[x]) by {
        assert(ids.contains(metas[i].word_id));
        let v = choose|v: int| 0 <= v < ids.len() && ids[v] == metas[i].word_id;
        lemma_stripped(texts, metas, overlap, v);
        assert(at.contains(v));
        let x = choose|x: int| 0 <= x < at.len() && at[x] == v;
        assert(0 <= at[x] < k);
        assert(is_entry_of(texts, metas, overlap, metas[i].word_id, all[x]));
    }
}

} // verus!
