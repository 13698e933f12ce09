//! Collects the tokens of documents for the suffix index of a segment.
//!
//! A value comes as chunks, each with its content and the separators after it.
//! A chunk is interned with the first bytes of the next one behind it, its
//! overlap; the chunks of a word, without their separators, are interned once
//! more as the word, with the first bytes of the next word's content behind it.
//! Both get postings, and tokens that follow each other are linked. What was
//! interned is told apart by its text and its shape: two occurrences of one
//! text with another own length are two tokens.

use vstd::prelude::*;
use vstd::string::*;
use vstd::utf8::*;

use crate::bytes::same_bytes;
use crate::collector_data;
use crate::collector_data::{SfxCollectorDataV3, finish};
use crate::collector_words;
use crate::key_table::KeyIndex;
use crate::offset_table;
use crate::text;
use crate::text::{boundary_from, push_text, str_copy, str_from, str_head, str_len, str_upto};

verus! {

/// Bytes of the next token in an extended text.
pub const DEFAULT_OVERLAP: usize = 2;

/// Bytes of the longest chunk.
pub const DEFAULT_MAX_TOKEN: usize = 8;

/// Suffixes of a word reach this deep into it.
pub const MAX_SUFFIX_INDEX: usize = 256;

/// What a chunk posting is taken to cost.
pub const CHUNK_POSTING_BYTES: usize = 24;

/// What a word posting is taken to cost.
pub const WORD_POSTING_BYTES: usize = 28;

/// What a link is taken to cost.
pub const SIBLING_PAIR_BYTES: usize = 12;

/// What a token is taken to cost besides its text.
pub const INTERNED_TOKEN_OVERHEAD: usize = 88;

/// What a word entry is taken to cost.
pub const WORD_STRIPPED_OVERHEAD: usize = 80;

/// What segmentation says of a chunk.
#[derive(Debug, Clone, Copy)]
pub struct ChunkMeta {
    /// Bytes of the content, at the start of the chunk.
    pub content_len: usize,
    /// Bytes of the separators, behind the content.
    pub sep_len: usize,
    /// Whether the chunk is the first of its word.
    pub is_word_start: bool,
    /// The number of its word in the value.
    pub word_id: usize,
}

/// A piece of a value.
#[derive(Debug, Clone)]
pub struct Chunk {
    /// Content and separators.
    pub text: String,
    /// What segmentation says of it.
    pub meta: ChunkMeta,
}

/// What is known of a token besides its text.
#[derive(Debug, Clone, Copy, PartialEq, Eq, Structural)]
pub struct TokenMetaV3 {
    /// Bytes the token owns: content and separators, no overlap.
    pub own_len: u16,
    /// How many of these are separators.
    pub sep_len: u8,
    /// Bytes borrowed from the next token.
    pub overlap_len: u8,
    /// Whether the token starts a word.
    pub is_word_start: bool,
    /// The number of its word in the value it was first seen in.
    pub word_id: usize,
    /// Whether the token is a word and not a chunk.
    pub is_word_stripped: bool,
}

/// A word: the content of its chunks.
#[derive(Debug, Clone)]
pub struct WordStrippedEntry {
    /// The content of its chunks.
    pub word_content: String,
    /// The first bytes of the next word's content.
    pub content_overlap: String,
    /// The token of the word.
    pub first_intern_ord: u32,
    /// The token of its first chunk.
    pub first_chunk_intern_ord: u32,
    /// The token of its last chunk.
    pub last_chunk_intern_ord: u32,
    /// Bytes the word owns.
    pub first_own_len: u16,
    /// Separators behind its last chunk.
    pub last_sep_len: u8,
    /// Whether its first chunk starts a word.
    pub is_word_start: bool,
    /// How many chunks it has.
    pub num_chunks: u32,
}

/// A word entry, its texts as bytes.
#[verifier::ext_equal]
pub struct WordEntry {
    /// The content of its chunks.
    pub content: Seq<u8>,
    /// The first bytes of the next word's content.
    pub overlap: Seq<u8>,
    /// The token of the word.
    pub token: u32,
    /// The token of its first chunk.
    pub first_chunk: u32,
    /// The token of its last chunk.
    pub last_chunk: u32,
    /// Bytes the word owns.
    pub own_len: u16,
    /// Separators behind its last chunk.
    pub sep_len: u8,
    /// Whether its first chunk starts a word.
    pub is_word_start: bool,
    /// How many chunks it has.
    pub num_chunks: u32,
}

/// What was collected.
#[verifier::ext_equal]
pub struct Collected {
    /// The texts of the tokens, as bytes.
    pub texts: Seq<Seq<u8>>,
    /// The shapes of the tokens.
    pub metas: Seq<TokenMetaV3>,
    /// The chunk postings of the tokens: document, position, first byte, end.
    pub postings: Seq<Seq<(u32, u32, u32, u32)>>,
    /// The words, each once.
    pub words: Seq<WordEntry>,
    /// The word postings by token: document, first and last position, first
    /// byte, end of the content, and where in the first chunk it starts.
    pub word_postings: Seq<Seq<(u32, u32, u32, u32, u32, u16)>>,
    /// The links.
    pub pairs: Seq<(u32, u32)>,
    /// The document being collected.
    pub doc: u32,
    /// The position the next value starts at.
    pub ti: u32,
    /// What all this is taken to cost.
    pub mem: usize,
}

/// A sum that stops at the largest value.
pub open spec fn capped(a: usize, b: int) -> usize {
    if a + b <= usize::MAX {
        (a + b) as usize
    } else {
        usize::MAX
    }
}

/// A shape as one number, in the order of shapes.
pub open spec fn tag_of(word: bool, len: u16, sep: u8, start: bool) -> u64 {
    ((if word {
        33554432int
    } else {
        0
    }) + 512 * len + 2 * sep + (if start {
        1int
    } else {
        0
    })) as u64
}

/// What tells tokens of one text apart: of a word its content length, of a
/// chunk its own length, its separators and whether it starts a word.
pub open spec fn shape_tag(m: TokenMetaV3) -> u64 {
    if m.is_word_stripped {
        tag_of(true, (m.own_len - m.sep_len) as u16, 0, false)
    } else {
        tag_of(false, m.own_len, m.sep_len, m.is_word_start)
    }
}

/// Whether a word owns at least its separators.
pub open spec fn shaped(m: TokenMetaV3) -> bool {
    m.is_word_stripped ==> m.own_len >= m.sep_len
}

impl Collected {
    /// What the tokens are told apart by.
    pub open spec fn keys(self) -> Seq<(u64, Seq<u8>)> {
        Seq::new(self.texts.len(), |i: int| (shape_tag(self.metas[i]), self.texts[i]))
    }

    /// With a token for the text and shape, and its number: the one there is,
    /// or a new one.
    pub open spec fn interned(self, text: Seq<u8>, m: TokenMetaV3) -> (Collected, u32) {
        let key = (shape_tag(m), text);
        if self.keys().contains(key) {
            (self, self.keys().index_of(key) as u32)
        } else {
            (
                Collected {
                    texts: self.texts.push(text),
                    metas: self.metas.push(m),
                    postings: self.postings.push(Seq::empty()),
                    mem: capped(self.mem, text.len() + INTERNED_TOKEN_OVERHEAD),
                    ..self
                },
                self.texts.len() as u32,
            )
        }
    }

    /// With a chunk posting.
    pub open spec fn posted(self, token: u32, p: (u32, u32, u32, u32)) -> Collected {
        Collected {
            postings: self.postings.update(token as int, self.postings[token as int].push(p)),
            mem: capped(self.mem, CHUNK_POSTING_BYTES as int),
            ..self
        }
    }

    /// With tokens that follow each other linked.
    pub open spec fn linked(self, tokens: Seq<u32>) -> Collected {
        if tokens.len() <= 1 {
            self
        } else {
            Collected {
                pairs: self.pairs + links(tokens, tokens.len() as int),
                mem: capped(self.mem, SIBLING_PAIR_BYTES * (tokens.len() - 1)),
                ..self
            }
        }
    }

    /// Whether the token has a word entry.
    pub open spec fn has_word(self, token: u32) -> bool {
        exists|k: int| 0 <= k < self.words.len() && (#[trigger] self.words[k]).token == token
    }

    /// With a word entry, unless its token has one.
    pub open spec fn worded(self, e: WordEntry) -> Collected {
        Collected {
            words: if self.has_word(e.token) {
                self.words
            } else {
                self.words.push(e)
            },
            mem: capped(self.mem, WORD_STRIPPED_OVERHEAD as int),
            ..self
        }
    }

    /// With a word posting.
    pub open spec fn word_posted(self, token: u32, p: (u32, u32, u32, u32, u32, u16)) -> Collected {
        let g = offset_table::padded(self.word_postings, token + 1, Seq::empty());
        Collected {
            word_postings: g.update(token as int, g[token as int].push(p)),
            mem: capped(self.mem, WORD_POSTING_BYTES as int),
            ..self
        }
    }
}

/// The first `n` tokens, each with the next.
pub open spec fn links(tokens: Seq<u32>, n: int) -> Seq<(u32, u32)> {
    Seq::new((n - 1) as nat, |i: int| (tokens[i], tokens[i + 1]))
}

/// The bytes of a chunk.
pub open spec fn chunk_bytes(c: Chunk) -> Seq<u8> {
    encode_utf8(c.text@)
}

/// Whether a chunk is its content and its separators, and its lengths fit.
pub open spec fn chunk_ok(c: Chunk) -> bool {
    &&& c.meta.content_len + c.meta.sep_len == chunk_bytes(c).len()
    &&& is_char_boundary(chunk_bytes(c), c.meta.content_len as int)
    &&& chunk_bytes(c).len() <= u16::MAX
    &&& c.meta.sep_len <= u8::MAX
}

/// Bytes before chunk `i`.
pub open spec fn offset_of(chunks: Seq<Chunk>, i: int) -> int
    decreases i,
{
    if i <= 0 {
        0
    } else {
        offset_of(chunks, i - 1) + chunk_bytes(chunks[i - 1]).len()
    }
}

/// What chunk `i` borrows from the next.
pub open spec fn chunk_overlap(chunks: Seq<Chunk>, i: int, overlap: int) -> Seq<u8> {
    if i + 1 < chunks.len() {
        text::head_within(chunk_bytes(chunks[i + 1]), overlap)
    } else {
        Seq::empty()
    }
}

/// The shape of a chunk's token.
pub open spec fn chunk_shape(c: Chunk, overlap_len: int) -> TokenMetaV3 {
    TokenMetaV3 {
        own_len: chunk_bytes(c).len() as u16,
        sep_len: c.meta.sep_len as u8,
        overlap_len: overlap_len as u8,
        is_word_start: c.meta.is_word_start,
        word_id: c.meta.word_id,
        is_word_stripped: false,
    }
}

/// After chunk `i`, and its token.
pub open spec fn chunk_step(c: Collected, chunks: Seq<Chunk>, overlap: int, i: int) -> (Collected, u32) {
    let over = chunk_overlap(chunks, i, overlap);
    let (d, token) = c.interned(
        chunk_bytes(chunks[i]) + over,
        chunk_shape(chunks[i], over.len() as int),
    );
    (
        d.posted(
            token,
            (
                c.doc,
                (c.ti + i) as u32,
                offset_of(chunks, i) as u32,
                offset_of(chunks, i + 1) as u32,
            ),
        ),
        token,
    )
}

/// After the first `k` chunks, and their tokens.
pub open spec fn after_chunks(c: Collected, chunks: Seq<Chunk>, overlap: int, k: int) -> (
    Collected,
    Seq<u32>,
)
    decreases k,
{
    if k <= 0 {
        (c, Seq::empty())
    } else {
        let (d, tokens) = after_chunks(c, chunks, overlap, k - 1);
        let (e, token) = chunk_step(d, chunks, overlap, k - 1);
        (e, tokens.push(token))
    }
}

/// The words among the first `k` chunks: first chunk, and one past the last.
pub open spec fn word_ranges(chunks: Seq<Chunk>, k: int) -> Seq<(int, int)>
    decreases k,
{
    if k <= 0 {
        Seq::empty()
    } else {
        let r = word_ranges(chunks, k - 1);
        if r.len() > 0 && chunks[r.last().0].meta.word_id == chunks[k - 1].meta.word_id {
            r.drop_last().push((r.last().0, k))
        } else {
            r.push((k - 1, k))
        }
    }
}

/// The content of the chunks from `a` up to `b`.
pub open spec fn content_of(chunks: Seq<Chunk>, a: int, b: int) -> Seq<u8>
    decreases b - a,
{
    if b <= a {
        Seq::empty()
    } else {
        content_of(chunks, a, b - 1) + chunk_bytes(chunks[b - 1]).subrange(
            0,
            chunks[b - 1].meta.content_len as int,
        )
    }
}

/// The first chunk from `i` on that has content.
pub open spec fn next_content(chunks: Seq<Chunk>, i: int) -> Option<int>
    decreases chunks.len() - i,
{
    if i >= chunks.len() {
        None
    } else if chunks[i].meta.content_len > 0 {
        Some(i)
    } else {
        next_content(chunks, i + 1)
    }
}

/// What a word that ends before chunk `end` borrows: the first bytes of the
/// next content, and nothing where its first character does not fit.
pub open spec fn word_overlap(chunks: Seq<Chunk>, end: int, overlap: int) -> Seq<u8> {
    match next_content(chunks, end) {
        Some(i) => text::head_within(
            chunk_bytes(chunks[i]),
            if overlap <= chunks[i].meta.content_len {
                overlap
            } else {
                chunks[i].meta.content_len as int
            },
        ),
        None => Seq::empty(),
    }
}

/// The first chunk from `a` up to `b` that holds byte `at`, or the last.
pub open spec fn chunk_holding(chunks: Seq<Chunk>, a: int, b: int, at: int) -> int
    decreases b - a,
{
    if a >= b - 1 {
        b - 1
    } else if offset_of(chunks, a) <= at < offset_of(chunks, a + 1) {
        a
    } else {
        chunk_holding(chunks, a + 1, b, at)
    }
}

/// After the tail of a long word: its last bytes, as a token of their own.
pub open spec fn tail_step(
    c: Collected,
    chunks: Seq<Chunk>,
    tokens: Seq<u32>,
    over: Seq<u8>,
    a: int,
    b: int,
) -> Collected {
    let content = content_of(chunks, a, b);
    let last = chunks[b - 1].meta;
    let ts = text::ceil_boundary(content, content.len() - DEFAULT_MAX_TOKEN);
    let tail = content.subrange(ts, content.len() as int);
    let own_len = (tail.len() + last.sep_len) as u16;
    let (d, token) = c.interned(
        tail + over,
        TokenMetaV3 {
            own_len,
            sep_len: last.sep_len as u8,
            overlap_len: over.len() as u8,
            is_word_start: false,
            word_id: last.word_id,
            is_word_stripped: true,
        },
    );
    let from = offset_of(chunks, a) + ts;
    let first = chunk_holding(chunks, a, b, from);
    d.worded(
        WordEntry {
            content: tail,
            overlap: over,
            token,
            first_chunk: tokens[first],
            last_chunk: tokens[b - 1],
            own_len,
            sep_len: last.sep_len as u8,
            is_word_start: false,
            num_chunks: (b - first) as u32,
        },
    ).word_posted(
        token,
        (
            c.doc,
            (c.ti + first) as u32,
            (c.ti + b - 1) as u32,
            from as u32,
            (from + tail.len()) as u32,
            (from - offset_of(chunks, first)) as u16,
        ),
    )
}

/// Bytes a word owns.
pub open spec fn word_own_len(content: int, sep: int) -> u16 {
    if content + sep <= u16::MAX {
        (content + sep) as u16
    } else {
        u16::MAX
    }
}

/// After the word of the chunks from `a` up to `b`, and its token; one without
/// content is passed over.
pub open spec fn word_step(
    c: Collected,
    chunks: Seq<Chunk>,
    tokens: Seq<u32>,
    overlap: int,
    a: int,
    b: int,
) -> (Collected, Option<u32>) {
    let content = content_of(chunks, a, b);
    let over = word_overlap(chunks, b, overlap);
    let first = chunks[a].meta;
    let last = chunks[b - 1].meta;
    let own_len = word_own_len(content.len() as int, last.sep_len as int);
    if content.len() == 0 {
        (c, None)
    } else {
        let (d, token) = c.interned(
            content + over,
            TokenMetaV3 {
                own_len,
                sep_len: last.sep_len as u8,
                overlap_len: over.len() as u8,
                is_word_start: first.is_word_start,
                word_id: first.word_id,
                is_word_stripped: true,
            },
        );
        let e = d.worded(
            WordEntry {
                content,
                overlap: over,
                token,
                first_chunk: tokens[a],
                last_chunk: tokens[b - 1],
                own_len,
                sep_len: last.sep_len as u8,
                is_word_start: first.is_word_start,
                num_chunks: (b - a) as u32,
            },
        ).word_posted(
            token,
            (
                c.doc,
                (c.ti + a) as u32,
                (c.ti + b - 1) as u32,
                offset_of(chunks, a) as u32,
                (offset_of(chunks, a) + content.len()) as u32,
                0u16,
            ),
        );
        (
            if content.len() > MAX_SUFFIX_INDEX + DEFAULT_MAX_TOKEN {
                tail_step(e, chunks, tokens, over, a, b)
            } else {
                e
            },
            Some(token),
        )
    }
}

/// After the first `k` words, and their tokens.
pub open spec fn after_words(
    c: Collected,
    chunks: Seq<Chunk>,
    tokens: Seq<u32>,
    overlap: int,
    ranges: Seq<(int, int)>,
    k: int,
) -> (Collected, Seq<u32>)
    decreases k,
{
    if k <= 0 {
        (c, Seq::empty())
    } else {
        let (d, words) = after_words(c, chunks, tokens, overlap, ranges, k - 1);
        let (e, w) = word_step(d, chunks, tokens, overlap, ranges[k - 1].0, ranges[k - 1].1);
        (
            e,
            match w {
                Some(t) => words.push(t),
                None => words,
            },
        )
    }
}

/// After a value, given as its chunks.
pub open spec fn after_value(c: Collected, chunks: Seq<Chunk>, overlap: int, positions: bool) -> Collected {
    let n = chunks.len() as int;
    if n == 0 {
        Collected { ti: (c.ti + 1) as u32, ..c }
    } else {
        let (d, tokens) = after_chunks(c, chunks, overlap, n);
        let e = if positions {
            d.linked(tokens)
        } else {
            d
        };
        let ranges = word_ranges(chunks, n);
        let (f, words) = after_words(e, chunks, tokens, overlap, ranges, ranges.len() as int);
        let g = if positions {
            f.linked(words)
        } else {
            f
        };
        Collected { ti: (c.ti + n + 1) as u32, ..g }
    }
}

/// The bytes of each text.
pub open spec fn texts_of(v: Seq<String>) -> Seq<Seq<u8>> {
    Seq::new(v.len(), |i: int| encode_utf8(v[i]@))
}

/// The contents of each vector.
pub open spec fn contents<T>(v: Seq<Vec<T>>) -> Seq<Seq<T>> {
    Seq::new(v.len(), |i: int| v[i]@)
}

/// A word entry, its texts as bytes.
pub open spec fn entry_of(e: WordStrippedEntry) -> WordEntry {
    WordEntry {
        content: encode_utf8(e.word_content@),
        overlap: encode_utf8(e.content_overlap@),
        token: e.first_intern_ord,
        first_chunk: e.first_chunk_intern_ord,
        last_chunk: e.last_chunk_intern_ord,
        own_len: e.first_own_len,
        sep_len: e.last_sep_len,
        is_word_start: e.is_word_start,
        num_chunks: e.num_chunks,
    }
}

/// The word entries, their texts as bytes.
pub open spec fn entries_of(v: Seq<WordStrippedEntry>) -> Seq<WordEntry> {
    Seq::new(v.len(), |i: int| entry_of(v[i]))
}

/// The shape of a token as one number.
pub fn tag_for(m: &TokenMetaV3) -> (r: u64)
    requires
        shaped(*m),
    ensures
        r == shape_tag(*m),
{
    if m.is_word_stripped {
        33554432 + 512 * ((m.own_len - m.sep_len as u16) as u64)
    } else {
        512 * (m.own_len as u64) + 2 * (m.sep_len as u64) + (if m.is_word_start {
            1
        } else {
            0
        })
    }
}

/// Two texts, one behind the other.
fn joined(a: &str, b: &str) -> (r: String)
    ensures
        encode_utf8(r@) == encode_utf8(a@) + encode_utf8(b@),
{
    let mut r = String::new();
    push_text(&mut r, a);
    push_text(&mut r, b);
    proof {
        assert(r@ =~= a@ + b@);
        text::lemma_encode_add(a@, b@);
    }
    r
}

/// Collects tokens, one document at a time.
pub struct SfxCollectorV3 {
    index: KeyIndex,
    token_texts: Vec<String>,
    token_meta: Vec<TokenMetaV3>,
    token_postings: Vec<Vec<(u32, u32, u32, u32)>>,
    word_stripped_entries: Vec<WordStrippedEntry>,
    ws_entry_pushed: Vec<bool>,
    word_postings: Vec<Vec<(u32, u32, u32, u32, u32, u16)>>,
    sibling_pairs: Vec<(u32, u32)>,
    positions: bool,
    doc_active: bool,
    current_doc_id: u32,
    current_value_ti_start: u32,
    mem_estimate: usize,
    dictionary: bool,
    global_ids: Vec<u64>,
    minted: Vec<bool>,
    max_token: usize,
    overlap: usize,
    min_suffix_len: usize,
}

impl SfxCollectorV3 {
    /// What was collected.
    pub closed spec fn collected(&self) -> Collected {
        Collected {
            texts: texts_of(self.token_texts@),
            metas: self.token_meta@,
            postings: contents(self.token_postings@),
            words: entries_of(self.word_stripped_entries@),
            word_postings: contents(self.word_postings@),
            pairs: self.sibling_pairs@,
            doc: self.current_doc_id,
            ti: self.current_value_ti_start,
            mem: self.mem_estimate,
        }
    }

    /// Bytes a token borrows from the next.
    pub closed spec fn borrowed(&self) -> int {
        self.overlap as int
    }

    /// Whether links are collected.
    pub closed spec fn keeps_positions(&self) -> bool {
        self.positions
    }

    /// Whether tokens get ids of a shard's dictionary.
    pub closed spec fn by_dictionary(&self) -> bool {
        self.dictionary
    }

    /// The ids given to tokens, in the order of tokens.
    pub closed spec fn ids(&self) -> Seq<u64> {
        self.global_ids@
    }

    /// Whether each id is new to the dictionary.
    pub closed spec fn fresh(&self) -> Seq<bool> {
        self.minted@
    }

    /// Whether a document is open.
    pub closed spec fn in_doc(&self) -> bool {
        self.doc_active
    }

    /// Bytes of the shortest suffix to index.
    pub closed spec fn shortest_suffix(&self) -> usize {
        self.min_suffix_len
    }

    /// Bytes of the longest chunk.
    pub closed spec fn longest_chunk(&self) -> usize {
        self.max_token
    }

    /// Every token is found by its key, and every token that is a word has its
    /// entry.
    pub closed spec fn wf(&self) -> bool {
        self.sound() && collector_words::words_named(self.collected())
    }

    /// Every token is found by its key, has a shape and a list of postings, and
    /// whether a token has a word entry is known.
    spec fn sound(&self) -> bool {
        &&& self.index.wf()
        &&& self.index.keys() == self.collected().keys()
        &&& self.token_meta@.len() == self.token_texts@.len()
        &&& self.token_postings@.len() == self.token_texts@.len()
        &&& forall|i: int| 0 <= i < self.token_meta@.len() ==> shaped(#[trigger] self.token_meta@[i])
        &&& forall|t: u32|
            #[trigger] self.collected().has_word(t) <==> t < self.ws_entry_pushed@.len()
                && self.ws_entry_pushed@[t as int]
        &&& self.word_postings@.len() <= self.token_texts@.len()
        &&& forall|k: int|
            0 <= k < self.word_stripped_entries@.len() ==> (
            #[trigger] self.word_stripped_entries@[k]).first_intern_ord < self.token_texts@.len()
        &&& forall|k: int|
            0 <= k < self.sibling_pairs@.len() ==> (#[trigger] self.sibling_pairs@[k]).0
                < self.token_texts@.len() && self.sibling_pairs@[k].1 < self.token_texts@.len()
        &&& self.global_ids@.len() == self.minted@.len()
        &&& self.global_ids@.len() <= self.token_texts@.len()
    }

    /// What the steps of a value leave as it is.
    spec fn same_settings(&self, other: &Self) -> bool {
        &&& self.positions == other.positions
        &&& self.doc_active == other.doc_active
        &&& self.dictionary == other.dictionary
        &&& self.global_ids == other.global_ids
        &&& self.minted == other.minted
        &&& self.max_token == other.max_token
        &&& self.overlap == other.overlap
        &&& self.min_suffix_len == other.min_suffix_len
    }

    /// The token for a text and a shape: the one there is, or a new one.
    fn intern_extended(&mut self, text: String, meta: TokenMetaV3) -> (token: u32)
        requires
            old(self).sound(),
            shaped(meta),
            old(self).collected().texts.len() < u32::MAX,
        ensures
            final(self).sound(),
            final(self).same_settings(old(self)),
            (final(self).collected(), token) == old(self).collected().interned(
                encode_utf8(text@),
                meta,
            ),
            token < final(self).collected().texts.len(),
            final(self).collected().texts.len() <= old(self).collected().texts.len() + 1,
            old(self).collected().texts.len() <= final(self).collected().texts.len(),
    {
        let ghost c = self.collected();
        let ghost key = (shape_tag(meta), encode_utf8(text@));
        let tag: u64 = tag_for(&meta);
        match self.index.find(tag, text.as_str().as_bytes()) {
            Some(token) => {
                proof {
                    let i = c.keys().index_of(key);
                    assert(c.keys().contains(key));
                    assert(c.keys()[i] == key);
                    self.index.lemma_distinct();
                    assert(i == token);
                }
                token
            },
            None => {
                let len: usize = str_len(text.as_str());
                let token: u32 = self.index.push(tag, text.as_str().as_bytes());
                self.mem_estimate = self.mem_estimate.saturating_add(len).saturating_add(
                    INTERNED_TOKEN_OVERHEAD,
                );
                self.token_texts.push(text);
                self.token_meta.push(meta);
                self.token_postings.push(Vec::new());
                proof {
                    let d = self.collected();
                    let e = c.interned(encode_utf8(text@), meta).0;
                    assert(!c.keys().contains(key));
                    assert(d.texts =~= e.texts);
                    assert(d.postings =~= e.postings);
                    assert(d.words =~= c.words);
                    assert(d.keys() =~= c.keys().push(key));
                    assert(d =~= e);
                    assert forall|t: u32| #[trigger] d.has_word(t) <==> c.has_word(t) by {
                        if c.has_word(t) {
                            let k = choose|k: int| 0 <= k < c.words.len() && c.words[k].token == t;
                            assert(d.words[k].token == t);
                        }
                    }
                }
                token
            },
        }
    }
}

impl SfxCollectorV3 {
    /// Adds a chunk posting.
    fn post(&mut self, token: u32, p: (u32, u32, u32, u32))
        requires
            old(self).sound(),
            token < old(self).collected().texts.len(),
        ensures
            final(self).sound(),
            final(self).same_settings(old(self)),
            final(self).collected() == old(self).collected().posted(token, p),
    {
        let ghost c = self.collected();
        self.mem_estimate = self.mem_estimate.saturating_add(CHUNK_POSTING_BYTES);
        self.token_postings[token as usize].push(p);
        proof {
            let d = self.collected();
            assert(d.postings =~= c.posted(token, p).postings);
            assert(d.keys() =~= c.keys());
            assert(d =~= c.posted(token, p));
            lemma_same_words(c, d);
        }
    }

    /// Links tokens that follow each other.
    fn link(&mut self, tokens: &Vec<u32>)
        requires
            old(self).sound(),
            forall|i: int|
                0 <= i < tokens@.len() ==> (#[trigger] tokens@[i]) < old(self).collected().texts.len(),
        ensures
            final(self).sound(),
            final(self).same_settings(old(self)),
            final(self).collected() == old(self).collected().linked(tokens@),
    {
        let ghost c = self.collected();
        if tokens.len() <= 1 {
            return;
        }
        assert(c.pairs + links(tokens@, 1) =~= c.pairs);
        let mut i: usize = 1;
        while i < tokens.len()
            invariant
                1 <= i <= tokens@.len(),
                self.sound(),
                self.same_settings(old(self)),
                forall|i: int|
                    0 <= i < tokens@.len() ==> (#[trigger] tokens@[i]) < c.texts.len(),
                self.collected() == (Collected {
                    pairs: c.pairs + links(tokens@, i as int),
                    mem: capped(c.mem, SIBLING_PAIR_BYTES * (i - 1)),
                    ..c
                }),
            decreases tokens@.len() - i,
        {
            let ghost before = self.collected();
            self.mem_estimate = self.mem_estimate.saturating_add(SIBLING_PAIR_BYTES);
            self.sibling_pairs.push((tokens[i - 1], tokens[i]));
            i += 1;
            proof {
                let d = self.collected();
                assert(links(tokens@, i as int) =~= links(tokens@, i - 1).push(
                    (tokens@[i - 2], tokens@[i - 1]),
                ));
                assert(d.pairs =~= c.pairs + links(tokens@, i as int));
                assert(SIBLING_PAIR_BYTES * (i - 1) == SIBLING_PAIR_BYTES * (i - 2) + SIBLING_PAIR_BYTES)
                    by (nonlinear_arith);
                assert(d.keys() =~= before.keys());
                lemma_same_words(before, d);
            }
        }
    }

    /// Whether the token has no word entry yet; from now on it has one.
    fn mark_ws_entry(pushed: &mut Vec<bool>, token: u32) -> (r: bool)
        ensures
            r == !(token < old(pushed)@.len() && old(pushed)@[token as int]),
            token < final(pushed)@.len(),
            final(pushed)@[token as int],
            forall|t: u32|
                t != token ==> #[trigger] marked(final(pushed)@, t) == marked(old(pushed)@, t),
    {
        let i: usize = token as usize;
        let ghost first = pushed@;
        while pushed.len() <= i
            invariant
                first.len() <= pushed@.len(),
                pushed@.len() <= i + 1 || pushed@.len() == first.len(),
                forall|k: int| 0 <= k < first.len() ==> pushed@[k] == first[k],
                forall|k: int| first.len() <= k < pushed@.len() ==> !pushed@[k],
            decreases i + 1 - pushed@.len(),
        {
            pushed.push(false);
        }
        if pushed[i] {
            return false;
        }
        pushed[i] = true;
        true
    }

    /// Adds a word entry, unless its token has one.
    fn enter_word(&mut self, e: WordStrippedEntry)
        requires
            old(self).sound(),
            e.first_intern_ord < old(self).collected().texts.len(),
        ensures
            final(self).sound(),
            final(self).same_settings(old(self)),
            final(self).collected() == old(self).collected().worded(entry_of(e)),
    {
        let ghost c = self.collected();
        let token: u32 = e.first_intern_ord;
        self.mem_estimate = self.mem_estimate.saturating_add(WORD_STRIPPED_OVERHEAD);
        let first = Self::mark_ws_entry(&mut self.ws_entry_pushed, token);
        assert(marked(old(self).ws_entry_pushed@, token) == c.has_word(token));
        if first {
            self.word_stripped_entries.push(e);
        }
        proof {
            let d = self.collected();
            assert(d.words =~= c.worded(entry_of(e)).words);
            assert(d.keys() =~= c.keys());
            assert(d =~= c.worded(entry_of(e)));
            assert forall|t: u32| #[trigger] d.has_word(t) <==> t < self.ws_entry_pushed@.len()
                && self.ws_entry_pushed@[t as int] by {
                assert(marked(self.ws_entry_pushed@, t) == (t < self.ws_entry_pushed@.len()
                    && self.ws_entry_pushed@[t as int]));
                if t == token {
                    if first {
                        assert(d.words[d.words.len() - 1].token == t);
                    } else {
                        assert(d.words == c.words);
                        let k = choose|k: int| 0 <= k < c.words.len() && c.words[k].token == t;
                        assert(d.words[k].token == t);
                    }
                } else {
                    assert(c.has_word(t) == marked(old(self).ws_entry_pushed@, t));
                    if c.has_word(t) {
                        let k = choose|k: int| 0 <= k < c.words.len() && c.words[k].token == t;
                        assert(d.words[k].token == t);
                    }
                    if d.has_word(t) {
                        let k = choose|k: int| 0 <= k < d.words.len() && d.words[k].token == t;
                        assert(c.words[k].token == t);
                    }
                }
            }
        }
    }

    /// Adds a word posting.
    fn post_word(&mut self, token: u32, p: (u32, u32, u32, u32, u32, u16))
        requires
            old(self).sound(),
            token < old(self).collected().texts.len(),
        ensures
            final(self).sound(),
            final(self).same_settings(old(self)),
            final(self).collected() == old(self).collected().word_posted(token, p),
    {
        let ghost c = self.collected();
        let ghost first = c.word_postings;
        assert(first =~= offset_table::padded(first, first.len() as int, Seq::empty()));
        while self.word_postings.len() <= token as usize
            invariant
                first.len() <= self.word_postings@.len(),
                self.word_postings@.len() <= token + 1 || self.word_postings@.len() == first.len(),
                contents(self.word_postings@) == offset_table::padded(
                    first,
                    self.word_postings@.len() as int,
                    Seq::empty(),
                ),
                *self == (SfxCollectorV3 { word_postings: self.word_postings, ..*old(self) }),
            decreases token + 1 - self.word_postings@.len(),
        {
            let ghost before = contents(self.word_postings@);
            self.word_postings.push(Vec::new());
            assert(contents(self.word_postings@) =~= before.push(Seq::empty()));
            assert(contents(self.word_postings@) =~= offset_table::padded(
                first,
                self.word_postings@.len() as int,
                Seq::empty(),
            ));
        }
        assert(contents(self.word_postings@) =~= offset_table::padded(first, token + 1, Seq::empty()));
        self.mem_estimate = self.mem_estimate.saturating_add(WORD_POSTING_BYTES);
        self.word_postings[token as usize].push(p);
        proof {
            let d = self.collected();
            assert(d.word_postings =~= c.word_posted(token, p).word_postings);
            assert(d.keys() =~= c.keys());
            assert(d =~= c.word_posted(token, p));
            lemma_same_words(c, d);
        }
    }
}

/// Whether the token is marked.
spec fn marked(pushed: Seq<bool>, t: u32) -> bool {
    t < pushed.len() && pushed[t as int]
}

proof fn lemma_same_words(c: Collected, d: Collected)
    requires
        c.words == d.words,
    ensures
        forall|t: u32| c.has_word(t) == #[trigger] d.has_word(t),
{
    assert forall|t: u32| c.has_word(t) == #[trigger] d.has_word(t) by {
        if c.has_word(t) {
            let k = choose|k: int| 0 <= k < c.words.len() && c.words[k].token == t;
            assert(d.words[k].token == t);
        }
        if d.has_word(t) {
            let k = choose|k: int| 0 <= k < d.words.len() && d.words[k].token == t;
            assert(c.words[k].token == t);
        }
    }
}

/// Whether the chunks of a value are well formed and its length fits.
pub open spec fn value_ok(chunks: Seq<Chunk>) -> bool {
    &&& forall|i: int| 0 <= i < chunks.len() ==> chunk_ok(#[trigger] chunks[i])
    &&& offset_of(chunks, chunks.len() as int) <= u32::MAX
}

/// Chunks start in order.
pub proof fn lemma_offset_mono(chunks: Seq<Chunk>, i: int, j: int)
    requires
        i <= j,
    ensures
        0 <= offset_of(chunks, i) <= offset_of(chunks, j),
    decreases j,
{
    if i < j && j > 0 {
        lemma_offset_mono(chunks, i, j - 1);
    }
    if i == j && i > 0 {
        lemma_offset_mono(chunks, i - 1, i - 1);
    }
}

proof fn lemma_content_fits(chunks: Seq<Chunk>, a: int, b: int)
    requires
        0 <= a <= b <= chunks.len(),
        value_ok(chunks),
    ensures
        offset_of(chunks, a) + content_of(chunks, a, b).len() <= offset_of(chunks, b),
    decreases b - a,
{
    if a < b {
        lemma_content_fits(chunks, a, b - 1);
        assert(chunk_ok(chunks[b - 1]));
    }
}

proof fn lemma_holding(chunks: Seq<Chunk>, a: int, b: int, at: int)
    requires
        0 <= a < b,
        offset_of(chunks, a) <= at,
    ensures
        a <= chunk_holding(chunks, a, b, at) < b,
        offset_of(chunks, chunk_holding(chunks, a, b, at)) <= at,
    decreases b - a,
{
    if a < b - 1 && !(offset_of(chunks, a) <= at < offset_of(chunks, a + 1)) {
        lemma_holding(chunks, a + 1, b, at);
    }
}

proof fn lemma_ranges(chunks: Seq<Chunk>, k: int)
    requires
        0 <= k <= chunks.len(),
    ensures
        word_ranges(chunks, k).len() <= k,
        forall|i: int|
            0 <= i < word_ranges(chunks, k).len() ==> 0 <= (#[trigger] word_ranges(chunks, k)[i]).0
                < word_ranges(chunks, k)[i].1 <= k,
    decreases k,
{
    if k > 0 {
        lemma_ranges(chunks, k - 1);
    }
}

impl SfxCollectorV3 {
    /// Adds chunk `i`.
    fn add_chunk(&mut self, chunks: &Vec<Chunk>, i: usize, from: u32, to: u32) -> (token: u32)
        requires
            old(self).sound(),
            value_ok(chunks@),
            i < chunks@.len(),
            from == offset_of(chunks@, i as int),
            to == offset_of(chunks@, i + 1),
            old(self).collected().texts.len() < u32::MAX,
            old(self).collected().ti + i <= u32::MAX,
        ensures
            final(self).sound(),
            final(self).same_settings(old(self)),
            (final(self).collected(), token) == chunk_step(
                old(self).collected(),
                chunks@,
                old(self).borrowed(),
                i as int,
            ),
            token < final(self).collected().texts.len(),
            old(self).collected().texts.len() <= final(self).collected().texts.len(),
            final(self).collected().texts.len() <= old(self).collected().texts.len() + 1,
    {
        let chunk = &chunks[i];
        assert(chunk_ok(*chunk));
        let over = if chunks.len() - i > 1 {
            str_head(chunks[i + 1].text.as_str(), self.overlap)
        } else {
            proof {
                reveal_strlit("");
                assert(encode_utf8(""@) =~= Seq::empty());
            }
            ""
        };
        let over_len: usize = str_len(over);
        let own_len: usize = str_len(chunk.text.as_str());
        let extended = joined(chunk.text.as_str(), over);
        let doc: u32 = self.current_doc_id;
        let ti: u32 = self.current_value_ti_start + i as u32;
        let token: u32 = self.intern_extended(
            extended,
            TokenMetaV3 {
                own_len: own_len as u16,
                sep_len: chunk.meta.sep_len as u8,
                overlap_len: over_len as u8,
                is_word_start: chunk.meta.is_word_start,
                word_id: chunk.meta.word_id,
                is_word_stripped: false,
            },
        );
        self.post(token, (doc, ti, from, to));
        token
    }
}

/// Where the chunks start, and where the last one ends.
fn chunk_starts(chunks: &Vec<Chunk>) -> (starts: Vec<u32>)
    requires
        value_ok(chunks@),
    ensures
        starts@.len() == chunks@.len() + 1,
        forall|i: int| 0 <= i <= chunks@.len() ==> #[trigger] starts@[i] == offset_of(chunks@, i),
{
    let mut starts: Vec<u32> = Vec::new();
    let mut at: u32 = 0;
    starts.push(0);
    let mut i: usize = 0;
    while i < chunks.len()
        invariant
            value_ok(chunks@),
            i <= chunks@.len(),
            starts@.len() == i + 1,
            at == offset_of(chunks@, i as int),
            forall|k: int| 0 <= k <= i ==> #[trigger] starts@[k] == offset_of(chunks@, k),
        decreases chunks@.len() - i,
    {
        let len: usize = str_len(chunks[i].text.as_str());
        proof {
            assert(chunk_ok(chunks@[i as int]));
            lemma_offset_mono(chunks@, i + 1, chunks@.len() as int);
        }
        at = at + len as u32;
        starts.push(at);
        i += 1;
    }
    starts
}

/// The words: first chunk, and one past the last.
fn find_words(chunks: &Vec<Chunk>) -> (ranges: Vec<(usize, usize)>)
    ensures
        ranges@.len() == word_ranges(chunks@, chunks@.len() as int).len(),
        forall|i: int|
            0 <= i < ranges@.len() ==> (#[trigger] ranges@[i]).0 == word_ranges(
                chunks@,
                chunks@.len() as int,
            )[i].0 && ranges@[i].1 == word_ranges(chunks@, chunks@.len() as int)[i].1,
{
    let mut ranges: Vec<(usize, usize)> = Vec::new();
    let mut i: usize = 0;
    while i < chunks.len()
        invariant
            i <= chunks@.len(),
            ranges@.len() == word_ranges(chunks@, i as int).len(),
            forall|k: int|
                0 <= k < ranges@.len() ==> (#[trigger] ranges@[k]).0 == word_ranges(
                    chunks@,
                    i as int,
                )[k].0 && ranges@[k].1 == word_ranges(chunks@, i as int)[k].1,
        decreases chunks@.len() - i,
    {
        proof {
            lemma_ranges(chunks@, i as int);
        }
        let n: usize = ranges.len();
        let goes_on = n > 0 && chunks[ranges[n - 1].0].meta.word_id == chunks[i].meta.word_id;
        if goes_on {
            let first: usize = ranges[n - 1].0;
            ranges[n - 1] = (first, i + 1);
        } else {
            ranges.push((i, i + 1));
        }
        i += 1;
    }
    ranges
}

/// The content of the chunks from `a` up to `b`.
fn word_content(chunks: &Vec<Chunk>, a: usize, b: usize) -> (content: String)
    requires
        a <= b <= chunks@.len(),
        value_ok(chunks@),
    ensures
        encode_utf8(content@) == content_of(chunks@, a as int, b as int),
{
    let mut content = String::new();
    let mut i: usize = a;
    assert(encode_utf8(content@) =~= Seq::empty());
    while i < b
        invariant
            a <= i <= b <= chunks@.len(),
            value_ok(chunks@),
            encode_utf8(content@) == content_of(chunks@, a as int, i as int),
        decreases b - i,
    {
        assert(chunk_ok(chunks@[i as int]));
        let piece = str_upto(chunks[i].text.as_str(), chunks[i].meta.content_len);
        proof {
            text::lemma_encode_add(content@, piece@);
        }
        push_text(&mut content, piece);
        i += 1;
    }
    content
}

/// What a word that ends before chunk `end` borrows.
fn next_overlap<'a>(chunks: &'a Vec<Chunk>, end: usize, overlap: usize) -> (over: &'a str)
    requires
        end <= chunks@.len(),
    ensures
        encode_utf8(over@) == word_overlap(chunks@, end as int, overlap as int),
{
    let mut i: usize = end;
    while i < chunks.len()
        invariant
            i <= chunks@.len(),
            next_content(chunks@, end as int) == next_content(chunks@, i as int),
        decreases chunks@.len() - i,
    {
        let len: usize = chunks[i].meta.content_len;
        if len > 0 {
            let n: usize = if overlap <= len {
                overlap
            } else {
                len
            };
            return str_head(chunks[i].text.as_str(), n);
        }
        i += 1;
    }
    proof {
        reveal_strlit("");
        assert(encode_utf8(""@) =~= Seq::empty());
    }
    ""
}

/// The first chunk from `a` up to `b` that holds byte `at`, or the last.
fn find_holding(chunks: &Vec<Chunk>, starts: &Vec<u32>, a: usize, b: usize, at: u32) -> (r: usize)
    requires
        a < b <= chunks@.len(),
        starts@.len() == chunks@.len() + 1,
        forall|i: int| 0 <= i <= chunks@.len() ==> #[trigger] starts@[i] == offset_of(chunks@, i),
    ensures
        r == chunk_holding(chunks@, a as int, b as int, at as int),
{
    let mut i: usize = a;
    while i < b - 1
        invariant
            a <= i < b <= chunks@.len(),
            starts@.len() == chunks@.len() + 1,
            forall|i: int|
                0 <= i <= chunks@.len() ==> #[trigger] starts@[i] == offset_of(chunks@, i),
            chunk_holding(chunks@, a as int, b as int, at as int) == chunk_holding(
                chunks@,
                i as int,
                b as int,
                at as int,
            ),
        decreases b - i,
    {
        assert(starts@[i as int] == offset_of(chunks@, i as int));
        assert(starts@[i + 1] == offset_of(chunks@, i + 1));
        if starts[i] <= at && at < starts[i + 1] {
            return i;
        }
        i += 1;
    }
    i
}

impl SfxCollectorV3 {
    /// Adds the last bytes of a long word.
    fn add_tail(
        &mut self,
        chunks: &Vec<Chunk>,
        starts: &Vec<u32>,
        tokens: &Vec<u32>,
        content: &String,
        over: &str,
        a: usize,
        b: usize,
    )
        requires
            old(self).sound(),
            value_ok(chunks@),
            a < b <= chunks@.len(),
            chunks@.len() <= u32::MAX,
            tokens@.len() == chunks@.len(),
            starts@.len() == chunks@.len() + 1,
            forall|i: int| 0 <= i <= chunks@.len() ==> #[trigger] starts@[i] == offset_of(chunks@, i),
            encode_utf8(content@) == content_of(chunks@, a as int, b as int),
            encode_utf8(content@).len() > DEFAULT_MAX_TOKEN,
            old(self).collected().texts.len() < u32::MAX,
            old(self).collected().ti + chunks@.len() <= u32::MAX,
        ensures
            final(self).sound(),
            final(self).same_settings(old(self)),
            final(self).collected() == tail_step(
                old(self).collected(),
                chunks@,
                tokens@,
                encode_utf8(over@),
                a as int,
                b as int,
            ),
            old(self).collected().texts.len() <= final(self).collected().texts.len(),
            final(self).collected().texts.len() <= old(self).collected().texts.len() + 1,
    {
        let len: usize = str_len(content.as_str());
        let ts: usize = boundary_from(content.as_str(), len - DEFAULT_MAX_TOKEN);
        let tail = str_from(content.as_str(), ts);
        let tail_len: usize = str_len(tail);
        let over_len: usize = str_len(over);
        assert(chunk_ok(chunks@[b - 1]));
        let sep_len: usize = chunks[b - 1].meta.sep_len;
        let own_len: u16 = (tail_len + sep_len) as u16;
        let doc: u32 = self.current_doc_id;
        let ti: u32 = self.current_value_ti_start;
        proof {
            lemma_content_fits(chunks@, a as int, b as int);
            lemma_offset_mono(chunks@, b as int, chunks@.len() as int);
            assert(starts@[a as int] == offset_of(chunks@, a as int));
        }
        let from: u32 = starts[a] + ts as u32;
        let first: usize = find_holding(chunks, starts, a, b, from);
        proof {
            lemma_holding(chunks@, a as int, b as int, from as int);
            assert(starts@[first as int] == offset_of(chunks@, first as int));
        }
        let token: u32 = self.intern_extended(
            joined(tail, over),
            TokenMetaV3 {
                own_len,
                sep_len: sep_len as u8,
                overlap_len: over_len as u8,
                is_word_start: false,
                word_id: chunks[b - 1].meta.word_id,
                is_word_stripped: true,
            },
        );
        self.enter_word(
            WordStrippedEntry {
                word_content: str_copy(tail),
                content_overlap: str_copy(over),
                first_intern_ord: token,
                first_chunk_intern_ord: tokens[first],
                last_chunk_intern_ord: tokens[b - 1],
                first_own_len: own_len,
                last_sep_len: sep_len as u8,
                is_word_start: false,
                num_chunks: (b - first) as u32,
            },
        );
        self.post_word(
            token,
            (
                doc,
                ti + first as u32,
                ti + (b - 1) as u32,
                from,
                from + tail_len as u32,
                (from - starts[first]) as u16,
            ),
        );
    }
}


impl SfxCollectorV3 {
    /// Adds the word of the chunks from `a` up to `b`.
    fn add_word(
        &mut self,
        chunks: &Vec<Chunk>,
        starts: &Vec<u32>,
        tokens: &Vec<u32>,
        a: usize,
        b: usize,
    ) -> (word: Option<u32>)
        requires
            old(self).sound(),
            value_ok(chunks@),
            a < b <= chunks@.len(),
            chunks@.len() <= u32::MAX,
            tokens@.len() == chunks@.len(),
            starts@.len() == chunks@.len() + 1,
            forall|i: int| 0 <= i <= chunks@.len() ==> #[trigger] starts@[i] == offset_of(chunks@, i),
            old(self).collected().texts.len() + 1 < u32::MAX,
            old(self).collected().ti + chunks@.len() <= u32::MAX,
        ensures
            final(self).sound(),
            final(self).same_settings(old(self)),
            (final(self).collected(), word) == word_step(
                old(self).collected(),
                chunks@,
                tokens@,
                old(self).borrowed(),
                a as int,
                b as int,
            ),
            word matches Some(t) ==> t < final(self).collected().texts.len(),
            old(self).collected().texts.len() <= final(self).collected().texts.len(),
            final(self).collected().texts.len() <= old(self).collected().texts.len() + 2,
    {
        let content = word_content(chunks, a, b);
        let len: usize = str_len(content.as_str());
        if len == 0 {
            return None;
        }
        let over = next_overlap(chunks, b, self.overlap);
        let over_len: usize = str_len(over);
        assert(chunk_ok(chunks@[b - 1]));
        let sep_len: usize = chunks[b - 1].meta.sep_len;
        let own_len: u16 = if len <= 65535 - sep_len {
            (len + sep_len) as u16
        } else {
            65535
        };
        let doc: u32 = self.current_doc_id;
        let ti: u32 = self.current_value_ti_start;
        proof {
            lemma_content_fits(chunks@, a as int, b as int);
            lemma_offset_mono(chunks@, b as int, chunks@.len() as int);
            assert(starts@[a as int] == offset_of(chunks@, a as int));
        }
        let token: u32 = self.intern_extended(
            joined(content.as_str(), over),
            TokenMetaV3 {
                own_len,
                sep_len: sep_len as u8,
                overlap_len: over_len as u8,
                is_word_start: chunks[a].meta.is_word_start,
                word_id: chunks[a].meta.word_id,
                is_word_stripped: true,
            },
        );
        self.enter_word(
            WordStrippedEntry {
                word_content: str_copy(content.as_str()),
                content_overlap: str_copy(over),
                first_intern_ord: token,
                first_chunk_intern_ord: tokens[a],
                last_chunk_intern_ord: tokens[b - 1],
                first_own_len: own_len,
                last_sep_len: sep_len as u8,
                is_word_start: chunks[a].meta.is_word_start,
                num_chunks: (b - a) as u32,
            },
        );
        self.post_word(
            token,
            (doc, ti + a as u32, ti + (b - 1) as u32, starts[a], starts[a] + len as u32, 0),
        );
        if len > MAX_SUFFIX_INDEX + DEFAULT_MAX_TOKEN {
            self.add_tail(chunks, starts, tokens, &content, over, a, b);
        }
        Some(token)
    }

    /// Adds a value, given as its chunks.
    pub fn add_value(&mut self, chunks: &Vec<Chunk>)
        requires
            old(self).wf(),
            value_ok(chunks@),
            old(self).collected().texts.len() + 3 * chunks@.len() < u32::MAX,
            old(self).collected().ti + chunks@.len() < u32::MAX,
        ensures
            final(self).wf(),
            final(self).collected() == after_value(
                old(self).collected(),
                chunks@,
                old(self).borrowed(),
                old(self).keeps_positions(),
            ),
            final(self).borrowed() == old(self).borrowed(),
            final(self).keeps_positions() == old(self).keeps_positions(),
            final(self).by_dictionary() == old(self).by_dictionary(),
            final(self).ids() == old(self).ids(),
            final(self).fresh() == old(self).fresh(),
            final(self).in_doc() == old(self).in_doc(),
            final(self).shortest_suffix() == old(self).shortest_suffix(),
            final(self).longest_chunk() == old(self).longest_chunk(),
    {
        let n: usize = chunks.len();
        let ghost c = self.collected();
        let ghost ov = self.borrowed();
        if n == 0 {
            self.advance(1);
            proof {
                collector_words::a_value_names_its_words(c, chunks@, ov, self.keeps_positions());
            }
            return;
        }
        let starts = chunk_starts(chunks);
        let mut tokens: Vec<u32> = Vec::new();
        let mut i: usize = 0;
        while i < n
            invariant
                i <= n,
                n == chunks@.len(),
                value_ok(chunks@),
                starts@.len() == n + 1,
                forall|i: int| 0 <= i <= n ==> #[trigger] starts@[i] == offset_of(chunks@, i),
                self.sound(),
                self.same_settings(old(self)),
                ov == self.borrowed(),
                c.ti + n < u32::MAX,
                c.texts.len() + 3 * n < u32::MAX,
                c.texts.len() <= self.collected().texts.len() <= c.texts.len() + i,
                (self.collected(), tokens@) == after_chunks(c, chunks@, ov, i as int),
                self.collected().ti == c.ti,
                tokens@.len() == i,
                forall|k: int|
                    0 <= k < i ==> (#[trigger] tokens@[k]) < self.collected().texts.len(),
            decreases n - i,
        {
            assert(starts@[i as int] == offset_of(chunks@, i as int));
            assert(starts@[i + 1] == offset_of(chunks@, i + 1));
            let token: u32 = self.add_chunk(chunks, i, starts[i], starts[i + 1]);
            tokens.push(token);
            i += 1;
        }
        if self.positions {
            self.link(&tokens);
        }
        let ghost e = self.collected();
        let ranges = find_words(chunks);
        proof {
            lemma_ranges(chunks@, n as int);
        }
        let ghost spans = word_ranges(chunks@, n as int);
        let mut words: Vec<u32> = Vec::new();
        let mut w: usize = 0;
        while w < ranges.len()
            invariant
                w <= ranges@.len(),
                ranges@.len() == spans.len(),
                spans.len() <= n,
                n == chunks@.len(),
                forall|k: int|
                    0 <= k < spans.len() ==> 0 <= (#[trigger] spans[k]).0 < spans[k].1 <= n,
                forall|k: int|
                    0 <= k < ranges@.len() ==> (#[trigger] ranges@[k]).0 == spans[k].0
                        && ranges@[k].1 == spans[k].1,
                value_ok(chunks@),
                starts@.len() == n + 1,
                forall|i: int| 0 <= i <= n ==> #[trigger] starts@[i] == offset_of(chunks@, i),
                tokens@.len() == n,
                self.sound(),
                self.same_settings(old(self)),
                ov == self.borrowed(),
                c.ti + n < u32::MAX,
                c.texts.len() + 3 * n < u32::MAX,
                self.collected().texts.len() <= c.texts.len() + n + 2 * w,
                (self.collected(), words@) == after_words(e, chunks@, tokens@, ov, spans, w as int),
                self.collected().ti == c.ti,
                forall|k: int|
                    0 <= k < words@.len() ==> (#[trigger] words@[k])
                        < self.collected().texts.len(),
            decreases ranges@.len() - w,
        {
            let (a, b) = ranges[w];
            assert(ranges@[w as int].0 == spans[w as int].0);
            match self.add_word(chunks, &starts, &tokens, a, b) {
                Some(t) => {
                    words.push(t);
                },
                None => {},
            }
            w += 1;
        }
        if self.positions {
            self.link(&words);
        }
        self.advance(n as u32 + 1);
        proof {
            self.index.lemma_distinct();
            collector_words::a_value_names_its_words(c, chunks@, ov, self.keeps_positions());
        }
    }

    /// Moves on by `n` positions.
    fn advance(&mut self, n: u32)
        requires
            old(self).sound(),
            old(self).collected().ti + n <= u32::MAX,
        ensures
            final(self).sound(),
            final(self).same_settings(old(self)),
            final(self).collected() == (Collected {
                ti: (old(self).collected().ti + n) as u32,
                ..old(self).collected()
            }),
    {
        let ghost c = self.collected();
        self.current_value_ti_start = self.current_value_ti_start + n;
        proof {
            let d = self.collected();
            assert(d.keys() =~= c.keys());
            lemma_same_words(c, d);
        }
    }
}

/// How much of a text a predicate takes from its start: `n` characters that it
/// accepts, the next one it does not.
pub open spec fn takes<F: Fn(char) -> bool>(f: F, text: Seq<char>, n: int) -> bool {
    &&& 0 <= n <= text.len()
    &&& forall|i: int| 0 <= i < n ==> call_ensures(f, (#[trigger] text[i],), true)
    &&& n < text.len() ==> call_ensures(f, (text[n],), false)
}

/// The characters at the start of a text up to the first that is no content.
pub fn extract_content_prefix<F: Fn(char) -> bool>(text: &str, is_content_char: &F) -> (r: String)
    requires
        forall|c: char| #[trigger] call_requires(*is_content_char, (c,)),
    ensures
        r@.is_prefix_of(text@),
        takes(*is_content_char, text@, r@.len() as int),
{
    let len: usize = text.unicode_len();
    let mut n: usize = 0;
    while n < len
        invariant
            n <= len,
            len == text@.len(),
            forall|c: char| #[trigger] call_requires(*is_content_char, (c,)),
            forall|i: int|
                0 <= i < n ==> call_ensures(*is_content_char, (#[trigger] text@[i],), true),
        decreases len - n,
    {
        let c = text.get_char(n);
        if !is_content_char(c) {
            return str_copy(text.substring_char(0, n));
        }
        n += 1;
    }
    str_copy(text.substring_char(0, n))
}

impl Default for SfxCollectorV3 {
    fn default() -> (r: Self)
        ensures
            r.wf(),
            r.collected() == nothing_collected(),
            r.borrowed() == DEFAULT_OVERLAP,
            r.keeps_positions(),
            !r.by_dictionary(),
            r.ids() == Seq::<u64>::empty(),
            r.fresh() == Seq::<bool>::empty(),
            !r.in_doc(),
            r.shortest_suffix() == 1,
            r.longest_chunk() == DEFAULT_MAX_TOKEN,
    {
        Self::new()
    }
}

/// Nothing collected.
pub open spec fn nothing_collected() -> Collected {
    Collected {
        texts: Seq::empty(),
        metas: Seq::empty(),
        postings: Seq::empty(),
        words: Seq::empty(),
        word_postings: Seq::empty(),
        pairs: Seq::empty(),
        doc: 0,
        ti: 0,
        mem: 0,
    }
}

impl SfxCollectorV3 {
    /// An empty collector with the default sizes; every suffix is to be
    /// indexed.
    pub fn new() -> (r: Self)
        ensures
            r.wf(),
            r.collected() == nothing_collected(),
            r.borrowed() == DEFAULT_OVERLAP,
            r.keeps_positions(),
            !r.by_dictionary(),
            r.ids() == Seq::<u64>::empty(),
            r.fresh() == Seq::<bool>::empty(),
            !r.in_doc(),
            r.shortest_suffix() == 1,
            r.longest_chunk() == DEFAULT_MAX_TOKEN,
    {
        Self::with_config(DEFAULT_MAX_TOKEN, DEFAULT_OVERLAP, 1)
    }

    /// An empty collector: bytes of the longest chunk, bytes borrowed from the
    /// next token, and bytes of the shortest suffix to index.
    pub fn with_config(max_token: usize, overlap: usize, min_suffix_len: usize) -> (r: Self)
        ensures
            r.wf(),
            r.collected() == nothing_collected(),
            r.borrowed() == overlap,
            r.keeps_positions(),
            !r.by_dictionary(),
            r.ids() == Seq::<u64>::empty(),
            r.fresh() == Seq::<bool>::empty(),
            !r.in_doc(),
            r.shortest_suffix() == min_suffix_len,
            r.longest_chunk() == max_token,
    {
        let r = SfxCollectorV3 {
            index: KeyIndex::new(),
            token_texts: Vec::new(),
            token_meta: Vec::new(),
            token_postings: Vec::new(),
            word_stripped_entries: Vec::new(),
            ws_entry_pushed: Vec::new(),
            word_postings: Vec::new(),
            sibling_pairs: Vec::new(),
            positions: true,
            doc_active: false,
            current_doc_id: 0,
            current_value_ti_start: 0,
            mem_estimate: 0,
            dictionary: false,
            global_ids: Vec::new(),
            minted: Vec::new(),
            max_token,
            overlap,
            min_suffix_len,
        };
        proof {
            let c = r.collected();
            assert(c =~= nothing_collected());
            assert(c.keys() =~= Seq::<(u64, Seq<u8>)>::empty());
        }
        r
    }

    /// The collector for an index without positions: it collects no links.
    pub fn without_positions(self) -> (r: Self)
        requires
            self.wf(),
        ensures
            r.wf(),
            r.collected() == self.collected(),
            !r.keeps_positions(),
            r.borrowed() == self.borrowed(),
            r.by_dictionary() == self.by_dictionary(),
            r.ids() == self.ids(),
            r.fresh() == self.fresh(),
            r.in_doc() == self.in_doc(),
            r.shortest_suffix() == self.shortest_suffix(),
            r.longest_chunk() == self.longest_chunk(),
    {
        let mut r = self;
        r.positions = false;
        r
    }

    /// The collector for an index with a shard dictionary: every token gets an
    /// id of the dictionary.
    pub fn with_dictionary(self) -> (r: Self)
        requires
            self.wf(),
        ensures
            r.wf(),
            r.collected() == self.collected(),
            r.by_dictionary(),
            r.keeps_positions() == self.keeps_positions(),
            r.borrowed() == self.borrowed(),
            r.ids() == self.ids(),
            r.fresh() == self.fresh(),
            r.in_doc() == self.in_doc(),
            r.shortest_suffix() == self.shortest_suffix(),
            r.longest_chunk() == self.longest_chunk(),
    {
        let mut r = self;
        r.dictionary = true;
        r
    }

    /// The first token that has no id yet: its text and its shape.
    pub fn token_without_id(&self) -> (r: Option<(&str, TokenMetaV3)>)
        requires
            self.wf(),
        ensures
            r is Some <==> self.ids().len() < self.collected().texts.len(),
            r matches Some(t) ==> encode_utf8(t.0@) == self.collected().texts[self.ids().len() as int]
                && t.1 == self.collected().metas[self.ids().len() as int] && shaped(t.1),
    {
        let i: usize = self.global_ids.len();
        if i < self.token_texts.len() {
            Some((self.token_texts[i].as_str(), self.token_meta[i]))
        } else {
            None
        }
    }

    /// Gives the first token that has no id the id `global`; `minted` says
    /// whether the dictionary had not known the token.
    pub fn assign_id(&mut self, global: u64, minted: bool)
        requires
            old(self).wf(),
            old(self).ids().len() < old(self).collected().texts.len(),
        ensures
            final(self).wf(),
            final(self).collected() == old(self).collected(),
            final(self).ids() == old(self).ids().push(global),
            final(self).fresh() == old(self).fresh().push(minted),
            final(self).borrowed() == old(self).borrowed(),
            final(self).keeps_positions() == old(self).keeps_positions(),
            final(self).by_dictionary() == old(self).by_dictionary(),
            final(self).in_doc() == old(self).in_doc(),
            final(self).shortest_suffix() == old(self).shortest_suffix(),
            final(self).longest_chunk() == old(self).longest_chunk(),
    {
        self.global_ids.push(global);
        self.minted.push(minted);
    }

    /// Starts a document: its positions start at 0.
    pub fn begin_doc(&mut self)
        requires
            old(self).wf(),
        ensures
            final(self).wf(),
            final(self).collected() == (Collected { ti: 0, ..old(self).collected() }),
            final(self).in_doc(),
            final(self).borrowed() == old(self).borrowed(),
            final(self).keeps_positions() == old(self).keeps_positions(),
            final(self).by_dictionary() == old(self).by_dictionary(),
            final(self).ids() == old(self).ids(),
            final(self).fresh() == old(self).fresh(),
            final(self).shortest_suffix() == old(self).shortest_suffix(),
            final(self).longest_chunk() == old(self).longest_chunk(),
    {
        let ghost c = self.collected();
        self.doc_active = true;
        self.current_value_ti_start = 0;
        proof {
            let d = self.collected();
            assert(d.keys() =~= c.keys());
            lemma_same_words(c, d);
        }
    }

    /// Ends a document: the next one has the next number.
    pub fn end_doc(&mut self)
        requires
            old(self).wf(),
            old(self).collected().doc < u32::MAX,
        ensures
            final(self).wf(),
            final(self).collected() == (Collected {
                doc: (old(self).collected().doc + 1) as u32,
                ..old(self).collected()
            }),
            !final(self).in_doc(),
            final(self).borrowed() == old(self).borrowed(),
            final(self).keeps_positions() == old(self).keeps_positions(),
            final(self).by_dictionary() == old(self).by_dictionary(),
            final(self).ids() == old(self).ids(),
            final(self).fresh() == old(self).fresh(),
            final(self).shortest_suffix() == old(self).shortest_suffix(),
            final(self).longest_chunk() == old(self).longest_chunk(),
    {
        let ghost c = self.collected();
        self.doc_active = false;
        self.current_doc_id = self.current_doc_id + 1;
        proof {
            let d = self.collected();
            assert(d.keys() =~= c.keys());
            lemma_same_words(c, d);
        }
    }

    /// Ends a document that got no value: it has a number all the same.
    pub fn end_doc_empty(&mut self)
        requires
            old(self).wf(),
            old(self).collected().doc < u32::MAX,
        ensures
            final(self).wf(),
            final(self).collected() == (Collected {
                doc: (old(self).collected().doc + 1) as u32,
                ..old(self).collected()
            }),
            !final(self).in_doc(),
            final(self).borrowed() == old(self).borrowed(),
            final(self).keeps_positions() == old(self).keeps_positions(),
            final(self).by_dictionary() == old(self).by_dictionary(),
            final(self).ids() == old(self).ids(),
            final(self).fresh() == old(self).fresh(),
            final(self).shortest_suffix() == old(self).shortest_suffix(),
            final(self).longest_chunk() == old(self).longest_chunk(),
    {
        self.end_doc();
    }

    /// What was collected is taken to cost this many bytes.
    pub fn mem_usage(&self) -> (r: usize)
        ensures
            r == self.collected().mem,
    {
        self.mem_estimate
    }

    /// Number of documents ended.
    pub fn num_docs(&self) -> (r: u32)
        ensures
            r == self.collected().doc,
    {
        self.current_doc_id
    }

    /// Number of tokens.
    pub fn num_unique_tokens(&self) -> (r: usize)
        ensures
            r == self.collected().texts.len(),
    {
        self.token_texts.len()
    }

    /// The token of a chunk with this text, its overlap behind it.
    pub fn chunk_ord(&self, text: &str) -> (r: Option<u32>)
        requires
            self.wf(),
        ensures
            r == chunk_from(self.collected(), encode_utf8(text@), 0),
    {
        let ghost c = self.collected();
        let ghost t = encode_utf8(text@);
        proof {
            self.index.lemma_distinct();
        }
        let mut i: usize = 0;
        while i < self.token_texts.len()
            invariant
                i <= self.token_texts@.len(),
                c == self.collected(),
                t == encode_utf8(text@),
                self.wf(),
                c.texts.len() <= u32::MAX,
                chunk_from(c, t, 0) == chunk_from(c, t, i as int),
            decreases self.token_texts@.len() - i,
        {
            assert(c.texts[i as int] == encode_utf8(self.token_texts@[i as int]@));
            assert(c.metas[i as int] == self.token_meta@[i as int]);
            if !self.token_meta[i].is_word_stripped && same_bytes(
                self.token_texts[i].as_str().as_bytes(),
                text.as_bytes(),
            ) {
                return Some(i as u32);
            }
            i += 1;
        }
        None
    }

    /// The shape of a token.
    pub fn token_meta(&self, token: u32) -> (r: TokenMetaV3)
        requires
            self.wf(),
            token < self.collected().texts.len(),
        ensures
            r == self.collected().metas[token as int],
    {
        self.token_meta[token as usize]
    }

    /// The occurrences of a chunk: document, position, first byte and end.
    pub fn token_postings(&self, token: u32) -> (r: &Vec<(u32, u32, u32, u32)>)
        requires
            self.wf(),
            token < self.collected().texts.len(),
        ensures
            r@ == self.collected().postings[token as int],
    {
        &self.token_postings[token as usize]
    }
}

/// The first token from `i` on that is a chunk with these bytes.
pub open spec fn chunk_from(c: Collected, text: Seq<u8>, i: int) -> Option<u32>
    decreases c.texts.len() - i,
{
    if i >= c.texts.len() {
        None
    } else if !c.metas[i].is_word_stripped && c.texts[i] == text {
        Some(i as u32)
    } else {
        chunk_from(c, text, i + 1)
    }
}

impl SfxCollectorV3 {
    /// What was collected, under final ordinals.
    pub fn into_data(self) -> (data: SfxCollectorDataV3)
        requires
            self.wf(),
            self.by_dictionary() ==> self.ids().len() == self.collected().texts.len(),
            self.keeps_positions() ==> collector_data::files_fit(
                self.collected(),
                collector_data::final_order(self.collected(), self.final_ids()),
            ),
        ensures
            collector_data::data_of(
                data,
                self.collected(),
                self.keeps_positions(),
                self.final_ids(),
                self.fresh(),
            ),
            data.min_suffix_len == self.shortest_suffix(),
            collector_words::orderly(data),
    {
        let ghost c = self.collected();
        let ghost (positions, ids, fresh) = (self.positions, self.final_ids(), self.fresh());
        assert(self.index.keys().len() <= u32::MAX) by {
            self.index.lemma_distinct();
        }
        let data = finish(
            Ghost(c),
            self.token_texts,
            self.token_meta,
            &self.token_postings,
            self.word_stripped_entries,
            &self.ws_entry_pushed,
            &self.word_postings,
            &self.sibling_pairs,
            self.positions,
            self.dictionary,
            &self.global_ids,
            &self.minted,
            self.current_doc_id,
            self.min_suffix_len,
        );
        proof {
            collector_words::data_is_orderly(data, c, positions, ids, fresh);
        }
        data
    }

    /// The ids that tokens are ordered by, where there is a dictionary.
    pub open spec fn final_ids(&self) -> Option<Seq<u64>> {
        if self.by_dictionary() {
            Some(self.ids())
        } else {
            None
        }
    }
}

impl SfxCollectorV3 {
    /// No more tokens have ids than there are, and as many are known to be new or
    /// not.
    pub proof fn ids_are_of_tokens(&self)
        requires
            self.wf(),
        ensures
            self.ids().len() <= self.collected().texts.len(),
            self.fresh().len() == self.ids().len(),
    {
    }

    /// Law: each token has a shape and its postings, and no two have the same
    /// text and shape.
    pub proof fn collected_tokens_are_distinct(&self)
        requires
            self.wf(),
        ensures
            self.collected().metas.len() == self.collected().texts.len(),
            self.collected().postings.len() == self.collected().texts.len(),
            self.collected().keys().no_duplicates(),
    {
        self.index.lemma_distinct();
    }
}

} // verus!
