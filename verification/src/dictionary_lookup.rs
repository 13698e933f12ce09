//! Looking a token up in a dictionary: the key it sits under, and which of the
//! parents found there is the token itself.

use vstd::prelude::*;
use vstd::string::*;
use vstd::utf8::*;

use crate::bytes::{push_bytes, same_bytes};
use crate::collector_v3;
use crate::collector_v3::TokenMetaV3;
use crate::termtexts_v3;
use crate::termtexts_v3::{TermTextsReaderV3, TextFile};
use crate::text;
use crate::text::{str_from, str_head, str_len, str_upto, to_lower};

verus! {

/// The partition of chunks from their first byte on.
pub const SI0_PREFIX: u8 = 0;

/// The partition of chunks from a later byte on.
pub const SI_REST_PREFIX: u8 = 1;

/// The partition of words.
pub const SI_STRIPPED_PREFIX: u8 = 2;

/// Bytes of an overlap that a parent keeps.
pub const MAX_OVERLAP_BYTES: usize = 4;

/// A token that a suffix belongs to.
#[derive(Debug, Clone, Copy, PartialEq, Eq, Structural)]
pub struct ParentEntryV3 {
    /// The ordinal of the token, or its id.
    pub raw_ordinal: u64,
    /// Where in the token the suffix starts.
    pub sti: u16,
    /// Bytes the token owns.
    pub own_len: u16,
    /// How many of these are separators.
    pub sep_len: u8,
    /// Bytes of its overlap.
    pub overlap_len: u8,
    /// Whether the token starts a word.
    pub is_word_start: bool,
}

/// A difference that stops at 0.
pub open spec fn less(a: u16, b: u8) -> u16 {
    if a >= b {
        (a - b) as u16
    } else {
        0
    }
}

impl ParentEntryV3 {
    /// Bytes of the token's content.
    pub fn content_len(&self) -> (r: u16)
        ensures
            r == less(self.own_len, self.sep_len),
    {
        self.own_len.saturating_sub(self.sep_len as u16)
    }
}

/// Where a token's own bytes end and its overlap starts.
pub open spec fn own_end(text: Seq<u8>, is_word_stripped: bool, own_len: u16, overlap_len: u8) -> int {
    if is_word_stripped {
        if overlap_len <= text.len() {
            text.len() - overlap_len
        } else {
            0
        }
    } else if own_len <= text.len() {
        own_len as int
    } else {
        text.len() as int
    }
}

/// The token's own text.
pub open spec fn own_text(
    text: Seq<char>,
    is_word_stripped: bool,
    own_len: u16,
    overlap_len: u8,
) -> Seq<char> {
    let b = encode_utf8(text);
    decode_utf8(b.subrange(0, own_end(b, is_word_stripped, own_len, overlap_len)))
}

/// The token's overlap.
pub open spec fn overlap_text(
    text: Seq<char>,
    is_word_stripped: bool,
    own_len: u16,
    overlap_len: u8,
) -> Seq<char> {
    let b = encode_utf8(text);
    decode_utf8(
        b.subrange(own_end(b, is_word_stripped, own_len, overlap_len), b.len() as int),
    )
}

/// Whether the own bytes end between characters.
pub open spec fn splits(text: Seq<char>, is_word_stripped: bool, own_len: u16, overlap_len: u8) -> bool {
    is_char_boundary(
        encode_utf8(text),
        own_end(encode_utf8(text), is_word_stripped, own_len, overlap_len),
    )
}

/// The key of an own text in lower case.
pub open spec fn partition_bytes(is_word_stripped: bool, lower: Seq<char>) -> Seq<u8> {
    seq![
        if is_word_stripped {
            SI_STRIPPED_PREFIX
        } else {
            SI0_PREFIX
        },
    ] + encode_utf8(lower)
}

/// The key a token sits under.
pub open spec fn key_bytes(
    text: Seq<char>,
    is_word_stripped: bool,
    own_len: u16,
    overlap_len: u8,
) -> Seq<u8> {
    partition_bytes(
        is_word_stripped,
        text::lowered(own_text(text, is_word_stripped, own_len, overlap_len)),
    )
}

/// As much of an overlap as a parent keeps.
pub open spec fn kept_overlap(lower: Seq<char>) -> Seq<u8> {
    text::head_within(encode_utf8(lower), MAX_OVERLAP_BYTES as int)
}

/// The overlap by which parents are found.
pub open spec fn wanted_overlap(
    text: Seq<char>,
    is_word_stripped: bool,
    own_len: u16,
    overlap_len: u8,
) -> Seq<u8> {
    kept_overlap(text::lowered(overlap_text(text, is_word_stripped, own_len, overlap_len)))
}

fn find_own_end(text: &str, is_word_stripped: bool, own_len: u16, overlap_len: u8) -> (r: usize)
    ensures
        r == own_end(encode_utf8(text@), is_word_stripped, own_len, overlap_len),
        r <= encode_utf8(text@).len(),
{
    let len: usize = str_len(text);
    if is_word_stripped {
        len.saturating_sub(overlap_len as usize)
    } else if own_len as usize <= len {
        own_len as usize
    } else {
        len
    }
}

/// The key of an own text that is in lower case already.
pub fn partition_key(is_word_stripped: bool, lower: &str) -> (key: Vec<u8>)
    ensures
        key@ == partition_bytes(is_word_stripped, lower@),
{
    let mut key: Vec<u8> = Vec::new();
    key.push(
        if is_word_stripped {
            SI_STRIPPED_PREFIX
        } else {
            SI0_PREFIX
        },
    );
    push_bytes(&mut key, lower.as_bytes());
    assert(key@ =~= partition_bytes(is_word_stripped, lower@));
    key
}

/// As much of an overlap, in lower case already, as a parent keeps.
pub fn overlap_key(lower: &str) -> (key: Vec<u8>)
    ensures
        key@ == kept_overlap(lower@),
{
    let mut key: Vec<u8> = Vec::new();
    push_bytes(&mut key, str_head(lower, MAX_OVERLAP_BYTES).as_bytes());
    assert(key@ =~= kept_overlap(lower@));
    key
}

/// The key a token sits under: its partition, then its own text in lower case.
pub fn fst_key(text: &str, is_word_stripped: bool, own_len: u16, overlap_len: u8) -> (key: Vec<u8>)
    requires
        splits(text@, is_word_stripped, own_len, overlap_len),
    ensures
        key@ == key_bytes(text@, is_word_stripped, own_len, overlap_len),
{
    let end: usize = find_own_end(text, is_word_stripped, own_len, overlap_len);
    let own = str_upto(text, end);
    proof {
        encode_utf8_decode_utf8(own@);
    }
    let lower = to_lower(own);
    partition_key(is_word_stripped, lower.as_str())
}

/// The overlap by which a token's parents are found.
pub fn want_overlap(text: &str, is_word_stripped: bool, own_len: u16, overlap_len: u8) -> (key: Vec<
    u8,
>)
    requires
        splits(text@, is_word_stripped, own_len, overlap_len),
    ensures
        key@ == wanted_overlap(text@, is_word_stripped, own_len, overlap_len),
{
    let end: usize = find_own_end(text, is_word_stripped, own_len, overlap_len);
    let over = str_from(text, end);
    proof {
        encode_utf8_decode_utf8(over@);
    }
    let lower = to_lower(over);
    overlap_key(lower.as_str())
}

/// Whether a parent is a whole token of the shape.
pub open spec fn shape_fits(p: ParentEntryV3, m: TokenMetaV3) -> bool {
    &&& p.sti == 0
    &&& if m.is_word_stripped {
        less(p.own_len, p.sep_len) == less(m.own_len, m.sep_len)
    } else {
        p.own_len == m.own_len && p.sep_len == m.sep_len && p.is_word_start == m.is_word_start
    }
}

/// Whether a parent is the token: of its shape and with its text.
pub open spec fn is_token(
    files: Seq<TextFile>,
    p: ParentEntryV3,
    text: Seq<char>,
    m: TokenMetaV3,
) -> bool {
    shape_fits(p, m) && termtexts_v3::text_for(files, p.raw_ordinal as u32) == Some(text)
}

/// The first of the parents from `k` on that is the token.
pub open spec fn pick_in(
    files: Seq<TextFile>,
    parents: Seq<ParentEntryV3>,
    text: Seq<char>,
    m: TokenMetaV3,
    k: int,
) -> Option<u64>
    decreases parents.len() - k,
{
    if k >= parents.len() {
        None
    } else if is_token(files, parents[k], text, m) {
        Some(parents[k].raw_ordinal)
    } else {
        pick_in(files, parents, text, m, k + 1)
    }
}

/// The first parent, part by part from the `k`th on, that is the token.
pub open spec fn pick(
    files: Seq<TextFile>,
    parts: Seq<Seq<ParentEntryV3>>,
    text: Seq<char>,
    m: TokenMetaV3,
    k: int,
) -> Option<u64>
    decreases parts.len() - k,
{
    if k >= parts.len() {
        None
    } else {
        match pick_in(files, parts[k], text, m, 0) {
            Some(id) => Some(id),
            None => pick(files, parts, text, m, k + 1),
        }
    }
}

/// Whether two texts are the same.
pub fn same_text(a: &str, b: &str) -> (r: bool)
    ensures
        r == (a@ == b@),
{
    let r = same_bytes(a.as_bytes(), b.as_bytes());
    proof {
        if r {
            text::lemma_encode_injective(a@, b@);
        }
    }
    r
}

/// The id of a token, given the parents each part has under its key and
/// overlap: of the first that has its shape and its text, case and all.
pub fn pick_token(
    texts: &TermTextsReaderV3<'_>,
    parts: &Vec<Vec<ParentEntryV3>>,
    text: &str,
    meta: &TokenMetaV3,
) -> (r: Option<u64>)
    requires
        texts.wf(),
    ensures
        r == pick(texts.files(), collector_v3::contents(parts@), text@, *meta, 0),
{
    let ghost files = texts.files();
    let ghost all = collector_v3::contents(parts@);
    let mut k: usize = 0;
    while k < parts.len()
        invariant
            k <= parts@.len(),
            texts.wf(),
            files == texts.files(),
            all == collector_v3::contents(parts@),
            all.len() == parts@.len(),
            pick(files, all, text@, *meta, 0) == pick(files, all, text@, *meta, k as int),
        decreases parts@.len() - k,
    {
        let parents = &parts[k];
        assert(all[k as int] == parents@);
        let mut i: usize = 0;
        while i < parents.len()
            invariant
                i <= parents@.len(),
                k < parts@.len(),
                texts.wf(),
                files == texts.files(),
                all == collector_v3::contents(parts@),
                all.len() == parts@.len(),
                all[k as int] == parents@,
                pick(files, all, text@, *meta, 0) == pick(files, all, text@, *meta, k as int),
                pick_in(files, parents@, text@, *meta, 0) == pick_in(
                    files,
                    parents@,
                    text@,
                    *meta,
                    i as int,
                ),
            decreases parents@.len() - i,
        {
            let p = parents[i];
            let shaped = if p.sti != 0 {
                false
            } else if meta.is_word_stripped {
                p.content_len() == meta.own_len.saturating_sub(meta.sep_len as u16)
            } else {
                p.own_len == meta.own_len && p.sep_len == meta.sep_len && p.is_word_start
                    == meta.is_word_start
            };
            assert(shaped == shape_fits(p, *meta));
            if shaped {
                match texts.text(p.raw_ordinal as u32) {
                    Some(t) => {
                        if same_text(t, text) {
                            return Some(p.raw_ordinal);
                        }
                    },
                    None => {},
                }
            }
            i += 1;
        }
        k += 1;
    }
    None
}

} // verus!
