//! The key of a token in a dictionary: its text and its shape, as one text.

use vstd::prelude::*;
use vstd::string::*;

use crate::text;
use crate::text::{push_decimal, push_text};

verus! {

/// The key of a token: of a word its text and content length, of a chunk its
/// text, own length, separators and whether it starts a word.
pub open spec fn key_text(
    text: Seq<char>,
    is_word_stripped: bool,
    own_len: u16,
    sep_len: u8,
    is_word_start: bool,
) -> Seq<char> {
    if is_word_stripped {
        seq!['\0', 'w', 's', ':'] + text + seq!['\0'] + text::decimal((own_len - sep_len) as nat)
    } else {
        text + seq!['\0'] + chunk_tail(own_len, sep_len, is_word_start)
    }
}

/// The shape of a chunk.
pub open spec fn chunk_tail(own_len: u16, sep_len: u8, is_word_start: bool) -> Seq<char> {
    text::decimal(own_len as nat) + seq![':'] + (text::decimal(sep_len as nat) + seq![':'] + text::decimal(
        if is_word_start {
            1
        } else {
            0
        },
    ))
}

/// The key of a token.
pub fn intern_key(
    text: &str,
    is_word_stripped: bool,
    own_len: u16,
    sep_len: u8,
    is_word_start: bool,
) -> (key: String)
    requires
        is_word_stripped ==> own_len >= sep_len,
    ensures
        key@ == key_text(text@, is_word_stripped, own_len, sep_len, is_word_start),
{
    let mut key = String::new();
    write_intern_key(&mut key, text, is_word_stripped, own_len, sep_len, is_word_start);
    key
}

/// Puts the key of a token in place of what was there.
pub fn write_intern_key(
    key: &mut String,
    text: &str,
    is_word_stripped: bool,
    own_len: u16,
    sep_len: u8,
    is_word_start: bool,
)
    requires
        is_word_stripped ==> own_len >= sep_len,
    ensures
        final(key)@ == key_text(text@, is_word_stripped, own_len, sep_len, is_word_start),
{
    proof {
        reveal_strlit("\0ws:");
        reveal_strlit("\0");
        reveal_strlit(":");
    }
    *key = String::new();
    if is_word_stripped {
        push_text(key, "\0ws:");
        push_text(key, text);
        push_text(key, "\0");
        push_decimal(key, (own_len - sep_len as u16) as u64);
    } else {
        push_text(key, text);
        push_text(key, "\0");
        push_decimal(key, own_len as u64);
        push_text(key, ":");
        push_decimal(key, sep_len as u64);
        push_text(key, ":");
        push_decimal(
            key,
            if is_word_start {
                1
            } else {
                0
            },
        );
    }
    assert(key@ =~= key_text(text@, is_word_stripped, own_len, sep_len, is_word_start));
}

proof fn lemma_chunk_tail(own_len: u16, sep_len: u8, is_word_start: bool)
    ensures
        !chunk_tail(own_len, sep_len, is_word_start).contains('\0'),
        chunk_tail(own_len, sep_len, is_word_start).contains(':'),
{
    let s: nat = if is_word_start {
        1
    } else {
        0
    };
    let t = chunk_tail(own_len, sep_len, is_word_start);
    let a = text::decimal(own_len as nat);
    let b = text::decimal(sep_len as nat);
    let c = text::decimal(s);
    text::lemma_digits(own_len as nat, '\0');
    text::lemma_digits(sep_len as nat, '\0');
    text::lemma_digits(s, '\0');
    assert(t[a.len() as int] == ':');
    assert forall|i: int| 0 <= i < t.len() implies t[i] != '\0' by {
        if i < a.len() {
            assert(t[i] == a[i]);
        } else if i > a.len() && i <= a.len() + b.len() {
            assert(t[i] == b[i - a.len() - 1]);
        } else if i > a.len() + b.len() + 1 {
            assert(t[i] == c[i - a.len() - b.len() - 2]);
        }
    }
}

/// Tokens with the same key have the same text and shape: both are words of
/// the same content length, or both are chunks of the same own length,
/// separators and word start.
pub proof fn keys_tell_tokens_apart(
    text: Seq<char>,
    is_word_stripped: bool,
    own_len: u16,
    sep_len: u8,
    is_word_start: bool,
    text2: Seq<char>,
    is_word_stripped2: bool,
    own_len2: u16,
    sep_len2: u8,
    is_word_start2: bool,
)
    requires
        is_word_stripped ==> own_len >= sep_len,
        is_word_stripped2 ==> own_len2 >= sep_len2,
        key_text(text, is_word_stripped, own_len, sep_len, is_word_start) == key_text(
            text2,
            is_word_stripped2,
            own_len2,
            sep_len2,
            is_word_start2,
        ),
    ensures
        text == text2,
        is_word_stripped == is_word_stripped2,
        is_word_stripped ==> own_len - sep_len == own_len2 - sep_len2,
        !is_word_stripped ==> own_len == own_len2 && sep_len == sep_len2 && is_word_start
            == is_word_start2,
{
    let pre = seq!['\0', 'w', 's', ':'];
    let tail = if is_word_stripped {
        text::decimal((own_len - sep_len) as nat)
    } else {
        chunk_tail(own_len, sep_len, is_word_start)
    };
    let tail2 = if is_word_stripped2 {
        text::decimal((own_len2 - sep_len2) as nat)
    } else {
        chunk_tail(own_len2, sep_len2, is_word_start2)
    };
    let head = if is_word_stripped {
        pre + text
    } else {
        text
    };
    let head2 = if is_word_stripped2 {
        pre + text2
    } else {
        text2
    };
    lemma_chunk_tail(own_len, sep_len, is_word_start);
    lemma_chunk_tail(own_len2, sep_len2, is_word_start2);
    if is_word_stripped {
        text::lemma_digits((own_len - sep_len) as nat, '\0');
        text::lemma_digits((own_len - sep_len) as nat, ':');
    }
    if is_word_stripped2 {
        text::lemma_digits((own_len2 - sep_len2) as nat, '\0');
        text::lemma_digits((own_len2 - sep_len2) as nat, ':');
    }
    text::lemma_split(head, tail, head2, tail2, '\0');
    assert(is_word_stripped == is_word_stripped2);
    if is_word_stripped {
        text::lemma_decimal_injective((own_len - sep_len) as nat, (own_len2 - sep_len2) as nat);
        assert(text =~= head.subrange(4, head.len() as int));
        assert(text2 =~= head2.subrange(4, head2.len() as int));
    } else {
        let s: nat = if is_word_start {
            1
        } else {
            0
        };
        let s2: nat = if is_word_start2 {
            1
        } else {
            0
        };
        let b = text::decimal(sep_len as nat);
        let b2 = text::decimal(sep_len2 as nat);
        text::lemma_digits(own_len as nat, ':');
        text::lemma_digits(own_len2 as nat, ':');
        text::lemma_digits(sep_len as nat, ':');
        text::lemma_digits(sep_len2 as nat, ':');
        text::lemma_split_first(
            text::decimal(own_len as nat),
            b + seq![':'] + text::decimal(s),
            text::decimal(own_len2 as nat),
            b2 + seq![':'] + text::decimal(s2),
            ':',
        );
        text::lemma_split_first(b, text::decimal(s), b2, text::decimal(s2), ':');
        text::lemma_decimal_injective(own_len as nat, own_len2 as nat);
        text::lemma_decimal_injective(sep_len as nat, sep_len2 as nat);
        text::lemma_decimal_injective(s, s2);
    }
}

} // verus!
