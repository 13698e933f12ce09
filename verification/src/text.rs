//! Decimal numbers and UTF-8 text.

use vstd::prelude::*;
use vstd::string::*;
use vstd::utf8::*;

verus! {

/// The decimal digit `d`.
pub open spec fn digit(d: nat) -> char {
    if d == 0 {
        '0'
    } else if d == 1 {
        '1'
    } else if d == 2 {
        '2'
    } else if d == 3 {
        '3'
    } else if d == 4 {
        '4'
    } else if d == 5 {
        '5'
    } else if d == 6 {
        '6'
    } else if d == 7 {
        '7'
    } else if d == 8 {
        '8'
    } else {
        '9'
    }
}

/// `n` in decimal, without leading zeros.
pub open spec fn decimal(n: nat) -> Seq<char>
    decreases n,
{
    if n < 10 {
        seq![digit(n)]
    } else {
        decimal(n / 10) + seq![digit(n % 10)]
    }
}

fn digit_str(d: u64) -> (r: &'static str)
    requires
        d < 10,
    ensures
        r@ == seq![digit(d as nat)],
{
    proof {
        reveal_strlit("0");
        reveal_strlit("1");
        reveal_strlit("2");
        reveal_strlit("3");
        reveal_strlit("4");
        reveal_strlit("5");
        reveal_strlit("6");
        reveal_strlit("7");
        reveal_strlit("8");
        reveal_strlit("9");
    }
    let r = if d == 0 {
        "0"
    } else if d == 1 {
        "1"
    } else if d == 2 {
        "2"
    } else if d == 3 {
        "3"
    } else if d == 4 {
        "4"
    } else if d == 5 {
        "5"
    } else if d == 6 {
        "6"
    } else if d == 7 {
        "7"
    } else if d == 8 {
        "8"
    } else {
        "9"
    };
    assert(r@ =~= seq![digit(d as nat)]);
    r
}

/// Appends a piece of text.
pub fn push_text(out: &mut String, piece: &str)
    ensures
        final(out)@ == old(out)@ + piece@,
{
    out.append(piece);
}

/// Appends `n` in decimal.
pub fn push_decimal(out: &mut String, n: u64)
    ensures
        final(out)@ == old(out)@ + decimal(n as nat),
    decreases n,
{
    if n >= 10 {
        push_decimal(out, n / 10);
    }
    push_text(out, digit_str(n % 10));
    assert(out@ =~= old(out)@ + decimal(n as nat));
}

/// The text whose UTF-8 encoding is `bytes`, if they are one.
///
/// Calls `std::str::from_utf8`, which returns the bytes as a string slice if
/// they are valid UTF-8 and an error otherwise.
#[verifier::external_body]
pub(crate) fn utf8_text<'a>(bytes: &'a [u8]) -> (r: Option<&'a str>)
    ensures
        r is Some <==> valid_utf8(bytes@),
        r matches Some(t) ==> t.spec_bytes() == bytes@,
{
    std::str::from_utf8(bytes).ok()
}

/// What `utf8_text` returns: the text, where the bytes are valid UTF-8.
pub open spec fn text_of(bytes: Seq<u8>) -> Option<Seq<char>> {
    if valid_utf8(bytes) {
        Some(decode_utf8(bytes))
    } else {
        None
    }
}

/// A text's own bytes decode to it.
pub proof fn lemma_text_of(t: Seq<char>)
    ensures
        text_of(encode_utf8(t)) == Some(t),
{
    encode_utf8_valid_utf8(t);
    encode_utf8_decode_utf8(t);
}

/// The last character boundary at or before `k`.
pub open spec fn floor_boundary(b: Seq<u8>, k: int) -> int
    decreases k,
{
    if k <= 0 {
        0
    } else if is_char_boundary(b, k) {
        k
    } else {
        floor_boundary(b, k - 1)
    }
}

/// The first character boundary at or after `k`.
pub open spec fn ceil_boundary(b: Seq<u8>, k: int) -> int
    decreases b.len() - k,
{
    if k >= b.len() {
        b.len() as int
    } else if is_char_boundary(b, k) {
        k
    } else {
        ceil_boundary(b, k + 1)
    }
}

/// As much of a text as whole characters fill in `n` bytes.
pub open spec fn head_within(b: Seq<u8>, n: int) -> Seq<u8> {
    b.subrange(
        0,
        floor_boundary(
            b,
            if n <= b.len() {
                n
            } else {
                b.len() as int
            },
        ),
    )
}

pub proof fn lemma_floor_boundary(b: Seq<u8>, k: int)
    requires
        valid_utf8(b),
        k <= b.len(),
    ensures
        0 <= floor_boundary(b, k) <= b.len(),
        k >= 0 ==> floor_boundary(b, k) <= k,
        is_char_boundary(b, floor_boundary(b, k)),
    decreases k,
{
    is_char_boundary_start_end_of_seq(b);
    if k > 0 && !is_char_boundary(b, k) {
        lemma_floor_boundary(b, k - 1);
    }
}

pub proof fn lemma_ceil_boundary(b: Seq<u8>, k: int)
    requires
        valid_utf8(b),
        0 <= k,
    ensures
        k <= b.len() ==> k <= ceil_boundary(b, k),
        ceil_boundary(b, k) <= b.len(),
        is_char_boundary(b, ceil_boundary(b, k)),
    decreases b.len() - k,
{
    is_char_boundary_start_end_of_seq(b);
    if k < b.len() && !is_char_boundary(b, k) {
        lemma_ceil_boundary(b, k + 1);
    }
}

/// The bytes of a text and of another behind it stand one behind the other.
pub proof fn lemma_encode_add(a: Seq<char>, b: Seq<char>)
    ensures
        encode_utf8(a + b) == encode_utf8(a) + encode_utf8(b),
    decreases a.len(),
{
    if a.len() == 0 {
        assert(a + b =~= b);
        assert(encode_utf8(a) + encode_utf8(b) =~= encode_utf8(b));
    } else {
        lemma_encode_add(a.drop_first(), b);
        assert((a + b).drop_first() =~= a.drop_first() + b);
        assert((a + b)[0] == a[0]);
        assert(encode_utf8(a + b) =~= encode_utf8(a) + encode_utf8(b));
    }
}

/// Texts with the same bytes are the same.
pub proof fn lemma_encode_injective(a: Seq<char>, b: Seq<char>)
    requires
        encode_utf8(a) == encode_utf8(b),
    ensures
        a == b,
{
    encode_utf8_decode_utf8(a);
    encode_utf8_decode_utf8(b);
}

/// The first `n` bytes of a text.
pub fn str_upto<'a>(s: &'a str, n: usize) -> (r: &'a str)
    requires
        is_char_boundary(encode_utf8(s@), n as int),
        n <= encode_utf8(s@).len(),
    ensures
        encode_utf8(r@) == encode_utf8(s@).subrange(0, n as int),
{
    s.split_at(n).0
}

/// A text from its byte `n` on.
pub fn str_from<'a>(s: &'a str, n: usize) -> (r: &'a str)
    requires
        is_char_boundary(encode_utf8(s@), n as int),
        n <= encode_utf8(s@).len(),
    ensures
        encode_utf8(r@) == encode_utf8(s@).subrange(n as int, encode_utf8(s@).len() as int),
{
    s.split_at(n).1
}

/// Number of bytes of a text.
pub fn str_len(s: &str) -> (n: usize)
    ensures
        n == encode_utf8(s@).len(),
{
    s.as_bytes().len()
}

/// As much of a text as whole characters fill in `n` bytes.
pub fn str_head<'a>(s: &'a str, n: usize) -> (r: &'a str)
    ensures
        encode_utf8(r@) == head_within(encode_utf8(s@), n as int),
{
    let ghost b = encode_utf8(s@);
    let len: usize = str_len(s);
    let first: usize = if n <= len {
        n
    } else {
        len
    };
    let mut end: usize = first;
    proof {
        encode_utf8_valid_utf8(s@);
    }
    while end > 0 && !s.is_char_boundary(end)
        invariant
            b == encode_utf8(s@),
            end <= first <= b.len(),
            floor_boundary(b, first as int) == floor_boundary(b, end as int),
        decreases end,
    {
        end -= 1;
    }
    proof {
        lemma_floor_boundary(b, first as int);
    }
    str_upto(s, end)
}

/// The first character boundary at or after byte `k`.
pub fn boundary_from(s: &str, k: usize) -> (r: usize)
    requires
        k <= encode_utf8(s@).len(),
    ensures
        r == ceil_boundary(encode_utf8(s@), k as int),
        is_char_boundary(encode_utf8(s@), r as int),
        k <= r <= encode_utf8(s@).len(),
{
    let ghost b = encode_utf8(s@);
    let len: usize = str_len(s);
    let mut at: usize = k;
    proof {
        encode_utf8_valid_utf8(s@);
        lemma_ceil_boundary(b, k as int);
    }
    while at < len && !s.is_char_boundary(at)
        invariant
            b == encode_utf8(s@),
            len == b.len(),
            at <= len,
            ceil_boundary(b, k as int) == ceil_boundary(b, at as int),
        decreases len - at,
    {
        at += 1;
    }
    at
}

/// The same text.
pub fn str_copy(s: &str) -> (r: String)
    ensures
        r@ == s@,
{
    let mut r = String::new();
    push_text(&mut r, s);
    assert(r@ =~= s@);
    r
}

/// The last `c` splits a text in one way.
pub proof fn lemma_split(x: Seq<char>, t: Seq<char>, y: Seq<char>, u: Seq<char>, c: char)
    requires
        x + seq![c] + t == y + seq![c] + u,
        !t.contains(c),
        !u.contains(c),
    ensures
        x == y,
        t == u,
{
    let a = x + seq![c] + t;
    let b = y + seq![c] + u;
    assert(a.len() == x.len() + 1 + t.len());
    assert(b.len() == y.len() + 1 + u.len());
    assert(a[x.len() as int] == c);
    assert(b[y.len() as int] == c);
    if x.len() < y.len() {
        assert(t[y.len() - x.len() - 1] == a[y.len() as int]);
        assert(t.contains(c));
    }
    if y.len() < x.len() {
        assert(u[x.len() - y.len() - 1] == b[x.len() as int]);
        assert(u.contains(c));
    }
    assert(x =~= a.subrange(0, x.len() as int));
    assert(y =~= b.subrange(0, y.len() as int));
    assert(t =~= a.subrange(x.len() as int + 1, a.len() as int));
    assert(u =~= b.subrange(y.len() as int + 1, b.len() as int));
}

/// The first `c` splits a text in one way.
pub proof fn lemma_split_first(x: Seq<char>, t: Seq<char>, y: Seq<char>, u: Seq<char>, c: char)
    requires
        x + seq![c] + t == y + seq![c] + u,
        !x.contains(c),
        !y.contains(c),
    ensures
        x == y,
        t == u,
{
    let a = x + seq![c] + t;
    let b = y + seq![c] + u;
    assert(a.len() == x.len() + 1 + t.len());
    assert(b.len() == y.len() + 1 + u.len());
    assert(a[x.len() as int] == c);
    assert(b[y.len() as int] == c);
    if x.len() < y.len() {
        assert(y[x.len() as int] == b[x.len() as int]);
        assert(y.contains(c));
    }
    if y.len() < x.len() {
        assert(x[y.len() as int] == a[y.len() as int]);
        assert(x.contains(c));
    }
    assert(x =~= a.subrange(0, x.len() as int));
    assert(y =~= b.subrange(0, y.len() as int));
    assert(t =~= a.subrange(x.len() as int + 1, a.len() as int));
    assert(u =~= b.subrange(y.len() as int + 1, b.len() as int));
}

/// A number has digits only.
pub proof fn lemma_digits(n: nat, c: char)
    requires
        c == '\0' || c == ':' || c == '.',
    ensures
        !decimal(n).contains(c),
        decimal(n).len() > 0,
    decreases n,
{
    if n >= 10 {
        lemma_digits(n / 10, c);
        let d = decimal(n / 10);
        assert forall|i: int| 0 <= i < decimal(n).len() implies decimal(n)[i] != c by {
            if i < d.len() {
                assert(decimal(n)[i] == d[i]);
                assert(!d.contains(c));
            }
        }
    }
}

/// Numbers that read alike are the same.
pub proof fn lemma_decimal_injective(n: nat, m: nat)
    requires
        decimal(n) == decimal(m),
    ensures
        n == m,
    decreases n,
{
    assert(decimal(n).last() == digit(n % 10));
    assert(decimal(m).last() == digit(m % 10));
    lemma_digits(n / 10, ':');
    lemma_digits(m / 10, ':');
    if n >= 10 && m >= 10 {
        assert(decimal(n / 10) =~= decimal(n).drop_last());
        assert(decimal(m / 10) =~= decimal(m).drop_last());
        lemma_decimal_injective(n / 10, m / 10);
    }
}

/// What `str::to_lowercase` makes of a text.
pub uninterp spec fn lowered(text: Seq<char>) -> Seq<char>;

/// The text in lower case.
///
/// Calls `str::to_lowercase`, which maps a text to its lowercase equivalent
/// by the Unicode tables; the same text always gives the same result.
#[verifier::external_body]
pub(crate) fn to_lower(s: &str) -> (r: String)
    ensures
        r@ == lowered(s@),
{
    s.to_lowercase()
}

/// What `String::from_utf8_lossy` makes of bytes.
pub uninterp spec fn lossy(bytes: Seq<u8>) -> Seq<char>;

/// The text of bytes, with replacement characters where they are none.
///
/// Calls `String::from_utf8_lossy`, which keeps valid UTF-8 as it is and puts
/// U+FFFD in place of what is not; the same bytes always give the same text.
#[verifier::external_body]
pub(crate) fn utf8_lossy(bytes: &[u8]) -> (r: String)
    ensures
        r@ == lossy(bytes@),
        valid_utf8(bytes@) ==> r@ == decode_utf8(bytes@),
{
    String::from_utf8_lossy(bytes).into_owned()
}

/// Whether `h` is the longest start of the text of at most `n` bytes that ends
/// between characters.
pub open spec fn is_head(h: Seq<u8>, b: Seq<u8>, n: int) -> bool {
    &&& h.is_prefix_of(b)
    &&& h.len() <= n
    &&& is_char_boundary(b, h.len() as int)
    &&& forall|k: int| h.len() < k <= n && k <= b.len() ==> !#[trigger] is_char_boundary(b, k)
}

/// Whether `e` is the longest end of the text of at most `n` bytes that starts
/// between characters.
pub open spec fn is_end(e: Seq<u8>, b: Seq<u8>, n: int) -> bool {
    &&& e.len() <= n
    &&& e.len() <= b.len()
    &&& e == b.subrange(b.len() - e.len(), b.len() as int)
    &&& is_char_boundary(b, b.len() - e.len())
    &&& forall|k: int| b.len() - n <= k < b.len() - e.len() && 0 <= k ==> !#[trigger] is_char_boundary(b, k)
}

proof fn lemma_floor_is_last(b: Seq<u8>, k: int, j: int)
    requires
        floor_boundary(b, k) < j <= k,
    ensures
        !is_char_boundary(b, j),
    decreases k,
{
    if k > 0 && !is_char_boundary(b, k) && j < k {
        lemma_floor_is_last(b, k - 1, j);
    }
}

proof fn lemma_ceil_is_first(b: Seq<u8>, k: int, j: int)
    requires
        k <= j < ceil_boundary(b, k),
        ceil_boundary(b, k) <= b.len(),
    ensures
        !is_char_boundary(b, j),
    decreases b.len() - k,
{
    if k < b.len() && !is_char_boundary(b, k) && k < j {
        lemma_ceil_is_first(b, k + 1, j);
    }
}

/// Law: as much of a text as whole characters fill in some bytes is its longest
/// start that fits and splits no character.
pub proof fn a_head_is_the_longest_that_fits(b: Seq<u8>, n: int)
    requires
        valid_utf8(b),
        0 <= n,
    ensures
        is_head(head_within(b, n), b, n),
{
    let m = if n <= b.len() {
        n
    } else {
        b.len() as int
    };
    let h = head_within(b, n);
    lemma_floor_boundary(b, m);
    assert(h =~= b.subrange(0, h.len() as int));
    assert forall|k: int| h.len() < k <= n && k <= b.len() implies !#[trigger] is_char_boundary(b, k) by {
        lemma_floor_is_last(b, m, k);
    }
}

/// Law: what stands behind the first boundary at or after a place is the
/// longest end of the text that starts there or later and splits no character.
pub proof fn an_end_is_the_longest_that_fits(b: Seq<u8>, n: int)
    requires
        valid_utf8(b),
        0 <= n <= b.len(),
    ensures
        is_end(b.subrange(ceil_boundary(b, b.len() - n), b.len() as int), b, n),
{
    let at = ceil_boundary(b, b.len() - n);
    lemma_ceil_boundary(b, b.len() - n);
    assert forall|k: int| b.len() - n <= k < at && 0 <= k implies !#[trigger] is_char_boundary(b, k) by {
        lemma_ceil_is_first(b, b.len() - n, k);
    }
}

} // verus!
