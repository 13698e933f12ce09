//! The gaps between the tokens of a document: the bytes before the first
//! token, between two tokens and after the last one.
//!
//! ```text
//! num_docs: u32 LE
//! offsets: u64 LE x (num_docs + 1), absolute
//! per document:
//!   num_tokens: u16 LE      total tokens across all values
//!   num_values: u8
//!   if num_values > 1: (seq_start: u16, ti_start: u32) x num_values
//!   gaps, one after the other
//! ```
//!
//! A gap is its length (0..253) and its bytes, or 255, its length as a u16
//! and its bytes. 254 stands alone and separates two values.

use vstd::prelude::*;

use crate::bytes;
use crate::bytes::{part, push_bytes, push_flat, push_starts64, push_u16, push_u32, read_u16, read_u32, read_u64};
use crate::text;
use crate::text::{push_decimal, push_text};

verus! {

/// The byte that separates two values.
pub const VALUE_BOUNDARY_MARKER: u8 = 254;

/// What is read where two values are separated.
pub const VALUE_BOUNDARY: [u8; 1] = [254];

/// The bytes of a gap; of a value boundary where there is none.
pub open spec fn enc_gap(gap: Option<Seq<u8>>) -> Seq<u8> {
    match gap {
        None => seq![254u8],
        Some(g) => if g.len() < 254 {
            seq![g.len() as u8] + g
        } else {
            seq![255u8] + bytes::le16(g.len() as u16) + g
        },
    }
}

/// What a reader hands out for a gap or a value boundary.
pub open spec fn shown(gap: Option<Seq<u8>>) -> Seq<u8> {
    match gap {
        None => seq![254u8],
        Some(g) => g,
    }
}

/// The gap that starts at `c`, and where the next one starts.
pub open spec fn gap_at(dd: Seq<u8>, c: int) -> Option<(Seq<u8>, int)> {
    if c < 0 || c >= dd.len() {
        None
    } else if dd[c] == 254 {
        Some((seq![254u8], c + 1))
    } else if dd[c] == 255 {
        if c + 3 > dd.len() || c + 3 + bytes::get16(dd, c + 1) > dd.len() {
            None
        } else {
            Some((dd.subrange(c + 3, c + 3 + bytes::get16(dd, c + 1)), c + 3 + bytes::get16(dd, c + 1)))
        }
    } else if c + 1 + dd[c] > dd.len() {
        None
    } else {
        Some((dd.subrange(c + 1, c + 1 + dd[c]), c + 1 + dd[c]))
    }
}

/// The `k`-th gap from the one that starts at `c`.
pub open spec fn nth_gap(dd: Seq<u8>, c: int, k: nat) -> Option<Seq<u8>>
    decreases k,
{
    match gap_at(dd, c) {
        None => None,
        Some(g) => if k == 0 {
            Some(g.0)
        } else {
            nth_gap(dd, g.1, (k - 1) as nat)
        },
    }
}

/// Every gap from `c` to the end.
pub open spec fn all_gaps(dd: Seq<u8>, c: int) -> Option<Seq<Seq<u8>>>
    decreases dd.len() - c,
{
    if c >= dd.len() {
        Some(Seq::empty())
    } else {
        match gap_at(dd, c) {
            None => None,
            Some(g) => match all_gaps(dd, g.1) {
                None => None,
                Some(rest) => Some(seq![g.0] + rest),
            },
        }
    }
}

/// Where the gaps of a document start.
pub open spec fn gaps_start(dd: Seq<u8>) -> int {
    if dd[2] > 1 {
        3 + 6 * dd[2]
    } else {
        3
    }
}

/// Tokens that `n` gaps surround.
pub open spec fn tokens_of(n: int) -> int {
    if n == 0 {
        0
    } else {
        n - 1
    }
}

/// The contents of the slices.
pub open spec fn slices(gaps: Seq<&[u8]>) -> Seq<Seq<u8>> {
    Seq::new(gaps.len(), |i: int| gaps[i]@)
}

/// The contents of the values' slices.
pub open spec fn values_of(values: Seq<Vec<&[u8]>>) -> Seq<Seq<Seq<u8>>> {
    Seq::new(values.len(), |i: int| slices(values[i]@))
}

/// Gaps without a value boundary.
pub open spec fn plain(gaps: Seq<Seq<u8>>) -> Seq<Option<Seq<u8>>> {
    Seq::new(gaps.len(), |i: int| Some(gaps[i]))
}

/// The bytes of each gap.
pub open spec fn encs(gaps: Seq<Option<Seq<u8>>>) -> Seq<Seq<u8>> {
    Seq::new(gaps.len(), |i: int| enc_gap(gaps[i]))
}

/// Whether every gap's length fits its field.
pub open spec fn fit(gaps: Seq<Seq<u8>>) -> bool {
    forall|i: int| 0 <= i < gaps.len() ==> #[trigger] gaps[i].len() <= u16::MAX
}

/// A document of one value.
pub open spec fn single_doc(gaps: Seq<Seq<u8>>) -> Seq<u8> {
    bytes::le16(tokens_of(gaps.len() as int) as u16) + seq![1u8] + bytes::flat(encs(plain(gaps)))
}

/// Tokens of the first `k` values.
pub open spec fn tokens_before(values: Seq<Seq<Seq<u8>>>, k: int) -> int
    decreases k,
{
    if k <= 0 {
        0
    } else {
        tokens_before(values, k - 1) + tokens_of(values[k - 1].len() as int)
    }
}

/// The table entries of the first `k` values.
pub open spec fn value_table(values: Seq<Seq<Seq<u8>>>, ti_starts: Seq<u32>, k: int) -> Seq<u8>
    decreases k,
{
    if k <= 0 {
        Seq::empty()
    } else {
        value_table(values, ti_starts, k - 1) + bytes::le16(tokens_before(values, k - 1) as u16) + bytes::le32(
            ti_starts[k - 1],
        )
    }
}

/// The gaps of the first `k` values, with a boundary between two values.
pub open spec fn stream(values: Seq<Seq<Seq<u8>>>, k: int) -> Seq<Option<Seq<u8>>>
    decreases k,
{
    if k <= 0 {
        Seq::empty()
    } else if k == 1 {
        plain(values[0])
    } else {
        stream(values, k - 1) + seq![None] + plain(values[k - 1])
    }
}

/// A document of several values.
pub open spec fn multi_doc(values: Seq<Seq<Seq<u8>>>, ti_starts: Seq<u32>) -> Seq<u8> {
    let n = values.len() as int;
    bytes::le16(tokens_before(values, n) as u16) + seq![n as u8] + (if n > 1 {
        value_table(values, ti_starts, n)
    } else {
        Seq::empty()
    }) + bytes::flat(encs(stream(values, n)))
}

/// The bytes of a file with these documents.
pub open spec fn gapmap_bytes(docs: Seq<Seq<u8>>) -> Seq<u8> {
    bytes::le32(docs.len() as u32) + bytes::le64s(bytes::starts64(docs, 4 + 8 * (docs.len() as int + 1))) + bytes::flat(docs)
}

/// Gap data for a single value within a document.
pub struct ValueGaps<'a> {
    /// Gaps for this value: prefix + separators + suffix = num_tokens_in_value + 1
    pub gaps: Vec<&'a [u8]>,
}

/// Writes gap data for multiple documents into a binary format.
/// Supports multi-value fields with boundary markers.
pub struct GapMapWriter {
    docs: Vec<Vec<u8>>,
}

impl GapMapWriter {
    /// The bytes of each document added.
    pub closed spec fn docs(&self) -> Seq<Seq<u8>> {
        bytes::deep(self.docs@)
    }

    /// Create a new empty GapMap writer.
    pub fn new() -> (r: Self)
        ensures
            r.docs() == Seq::<Seq<u8>>::empty(),
    {
        let r = Self { docs: Vec::new() };
        assert(r.docs() =~= Seq::<Seq<u8>>::empty());
        r
    }

    fn push_doc(&mut self, doc: Vec<u8>)
        ensures
            final(self).docs() == old(self).docs().push(doc@),
    {
        self.docs.push(doc);
        assert(self.docs() =~= old(self).docs().push(doc@));
    }

    /// Add gap data for a single-value document.
    /// `gaps` contains num_tokens + 1 entries.
    pub fn add_doc(&mut self, gaps: &[&[u8]])
        requires
            gaps@.len() <= 65536,
            fit(slices(gaps@)),
        ensures
            final(self).docs() == old(self).docs().push(single_doc(slices(gaps@))),
    {
        let num_tokens: u16 = if gaps.len() == 0 {
            0
        } else {
            (gaps.len() - 1) as u16
        };
        let mut doc: Vec<u8> = Vec::new();
        push_u16(&mut doc, num_tokens);
        doc.push(1);
        push_gaps(&mut doc, gaps);
        assert(doc@ =~= single_doc(slices(gaps@)));
        self.push_doc(doc);
    }

    /// Add gap data for a multi-value document.
    /// `values_gaps` holds one list of gaps per value, `ti_starts` the
    /// position of the first token of each value.
    pub fn add_doc_multi(&mut self, values_gaps: &[Vec<&[u8]>], ti_starts: &[u32])
        requires
            values_gaps@.len() <= 255,
            values_gaps@.len() > 1 ==> ti_starts@.len() >= values_gaps@.len(),
            tokens_before(values_of(values_gaps@), values_gaps@.len() as int) <= u16::MAX,
            forall|i: int|
                0 <= i < values_gaps@.len() ==> fit(slices(#[trigger] values_gaps@[i]@)),
        ensures
            final(self).docs() == old(self).docs().push(
                multi_doc(values_of(values_gaps@), ti_starts@),
            ),
    {
        let ghost values = values_of(values_gaps@);
        let n: usize = values_gaps.len();
        let mut num_tokens: u16 = 0;
        let mut i: usize = 0;
        while i < n
            invariant
                n == values_gaps@.len(),
                values == values_of(values_gaps@),
                i <= n,
                num_tokens == tokens_before(values, i as int),
                tokens_before(values, n as int) <= u16::MAX,
            decreases n - i,
        {
            proof {
                lemma_tokens_mono(values, i + 1, n as int);
            }
            let k: usize = values_gaps[i].len();
            if k > 0 {
                num_tokens = num_tokens + (k - 1) as u16;
            }
            i += 1;
        }
        let mut doc: Vec<u8> = Vec::new();
        push_u16(&mut doc, num_tokens);
        doc.push(n as u8);
        let ghost head = bytes::le16(num_tokens) + seq![n as u8];
        assert(doc@ =~= head);
        if n > 1 {
            let mut seq_start: u16 = 0;
            let mut i: usize = 0;
            assert(doc@ =~= head + value_table(values, ti_starts@, 0));
            while i < n
                invariant
                    n == values_gaps@.len(),
                    n <= ti_starts@.len(),
                    values == values_of(values_gaps@),
                    i <= n,
                    seq_start == tokens_before(values, i as int),
                    tokens_before(values, n as int) <= u16::MAX,
                    doc@ == head + value_table(values, ti_starts@, i as int),
                decreases n - i,
            {
                proof {
                    lemma_tokens_mono(values, i + 1, n as int);
                }
                push_u16(&mut doc, seq_start);
                push_u32(&mut doc, ti_starts[i]);
                let k: usize = values_gaps[i].len();
                if k > 0 {
                    seq_start = seq_start + (k - 1) as u16;
                }
                i += 1;
                assert(doc@ =~= head + value_table(values, ti_starts@, i as int));
            }
        }
        let ghost base = doc@;
        let mut i: usize = 0;
        assert(encs(stream(values, 0)) =~= Seq::<Seq<u8>>::empty());
        assert(doc@ =~= base + bytes::flat(encs(stream(values, 0))));
        while i < n
            invariant
                n == values_gaps@.len(),
                values == values_of(values_gaps@),
                i <= n,
                forall|i: int|
                    0 <= i < values_gaps@.len() ==> fit(slices(#[trigger] values_gaps@[i]@)),
                doc@ == base + bytes::flat(encs(stream(values, i as int))),
            decreases n - i,
        {
            let ghost before = stream(values, i as int);
            if i > 0 {
                doc.push(VALUE_BOUNDARY_MARKER);
                proof {
                    let one: Seq<Option<Seq<u8>>> = seq![None];
                    lemma_encs_add(before, one);
                    assert(encs(one) =~= seq![seq![254u8]]);
                    assert(bytes::flat(seq![seq![254u8]].drop_last()) =~= Seq::<u8>::empty());
                    assert(bytes::flat(seq![seq![254u8]]) =~= seq![254u8]);
                    assert(doc@ =~= base + bytes::flat(encs(before + one)));
                }
            }
            let ghost so_far = if i > 0 {
                before + seq![None]
            } else {
                before
            };
            assert(doc@ == base + bytes::flat(encs(so_far)));
            assert(fit(slices(values_gaps@[i as int]@)));
            push_gaps(&mut doc, values_gaps[i].as_slice());
            proof {
                let more = plain(slices(values_gaps@[i as int]@));
                lemma_encs_add(so_far, more);
                assert(values[i as int] == slices(values_gaps@[i as int]@));
                if i == 0 {
                    assert(so_far + more =~= more);
                }
                assert(stream(values, i + 1) == so_far + more);
                assert(doc@ =~= base + bytes::flat(encs(so_far + more)));
            }
            i += 1;
        }
        assert(doc@ =~= multi_doc(values, ti_starts@));
        self.push_doc(doc);
    }

    /// Add an empty document (no tokens, no gaps).
    pub fn add_empty_doc(&mut self)
        ensures
            final(self).docs() == old(self).docs().push(single_doc(Seq::empty())),
    {
        let mut doc: Vec<u8> = Vec::new();
        push_u16(&mut doc, 0);
        doc.push(1);
        proof {
            assert(encs(plain(Seq::empty())) =~= Seq::<Seq<u8>>::empty());
            assert(doc@ =~= single_doc(Seq::empty()));
        }
        self.push_doc(doc);
    }

    /// Add raw document bytes directly (for a merge: copies the exact
    /// bytes of a source document).
    pub fn add_doc_raw(&mut self, raw_doc_data: &[u8])
        ensures
            final(self).docs() == old(self).docs().push(raw_doc_data@),
    {
        let mut doc: Vec<u8> = Vec::new();
        push_bytes(&mut doc, raw_doc_data);
        assert(doc@ =~= raw_doc_data@);
        self.push_doc(doc);
    }

    /// Number of documents added so far.
    pub fn num_docs(&self) -> (n: u32)
        requires
            self.docs().len() <= u32::MAX,
        ensures
            n == self.docs().len(),
    {
        self.docs.len() as u32
    }

    /// Serialize the complete GapMap into bytes.
    pub fn serialize(&self) -> (out: Vec<u8>)
        requires
            self.docs().len() <= u32::MAX,
            4 + 8 * (self.docs().len() + 1) + bytes::flat(self.docs()).len() <= u64::MAX,
        ensures
            out@ == gapmap_bytes(self.docs()),
    {
        let n: u64 = self.docs.len() as u64;
        let mut out: Vec<u8> = Vec::new();
        push_u32(&mut out, self.docs.len() as u32);
        push_starts64(&mut out, 4 + 8 * (n + 1), &self.docs);
        push_flat(&mut out, &self.docs);
        assert(out@ =~= gapmap_bytes(self.docs()));
        out
    }

    /// Appends the GapMap to `out`.
    pub fn write_to(&self, out: &mut Vec<u8>)
        requires
            self.docs().len() <= u32::MAX,
            4 + 8 * (self.docs().len() + 1) + bytes::flat(self.docs()).len() <= u64::MAX,
        ensures
            final(out)@ == old(out)@ + gapmap_bytes(self.docs()),
    {
        let file = self.serialize();
        push_bytes(out, file.as_slice());
    }
}

proof fn lemma_tokens_mono(values: Seq<Seq<Seq<u8>>>, i: int, j: int)
    requires
        0 <= i <= j,
    ensures
        0 <= tokens_before(values, i) <= tokens_before(values, j),
    decreases j,
{
    if i < j {
        lemma_tokens_mono(values, i, j - 1);
    } else if i > 0 {
        lemma_tokens_mono(values, i - 1, i - 1);
    }
}

proof fn lemma_encs_add(a: Seq<Option<Seq<u8>>>, b: Seq<Option<Seq<u8>>>)
    ensures
        encs(a + b) == encs(a) + encs(b),
        bytes::flat(encs(a + b)) == bytes::flat(encs(a)) + bytes::flat(encs(b)),
{
    assert(encs(a + b) =~= encs(a) + encs(b));
    bytes::lemma_flat_add(encs(a), encs(b));
}

fn push_gap(buf: &mut Vec<u8>, gap: &[u8])
    requires
        gap@.len() <= u16::MAX,
    ensures
        final(buf)@ == old(buf)@ + enc_gap(Some(gap@)),
{
    if gap.len() < 254 {
        buf.push(gap.len() as u8);
        push_bytes(buf, gap);
    } else {
        buf.push(255);
        push_u16(buf, gap.len() as u16);
        push_bytes(buf, gap);
    }
    assert(buf@ =~= old(buf)@ + enc_gap(Some(gap@)));
}

fn push_gaps(buf: &mut Vec<u8>, gaps: &[&[u8]])
    requires
        fit(slices(gaps@)),
    ensures
        final(buf)@ == old(buf)@ + bytes::flat(encs(plain(slices(gaps@)))),
{
    let ghost all = encs(plain(slices(gaps@)));
    let mut i: usize = 0;
    assert(all.take(0) =~= Seq::<Seq<u8>>::empty());
    assert(buf@ =~= old(buf)@ + bytes::flat(all.take(0)));
    while i < gaps.len()
        invariant
            i <= gaps@.len(),
            fit(slices(gaps@)),
            all == encs(plain(slices(gaps@))),
            buf@ == old(buf)@ + bytes::flat(all.take(i as int)),
        decreases gaps@.len() - i,
    {
        assert(slices(gaps@)[i as int].len() <= u16::MAX);
        push_gap(buf, gaps[i]);
        i += 1;
        proof {
            assert(all.take(i as int).drop_last() =~= all.take(i - 1));
            assert(all.take(i as int).last() == enc_gap(Some(gaps@[i - 1]@)));
            assert(buf@ =~= old(buf)@ + bytes::flat(all.take(i as int)));
        }
    }
    assert(all.take(i as int) =~= all);
}

/// What is wrong with a document's gap data.
#[derive(Debug, Clone, Copy, PartialEq, Eq, Structural)]
pub enum GapMapFault {
    /// Fewer bytes than the header takes.
    TooShort { len: usize },
    /// Tokens but no value.
    NoValues { tokens: usize },
    /// The value table runs past the end.
    TableOverflow { table: usize, len: usize },
    /// A long gap's length runs past the end.
    LengthOverflow { cursor: usize, len: usize },
    /// A gap's bytes run past the end.
    GapOverflow { cursor: usize, len: usize, found: usize },
    /// Fewer gaps than tokens.
    TooFewGaps { found: usize, tokens: usize, values: usize },
}

/// The description of a fault.
pub open spec fn fault_text(f: GapMapFault) -> Seq<char> {
    match f {
        GapMapFault::TooShort { len } => "doc_data too short: "@ + text::decimal(len as nat)
            + " bytes (min 3)"@,
        GapMapFault::NoValues { tokens } => "num_values=0 but num_tokens="@ + text::decimal(
            tokens as nat,
        ),
        GapMapFault::TableOverflow { table, len } => "value_offsets table overflows: cursor=3, table_size="@
            + text::decimal(table as nat) + ", data_len="@ + text::decimal(len as nat),
        GapMapFault::LengthOverflow { cursor, len } => "extended gap header overflows at cursor="@
            + text::decimal(cursor as nat) + ", data_len="@ + text::decimal(len as nat),
        GapMapFault::GapOverflow { cursor, len, found } => "gap decode overflows: cursor="@
            + text::decimal(cursor as nat) + ", data_len="@ + text::decimal(len as nat)
            + ", gaps_so_far="@ + text::decimal(found as nat),
        GapMapFault::TooFewGaps { found, tokens, values } => "too few gaps: found "@ + text::decimal(
            found as nat,
        ) + ", tokens="@ + text::decimal(tokens as nat) + ", values="@ + text::decimal(values as nat)
            + ", expected>="@ + text::decimal(tokens as nat),
    }
}

fn describe(f: GapMapFault) -> (r: String)
    ensures
        r@ == fault_text(f),
{
    let mut m = String::new();
    match f {
        GapMapFault::TooShort { len } => {
            push_text(&mut m, "doc_data too short: ");
            push_decimal(&mut m, len as u64);
            push_text(&mut m, " bytes (min 3)");
        },
        GapMapFault::NoValues { tokens } => {
            push_text(&mut m, "num_values=0 but num_tokens=");
            push_decimal(&mut m, tokens as u64);
        },
        GapMapFault::TableOverflow { table, len } => {
            push_text(&mut m, "value_offsets table overflows: cursor=3, table_size=");
            push_decimal(&mut m, table as u64);
            push_text(&mut m, ", data_len=");
            push_decimal(&mut m, len as u64);
        },
        GapMapFault::LengthOverflow { cursor, len } => {
            push_text(&mut m, "extended gap header overflows at cursor=");
            push_decimal(&mut m, cursor as u64);
            push_text(&mut m, ", data_len=");
            push_decimal(&mut m, len as u64);
        },
        GapMapFault::GapOverflow { cursor, len, found } => {
            push_text(&mut m, "gap decode overflows: cursor=");
            push_decimal(&mut m, cursor as u64);
            push_text(&mut m, ", data_len=");
            push_decimal(&mut m, len as u64);
            push_text(&mut m, ", gaps_so_far=");
            push_decimal(&mut m, found as u64);
        },
        GapMapFault::TooFewGaps { found, tokens, values } => {
            push_text(&mut m, "too few gaps: found ");
            push_decimal(&mut m, found as u64);
            push_text(&mut m, ", tokens=");
            push_decimal(&mut m, tokens as u64);
            push_text(&mut m, ", values=");
            push_decimal(&mut m, values as u64);
            push_text(&mut m, ", expected>=");
            push_decimal(&mut m, tokens as u64);
        },
    }
    assert(m@ =~= fault_text(f));
    m
}

/// Error found during gapmap validation.
#[derive(Debug)]
pub struct GapMapError {
    /// ID of the document that failed validation.
    pub doc_id: u32,
    /// Description of the validation failure.
    pub message: String,
}

impl GapMapError {
    /// The error as one line of text.
    pub fn to_string(&self) -> (r: String)
        ensures
            r@ == "gapmap doc_"@ + text::decimal(self.doc_id as nat) + ": "@ + self.message@,
    {
        let mut m = String::new();
        push_text(&mut m, "gapmap doc_");
        push_decimal(&mut m, self.doc_id as u64);
        push_text(&mut m, ": ");
        push_text(&mut m, self.message.as_str());
        assert(m@ =~= "gapmap doc_"@ + text::decimal(self.doc_id as nat) + ": "@ + self.message@);
        m
    }
}

/// Whether the offset table holds this document's start and end, and the file
/// the bytes between them.
pub open spec fn doc_ok(s: Seq<u8>, doc: int) -> bool {
    &&& 4 + 8 * doc + 16 <= s.len()
    &&& bytes::get64(s, 4 + 8 * doc) <= bytes::get64(s, 4 + 8 * doc + 8) <= s.len()
}

/// The bytes of a document.
pub open spec fn doc_in(s: Seq<u8>, doc: int) -> Seq<u8> {
    s.subrange(bytes::get64(s, 4 + 8 * doc) as int, bytes::get64(s, 4 + 8 * doc + 8) as int)
}

/// How many gaps stand from `c` on, `n` having been counted before, or what is
/// wrong with the first that runs past the end.
pub open spec fn count_gaps(dd: Seq<u8>, c: int, n: nat) -> Result<nat, GapMapFault>
    decreases
        if c < dd.len() {
            dd.len() - c
        } else {
            0
        },
{
    if c >= dd.len() {
        Ok(n)
    } else {
        match gap_at(dd, c) {
            Some((_, next)) => count_gaps(dd, next, n + 1),
            None => if dd[c] == 255 && c + 3 > dd.len() {
                Err(GapMapFault::LengthOverflow { cursor: c as usize, len: dd.len() as usize })
            } else {
                Err(
                    GapMapFault::GapOverflow {
                        cursor: c as usize,
                        len: dd.len() as usize,
                        found: n as usize,
                    },
                )
            },
        }
    }
}

/// What is wrong with a document, if anything is.
pub open spec fn doc_fault(dd: Seq<u8>) -> Option<GapMapFault> {
    if dd.len() < 3 {
        Some(GapMapFault::TooShort { len: dd.len() as usize })
    } else if bytes::get16(dd, 0) == 0 {
        None
    } else if dd[2] == 0 {
        Some(GapMapFault::NoValues { tokens: bytes::get16(dd, 0) as usize })
    } else if gaps_start(dd) > dd.len() {
        Some(GapMapFault::TableOverflow { table: (6 * dd[2]) as usize, len: dd.len() as usize })
    } else {
        match count_gaps(dd, gaps_start(dd), 0) {
            Err(f) => Some(f),
            Ok(n) => if n < bytes::get16(dd, 0) {
                Some(
                    GapMapFault::TooFewGaps {
                        found: n as usize,
                        tokens: bytes::get16(dd, 0) as usize,
                        values: dd[2] as usize,
                    },
                )
            } else {
                None
            },
        }
    }
}

/// The documents among the first `n` that have a fault, in order.
pub open spec fn faulty_docs(s: Seq<u8>, n: int) -> Seq<u32>
    decreases n,
{
    if n <= 0 {
        Seq::empty()
    } else if doc_fault(doc_in(s, n - 1)) is Some {
        faulty_docs(s, n - 1).push((n - 1) as u32)
    } else {
        faulty_docs(s, n - 1)
    }
}

/// The first token position of value `v`.
pub open spec fn ti_start(dd: Seq<u8>, v: int) -> u32 {
    bytes::get32(dd, 3 + 6 * v + 2)
}

/// The value a token position belongs to: the last one before the first that
/// starts past it, looking from value `v` on, `best` being the one before.
pub open spec fn value_for(dd: Seq<u8>, ti: u32, v: int, best: int) -> int
    decreases dd[2] - v,
{
    if v >= dd[2] {
        best
    } else if ti_start(dd, v) <= ti {
        value_for(dd, ti, v + 1, v)
    } else {
        best
    }
}

/// The index of the gap after the token at position `ti`.
pub open spec fn gap_after(dd: Seq<u8>, ti: u32) -> int {
    if dd[2] == 1 {
        ti + 1
    } else if dd[2] == 0 {
        ti as int
    } else {
        let v = value_for(dd, ti, 0, 0);
        bytes::get16(dd, 3 + 6 * v) + 2 * v + (ti - ti_start(dd, v)) + 1
    }
}

/// Whether the position behind `ti` belongs to another value.
pub open spec fn crosses(dd: Seq<u8>, ti: u32) -> bool {
    dd[2] > 1 && value_for(dd, (ti + 1) as u32, 0, 0) != value_for(dd, ti, 0, 0)
}

/// The gap between the tokens at position `ti` and behind it; `None` where
/// they belong to two values.
pub open spec fn separator(dd: Seq<u8>, ti: u32) -> Option<Seq<u8>> {
    let gap = nth_gap(dd, gaps_start(dd), gap_after(dd, ti) as nat).unwrap();
    if crosses(dd, ti) || gap == seq![254u8] {
        None
    } else {
        Some(gap)
    }
}

/// Whether the gap after the token at position `ti` can be looked up: the
/// value table is whole, some value starts at or before the position, and the
/// gap is there.
pub open spec fn has_gap_after(dd: Seq<u8>, ti: u32) -> bool {
    &&& dd.len() >= gaps_start(dd)
    &&& dd.len() >= 3
    &&& dd[2] > 1 ==> ti_start(dd, value_for(dd, ti, 0, 0)) <= ti
    &&& gap_after(dd, ti) <= u32::MAX
    &&& nth_gap(dd, gaps_start(dd), gap_after(dd, ti) as nat) is Some
}

proof fn lemma_value_for(dd: Seq<u8>, ti: u32, v: int, best: int)
    requires
        0 <= best,
        best == 0 || best < dd[2],
        0 <= v,
    ensures
        0 <= value_for(dd, ti, v, best),
        value_for(dd, ti, v, best) == 0 || value_for(dd, ti, v, best) < dd[2],
    decreases dd[2] - v,
{
    if v < dd[2] && ti_start(dd, v) <= ti {
        lemma_value_for(dd, ti, v + 1, v);
    }
}

/// Reads gap data from a GapMap in memory.
pub struct GapMapReader<'a> {
    data: &'a [u8],
    num_docs: u32,
}

impl<'a> GapMapReader<'a> {
    /// The number of documents is the file's.
    pub closed spec fn wf(&self) -> bool {
        self.data@.len() >= 4 && self.num_docs == bytes::get32(self.data@, 0)
    }

    /// The file's bytes.
    pub closed spec fn bytes(&self) -> Seq<u8> {
        self.data@
    }

    /// Open a GapMap from raw bytes.
    pub fn open(data: &'a [u8]) -> (r: Self)
        requires
            data@.len() >= 4,
        ensures
            r.wf(),
            r.bytes() == data@,
    {
        let num_docs: u32 = read_u32(data, 0);
        Self { data, num_docs }
    }

    /// Raw bytes of the entire gapmap section.
    pub fn raw_data(&self) -> (r: &'a [u8])
        ensures
            r@ == self.bytes(),
    {
        self.data
    }

    /// Number of documents in this GapMap.
    pub fn num_docs(&self) -> (r: u32)
        requires
            self.wf(),
        ensures
            r == bytes::get32(self.bytes(), 0),
    {
        self.num_docs
    }

    /// Get the raw bytes for a document's gap data.
    pub fn doc_data(&self, doc_id: u32) -> (r: &'a [u8])
        requires
            doc_ok(self.bytes(), doc_id as int),
        ensures
            r@ == doc_in(self.bytes(), doc_id as int),
    {
        let len: usize = self.data.len();
        assert(4 + 8 * doc_id + 16 <= len);
        let at: usize = 4 + 8 * doc_id as usize;
        let start: u64 = read_u64(self.data, at);
        let end: u64 = read_u64(self.data, at + 8);
        part(self.data, start as usize, end as usize)
    }

    /// Number of tokens in a document (total across all values).
    pub fn num_tokens(&self, doc_id: u32) -> (r: u16)
        requires
            doc_ok(self.bytes(), doc_id as int),
            doc_in(self.bytes(), doc_id as int).len() >= 2,
        ensures
            r == bytes::get16(doc_in(self.bytes(), doc_id as int), 0),
    {
        let dd = self.doc_data(doc_id);
        read_u16(dd, 0)
    }

    /// Number of values for this document's field.
    pub fn num_values(&self, doc_id: u32) -> (r: u8)
        requires
            doc_ok(self.bytes(), doc_id as int),
            doc_in(self.bytes(), doc_id as int).len() >= 3,
        ensures
            r == doc_in(self.bytes(), doc_id as int)[2],
    {
        let dd = self.doc_data(doc_id);
        dd[2]
    }

    /// Read the gap at sequential `gap_index` for document `doc_id`.
    /// A value boundary reads as the single byte `VALUE_BOUNDARY_MARKER`.
    pub fn read_gap(&self, doc_id: u32, gap_index: u32) -> (r: &'a [u8])
        requires
            doc_ok(self.bytes(), doc_id as int),
            doc_in(self.bytes(), doc_id as int).len() >= 3,
            nth_gap(
                doc_in(self.bytes(), doc_id as int),
                gaps_start(doc_in(self.bytes(), doc_id as int)),
                gap_index as nat,
            ) is Some,
        ensures
            Some(r@) == nth_gap(
                doc_in(self.bytes(), doc_id as int),
                gaps_start(doc_in(self.bytes(), doc_id as int)),
                gap_index as nat,
            ),
    {
        let dd = self.doc_data(doc_id);
        read_gap_from_data(dd, gap_index)
    }

    /// Read the gap between two consecutive positions `ti_a` and `ti_b`.
    /// Returns None if they are not consecutive, or if they belong to two
    /// values.
    pub fn read_separator(&self, doc_id: u32, ti_a: u32, ti_b: u32) -> (r: Option<&'a [u8]>)
        requires
            ti_a < u32::MAX,
            ti_b == ti_a + 1 ==> doc_ok(self.bytes(), doc_id as int) && has_gap_after(
                doc_in(self.bytes(), doc_id as int),
                ti_a,
            ),
        ensures
            ti_b != ti_a + 1 ==> r is None,
            ti_b == ti_a + 1 ==> {
                let between = separator(doc_in(self.bytes(), doc_id as int), ti_a);
                &&& r is None <==> between is None
                &&& r matches Some(g) ==> between == Some(g@)
            },
    {
        if ti_b != ti_a + 1 {
            return None;
        }
        let dd = self.doc_data(doc_id);
        if dd[2] > 1 && value_at(dd, ti_b) != value_at(dd, ti_a) {
            return None;
        }
        let gap_index: u32 = if dd[2] == 1 {
            ti_a + 1
        } else {
            ti_to_gap_index_after(dd, ti_a)
        };
        let gap = read_gap_from_data(dd, gap_index);
        if is_value_boundary(gap) {
            return None;
        }
        Some(gap)
    }

    /// Validate all documents in the gapmap. Returns errors for corrupt docs.
    pub fn validate(&self) -> (r: Vec<GapMapError>)
        requires
            self.wf(),
            forall|d: int| 0 <= d < bytes::get32(self.bytes(), 0) ==> #[trigger] doc_ok(self.bytes(), d),
        ensures
            r@.len() == faulty_docs(self.bytes(), bytes::get32(self.bytes(), 0) as int).len(),
            forall|i: int|
                0 <= i < r@.len() ==> {
                    let d = faulty_docs(self.bytes(), bytes::get32(self.bytes(), 0) as int)[i];
                    &&& (#[trigger] r@[i]).doc_id == d
                    &&& r@[i].message@ == fault_text(
                        doc_fault(doc_in(self.bytes(), d as int)).unwrap(),
                    )
                },
    {
        let mut errors: Vec<GapMapError> = Vec::new();
        let mut d: u32 = 0;
        while d < self.num_docs
            invariant
                self.wf(),
                d <= self.num_docs,
                forall|d: int|
                    0 <= d < bytes::get32(self.data@, 0) ==> #[trigger] doc_ok(self.data@, d),
                errors@.len() == faulty_docs(self.data@, d as int).len(),
                forall|i: int|
                    0 <= i < errors@.len() ==> {
                        let k = faulty_docs(self.data@, d as int)[i];
                        &&& (#[trigger] errors@[i]).doc_id == k
                        &&& errors@[i].message@ == fault_text(
                            doc_fault(doc_in(self.data@, k as int)).unwrap(),
                        )
                    },
            decreases self.num_docs - d,
        {
            assert(doc_ok(self.data@, d as int));
            if let Err(e) = self.validate_doc(d) {
                errors.push(e);
            }
            d += 1;
        }
        errors
    }

    /// Validate a single document's gap data.
    pub fn validate_doc(&self, doc_id: u32) -> (r: Result<(), GapMapError>)
        requires
            doc_ok(self.bytes(), doc_id as int),
        ensures
            r is Ok <==> doc_fault(doc_in(self.bytes(), doc_id as int)) is None,
            r matches Err(e) ==> e.doc_id == doc_id && e.message@ == fault_text(
                doc_fault(doc_in(self.bytes(), doc_id as int)).unwrap(),
            ),
    {
        let dd = self.doc_data(doc_id);
        match find_fault(dd) {
            None => Ok(()),
            Some(f) => Err(GapMapError { doc_id, message: describe(f) }),
        }
    }

    /// Read all gaps for a document, including value boundaries.
    pub fn read_all_gaps(&self, doc_id: u32) -> (r: Vec<&'a [u8]>)
        requires
            doc_ok(self.bytes(), doc_id as int),
            doc_in(self.bytes(), doc_id as int).len() >= 3,
            bytes::get16(doc_in(self.bytes(), doc_id as int), 0) > 0 ==> all_gaps(
                doc_in(self.bytes(), doc_id as int),
                gaps_start(doc_in(self.bytes(), doc_id as int)),
            ) is Some,
        ensures
            bytes::get16(doc_in(self.bytes(), doc_id as int), 0) == 0 ==> r@.len() == 0,
            bytes::get16(doc_in(self.bytes(), doc_id as int), 0) > 0 ==> Some(slices(r@)) == all_gaps(
                doc_in(self.bytes(), doc_id as int),
                gaps_start(doc_in(self.bytes(), doc_id as int)),
            ),
    {
        let dd = self.doc_data(doc_id);
        let mut gaps: Vec<&'a [u8]> = Vec::new();
        if read_u16(dd, 0) == 0 {
            return gaps;
        }
        let mut cursor: usize = 3;
        if dd[2] > 1 {
            cursor = 3 + 6 * dd[2] as usize;
        }
        let ghost start = gaps_start(dd@);
        assert(slices(gaps@) =~= Seq::<Seq<u8>>::empty());
        assert(slices(gaps@) + all_gaps(dd@, start).unwrap() =~= all_gaps(dd@, start).unwrap());
        while cursor < dd.len()
            invariant
                all_gaps(dd@, start) is Some,
                all_gaps(dd@, cursor as int) is Some,
                slices(gaps@) + all_gaps(dd@, cursor as int).unwrap() == all_gaps(
                    dd@,
                    start,
                ).unwrap(),
            decreases dd@.len() - cursor,
        {
            let ghost before = slices(gaps@);
            let (gap, next) = decode_gap_at(dd, cursor);
            gaps.push(gap);
            proof {
                let rest = all_gaps(dd@, next as int).unwrap();
                assert(slices(gaps@) =~= before.push(gap@));
                assert(before + (seq![gap@] + rest) =~= before.push(gap@) + rest);
            }
            cursor = next;
        }
        assert(slices(gaps@) + Seq::<Seq<u8>>::empty() =~= slices(gaps@));
        gaps
    }
}

fn find_fault(dd: &[u8]) -> (r: Option<GapMapFault>)
    ensures
        r == doc_fault(dd@),
{
    let len: usize = dd.len();
    if len < 3 {
        return Some(GapMapFault::TooShort { len });
    }
    let tokens: usize = read_u16(dd, 0) as usize;
    let values: usize = dd[2] as usize;
    if tokens == 0 {
        return None;
    }
    if values == 0 {
        return Some(GapMapFault::NoValues { tokens });
    }
    let mut cursor: usize = 3;
    if values > 1 {
        let table: usize = 6 * values;
        if cursor + table > len {
            return Some(GapMapFault::TableOverflow { table, len });
        }
        cursor = cursor + table;
    }
    let ghost start = gaps_start(dd@);
    let mut found: usize = 0;
    while cursor < len
        invariant
            len == dd@.len(),
            len >= 3,
            tokens == bytes::get16(dd@, 0),
            tokens > 0,
            values == dd@[2],
            values > 0,
            start == gaps_start(dd@),
            start <= len,
            found <= cursor,
            found <= len,
            count_gaps(dd@, start, 0) == count_gaps(dd@, cursor as int, found as nat),
        decreases len - cursor,
    {
        let b: u8 = dd[cursor];
        let ghost before = cursor;
        if b == VALUE_BOUNDARY_MARKER {
            cursor = cursor + 1;
        } else if b == 255 {
            if len - cursor < 3 {
                return Some(GapMapFault::LengthOverflow { cursor, len });
            }
            let ext: usize = read_u16(dd, cursor + 1) as usize;
            if ext > len - cursor - 3 {
                return Some(GapMapFault::GapOverflow { cursor, len, found });
            }
            cursor = cursor + 3 + ext;
        } else {
            if b as usize > len - cursor - 1 {
                return Some(GapMapFault::GapOverflow { cursor, len, found });
            }
            cursor = cursor + 1 + b as usize;
        }
        found = found + 1;
    }
    if found < tokens {
        return Some(GapMapFault::TooFewGaps { found, tokens, values });
    }
    None
}

/// The value a token position belongs to.
fn value_at(dd: &[u8], ti: u32) -> (best: usize)
    requires
        dd@.len() >= gaps_start(dd@),
        dd@[2] > 1,
    ensures
        best == value_for(dd@, ti, 0, 0),
        best < dd@[2],
{
    let n: usize = dd[2] as usize;
    let mut best: usize = 0;
    let mut v: usize = 0;
    proof {
        lemma_value_for(dd@, ti, 0, 0);
    }
    while v < n
        invariant_except_break
            dd@.len() >= 3 + 6 * n,
            n == dd@[2],
            v <= n,
            best < n,
            value_for(dd@, ti, 0, 0) == value_for(dd@, ti, v as int, best as int),
        ensures
            best < n,
            value_for(dd@, ti, 0, 0) == best,
        decreases n - v,
    {
        if read_u32(dd, 3 + 6 * v + 2) <= ti {
            best = v;
        } else {
            break;
        }
        v += 1;
    }
    best
}

/// Convert a token position to the index of the gap after it: the gaps and
/// boundaries before its value, then its place within the value.
fn ti_to_gap_index_after(dd: &[u8], ti: u32) -> (r: u32)
    requires
        has_gap_after(dd@, ti),
        dd@[2] != 1,
    ensures
        r == gap_after(dd@, ti),
{
    let n: usize = dd[2] as usize;
    if n <= 1 {
        return ti;
    }
    let best: usize = value_at(dd, ti);
    let seq_start: u32 = read_u16(dd, 3 + 6 * best) as u32;
    let first: u32 = read_u32(dd, 3 + 6 * best + 2);
    seq_start + 2 * best as u32 + (ti - first) + 1
}

fn read_gap_from_data<'a>(dd: &'a [u8], gap_index: u32) -> (r: &'a [u8])
    requires
        dd@.len() >= 3,
        nth_gap(dd@, gaps_start(dd@), gap_index as nat) is Some,
    ensures
        Some(r@) == nth_gap(dd@, gaps_start(dd@), gap_index as nat),
{
    let mut cursor: usize = 3;
    if dd[2] > 1 {
        cursor = 3 + 6 * dd[2] as usize;
    }
    let mut left: u32 = gap_index;
    while left > 0
        invariant
            nth_gap(dd@, gaps_start(dd@), gap_index as nat) is Some,
            nth_gap(dd@, gaps_start(dd@), gap_index as nat) == nth_gap(
                dd@,
                cursor as int,
                left as nat,
            ),
        decreases left,
    {
        let (_, next) = decode_gap_at(dd, cursor);
        cursor = next;
        left -= 1;
    }
    let (gap, _) = decode_gap_at(dd, cursor);
    gap
}

/// Decode a gap at position `cursor` in the data. Returns (gap_bytes, next_cursor).
fn decode_gap_at<'a>(data: &'a [u8], cursor: usize) -> (r: (&'a [u8], usize))
    requires
        gap_at(data@, cursor as int) is Some,
    ensures
        gap_at(data@, cursor as int) == Some((r.0@, r.1 as int)),
{
    let total: usize = data.len();
    let len: u8 = data[cursor];
    if len == VALUE_BOUNDARY_MARKER {
        let marker = part(data, cursor, cursor + 1);
        assert(marker@ =~= seq![254u8]);
        (marker, cursor + 1)
    } else if len == 255 {
        let ext: usize = read_u16(data, cursor + 1) as usize;
        let start: usize = cursor + 3;
        (part(data, start, start + ext), start + ext)
    } else {
        let start: usize = cursor + 1;
        (part(data, start, start + len as usize), start + len as usize)
    }
}

/// Check if a gap is a value boundary.
pub fn is_value_boundary(gap: &[u8]) -> (r: bool)
    ensures
        r == (gap@ == seq![254u8]),
{
    if gap.len() == 1 && gap[0] == VALUE_BOUNDARY_MARKER {
        assert(gap@ =~= seq![254u8]);
        true
    } else {
        assert(gap@ == seq![254u8] ==> gap@.len() == 1 && gap@[0] == 254);
        false
    }
}

/// The registered gap map: built with the segment, copied document by
/// document by a merge.
pub struct GapMapIndex;

/// The document a merge takes from its source, an empty one where the source
/// has no gap map.
pub open spec fn merged_doc(sources: Seq<Option<&[u8]>>, from: (u32, u32)) -> Seq<u8> {
    if from.0 < sources.len() && sources[from.0 as int] is Some {
        doc_in(sources[from.0 as int].unwrap()@, from.1 as int)
    } else {
        single_doc(Seq::empty())
    }
}

/// The documents of a merge, in its order.
pub open spec fn merged_docs(
    sources: Seq<Option<&[u8]>>,
    mapping: Seq<(u32, u32)>,
) -> Seq<Seq<u8>> {
    Seq::new(mapping.len(), |i: int| merged_doc(sources, mapping[i]))
}

impl GapMapIndex {
    /// Copies the gap data of each `(segment, document)` of the mapping, in
    /// its order.
    pub fn merge(&self, sources: &[Option<&[u8]>], doc_mapping: &[(u32, u32)]) -> (out: Vec<u8>)
        requires
            forall|i: int|
                0 <= i < doc_mapping@.len() && (#[trigger] doc_mapping@[i]).0 < sources@.len()
                    && sources@[doc_mapping@[i].0 as int] is Some ==> {
                    let src = sources@[doc_mapping@[i].0 as int].unwrap()@;
                    src.len() >= 4 && doc_ok(src, doc_mapping@[i].1 as int)
                },
            doc_mapping@.len() <= u32::MAX,
            4 + 8 * (doc_mapping@.len() + 1) + bytes::flat(
                merged_docs(sources@, doc_mapping@),
            ).len() <= u64::MAX,
        ensures
            out@ == gapmap_bytes(merged_docs(sources@, doc_mapping@)),
    {
        let mut writer = GapMapWriter::new();
        let mut i: usize = 0;
        while i < doc_mapping.len()
            invariant
                i <= doc_mapping@.len(),
                forall|i: int|
                    0 <= i < doc_mapping@.len() && (#[trigger] doc_mapping@[i]).0 < sources@.len()
                        && sources@[doc_mapping@[i].0 as int] is Some ==> {
                        let src = sources@[doc_mapping@[i].0 as int].unwrap()@;
                        src.len() >= 4 && doc_ok(src, doc_mapping@[i].1 as int)
                    },
                writer.docs() =~= merged_docs(sources@, doc_mapping@).take(i as int),
            decreases doc_mapping@.len() - i,
        {
            let (seg, doc) = doc_mapping[i];
            assert(doc_mapping@[i as int] == (seg, doc));
            let mut copied: bool = false;
            if (seg as usize) < sources.len() {
                if let Some(source) = sources[seg as usize] {
                    let reader = GapMapReader::open(source);
                    writer.add_doc_raw(reader.doc_data(doc));
                    copied = true;
                }
            }
            if !copied {
                writer.add_empty_doc();
            }
            i += 1;
        }
        assert(writer.docs() =~= merged_docs(sources@, doc_mapping@));
        writer.serialize()
    }
}

/// Law: every document of a written file is found at its place, byte for byte.
pub proof fn written_docs_read_back(docs: Seq<Seq<u8>>, d: int)
    requires
        docs.len() <= u32::MAX,
        4 + 8 * (docs.len() + 1) + bytes::flat(docs).len() <= u64::MAX,
        0 <= d < docs.len(),
    ensures
        bytes::get32(gapmap_bytes(docs), 0) == docs.len(),
        doc_ok(gapmap_bytes(docs), d),
        doc_in(gapmap_bytes(docs), d) == docs[d],
{
    broadcast use {bytes::group_le_len, bytes::lemma_le64s_len};

    let f = gapmap_bytes(docs);
    let base = 4 + 8 * (docs.len() as int + 1);
    let table = bytes::starts64(docs, base);
    assert(f.subrange(0, 4) =~= bytes::le32(docs.len() as u32));
    bytes::lemma_get32(f, 0, docs.len() as u32);
    assert(f.subrange(4, 4 + 8 * table.len() as int) =~= bytes::le64s(table));
    bytes::lemma_flat_at(docs, d);
    bytes::lemma_table64(f, 4, table, d);
    bytes::lemma_table64(f, 4, table, d + 1);
    assert(f.len() == base + bytes::flat(docs).len());
    assert(f.subrange(base + bytes::start_of(docs, d), base + bytes::start_of(docs, d + 1)) =~= bytes::flat(
        docs,
    ).subrange(bytes::start_of(docs, d), bytes::start_of(docs, d + 1)));
}

proof fn lemma_gap_at(dd: Seq<u8>, c: int, gap: Option<Seq<u8>>)
    requires
        0 <= c,
        c + enc_gap(gap).len() <= dd.len(),
        dd.subrange(c, c + enc_gap(gap).len()) == enc_gap(gap),
        gap matches Some(g) ==> g.len() <= u16::MAX,
    ensures
        gap_at(dd, c) == Some((shown(gap), c + enc_gap(gap).len() as int)),
{
    broadcast use bytes::group_le_len;

    let e = enc_gap(gap);
    let w = dd.subrange(c, c + e.len());
    assert(dd[c] == w[0]);
    match gap {
        None => {},
        Some(g) => if g.len() < 254 {
            assert(dd.subrange(c + 1, c + 1 + g.len()) =~= w.subrange(1, e.len() as int));
            assert(e.subrange(1, e.len() as int) =~= g);
        } else {
            assert(dd.subrange(c + 1, c + 3) =~= w.subrange(1, 3));
            assert(e.subrange(1, 3) =~= bytes::le16(g.len() as u16));
            bytes::lemma_get16(dd, c + 1, g.len() as u16);
            assert(dd.subrange(c + 3, c + 3 + g.len()) =~= w.subrange(3, e.len() as int));
            assert(e.subrange(3, e.len() as int) =~= g);
        },
    }
}

/// The gaps of a run that stands at `base` in `dd`: the `k`-th from the
/// `i`-th is the run's, and reading to the end gives the rest of the run.
proof fn lemma_gaps_read(dd: Seq<u8>, base: int, gaps: Seq<Option<Seq<u8>>>, i: int, k: nat)
    requires
        0 <= base,
        dd.len() == base + bytes::flat(encs(gaps)).len(),
        dd.subrange(base, dd.len() as int) == bytes::flat(encs(gaps)),
        forall|j: int| 0 <= j < gaps.len() ==> (#[trigger] gaps[j] matches Some(g) ==> g.len()
            <= u16::MAX),
        0 <= i <= gaps.len(),
    ensures
        i + k < gaps.len() ==> nth_gap(dd, base + bytes::start_of(encs(gaps), i), k) == Some(
            shown(gaps[i + k]),
        ),
        all_gaps(dd, base + bytes::start_of(encs(gaps), i)) == Some(
            Seq::new((gaps.len() - i) as nat, |j: int| shown(gaps[i + j])),
        ),
    decreases gaps.len() - i,
{
    let e = encs(gaps);
    let c = base + bytes::start_of(e, i);
    let want = Seq::new((gaps.len() - i) as nat, |j: int| shown(gaps[i + j]));
    bytes::lemma_start_ends(e);
    if i == gaps.len() {
        assert(want =~= Seq::<Seq<u8>>::empty());
    } else {
        bytes::lemma_flat_at(e, i);
        assert(dd.subrange(c, c + e[i].len()) =~= dd.subrange(base, dd.len() as int).subrange(
            bytes::start_of(e, i),
            bytes::start_of(e, i + 1),
        ));
        lemma_gap_at(dd, c, gaps[i]);
        assert(enc_gap(gaps[i]).len() > 0);
        if k == 0 {
            lemma_gaps_read(dd, base, gaps, i + 1, 0);
        } else {
            lemma_gaps_read(dd, base, gaps, i + 1, (k - 1) as nat);
        }
        let rest = Seq::new((gaps.len() - (i + 1)) as nat, |j: int| shown(gaps[i + 1 + j]));
        assert(want =~= seq![shown(gaps[i])] + rest);
    }
}

/// Law: the gaps of a document of one value read back, one by one and all
/// together.
pub proof fn single_doc_reads_back(gaps: Seq<Seq<u8>>, k: nat)
    requires
        gaps.len() <= 65536,
        fit(gaps),
    ensures
        single_doc(gaps).len() >= 3,
        bytes::get16(single_doc(gaps), 0) == tokens_of(gaps.len() as int),
        single_doc(gaps)[2] == 1,
        gaps_start(single_doc(gaps)) == 3,
        k < gaps.len() ==> nth_gap(single_doc(gaps), 3, k) == Some(gaps[k as int]),
        all_gaps(single_doc(gaps), 3) == Some(gaps),
{
    broadcast use bytes::group_le_len;

    let dd = single_doc(gaps);
    let items = plain(gaps);
    assert(dd.subrange(0, 2) =~= bytes::le16(tokens_of(gaps.len() as int) as u16));
    bytes::lemma_get16(dd, 0, tokens_of(gaps.len() as int) as u16);
    assert(dd.subrange(3, dd.len() as int) =~= bytes::flat(encs(items)));
    bytes::lemma_start_ends(encs(items));
    assert forall|j: int| 0 <= j < items.len() implies (#[trigger] items[j] matches Some(g)
        ==> g.len() <= u16::MAX) by {
        assert(gaps[j].len() <= u16::MAX);
    }
    lemma_gaps_read(dd, 3, items, 0, k);
    assert(Seq::new(items.len(), |j: int| shown(items[0 + j])) =~= gaps);
}

proof fn lemma_table_len(values: Seq<Seq<Seq<u8>>>, ti_starts: Seq<u32>, k: int)
    requires
        0 <= k,
    ensures
        value_table(values, ti_starts, k).len() == 6 * k,
    decreases k,
{
    broadcast use bytes::group_le_len;

    if k > 0 {
        lemma_table_len(values, ti_starts, k - 1);
    }
}

proof fn lemma_table_at(values: Seq<Seq<Seq<u8>>>, ti_starts: Seq<u32>, k: int, v: int)
    requires
        0 <= v < k,
    ensures
        value_table(values, ti_starts, k).len() == 6 * k,
        value_table(values, ti_starts, k).subrange(6 * v, 6 * v + 2) == bytes::le16(
            tokens_before(values, v) as u16,
        ),
        value_table(values, ti_starts, k).subrange(6 * v + 2, 6 * v + 6) == bytes::le32(ti_starts[v]),
    decreases k,
{
    broadcast use bytes::group_le_len;

    lemma_table_len(values, ti_starts, k);
    lemma_table_len(values, ti_starts, k - 1);
    let t = value_table(values, ti_starts, k);
    if v == k - 1 {
        assert(t.subrange(6 * v, 6 * v + 2) =~= bytes::le16(tokens_before(values, v) as u16));
        assert(t.subrange(6 * v + 2, 6 * v + 6) =~= bytes::le32(ti_starts[v]));
    } else {
        lemma_table_at(values, ti_starts, k - 1, v);
        let s = value_table(values, ti_starts, k - 1);
        assert(t.subrange(6 * v, 6 * v + 2) =~= s.subrange(6 * v, 6 * v + 2));
        assert(t.subrange(6 * v + 2, 6 * v + 6) =~= s.subrange(6 * v + 2, 6 * v + 6));
    }
}

proof fn lemma_stream_at(values: Seq<Seq<Seq<u8>>>, k: int, v: int, j: int)
    requires
        0 <= v < k <= values.len(),
        0 <= j < values[v].len(),
        forall|u: int| 0 <= u < k ==> #[trigger] values[u].len() >= 1,
    ensures
        stream(values, k).len() == tokens_before(values, k) + 2 * k - 1,
        tokens_before(values, v) >= 0,
        tokens_before(values, v) + 2 * v + j < stream(values, k).len(),
        stream(values, k)[tokens_before(values, v) + 2 * v + j] == Some(values[v][j]),
    decreases k,
{
    assert(values[k - 1].len() >= 1);
    lemma_tokens_mono(values, 0, v);
    if k > 1 {
        assert(values[k - 2].len() >= 1);
        if v == k - 1 {
            lemma_stream_at(values, k - 1, k - 2, 0);
        } else {
            lemma_stream_at(values, k - 1, v, j);
        }
    }
}

proof fn lemma_stream_fit(values: Seq<Seq<Seq<u8>>>, k: int)
    requires
        0 <= k <= values.len(),
        forall|u: int| 0 <= u < values.len() ==> fit(#[trigger] values[u]),
    ensures
        forall|j: int|
            0 <= j < stream(values, k).len() ==> (#[trigger] stream(values, k)[j] matches Some(g)
                ==> g.len() <= u16::MAX),
    decreases k,
{
    if k > 0 {
        lemma_stream_fit(values, k - 1);
        assert(fit(values[k - 1]));
        let s = stream(values, k);
        assert forall|j: int| 0 <= j < s.len() implies (#[trigger] s[j] matches Some(g) ==> g.len()
            <= u16::MAX) by {
            let p = plain(values[k - 1]);
            if k == 1 {
                assert(s[j] == Some(values[0][j]));
                assert(values[0][j].len() <= u16::MAX);
            } else if j < stream(values, k - 1).len() {
                assert(s[j] == stream(values, k - 1)[j]);
            } else if j > stream(values, k - 1).len() {
                let i = j - stream(values, k - 1).len() - 1;
                assert(s[j] == Some(values[k - 1][i]));
                assert(values[k - 1][i].len() <= u16::MAX);
            }
        }
    }
}

proof fn lemma_value_found(dd: Seq<u8>, ti: u32, v: int, from: int, best: int)
    requires
        0 <= from <= v < dd[2],
        from == v ==> best == v || ti_start(dd, v) <= ti,
        forall|u: int| 0 <= u <= v ==> #[trigger] ti_start(dd, u) <= ti,
        v + 1 < dd[2] ==> ti_start(dd, v + 1) > ti,
    ensures
        value_for(dd, ti, from, best) == v,
    decreases v - from,
{
    assert(ti_start(dd, from) <= ti);
    if from < v {
        lemma_value_found(dd, ti, v, from + 1, from);
    } else {
        assert(value_for(dd, ti, v + 1, v) == v);
    }
}

/// Law: in a document of several values, the separator after the `t`-th token
/// of value `v` is the gap that was written after it, and the values and
/// tokens are counted as written. A value's tokens stand at the positions from
/// its start on, before the next value's start.
pub proof fn multi_doc_reads_back(
    values: Seq<Seq<Seq<u8>>>,
    ti_starts: Seq<u32>,
    v: int,
    t: int,
)
    requires
        2 <= values.len() <= 255,
        ti_starts.len() == values.len(),
        tokens_before(values, values.len() as int) <= u16::MAX,
        forall|u: int| 0 <= u < values.len() ==> fit(#[trigger] values[u]),
        forall|u: int| 0 <= u < values.len() ==> (#[trigger] values[u]).len() >= 1,
        forall|a: int, b: int| 0 <= a < b < values.len() ==> ti_starts[a] <= ti_starts[b],
        0 <= v < values.len(),
        0 <= t < tokens_of(values[v].len() as int),
        ti_starts[v] + t < u32::MAX - 70000,
        v + 1 < values.len() ==> ti_starts[v] + t < ti_starts[v + 1],
    ensures
        ({
            let dd = multi_doc(values, ti_starts);
            let ti = (ti_starts[v] + t) as u32;
            &&& dd.len() >= 3
            &&& bytes::get16(dd, 0) == tokens_before(values, values.len() as int)
            &&& dd[2] == values.len()
            &&& has_gap_after(dd, ti)
            &&& nth_gap(dd, gaps_start(dd), gap_after(dd, ti) as nat) == Some(values[v][t + 1])
        }),
{
    broadcast use bytes::group_le_len;

    let n = values.len() as int;
    let dd = multi_doc(values, ti_starts);
    let ti = (ti_starts[v] + t) as u32;
    let table = value_table(values, ti_starts, n);
    let items = stream(values, n);
    lemma_table_len(values, ti_starts, n);
    lemma_tokens_mono(values, v, n);
    lemma_tokens_mono(values, 0, n);
    assert(dd.subrange(0, 2) =~= bytes::le16(tokens_before(values, n) as u16));
    bytes::lemma_get16(dd, 0, tokens_before(values, n) as u16);
    assert(dd.subrange(3, 3 + 6 * n) =~= table);
    assert(dd.subrange(3 + 6 * n, dd.len() as int) =~= bytes::flat(encs(items)));
    assert forall|u: int| 0 <= u < n implies #[trigger] ti_start(dd, u) == ti_starts[u] by {
        lemma_table_at(values, ti_starts, n, u);
        assert(dd.subrange(3 + 6 * u + 2, 3 + 6 * u + 6) =~= table.subrange(6 * u + 2, 6 * u + 6));
        bytes::lemma_get32(dd, 3 + 6 * u + 2, ti_starts[u]);
    }
    assert forall|u: int| 0 <= u <= v implies #[trigger] ti_start(dd, u) <= ti by {
        assert(ti_start(dd, u) == ti_starts[u]);
        if u < v {
            assert(ti_starts[u] <= ti_starts[v]);
        }
    }
    if v + 1 < n {
        assert(ti_start(dd, v + 1) == ti_starts[v + 1]);
    }
    lemma_value_found(dd, ti, v, 0, 0);
    lemma_table_at(values, ti_starts, n, v);
    assert(dd.subrange(3 + 6 * v, 3 + 6 * v + 2) =~= table.subrange(6 * v, 6 * v + 2));
    bytes::lemma_get16(dd, 3 + 6 * v, tokens_before(values, v) as u16);
    assert(ti_start(dd, v) == ti_starts[v]);
    lemma_stream_at(values, n, v, t + 1);
    lemma_stream_fit(values, n);
    bytes::lemma_start_ends(encs(items));
    let k = tokens_before(values, v) + 2 * v + t + 1;
    assert(gap_after(dd, ti) == k);
    lemma_gaps_read(dd, 3 + 6 * n, items, 0, k as nat);
    assert(items[0 + k] == Some(values[v][t + 1]));
}

proof fn lemma_gaps_counted(dd: Seq<u8>, c: int, n: nat)
    requires
        0 <= c,
        all_gaps(dd, c) is Some,
    ensures
        count_gaps(dd, c, n) == Ok::<nat, GapMapFault>(n + all_gaps(dd, c).unwrap().len()),
    decreases
        if c < dd.len() {
            dd.len() - c
        } else {
            0
        },
{
    if c < dd.len() {
        let g = gap_at(dd, c).unwrap();
        lemma_gaps_counted(dd, g.1, n + 1);
    }
}

proof fn lemma_stream_len(values: Seq<Seq<Seq<u8>>>, k: int)
    requires
        0 <= k <= values.len(),
    ensures
        stream(values, k).len() >= tokens_before(values, k),
    decreases k,
{
    if k > 0 {
        lemma_stream_len(values, k - 1);
        assert(tokens_before(values, 0) == 0);
    }
}

/// Law: the gaps of a document of several values read back all together, with
/// the boundary between two values.
pub proof fn multi_doc_gaps_read_back(values: Seq<Seq<Seq<u8>>>, ti_starts: Seq<u32>)
    requires
        1 <= values.len() <= 255,
        values.len() > 1 ==> ti_starts.len() >= values.len(),
        tokens_before(values, values.len() as int) <= u16::MAX,
        forall|u: int| 0 <= u < values.len() ==> fit(#[trigger] values[u]),
    ensures
        ({
            let dd = multi_doc(values, ti_starts);
            let items = stream(values, values.len() as int);
            &&& dd.len() >= gaps_start(dd) >= 3
            &&& bytes::get16(dd, 0) == tokens_before(values, values.len() as int)
            &&& dd[2] == values.len()
            &&& all_gaps(dd, gaps_start(dd)) == Some(
                Seq::new(items.len(), |i: int| shown(items[i])),
            )
        }),
{
    broadcast use bytes::group_le_len;

    let n = values.len() as int;
    let dd = multi_doc(values, ti_starts);
    let items = stream(values, n);
    lemma_table_len(values, ti_starts, n);
    lemma_tokens_mono(values, 0, n);
    assert(dd.subrange(0, 2) =~= bytes::le16(tokens_before(values, n) as u16));
    bytes::lemma_get16(dd, 0, tokens_before(values, n) as u16);
    assert(dd[2] == n);
    let base = gaps_start(dd);
    assert(dd.subrange(base, dd.len() as int) =~= bytes::flat(encs(items)));
    lemma_stream_fit(values, n);
    bytes::lemma_start_ends(encs(items));
    lemma_gaps_read(dd, base, items, 0, 0);
    assert(Seq::new(items.len(), |j: int| shown(items[0 + j])) =~= Seq::new(
        items.len(),
        |i: int| shown(items[i]),
    ));
}

/// Law: two tokens of which the second starts a value have no separator
/// between them.
pub proof fn values_are_kept_apart(dd: Seq<u8>, ti: u32, v: int)
    requires
        0 < v < dd[2],
        ti < u32::MAX,
        forall|u: int| 0 <= u < v ==> #[trigger] ti_start(dd, u) <= ti,
        ti_start(dd, v) == ti + 1,
    ensures
        separator(dd, ti) is None,
{
    lemma_value_found(dd, ti, v - 1, 0, 0);
    lemma_value_beyond(dd, (ti + 1) as u32, v, 0, 0);
}

proof fn lemma_value_beyond(dd: Seq<u8>, ti: u32, v: int, from: int, best: int)
    requires
        0 <= from <= v < dd[2],
        forall|u: int| 0 <= u <= v ==> #[trigger] ti_start(dd, u) <= ti,
    ensures
        value_for(dd, ti, from, best) >= v,
    decreases v - from,
{
    assert(ti_start(dd, from) <= ti);
    if from < v {
        lemma_value_beyond(dd, ti, v, from + 1, from);
    } else {
        lemma_value_later(dd, ti, v + 1, v);
    }
}

proof fn lemma_value_later(dd: Seq<u8>, ti: u32, v: int, best: int)
    requires
        best <= v,
    ensures
        value_for(dd, ti, v, best) >= best,
    decreases dd[2] - v,
{
    if v < dd[2] && ti_start(dd, v) <= ti {
        lemma_value_later(dd, ti, v + 1, v);
    }
}

/// Whether a document is one that a writer makes of gaps.
pub open spec fn made_of_gaps(doc: Seq<u8>) -> bool {
    ||| exists|gaps: Seq<Seq<u8>>|
        #![trigger single_doc(gaps)]
        gaps.len() <= 65536 && fit(gaps) && doc == single_doc(gaps)
    ||| exists|values: Seq<Seq<Seq<u8>>>, ti_starts: Seq<u32>|
        #![trigger multi_doc(values, ti_starts)]
        {
            &&& values.len() <= 255
            &&& values.len() > 1 ==> ti_starts.len() >= values.len()
            &&& tokens_before(values, values.len() as int) <= u16::MAX
            &&& forall|u: int| 0 <= u < values.len() ==> fit(#[trigger] values[u])
            &&& doc == multi_doc(values, ti_starts)
        }
}

/// Law: a document that a writer makes of gaps has no fault.
pub proof fn written_docs_have_no_fault(doc: Seq<u8>)
    requires
        made_of_gaps(doc),
    ensures
        doc_fault(doc) is None,
{
    broadcast use bytes::group_le_len;

    if exists|gaps: Seq<Seq<u8>>|
        #![trigger single_doc(gaps)]
        gaps.len() <= 65536 && fit(gaps) && doc == single_doc(gaps) {
        let gaps = choose|gaps: Seq<Seq<u8>>|
            #![trigger single_doc(gaps)]
            gaps.len() <= 65536 && fit(gaps) && doc == single_doc(gaps);
        single_doc_reads_back(gaps, 0);
        lemma_gaps_counted(doc, 3, 0);
    } else {
        let (values, ti_starts) = choose|values: Seq<Seq<Seq<u8>>>, ti_starts: Seq<u32>|
            #![trigger multi_doc(values, ti_starts)]
            {
                &&& values.len() <= 255
                &&& values.len() > 1 ==> ti_starts.len() >= values.len()
                &&& tokens_before(values, values.len() as int) <= u16::MAX
                &&& forall|u: int| 0 <= u < values.len() ==> fit(#[trigger] values[u])
                &&& doc == multi_doc(values, ti_starts)
            };
        if values.len() == 0 {
            assert(doc.subrange(0, 2) =~= bytes::le16(0));
            bytes::lemma_get16(doc, 0, 0);
        } else {
            multi_doc_gaps_read_back(values, ti_starts);
            lemma_gaps_counted(doc, gaps_start(doc), 0);
            lemma_stream_len(values, values.len() as int);
        }
    }
}

proof fn lemma_no_faulty_docs(docs: Seq<Seq<u8>>, n: int)
    requires
        docs.len() <= u32::MAX,
        4 + 8 * (docs.len() + 1) + bytes::flat(docs).len() <= u64::MAX,
        forall|d: int| 0 <= d < docs.len() ==> made_of_gaps(#[trigger] docs[d]),
        0 <= n <= docs.len(),
    ensures
        faulty_docs(gapmap_bytes(docs), n) == Seq::<u32>::empty(),
    decreases n,
{
    if n > 0 {
        lemma_no_faulty_docs(docs, n - 1);
        written_docs_read_back(docs, n - 1);
        written_docs_have_no_fault(docs[n - 1]);
    }
}

/// Law: a validation finds nothing in a file that a writer makes of gaps.
pub proof fn written_files_are_valid(docs: Seq<Seq<u8>>)
    requires
        docs.len() <= u32::MAX,
        4 + 8 * (docs.len() + 1) + bytes::flat(docs).len() <= u64::MAX,
        forall|d: int| 0 <= d < docs.len() ==> made_of_gaps(#[trigger] docs[d]),
    ensures
        faulty_docs(gapmap_bytes(docs), docs.len() as int) == Seq::<u32>::empty(),
{
    lemma_no_faulty_docs(docs, docs.len() as int);
}

proof fn lemma_count_is_gaps(dd: Seq<u8>, c: int, n: nat)
    requires
        0 <= c,
    ensures
        count_gaps(dd, c, n) is Ok <==> all_gaps(dd, c) is Some,
        all_gaps(dd, c) matches Some(g) ==> count_gaps(dd, c, n) == Ok::<nat, GapMapFault>((n + g.len()) as nat),
    decreases
        if c < dd.len() {
            dd.len() - c
        } else {
            0
        },
{
    if c < dd.len() {
        match gap_at(dd, c) {
            Some(g) => {
                lemma_count_is_gaps(dd, g.1, n + 1);
            },
            None => {},
        }
    }
}

/// Law: a document is found without fault exactly if it has its head, and
/// either no tokens or values, a whole table of them, gaps that all end within
/// it and at least as many as tokens; and each fault says which of these is
/// missing.
pub proof fn a_fault_says_what_is_missing(dd: Seq<u8>)
    ensures
        ({
            let tokens = bytes::get16(dd, 0);
            let gaps = all_gaps(dd, gaps_start(dd));
            let fault = doc_fault(dd);
            &&& fault is None <==> dd.len() >= 3 && (tokens == 0 || (dd[2] > 0 && gaps_start(dd) <= dd.len()
                && gaps is Some && gaps->0.len() >= tokens))
            &&& fault matches Some(f) ==> {
                &&& f is TooShort <==> dd.len() < 3
                &&& f is NoValues <==> dd.len() >= 3 && dd[2] == 0
                &&& f is TableOverflow <==> dd.len() >= 3 && dd[2] > 0 && gaps_start(dd) > dd.len()
                &&& f is TooFewGaps <==> dd.len() >= 3 && dd[2] > 0 && gaps_start(dd) <= dd.len()
                    && gaps is Some
            }
        }),
{
    if dd.len() >= 3 {
        lemma_count_is_gaps(dd, gaps_start(dd), 0);
        lemma_count_fault(dd, gaps_start(dd), 0);
    }
}

proof fn lemma_count_fault(dd: Seq<u8>, c: int, n: nat)
    requires
        0 <= c,
    ensures
        count_gaps(dd, c, n) matches Err(f) ==> f is LengthOverflow || f is GapOverflow,
    decreases
        if c < dd.len() {
            dd.len() - c
        } else {
            0
        },
{
    if c < dd.len() {
        match gap_at(dd, c) {
            Some(g) => {
                lemma_count_fault(dd, g.1, n + 1);
            },
            None => {},
        }
    }
}

/// Law: a validation names each document that has a fault, once and in order,
/// and no other.
pub proof fn every_faulty_document_is_named(s: Seq<u8>, n: int, d: u32)
    requires
        0 <= n <= u32::MAX,
    ensures
        faulty_docs(s, n).contains(d) <==> d < n && doc_fault(doc_in(s, d as int)) is Some,
        forall|i: int, j: int|
            0 <= i < j < faulty_docs(s, n).len() ==> (#[trigger] faulty_docs(s, n)[i]) < (#[trigger] faulty_docs(
                s,
                n,
            )[j]),
        forall|i: int| 0 <= i < faulty_docs(s, n).len() ==> (#[trigger] faulty_docs(s, n)[i]) < n,
    decreases n,
{
    if n > 0 {
        every_faulty_document_is_named(s, n - 1, d);
        let before = faulty_docs(s, n - 1);
        let all = faulty_docs(s, n);
        if before.contains(d) {
            let i = choose|i: int| 0 <= i < before.len() && before[i] == d;
            assert(all[i] == d);
        }
        if all.contains(d) && d < n - 1 {
            let i = choose|i: int| 0 <= i < all.len() && all[i] == d;
            assert(before[i] == d);
        }
        if d == n - 1 && doc_fault(doc_in(s, d as int)) is Some {
            assert(all[all.len() - 1] == d);
        }
    }
}

/// Law: a merge has for each document of its mapping, in its order, the gaps
/// that its segment has for it, byte for byte; where the segment has no gap map
/// the document has no tokens.
pub proof fn merged_documents_keep_their_gaps(
    sources: Seq<Option<&[u8]>>,
    mapping: Seq<(u32, u32)>,
    i: int,
)
    requires
        0 <= i < mapping.len(),
        mapping.len() <= u32::MAX,
        4 + 8 * (mapping.len() + 1) + bytes::flat(merged_docs(sources, mapping)).len() <= u64::MAX,
    ensures
        ({
            let file = gapmap_bytes(merged_docs(sources, mapping));
            let (segment, doc) = mapping[i];
            &&& bytes::get32(file, 0) == mapping.len()
            &&& doc_ok(file, i)
            &&& segment < sources.len() && sources[segment as int] is Some ==> doc_in(file, i) == doc_in(
                (sources[segment as int]->0)@,
                doc as int,
            )
            &&& !(segment < sources.len() && sources[segment as int] is Some) ==> doc_in(file, i).len() >= 3
                && bytes::get16(doc_in(file, i), 0) == 0
        }),
{
    broadcast use bytes::group_le_len;

    let docs = merged_docs(sources, mapping);
    written_docs_read_back(docs, i);
    let none = single_doc(Seq::empty());
    assert(none.subrange(0, 2) =~= bytes::le16(0));
    bytes::lemma_get16(none, 0, 0);
}

} // verus!
