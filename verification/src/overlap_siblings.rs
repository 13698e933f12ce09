//! Overlap siblings: for each content ordinal, the ordinals of all variants
//! that share its content and differ in their overlap.
//!
//! All variants of one content share one content ordinal and one posting
//! list; this table is the way back from the content to its variants.
//!
//! ```text
//! [4 bytes] number of content ordinals
//! [4 bytes × (number + 1)] offsets into the entries
//! entries, per content ordinal: [4 bytes × N] ordinals of the variants
//! ```

use vstd::prelude::*;

use crate::bytes;
use crate::bytes::{push_u32, read_u32};
use crate::offset_table;
use crate::offset_table::{empty_lists, encode_lists, has_table, push_runs, push_to, read_offset, read_run, read_u32s};

verus! {

/// The file for the groups, one list of variants per content ordinal.
pub open spec fn siblings_bytes(groups: Seq<Seq<u32>>) -> Seq<u8> {
    bytes::le32(groups.len() as u32) + offset_table::runs_bytes(offset_table::value_runs(groups))
}

/// Whether the data holds a count and its whole offset table.
pub open spec fn opens(s: Seq<u8>) -> bool {
    s.len() >= 4 && offset_table::table_fits(s, 4, bytes::get32(s, 0) as int)
}

/// The variants of `content_ord`; none past the table.
pub open spec fn siblings_in(s: Seq<u8>, content_ord: u32) -> Seq<u32> {
    if content_ord >= bytes::get32(s, 0) {
        Seq::empty()
    } else {
        offset_table::u32s_in(offset_table::run_in(s, 4, bytes::get32(s, 0) as int, content_ord as int))
    }
}

/// Law: every group that was written reads back, and a group is told to have
/// siblings exactly when it has more than one variant.
pub proof fn written_groups_read_back(groups: Seq<Seq<u32>>, i: u32)
    requires
        groups.len() <= u32::MAX,
        bytes::flat(offset_table::value_runs(groups)).len() <= u32::MAX,
    ensures
        opens(siblings_bytes(groups)),
        bytes::get32(siblings_bytes(groups), 0) == groups.len(),
        i < groups.len() ==> siblings_in(siblings_bytes(groups), i) == groups[i as int],
        i >= groups.len() ==> siblings_in(siblings_bytes(groups), i) == Seq::<u32>::empty(),
        i < groups.len() ==> (offset_table::offset_at(siblings_bytes(groups), 4, i + 1) - offset_table::offset_at(
            siblings_bytes(groups),
            4,
            i as int,
        ) > 4 <==> groups[i as int].len() > 1),
        i < groups.len() ==> ordered_at(siblings_bytes(groups), i),
{
    let runs = offset_table::value_runs(groups);
    let head = bytes::le32(groups.len() as u32);
    let file = siblings_bytes(groups);
    bytes::lemma_le32_len(groups.len() as u32);
    assert(file.subrange(0, 4) =~= head);
    bytes::lemma_get32(file, 0, groups.len() as u32);
    bytes::lemma_le32s_len(bytes::starts32(runs));
    if i < groups.len() {
        offset_table::written_runs_read_back(head, runs, i as int);
        offset_table::lemma_u32s_in(groups[i as int]);
        bytes::lemma_le32s_len(groups[i as int]);
    }
}

/// Whether the offsets around `content_ord` ascend.
pub open spec fn ordered_at(s: Seq<u8>, content_ord: u32) -> bool {
    offset_table::offset_at(s, 4, content_ord as int) <= offset_table::offset_at(s, 4, content_ord + 1)
}

/// Collects the variants of each content ordinal.
pub struct OverlapSiblingWriter {
    groups: Vec<Vec<u32>>,
}

impl OverlapSiblingWriter {
    /// The variants recorded, by content ordinal.
    pub closed spec fn groups(&self) -> Seq<Seq<u32>> {
        offset_table::lists_of(self.groups@)
    }

    /// A writer for `num_content_ords` content ordinals.
    pub fn new(num_content_ords: usize) -> (r: Self)
        ensures
            r.groups() == Seq::new(num_content_ords as nat, |i: int| Seq::<u32>::empty()),
    {
        OverlapSiblingWriter { groups: empty_lists(num_content_ords) }
    }

    /// Records that `intern_ord` is a variant of `content_ord`; a content
    /// ordinal past the table is left out.
    pub fn add(&mut self, content_ord: u32, intern_ord: u32)
        ensures
            final(self).groups() == if content_ord < old(self).groups().len() {
                old(self).groups().update(
                    content_ord as int,
                    old(self).groups()[content_ord as int].push(intern_ord),
                )
            } else {
                old(self).groups()
            },
    {
        if (content_ord as u64) < self.groups.len() as u64 {
            push_to(&mut self.groups, content_ord as usize, intern_ord);
        }
    }

    /// Number of content ordinals with more than one variant.
    pub fn num_multi_groups(&self) -> (n: usize)
        ensures
            n == self.groups().filter(|g: Seq<u32>| g.len() > 1).len(),
    {
        let ghost all = self.groups();
        let ghost many = |g: Seq<u32>| g.len() > 1;
        let mut n: usize = 0;
        let mut i: usize = 0;
        assert(all.take(0).filter(many).len() == 0) by {
            reveal(Seq::filter);
        }
        while i < self.groups.len()
            invariant
                i <= self.groups@.len(),
                all == self.groups(),
                many == (|g: Seq<u32>| g.len() > 1),
                n == all.take(i as int).filter(many).len(),
                n <= i,
            decreases self.groups@.len() - i,
        {
            proof {
                reveal(Seq::filter);
                assert(all.take(i + 1).drop_last() =~= all.take(i as int));
                assert(all.take(i + 1).last() == self.groups@[i as int]@);
            }
            if self.groups[i].len() > 1 {
                n += 1;
            }
            i += 1;
        }
        assert(all.take(i as int) =~= all);
        n
    }

    /// The file.
    pub fn serialize(&self) -> (out: Vec<u8>)
        requires
            self.groups().len() <= u32::MAX,
            bytes::flat(offset_table::value_runs(self.groups())).len() <= u32::MAX,
        ensures
            out@ == siblings_bytes(self.groups()),
    {
        let runs = encode_lists(&self.groups);
        let mut out: Vec<u8> = Vec::new();
        push_u32(&mut out, self.groups.len() as u32);
        push_runs(&mut out, &runs);
        assert(out@ =~= siblings_bytes(self.groups()));
        out
    }
}

/// Looks the variants of a content ordinal up.
pub struct OverlapSiblingReader<'a> {
    num_content_ords: u32,
    data: &'a [u8],
}

impl<'a> OverlapSiblingReader<'a> {
    /// The bytes the reader stands on.
    pub closed spec fn bytes(&self) -> Seq<u8> {
        self.data@
    }

    /// The reader holds a table and its length.
    pub closed spec fn wf(&self) -> bool {
        opens(self.data@) && self.num_content_ords == bytes::get32(self.data@, 0)
    }

    /// Opens a table; `None` if the data is too short for it.
    pub fn open(data: &'a [u8]) -> (r: Option<Self>)
        ensures
            r is Some <==> opens(data@),
            r matches Some(t) ==> t.wf() && t.bytes() == data@,
    {
        if data.len() < 4 {
            return None;
        }
        let num: u32 = read_u32(data, 0);
        if !has_table(data, 4, num) {
            return None;
        }
        Some(OverlapSiblingReader { num_content_ords: num, data })
    }

    /// The variants of `content_ord`; none past the table.
    pub fn siblings(&self, content_ord: u32) -> (r: Vec<u32>)
        requires
            self.wf(),
        ensures
            r@ == siblings_in(self.bytes(), content_ord),
    {
        if content_ord >= self.num_content_ords {
            return Vec::new();
        }
        read_u32s(read_run(self.data, 4, self.num_content_ords, content_ord))
    }

    /// Whether `content_ord` has more than one variant.
    pub fn has_siblings(&self, content_ord: u32) -> (r: bool)
        requires
            self.wf(),
            content_ord < bytes::get32(self.bytes(), 0) ==> ordered_at(self.bytes(), content_ord),
        ensures
            r == (content_ord < bytes::get32(self.bytes(), 0) && offset_table::offset_at(self.bytes(), 4, content_ord + 1)
                - offset_table::offset_at(self.bytes(), 4, content_ord as int) > 4),
    {
        if content_ord >= self.num_content_ords {
            return false;
        }
        let start: u32 = read_offset(self.data, 4, self.num_content_ords, content_ord);
        let end: u32 = read_offset(self.data, 4, self.num_content_ords, content_ord + 1);
        end - start > 4
    }

    /// Number of content ordinals in the table.
    pub fn num_content_ords(&self) -> (n: u32)
        requires
            self.wf(),
        ensures
            n == bytes::get32(self.bytes(), 0),
    {
        self.num_content_ords
    }
}

} // verus!
