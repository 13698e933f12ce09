//! A table of records: each with its length before it, found by where it
//! starts.

use vstd::prelude::*;

use crate::bytes;
use crate::bytes::{part, push_bytes};
use crate::varint;
use crate::varint::{read_varint, write_varint};

verus! {

/// A record with its length before it.
pub open spec fn framed(record: Seq<u8>) -> Seq<u8> {
    varint::varint(record.len() as u64) + record
}

/// The records, each with its length before it.
pub open spec fn frames(records: Seq<Seq<u8>>) -> Seq<Seq<u8>> {
    Seq::new(records.len(), |i: int| framed(records[i]))
}

/// The table of the records.
pub open spec fn table_of(records: Seq<Seq<u8>>) -> Seq<u8> {
    bytes::flat(frames(records))
}

/// Where record `i` starts.
pub open spec fn record_start(records: Seq<Seq<u8>>, i: int) -> int {
    bytes::start_of(frames(records), i)
}

/// The record that starts at `at`, if there is a whole one.
pub open spec fn record_at(table: Seq<u8>, at: int) -> Option<Seq<u8>> {
    let (len, p) = varint::varint_at(table, at, 10);
    match len {
        Some(n) => if p + n <= table.len() {
            Some(table.subrange(p, p + n))
        } else {
            None
        },
        None => None,
    }
}

/// A record that was written is found where it starts.
pub proof fn written_record_is_found(records: Seq<Seq<u8>>, i: int)
    requires
        0 <= i < records.len(),
        records[i].len() <= u64::MAX,
    ensures
        record_at(table_of(records), record_start(records, i)) == Some(records[i]),
{
    let f = frames(records);
    let t = table_of(records);
    let at = record_start(records, i);
    let r = records[i];
    let head = varint::varint(r.len() as u64);
    bytes::lemma_flat_at(f, i);
    assert(t.subrange(at, at + f[i].len()) == f[i]);
    varint::lemma_varint_len(r.len() as u64);
    assert(t.subrange(at, at + head.len()) =~= f[i].subrange(0, head.len() as int));
    assert(f[i].subrange(0, head.len() as int) =~= head);
    varint::lemma_varint_read(t, at, r.len() as u64, 10);
    assert(t.subrange(at + head.len(), at + head.len() + r.len()) =~= f[i].subrange(
        head.len() as int,
        f[i].len() as int,
    ));
    assert(f[i].subrange(head.len() as int, f[i].len() as int) =~= r);
}

/// The record that starts at `at`, if there is a whole one.
pub fn read_record<'a>(table: &'a [u8], at: usize) -> (r: Option<&'a [u8]>)
    ensures
        r is Some <==> record_at(table@, at as int) is Some,
        r matches Some(b) ==> record_at(table@, at as int) == Some(b@),
{
    let mut p: usize = at;
    match read_varint(table, &mut p) {
        None => None,
        Some(n) => {
            proof {
                varint::lemma_varint_end(table@, at as int, 10);
            }
            if n > (table.len() - p) as u64 {
                None
            } else {
                Some(part(table, p, p + n as usize))
            }
        },
    }
}

/// Appends a record with its length before it.
pub fn push_record(table: &mut Vec<u8>, record: &[u8])
    ensures
        final(table)@ == old(table)@ + framed(record@),
{
    write_varint(table, record.len() as u64);
    push_bytes(table, record);
    assert(table@ =~= old(table)@ + framed(record@));
}

} // verus!
