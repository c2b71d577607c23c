//! The table as it lies in a source of bytes: records first, names behind them.

use crate::bytes::be32;
use crate::sections::fst::tree::parent_of;
use crate::sections::fst::FstError;
use vstd::prelude::*;
use vstd::utf8::valid_utf8;

verus! {

/// The bytes of record `i` of the table that begins at `offset`.
pub open spec fn record_at(source: Seq<u8>, offset: int, i: int) -> Seq<u8> {
    source.subrange(offset + 12 * i, offset + 12 * i + 12)
}

/// The source is long enough to hold record `i`.
pub open spec fn has_record(source: Seq<u8>, offset: int, i: int) -> bool {
    offset + 12 * i + 12 <= source.len()
}

/// The number of entries that the first record gives.
pub open spec fn table_len(source: Seq<u8>, offset: int) -> int {
    be32(record_at(source, offset, 0).subrange(8, 12))
}

/// The index behind the span of record `i`.
pub open spec fn raw_span(source: Seq<u8>, offset: int, i: int) -> int {
    let record = record_at(source, offset, i);
    if record[0] == 1 {
        be32(record.subrange(8, 12))
    } else {
        i + 1
    }
}

/// The spans of the records of the table.
pub open spec fn raw_spans(source: Seq<u8>, offset: int) -> Seq<int> {
    Seq::new(table_len(source, offset) as nat, |i: int| raw_span(source, offset, i))
}

/// Where the names begin: right behind the last record.
pub open spec fn names_start(source: Seq<u8>, offset: int) -> int {
    offset + 12 * table_len(source, offset)
}

/// What is wrong with record `i`, given that the records before it are in
/// order: the source ends before it does, its tag is none, the root is a
/// file, or the directory does not end behind itself and inside the
/// directory that it lies in.
pub open spec fn record_error(source: Seq<u8>, offset: int, i: int) -> Option<FstError> {
    let record = record_at(source, offset, i);
    let spans = raw_spans(source, offset);
    if !has_record(source, offset, i) {
        Some(FstError::Truncated)
    } else if record[0] > 1 {
        Some(FstError::InvalidTag { index: i as usize, byte: record[0] })
    } else if i == 0 {
        if record[0] == 0 {
            Some(FstError::RootNotDirectory)
        } else if table_len(source, offset) == 0 {
            Some(FstError::InvalidRange { index: 0 })
        } else {
            None
        }
    } else if record[0] == 1 && !(i < spans[i] <= spans[parent_of(spans, i)]) {
        Some(FstError::InvalidRange { index: i as usize })
    } else {
        None
    }
}

/// The first thing wrong with the records from `from` up to, not including, `upto`.
pub open spec fn first_record_error(source: Seq<u8>, offset: int, from: int, upto: int) -> Option<
    FstError,
>
    decreases upto - from,
{
    if from >= upto {
        None
    } else if record_error(source, offset, from) is Some {
        record_error(source, offset, from)
    } else {
        first_record_error(source, offset, from + 1, upto)
    }
}

/// Where the first zero byte from `start` on lies; the length of the source
/// if there is none.
pub open spec fn name_end(source: Seq<u8>, start: int) -> int
    decreases source.len() - start,
{
    if start < 0 || start >= source.len() {
        source.len() as int
    } else if source[start] == 0 {
        start
    } else {
        name_end(source, start + 1)
    }
}

/// The bytes from `start` up to the first zero byte.
pub open spec fn name_at(source: Seq<u8>, start: int) -> Seq<u8> {
    source.subrange(start, name_end(source, start))
}

/// Where the name of record `i` begins.
pub open spec fn name_start(source: Seq<u8>, offset: int, i: int) -> int {
    names_start(source, offset) + crate::bytes::be24(record_at(source, offset, i).subrange(1, 4))
}

/// What is wrong with the name of record `i`: no zero byte ends it, or it is
/// no UTF-8 text.
pub open spec fn name_error(source: Seq<u8>, offset: int, i: int) -> Option<FstError> {
    let start = name_start(source, offset, i);
    if name_end(source, start) >= source.len() {
        Some(FstError::Truncated)
    } else if !valid_utf8(name_at(source, start)) {
        Some(FstError::InvalidName { index: i as usize })
    } else {
        None
    }
}

/// The first thing wrong with the names of the records from `from` up to,
/// not including, `upto`.
pub open spec fn first_name_error(source: Seq<u8>, offset: int, from: int, upto: int) -> Option<
    FstError,
>
    decreases upto - from,
{
    if from >= upto {
        None
    } else if name_error(source, offset, from) is Some {
        name_error(source, offset, from)
    } else {
        first_name_error(source, offset, from + 1, upto)
    }
}

/// Why the table at `offset` cannot be decoded, if it cannot: what is wrong
/// with the first record, else the first thing wrong with a later record,
/// else the first thing wrong with a name.
pub open spec fn decode_error(source: Seq<u8>, offset: int) -> Option<FstError> {
    let n = table_len(source, offset);
    if record_error(source, offset, 0) is Some {
        record_error(source, offset, 0)
    } else if first_record_error(source, offset, 1, n) is Some {
        first_record_error(source, offset, 1, n)
    } else {
        first_name_error(source, offset, 1, n)
    }
}

/// How far the table reaches, the names of the records before `upto`
/// counted: to the end of the records, or behind the zero byte of the name
/// that ends last.
pub open spec fn names_end(source: Seq<u8>, offset: int, upto: int) -> int
    decreases upto,
{
    if upto <= 1 {
        names_start(source, offset)
    } else {
        let before = names_end(source, offset, upto - 1);
        let here = name_end(source, name_start(source, offset, upto - 1)) + 1;
        if here > before {
            here
        } else {
            before
        }
    }
}

/// Where the scan for the first error stops.
pub proof fn lemma_first_record_error(source: Seq<u8>, offset: int, from: int, at: int, upto: int)
    requires
        from <= at <= upto,
        forall|k: int| from <= k < at ==> record_error(source, offset, k) is None,
    ensures
        at < upto && record_error(source, offset, at) is Some ==> first_record_error(
            source,
            offset,
            from,
            upto,
        ) == record_error(source, offset, at),
        at == upto ==> first_record_error(source, offset, from, upto) is None,
    decreases at - from,
{
    if from < at {
        lemma_first_record_error(source, offset, from + 1, at, upto);
    }
}

/// Where the scan for the first error of a name stops.
pub proof fn lemma_first_name_error(source: Seq<u8>, offset: int, from: int, at: int, upto: int)
    requires
        from <= at <= upto,
        forall|k: int| from <= k < at ==> name_error(source, offset, k) is None,
    ensures
        at < upto && name_error(source, offset, at) is Some ==> first_name_error(
            source,
            offset,
            from,
            upto,
        ) == name_error(source, offset, at),
        at == upto ==> first_name_error(source, offset, from, upto) is None,
    decreases at - from,
{
    if from < at {
        lemma_first_name_error(source, offset, from + 1, at, upto);
    }
}

/// A scan that has met no zero byte from `start` to `at` ends where the scan from `at` ends.
pub proof fn lemma_name_end_from(source: Seq<u8>, start: int, at: int)
    requires
        0 <= start <= at <= source.len(),
        forall|k: int| start <= k < at ==> source[k] != 0,
    ensures
        name_end(source, start) == name_end(source, at),
    decreases at - start,
{
    if start < at {
        lemma_name_end_from(source, start + 1, at);
    }
}

} // verus!
