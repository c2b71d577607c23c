//! Decoding and encoding undo one another.

use crate::bytes::lemma_encode_injective;
use crate::order::lemma_sorted_by_key;
use crate::sections::fst::decode::{lemma_path_bytes_of_names, name_in_table};
use crate::sections::fst::encode::{
    indices, lemma_records_len, names_bytes, offset_key, offset_order, records_bytes, table_bytes,
};
use crate::sections::fst::entry::{
    lemma_decoded_of_record, lemma_record_len, lemma_record_of_decoded, spans_of, Entry,
    ENTRY_SIZE, SEPARATOR,
};
use crate::sections::fst::source::{
    decode_error, first_name_error, first_record_error, has_record, lemma_first_name_error,
    lemma_first_record_error, lemma_name_end_from, name_at, name_end, name_error, name_start,
    names_end, names_start, raw_span, raw_spans, record_at, record_error, table_len,
};
use crate::sections::fst::tree::{lemma_parent_of, parent_of};
use crate::sections::fst::{count_files, path_bytes, total_size, FST};
use vstd::prelude::*;
use vstd::utf8::{encode_utf8, valid_utf8};

verus! {

/// Where the name of the `k`-th entry of `order` begins in the string table.
pub open spec fn name_position(entries: Seq<Entry>, order: Seq<usize>, k: int) -> int {
    names_bytes(entries, order.subrange(0, k)).len() as int
}

/// The offsets of the names are those at which `write` puts the names: each
/// name stands right behind the names that come before it in the order of
/// the offsets.
pub open spec fn packed(entries: Seq<Entry>) -> bool {
    let order = offset_order(entries, entries.len() as int);
    forall|k: int|
        0 <= k < order.len() ==> (#[trigger] entries[order[k] as int]).spec_info().filename_offset
            == name_position(entries, order, k)
}

impl FST {
    /// The table can be written and read again: the numbers fit their
    /// records, the root is named by the separator, the name of every other
    /// directory ends with it, no name holds a zero byte, the offsets of
    /// the names are those at which the names are written, and the size is
    /// that of the records and the names.
    pub open spec fn encodable(&self) -> bool {
        let entries = self.entries@;
        &&& forall|i: int| 0 <= i < entries.len() ==> (#[trigger] entries[i]).fits_record()
        &&& entries[0].name_bytes() == seq![SEPARATOR]
        &&& forall|i: int|
            1 <= i < entries.len() && (#[trigger] entries[i]) is Directory
                ==> entries[i].name_bytes().len() > 0 && entries[i].name_bytes().last()
                == SEPARATOR
        &&& forall|i: int, j: int|
            1 <= i < entries.len() && 0 <= j < (#[trigger] entries[i]).stored_name().len()
                ==> #[trigger] entries[i].stored_name()[j] != 0
        &&& packed(entries)
        &&& self.size == table_bytes(entries).len()
    }

    /// Both tables hold the same, the texts compared by their characters.
    pub open spec fn same_as(&self, other: FST) -> bool {
        &&& self.offset == other.offset
        &&& self.file_count == other.file_count
        &&& self.total_file_system_size == other.total_file_system_size
        &&& self.size == other.size
        &&& self.entries@.len() == other.entries@.len()
        &&& forall|i: int|
            0 <= i < self.entries@.len() ==> (#[trigger] self.entries@[i]).same_as(
                other.entries@[i],
            )
    }
}

/// The record of entry `i` stands at its place among the records.
pub proof fn lemma_records_at(entries: Seq<Entry>, upto: int, i: int)
    requires
        0 <= i < upto,
    ensures
        records_bytes(entries, upto).subrange(ENTRY_SIZE * i, ENTRY_SIZE * i + ENTRY_SIZE)
            == entries[i].record(),
    decreases upto,
{
    lemma_records_len(entries, upto - 1);
    lemma_records_len(entries, upto);
    lemma_record_len(entries[upto - 1]);
    let all = records_bytes(entries, upto);
    let front = records_bytes(entries, upto - 1);
    if i < upto - 1 {
        lemma_records_at(entries, upto - 1, i);
        assert(all.subrange(ENTRY_SIZE * i, ENTRY_SIZE * i + ENTRY_SIZE) =~= front.subrange(
            ENTRY_SIZE * i,
            ENTRY_SIZE * i + ENTRY_SIZE,
        ));
    } else {
        assert(all.subrange(ENTRY_SIZE * i, ENTRY_SIZE * i + ENTRY_SIZE)
            =~= entries[i].record());
    }
}

/// The name of the `k`-th entry of the order stands at its position among
/// the names, with its zero byte behind it; and the next name begins right
/// behind that.
pub proof fn lemma_names_at(entries: Seq<Entry>, order: Seq<usize>, k: int)
    requires
        0 <= k < order.len(),
    ensures
        ({
            let all = names_bytes(entries, order);
            let at = name_position(entries, order, k);
            let name = entries[order[k] as int].stored_name();
            &&& 0 <= at
            &&& at + name.len() + 1 <= all.len()
            &&& all.subrange(at, at + name.len() + 1) == name.push(0u8)
            &&& name_position(entries, order, k + 1) == at + name.len() + 1
        }),
    decreases order.len(),
{
    let all = names_bytes(entries, order);
    let front = order.drop_last();
    let at = name_position(entries, order, k);
    let name = entries[order[k] as int].stored_name();
    assert(order.subrange(0, k + 1).drop_last() =~= order.subrange(0, k));
    assert(order.subrange(0, k + 1).last() == order[k]);
    if k < order.len() - 1 {
        lemma_names_at(entries, front, k);
        assert(front.subrange(0, k) =~= order.subrange(0, k));
        assert(front.subrange(0, k + 1) =~= order.subrange(0, k + 1));
        assert(all.subrange(at, at + name.len() + 1) =~= names_bytes(entries, front).subrange(
            at,
            at + name.len() + 1,
        ));
    } else {
        assert(order.subrange(0, k) =~= front);
        assert(order.subrange(0, k + 1) =~= order);
        assert(all.subrange(at, at + name.len() + 1) =~= name.push(0u8));
    }
}

/// Every entry but the root stands in the order of the offsets, and
/// nothing else does.
pub proof fn lemma_in_order(entries: Seq<Entry>, i: int) -> (k: int)
    requires
        1 <= i < entries.len(),
        entries.len() <= usize::MAX,
    ensures
        0 <= k < offset_order(entries, entries.len() as int).len(),
        offset_order(entries, entries.len() as int)[k] == i,
        offset_order(entries, entries.len() as int).len() == entries.len() - 1,
{
    broadcast use vstd::seq_lib::group_to_multiset_ensures;

    let n = entries.len() as int;
    let all = indices(n);
    let order = offset_order(entries, n);
    lemma_sorted_by_key(all, n - 1, offset_key(entries));
    assert(all.subrange(0, n - 1) =~= all);
    assert(all[i - 1] == i as usize);
    assert(all.contains(i as usize));
    assert(all.to_multiset().count(i as usize) > 0);
    assert(order.to_multiset().count(i as usize) > 0);
    assert(order.contains(i as usize));
    choose|k: int| 0 <= k < order.len() && order[k] == i as usize
}

/// Every index in the order of the offsets is that of an entry behind the root.
pub proof fn lemma_order_bounds(entries: Seq<Entry>, k: int)
    requires
        entries.len() <= usize::MAX,
        0 <= k < offset_order(entries, entries.len() as int).len(),
    ensures
        1 <= offset_order(entries, entries.len() as int)[k] < entries.len(),
{
    broadcast use vstd::seq_lib::group_to_multiset_ensures;

    let n = entries.len() as int;
    let all = indices(n);
    let order = offset_order(entries, n);
    lemma_sorted_by_key(all, n - 1, offset_key(entries));
    assert(all.subrange(0, n - 1) =~= all);
    assert(order.contains(order[k]));
    assert(order.to_multiset().count(order[k]) > 0);
    assert(all.to_multiset().count(order[k]) > 0);
    assert(all.contains(order[k]));
    let j = choose|j: int| 0 <= j < all.len() && all[j] == order[k];
    assert(all[j] == (j + 1) as usize);
}

/// A name that holds no zero byte and has one behind it ends there.
pub proof fn lemma_name_end_is(source: Seq<u8>, start: int, end: int)
    requires
        0 <= start <= end < source.len(),
        forall|j: int| start <= j < end ==> source[j] != 0,
        source[end] == 0,
    ensures
        name_end(source, start) == end,
{
    lemma_name_end_from(source, start, end);
}

/// The separator is the first byte of no character but itself, and no
/// later byte of any: what stands before it in a text is a text.
pub proof fn lemma_text_before_separator(text: Seq<u8>)
    requires
        valid_utf8(text),
        text.len() > 0,
        text.last() == SEPARATOR,
    ensures
        valid_utf8(text.drop_last()),
{
    let at = text.len() - 1;
    assert(!vstd::utf8::is_continuation_byte(SEPARATOR)) by {
        assert(0x2fu8 & 0xC0 != 0x80) by (bit_vector);
    }
    vstd::utf8::is_char_boundary_iff_not_is_continuation_byte(text, at);
    vstd::utf8::valid_utf8_split(text, at);
    assert(text.subrange(0, at) =~= text.drop_last());
}

/// The name of an entry, as it stands in the string table, is a text.
pub proof fn lemma_stored_name_is_text(entry: Entry)
    ensures
        valid_utf8(entry.stored_name()),
{
    vstd::utf8::encode_utf8_valid_utf8(entry.spec_info().name@);
    let name = entry.name_bytes();
    if entry is Directory && name.len() > 0 && name.last() == SEPARATOR {
        lemma_text_before_separator(name);
    }
}

/// The table stands in the source as `write` writes it, at the table's offset.
pub open spec fn written_at(table: FST, source: Seq<u8>) -> bool {
    &&& table.offset + table_bytes(table.entries@).len() <= source.len()
    &&& source.subrange(
        table.offset as int,
        table.offset + table_bytes(table.entries@).len(),
    ) == table_bytes(table.entries@)
}

/// A table that can be written, written.
pub open spec fn round(table: FST, source: Seq<u8>) -> bool {
    &&& table.well_formed()
    &&& table.encodable()
    &&& written_at(table, source)
}

/// The byte at `x` of what was written stands at `x` behind the offset.
proof fn lemma_written_byte(table: FST, source: Seq<u8>, x: int)
    requires
        written_at(table, source),
        0 <= x < table_bytes(table.entries@).len(),
    ensures
        source[table.offset + x] == table_bytes(table.entries@)[x],
{
    let total = table_bytes(table.entries@).len();
    let part = source.subrange(table.offset as int, table.offset + total);
    assert(part[x] == source[table.offset + x]);
}

/// The records of a written table stand in the source, and the entries
/// hold what they say.
proof fn lemma_written_record(table: FST, source: Seq<u8>, i: int)
    requires
        written_at(table, source),
        0 <= i < table.entries@.len(),
        table.entries@[i].fits_record(),
    ensures
        has_record(source, table.offset as int, i),
        record_at(source, table.offset as int, i) == table.entries@[i].record(),
        table.entries@[i].holds_record(record_at(source, table.offset as int, i)),
{
    let entries = table.entries@;
    let n = entries.len() as int;
    let o = table.offset as int;
    let records = records_bytes(entries, n);
    let all = table_bytes(entries);
    lemma_records_len(entries, n);
    lemma_records_at(entries, n, i);
    lemma_record_len(entries[i]);
    assert forall|j: int| 0 <= j < ENTRY_SIZE implies record_at(source, o, i)[j]
        == entries[i].record()[j] by {
        lemma_written_byte(table, source, ENTRY_SIZE * i + j);
        assert(all[ENTRY_SIZE * i + j] == records[ENTRY_SIZE * i + j]);
        assert(records.subrange(ENTRY_SIZE * i, ENTRY_SIZE * i + ENTRY_SIZE)[j]
            == records[ENTRY_SIZE * i + j]);
    }
    assert(record_at(source, o, i) =~= entries[i].record());
    lemma_decoded_of_record(entries[i]);
}

/// The records of a written table are in order.
#[verifier::rlimit(40)]
proof fn lemma_written_shape(table: FST, source: Seq<u8>)
    requires
        round(table, source),
    ensures
        table_len(source, table.offset as int) == table.entries@.len(),
        raw_spans(source, table.offset as int) == spans_of(table.entries@),
        record_error(source, table.offset as int, 0) is None,
        first_record_error(source, table.offset as int, 1, table.entries@.len() as int) is None,
        names_written(table, source),
{
    let entries = table.entries@;
    let n = entries.len() as int;
    let o = table.offset as int;
    let spans = spans_of(entries);
    assert(entries[0].fits_record());
    lemma_written_record(table, source, 0);
    assert(spans[0] == n);
    assert(table_len(source, o) == n);
    assert forall|i: int| 0 <= i < n implies raw_span(source, o, i) == spans[i] by {
        assert(entries[i].fits_record());
        lemma_written_record(table, source, i);
    }
    assert(raw_spans(source, o) =~= spans);
    assert forall|i: int| 1 <= i < n implies record_error(source, o, i) is None by {
        assert(entries[i].fits_record());
        lemma_written_record(table, source, i);
        lemma_parent_of(spans, i);
    }
    lemma_first_record_error(source, o, 1, n, n);
}

/// The table is written, its first record gives the number of its
/// entries, and its names can be read again.
pub open spec fn names_written(table: FST, source: Seq<u8>) -> bool {
    let entries = table.entries@;
    &&& written_at(table, source)
    &&& packed(entries)
    &&& 1 <= entries.len() <= usize::MAX
    &&& table_len(source, table.offset as int) == entries.len()
    &&& forall|i: int| 0 <= i < entries.len() ==> (#[trigger] entries[i]).fits_record()
    &&& forall|i: int, j: int|
        1 <= i < entries.len() && 0 <= j < (#[trigger] entries[i]).stored_name().len()
            ==> #[trigger] entries[i].stored_name()[j] != 0
}

/// The bytes of a name of a written table stand in the source behind the
/// records, at the position of the name among the names.
proof fn lemma_written_name_bytes(table: FST, source: Seq<u8>, k: int, j: int)
    requires
        written_at(table, source),
        0 <= k < offset_order(table.entries@, table.entries@.len() as int).len(),
        0 <= j <= table.entries@[offset_order(
            table.entries@,
            table.entries@.len() as int,
        )[k] as int].stored_name().len(),
    ensures
        ({
            let entries = table.entries@;
            let order = offset_order(entries, entries.len() as int);
            let name = entries[order[k] as int].stored_name();
            let at = table.offset + ENTRY_SIZE * entries.len() + name_position(entries, order, k)
                + j;
            &&& at < table.offset + table_bytes(entries).len()
            &&& source[at] == name.push(0u8)[j]
        }),
{
    let entries = table.entries@;
    let n = entries.len() as int;
    let order = offset_order(entries, n);
    let names = names_bytes(entries, order);
    let all = table_bytes(entries);
    let name = entries[order[k] as int].stored_name();
    let at = name_position(entries, order, k);
    lemma_records_len(entries, n);
    lemma_names_at(entries, order, k);
    lemma_written_byte(table, source, ENTRY_SIZE * n + at + j);
    assert(all[ENTRY_SIZE * n + at + j] == names[at + j]);
    assert(names.subrange(at, at + name.len() + 1)[j] == names[at + j]);
}

/// A name that stands in the source with a zero byte behind it, and holds
/// none, is the name that is read there.
proof fn lemma_name_found(source: Seq<u8>, start: int, name: Seq<u8>)
    requires
        0 <= start,
        start + name.len() < source.len(),
        forall|j: int| 0 <= j <= name.len() ==> source[start + j] == #[trigger] name.push(0u8)[j],
        forall|j: int| 0 <= j < name.len() ==> #[trigger] name[j] != 0,
    ensures
        name_end(source, start) == start + name.len(),
        name_at(source, start) == name,
{
    let end = start + name.len();
    assert forall|j: int| start <= j < end implies source[j] != 0 by {
        assert(source[start + (j - start)] == name.push(0u8)[j - start]);
        assert(name[j - start] != 0);
    }
    assert(source[start + name.len()] == name.push(0u8)[name.len() as int]);
    lemma_name_end_is(source, start, end);
    assert forall|j: int| 0 <= j < name.len() implies source[start + j] == name[j] by {
        assert(source[start + j] == name.push(0u8)[j]);
    }
    assert(name_at(source, start) =~= name);
}

/// Where the name of the `k`-th entry of the order begins in the source.
proof fn lemma_written_name_start(table: FST, source: Seq<u8>, k: int)
    requires
        names_written(table, source),
        0 <= k < offset_order(table.entries@, table.entries@.len() as int).len(),
    ensures
        ({
            let entries = table.entries@;
            let order = offset_order(entries, entries.len() as int);
            &&& 1 <= order[k] < entries.len()
            &&& name_start(source, table.offset as int, order[k] as int) == table.offset
                + ENTRY_SIZE * entries.len() + name_position(entries, order, k)
        }),
{
    let entries = table.entries@;
    let n = entries.len() as int;
    let order = offset_order(entries, n);
    lemma_order_bounds(entries, k);
    let i = order[k] as int;
    assert(entries[i].fits_record());
    lemma_written_record(table, source, i);
    assert(entries[order[k] as int].spec_info().filename_offset == name_position(
        entries,
        order,
        k,
    ));
}

/// The name of the `k`-th entry of the order stands in the source where
/// the entry says, and ends where the next name begins.
#[verifier::rlimit(40)]
proof fn lemma_written_name(table: FST, source: Seq<u8>, k: int)
    requires
        names_written(table, source),
        0 <= k < offset_order(table.entries@, table.entries@.len() as int).len(),
    ensures
        ({
            let entries = table.entries@;
            let order = offset_order(entries, entries.len() as int);
            let i = order[k] as int;
            let start = name_start(source, table.offset as int, i);
            &&& 1 <= i < entries.len()
            &&& name_error(source, table.offset as int, i) is None
            &&& name_at(source, start) == entries[i].stored_name()
            &&& name_end(source, start) + 1 == table.offset + ENTRY_SIZE * entries.len()
                + name_position(entries, order, k + 1)
            &&& name_end(source, start) + 1 <= table.offset + table_bytes(entries).len()
        }),
{
    let entries = table.entries@;
    let n = entries.len() as int;
    let o = table.offset as int;
    let order = offset_order(entries, n);
    lemma_written_name_start(table, source, k);
    let i = order[k] as int;
    let name = entries[i].stored_name();
    let start = name_start(source, o, i);
    lemma_names_at(entries, order, k);
    lemma_records_len(entries, n);
    assert forall|j: int| 0 <= j <= name.len() implies source[start + j]
        == #[trigger] name.push(0u8)[j] by {
        lemma_written_name_bytes(table, source, k, j);
    }
    lemma_written_name_bytes(table, source, k, name.len() as int);
    lemma_name_found(source, start, name);
    lemma_stored_name_is_text(entries[i]);
}

/// How far the names of a written table reach: not beyond the table, and
/// behind every name.
proof fn lemma_written_names_end(table: FST, source: Seq<u8>, upto: int, i: int)
    requires
        names_written(table, source),
        1 <= upto <= table.entries@.len(),
    ensures
        names_start(source, table.offset as int) <= names_end(source, table.offset as int, upto)
            <= table.offset + table_bytes(table.entries@).len(),
        1 <= i < upto ==> name_end(source, name_start(source, table.offset as int, i)) + 1
            <= names_end(source, table.offset as int, upto),
    decreases upto,
{
    let entries = table.entries@;
    let n = entries.len() as int;
    lemma_records_len(entries, n);
    if upto > 1 {
        lemma_written_names_end(table, source, upto - 1, i);
        let k = lemma_in_order(entries, upto - 1);
        lemma_written_name(table, source, k);
    }
}

/// The names of a written table reach to the end of the table.
#[verifier::rlimit(40)]
proof fn lemma_written_size(table: FST, source: Seq<u8>)
    requires
        names_written(table, source),
    ensures
        names_end(source, table.offset as int, table.entries@.len() as int) == table.offset
            + table_bytes(table.entries@).len(),
{
    let entries = table.entries@;
    let n = entries.len() as int;
    let o = table.offset as int;
    let order = offset_order(entries, n);
    lemma_records_len(entries, n);
    lemma_written_names_end(table, source, n, 0);
    if n > 1 {
        let k0 = lemma_in_order(entries, 1);
        let last = order.len() - 1;
        lemma_written_name(table, source, last);
        let i = order[last] as int;
        lemma_written_names_end(table, source, n, i);
        assert(order.subrange(0, last + 1) =~= order);
    } else {
        assert(indices(n) =~= Seq::<usize>::empty());
        assert(order =~= Seq::<usize>::empty());
        assert(names_bytes(entries, order).len() == 0);
    }
}

/// Every name of a written table is found as the entry has it.
proof fn lemma_written_names(table: FST, source: Seq<u8>)
    requires
        names_written(table, source),
        forall|i: int|
            1 <= i < table.entries@.len() && (#[trigger] table.entries@[i]) is Directory
                ==> table.entries@[i].name_bytes().len() > 0
                && table.entries@[i].name_bytes().last() == SEPARATOR,
    ensures
        first_name_error(source, table.offset as int, 1, table.entries@.len() as int) is None,
        forall|i: int|
            1 <= i < table.entries@.len() ==> (#[trigger] table.entries@[i]).name_bytes()
                == name_in_table(source, table.offset as int, i, table.entries@[i] is Directory),
{
    let entries = table.entries@;
    let n = entries.len() as int;
    let o = table.offset as int;
    assert forall|i: int| 1 <= i < n implies name_error(source, o, i) is None by {
        let k = lemma_in_order(entries, i);
        lemma_written_name(table, source, k);
    }
    lemma_first_name_error(source, o, 1, n, n);
    assert forall|i: int| 1 <= i < n implies (#[trigger] entries[i]).name_bytes() == name_in_table(
        source,
        o,
        i,
        entries[i] is Directory,
    ) by {
        let k = lemma_in_order(entries, i);
        lemma_written_name(table, source, k);
        let name = entries[i].name_bytes();
        if entries[i] is Directory {
            assert(name.drop_last().push(SEPARATOR) =~= name);
        }
    }
}

/// Decoding what was encoded gives the table again: a table that can be
/// written is, written, the table that stands in the source, and decoding
/// finds nothing wrong with it.
#[verifier::rlimit(40)]
pub proof fn lemma_decode_encode(table: FST, source: Seq<u8>)
    requires
        table.well_formed(),
        table.encodable(),
        written_at(table, source),
    ensures
        decode_error(source, table.offset as int) is None,
        table.stored_at(source, table.offset as int),
{
    let entries = table.entries@;
    let n = entries.len() as int;
    let o = table.offset as int;
    lemma_written_shape(table, source);
    lemma_written_names(table, source);
    lemma_written_size(table, source);
    assert forall|i: int| 0 <= i < n implies (#[trigger] entries[i]).holds_record(
        record_at(source, o, i),
    ) by {
        assert(entries[i].fits_record());
        lemma_written_record(table, source, i);
    }
}

/// How many files there are, and how long they are together, depends on
/// the kinds and the lengths only.
pub proof fn lemma_counts_agree(a: Seq<Entry>, b: Seq<Entry>, upto: int)
    requires
        upto <= a.len(),
        upto <= b.len(),
        forall|i: int|
            0 <= i < upto ==> (#[trigger] a[i]).tag() == b[i].tag() && a[i].third_field()
                == b[i].third_field(),
    ensures
        count_files(a, upto) == count_files(b, upto),
        total_size(a, upto) == total_size(b, upto),
    decreases upto,
{
    if upto > 0 {
        lemma_counts_agree(a, b, upto - 1);
        assert(a[upto - 1].tag() == b[upto - 1].tag());
    }
}

/// What a source decides of the entry at `i` of the table that stands in it.
proof fn lemma_stored_entry(table: FST, source: Seq<u8>, offset: int, i: int)
    requires
        table.stored_at(source, offset),
        0 <= i < table.entries@.len(),
    ensures
        table.entries@[i].holds_record(record_at(source, offset, i)),
        table.entries@[i].spec_info().index == i,
        table.entries@[i].spec_info().directory_index == if i == 0 {
            None::<usize>
        } else {
            Some(parent_of(spans_of(table.entries@), i) as usize)
        },
        table.entries@[i].name_bytes() == if i == 0 {
            seq![SEPARATOR]
        } else {
            name_in_table(source, offset, i, table.entries@[i] is Directory)
        },
        table.entries@[i].spec_file_count() == if table.entries@[i] is Directory {
            crate::sections::fst::tree::count_children(
                spans_of(table.entries@),
                i,
                table.entries@.len() as int,
            ) as int
        } else {
            0
        },
        encode_utf8(table.entries@[i].spec_info().full_path@) == path_bytes(table.entries@, i),
{
}

/// Entries that hold the same records, names and directories, in tables
/// that are in order, are the same.
#[verifier::rlimit(40)]
proof fn lemma_same_entries(a: Seq<Entry>, b: Seq<Entry>, source: Seq<u8>, offset: int)
    requires
        a.len() == b.len(),
        forall|i: int|
            0 <= i < a.len() ==> (#[trigger] a[i]).holds_record(record_at(source, offset, i))
                && b[i].holds_record(record_at(source, offset, i)),
        forall|i: int|
            0 <= i < a.len() ==> (#[trigger] a[i]).spec_info().index == b[i].spec_info().index,
        forall|i: int|
            0 <= i < a.len() ==> (#[trigger] a[i]).name_bytes() == b[i].name_bytes(),
        forall|i: int|
            0 <= i < a.len() ==> (#[trigger] a[i]).spec_info().directory_index == if i == 0 {
                None::<usize>
            } else {
                Some(parent_of(spans_of(a), i) as usize)
            },
        forall|i: int|
            0 <= i < a.len() ==> (#[trigger] b[i]).spec_info().directory_index == if i == 0 {
                None::<usize>
            } else {
                Some(parent_of(spans_of(b), i) as usize)
            },
        forall|i: int|
            0 <= i < a.len() ==> (#[trigger] a[i]).spec_file_count() == if a[i] is Directory {
                crate::sections::fst::tree::count_children(spans_of(a), i, a.len() as int) as int
            } else {
                0
            },
        forall|i: int|
            0 <= i < a.len() ==> (#[trigger] b[i]).spec_file_count() == if b[i] is Directory {
                crate::sections::fst::tree::count_children(spans_of(b), i, b.len() as int) as int
            } else {
                0
            },
        forall|i: int|
            0 <= i < a.len() ==> encode_utf8((#[trigger] a[i]).spec_info().full_path@)
                == path_bytes(a, i),
        forall|i: int|
            0 <= i < a.len() ==> encode_utf8((#[trigger] b[i]).spec_info().full_path@)
                == path_bytes(b, i),
    ensures
        forall|i: int| 0 <= i < a.len() ==> (#[trigger] a[i]).same_as(b[i]),
        count_files(a, a.len() as int) == count_files(b, b.len() as int),
        total_size(a, a.len() as int) == total_size(b, b.len() as int),
{
    let n = a.len() as int;
    assert forall|i: int| 0 <= i < n implies spans_of(a)[i] == spans_of(b)[i] by {
        assert(a[i].holds_record(record_at(source, offset, i)));
    }
    assert(spans_of(a) =~= spans_of(b));
    assert forall|i: int| 0 <= i < n implies (#[trigger] a[i]).spec_info().name@
        == b[i].spec_info().name@ && a[i].spec_info().directory_index
        == b[i].spec_info().directory_index by {
        assert(a[i].name_bytes() == b[i].name_bytes());
        assert(b[i].spec_info().directory_index == if i == 0 {
            None::<usize>
        } else {
            Some(parent_of(spans_of(b), i) as usize)
        });
        lemma_encode_injective(a[i].spec_info().name@, b[i].spec_info().name@);
    }
    assert forall|i: int| 0 <= i < n implies (#[trigger] a[i]).same_as(b[i]) by {
        assert(a[i].holds_record(record_at(source, offset, i)));
        assert(a[i].spec_file_count() == if a[i] is Directory {
            crate::sections::fst::tree::count_children(spans_of(a), i, a.len() as int) as int
        } else {
            0
        });
        assert(encode_utf8(a[i].spec_info().full_path@) == path_bytes(a, i));
        lemma_path_bytes_of_names(a, b, i);
        assert(encode_utf8(b[i].spec_info().full_path@) == path_bytes(b, i));
        lemma_encode_injective(a[i].spec_info().full_path@, b[i].spec_info().full_path@);
        assert(b[i].spec_file_count() == if b[i] is Directory {
            crate::sections::fst::tree::count_children(spans_of(b), i, b.len() as int) as int
        } else {
            0
        });
    }
    assert forall|i: int| 0 <= i < n implies (#[trigger] a[i]).tag() == b[i].tag()
        && a[i].third_field() == b[i].third_field() by {
        assert(a[i].holds_record(record_at(source, offset, i)));
    }
    lemma_counts_agree(a, b, n);
}

/// Two tables that stand at one place in one source hold the same: what a
/// source holds decides every field of the table.
#[verifier::rlimit(40)]
pub proof fn lemma_stored_once(a: FST, b: FST, source: Seq<u8>, offset: int)
    requires
        a.stored_at(source, offset),
        b.stored_at(source, offset),
    ensures
        a.same_as(b),
{
    let ea = a.entries@;
    let eb = b.entries@;
    assert forall|i: int| 0 <= i < ea.len() implies (#[trigger] ea[i]).holds_record(
        record_at(source, offset, i),
    ) && eb[i].holds_record(record_at(source, offset, i)) && ea[i].spec_info().index
        == eb[i].spec_info().index && ea[i].name_bytes() == eb[i].name_bytes() by {
        lemma_stored_entry(a, source, offset, i);
        lemma_stored_entry(b, source, offset, i);
    }
    assert forall|i: int| 0 <= i < ea.len() implies (#[trigger] ea[i]).spec_info().directory_index
        == if i == 0 {
        None::<usize>
    } else {
        Some(parent_of(spans_of(ea), i) as usize)
    } by {
        lemma_stored_entry(a, source, offset, i);
    }
    assert forall|i: int| 0 <= i < ea.len() implies (#[trigger] eb[i]).spec_info().directory_index
        == if i == 0 {
        None::<usize>
    } else {
        Some(parent_of(spans_of(eb), i) as usize)
    } by {
        lemma_stored_entry(b, source, offset, i);
    }
    assert forall|i: int| 0 <= i < ea.len() implies (#[trigger] ea[i]).spec_file_count()
        == if ea[i] is Directory {
        crate::sections::fst::tree::count_children(spans_of(ea), i, ea.len() as int) as int
    } else {
        0
    } by {
        lemma_stored_entry(a, source, offset, i);
    }
    assert forall|i: int| 0 <= i < ea.len() implies (#[trigger] eb[i]).spec_file_count()
        == if eb[i] is Directory {
        crate::sections::fst::tree::count_children(spans_of(eb), i, eb.len() as int) as int
    } else {
        0
    } by {
        lemma_stored_entry(b, source, offset, i);
    }
    assert forall|i: int| 0 <= i < ea.len() implies encode_utf8(
        (#[trigger] ea[i]).spec_info().full_path@,
    ) == path_bytes(ea, i) by {
        lemma_stored_entry(a, source, offset, i);
    }
    assert forall|i: int| 0 <= i < ea.len() implies encode_utf8(
        (#[trigger] eb[i]).spec_info().full_path@,
    ) == path_bytes(eb, i) by {
        lemma_stored_entry(b, source, offset, i);
    }
    lemma_same_entries(ea, eb, source, offset);
}

/// Decoding what was encoded gives the table again: the table that is
/// decoded where a table was written holds what the written table held.
pub proof fn lemma_round_trip(table: FST, source: Seq<u8>, decoded: FST)
    requires
        table.well_formed(),
        table.encodable(),
        written_at(table, source),
        decoded.stored_at(source, table.offset as int),
    ensures
        decode_error(source, table.offset as int) is None,
        decoded.same_as(table),
{
    lemma_decode_encode(table, source);
    lemma_stored_once(decoded, table, source, table.offset as int);
}

/// The records of entries that hold what the records of a source say are,
/// written, the bytes of those records.
pub proof fn lemma_records_of_decoded(entries: Seq<Entry>, source: Seq<u8>, offset: int, upto: int)
    requires
        0 <= offset,
        0 <= upto <= entries.len(),
        offset + ENTRY_SIZE * upto <= source.len(),
        forall|i: int|
            0 <= i < upto ==> (#[trigger] entries[i]).holds_record(record_at(source, offset, i)),
    ensures
        records_bytes(entries, upto) == source.subrange(offset, offset + ENTRY_SIZE * upto),
    decreases upto,
{
    if upto > 0 {
        lemma_records_of_decoded(entries, source, offset, upto - 1);
        assert(entries[upto - 1].holds_record(record_at(source, offset, upto - 1)));
        lemma_record_of_decoded(entries[upto - 1], record_at(source, offset, upto - 1));
        assert(source.subrange(offset, offset + ENTRY_SIZE * upto) =~= source.subrange(
            offset,
            offset + ENTRY_SIZE * (upto - 1),
        ) + record_at(source, offset, upto - 1));
    } else {
        assert(source.subrange(offset, offset) =~= Seq::<u8>::empty());
    }
}

/// Encoding what was decoded gives the records again: the records of a
/// decoded table are, written, the bytes that they were decoded from.
pub proof fn lemma_records_round_trip(table: FST, source: Seq<u8>, offset: int)
    requires
        table.stored_at(source, offset),
        0 <= offset,
        offset + ENTRY_SIZE * table.entries@.len() <= source.len(),
    ensures
        records_bytes(table.entries@, table.entries@.len() as int) == source.subrange(
            offset,
            offset + ENTRY_SIZE * table.entries@.len(),
        ),
{
    lemma_records_of_decoded(table.entries@, source, offset, table.entries@.len() as int);
}

} // verus!
