//! The table as bytes: the records in the order of the table, then the
//! names in the order of their offsets.

use crate::sections::fst::entry::{lemma_record_len, Entry, ENTRY_SIZE, SEPARATOR};
use crate::order::{insert_by, lemma_insert_at, sorted_by_key};
use vstd::prelude::*;

verus! {

/// The records of the first `upto` entries, one after the other.
pub open spec fn records_bytes(entries: Seq<Entry>, upto: int) -> Seq<u8>
    decreases upto,
{
    if upto <= 0 {
        Seq::empty()
    } else {
        records_bytes(entries, upto - 1) + entries[upto - 1].record()
    }
}

/// Where the string table has the name of entry `i`.
pub open spec fn name_offset(entries: Seq<Entry>, i: int) -> int {
    entries[i].spec_info().filename_offset as int
}

/// The offset of the name of an entry, which the names are ordered by.
pub open spec fn offset_key(entries: Seq<Entry>) -> spec_fn(usize) -> int {
    |k: usize| name_offset(entries, k as int)
}

/// The indices from 1 up to, not including, `upto`.
pub open spec fn indices(upto: int) -> Seq<usize> {
    Seq::new(
        if upto >= 1 {
            (upto - 1) as nat
        } else {
            0
        },
        |i: int| (i + 1) as usize,
    )
}

/// The entries from 1 up to, not including, `upto`, ordered by the offsets
/// of their names; entries with the same offset in the order of the table.
pub open spec fn offset_order(entries: Seq<Entry>, upto: int) -> Seq<usize> {
    sorted_by_key(
        indices(upto),
        if upto >= 1 {
            upto - 1
        } else {
            0
        },
        offset_key(entries),
    )
}

/// The names of the entries of `order` as they stand in the string table,
/// each with a zero byte behind it.
pub open spec fn names_bytes(entries: Seq<Entry>, order: Seq<usize>) -> Seq<u8>
    decreases order.len(),
{
    if order.len() == 0 {
        Seq::empty()
    } else {
        names_bytes(entries, order.drop_last()) + entries[order.last() as int].stored_name().push(
            0u8,
        )
    }
}

/// The string table: the names of all entries but the root, ordered by
/// their offsets.
pub open spec fn string_table(entries: Seq<Entry>) -> Seq<u8> {
    names_bytes(entries, offset_order(entries, entries.len() as int))
}

/// The table as bytes.
pub open spec fn table_bytes(entries: Seq<Entry>) -> Seq<u8> {
    records_bytes(entries, entries.len() as int) + string_table(entries)
}

/// The records of `upto` entries are twelve bytes each.
pub proof fn lemma_records_len(entries: Seq<Entry>, upto: int)
    requires
        0 <= upto,
    ensures
        records_bytes(entries, upto).len() == ENTRY_SIZE * upto,
    decreases upto,
{
    if upto > 0 {
        lemma_records_len(entries, upto - 1);
        lemma_record_len(entries[upto - 1]);
    }
}

/// The order of the entries up to `index`, that entry with them, is the
/// order of those before it with that entry put in.
pub proof fn lemma_offset_order_step(entries: Seq<Entry>, index: int)
    requires
        1 <= index <= usize::MAX,
    ensures
        offset_order(entries, index + 1) == insert_by(
            offset_order(entries, index),
            index as usize,
            offset_key(entries),
        ),
{
    lemma_sorted_prefix(indices(index + 1), indices(index), index - 1, offset_key(entries));
}

/// The order of the first items does not depend on later items.
pub proof fn lemma_sorted_prefix<T>(a: Seq<T>, b: Seq<T>, upto: int, key: spec_fn(T) -> int)
    requires
        0 <= upto <= a.len(),
        upto <= b.len(),
        forall|k: int| 0 <= k < upto ==> a[k] == b[k],
    ensures
        sorted_by_key(a, upto, key) == sorted_by_key(b, upto, key),
    decreases upto,
{
    if upto > 0 {
        lemma_sorted_prefix(a, b, upto - 1, key);
    }
}

/// Appends `bytes` to `out`.
pub fn append_bytes(out: &mut Vec<u8>, bytes: &[u8])
    ensures
        final(out)@ == old(out)@ + bytes@,
{
    let mut i: usize = 0;
    while i < bytes.len()
        invariant
            0 <= i <= bytes@.len(),
            out@ == old(out)@ + bytes@.subrange(0, i as int),
        decreases bytes@.len() - i,
    {
        out.push(bytes[i]);
        assert(out@ =~= old(out)@ + bytes@.subrange(0, i + 1));
        i += 1;
    }
    assert(bytes@.subrange(0, i as int) =~= bytes@);
}

/// Writes the name of the entry as it stands in the string table: that of
/// a directory without the separator at its end, and a zero byte behind it.
pub fn write_stored_name(entry: &Entry, out: &mut Vec<u8>)
    ensures
        final(out)@ == old(out)@ + entry.stored_name().push(0u8),
{
    let name = entry.info().name.as_str().as_bytes();
    let len = name.len();
    if entry.is_dir() && len > 0 && name[len - 1] == SEPARATOR {
        append_bytes(out, vstd::slice::slice_subrange(name, 0, len - 1));
    } else {
        append_bytes(out, name);
    }
    out.push(0);
    assert(out@ =~= old(out)@ + entry.stored_name().push(0u8));
}

/// Puts entry `k` into `order`, which is ordered by the offsets of the names.
pub fn insert_ordered(order: &mut Vec<usize>, entries: &Vec<Entry>, k: usize)
    requires
        k < entries@.len(),
        forall|j: int| 0 <= j < old(order)@.len() ==> #[trigger] old(order)@[j] < entries@.len(),
    ensures
        final(order)@ == insert_by(old(order)@, k, offset_key(entries@)),
        forall|j: int| 0 <= j < final(order)@.len() ==> #[trigger] final(order)@[j] < entries@.len(),
{
    let key = entries[k].info().filename_offset;
    let mut at: usize = order.len();
    while at > 0 && entries[order[at - 1]].info().filename_offset > key
        invariant
            0 <= at <= order@.len(),
            order@ == old(order)@,
            k < entries@.len(),
            key == name_offset(entries@, k as int),
            forall|j: int| 0 <= j < order@.len() ==> #[trigger] order@[j] < entries@.len(),
            forall|j: int|
                at <= j < order@.len() ==> name_offset(entries@, #[trigger] order@[j] as int)
                    > key,
        decreases at,
    {
        at -= 1;
    }
    proof {
        lemma_insert_at(order@, k, offset_key(entries@), at as int);
    }
    order.insert(at, k);
}

} // verus!
