//! A rebuilt table can be written and read again.

use crate::order::lemma_sorted_stays;
use crate::rom_rebuilder::host::{flat_list, HostEntry};
use crate::rom_rebuilder::layout::names_packed;
use crate::rom_rebuilder::walk::{mirrors, names_len};
use crate::rom_rebuilder::{FSTRebuilder, HeaderRebuilder};
use crate::sections::fst::encode::{
    indices, lemma_records_len, names_bytes, offset_key, offset_order, table_bytes,
};
use crate::sections::fst::entry::{Entry, ENTRY_SIZE, SEPARATOR};
use crate::sections::fst::resolve::{names_plain, plain_name};
use crate::sections::fst::roundtrip::{name_position, packed};
use vstd::prelude::*;

verus! {

/// The string table grows with every name.
pub proof fn lemma_names_len_grows(entries: Seq<Entry>, a: int, b: int)
    requires
        a <= b,
    ensures
        0 <= names_len(entries, a) <= names_len(entries, b),
    decreases b - a,
{
    if a < b {
        lemma_names_len_grows(entries, a, b - 1);
    } else {
        lemma_names_len_nonnegative(entries, a);
    }
}

/// The string table is not shorter than nothing.
pub proof fn lemma_names_len_nonnegative(entries: Seq<Entry>, upto: int)
    ensures
        0 <= names_len(entries, upto),
    decreases upto,
{
    if upto > 1 {
        lemma_names_len_nonnegative(entries, upto - 1);
    }
}

/// The names of the first `k` entries behind the root are as long as the
/// string table is up to them.
pub proof fn lemma_names_bytes_len(entries: Seq<Entry>, n: int, k: int)
    requires
        0 <= k <= n - 1,
        n <= usize::MAX,
    ensures
        names_bytes(entries, indices(n).subrange(0, k)).len() == names_len(entries, k + 1),
    decreases k,
{
    let order = indices(n).subrange(0, k);
    if k > 0 {
        lemma_names_bytes_len(entries, n, k - 1);
        assert(order.drop_last() =~= indices(n).subrange(0, k - 1));
        assert(order.last() == k as usize);
    }
}

/// Names that stand in the string table in the order of the table stand
/// where `write` puts them, and the table is as long as its records and
/// its names.
#[verifier::rlimit(40)]
pub proof fn lemma_packed(entries: Seq<Entry>)
    requires
        names_packed(entries),
        1 <= entries.len() <= usize::MAX,
    ensures
        packed(entries),
        table_bytes(entries).len() == ENTRY_SIZE * entries.len() + names_len(
            entries,
            entries.len() as int,
        ),
{
    let n = entries.len() as int;
    let all = indices(n);
    let key = offset_key(entries);
    assert forall|i: int, j: int| 0 <= i < j < all.len() implies key(#[trigger] all[i]) <= key(
        #[trigger] all[j],
    ) by {
        assert(entries[i + 1].spec_info().filename_offset == names_len(entries, i + 1));
        assert(entries[j + 1].spec_info().filename_offset == names_len(entries, j + 1));
        lemma_names_len_grows(entries, i + 1, j + 1);
    }
    lemma_sorted_stays(all, n - 1, key);
    assert(all.subrange(0, n - 1) =~= all);
    let order = offset_order(entries, n);
    assert(order == all);
    assert forall|k: int| 0 <= k < order.len() implies (
    #[trigger] entries[order[k] as int]).spec_info().filename_offset == name_position(
        entries,
        order,
        k,
    ) by {
        lemma_names_bytes_len(entries, n, k);
        assert(entries[k + 1].spec_info().filename_offset == names_len(entries, k + 1));
    }
    lemma_names_bytes_len(entries, n, n - 1);
    lemma_records_len(entries, n);
}

/// A rebuilt table can be written and read again, if its numbers fit the
/// widths of a record and no name of the host holds a zero byte.
#[verifier::rlimit(40)]
pub proof fn lemma_rebuilt_encodable(first: FSTRebuilder, root: Seq<HostEntry>, next: HeaderRebuilder)
    requires
        first.rebuilt(root, next),
        next.fst.entries@.len() <= usize::MAX,
        forall|i: int|
            0 <= i < next.fst.entries@.len() ==> (#[trigger] next.fst.entries@[i]).fits_record(),
        forall|k: int, j: int|
            0 <= k < flat_list(root, root.len()).len() && 0 <= j < (#[trigger] flat_list(
                root,
                root.len(),
            )[k]).name.len() ==> #[trigger] flat_list(root, root.len())[k].name[j] != 0,
    ensures
        next.fst.well_formed(),
        next.fst.encodable(),
{
    let entries = next.fst.entries@;
    let items = flat_list(root, root.len());
    lemma_packed(entries);
    assert forall|i: int| 1 <= i < entries.len() && (#[trigger] entries[i]) is Directory implies
        entries[i].name_bytes().len() > 0 && entries[i].name_bytes().last() == SEPARATOR by {
        assert(mirrors(entries[1 + (i - 1)], items[i - 1], i));
    }
    assert forall|i: int, j: int|
        1 <= i < entries.len() && 0 <= j < (#[trigger] entries[i]).stored_name().len() implies
        #[trigger] entries[i].stored_name()[j] != 0 by {
        assert(mirrors(entries[1 + (i - 1)], items[i - 1], i));
        assert(items[i - 1].name[j] != 0);
    }
}

/// The names of a rebuilt table are plain, if the names of the host are
/// not empty and hold no separator.
pub proof fn lemma_rebuilt_names_plain(
    first: FSTRebuilder,
    root: Seq<HostEntry>,
    next: HeaderRebuilder,
)
    requires
        first.rebuilt(root, next),
        forall|k: int|
            0 <= k < flat_list(root, root.len()).len() ==> (#[trigger] flat_list(
                root,
                root.len(),
            )[k]).name.len() > 0,
        forall|k: int, j: int|
            0 <= k < flat_list(root, root.len()).len() && 0 <= j < (#[trigger] flat_list(
                root,
                root.len(),
            )[k]).name.len() ==> #[trigger] flat_list(root, root.len())[k].name[j] != SEPARATOR,
    ensures
        names_plain(next.fst.entries@),
{
    let entries = next.fst.entries@;
    let items = flat_list(root, root.len());
    assert forall|i: int| 1 <= i < entries.len() implies #[trigger] plain_name(entries[i]) by {
        assert(mirrors(entries[1 + (i - 1)], items[i - 1], i));
        let name = entries[i].name_bytes();
        let host = items[i - 1].name;
        assert(host.len() > 0);
        assert forall|j: int| 0 <= j < name.len() - 1 implies #[trigger] name[j] != SEPARATOR by {
            if j < host.len() {
                assert(host[j] != SEPARATOR);
            }
        }
        if !items[i - 1].is_directory {
            assert(host[host.len() - 1] != SEPARATOR);
        }
    }
}

} // verus!
