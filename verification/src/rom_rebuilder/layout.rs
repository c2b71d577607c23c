//! Where the table and the files of a rebuilt image go.

use crate::rom_rebuilder::host::HostItem;
use crate::rom_rebuilder::walk::{
    aligned_len, closed_block, count_pointing, items_aligned, items_names, placed, points_up,
};
use crate::sections::apploader::APPLOADER_OFFSET;
use crate::sections::fst::decode::shaped;
use crate::sections::fst::entry::{spans_of, Entry, ENTRY_SIZE};
use crate::sections::fst::tree::{
    count_children, lemma_count_children_outside, lemma_parent_of, lemma_parent_unique, nested,
    parent_of,
};
use crate::{align_up, lemma_align_up};
use vstd::prelude::*;

verus! {

/// The length of the table that the items make: the records, the root's
/// with them, and the names.
pub open spec fn table_size(items: Seq<HostItem>) -> int {
    ENTRY_SIZE * (1 + items.len()) + items_names(items)
}

/// Where the table goes: behind the apploader, at the alignment.
pub open spec fn table_offset(apploader_size: int, alignment: int) -> int {
    align_up(APPLOADER_OFFSET + apploader_size, alignment)
}

/// Where the executable goes: behind the table, at the alignment.
pub open spec fn executable_offset(items: Seq<HostItem>, apploader_size: int, alignment: int) -> int {
    align_up(table_offset(apploader_size, alignment) + table_size(items), alignment)
}

/// Where the files begin: behind the executable, at the alignment.
pub open spec fn files_offset(
    items: Seq<HostItem>,
    apploader_size: int,
    dol_size: int,
    alignment: int,
) -> int {
    align_up(executable_offset(items, apploader_size, alignment) + dol_size, alignment)
}

/// The image can be laid out: the length of the table is one that the
/// machine can say, and the end of the last file a 64-bit number.
pub open spec fn rebuild_fits(
    items: Seq<HostItem>,
    apploader_size: int,
    dol_size: int,
    alignment: int,
) -> bool {
    &&& table_size(items) <= usize::MAX
    &&& files_offset(items, apploader_size, dol_size, alignment) + items_aligned(items, alignment)
        <= u64::MAX
}

/// The greatest end of a file among the first `upto` entries.
pub open spec fn greatest_file_end(entries: Seq<Entry>, upto: int) -> int
    decreases upto,
{
    if upto <= 0 {
        0
    } else {
        let before = greatest_file_end(entries, upto - 1);
        match entries[upto - 1] {
            Entry::File(file) => if file.file_offset + file.size > before {
                file.file_offset + file.size
            } else {
                before
            },
            Entry::Directory(_) => before,
        }
    }
}

/// Every file among the entries stands at `base` and the rounded lengths of
/// the files before it.
pub open spec fn files_placed(entries: Seq<Entry>, base: int, alignment: int) -> bool {
    forall|k: int|
        0 <= k < entries.len() ==> ((#[trigger] entries[k]) matches Entry::File(file)
            ==> file.file_offset == base + aligned_len(entries, k, alignment))
}

/// The name of every entry but the root stands in the string table right
/// behind the names of the entries before it.
pub open spec fn names_packed(entries: Seq<Entry>) -> bool {
    forall|k: int|
        1 <= k < entries.len() ==> (#[trigger] entries[k]).spec_info().filename_offset
            == crate::rom_rebuilder::walk::names_len(entries, k)
}

/// The sum of two multiples of `m` is a multiple of `m`.
pub proof fn lemma_sum_of_multiples(a: int, b: int, m: int)
    requires
        m > 0,
        a % m == 0,
        b % m == 0,
    ensures
        (a + b) % m == 0,
{
    vstd::arithmetic::div_mod::lemma_fundamental_div_mod(a, m);
    vstd::arithmetic::div_mod::lemma_fundamental_div_mod(b, m);
    let q = a / m + b / m;
    assert(a + b == q * m) by (nonlinear_arith)
        requires
            a == m * (a / m),
            b == m * (b / m),
            q == a / m + b / m,
    ;
    vstd::arithmetic::div_mod::lemma_mod_multiples_basic(q, m);
}

/// The rounded lengths add up to a multiple of the alignment, and grow
/// with every file by its length at least.
pub proof fn lemma_aligned_len(entries: Seq<Entry>, j: int, k: int, alignment: int)
    requires
        alignment > 0,
        0 <= j <= k,
    ensures
        aligned_len(entries, k, alignment) % alignment == 0,
        aligned_len(entries, j, alignment) <= aligned_len(entries, k, alignment),
        j < k ==> (entries[j] matches Entry::File(file) ==> aligned_len(entries, j, alignment)
            + file.size <= aligned_len(entries, k, alignment)),
        0 <= aligned_len(entries, j, alignment),
    decreases k,
{
    if k > 0 {
        if j < k {
            lemma_aligned_len(entries, j, k - 1, alignment);
        } else {
            lemma_aligned_len(entries, k - 1, k - 1, alignment);
        }
        match entries[k - 1] {
            Entry::File(file) => {
                lemma_align_up(file.size as int, alignment);
                let before = aligned_len(entries, k - 1, alignment);
                let here = align_up(file.size as int, alignment);
                lemma_sum_of_multiples(before, here, alignment);
            },
            Entry::Directory(_) => {},
        }
    } else {
        vstd::arithmetic::div_mod::lemma_small_mod(0, alignment as nat);
    }
}

/// Files that are placed one behind the other from a base at the alignment
/// stand at multiples of the alignment, and no two of them overlap.
#[verifier::rlimit(40)]
pub proof fn lemma_files_apart(entries: Seq<Entry>, base: int, alignment: int)
    requires
        alignment > 0,
        base >= 0,
        base % alignment == 0,
        files_placed(entries, base, alignment),
    ensures
        forall|k: int|
            0 <= k < entries.len() ==> ((#[trigger] entries[k]) matches Entry::File(file)
                ==> file.file_offset as int % alignment == 0),
        forall|j: int, k: int|
            0 <= j < k < entries.len() ==> ((#[trigger] entries[j]) matches Entry::File(a) ==> ((
            #[trigger] entries[k]) matches Entry::File(b) ==> a.file_offset + a.size
                <= b.file_offset)),
{
    assert forall|k: int| 0 <= k < entries.len() implies ((
    #[trigger] entries[k]) matches Entry::File(file) ==> file.file_offset as int
        % alignment == 0) by {
        lemma_aligned_len(entries, k, k, alignment);
        let sum = aligned_len(entries, k, alignment);
        lemma_sum_of_multiples(base, sum, alignment);
    }
    assert forall|j: int, k: int| 0 <= j < k < entries.len() implies ((
    #[trigger] entries[j]) matches Entry::File(a) ==> ((#[trigger] entries[k]) matches Entry::File(
        b,
    ) ==> a.file_offset + a.size <= b.file_offset)) by {
        lemma_aligned_len(entries, j, k, alignment);
    }
}

/// How many entries point at a directory, and how many have it as parent,
/// is the same in a table with the shape of a tree.
pub proof fn lemma_count_pointing_children(entries: Seq<Entry>, d: int, upto: int)
    requires
        shaped(entries),
        0 <= d < upto <= entries.len(),
    ensures
        count_pointing(entries, d, upto) == count_children(spans_of(entries), d, upto),
    decreases upto,
{
    let spans = spans_of(entries);
    if upto > d + 1 {
        lemma_count_pointing_children(entries, d, upto - 1);
        lemma_parent_of(spans, upto - 1);
    } else {
        lemma_no_children_before(spans, d, upto);
    }
}

/// No entry up to a directory has it as parent.
pub proof fn lemma_no_children_before(spans: Seq<int>, d: int, upto: int)
    requires
        nested(spans),
        0 <= d,
        upto <= d + 1,
        upto <= spans.len(),
    ensures
        count_children(spans, d, upto) == 0,
    decreases upto,
{
    if upto > 1 {
        lemma_no_children_before(spans, d, upto - 1);
        lemma_parent_of(spans, upto - 1);
    }
}

/// When the walk is over and the root closed, the entries have the shape
/// of a tree, and every directory knows how many entries lie in it.
#[verifier::rlimit(40)]
pub proof fn lemma_walk_shaped(entries: Seq<Entry>, alignment: int)
    requires
        entries.len() >= 1,
        entries[0] is Directory,
        entries[0].third_field() == entries.len(),
        entries[0].spec_info().directory_index is None,
        entries[0].spec_file_count() == count_pointing(entries, 0, entries.len() as int),
        closed_block(entries, 1, entries.len() as int),
        forall|k: int| 0 <= k < entries.len() ==> #[trigger] placed(entries, k, alignment),
    ensures
        shaped(entries),
        forall|i: int|
            0 <= i < entries.len() ==> (#[trigger] entries[i]).spec_file_count() == if entries[i]
                is Directory {
                count_children(spans_of(entries), i, entries.len() as int) as int
            } else {
                0
            },
{
    let spans = spans_of(entries);
    let len = entries.len() as int;
    assert(nested(spans));
    assert forall|i: int| 0 <= i < len implies (#[trigger] entries[i]).spec_info().index == i by {
        assert(placed(entries, i, alignment));
    }
    assert forall|i: int| 1 <= i < len implies (#[trigger] entries[i]).spec_info().directory_index
        == Some(parent_of(spans, i) as usize) by {
        assert(points_up(entries, 1, i));
        let p = entries[i].spec_info().directory_index->0;
        lemma_parent_unique(spans, i, p as int);
    }
    assert(shaped(entries));
    assert forall|i: int| 0 <= i < len implies (#[trigger] entries[i]).spec_file_count()
        == if entries[i] is Directory {
        count_children(spans, i, len) as int
    } else {
        0
    } by {
        if entries[i] is Directory {
            lemma_count_pointing_children(entries, i, spans[i]);
            lemma_count_children_outside(spans, i, spans[i], len);
        }
    }
}

} // verus!

verus! {

/// Both entries are the same but for the place of a file's contents, the
/// name's characters behind its encoding, and the path.
pub open spec fn same_tree(a: Entry, b: Entry) -> bool {
    &&& crate::rom_rebuilder::walk::same_sums(a, b)
    &&& a.name_bytes() == b.name_bytes()
    &&& a.third_field() == b.third_field()
    &&& a.spec_info().index == b.spec_info().index
    &&& a.spec_info().filename_offset == b.spec_info().filename_offset
    &&& a.spec_info().directory_index == b.spec_info().directory_index
    &&& a.spec_file_count() == b.spec_file_count()
    &&& (a is Directory ==> a.second_field() == b.second_field())
}

/// Every directory knows how many entries lie in it directly.
pub open spec fn contents_counted(entries: Seq<Entry>) -> bool {
    forall|i: int|
        0 <= i < entries.len() ==> (#[trigger] entries[i]).spec_file_count() == if entries[i]
            is Directory {
            count_children(spans_of(entries), i, entries.len() as int) as int
        } else {
            0
        }
}

/// What holds of a table holds of one that differs from it in the places
/// of the files and in the paths only.
#[verifier::rlimit(40)]
pub proof fn lemma_same_tree(a: Seq<Entry>, b: Seq<Entry>, items: Seq<HostItem>, alignment: int)
    requires
        a.len() == b.len(),
        forall|k: int| 0 <= k < a.len() ==> same_tree(#[trigger] b[k], a[k]),
    ensures
        spans_of(b) == spans_of(a),
        shaped(a) ==> shaped(b),
        contents_counted(a) ==> contents_counted(b),
        crate::rom_rebuilder::walk::block_mirrors(a, 1, items)
            ==> crate::rom_rebuilder::walk::block_mirrors(b, 1, items),
        names_packed(a) ==> names_packed(b),
        forall|k: int|
            0 <= k <= a.len() ==> #[trigger] aligned_len(b, k, alignment) == aligned_len(
                a,
                k,
                alignment,
            ),
        crate::sections::fst::count_files(b, b.len() as int) == crate::sections::fst::count_files(
            a,
            a.len() as int,
        ),
        crate::sections::fst::total_size(b, b.len() as int) == crate::sections::fst::total_size(
            a,
            a.len() as int,
        ),
        crate::rom_rebuilder::walk::names_len(b, b.len() as int)
            == crate::rom_rebuilder::walk::names_len(a, a.len() as int),
{
    assert forall|i: int| 0 <= i < a.len() implies spans_of(b)[i] == spans_of(a)[i] by {
        assert(same_tree(b[i], a[i]));
    }
    assert(spans_of(b) =~= spans_of(a));
    if shaped(a) {
        assert(same_tree(b[0], a[0]));
        assert forall|i: int| 0 <= i < b.len() implies (#[trigger] b[i]).spec_info().index
            == i by {
            assert(same_tree(b[i], a[i]));
        }
        assert forall|i: int| 1 <= i < b.len() implies (
        #[trigger] b[i]).spec_info().directory_index == Some(
            parent_of(spans_of(b), i) as usize,
        ) by {
            assert(same_tree(b[i], a[i]));
        }
    }
    if contents_counted(a) {
        assert forall|i: int| 0 <= i < b.len() implies (#[trigger] b[i]).spec_file_count()
            == if b[i] is Directory {
            count_children(spans_of(b), i, b.len() as int) as int
        } else {
            0
        } by {
            assert(same_tree(b[i], a[i]));
        }
    }
    if crate::rom_rebuilder::walk::block_mirrors(a, 1, items) {
        assert forall|k: int| 0 <= k < items.len() implies crate::rom_rebuilder::walk::mirrors(
            #[trigger] b[1 + k],
            items[k],
            1 + k,
        ) by {
            assert(same_tree(b[1 + k], a[1 + k]));
            assert(crate::rom_rebuilder::walk::mirrors(a[1 + k], items[k], 1 + k));
        }
    }
    assert forall|k: int| 0 <= k <= a.len() implies #[trigger] aligned_len(b, k, alignment)
        == aligned_len(a, k, alignment) by {
        crate::rom_rebuilder::walk::lemma_sums_agree(a, b, k, alignment);
    }
    if names_packed(a) {
        assert forall|k: int| 1 <= k < b.len() implies (#[trigger] b[k]).spec_info().filename_offset
            == crate::rom_rebuilder::walk::names_len(b, k) by {
            assert(same_tree(b[k], a[k]));
            crate::rom_rebuilder::walk::lemma_sums_agree(a, b, k, alignment);
        }
    }
    crate::rom_rebuilder::walk::lemma_sums_agree(a, b, a.len() as int, alignment);
}

/// The greatest end of the first files does not depend on later entries.
pub proof fn lemma_greatest_file_end_prefix(a: Seq<Entry>, b: Seq<Entry>, upto: int)
    requires
        upto <= a.len(),
        upto <= b.len(),
        forall|k: int| 0 <= k < upto ==> a[k] == b[k],
    ensures
        greatest_file_end(a, upto) == greatest_file_end(b, upto),
    decreases upto,
{
    if upto > 0 {
        lemma_greatest_file_end_prefix(a, b, upto - 1);
    }
}

/// The entry `a` is `b` with the contents of a file moved on by `by`.
pub open spec fn shifted(a: Entry, b: Entry, by: int) -> bool {
    match (a, b) {
        (Entry::File(x), Entry::File(y)) => x.info == y.info && x.size == y.size && x.file_offset
            == y.file_offset + by,
        (Entry::Directory(x), Entry::Directory(y)) => x == y,
        _ => false,
    }
}

} // verus!
