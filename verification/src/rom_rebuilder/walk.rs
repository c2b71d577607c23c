//! The walk through a host directory tree that fills a table.

use crate::bytes::lemma_encode_concat;
use crate::rom_rebuilder::host::{
    flat_list, flat_node, is_ignored_name, HostEntry, HostItem, SYSTEM_DATA,
};
use crate::sections::fst::entry::{
    lemma_separator_text, span_end, spans_of, DirectoryEntry, Entry, EntryInfo, FileEntry,
    SEPARATOR,
};
use crate::rom_rebuilder::FSTRebuilder;
use crate::sections::fst::{count_files, total_size};
use crate::{align_up, lemma_align_up};
use vstd::prelude::*;
use vstd::string::StringExecFns;
use vstd::utf8::encode_utf8;

verus! {

/// Why a table could not be built.
#[derive(Debug, Clone, Copy, PartialEq, Eq, Structural)]
pub enum RebuildError {
    /// The names or the files are together longer than a 64-bit number can say.
    TooLarge,
}

/// The lengths of the names of the entries from 1 up to, not including,
/// `upto`, as they stand in the string table, each with its zero byte.
pub open spec fn names_len(entries: Seq<Entry>, upto: int) -> int
    decreases upto,
{
    if upto <= 1 {
        0
    } else {
        names_len(entries, upto - 1) + entries[upto - 1].stored_name().len() + 1
    }
}

/// The lengths of the files among the first `upto` entries, each rounded up
/// to the alignment, added up.
pub open spec fn aligned_len(entries: Seq<Entry>, upto: int, alignment: int) -> int
    decreases upto,
{
    if upto <= 0 {
        0
    } else {
        aligned_len(entries, upto - 1, alignment) + match entries[upto - 1] {
            Entry::File(file) => align_up(file.size as int, alignment),
            Entry::Directory(_) => 0,
        }
    }
}

/// The lengths of the names of the items, each with its zero byte.
pub open spec fn items_names(items: Seq<HostItem>) -> int
    decreases items.len(),
{
    if items.len() == 0 {
        0
    } else {
        items_names(items.drop_last()) + items.last().name.len() + 1
    }
}

/// The lengths of the files among the items, each rounded up to the
/// alignment, added up.
pub open spec fn items_aligned(items: Seq<HostItem>, alignment: int) -> int
    decreases items.len(),
{
    if items.len() == 0 {
        0
    } else {
        items_aligned(items.drop_last(), alignment) + if items.last().is_directory {
            0
        } else {
            align_up(items.last().size as int, alignment)
        }
    }
}

/// How many of the entries behind `d` and before `upto` say that they lie in `d`.
pub open spec fn count_pointing(entries: Seq<Entry>, d: int, upto: int) -> int
    decreases upto - d,
{
    if upto <= d + 1 {
        0
    } else {
        count_pointing(entries, d, upto - 1) + if entries[upto - 1].spec_info().directory_index
            == Some(d as usize) {
            1int
        } else {
            0int
        }
    }
}

/// The entry at `at` holds what the item says.
pub open spec fn mirrors(entry: Entry, item: HostItem, at: int) -> bool {
    &&& entry.stored_name() == item.name
    &&& entry.name_bytes() == if item.is_directory {
        item.name.push(SEPARATOR)
    } else {
        item.name
    }
    &&& (entry is Directory) == item.is_directory
    &&& (entry matches Entry::File(file) ==> file.size == item.size)
    &&& span_end(entry, at) == at + item.span
}

/// The entries from `lo` on hold what the items say, one entry for each item.
pub open spec fn block_mirrors(entries: Seq<Entry>, lo: int, items: Seq<HostItem>) -> bool {
    &&& 0 <= lo
    &&& lo + items.len() <= entries.len()
    &&& forall|k: int|
        0 <= k < items.len() ==> mirrors(#[trigger] entries[lo + k], items[k], lo + k)
}

/// Entry `i` says in which directory it lies, and rightly so: the directory
/// comes before it, not before `lo - 1`, nothing between the two spans `i`,
/// and the directory itself does, as far as it is one from `lo` on.
pub open spec fn points_up(entries: Seq<Entry>, lo: int, i: int) -> bool {
    let spans = spans_of(entries);
    match entries[i].spec_info().directory_index {
        Some(p) => {
            &&& lo - 1 <= p < i
            &&& (p >= lo ==> spans[p as int] > i)
            &&& forall|x: int| p < x < i ==> #[trigger] spans[x] <= i
            &&& (entries[i] matches Entry::Directory(dir) ==> dir.parent_index == p)
        },
        None => false,
    }
}

/// The entries from `lo` up to, not including, `hi` are whole trees, one
/// behind the other: each ends inside the range, two of them are nested or
/// apart, each knows its place and the directory that it lies in, and each
/// directory how many lie in it.
pub open spec fn closed_block(entries: Seq<Entry>, lo: int, hi: int) -> bool {
    let spans = spans_of(entries);
    &&& 1 <= lo <= hi <= entries.len()
    &&& forall|i: int| lo <= i < hi ==> i < #[trigger] spans[i] <= hi
    &&& forall|i: int, j: int|
        lo <= i < j < hi && j < #[trigger] spans[i] ==> #[trigger] spans[j] <= spans[i]
    &&& forall|i: int| lo <= i < hi ==> #[trigger] points_up(entries, lo, i)
    &&& forall|i: int|
        lo <= i < hi ==> (#[trigger] entries[i]).spec_file_count() == if entries[i] is Directory {
            count_pointing(entries, i, spans[i])
        } else {
            0
        }
}

/// How many entries point at `d` depends on the entries behind `d` only.
pub proof fn lemma_count_pointing_frame(a: Seq<Entry>, b: Seq<Entry>, d: int, upto: int)
    requires
        0 <= d,
        upto <= a.len(),
        upto <= b.len(),
        forall|x: int| d < x < upto ==> a[x] == b[x],
    ensures
        count_pointing(a, d, upto) == count_pointing(b, d, upto),
    decreases upto - d,
{
    if upto > d + 1 {
        lemma_count_pointing_frame(a, b, d, upto - 1);
    }
}

/// Entries that point at a directory from `from` on do not count for `d`
/// if none of them points at `d`.
pub proof fn lemma_count_pointing_skip(entries: Seq<Entry>, d: int, from: int, upto: int)
    requires
        d < from <= upto,
        forall|x: int|
            from <= x < upto ==> (#[trigger] entries[x]).spec_info().directory_index != Some(
                d as usize,
            ),
    ensures
        count_pointing(entries, d, upto) == count_pointing(entries, d, from),
    decreases upto - from,
{
    if upto > from {
        lemma_count_pointing_skip(entries, d, from, upto - 1);
    }
}

/// A block stays closed when the entries outside it change.
#[verifier::rlimit(40)]
pub proof fn lemma_closed_block_frame(a: Seq<Entry>, b: Seq<Entry>, lo: int, hi: int)
    requires
        closed_block(a, lo, hi),
        hi <= b.len(),
        forall|x: int| lo <= x < hi ==> a[x] == b[x],
    ensures
        closed_block(b, lo, hi),
{
    let sa = spans_of(a);
    let sb = spans_of(b);
    assert forall|i: int| lo <= i < hi implies sa[i] == sb[i] by {
        assert(a[i] == b[i]);
    }
    assert forall|i: int| lo <= i < hi implies #[trigger] points_up(b, lo, i) by {
        assert(points_up(a, lo, i));
        assert(a[i] == b[i]);
        let p = a[i].spec_info().directory_index->0;
        assert forall|x: int| p < x < i implies #[trigger] sb[x] <= i by {
            assert(sa[x] <= i);
        }
    }
    assert forall|i: int| lo <= i < hi implies (#[trigger] b[i]).spec_file_count() == if b[i]
        is Directory {
        count_pointing(b, i, sb[i])
    } else {
        0
    } by {
        assert(a[i] == b[i]);
        assert(sa[i] == sb[i]);
        if b[i] is Directory {
            lemma_count_pointing_frame(a, b, i, sa[i]);
        }
    }
}

/// A closed block, an entry behind it that lies in the directory before the
/// block, and the closed block of what lies below that entry, are a closed
/// block together.
#[verifier::rlimit(40)]
pub proof fn lemma_closed_block_extend(entries: Seq<Entry>, lo: int, mid: int, hi: int)
    requires
        closed_block(entries, lo, mid),
        mid < hi <= entries.len(),
        closed_block(entries, mid + 1, hi),
        spans_of(entries)[mid] == hi,
        entries[mid].spec_info().directory_index == Some((lo - 1) as usize),
        lo - 1 <= usize::MAX,
        entries[mid] matches Entry::Directory(dir) ==> dir.parent_index == lo - 1,
        entries[mid].spec_file_count() == if entries[mid] is Directory {
            count_pointing(entries, mid, hi)
        } else {
            0
        },
    ensures
        closed_block(entries, lo, hi),
{
    let spans = spans_of(entries);
    assert forall|i: int| lo <= i < hi implies #[trigger] points_up(entries, lo, i) by {
        if i < mid {
            assert(points_up(entries, lo, i));
        } else if i == mid {
            assert forall|x: int| lo - 1 < x < mid implies #[trigger] spans[x] <= mid by {}
        } else {
            assert(points_up(entries, mid + 1, i));
        }
    }
    assert forall|i: int, j: int| lo <= i < j < hi && j < #[trigger] spans[i] implies
        #[trigger] spans[j] <= spans[i] by {
        if i < mid {
            assert(spans[i] <= mid);
        }
    }
}

/// The sums over items go over their parts.
pub proof fn lemma_items_sums_concat(a: Seq<HostItem>, b: Seq<HostItem>, alignment: int)
    ensures
        items_names(a + b) == items_names(a) + items_names(b),
        items_aligned(a + b, alignment) == items_aligned(a, alignment) + items_aligned(
            b,
            alignment,
        ),
    decreases b.len(),
{
    if b.len() == 0 {
        assert(a + b =~= a);
    } else {
        lemma_items_sums_concat(a, b.drop_last(), alignment);
        assert((a + b).drop_last() =~= a + b.drop_last());
        assert((a + b).last() == b.last());
    }
}

/// The sums over items are not negative.
pub proof fn lemma_items_sums_nonnegative(items: Seq<HostItem>, alignment: int)
    requires
        alignment > 0,
    ensures
        items_names(items) >= 0,
        items_aligned(items, alignment) >= 0,
    decreases items.len(),
{
    if items.len() > 0 {
        lemma_items_sums_nonnegative(items.drop_last(), alignment);
        if !items.last().is_directory {
            lemma_align_up(items.last().size as int, alignment);
        }
    }
}

/// The sums over the first items of a row of host entries are not greater
/// than the sums over all of them.
pub proof fn lemma_flat_list_grows(hosts: Seq<HostEntry>, upto: nat, all: nat, alignment: int)
    requires
        upto <= all <= hosts.len(),
        alignment > 0,
    ensures
        items_names(flat_list(hosts, upto)) <= items_names(flat_list(hosts, all)),
        items_aligned(flat_list(hosts, upto), alignment) <= items_aligned(
            flat_list(hosts, all),
            alignment,
        ),
    decreases all - upto,
{
    if upto < all {
        lemma_flat_list_grows(hosts, upto, (all - 1) as nat, alignment);
        let front = flat_list(hosts, (all - 1) as nat);
        let node = flat_node(hosts[all - 1]);
        lemma_items_sums_concat(front, node, alignment);
        lemma_items_sums_nonnegative(node, alignment);
    }
}

/// The sums over the items of a host entry: its own name and length, and
/// the sums over what lies in it.
pub proof fn lemma_flat_node_sums(host: HostEntry, alignment: int)
    requires
        alignment > 0,
    ensures
        match host {
            HostEntry::File { name, size } => {
                &&& items_names(flat_node(host)) == encode_utf8(name@).len() + 1
                &&& items_aligned(flat_node(host), alignment) == align_up(size as int, alignment)
            },
            HostEntry::Directory { name, children } => {
                &&& items_names(flat_node(host)) == encode_utf8(name@).len() + 1 + items_names(
                    flat_list(children@, children@.len()),
                )
                &&& items_aligned(flat_node(host), alignment) == items_aligned(
                    flat_list(children@, children@.len()),
                    alignment,
                )
            },
        },
{
    let first = seq![flat_node(host)[0]];
    assert(first.drop_last() =~= Seq::<HostItem>::empty());
    assert(items_names(Seq::<HostItem>::empty()) == 0);
    assert(items_aligned(Seq::<HostItem>::empty(), alignment) == 0);
    assert(items_names(first) == first.last().name.len() + 1);
    assert(items_aligned(first, alignment) == if first.last().is_directory {
        0
    } else {
        align_up(first.last().size as int, alignment)
    });
    match host {
        HostEntry::File { name, size } => {
            assert(flat_node(host) =~= first);
        },
        HostEntry::Directory { name, children } => {
            let rest = flat_list(children@, children@.len());
            assert(flat_node(host) =~= first + rest);
            lemma_items_sums_concat(first, rest, alignment);
        },
    }
}

/// The items of a host entry need room for its own name at least.
pub proof fn lemma_flat_node_least(host: HostEntry, alignment: int)
    requires
        alignment > 0,
    ensures
        items_names(flat_node(host)) >= host.name_bytes().len() + 1,
        items_aligned(flat_node(host), alignment) >= 0,
{
    lemma_flat_node_sums(host, alignment);
    lemma_items_sums_nonnegative(flat_node(host), alignment);
    match host {
        HostEntry::File { .. } => {},
        HostEntry::Directory { name, children } => {
            lemma_items_sums_nonnegative(flat_list(children@, children@.len()), alignment);
        },
    }
}

/// The entry at `k` knows its index, where its name stands in the string
/// table, and, if it is a file, where its contents stand among the files.
pub open spec fn placed(entries: Seq<Entry>, k: int, alignment: int) -> bool {
    &&& entries[k].spec_info().index == k
    &&& (k >= 1 ==> entries[k].spec_info().filename_offset == names_len(entries, k))
    &&& (entries[k] matches Entry::File(file) ==> file.file_offset == aligned_len(
        entries,
        k,
        alignment,
    ))
}

/// Both entries are of one kind, with the same name, and, if they are
/// files, the same length.
pub open spec fn same_sums(a: Entry, b: Entry) -> bool {
    &&& a.tag() == b.tag()
    &&& a.stored_name() == b.stored_name()
    &&& (a is File ==> a.third_field() == b.third_field())
}

/// Both entries are of one kind, with the same name, index and offset of
/// the name, and, if they are files, the same length and place.
pub open spec fn same_load(a: Entry, b: Entry) -> bool {
    &&& same_sums(a, b)
    &&& a.spec_info().index == b.spec_info().index
    &&& a.spec_info().filename_offset == b.spec_info().filename_offset
    &&& (a is File ==> a.second_field() == b.second_field())
}

/// The sums over entries depend on their names, kinds and sizes only.
pub proof fn lemma_sums_agree(a: Seq<Entry>, b: Seq<Entry>, upto: int, alignment: int)
    requires
        upto <= a.len(),
        upto <= b.len(),
        forall|k: int| 0 <= k < upto ==> same_sums(#[trigger] b[k], a[k]),
    ensures
        names_len(b, upto) == names_len(a, upto),
        aligned_len(b, upto, alignment) == aligned_len(a, upto, alignment),
        count_files(b, upto) == count_files(a, upto),
        total_size(b, upto) == total_size(a, upto),
    decreases upto,
{
    if upto > 0 {
        lemma_sums_agree(a, b, upto - 1, alignment);
        assert(same_sums(b[upto - 1], a[upto - 1]));
    }
}

/// The files are together not longer than their rounded lengths, and there
/// are not more of them than entries.
pub proof fn lemma_sums_bounds(entries: Seq<Entry>, upto: int, alignment: int)
    requires
        alignment > 0,
        0 <= upto,
    ensures
        total_size(entries, upto) <= aligned_len(entries, upto, alignment),
        count_files(entries, upto) <= upto,
        names_len(entries, upto) >= 0,
    decreases upto,
{
    if upto > 0 {
        lemma_sums_bounds(entries, upto - 1, alignment);
        match entries[upto - 1] {
            Entry::File(file) => {
                lemma_align_up(file.size as int, alignment);
            },
            Entry::Directory(_) => {},
        }
    }
}

/// What the walk carries along: the entries made so far, how far the
/// string table and the files reach, how many files there are and how long
/// they are, and the directory that the walk is in.
pub struct FSTRebuilderInfo {
    pub entries: Vec<Entry>,
    /// The rounded lengths of the files so far: where the next file goes.
    pub file_system_size: u64,
    /// The length of the string table so far: where the next name goes.
    pub filename_offset: u64,
    pub file_count: usize,
    /// The lengths of the files so far, not rounded.
    pub total_size: u64,
    pub parent_index: Option<usize>,
    pub alignment: u64,
}

impl FSTRebuilderInfo {
    /// The sums are those of the entries, but that the string table is
    /// `pending` bytes ahead, and every entry is placed.
    pub open spec fn in_step(&self, pending: int) -> bool {
        let e = self.entries@;
        &&& self.alignment > 0
        &&& self.filename_offset == names_len(e, e.len() as int) + pending
        &&& self.file_system_size == aligned_len(e, e.len() as int, self.alignment as int)
        &&& self.file_count == count_files(e, e.len() as int)
        &&& self.total_size == total_size(e, e.len() as int)
        &&& forall|k: int| 0 <= k < e.len() ==> #[trigger] placed(e, k, self.alignment as int)
    }

    /// Takes an entry into the table. A file moves the place of the next
    /// file on by its length, rounded up to the alignment.
    pub fn add_entry(&mut self, entry: Entry) -> (r: Result<(), RebuildError>)
        requires
            old(self).alignment > 0,
            old(self).total_size <= old(self).file_system_size,
            old(self).file_count <= old(self).entries@.len(),
        ensures
            r is Err <==> (entry matches Entry::File(file) && old(self).file_system_size + align_up(
                file.size as int,
                old(self).alignment as int,
            ) > u64::MAX),
            r is Ok ==> {
                &&& final(self).entries@ == old(self).entries@.push(entry)
                &&& final(self).filename_offset == old(self).filename_offset
                &&& final(self).parent_index == old(self).parent_index
                &&& final(self).alignment == old(self).alignment
                &&& match entry {
                    Entry::File(file) => {
                        &&& final(self).file_system_size == old(self).file_system_size + align_up(
                            file.size as int,
                            old(self).alignment as int,
                        )
                        &&& final(self).file_count == old(self).file_count + 1
                        &&& final(self).total_size == old(self).total_size + file.size
                    },
                    Entry::Directory(_) => {
                        &&& final(self).file_system_size == old(self).file_system_size
                        &&& final(self).file_count == old(self).file_count
                        &&& final(self).total_size == old(self).total_size
                    },
                }
            },
            r is Err ==> *final(self) == *old(self),
    {
        match &entry {
            Entry::File(file) => {
                let aligned = match crate::checked_align(file.size as u64, self.alignment) {
                    Some(aligned) => aligned,
                    None => {
                        proof {
                            lemma_align_up(file.size as int, self.alignment as int);
                        }
                        return Err(RebuildError::TooLarge);
                    },
                };
                let end = match self.file_system_size.checked_add(aligned) {
                    Some(end) => end,
                    None => {
                        return Err(RebuildError::TooLarge);
                    },
                };
                proof {
                    lemma_align_up(file.size as int, self.alignment as int);
                }
                self.total_size = self.total_size + file.size as u64;
                self.file_system_size = end;
                self.entries.push(entry);
                let len = self.entries.len();
                self.file_count = self.file_count + 1;
            },
            Entry::Directory(_) => {
                self.entries.push(entry);
            },
        }
        Ok(())
    }
}

/// The walk from `before` to `after` has made the entries of `items`: one
/// entry for each item, behind the entries that were there, which are as
/// they were; the new entries are whole trees, and the sums have moved on
/// by those of the items.
pub open spec fn walked(before: FSTRebuilderInfo, after: FSTRebuilderInfo, items: Seq<HostItem>) -> bool {
    let e0 = before.entries@;
    let e1 = after.entries@;
    &&& after.in_step(0)
    &&& after.alignment == before.alignment
    &&& after.parent_index == before.parent_index
    &&& e1.len() == e0.len() + items.len()
    &&& forall|x: int| 0 <= x < e0.len() ==> e1[x] == e0[x]
    &&& closed_block(e1, e0.len() as int, e1.len() as int)
    &&& block_mirrors(e1, e0.len() as int, items)
    &&& after.file_system_size == before.file_system_size + items_aligned(
        items,
        before.alignment as int,
    )
    &&& after.filename_offset == before.filename_offset + items_names(items)
}

/// The sums of the walk, moved on by those of the items, are 64-bit numbers still.
pub open spec fn walk_fits(before: FSTRebuilderInfo, items: Seq<HostItem>) -> bool {
    &&& before.file_system_size + items_aligned(items, before.alignment as int) <= u64::MAX
    &&& before.filename_offset + items_names(items) <= u64::MAX
}

/// Entries that mirror two rows of items, one behind the other, mirror the
/// two rows put together.
pub proof fn lemma_block_mirrors_extend(
    entries: Seq<Entry>,
    lo: int,
    a: Seq<HostItem>,
    b: Seq<HostItem>,
)
    requires
        block_mirrors(entries, lo, a),
        block_mirrors(entries, lo + a.len(), b),
    ensures
        block_mirrors(entries, lo, a + b),
{
    let all = a + b;
    assert forall|k: int| 0 <= k < all.len() implies mirrors(
        #[trigger] entries[lo + k],
        all[k],
        lo + k,
    ) by {
        if k >= a.len() {
            assert(mirrors(entries[lo + a.len() + (k - a.len())], b[k - a.len()], lo + k));
        }
    }
}

/// Entries keep mirroring the items when the entries outside the block change.
pub proof fn lemma_block_mirrors_frame(a: Seq<Entry>, b: Seq<Entry>, lo: int, items: Seq<HostItem>)
    requires
        block_mirrors(a, lo, items),
        lo + items.len() <= b.len(),
        forall|x: int| lo <= x < lo + items.len() ==> a[x] == b[x],
    ensures
        block_mirrors(b, lo, items),
{
    assert forall|k: int| 0 <= k < items.len() implies mirrors(
        #[trigger] b[lo + k],
        items[k],
        lo + k,
    ) by {
        assert(mirrors(a[lo + k], items[k], lo + k));
    }
}

/// Every entry stays placed when entries are changed in what the sums do
/// not look at, or put behind the last.
pub proof fn lemma_placed_agree(a: Seq<Entry>, b: Seq<Entry>, alignment: int)
    requires
        a.len() <= b.len(),
        forall|k: int| 0 <= k < a.len() ==> #[trigger] placed(a, k, alignment),
        forall|k: int| 0 <= k < a.len() ==> same_load(#[trigger] b[k], a[k]),
    ensures
        forall|k: int| 0 <= k < a.len() ==> #[trigger] placed(b, k, alignment),
{
    assert forall|k: int| 0 <= k < a.len() implies #[trigger] placed(b, k, alignment) by {
        assert(placed(a, k, alignment));
        assert(same_load(b[k], a[k]));
        assert forall|j: int| 0 <= j < k implies same_sums(#[trigger] b[j], a[j]) by {
            assert(same_load(b[j], a[j]));
        }
        lemma_sums_agree(a, b, k, alignment);
    }
}

/// No more entries point at a directory than stand behind it.
pub proof fn lemma_count_pointing_bound(entries: Seq<Entry>, d: int, upto: int)
    ensures
        0 <= count_pointing(entries, d, upto),
        upto > d ==> count_pointing(entries, d, upto) <= upto - d - 1,
    decreases upto - d,
{
    if upto > d + 1 {
        lemma_count_pointing_bound(entries, d, upto - 1);
    }
}

/// The directory entry at `m`, closed: it ends at the end of the table and
/// knows how many entries lie in it; all else it has from `dir`.
pub open spec fn closed_directory(entries: Seq<Entry>, m: int, dir: Entry) -> bool {
    &&& entries[m] is Directory
    &&& entries[m].spec_info() == dir.spec_info()
    &&& entries[m].second_field() == dir.second_field()
    &&& entries[m].third_field() == entries.len()
    &&& entries[m].spec_file_count() == count_pointing(entries, m, entries.len() as int)
}

/// What `rebuild_dir_info` asks of the directory entry that it is given.
pub open spec fn opens(before: FSTRebuilderInfo, dir: Entry) -> bool {
    let e0 = before.entries@;
    &&& dir is Directory
    &&& dir.spec_info().index == e0.len()
    &&& dir.spec_info().directory_index == before.parent_index
    &&& dir.spec_file_count() == 0
    &&& (e0.len() >= 1 ==> dir.spec_info().filename_offset == names_len(e0, e0.len() as int))
    &&& before.in_step(
        if e0.len() >= 1 {
            dir.stored_name().len() as int + 1
        } else {
            0int
        },
    )
}

impl FSTRebuilder {
    /// Takes a directory into the table, then everything that lies in it, and
    /// at last tells the directory where it ends and how many entries lie in
    /// it directly.
    #[verifier::rlimit(40)]
    pub fn rebuild_dir_info(
        children: &Vec<HostEntry>,
        dir: Entry,
        rb_info: &mut FSTRebuilderInfo,
    ) -> (r: Result<(), RebuildError>)
        requires
            opens(*old(rb_info), dir),
        ensures
            r is Ok <==> walk_fits(*old(rb_info), flat_list(children@, children@.len())),
            r is Ok ==> {
                let items = flat_list(children@, children@.len());
                let e0 = old(rb_info).entries@;
                let e1 = final(rb_info).entries@;
                let m = e0.len() as int;
                &&& final(rb_info).in_step(0)
                &&& final(rb_info).alignment == old(rb_info).alignment
                &&& final(rb_info).parent_index == old(rb_info).parent_index
                &&& e1.len() == m + 1 + items.len()
                &&& forall|x: int| 0 <= x < m ==> e1[x] == e0[x]
                &&& closed_directory(e1, m, dir)
                &&& closed_block(e1, m + 1, e1.len() as int)
                &&& block_mirrors(e1, m + 1, items)
                &&& final(rb_info).file_system_size == old(rb_info).file_system_size + items_aligned(
                    items,
                    old(rb_info).alignment as int,
                )
                &&& final(rb_info).filename_offset == old(rb_info).filename_offset + items_names(
                    items,
                )
            },
        decreases children@, 1int,
    {
        let ghost e0 = rb_info.entries@;
        let ghost alignment = rb_info.alignment as int;
        let ghost items = flat_list(children@, children@.len());
        let old_parent_index = rb_info.parent_index;
        let dir_index = dir.info().index;
        rb_info.parent_index = Some(dir_index);
        proof {
            lemma_sums_bounds(e0, e0.len() as int, alignment);
        }
        let added = rb_info.add_entry(dir);
        assert(added is Ok);
        let ghost opened = *rb_info;
        proof {
            let e = rb_info.entries@;
            assert forall|k: int| 0 <= k < e0.len() implies same_load(#[trigger] e[k], e0[k]) by {
                assert(e[k] == e0[k]);
            }
            lemma_sums_agree(e0, e, e0.len() as int, alignment);
            lemma_placed_agree(e0, e, alignment);
            assert(placed(e, e0.len() as int, alignment));
            assert(rb_info.in_step(0));
        }
        let previous_entry_count = rb_info.entries.len();
        let immediate_children_added = match Self::add_entries_in_directory(children, rb_info) {
            Ok(count) => count,
            Err(e) => {
                return Err(e);
            },
        };
        let total_entries_added = rb_info.entries.len() - previous_entry_count;
        let ghost walked_entries = rb_info.entries@;
        match &mut rb_info.entries[dir_index] {
            Entry::Directory(dir) => {
                dir.file_count = immediate_children_added;
                dir.next_index = dir_index + total_entries_added + 1;
            },
            Entry::File(_) => {},
        }
        rb_info.parent_index = old_parent_index;
        proof {
            let e = rb_info.entries@;
            let m = e0.len() as int;
            assert forall|k: int| 0 <= k < e.len() implies same_load(
                #[trigger] e[k],
                walked_entries[k],
            ) by {
                if k != m {
                    assert(e[k] == walked_entries[k]);
                }
            }
            lemma_sums_agree(walked_entries, e, e.len() as int, alignment);
            lemma_placed_agree(walked_entries, e, alignment);
            lemma_closed_block_frame(walked_entries, e, m + 1, e.len() as int);
            lemma_block_mirrors_frame(walked_entries, e, m + 1, items);
            lemma_count_pointing_frame(walked_entries, e, m, e.len() as int);
            assert(forall|x: int| 0 <= x < m ==> e[x] == e0[x]);
        }
        Ok(())
    }

    /// Takes the entries of a host directory into the table, in the order in
    /// which the host gave them, the ignored ones left out: each file, and each
    /// directory with everything that lies in it. A name goes to the end of
    /// the string table, a file behind the files before it. Returns how many
    /// entries were taken that lie in the directory directly.
    #[verifier::rlimit(40)]
    pub fn add_entries_in_directory(children: &Vec<HostEntry>, rb_info: &mut FSTRebuilderInfo) -> (r:
        Result<usize, RebuildError>)
        requires
            old(rb_info).in_step(0),
            old(rb_info).entries@.len() >= 1,
            old(rb_info).parent_index == Some((old(rb_info).entries@.len() - 1) as usize),
        ensures
            r is Ok <==> walk_fits(*old(rb_info), flat_list(children@, children@.len())),
            r matches Ok(count) ==> walked(
                *old(rb_info),
                *final(rb_info),
                flat_list(children@, children@.len()),
            ) && count == count_pointing(
                final(rb_info).entries@,
                old(rb_info).entries@.len() - 1,
                final(rb_info).entries@.len() as int,
            ),
        decreases children@, 0int,
    {
        let ghost before = *rb_info;
        let ghost e0 = rb_info.entries@;
        let ghost lo = e0.len() as int;
        let ghost alignment = rb_info.alignment as int;
        let ghost all = flat_list(children@, children@.len());
        let mut immediate_children_added: usize = 0;
        let mut i: usize = 0;
        proof {
            assert(flat_list(children@, 0) =~= Seq::<HostItem>::empty());
            assert(items_names(Seq::<HostItem>::empty()) == 0);
            assert(items_aligned(Seq::<HostItem>::empty(), alignment) == 0);
        }
        while i < children.len()
            invariant
                0 <= i <= children@.len(),
                before == *old(rb_info),
                e0 == before.entries@,
                lo == e0.len(),
                lo >= 1,
                alignment == before.alignment,
                before.parent_index == Some((lo - 1) as usize),
                all == flat_list(children@, children@.len()),
                walked(before, *rb_info, flat_list(children@, i as nat)),
                immediate_children_added == count_pointing(
                    rb_info.entries@,
                    lo - 1,
                    rb_info.entries@.len() as int,
                ),
            decreases children@.len() - i,
        {
            let ghost done = flat_list(children@, i as nat);
            let ghost next = flat_list(children@, (i + 1) as nat);
            let ghost e = rb_info.entries@;
            let ghost current = *rb_info;
            let host = &children[i];
            let name = host.name();
            if Self::is_file_ignored(name) {
                assert(next == done);
                i += 1;
                continue ;
            }
            proof {
                assert(next == done + flat_node(*host));
                lemma_flat_node_sums(*host, alignment);
                lemma_items_sums_concat(done, flat_node(*host), alignment);
                lemma_flat_list_grows(children@, (i + 1) as nat, children@.len(), alignment);
                lemma_items_sums_nonnegative(done, alignment);
                lemma_sums_bounds(e, e.len() as int, alignment);
                lemma_count_pointing_bound(e, lo - 1, e.len() as int);
            }
            let index = rb_info.entries.len();
            let name_len = name.as_bytes().len();
            let filename_offset = rb_info.filename_offset;
            let behind_name = match filename_offset.checked_add(name_len as u64) {
                Some(end) => match end.checked_add(1) {
                    Some(end) => end,
                    None => {
                        proof {
                            lemma_flat_node_least(*host, alignment);
                        }
                        return Err(RebuildError::TooLarge);
                    },
                },
                None => {
                    proof {
                        lemma_flat_node_least(*host, alignment);
                    }
                    return Err(RebuildError::TooLarge);
                },
            };
            match host {
                HostEntry::Directory { children: below, .. } => {
                    let mut text = String::from_str(name);
                    text.append("/");
                    proof {
                        lemma_separator_text();
                        lemma_encode_concat(name@, "/"@);
                        assert(encode_utf8(text@) =~= encode_utf8(name@).push(SEPARATOR));
                    }
                    let info = EntryInfo {
                        index,
                        name: text,
                        filename_offset,
                        directory_index: rb_info.parent_index,
                        full_path: String::new(),
                    };
                    let parent_index = match info.directory_index {
                        Some(parent) => parent,
                        None => 0,
                    };
                    let dir_entry = Entry::Directory(
                        DirectoryEntry { info, parent_index, next_index: 0, file_count: 0 },
                    );
                    assert(dir_entry.stored_name() =~= encode_utf8(name@));
                    rb_info.filename_offset = behind_name;
                    let ghost at_call = *rb_info;
                    assert(dir_entry.stored_name().len() == name_len);
                    assert(at_call.entries@ == e);
                    assert(at_call.filename_offset == names_len(e, e.len() as int) + name_len + 1);
                    assert(dir_entry.spec_info().filename_offset == names_len(e, e.len() as int));
                    assert(at_call.in_step(dir_entry.stored_name().len() as int + 1));
                    assert(opens(at_call, dir_entry));
                    match Self::rebuild_dir_info(below, dir_entry, rb_info) {
                        Ok(()) => {},
                        Err(e) => {
                            return Err(e);
                        },
                    }
                    proof {
                        let after = rb_info.entries@;
                        let hi = after.len() as int;
                        let m = index as int;
                        let inner = flat_list(below@, below@.len());
                        lemma_closed_block_frame(e, after, lo, m);
                        lemma_closed_block_extend(after, lo, m, hi);
                        lemma_block_mirrors_frame(e, after, lo, done);
                        let head = seq![flat_node(*host)[0]];
                        assert(flat_node(*host) =~= head + inner);
                        assert(block_mirrors(after, m, head));
                        lemma_block_mirrors_extend(after, m, head, inner);
                        lemma_block_mirrors_extend(after, lo, done, flat_node(*host));
                        lemma_count_pointing_frame(e, after, lo - 1, m);
                        assert forall|x: int| m + 1 <= x < hi implies (
                        #[trigger] after[x]).spec_info().directory_index != Some((lo - 1) as usize) by {
                            assert(points_up(after, m + 1, x));
                        }
                        lemma_count_pointing_skip(after, lo - 1, m + 1, hi);
                        assert(walked(before, *rb_info, next));
                    }
                },
                HostEntry::File { size, .. } => {
                    let info = EntryInfo {
                        index,
                        name: String::from_str(name),
                        filename_offset,
                        directory_index: rb_info.parent_index,
                        full_path: String::new(),
                    };
                    let entry = Entry::File(
                        FileEntry { info, file_offset: rb_info.file_system_size, size: *size },
                    );
                    rb_info.filename_offset = behind_name;
                    match rb_info.add_entry(entry) {
                        Ok(()) => {},
                        Err(e) => {
                            return Err(e);
                        },
                    }
                    proof {
                        let after = rb_info.entries@;
                        let m = index as int;
                        assert forall|k: int| 0 <= k < e.len() implies same_load(
                            #[trigger] after[k],
                            e[k],
                        ) by {
                            assert(after[k] == e[k]);
                        }
                        lemma_sums_agree(e, after, e.len() as int, alignment);
                        lemma_placed_agree(e, after, alignment);
                        assert(placed(after, m, alignment));
                        lemma_closed_block_frame(e, after, lo, m);
                        assert(closed_block(after, m + 1, m + 1));
                        assert(count_pointing(after, m, m + 1) == 0);
                        lemma_closed_block_extend(after, lo, m, m + 1);
                        lemma_block_mirrors_frame(e, after, lo, done);
                        assert(block_mirrors(after, m, flat_node(*host)));
                        lemma_block_mirrors_extend(after, lo, done, flat_node(*host));
                        lemma_count_pointing_frame(e, after, lo - 1, m);
                        assert(rb_info.in_step(0));
                        assert(walked(before, *rb_info, next));
                    }
                },
            }
            immediate_children_added = immediate_children_added + 1;
            i += 1;
        }
        Ok(immediate_children_added)
    }

    /// Whether an entry with this name is left out of the table.
    pub fn is_file_ignored(name: &str) -> (r: bool)
        ensures
            r == is_ignored_name(encode_utf8(name@)),
    {
        let bytes = name.as_bytes();
        if bytes.len() > 0 && bytes[0] == 0x2e {
            return true;
        }
        crate::bytes::bytes_eq(bytes, SYSTEM_DATA.as_bytes())
    }
}

} // verus!
