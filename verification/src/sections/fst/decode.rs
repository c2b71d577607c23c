//! Reading the records of a table: the first pass of decoding.

use crate::sections::fst::entry::{spans_of, Entry, ENTRY_SIZE, SEPARATOR};
use crate::sections::fst::source::{
    first_name_error, first_record_error, has_record, lemma_first_name_error,
    lemma_first_record_error, name_at, name_end, name_error, name_start, names_end, names_start,
    raw_span,
    raw_spans, record_at, record_error, table_len,
};
use crate::sections::fst::tree::{
    count_children, lemma_parent_of, lemma_parent_unique, nested, parent_of,
};
use crate::sections::fst::{count_files, parents_precede, path_bytes, push_joined, total_size};
use crate::sections::fst::FstError;
use vstd::prelude::*;
use vstd::slice::slice_subrange;
use vstd::utf8::encode_utf8;

verus! {

/// A directory that the reader is inside of: where it stands in the table
/// and where it ends.
pub struct OpenDirectory {
    pub index: usize,
    pub next_index: usize,
}

/// The entries are in the order of a tree: the spans are nested, the root is
/// a directory, each entry knows its index and the directory it lies in.
pub open spec fn shaped(entries: Seq<Entry>) -> bool {
    &&& nested(spans_of(entries))
    &&& entries[0] is Directory
    &&& entries[0].spec_info().directory_index is None
    &&& forall|i: int| 0 <= i < entries.len() ==> (#[trigger] entries[i]).spec_info().index == i
    &&& forall|i: int|
        1 <= i < entries.len() ==> (#[trigger] entries[i]).spec_info().directory_index == Some(
            parent_of(spans_of(entries), i) as usize,
        )
}

/// The entry is as `Entry::new` leaves it: with what the record holds and
/// nothing else.
pub open spec fn fresh(entry: Entry, record: Seq<u8>) -> bool {
    &&& entry.holds_record(record)
    &&& entry.spec_info().name@ == Seq::<char>::empty()
    &&& entry.spec_info().full_path@ == Seq::<char>::empty()
    &&& (entry matches Entry::Directory(dir) ==> dir.file_count == 0)
}

/// The first `upto` spans are in order: each ends behind its index and
/// inside the table, and two of them are nested or apart.
pub open spec fn prefix_nested(spans: Seq<int>, upto: int) -> bool {
    &&& 1 <= upto <= spans.len()
    &&& spans[0] == spans.len()
    &&& forall|k: int| 0 <= k < upto ==> k < #[trigger] spans[k] <= spans.len()
    &&& forall|a: int, b: int|
        0 <= a < b < upto && b < #[trigger] spans[a] ==> #[trigger] spans[b] <= spans[a]
}

/// The stack of open directories while record `index` is next: the root at
/// the bottom, each directory inside the one below it, each still open, and
/// nothing between two of them, or behind the last, that would still be open.
pub open spec fn open_stack(stack: Seq<OpenDirectory>, spans: Seq<int>, index: int) -> bool {
    &&& stack.len() >= 1
    &&& stack[0].index == 0
    &&& forall|a: int|
        0 <= a < stack.len() ==> (#[trigger] stack[a]).index < index && stack[a].next_index
            == spans[stack[a].index as int] && stack[a].next_index >= index
    &&& forall|a: int, b: int|
        0 <= a < b < stack.len() ==> (#[trigger] stack[a]).index < (#[trigger] stack[b]).index
            && stack[b].next_index <= stack[a].next_index
    &&& forall|a: int, k: int|
        0 <= a < stack.len() - 1 && stack[a].index < k < stack[a + 1].index ==> #[trigger] spans[k]
            <= (#[trigger] stack[a + 1]).index
    &&& forall|k: int| stack[stack.len() - 1].index < k < index ==> #[trigger] spans[k] <= index
}

/// A directory on top of the stack that ends where the next record stands is
/// closed by taking it off.
proof fn lemma_stack_pop(stack: Seq<OpenDirectory>, spans: Seq<int>, index: int)
    requires
        open_stack(stack, spans, index),
        stack[stack.len() - 1].next_index == index,
        index < spans[0],
    ensures
        stack.len() >= 2,
        open_stack(stack.drop_last(), spans, index),
{
    let top = stack.len() - 1;
    if stack.len() == 1 {
        assert(stack[0].next_index == spans[0]);
    }
    let rest = stack.drop_last();
    assert forall|k: int| rest[rest.len() - 1].index < k < index implies #[trigger] spans[k]
        <= index by {
        assert(rest[rest.len() - 1] == stack[top - 1]);
        if k < stack[top].index {
            assert(spans[k] <= stack[top - 1 + 1].index);
        } else if k == stack[top].index {
            assert(stack[top].next_index == spans[k]);
        }
    }
    assert forall|a: int, k: int|
        0 <= a < rest.len() - 1 && rest[a].index < k < rest[a + 1].index implies #[trigger] spans[k]
        <= (#[trigger] rest[a + 1]).index by {
        assert(rest[a] == stack[a]);
        assert(rest[a + 1] == stack[a + 1]);
    }
}

/// Once the closed directories are off the stack, its top is the directory
/// that the next entry lies in.
proof fn lemma_stack_top(stack: Seq<OpenDirectory>, spans: Seq<int>, index: int)
    requires
        open_stack(stack, spans, index),
        stack[stack.len() - 1].next_index > index,
    ensures
        parent_of(spans, index) == stack[stack.len() - 1].index,
{
    let top = stack[stack.len() - 1];
    lemma_parent_unique(spans, index, top.index as int);
}

/// The stack and the order of the spans after record `index` was read: a
/// directory goes onto the stack, a file leaves it as it is.
#[verifier::rlimit(40)]
proof fn lemma_stack_step(
    stack: Seq<OpenDirectory>,
    spans: Seq<int>,
    index: int,
    pushed: Seq<OpenDirectory>,
    is_directory: bool,
)
    requires
        open_stack(stack, spans, index),
        prefix_nested(spans, index),
        index < spans.len(),
        stack[stack.len() - 1].next_index > index,
        index < spans[index] <= stack[stack.len() - 1].next_index,
        !is_directory ==> spans[index] == index + 1 && pushed == stack,
        is_directory ==> index < usize::MAX && pushed == stack.push(
            OpenDirectory { index: index as usize, next_index: spans[index] as usize },
        ),
    ensures
        open_stack(pushed, spans, index + 1),
        prefix_nested(spans, index + 1),
{
    let top = stack.len() - 1;
    let parent = stack[top].index as int;
    assert(stack[top].next_index <= spans.len()) by {
        if top > 0 {
            assert(stack[top].next_index <= stack[0].next_index);
        }
    }
    assert forall|a: int, b: int|
        0 <= a < b < index + 1 && b < #[trigger] spans[a] implies #[trigger] spans[b]
        <= spans[a] by {
        if b == index {
            if a < parent {
                assert(spans[parent] <= spans[a]);
            } else if a > parent {
                assert(spans[a] <= index);
            }
        }
    }
    if is_directory {
        assert forall|a: int|
            0 <= a < pushed.len() implies (#[trigger] pushed[a]).index < index + 1
            && pushed[a].next_index == spans[pushed[a].index as int] && pushed[a].next_index
            >= index + 1 by {
            if a < stack.len() {
                assert(pushed[a] == stack[a]);
            }
        }
        assert forall|a: int, b: int| 0 <= a < b < pushed.len() implies (#[trigger] pushed[a]).index
            < (#[trigger] pushed[b]).index && pushed[b].next_index <= pushed[a].next_index by {
            assert(pushed[a] == stack[a]);
            if b < stack.len() {
                assert(pushed[b] == stack[b]);
            } else {
                if a < top {
                    assert(stack[top].next_index <= stack[a].next_index);
                }
            }
        }
        assert forall|a: int, k: int|
            0 <= a < pushed.len() - 1 && pushed[a].index < k < pushed[a + 1].index implies
            #[trigger] spans[k] <= (#[trigger] pushed[a + 1]).index by {
            assert(pushed[a] == stack[a]);
            if a + 1 < stack.len() {
                assert(pushed[a + 1] == stack[a + 1]);
            }
        }
    } else {
        assert forall|a: int|
            0 <= a < pushed.len() implies (#[trigger] pushed[a]).index < index + 1
            && pushed[a].next_index == spans[pushed[a].index as int] && pushed[a].next_index
            >= index + 1 by {
            if a < top {
                assert(stack[top].next_index <= stack[a].next_index);
            }
        }
    }
}

/// Takes the directories that end at `index` off the stack.
fn close_directories(parents: &mut Vec<OpenDirectory>, index: usize, Ghost(spans): Ghost<Seq<int>>)
    requires
        open_stack(old(parents)@, spans, index as int),
        index < spans[0],
    ensures
        open_stack(final(parents)@, spans, index as int),
        final(parents)@[final(parents)@.len() - 1].next_index > index,
{
    while parents[parents.len() - 1].next_index == index
        invariant
            open_stack(parents@, spans, index as int),
            index < spans[0],
        decreases parents@.len(),
    {
        proof {
            lemma_stack_pop(parents@, spans, index as int);
        }
        parents.pop();
    }
}

/// The first `index` entries are what the first `index` records hold, each
/// in its place and with the directory it lies in.
pub open spec fn read_so_far(entries: Seq<Entry>, source: Seq<u8>, offset: int, index: int) -> bool {
    let spans = raw_spans(source, offset);
    &&& entries.len() == index
    &&& index >= 1
    &&& record_error(source, offset, 0) is None
    &&& entries[0].spec_info().directory_index is None
    &&& entries[0] is Directory
    &&& forall|k: int|
        0 <= k < index ==> has_record(source, offset, k) && fresh(
            #[trigger] entries[k],
            record_at(source, offset, k),
        ) && entries[k].spec_info().index == k
    &&& forall|k: int| 1 <= k < index ==> #[trigger] record_error(source, offset, k) is None
    &&& forall|k: int|
        1 <= k < index ==> (#[trigger] entries[k]).spec_info().directory_index == Some(
            parent_of(spans, k) as usize,
        )
}

/// One more entry was read.
proof fn lemma_read_one_more(
    entries: Seq<Entry>,
    entry: Entry,
    source: Seq<u8>,
    offset: int,
    index: int,
)
    requires
        read_so_far(entries, source, offset, index),
        has_record(source, offset, index),
        fresh(entry, record_at(source, offset, index)),
        entry.spec_info().index == index,
        entry.spec_info().directory_index == Some(
            parent_of(raw_spans(source, offset), index) as usize,
        ),
        record_error(source, offset, index) is None,
    ensures
        read_so_far(entries.push(entry), source, offset, index + 1),
{
    let all = entries.push(entry);
    assert forall|k: int| 0 <= k < index + 1 implies has_record(source, offset, k) && fresh(
        #[trigger] all[k],
        record_at(source, offset, k),
    ) && all[k].spec_info().index == k by {
        if k < index {
            assert(all[k] == entries[k]);
        }
    }
    assert forall|k: int| 1 <= k < index + 1 implies (#[trigger] all[k]).spec_info().directory_index
        == Some(parent_of(raw_spans(source, offset), k) as usize) by {
        if k < index {
            assert(all[k] == entries[k]);
        }
    }
    assert(all[0] == entries[0]);
}

/// When every record is read and in order, the entries have the shape of a tree.
proof fn lemma_read_all(entries: Seq<Entry>, source: Seq<u8>, offset: int)
    requires
        read_so_far(entries, source, offset, table_len(source, offset)),
        prefix_nested(raw_spans(source, offset), table_len(source, offset)),
    ensures
        spans_of(entries) == raw_spans(source, offset),
        shaped(entries),
        first_record_error(source, offset, 1, table_len(source, offset)) is None,
        offset + 12 * table_len(source, offset) <= source.len(),
        forall|i: int|
            0 <= i < entries.len() ==> fresh(#[trigger] entries[i], record_at(source, offset, i)),
{
    let spans = raw_spans(source, offset);
    let n = table_len(source, offset);
    assert(has_record(source, offset, n - 1)) by {
        assert(fresh(entries[n - 1], record_at(source, offset, n - 1)));
    }
    assert forall|k: int| 0 <= k < n implies spans_of(entries)[k] == spans[k] by {
        assert(fresh(entries[k], record_at(source, offset, k)));
    }
    assert(spans_of(entries) =~= spans);
    lemma_first_record_error(source, offset, 1, n, n);
}

/// Reads the records of the table at `offset`, the root's first, which says
/// how many there are. While it reads it keeps the stack of the directories
/// that are open; the top of the stack is the directory that the next entry
/// lies in. A directory must end behind itself and not behind the directory
/// that it lies in.
#[verifier::rlimit(40)]
pub fn read_entries(iso: &[u8], offset: u64) -> (r: Result<Vec<Entry>, FstError>)
    ensures
        match r {
            Ok(entries) => {
                &&& record_error(iso@, offset as int, 0) is None
                &&& first_record_error(iso@, offset as int, 1, table_len(iso@, offset as int))
                    is None
                &&& entries@.len() == table_len(iso@, offset as int)
                &&& offset + ENTRY_SIZE * entries@.len() <= iso@.len()
                &&& spans_of(entries@) == raw_spans(iso@, offset as int)
                &&& shaped(entries@)
                &&& forall|i: int|
                    0 <= i < entries@.len() ==> fresh(
                        #[trigger] entries@[i],
                        record_at(iso@, offset as int, i),
                    )
            },
            Err(e) => {
                ||| record_error(iso@, offset as int, 0) == Some(e)
                ||| (record_error(iso@, offset as int, 0) is None && first_record_error(
                    iso@,
                    offset as int,
                    1,
                    table_len(iso@, offset as int),
                ) == Some(e))
            },
        },
{
    let len = iso.len();
    if len < ENTRY_SIZE || offset > (len - ENTRY_SIZE) as u64 {
        return Err(FstError::Truncated);
    }
    let base = offset as usize;
    let remaining = len - base;
    let ghost source = iso@;
    let ghost start = offset as int;
    let root = match Entry::new(slice_subrange(iso, base, base + ENTRY_SIZE), 0, None) {
        Ok(root) => root,
        Err(e) => {
            return Err(e);
        },
    };
    let count = match &root {
        Entry::Directory(dir) => dir.next_index,
        Entry::File(_) => {
            return Err(FstError::RootNotDirectory);
        },
    };
    if count == 0 {
        return Err(FstError::InvalidRange { index: 0 });
    }
    let ghost spans = raw_spans(source, start);
    assert(count == table_len(source, start));
    assert(spans.len() == count);
    let mut entries: Vec<Entry> = Vec::new();
    entries.push(root);
    let mut parents: Vec<OpenDirectory> = Vec::new();
    parents.push(OpenDirectory { index: 0, next_index: count });
    let mut index: usize = 1;
    assert(read_so_far(entries@, source, start, 1));
    assert(open_stack(parents@, spans, 1));
    while index < count
        invariant
            1 <= index <= count,
            len == iso@.len(),
            source == iso@,
            start == offset as int,
            base == offset,
            remaining == len - base,
            count == table_len(source, start),
            spans == raw_spans(source, start),
            read_so_far(entries@, source, start, index as int),
            prefix_nested(spans, index as int),
            open_stack(parents@, spans, index as int),
        decreases count - index,
    {
        close_directories(&mut parents, index, Ghost(spans));
        let top = parents.len() - 1;
        let parent_index = parents[top].index;
        let parent_end = parents[top].next_index;
        proof {
            lemma_stack_top(parents@, spans, index as int);
        }
        if index >= remaining / ENTRY_SIZE {
            proof {
                assert(!has_record(source, start, index as int));
                lemma_first_record_error(source, start, 1, index as int, count as int);
            }
            return Err(FstError::Truncated);
        }
        let at = base + ENTRY_SIZE * index;
        let record = slice_subrange(iso, at, at + ENTRY_SIZE);
        assert(record@ == record_at(source, start, index as int));
        let entry = match Entry::new(record, index, Some(parent_index)) {
            Ok(entry) => entry,
            Err(e) => {
                proof {
                    lemma_first_record_error(source, start, 1, index as int, count as int);
                }
                return Err(e);
            },
        };
        assert(spans[index as int] == raw_span(source, start, index as int));
        let ghost stack = parents@;
        match &entry {
            Entry::File(_) => {},
            Entry::Directory(dir) => {
                if dir.next_index <= index || dir.next_index > parent_end {
                    proof {
                        lemma_first_record_error(source, start, 1, index as int, count as int);
                    }
                    return Err(FstError::InvalidRange { index });
                }
                parents.push(OpenDirectory { index, next_index: dir.next_index });
            },
        }
        proof {
            lemma_stack_step(stack, spans, index as int, parents@, entry is Directory);
            lemma_read_one_more(entries@, entry, source, start, index as int);
        }
        entries.push(entry);
        index += 1;
    }
    proof {
        lemma_read_all(entries@, source, start);
    }
    Ok(entries)
}

} // verus!

verus! {

/// A directory has at most as many children among the first entries as
/// there are entries behind the root.
pub proof fn lemma_count_children_bound(spans: Seq<int>, d: int, upto: int)
    ensures
        count_children(spans, d, upto) <= if upto >= 1 {
            upto - 1
        } else {
            0
        },
    decreases upto,
{
    if upto > 1 {
        lemma_count_children_bound(spans, d, upto - 1);
    }
}

/// Counts, for every directory, the entries that lie in it directly, and
/// writes the number to its `file_count`.
#[verifier::rlimit(40)]
pub fn count_contents(entries: &mut Vec<Entry>)
    requires
        shaped(old(entries)@),
        forall|i: int| 0 <= i < old(entries)@.len() ==> (#[trigger] old(entries)@[i]).spec_file_count() == 0,
    ensures
        final(entries)@.len() == old(entries)@.len(),
        forall|i: int|
            0 <= i < old(entries)@.len() ==> {
                &&& (#[trigger] final(entries)@[i]).kept(old(entries)@[i])
                &&& final(entries)@[i].spec_info() == old(entries)@[i].spec_info()
                &&& final(entries)@[i].spec_file_count() == if old(entries)@[i] is Directory {
                    count_children(spans_of(old(entries)@), i, old(entries)@.len() as int) as int
                } else {
                    0
                }
            },
{
    let ghost before = entries@;
    let ghost spans = spans_of(before);
    let count = entries.len();
    let mut index: usize = 1;
    while index < count
        invariant
            1 <= index <= count,
            count == before.len(),
            entries@.len() == count,
            spans == spans_of(before),
            shaped(before),
            forall|k: int|
                0 <= k < count ==> {
                    &&& (#[trigger] entries@[k]).kept(before[k])
                    &&& entries@[k].spec_info() == before[k].spec_info()
                    &&& entries@[k].spec_file_count() == if before[k] is Directory {
                        count_children(spans, k, index as int) as int
                    } else {
                        0
                    }
                },
        decreases count - index,
    {
        let ghost current = entries@;
        assert(current[index as int].kept(before[index as int]));
        assert(before[index as int].spec_info().directory_index == Some(
            parent_of(spans, index as int) as usize,
        ));
        proof {
            lemma_parent_of(spans, index as int);
        }
        let parent = match entries[index].info().directory_index {
            Some(parent) => parent,
            None => 0,
        };
        assert(parent == parent_of(spans, index as int));
        assert(before[parent as int] is Directory);
        assert(current[parent as int].kept(before[parent as int]));
        proof {
            lemma_count_children_bound(spans, parent as int, index as int);
        }
        match &mut entries[parent] {
            Entry::Directory(dir) => {
                dir.file_count = dir.file_count + 1;
            },
            Entry::File(_) => {},
        }
        assert forall|k: int| 0 <= k < count implies {
            &&& (#[trigger] entries@[k]).kept(before[k])
            &&& entries@[k].spec_info() == before[k].spec_info()
            &&& entries@[k].spec_file_count() == if before[k] is Directory {
                count_children(spans, k, index + 1) as int
            } else {
                0
            }
        } by {
            assert(current[k].kept(before[k]));
            if k != parent {
                assert(entries@[k] == current[k]);
            }
        }
        index += 1;
    }
}

/// The name that the string table holds for entry `i`, with the separator
/// behind it if the entry is a directory.
pub open spec fn name_in_table(source: Seq<u8>, offset: int, i: int, is_directory: bool) -> Seq<u8> {
    let name = name_at(source, name_start(source, offset, i));
    if is_directory {
        name.push(SEPARATOR)
    } else {
        name
    }
}

/// Reads the names of the entries from the string table, which begins
/// behind the last record. Returns how far the table reaches.
#[verifier::rlimit(40)]
pub fn read_names(entries: &mut Vec<Entry>, iso: &[u8], offset: u64) -> (r: Result<usize, FstError>)
    requires
        old(entries)@.len() == table_len(iso@, offset as int),
        old(entries)@.len() >= 1,
        offset + ENTRY_SIZE * old(entries)@.len() <= iso@.len(),
        forall|i: int|
            0 <= i < old(entries)@.len() ==> (#[trigger] old(entries)@[i]).holds_record(
                record_at(iso@, offset as int, i),
            ) && old(entries)@[i].spec_info().index == i,
    ensures
        final(entries)@.len() == old(entries)@.len(),
        forall|i: int|
            0 <= i < old(entries)@.len() ==> {
                &&& (#[trigger] final(entries)@[i]).kept(old(entries)@[i])
                &&& final(entries)@[i].spec_info().full_path == old(
                    entries,
                )@[i].spec_info().full_path
                &&& final(entries)@[i].spec_file_count() == old(entries)@[i].spec_file_count()
            },
        match r {
            Ok(end) => {
                &&& first_name_error(iso@, offset as int, 1, table_len(iso@, offset as int))
                    is None
                &&& end == names_end(iso@, offset as int, table_len(iso@, offset as int))
                &&& offset <= end <= iso@.len()
                &&& final(entries)@[0].name_bytes() == seq![SEPARATOR]
                &&& forall|i: int|
                    1 <= i < old(entries)@.len() ==> (#[trigger] final(entries)@[i]).name_bytes()
                        == name_in_table(iso@, offset as int, i, old(entries)@[i] is Directory)
            },
            Err(e) => first_name_error(iso@, offset as int, 1, table_len(iso@, offset as int))
                == Some(e),
        },
{
    let ghost before = entries@;
    let ghost source = iso@;
    let ghost start = offset as int;
    let count = entries.len();
    let len = iso.len();
    let table = (offset as usize) + ENTRY_SIZE * count;
    let mut end: usize = table;
    let mut index: usize = 0;
    while index < count
        invariant
            0 <= index <= count,
            before == old(entries)@,
            len == iso@.len(),
            count == before.len(),
            count == table_len(source, start),
            entries@.len() == count,
            source == iso@,
            start == offset as int,
            table == names_start(source, start),
            table <= iso@.len(),
            forall|i: int|
                0 <= i < count ==> (#[trigger] before[i]).holds_record(
                    record_at(source, start, i),
                ) && before[i].spec_info().index == i,
            forall|i: int|
                0 <= i < count ==> {
                    &&& (#[trigger] entries@[i]).kept(before[i])
                    &&& entries@[i].spec_info().full_path == before[i].spec_info().full_path
                    &&& entries@[i].spec_file_count() == before[i].spec_file_count()
                },
            forall|i: int| 1 <= i < index ==> name_error(source, start, i) is None,
            end == names_end(source, start, index as int),
            table <= end <= iso@.len(),
            index >= 1 ==> entries@[0].name_bytes() == seq![SEPARATOR],
            forall|i: int|
                1 <= i < index ==> (#[trigger] entries@[i]).name_bytes() == name_in_table(
                    source,
                    start,
                    i,
                    before[i] is Directory,
                ),
        decreases count - index,
    {
        let ghost current = entries@;
        assert(current[index as int].kept(before[index as int]));
        assert(before[index as int].holds_record(record_at(source, start, index as int)));
        let read = entries[index].read_filename(iso, table as u64);
        assert forall|i: int| 0 <= i < count implies {
            &&& (#[trigger] entries@[i]).kept(before[i])
            &&& entries@[i].spec_info().full_path == before[i].spec_info().full_path
            &&& entries@[i].spec_file_count() == before[i].spec_file_count()
        } by {
            assert(current[i].kept(before[i]));
            if i != index {
                assert(entries@[i] == current[i]);
            }
        }
        match read {
            Ok(position) => {
                assert(current[index as int].spec_info().index == index);
                assert(current[index as int].spec_info().filename_offset == crate::bytes::be24(
                    record_at(source, start, index as int).subrange(1, 4),
                ));
                assert(name_start(source, start, index as int) == table
                    + current[index as int].spec_info().filename_offset);
                assert(index >= 1 ==> position == name_end(
                    source,
                    name_start(source, start, index as int),
                ) + 1);
                assert(position <= len);
                if position as usize > end {
                    end = position as usize;
                }
            },
            Err(e) => {
                proof {
                    lemma_first_name_error(source, start, 1, index as int, count as int);
                }
                return Err(e);
            },
        }
        assert forall|i: int| 1 <= i < index + 1 implies (#[trigger] entries@[i]).name_bytes()
            == name_in_table(source, start, i, before[i] is Directory) by {
            if i < index {
                assert(entries@[i] == current[i]);
            }
        }
        assert(index >= 1 ==> entries@[0] == current[0]);
        index += 1;
    }
    proof {
        lemma_first_name_error(source, start, 1, count as int, count as int);
    }
    Ok(end)
}

/// Gives every entry its path: the path of the directory that it lies in,
/// joined with its name.
#[verifier::rlimit(40)]
pub fn fill_paths(entries: &mut Vec<Entry>)
    requires
        parents_precede(old(entries)@),
    ensures
        final(entries)@.len() == old(entries)@.len(),
        forall|i: int|
            0 <= i < old(entries)@.len() ==> {
                &&& (#[trigger] final(entries)@[i]).kept(old(entries)@[i])
                &&& final(entries)@[i].spec_info().name == old(entries)@[i].spec_info().name
                &&& final(entries)@[i].spec_file_count() == old(entries)@[i].spec_file_count()
                &&& encode_utf8(final(entries)@[i].spec_info().full_path@) == path_bytes(
                    final(entries)@,
                    i,
                )
            },
{
    let ghost before = entries@;
    let count = entries.len();
    let mut index: usize = 0;
    while index < count
        invariant
            0 <= index <= count,
            count == before.len(),
            entries@.len() == count,
            parents_precede(before),
            forall|i: int|
                0 <= i < count ==> {
                    &&& (#[trigger] entries@[i]).kept(before[i])
                    &&& entries@[i].spec_info().name == before[i].spec_info().name
                    &&& entries@[i].spec_file_count() == before[i].spec_file_count()
                },
            forall|i: int|
                0 <= i < index ==> encode_utf8((#[trigger] entries@[i]).spec_info().full_path@)
                    == path_bytes(before, i),
        decreases count - index,
    {
        let ghost current = entries@;
        assert(current[index as int].kept(before[index as int]));
        let info = entries[index].info();
        let path = match info.directory_index {
            Some(parent) => {
                assert(parent < index);
                assert(current[parent as int].kept(before[parent as int]));
                let mut path = entries[parent].info().full_path.clone();
                push_joined(&mut path, info.name.as_str());
                path
            },
            None => info.name.clone(),
        };
        assert(encode_utf8(path@) == path_bytes(before, index as int));
        let target = entries[index].info_mut();
        target.full_path = path;
        assert forall|i: int| 0 <= i < count implies {
            &&& (#[trigger] entries@[i]).kept(before[i])
            &&& entries@[i].spec_info().name == before[i].spec_info().name
            &&& entries@[i].spec_file_count() == before[i].spec_file_count()
        } by {
            assert(current[i].kept(before[i]));
            if i != index {
                assert(entries@[i] == current[i]);
            }
        }
        assert forall|i: int| 0 <= i < index + 1 implies encode_utf8(
            (#[trigger] entries@[i]).spec_info().full_path@,
        ) == path_bytes(before, i) by {
            if i < index {
                assert(entries@[i] == current[i]);
            }
        }
        index += 1;
    }
    proof {
        assert forall|i: int| 0 <= i < count implies path_bytes(entries@, i) == path_bytes(
            before,
            i,
        ) by {
            lemma_path_bytes_of_names(entries@, before, i);
        }
    }
}

/// The path of an entry depends only on the names and the directories of
/// the entries up to it.
pub proof fn lemma_path_bytes_of_names(a: Seq<Entry>, b: Seq<Entry>, i: int)
    requires
        0 <= i < a.len() == b.len(),
        forall|k: int|
            0 <= k <= i ==> (#[trigger] a[k]).spec_info().name@ == b[k].spec_info().name@
                && a[k].spec_info().directory_index == b[k].spec_info().directory_index,
    ensures
        path_bytes(a, i) == path_bytes(b, i),
    decreases i,
{
    let parent = a[i].spec_info().directory_index;
    assert(a[i].spec_info().name@ == b[i].spec_info().name@);
    if parent is Some && 0 <= parent->0 < i {
        lemma_path_bytes_of_names(a, b, parent->0 as int);
    }
}

/// No file is longer than `bound`.
pub open spec fn sizes_below(entries: Seq<Entry>, bound: int) -> bool {
    forall|i: int|
        0 <= i < entries.len() ==> ((#[trigger] entries[i]) matches Entry::File(file) ==> file.size
            < bound)
}

/// The files are together no longer than their number allows.
pub proof fn lemma_total_size_bound(entries: Seq<Entry>, upto: int, bound: int)
    requires
        0 <= upto <= entries.len(),
        sizes_below(entries, bound),
        bound >= 0,
    ensures
        total_size(entries, upto) <= upto * bound,
        count_files(entries, upto) <= upto,
    decreases upto,
{
    if upto > 0 {
        lemma_total_size_bound(entries, upto - 1, bound);
        assert((upto - 1) * bound + bound == upto * bound) by (nonlinear_arith);
        assert(entries[upto - 1] matches Entry::File(file) ==> file.size < bound);
    }
}

/// Counts the files and adds up their lengths.
pub fn tally(entries: &Vec<Entry>) -> (r: (usize, u64))
    requires
        entries@.len() < 0x1_0000_0000,
        sizes_below(entries@, 0x1_0000_0000),
    ensures
        r.0 == count_files(entries@, entries@.len() as int),
        r.1 == total_size(entries@, entries@.len() as int),
{
    let mut file_count: usize = 0;
    let mut total: u64 = 0;
    let mut index: usize = 0;
    while index < entries.len()
        invariant
            0 <= index <= entries@.len(),
            entries@.len() < 0x1_0000_0000,
            sizes_below(entries@, 0x1_0000_0000),
            file_count == count_files(entries@, index as int),
            total == total_size(entries@, index as int),
        decreases entries@.len() - index,
    {
        proof {
            lemma_total_size_bound(entries@, index as int, 0x1_0000_0000);
            lemma_total_size_bound(entries@, index + 1, 0x1_0000_0000);
            assert((index + 1) * 0x1_0000_0000 <= 0xffff_ffff * 0x1_0000_0000) by (nonlinear_arith)
                requires
                    index + 1 <= 0xffff_ffff,
            ;
        }
        match &entries[index] {
            Entry::File(file) => {
                file_count = file_count + 1;
                total = total + file.size as u64;
            },
            Entry::Directory(_) => {},
        }
        index += 1;
    }
    (file_count, total)
}

} // verus!
