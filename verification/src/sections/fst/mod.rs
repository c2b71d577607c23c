//! The file system table.

use crate::bytes::{bytes_eq, lemma_encode_concat};
use crate::sections::fst::decode::{
    count_contents, fill_paths, fresh, name_in_table, read_entries, read_names, shaped,
    sizes_below, tally,
};
use crate::sections::fst::encode::{
    insert_ordered, lemma_offset_order_step, names_bytes, offset_order, records_bytes, table_bytes,
    write_stored_name,
};
use crate::sections::fst::entry::{
    lemma_separator_text, spans_of, DirectoryEntry, Entry, EntryInfo, SEPARATOR,
};
use crate::sections::fst::path::{
    behind_segment, entry_at_path, find_child, find_child_from, find_name, first_segment,
    lemma_segment_len, resolve, segment_len,
};
use crate::sections::fst::source::{decode_error, names_end, record_at, table_len};
use crate::sections::fst::tree::{count_children, lemma_parent_of, nested, parent_of};
use vstd::slice::slice_subrange;
use vstd::prelude::*;
use vstd::string::StringExecFns;
use vstd::utf8::encode_utf8;

pub mod contents;
pub mod decode;
pub mod encode;
pub mod entry;
pub mod extract;
pub mod path;
pub mod resolve;
pub mod roundtrip;
pub mod source;
pub mod tree;

verus! {

/// Where the offset of the table stands in the header of the image.
pub const FST_OFFSET_OFFSET: u64 = 0x0424;

/// Where the size of the table stands in the header of the image.
pub const FST_SIZE_OFFSET: u64 = 0x0428;

/// Why a table could not be decoded.
#[derive(Debug, Clone, Copy, PartialEq, Eq, Structural)]
pub enum FstError {
    /// The source ends before the record or the name does.
    Truncated,
    /// The tag byte of the record at `index` names neither a file nor a directory.
    InvalidTag { index: usize, byte: u8 },
    /// The first record is that of a file.
    RootNotDirectory,
    /// The directory at `index` does not end behind itself and inside the
    /// directory that it lies in.
    InvalidRange { index: usize },
    /// The name of the entry at `index` is no UTF-8 text.
    InvalidName { index: usize },
}

/// The file system table of an image: the entries in the order of the
/// table, the root first.
pub struct FST {
    /// Where the table begins in the image.
    pub offset: u64,
    /// The number of files; directories do not count.
    pub file_count: usize,
    /// The lengths of all files, added up.
    pub total_file_system_size: u64,
    pub entries: Vec<Entry>,
    /// The length of the table in bytes, records and names.
    pub size: usize,
}

/// How many of the first `upto` entries are files.
pub open spec fn count_files(entries: Seq<Entry>, upto: int) -> nat
    decreases upto,
{
    if upto <= 0 {
        0
    } else {
        count_files(entries, upto - 1) + if entries[upto - 1] is File {
            1nat
        } else {
            0nat
        }
    }
}

/// The lengths of the files among the first `upto` entries, added up.
pub open spec fn total_size(entries: Seq<Entry>, upto: int) -> nat
    decreases upto,
{
    if upto <= 0 {
        0
    } else {
        total_size(entries, upto - 1) + match entries[upto - 1] {
            Entry::File(file) => file.size as nat,
            Entry::Directory(_) => 0nat,
        }
    }
}

/// A path and a name, joined: with a separator between them unless the path
/// is empty or ends with one.
pub open spec fn join_path(path: Seq<u8>, name: Seq<u8>) -> Seq<u8> {
    if path.len() == 0 || path.last() == SEPARATOR {
        path + name
    } else {
        path.push(SEPARATOR) + name
    }
}

/// The path of entry `i`: the names from the root down to it, joined.
pub open spec fn path_bytes(entries: Seq<Entry>, i: int) -> Seq<u8>
    decreases i,
{
    let parent = entries[i].spec_info().directory_index;
    if parent is Some && 0 <= parent->0 < i {
        join_path(path_bytes(entries, parent->0 as int), entries[i].name_bytes())
    } else {
        entries[i].name_bytes()
    }
}

/// Every entry but the root lies in a directory that comes before it.
pub open spec fn parents_precede(entries: Seq<Entry>) -> bool {
    forall|i: int|
        0 <= i < entries.len() ==> ((#[trigger] entries[i]).spec_info().directory_index matches Some(
            p,
        ) ==> p < i)
}

/// Entries that have the shape of a tree lie behind their directories.
pub proof fn lemma_shaped_parents_precede(entries: Seq<Entry>)
    requires
        shaped(entries),
    ensures
        parents_precede(entries),
{
    assert forall|i: int| 0 <= i < entries.len() implies ((
    #[trigger] entries[i]).spec_info().directory_index matches Some(p) ==> p < i) by {
        if i >= 1 {
            lemma_parent_of(spans_of(entries), i);
        }
    }
}

/// Entries that differ from entries with the shape of a tree in name, path
/// and `file_count` only have that shape too, with the same spans.
pub proof fn lemma_kept_shaped(a: Seq<Entry>, b: Seq<Entry>)
    requires
        a.len() == b.len(),
        shaped(a),
        forall|i: int| 0 <= i < a.len() ==> (#[trigger] b[i]).kept(a[i]),
    ensures
        spans_of(b) == spans_of(a),
        shaped(b),
{
    assert forall|i: int| 0 <= i < a.len() implies spans_of(b)[i] == spans_of(a)[i] by {
        assert(b[i].kept(a[i]));
    }
    assert(spans_of(b) =~= spans_of(a));
    assert(b[0].kept(a[0]));
    assert forall|i: int| 0 <= i < b.len() implies (#[trigger] b[i]).spec_info().index == i by {
        assert(b[i].kept(a[i]));
    }
    assert forall|i: int| 1 <= i < b.len() implies (#[trigger] b[i]).spec_info().directory_index
        == Some(parent_of(spans_of(b), i) as usize) by {
        assert(b[i].kept(a[i]));
    }
}

/// Appends `name` to `path`, with a separator between them unless `path` is
/// empty or ends with one.
pub fn push_joined(path: &mut String, name: &str)
    ensures
        encode_utf8(final(path)@) == join_path(encode_utf8(old(path)@), encode_utf8(name@)),
{
    let ghost start = path@;
    let bytes = path.as_str().as_bytes();
    let len = bytes.len();
    let needs_separator = len > 0 && bytes[len - 1] != SEPARATOR;
    if needs_separator {
        path.append("/");
        proof {
            lemma_separator_text();
            lemma_encode_concat(start, "/"@);
        }
    }
    let ghost middle = path@;
    path.append(name);
    proof {
        lemma_encode_concat(middle, name@);
    }
}

impl FST {
    /// The spans of the entries.
    pub open spec fn spans(&self) -> Seq<int> {
        spans_of(self.entries@)
    }

    /// The table is in order: the entries have the shape of a tree, every
    /// directory knows how many entries lie in it, every entry its path, and
    /// the table how many files it has and how long they are together.
    pub open spec fn well_formed(&self) -> bool {
        let entries = self.entries@;
        &&& shaped(entries)
        &&& forall|i: int|
            0 <= i < entries.len() ==> (#[trigger] entries[i]).spec_file_count() == if entries[i]
                is Directory {
                count_children(spans_of(entries), i, entries.len() as int) as int
            } else {
                0
            }
        &&& forall|i: int|
            0 <= i < entries.len() ==> encode_utf8((#[trigger] entries[i]).spec_info().full_path@)
                == path_bytes(entries, i)
        &&& self.file_count == count_files(entries, entries.len() as int)
        &&& self.total_file_system_size == total_size(entries, entries.len() as int)
    }

    /// The table is the one that lies at `offset` in `source`: every entry
    /// holds what its record says and has the name that the string table
    /// gives it, the root is named by the separator, and the table is in order.
    pub open spec fn stored_at(&self, source: Seq<u8>, offset: int) -> bool {
        let entries = self.entries@;
        &&& self.offset == offset
        &&& entries.len() == table_len(source, offset)
        &&& self.well_formed()
        &&& forall|i: int|
            0 <= i < entries.len() ==> (#[trigger] entries[i]).holds_record(
                record_at(source, offset, i),
            )
        &&& entries[0].name_bytes() == seq![SEPARATOR]
        &&& forall|i: int|
            1 <= i < entries.len() ==> (#[trigger] entries[i]).name_bytes() == name_in_table(
                source,
                offset,
                i,
                entries[i] is Directory,
            )
        &&& self.size == names_end(source, offset, entries.len() as int) - offset
    }

    /// Decodes the table that begins at `offset` in `iso`.
    ///
    /// The first record is the root's; it must be a directory, and says how
    /// many entries there are. The records follow one another; behind the
    /// last the string table begins, from which every entry but the root
    /// gets its name. Every directory learns how many entries lie in it,
    /// every entry its path. The size of the table reaches from `offset` to
    /// behind the name that ends last.
    ///
    /// Fails where the source ends too early, a tag byte is none, the root
    /// is a file, a directory does not end inside the one that it lies in,
    /// or a name is no UTF-8 text: with the first of these that it meets,
    /// the records before the names.
    #[verifier::rlimit(40)]
    pub fn new(iso: &[u8], offset: u64) -> (r: Result<FST, FstError>)
        ensures
            match r {
                Ok(fst) => decode_error(iso@, offset as int) is None && fst.stored_at(
                    iso@,
                    offset as int,
                ),
                Err(e) => decode_error(iso@, offset as int) == Some(e),
            },
    {
        let mut entries = match read_entries(iso, offset) {
            Ok(entries) => entries,
            Err(e) => {
                return Err(e);
            },
        };
        let ghost read = entries@;
        count_contents(&mut entries);
        let ghost counted = entries@;
        assert forall|i: int| 0 <= i < counted.len() implies (#[trigger] counted[i]).holds_record(
            record_at(iso@, offset as int, i),
        ) && counted[i].spec_info().index == i by {
            assert(counted[i].kept(read[i]));
            assert(fresh(read[i], record_at(iso@, offset as int, i)));
        }
        let end = match read_names(&mut entries, iso, offset) {
            Ok(end) => end,
            Err(e) => {
                return Err(e);
            },
        };
        let ghost named = entries@;
        proof {
            assert forall|i: int| 0 <= i < named.len() implies (#[trigger] named[i]).kept(
                read[i],
            ) by {
                assert(named[i].kept(counted[i]));
                assert(counted[i].kept(read[i]));
            }
            lemma_kept_shaped(read, named);
            lemma_shaped_parents_precede(named);
        }
        fill_paths(&mut entries);
        let ghost done = entries@;
        proof {
            assert forall|i: int| 0 <= i < done.len() implies (#[trigger] done[i]).kept(
                read[i],
            ) by {
                assert(done[i].kept(named[i]));
                assert(named[i].kept(read[i]));
            }
            lemma_kept_shaped(read, done);
            assert forall|i: int| 0 <= i < done.len() implies (#[trigger] done[i]).holds_record(
                record_at(iso@, offset as int, i),
            ) by {
                assert(done[i].kept(read[i]));
                assert(fresh(read[i], record_at(iso@, offset as int, i)));
            }
            assert(sizes_below(done, 0x1_0000_0000)) by {
                assert forall|i: int| 0 <= i < done.len() implies ((
                #[trigger] done[i]) matches Entry::File(file) ==> file.size < 0x1_0000_0000) by {
                    assert(done[i].holds_record(record_at(iso@, offset as int, i)));
                }
            }
            assert forall|i: int| 0 <= i < done.len() implies (
            #[trigger] done[i]).spec_file_count() == if done[i] is Directory {
                count_children(spans_of(done), i, done.len() as int) as int
            } else {
                0
            } by {
                assert(done[i].kept(named[i]));
                assert(named[i].kept(counted[i]));
                assert(counted[i].kept(read[i]));
            }
            assert(done[0].name_bytes() == named[0].name_bytes());
            assert forall|i: int| 1 <= i < done.len() implies (#[trigger] done[i]).name_bytes()
                == name_in_table(iso@, offset as int, i, done[i] is Directory) by {
                assert(done[i].kept(named[i]));
                assert(named[i].kept(counted[i]));
                assert(counted[i].kept(read[i]));
                assert(done[i].name_bytes() == named[i].name_bytes());
            }
        }
        let (file_count, total_file_system_size) = tally(&entries);
        let size = end - offset as usize;
        Ok(FST { offset, file_count, total_file_system_size, entries, size })
    }

    /// Writes the table to the end of `writer`: the records in the order of
    /// the table, the root's first, then the names of all entries but the
    /// root, ordered by their offsets, each with a zero byte behind it. The
    /// name of a directory is written without the separator at its end.
    #[verifier::rlimit(40)]
    pub fn write(&self, writer: &mut Vec<u8>)
        ensures
            final(writer)@ == old(writer)@ + table_bytes(self.entries@),
    {
        let count = self.entries.len();
        let mut order: Vec<usize> = Vec::new();
        let mut index: usize = 0;
        while index < count
            invariant
                0 <= index <= count,
                count == self.entries@.len(),
                writer@ == old(writer)@ + records_bytes(self.entries@, index as int),
                order@ == offset_order(self.entries@, index as int),
                forall|j: int| 0 <= j < order@.len() ==> #[trigger] order@[j] < count,
            decreases count - index,
        {
            self.entries[index].write(writer);
            if index >= 1 {
                insert_ordered(&mut order, &self.entries, index);
                proof {
                    lemma_offset_order_step(self.entries@, index as int);
                }
            }
            assert(writer@ =~= old(writer)@ + records_bytes(self.entries@, index + 1));
            index += 1;
        }
        let ghost records = writer@;
        let mut written: usize = 0;
        while written < order.len()
            invariant
                0 <= written <= order@.len(),
                forall|j: int| 0 <= j < order@.len() ==> #[trigger] order@[j] < self.entries@.len(),
                writer@ == records + names_bytes(
                    self.entries@,
                    order@.subrange(0, written as int),
                ),
            decreases order@.len() - written,
        {
            write_stored_name(&self.entries[order[written]], writer);
            proof {
                let before = order@.subrange(0, written as int);
                let after = order@.subrange(0, written + 1);
                assert(after.drop_last() =~= before);
                assert(after.last() == order@[written as int]);
                assert(writer@ =~= records + names_bytes(self.entries@, after));
            }
            written += 1;
        }
        assert(order@.subrange(0, written as int) =~= order@);
        assert(writer@ =~= old(writer)@ + table_bytes(self.entries@));
    }

    /// The root.
    pub fn root(&self) -> (r: &DirectoryEntry)
        requires
            self.entries@.len() > 0,
            self.entries@[0] is Directory,
        ensures
            Entry::Directory(*r) == self.entries@[0],
    {
        match &self.entries[0] {
            Entry::Directory(dir) => dir,
            Entry::File(_) => vstd::pervasive::unreached(),
        }
    }

    /// The first entry with the given name among those that lie in the
    /// directory at `directory` directly.
    pub fn child_with_name(&self, directory: usize, name: &[u8]) -> (r: Option<usize>)
        requires
            nested(self.spans()),
            directory < self.entries@.len(),
        ensures
            match find_child(self.entries@, directory as int, name@) {
                Some(i) => r == Some(i as usize) && 0 <= i < self.entries@.len(),
                None => r is None,
            },
    {
        let ghost spans = self.spans();
        let end = match &self.entries[directory] {
            Entry::Directory(dir) => dir.next_index,
            Entry::File(_) => directory + 1,
        };
        assert(end == spans[directory as int]);
        let mut cursor = directory + 1;
        while cursor < end
            invariant
                directory < cursor <= end,
                end == spans[directory as int],
                end <= self.entries@.len(),
                spans == self.spans(),
                nested(spans),
                find_child(self.entries@, directory as int, name@) == find_child_from(
                    self.entries@,
                    cursor as int,
                    end as int,
                    name@,
                ),
                cursor < end ==> spans[cursor as int] <= end,
            decreases end - cursor,
        {
            let entry = &self.entries[cursor];
            if bytes_eq(entry.info().name.as_str().as_bytes(), name) {
                return Some(cursor);
            }
            let next = match entry {
                Entry::Directory(dir) => dir.next_index,
                Entry::File(_) => cursor + 1,
            };
            assert(next == spans[cursor as int]);
            proof {
                if next < end {
                    assert(spans[next as int] <= spans[cursor as int] || spans[next as int] <= end) by {
                        crate::sections::fst::tree::lemma_parent_inside(
                            spans,
                            directory as int,
                            next as int,
                        );
                        assert(spans[next as int] <= spans[directory as int]);
                    }
                }
            }
            cursor = next;
        }
        None
    }

    /// The first entry with the given name among all that lie below the
    /// directory, in the order of the table: the entries that lie in it
    /// directly and, behind each directory among them, what lies below that.
    pub fn entry_with_name(&self, name: &str, dir: &DirectoryEntry) -> (r: Option<&Entry>)
        requires
            dir.info.index < dir.next_index <= self.entries@.len(),
        ensures
            match find_name(
                self.entries@,
                encode_utf8(name@),
                dir.info.index + 1,
                dir.next_index as int,
            ) {
                Some(i) => r == Some(&self.entries@[i]),
                None => r is None,
            },
    {
        let wanted = name.as_bytes();
        let mut index = dir.info.index + 1;
        while index < dir.next_index
            invariant
                dir.info.index < index <= dir.next_index <= self.entries@.len(),
                wanted@ == encode_utf8(name@),
                find_name(
                    self.entries@,
                    encode_utf8(name@),
                    dir.info.index + 1,
                    dir.next_index as int,
                ) == find_name(
                    self.entries@,
                    encode_utf8(name@),
                    index as int,
                    dir.next_index as int,
                ),
            decreases dir.next_index - index,
        {
            let entry = &self.entries[index];
            if bytes_eq(entry.info().name.as_str().as_bytes(), wanted) {
                return Some(entry);
            }
            index += 1;
        }
        None
    }

    /// The entry that a path names. A path that begins with the separator
    /// is followed from the root, segment by segment; a segment reaches up
    /// to and with the next separator, and must be the name of an entry
    /// that lies directly in the directory reached so far. Any other path
    /// is taken as one name: that of the first entry of the table, the root
    /// apart, that has it.
    pub fn entry_for_path(&self, path: &str) -> (r: Option<&Entry>)
        requires
            shaped(self.entries@),
        ensures
            match entry_at_path(self.entries@, encode_utf8(path@)) {
                Some(i) => 0 <= i < self.entries@.len() && r == Some(&self.entries@[i]),
                None => r is None,
            },
    {
        match self.index_for_path(path) {
            Some(index) => Some(&self.entries[index]),
            None => None,
        }
    }

    /// The index of the entry that a path names, as `entry_for_path` finds it.
    #[verifier::rlimit(40)]
    pub fn index_for_path(&self, path: &str) -> (r: Option<usize>)
        requires
            shaped(self.entries@),
        ensures
            match entry_at_path(self.entries@, encode_utf8(path@)) {
                Some(i) => 0 <= i < self.entries@.len() && r == Some(i as usize),
                None => r is None,
            },
    {
        let bytes = path.as_bytes();
        let len = bytes.len();
        if len == 0 || bytes[0] != SEPARATOR {
            let root = self.root();
            assert(self.spans()[0] == root.next_index);
            assert(root.info == self.entries@[0].spec_info());
            proof {
                crate::sections::fst::path::lemma_find_name(
                    self.entries@,
                    encode_utf8(path@),
                    1,
                    self.entries@.len() as int,
                );
            }
            return match self.entry_with_name(path, root) {
                Some(entry) => Some(entry.info().index),
                None => None,
            };
        }
        let ghost whole = bytes@.drop_first();
        let mut at: usize = 1;
        let mut current: usize = 0;
        while at < len
            invariant
                1 <= at <= len,
                len == bytes@.len(),
                bytes@ == encode_utf8(path@),
                bytes@[0] == SEPARATOR,
                whole == bytes@.drop_first(),
                current < self.entries@.len(),
                nested(self.spans()),
                resolve(self.entries@, 0, whole) == resolve(
                    self.entries@,
                    current as int,
                    bytes@.subrange(at as int, len as int),
                ),
            decreases len - at,
        {
            let ghost rest = bytes@.subrange(at as int, len as int);
            proof {
                lemma_segment_len(rest);
            }
            if !self.entries[current].is_dir() {
                return None;
            }
            let mut end = at;
            while end < len && bytes[end] != SEPARATOR
                invariant
                    at <= end <= len,
                    len == bytes@.len(),
                    rest == bytes@.subrange(at as int, len as int),
                    segment_len(rest) == (end - at) + segment_len(
                        bytes@.subrange(end as int, len as int),
                    ),
                decreases len - end,
            {
                assert(bytes@.subrange(end as int, len as int).drop_first() =~= bytes@.subrange(
                    end + 1,
                    len as int,
                ));
                end += 1;
            }
            if end < len {
                assert(bytes@.subrange(end as int, len as int)[0] == SEPARATOR);
                end += 1;
            }
            assert(segment_len(rest) == end - at);
            let segment = slice_subrange(bytes, at, end);
            assert(segment@ =~= first_segment(rest));
            assert(bytes@.subrange(end as int, len as int) =~= behind_segment(rest));
            match self.child_with_name(current, segment) {
                Some(child) => {
                    current = child;
                },
                None => {
                    return None;
                },
            }
            at = end;
        }
        assert(bytes@.subrange(at as int, len as int) =~= Seq::<u8>::empty());
        Some(current)
    }

    /// The path of the entry at `index`, built from the names.
    pub fn path_to(&self, index: usize) -> (path: String)
        requires
            index < self.entries@.len(),
            parents_precede(self.entries@),
        ensures
            encode_utf8(path@) == path_bytes(self.entries@, index as int),
        decreases index,
    {
        let info = self.entries[index].info();
        match info.directory_index {
            Some(parent) => {
                let mut path = self.path_to(parent);
                push_joined(&mut path, info.name.as_str());
                path
            },
            None => info.name.clone(),
        }
    }

    /// The directory that the entry lies in, if it lies in one.
    pub fn get_parent_for_entry(&self, entry: &EntryInfo) -> (r: Option<&Entry>)
        requires
            entry.directory_index matches Some(parent) ==> parent < self.entries@.len(),
        ensures
            match entry.directory_index {
                Some(parent) => r == Some(&self.entries@[parent as int]),
                None => r is None,
            },
    {
        match entry.directory_index {
            Some(parent) => Some(&self.entries[parent]),
            None => None,
        }
    }

    /// The path of an entry: the path of the directory that it lies in,
    /// joined with its name; the name alone if it lies in none.
    pub fn get_full_path(&self, entry: &EntryInfo) -> (path: String)
        requires
            entry.directory_index matches Some(parent) ==> parent < self.entries@.len(),
            parents_precede(self.entries@),
        ensures
            encode_utf8(path@) == match entry.directory_index {
                Some(parent) => join_path(
                    path_bytes(self.entries@, parent as int),
                    encode_utf8(entry.name@),
                ),
                None => encode_utf8(entry.name@),
            },
    {
        match entry.directory_index {
            Some(parent) => {
                let mut path = self.path_to(parent);
                push_joined(&mut path, entry.name.as_str());
                path
            },
            None => entry.name.clone(),
        }
    }
}

impl crate::sections::Section for FST {
    open spec fn spec_start(&self) -> u64 {
        self.offset
    }

    open spec fn spec_size(&self) -> usize {
        self.size
    }

    fn start(&self) -> u64 {
        self.offset
    }

    fn size(&self) -> usize {
        self.size
    }
}

impl crate::sections::Section for crate::sections::fst::entry::FileEntry {
    open spec fn spec_start(&self) -> u64 {
        self.file_offset
    }

    open spec fn spec_size(&self) -> usize {
        self.size
    }

    fn start(&self) -> u64 {
        self.file_offset
    }

    fn size(&self) -> usize {
        self.size
    }
}

} // verus!
