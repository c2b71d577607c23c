//! The entries of the file system table and their 12-byte records.

use crate::bytes::{be24, be32, be_bytes, read_u24_be, read_u32_be, write_int_to_buffer};
use crate::bytes::{lemma_be_bytes_len, lemma_bytes_of_be24, lemma_bytes_of_be32};
use crate::bytes::{lemma_be24_of_bytes, lemma_be32_of_bytes};
use crate::bytes::{lemma_encode_concat, string_from_utf8};
use crate::sections::fst::source::{lemma_name_end_from, name_at, name_end};
use crate::sections::fst::tree::{
    at_child, children, children_from, lemma_walk_begins, lemma_walk_step, nested,
};
use crate::sections::fst::FstError;
use vstd::prelude::*;
use vstd::slice::{slice_subrange, slice_to_vec};
use vstd::string::StringExecFns;
use vstd::utf8::{encode_utf8, valid_utf8};

verus! {

/// The length of one record of the table.
pub const ENTRY_SIZE: usize = 12;

/// The byte that parts the names of a path, and ends the name of a directory.
pub const SEPARATOR: u8 = 0x2f;

/// The separator, as a text, encodes to the separator byte alone.
pub proof fn lemma_separator_text()
    ensures
        encode_utf8("/"@) == seq![SEPARATOR],
{
    reveal_strlit("/");
    let text = "/"@;
    assert(text =~= seq!['/']);
    assert(vstd::utf8::is_ascii_chars(text));
    vstd::utf8::is_ascii_chars_encode_utf8(text);
    assert(encode_utf8(text) =~= seq![SEPARATOR]);
}

/// What a file and a directory have in common.
pub struct EntryInfo {
    /// The place of the entry in the table.
    pub index: usize,
    /// The name; that of a directory ends with the separator.
    pub name: String,
    /// Where the name begins in the string table. Without meaning for the root.
    pub filename_offset: u64,
    /// The directory that the entry lies in; the root lies in none.
    pub directory_index: Option<usize>,
    /// The names from the root down to the entry, joined.
    pub full_path: String,
}

/// A file: where its contents begin in the image, and how long they are.
pub struct FileEntry {
    pub info: EntryInfo,
    pub file_offset: u64,
    pub size: usize,
}

/// A directory. `next_index` is the index of the first entry behind
/// everything that lies below the directory; for the root this is the number
/// of entries. `file_count` is the number of entries that lie in it directly.
pub struct DirectoryEntry {
    pub info: EntryInfo,
    pub parent_index: usize,
    pub next_index: usize,
    pub file_count: usize,
}

/// An entry of the table.
pub enum Entry {
    File(FileEntry),
    Directory(DirectoryEntry),
}

/// The index behind the span of the entry that stands at `at`: a file spans
/// itself alone, a directory all up to its `next_index`.
pub open spec fn span_end(entry: Entry, at: int) -> int {
    match entry {
        Entry::File(_) => at + 1,
        Entry::Directory(dir) => dir.next_index as int,
    }
}

/// The spans of the entries of a table.
pub open spec fn spans_of(entries: Seq<Entry>) -> Seq<int> {
    Seq::new(entries.len(), |i: int| span_end(entries[i], i))
}

impl Entry {
    /// The part that both kinds have.
    pub open spec fn spec_info(&self) -> EntryInfo {
        match self {
            Entry::File(file) => file.info,
            Entry::Directory(dir) => dir.info,
        }
    }

    /// The name as UTF-8.
    pub open spec fn name_bytes(&self) -> Seq<u8> {
        encode_utf8(self.spec_info().name@)
    }

    /// The first byte of the record.
    pub open spec fn tag(&self) -> u8 {
        match self {
            Entry::File(_) => 0u8,
            Entry::Directory(_) => 1u8,
        }
    }

    /// The number in bytes 4 to 7 of the record.
    pub open spec fn second_field(&self) -> int {
        match self {
            Entry::File(file) => file.file_offset as int,
            Entry::Directory(dir) => dir.parent_index as int,
        }
    }

    /// The number in bytes 8 to 11 of the record.
    pub open spec fn third_field(&self) -> int {
        match self {
            Entry::File(file) => file.size as int,
            Entry::Directory(dir) => dir.next_index as int,
        }
    }

    /// The record of the entry: the tag, the name's offset cut to 24 bits,
    /// and the two fields of its kind, cut to 32 bits each.
    pub open spec fn record(&self) -> Seq<u8> {
        seq![self.tag()] + be_bytes(self.spec_info().filename_offset as int, 3) + be_bytes(
            self.second_field(),
            4,
        ) + be_bytes(self.third_field(), 4)
    }

    /// The entry holds what the record says: the kind that the tag names and
    /// the three numbers.
    pub open spec fn holds_record(&self, record: Seq<u8>) -> bool {
        &&& record.len() == ENTRY_SIZE
        &&& record[0] == self.tag()
        &&& self.spec_info().filename_offset == be24(record.subrange(1, 4))
        &&& self.second_field() == be32(record.subrange(4, 8))
        &&& self.third_field() == be32(record.subrange(8, 12))
    }

    /// The numbers of the entry fit the widths that a record has for them.
    pub open spec fn fits_record(&self) -> bool {
        &&& self.spec_info().filename_offset < 0x100_0000
        &&& self.second_field() < 0x1_0000_0000
        &&& self.third_field() < 0x1_0000_0000
    }

    /// Both entries are of one kind and hold the same, the texts compared by
    /// their characters.
    pub open spec fn same_as(&self, other: Entry) -> bool {
        &&& self.tag() == other.tag()
        &&& self.second_field() == other.second_field()
        &&& self.third_field() == other.third_field()
        &&& self.spec_info().index == other.spec_info().index
        &&& self.spec_info().name@ == other.spec_info().name@
        &&& self.spec_info().filename_offset == other.spec_info().filename_offset
        &&& self.spec_info().directory_index == other.spec_info().directory_index
        &&& self.spec_info().full_path@ == other.spec_info().full_path@
        &&& self.spec_file_count() == other.spec_file_count()
    }

    /// Both entries hold the same numbers and stand at the same place: they
    /// differ at most in name, path and `file_count`.
    pub open spec fn kept(&self, other: Entry) -> bool {
        &&& self.tag() == other.tag()
        &&& self.second_field() == other.second_field()
        &&& self.third_field() == other.third_field()
        &&& self.spec_info().index == other.spec_info().index
        &&& self.spec_info().filename_offset == other.spec_info().filename_offset
        &&& self.spec_info().directory_index == other.spec_info().directory_index
    }

    /// The number of entries that lie in the directory directly, as the
    /// entry has it; 0 for a file.
    pub open spec fn spec_file_count(&self) -> int {
        match self {
            Entry::File(_) => 0,
            Entry::Directory(dir) => dir.file_count as int,
        }
    }

    /// The name as it stands in the string table: that of a directory
    /// without the separator at its end.
    pub open spec fn stored_name(&self) -> Seq<u8> {
        let name = self.name_bytes();
        if *self is Directory && name.len() > 0 && name.last() == SEPARATOR {
            name.drop_last()
        } else {
            name
        }
    }

    /// Decodes one record. The tag byte says whether it is a file (0) or a
    /// directory (1); any other tag is refused. Name and path stay empty, and
    /// a directory's `file_count` 0: the record does not hold them.
    pub fn new(entry: &[u8], index: usize, directory_index: Option<usize>) -> (r: Result<
        Self,
        FstError,
    >)
        requires
            entry@.len() == ENTRY_SIZE,
        ensures
            entry@[0] > 1 ==> r == Err::<Self, FstError>(
                FstError::InvalidTag { index, byte: entry@[0] },
            ),
            entry@[0] <= 1 ==> r is Ok,
            r matches Ok(e) ==> {
                &&& e.holds_record(entry@)
                &&& e.spec_info().index == index
                &&& e.spec_info().directory_index == directory_index
                &&& e.spec_info().name@ == Seq::<char>::empty()
                &&& e.spec_info().full_path@ == Seq::<char>::empty()
                &&& (e matches Entry::Directory(dir) ==> dir.file_count == 0)
            },
    {
        let filename_offset = read_u24_be(slice_subrange(entry, 1, 4)) as u64;
        let f2 = read_u32_be(slice_subrange(entry, 4, 8));
        let f3 = read_u32_be(slice_subrange(entry, 8, 12));
        let info = EntryInfo {
            index,
            name: String::new(),
            filename_offset,
            directory_index,
            full_path: String::new(),
        };
        let tag = entry[0];
        if tag == 0 {
            Ok(Entry::File(FileEntry { info, file_offset: f2 as u64, size: f3 as usize }))
        } else if tag == 1 {
            Ok(
                Entry::Directory(
                    DirectoryEntry {
                        info,
                        parent_index: f2 as usize,
                        next_index: f3 as usize,
                        file_count: 0,
                    },
                ),
            )
        } else {
            Err(FstError::InvalidTag { index, byte: tag })
        }
    }

    /// Writes the record of the entry to the end of `output`.
    pub fn write(&self, output: &mut Vec<u8>)
        ensures
            final(output)@ == old(output)@ + self.record(),
    {
        let name_offset = self.info().filename_offset;
        if self.is_dir() {
            output.push(1);
        } else {
            output.push(0);
        }
        write_int_to_buffer(name_offset, output, 3);
        match self {
            Entry::File(file) => {
                write_int_to_buffer(file.file_offset, output, 4);
                write_int_to_buffer(file.size as u64, output, 4);
            },
            Entry::Directory(dir) => {
                write_int_to_buffer(dir.parent_index as u64, output, 4);
                write_int_to_buffer(dir.next_index as u64, output, 4);
            },
        }
        assert(output@ =~= old(output)@ + self.record());
    }

    /// Reads the name of the entry from the string table, which begins at
    /// `str_tbl_addr` in `reader`: the bytes from the entry's
    /// `filename_offset` on, up to the next zero byte, as UTF-8 text. A
    /// directory gets the separator behind its name. The root is named by
    /// the separator alone, and nothing is read for it. Returns the position
    /// behind what was read: behind the zero byte, or `str_tbl_addr` for the root.
    pub fn read_filename(&mut self, reader: &[u8], str_tbl_addr: u64) -> (r: Result<u64, FstError>)
        ensures
            final(self).kept(*old(self)),
            final(self).spec_info().full_path == old(self).spec_info().full_path,
            final(self).spec_file_count() == old(self).spec_file_count(),
            old(self).spec_info().index == 0 ==> r == Ok::<u64, FstError>(str_tbl_addr)
                && final(self).name_bytes() == seq![SEPARATOR],
            old(self).spec_info().index != 0 ==> ({
                let start = str_tbl_addr + old(self).spec_info().filename_offset;
                let end = name_end(reader@, start);
                if end >= reader@.len() {
                    r == Err::<u64, FstError>(FstError::Truncated)
                } else if !valid_utf8(name_at(reader@, start)) {
                    r == Err::<u64, FstError>(
                        FstError::InvalidName { index: old(self).spec_info().index },
                    )
                } else {
                    &&& r matches Ok(position)
                    &&& position == end + 1
                    &&& final(self).name_bytes() == if *old(self) is Directory {
                        name_at(reader@, start).push(SEPARATOR)
                    } else {
                        name_at(reader@, start)
                    }
                }
            }),
            r is Err ==> *final(self) == *old(self),
    {
        let is_directory = self.is_dir();
        let index = self.info().index;
        if index == 0 {
            proof {
                lemma_separator_text();
            }
            let info = self.info_mut();
            info.name = String::from_str("/");
            return Ok(str_tbl_addr);
        }
        let len = reader.len();
        let start = match str_tbl_addr.checked_add(self.info().filename_offset) {
            Some(start) => start,
            None => {
                return Err(FstError::Truncated);
            },
        };
        if start >= len as u64 {
            return Err(FstError::Truncated);
        }
        let first = start as usize;
        let mut end = first;
        while end < len && reader[end] != 0
            invariant
                first <= end <= len,
                len == reader@.len(),
                forall|k: int| first <= k < end ==> reader@[k] != 0,
            decreases len - end,
        {
            end += 1;
        }
        proof {
            lemma_name_end_from(reader@, first as int, end as int);
        }
        if end >= len {
            return Err(FstError::Truncated);
        }
        let bytes = slice_to_vec(slice_subrange(reader, first, end));
        assert(bytes@ == name_at(reader@, first as int));
        let mut name = match string_from_utf8(bytes) {
            Some(name) => name,
            None => {
                return Err(FstError::InvalidName { index });
            },
        };
        proof {
            vstd::utf8::decode_utf8_encode_utf8(name_at(reader@, first as int));
        }
        if is_directory {
            let ghost before = name@;
            name.append("/");
            proof {
                lemma_separator_text();
                lemma_encode_concat(before, "/"@);
            }
        }
        let info = self.info_mut();
        info.name = name;
        Ok((end + 1) as u64)
    }

    pub fn info(&self) -> (r: &EntryInfo)
        ensures
            *r == self.spec_info(),
    {
        match self {
            Entry::File(file) => &file.info,
            Entry::Directory(dir) => &dir.info,
        }
    }

    pub fn info_mut(&mut self) -> (r: &mut EntryInfo)
        ensures
            *r == old(self).spec_info(),
            final(self).spec_info() == *final(r),
            match *old(self) {
                Entry::File(file) => *final(self) == Entry::File(
                    FileEntry { info: *final(r), ..file },
                ),
                Entry::Directory(dir) => *final(self) == Entry::Directory(
                    DirectoryEntry { info: *final(r), ..dir },
                ),
            },
    {
        match self {
            Entry::File(file) => &mut file.info,
            Entry::Directory(dir) => &mut dir.info,
        }
    }

    pub fn as_dir(&self) -> (r: Option<&DirectoryEntry>)
        ensures
            match *self {
                Entry::Directory(dir) => r == Some(&dir),
                Entry::File(_) => r is None,
            },
    {
        match self {
            Entry::Directory(dir) => Some(dir),
            _ => None,
        }
    }

    pub fn as_file(&self) -> (r: Option<&FileEntry>)
        ensures
            match *self {
                Entry::File(file) => r == Some(&file),
                Entry::Directory(_) => r is None,
            },
    {
        match self {
            Entry::File(file) => Some(file),
            _ => None,
        }
    }

    pub fn as_dir_mut(&mut self) -> (r: Option<&mut DirectoryEntry>)
        ensures
            match *old(self) {
                Entry::Directory(dir) => r is Some && *r->0 == dir && *final(self)
                    == Entry::Directory(*final(r->0)),
                Entry::File(_) => r is None && *final(self) == *old(self),
            },
    {
        match self {
            Entry::Directory(dir) => Some(dir),
            _ => None,
        }
    }

    pub fn as_file_mut(&mut self) -> (r: Option<&mut FileEntry>)
        ensures
            match *old(self) {
                Entry::File(file) => r is Some && *r->0 == file && *final(self) == Entry::File(
                    *final(r->0),
                ),
                Entry::Directory(_) => r is None && *final(self) == *old(self),
            },
    {
        match self {
            Entry::File(file) => Some(file),
            _ => None,
        }
    }

    pub fn is_dir(&self) -> (r: bool)
        ensures
            r == (*self is Directory),
    {
        self.as_dir().is_some()
    }

    pub fn is_file(&self) -> (r: bool)
        ensures
            r == (*self is File),
    {
        self.as_file().is_some()
    }
}

/// A record that was written is twelve bytes long.
pub proof fn lemma_record_len(entry: Entry)
    ensures
        entry.record().len() == ENTRY_SIZE,
{
    lemma_be_bytes_len(entry.spec_info().filename_offset as int, 3);
    lemma_be_bytes_len(entry.second_field(), 4);
    lemma_be_bytes_len(entry.third_field(), 4);
}

/// Writing an entry that was decoded from a record gives that record again.
pub proof fn lemma_record_of_decoded(entry: Entry, record: Seq<u8>)
    requires
        entry.holds_record(record),
    ensures
        entry.record() == record,
{
    lemma_bytes_of_be24(record.subrange(1, 4));
    lemma_bytes_of_be32(record.subrange(4, 8));
    lemma_bytes_of_be32(record.subrange(8, 12));
    assert(record =~= seq![record[0]] + record.subrange(1, 4) + record.subrange(4, 8)
        + record.subrange(8, 12));
}

/// The record of an entry whose numbers fit the record's widths holds that entry.
pub proof fn lemma_decoded_of_record(entry: Entry)
    requires
        entry.fits_record(),
    ensures
        entry.holds_record(entry.record()),
{
    let a = be_bytes(entry.spec_info().filename_offset as int, 3);
    let b = be_bytes(entry.second_field(), 4);
    let c = be_bytes(entry.third_field(), 4);
    lemma_be_bytes_len(entry.spec_info().filename_offset as int, 3);
    lemma_be_bytes_len(entry.second_field(), 4);
    lemma_be_bytes_len(entry.third_field(), 4);
    lemma_be24_of_bytes(entry.spec_info().filename_offset as int);
    lemma_be32_of_bytes(entry.second_field());
    lemma_be32_of_bytes(entry.third_field());
    let record = entry.record();
    assert(record.subrange(1, 4) =~= a);
    assert(record.subrange(4, 8) =~= b);
    assert(record.subrange(8, 12) =~= c);
}

impl DirectoryEntry {
    /// The directory is the one that stands at its index in `fst`, as far as
    /// its span goes, and `fst` has the spans of a tree.
    pub open spec fn stands_in(&self, fst: Seq<Entry>) -> bool {
        &&& nested(spans_of(fst))
        &&& self.info.index < fst.len()
        &&& spans_of(fst)[self.info.index as int] == self.next_index
    }

    /// A walk over the entries that lie in the directory directly, in the
    /// order of the table.
    pub fn iter_contents<'a>(&'a self, fst: &'a [Entry]) -> (iter: DirectoryIter<'a>)
        requires
            self.stands_in(fst@),
        ensures
            iter.well_formed(),
            iter.dir == self,
            iter.fst == fst,
            iter.remaining() == children(spans_of(fst@), self.info.index as int),
    {
        DirectoryIter::new(self, fst)
    }
}

/// A walk through a directory. It stands on an entry that lies in the
/// directory directly, or at the directory's end.
pub struct DirectoryIter<'a> {
    pub dir: &'a DirectoryEntry,
    pub fst: &'a [Entry],
    pub current_index: usize,
}

impl<'a> DirectoryIter<'a> {
    /// The walk stands on a child of its directory, or at the directory's end.
    pub open spec fn well_formed(&self) -> bool {
        &&& self.dir.stands_in(self.fst@)
        &&& at_child(spans_of(self.fst@), self.dir.info.index as int, self.current_index as int)
    }

    /// The indices that the walk has yet to stop at.
    pub open spec fn remaining(&self) -> Seq<int> {
        children_from(spans_of(self.fst@), self.current_index as int, self.dir.next_index as int)
    }

    pub fn new(dir: &'a DirectoryEntry, fst: &'a [Entry]) -> (iter: Self)
        requires
            dir.stands_in(fst@),
        ensures
            iter.well_formed(),
            iter.dir == dir,
            iter.fst == fst,
            iter.current_index == dir.info.index + 1,
            iter.remaining() == children(spans_of(fst@), dir.info.index as int),
    {
        proof {
            lemma_walk_begins(spans_of(fst@), dir.info.index as int);
        }
        let len = fst.len();
        Self { dir, fst, current_index: dir.info.index + 1 }
    }

    /// The entry that the walk stands on, if it is not at the end; the walk
    /// then goes on behind everything that lies below that entry.
    pub fn next(&mut self) -> (r: Option<&'a Entry>)
        requires
            old(self).well_formed(),
        ensures
            final(self).well_formed(),
            final(self).dir == old(self).dir,
            final(self).fst == old(self).fst,
            match r {
                Some(entry) => {
                    &&& old(self).remaining().len() > 0
                    &&& old(self).remaining()[0] == old(self).current_index
                    &&& old(self).current_index < old(self).fst@.len()
                    &&& *entry == old(self).fst@[old(self).current_index as int]
                    &&& final(self).remaining() == old(self).remaining().drop_first()
                    &&& final(self).current_index == spans_of(old(self).fst@)[old(
                        self,
                    ).current_index as int]
                },
                None => old(self).remaining().len() == 0 && *final(self) == *old(self),
            },
    {
        let ghost spans = spans_of(self.fst@);
        let len = self.fst.len();
        if self.current_index < self.dir.next_index {
            proof {
                lemma_walk_step(spans, self.dir.info.index as int, self.current_index as int);
            }
            let res = &self.fst[self.current_index];
            let step = match res {
                Entry::File(_) => 1,
                Entry::Directory(dir) => dir.next_index - self.current_index,
            };
            assert(self.remaining() =~= seq![self.current_index as int] + children_from(
                spans,
                spans[self.current_index as int],
                self.dir.next_index as int,
            ));
            self.current_index = self.current_index + step;
            assert(self.remaining() =~= old(self).remaining().drop_first());
            Some(res)
        } else {
            None
        }
    }
}

} // verus!
