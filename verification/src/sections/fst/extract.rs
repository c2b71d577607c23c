//! Taking a part of the tree out of an image: which directories are to be
//! made and which files to be copied, and where to.

use crate::number::{decimal_digits, push_decimal};
use crate::sections::fst::decode::shaped;
use crate::sections::fst::entry::{spans_of, Entry};
use crate::sections::fst::path::path_below;
use crate::sections::fst::tree::lemma_parent_inside;
use crate::sections::fst::{count_files, push_joined, FST};
use vstd::prelude::*;
use vstd::string::{StrSliceExecFns, StringExecFns};
use vstd::utf8::encode_utf8;

verus! {

/// One step of an extraction.
pub enum ExtractStep {
    /// Make the directory at `path`.
    Directory { path: String },
    /// Make the file at `path`, and copy `size` bytes to it that begin at
    /// `file_offset` in the image.
    File { path: String, file_offset: u64, size: usize },
}

impl ExtractStep {
    /// Where the step makes something, as UTF-8.
    pub open spec fn path_bytes(&self) -> Seq<u8> {
        match self {
            ExtractStep::Directory { path } => encode_utf8(path@),
            ExtractStep::File { path, .. } => encode_utf8(path@),
        }
    }

    /// The step takes out the entry: a directory is made, a file copied
    /// from its place and in its length.
    pub open spec fn takes(&self, entry: Entry) -> bool {
        match (self, entry) {
            (ExtractStep::Directory { .. }, Entry::Directory(_)) => true,
            (ExtractStep::File { file_offset, size, .. }, Entry::File(file)) => *file_offset
                == file.file_offset && *size == file.size,
            _ => false,
        }
    }
}

/// How many of the first `upto` steps copy a file.
pub open spec fn count_copies(steps: Seq<ExtractStep>, upto: int) -> nat
    decreases upto,
{
    if upto <= 0 {
        0
    } else {
        count_copies(steps, upto - 1) + if steps[upto - 1] is File {
            1nat
        } else {
            0nat
        }
    }
}

/// How many of the first steps copy a file does not depend on later steps.
pub proof fn lemma_count_copies_prefix(a: Seq<ExtractStep>, b: Seq<ExtractStep>, upto: int)
    requires
        upto <= a.len(),
        upto <= b.len(),
        forall|k: int| 0 <= k < upto ==> a[k] == b[k],
    ensures
        count_copies(a, upto) == count_copies(b, upto),
    decreases upto,
{
    if upto > 0 {
        lemma_count_copies_prefix(a, b, upto - 1);
    }
}

impl Entry {
    /// The steps that take the entry out of the image, to `filename`: the
    /// entry itself, then, for a directory, everything below it, in the
    /// order of the table; each entry goes to the place of the directory
    /// that it lies in, joined with its own name.
    #[verifier::rlimit(40)]
    pub fn extract_with_name(&self, filename: &str, fst: &[Entry]) -> (steps: Vec<ExtractStep>)
        requires
            shaped(fst@),
            self.spec_info().index < fst@.len(),
            fst@[self.spec_info().index as int] == *self,
        ensures
            steps@.len() == spans_of(fst@)[self.spec_info().index as int]
                - self.spec_info().index,
            forall|k: int|
                0 <= k < steps@.len() ==> (#[trigger] steps@[k]).takes(
                    fst@[self.spec_info().index + k],
                ) && steps@[k].path_bytes() == path_below(
                    fst@,
                    self.spec_info().index as int,
                    encode_utf8(filename@),
                    self.spec_info().index + k,
                ),
            count_copies(steps@, steps@.len() as int) == count_files(
                fst@,
                spans_of(fst@)[self.spec_info().index as int],
            ) - count_files(fst@, self.spec_info().index as int),
    {
        let ghost entries = fst@;
        let ghost spans = spans_of(entries);
        let ghost root = encode_utf8(filename@);
        let first = self.info().index;
        let end = match self {
            Entry::File(_) => first + 1,
            Entry::Directory(dir) => dir.next_index,
        };
        assert(end == spans[first as int]);
        let len = fst.len();
        let mut steps: Vec<ExtractStep> = Vec::new();
        let mut index = first;
        assert forall|i: int| first < i < end implies ((
        #[trigger] entries[i]).spec_info().directory_index matches Some(p) && first <= p < i) by {
            lemma_parent_inside(spans, first as int, i);
        }
        while index < end
            invariant
                first <= index <= end,
                end <= len,
                len == entries.len(),
                entries == fst@,
                root == encode_utf8(filename@),
                forall|i: int|
                    first < i < end ==> ((
                    #[trigger] entries[i]).spec_info().directory_index matches Some(p) && first
                        <= p < i),
                steps@.len() == index - first,
                count_copies(steps@, steps@.len() as int) == count_files(entries, index as int)
                    - count_files(entries, first as int),
                forall|k: int|
                    0 <= k < steps@.len() ==> (#[trigger] steps@[k]).takes(entries[first + k])
                        && steps@[k].path_bytes() == path_below(
                        entries,
                        first as int,
                        root,
                        first + k,
                    ),
            decreases end - index,
        {
            let entry = &fst[index];
            let info = entry.info();
            let path = if index == first {
                String::from_str(filename)
            } else {
                assert(entries[index as int].spec_info().directory_index is Some);
                let parent = match info.directory_index {
                    Some(parent) => parent,
                    None => first,
                };
                let mut path = match &steps[parent - first] {
                    ExtractStep::Directory { path } => path.clone(),
                    ExtractStep::File { path, .. } => path.clone(),
                };
                push_joined(&mut path, info.name.as_str());
                path
            };
            assert(encode_utf8(path@) == path_below(entries, first as int, root, index as int));
            let step = match entry {
                Entry::Directory(_) => ExtractStep::Directory { path },
                Entry::File(file) => ExtractStep::File {
                    path,
                    file_offset: file.file_offset,
                    size: file.size,
                },
            };
            let ghost before = steps@;
            steps.push(step);
            proof {
                lemma_count_copies_prefix(before, steps@, before.len() as int);
            }
            assert forall|k: int| 0 <= k < steps@.len() implies (#[trigger] steps@[k]).takes(
                entries[first + k],
            ) && steps@[k].path_bytes() == path_below(entries, first as int, root, first + k) by {
                if k < before.len() {
                    assert(steps@[k] == before[k]);
                }
            }
            index += 1;
        }
        steps
    }

    /// The long form of the entry, as `format_long` gives it.
    pub open spec fn long_form(&self) -> Seq<char> {
        seq![
            if *self is Directory {
                'd'
            } else {
                '-'
            },
            ' ',
        ] + padded(
            decimal_digits(
                match *self {
                    Entry::File(file) => file.size as nat,
                    Entry::Directory(dir) => dir.file_count as nat,
                },
            ),
            10,
        ) + seq![' '] + self.spec_info().full_path@
    }

    /// The entry in the long form of a listing: `d` for a directory or `-`
    /// for a file, the number of entries in the directory or the length of
    /// the file, in ten columns, and the path.
    pub fn format_long(&self) -> (line: String)
        ensures
            line@ == self.long_form(),
    {
        proof {
            reveal_strlit("d ");
            reveal_strlit("- ");
            reveal_strlit(" ");
            assert("d "@ =~= seq!['d', ' ']);
            assert("- "@ =~= seq!['-', ' ']);
            assert(" "@ =~= seq![' ']);
        }
        let (mut line, size) = match self {
            Entry::File(file) => (String::from_str("- "), file.size),
            Entry::Directory(dir) => (String::from_str("d "), dir.file_count),
        };
        let mut digits = String::new();
        push_decimal(&mut digits, size as u64);
        assert(digits@ =~= decimal_digits(size as nat));
        let width = digits.as_str().unicode_len();
        let mut column = width;
        let ghost start = line@;
        while column < 10
            invariant
                width <= column,
                width < 10 ==> column <= 10,
                width >= 10 ==> column == width,
                width == digits@.len(),
                " "@ == seq![' '],
                line@ == start + spaces(column - width),
            decreases 10 - column,
        {
            line.append(" ");
            assert(line@ =~= start + spaces(column + 1 - width));
            column += 1;
        }
        assert(spaces(0) =~= Seq::<char>::empty());
        let ghost filled = line@;
        assert(filled + digits@ =~= start + padded(digits@, 10));
        line.append(digits.as_str());
        line.append(" ");
        line.append(self.info().full_path.as_str());
        assert(line@ =~= start + padded(digits@, 10) + seq![' '] + self.spec_info().full_path@);
        line
    }
}

/// `count` spaces.
pub open spec fn spaces(count: int) -> Seq<char> {
    Seq::new(count as nat, |i: int| ' ')
}

/// The text with spaces before it, so that it is `width` characters long;
/// the text as it is if it is that long or longer.
pub open spec fn padded(text: Seq<char>, width: int) -> Seq<char> {
    if text.len() < width {
        spaces(width - text.len()) + text
    } else {
        text
    }
}

impl FST {
    /// The steps that take the whole tree out of the image, to `path`.
    pub fn extract_file_system(&self, path: &str) -> (steps: Vec<ExtractStep>)
        requires
            shaped(self.entries@),
        ensures
            steps@.len() == self.entries@.len(),
            count_copies(steps@, steps@.len() as int) == count_files(
                self.entries@,
                self.entries@.len() as int,
            ),
            forall|k: int|
                0 <= k < steps@.len() ==> (#[trigger] steps@[k]).takes(self.entries@[k])
                    && steps@[k].path_bytes() == path_below(
                    self.entries@,
                    0,
                    encode_utf8(path@),
                    k,
                ),
    {
        let root = &self.entries[0];
        assert(spans_of(self.entries@)[0] == self.entries@.len());
        root.extract_with_name(path, self.entries.as_slice())
    }
}

} // verus!
