//! The host files that go into a rebuilt image, each with its place.

use crate::sections::fst::decode::shaped;
use crate::sections::fst::entry::{spans_of, DirectoryEntry, Entry};
use crate::sections::fst::path::path_below;
use crate::sections::fst::tree::lemma_parent_inside;
use crate::sections::fst::{push_joined, FST};
use crate::order::{lemma_insert_at, sorted_by_key};
use vstd::prelude::*;
use vstd::string::StringExecFns;
use vstd::utf8::encode_utf8;

verus! {

/// A host file with its place, the path as UTF-8.
pub open spec fn file_view(file: (u64, String)) -> (u64, Seq<u8>) {
    (file.0, encode_utf8(file.1@))
}

/// Host files with their places, the paths as UTF-8.
pub open spec fn file_views(files: Seq<(u64, String)>) -> Seq<(u64, Seq<u8>)> {
    files.map_values(|file: (u64, String)| file_view(file))
}

/// The files among the entries behind `d` and before `upto`, each with its
/// place in the image and where it is found on the host, in the order of
/// the table.
pub open spec fn files_below(entries: Seq<Entry>, d: int, prefix: Seq<u8>, upto: int) -> Seq<
    (u64, Seq<u8>),
>
    decreases upto - d,
{
    if upto <= d + 1 {
        Seq::empty()
    } else {
        let before = files_below(entries, d, prefix, upto - 1);
        match entries[upto - 1] {
            Entry::File(file) => before.push(
                (file.file_offset, path_below(entries, d, prefix, upto - 1)),
            ),
            Entry::Directory(_) => before,
        }
    }
}

/// The views of a row with one more file are the views of the row and the
/// view of the file.
pub proof fn lemma_file_views_push(files: Seq<(u64, String)>, file: (u64, String))
    ensures
        file_views(files.push(file)) == file_views(files).push(file_view(file)),
{
    assert(file_views(files.push(file)) =~= file_views(files).push(file_view(file)));
}

/// One more behind two rows is one more behind the second.
pub proof fn lemma_concat_push(
    a: Seq<(u64, Seq<u8>)>,
    b: Seq<(u64, Seq<u8>)>,
    x: (u64, Seq<u8>),
)
    ensures
        (a + b).push(x) == a + b.push(x),
{
    assert((a + b).push(x) =~= a + b.push(x));
}

impl crate::rom_rebuilder::FileSystemRebuilder {
    /// Takes every file that lies below the directory, with its place in the
    /// image and the path at which the host has it, if it has the directory
    /// at `prefix`. The files come in the order of the table.
    #[verifier::rlimit(40)]
    pub fn fill_files(files: &mut Vec<(u64, String)>, dir: &DirectoryEntry, prefix: &str, fst: &FST)
        requires
            shaped(fst.entries@),
            dir.stands_in(fst.entries@),
        ensures
            file_views(final(files)@) == file_views(old(files)@) + files_below(
                fst.entries@,
                dir.info.index as int,
                encode_utf8(prefix@),
                dir.next_index as int,
            ),
    {
        let ghost entries = fst.entries@;
        let ghost spans = spans_of(entries);
        let ghost root = encode_utf8(prefix@);
        let first = dir.info.index;
        let end = dir.next_index;
        let len = fst.entries.len();
        let mut paths: Vec<String> = Vec::new();
        paths.push(String::from_str(prefix));
        let mut index = first + 1;
        assert(file_views(files@) =~= file_views(old(files)@) + files_below(
            entries,
            first as int,
            root,
            index as int,
        ));
        assert forall|i: int| first < i < end implies ((
        #[trigger] entries[i]).spec_info().directory_index matches Some(p) && first <= p < i) by {
            lemma_parent_inside(spans, first as int, i);
        }
        while index < end
            invariant
                first < index <= end,
                end <= len,
                len == entries.len(),
                entries == fst.entries@,
                forall|i: int|
                    first < i < end ==> ((#[trigger] entries[i]).spec_info().directory_index matches Some(
                        p,
                    ) && first <= p < i),
                root == encode_utf8(prefix@),
                paths@.len() == index - first,
                forall|k: int|
                    0 <= k < paths@.len() ==> encode_utf8((#[trigger] paths@[k])@) == path_below(
                        entries,
                        first as int,
                        root,
                        first + k,
                    ),
                file_views(files@) == file_views(old(files)@) + files_below(
                    entries,
                    first as int,
                    root,
                    index as int,
                ),
            decreases end - index,
        {
            let entry = &fst.entries[index];
            let info = entry.info();
            assert(entries[index as int].spec_info().directory_index is Some);
            let parent = match info.directory_index {
                Some(parent) => parent,
                None => first,
            };
            let mut path = paths[parent - first].clone();
            push_joined(&mut path, info.name.as_str());
            assert(encode_utf8(path@) == path_below(entries, first as int, root, index as int));
            let ghost before = files@;
            match entry {
                Entry::File(file) => {
                    files.push((file.file_offset, path.clone()));
                    proof {
                        lemma_file_views_push(before, files@[before.len() as int]);
                        lemma_concat_push(
                            file_views(old(files)@),
                            files_below(entries, first as int, root, index as int),
                            (file.file_offset, encode_utf8(path@)),
                        );
                    }
                },
                Entry::Directory(_) => {},
            }
            paths.push(path);
            index += 1;
        }
    }
}

/// The place of a file, which the files are ordered by.
pub open spec fn place_key() -> spec_fn((u64, Seq<u8>)) -> int {
    |file: (u64, Seq<u8>)| file.0 as int
}

/// The files ordered by their places; files with the same place in the
/// order in which they came.
pub open spec fn sorted_placed(files: Seq<(u64, Seq<u8>)>) -> Seq<(u64, Seq<u8>)> {
    sorted_by_key(files, files.len() as int, place_key())
}

/// Puts the files in the order of their places; files with the same place
/// stay in the order in which they came.
#[verifier::rlimit(40)]
pub fn sort_files(files: Vec<(u64, String)>) -> (sorted: Vec<(u64, String)>)
    ensures
        file_views(sorted@) == sorted_placed(file_views(files@)),
{
    let mut sorted: Vec<(u64, String)> = Vec::new();
    let mut files = files;
    let ghost all = files@;
    let count = files.len();
    let mut taken: usize = 0;
    assert(file_views(sorted@) =~= sorted_by_key(file_views(all), 0, place_key()));
    while taken < count
        invariant
            0 <= taken <= count,
            count == all.len(),
            files@.len() == count,
            forall|k: int| taken <= k < count ==> #[trigger] files@[k] == all[k],
            file_views(sorted@) == sorted_by_key(file_views(all), taken as int, place_key()),
        decreases count - taken,
    {
        let mut file: (u64, String) = (0, String::new());
        let ghost before = files@;
        std::mem::swap(&mut file, &mut files[taken]);
        assert(file == all[taken as int]);
        let mut at: usize = sorted.len();
        while at > 0 && sorted[at - 1].0 > file.0
            invariant
                0 <= at <= sorted@.len(),
                forall|j: int| at <= j < sorted@.len() ==> (#[trigger] sorted@[j]).0 > file.0,
            decreases at,
        {
            at -= 1;
        }
        proof {
            let views = file_views(sorted@);
            assert forall|j: int| at <= j < views.len() implies (#[trigger] views[j]).0
                > file_view(file).0 by {
                assert(sorted@[j].0 > file.0);
            }
            if at > 0 {
                assert(views[at - 1].0 == sorted@[at - 1].0);
            }
            lemma_insert_at(views, file_view(file), place_key(), at as int);
            assert(file_views(all)[taken as int] == file_view(file));
            assert(file_views(sorted@.insert(at as int, file)) =~= views.insert(
                at as int,
                file_view(file),
            ));
        }
        sorted.insert(at, file);
        taken += 1;
    }
    sorted
}

} // verus!
