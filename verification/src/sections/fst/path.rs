//! Paths: finding the entry that a path names.

use crate::sections::fst::entry::{spans_of, Entry, SEPARATOR};
use vstd::prelude::*;

verus! {

/// The length of the first segment of a path: up to and with the first
/// separator, or all of it where it has none.
pub open spec fn segment_len(path: Seq<u8>) -> int
    decreases path.len(),
{
    if path.len() == 0 {
        0
    } else if path[0] == SEPARATOR {
        1
    } else {
        1 + segment_len(path.drop_first())
    }
}

/// The first segment of a path.
pub open spec fn first_segment(path: Seq<u8>) -> Seq<u8> {
    path.subrange(0, segment_len(path))
}

/// The path behind its first segment.
pub open spec fn behind_segment(path: Seq<u8>) -> Seq<u8> {
    path.subrange(segment_len(path), path.len() as int)
}

/// The first segment is no longer than the path, and not empty unless the path is.
pub proof fn lemma_segment_len(path: Seq<u8>)
    ensures
        0 <= segment_len(path) <= path.len(),
        path.len() > 0 ==> segment_len(path) >= 1,
    decreases path.len(),
{
    if path.len() > 0 && path[0] != SEPARATOR {
        lemma_segment_len(path.drop_first());
    }
}

/// The first entry with the given name among those that a walk from
/// `cursor` to `end` stops at.
pub open spec fn find_child_from(entries: Seq<Entry>, cursor: int, end: int, name: Seq<u8>) -> Option<
    int,
>
    decreases end - cursor,
{
    let spans = spans_of(entries);
    if cursor < 0 || cursor >= end || cursor >= entries.len() || spans[cursor] <= cursor
        || spans[cursor] > end {
        None
    } else if entries[cursor].name_bytes() == name {
        Some(cursor)
    } else {
        find_child_from(entries, spans[cursor], end, name)
    }
}

/// The first entry with the given name among those that lie in directory
/// `d` directly.
pub open spec fn find_child(entries: Seq<Entry>, d: int, name: Seq<u8>) -> Option<int> {
    find_child_from(entries, d + 1, spans_of(entries)[d], name)
}

/// The entry that `path` leads to from entry `d`: segment by segment, each
/// segment the name of an entry that lies directly in the one before.
pub open spec fn resolve(entries: Seq<Entry>, d: int, path: Seq<u8>) -> Option<int>
    decreases path.len(),
{
    if path.len() == 0 {
        Some(d)
    } else if !(entries[d] is Directory) {
        None
    } else {
        match find_child(entries, d, first_segment(path)) {
            None => None,
            Some(child) => if 1 <= segment_len(path) <= path.len() {
                resolve(entries, child, behind_segment(path))
            } else {
                None
            },
        }
    }
}

/// The first entry from `from` up to, not including, `upto` that has the given name.
pub open spec fn find_name(entries: Seq<Entry>, name: Seq<u8>, from: int, upto: int) -> Option<int>
    decreases upto - from,
{
    if from >= upto {
        None
    } else if entries[from].name_bytes() == name {
        Some(from)
    } else {
        find_name(entries, name, from + 1, upto)
    }
}

/// The entry that a path names. A path that begins with the separator is
/// followed from the root, segment by segment. Any other path is taken as
/// one name, and names the first entry of the table, the root apart, that
/// has it.
pub open spec fn entry_at_path(entries: Seq<Entry>, path: Seq<u8>) -> Option<int> {
    if path.len() > 0 && path[0] == SEPARATOR {
        resolve(entries, 0, path.drop_first())
    } else {
        find_name(entries, path, 1, entries.len() as int)
    }
}

/// What `find_name` finds is the first entry with that name.
pub proof fn lemma_find_name(entries: Seq<Entry>, name: Seq<u8>, from: int, upto: int)
    requires
        0 <= from,
    ensures
        match find_name(entries, name, from, upto) {
            Some(i) => from <= i < upto && entries[i].name_bytes() == name && forall|k: int|
                from <= k < i ==> (#[trigger] entries[k]).name_bytes() != name,
            None => forall|k: int| from <= k < upto ==> (#[trigger] entries[k]).name_bytes() != name,
        },
    decreases upto - from,
{
    if from < upto && entries[from].name_bytes() != name {
        lemma_find_name(entries, name, from + 1, upto);
    }
}

/// Where entry `i`, which lies below entry `d`, is found if `d` is found
/// at `prefix`: the names from `d` down to it, joined to `prefix`.
pub open spec fn path_below(entries: Seq<Entry>, d: int, prefix: Seq<u8>, i: int) -> Seq<u8>
    decreases i,
{
    let parent = entries[i].spec_info().directory_index;
    if i <= d {
        prefix
    } else if parent is Some && d <= parent->0 < i {
        crate::sections::fst::join_path(
            path_below(entries, d, prefix, parent->0 as int),
            entries[i].name_bytes(),
        )
    } else {
        crate::sections::fst::join_path(prefix, entries[i].name_bytes())
    }
}

} // verus!
