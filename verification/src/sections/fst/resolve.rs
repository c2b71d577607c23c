//! The path of an entry leads to the entry.

use crate::sections::fst::decode::shaped;
use crate::sections::fst::entry::{spans_of, Entry, SEPARATOR};
use crate::sections::fst::path::{
    behind_segment, entry_at_path, find_child_from, first_segment, resolve, segment_len,
};
use crate::sections::fst::tree::{
    at_child, lemma_parent_inside, lemma_parent_of, lemma_walk_begins, lemma_walk_step, nested,
    parent_of,
};
use crate::sections::fst::{path_bytes, FST};
use vstd::prelude::*;
use vstd::utf8::encode_utf8;

verus! {

/// The name is that of one entry alone: it is not empty, the name of a
/// directory ends with the separator, and the separator stands nowhere else.
pub open spec fn plain_name(entry: Entry) -> bool {
    let name = entry.name_bytes();
    &&& name.len() > 0
    &&& forall|j: int| 0 <= j < name.len() - 1 ==> #[trigger] name[j] != SEPARATOR
    &&& (name.last() == SEPARATOR <==> entry is Directory)
}

/// The root is named by the separator, and every other entry has a plain name.
pub open spec fn names_plain(entries: Seq<Entry>) -> bool {
    &&& entries[0].name_bytes() == seq![SEPARATOR]
    &&& forall|i: int| 1 <= i < entries.len() ==> #[trigger] plain_name(entries[i])
}

/// No two entries that lie in one directory have the same name.
pub open spec fn names_apart(entries: Seq<Entry>) -> bool {
    forall|i: int, j: int|
        1 <= i < j < entries.len() && (#[trigger] entries[i]).spec_info().directory_index == (
        #[trigger] entries[j]).spec_info().directory_index ==> entries[i].name_bytes()
            != entries[j].name_bytes()
}

/// The entry below `a` in which `i` lies, or which `i` is: the one on the
/// way from `a` down to `i` that lies in `a` directly.
pub open spec fn toward(spans: Seq<int>, a: int, i: int) -> int
    decreases i,
{
    let p = parent_of(spans, i);
    if a < 0 || i <= a + 1 || p <= a || p >= i {
        i
    } else {
        toward(spans, a, p)
    }
}

/// The names on the way from `a` down to `i`, `a`'s own left out, one
/// behind the other.
pub open spec fn way_down(entries: Seq<Entry>, a: int, i: int) -> Seq<u8>
    decreases i - a,
{
    let c = toward(spans_of(entries), a, i);
    if a < c <= i {
        entries[c].name_bytes() + way_down(entries, c, i)
    } else {
        Seq::empty()
    }
}

/// The first step on the way from `a` down to `i` leads to an entry that
/// lies in `a` directly and holds `i`.
pub proof fn lemma_toward(spans: Seq<int>, a: int, i: int)
    requires
        nested(spans),
        0 <= a < i < spans[a],
        i < spans.len(),
    ensures
        a < toward(spans, a, i) <= i < spans[toward(spans, a, i)],
        parent_of(spans, toward(spans, a, i)) == a,
    decreases i,
{
    lemma_parent_of(spans, i);
    lemma_parent_inside(spans, a, i);
    let p = parent_of(spans, i);
    if i > a + 1 && p > a {
        lemma_toward(spans, a, p);
        let c = toward(spans, a, p);
        if c < p {
            assert(spans[p] <= spans[c]);
        }
    }
}

/// The first segment of a plain name and what follows it is the name.
pub proof fn lemma_first_segment(name: Seq<u8>, rest: Seq<u8>)
    requires
        name.len() > 0,
        forall|j: int| 0 <= j < name.len() - 1 ==> #[trigger] name[j] != SEPARATOR,
        name.last() == SEPARATOR || rest.len() == 0,
    ensures
        segment_len(name + rest) == name.len(),
    decreases name.len(),
{
    let all = name + rest;
    assert(all[0] == name[0]);
    if name.len() == 1 {
        if name[0] != SEPARATOR {
            assert(all.drop_first() =~= Seq::<u8>::empty());
            assert(segment_len(Seq::<u8>::empty()) == 0);
        }
    } else {
        let shorter = name.drop_first();
        assert forall|j: int| 0 <= j < shorter.len() - 1 implies #[trigger] shorter[j]
            != SEPARATOR by {
            assert(shorter[j] == name[j + 1]);
        }
        assert(name[0] != SEPARATOR);
        lemma_first_segment(shorter, rest);
        assert(all.drop_first() =~= shorter + rest);
    }
}

/// The walk through a directory finds a child under its name if no child
/// before it has that name.
pub proof fn lemma_find_child(entries: Seq<Entry>, d: int, cursor: int, c: int)
    requires
        nested(spans_of(entries)),
        at_child(spans_of(entries), d, cursor),
        cursor <= c < spans_of(entries)[d],
        parent_of(spans_of(entries), c) == d,
        forall|x: int|
            cursor <= x < c && parent_of(spans_of(entries), x) == d ==> (
            #[trigger] entries[x]).name_bytes() != entries[c].name_bytes(),
    ensures
        find_child_from(entries, cursor, spans_of(entries)[d], entries[c].name_bytes()) == Some(c),
    decreases c - cursor,
{
    let spans = spans_of(entries);
    lemma_walk_step(spans, d, cursor);
    if cursor < c {
        assert(entries[cursor].name_bytes() != entries[c].name_bytes());
        if c < spans[cursor] {
            lemma_parent_inside(spans, cursor, c);
        }
        lemma_find_child(entries, d, spans[cursor], c);
    }
}

/// The path of a directory ends with the separator.
pub proof fn lemma_directory_path(entries: Seq<Entry>, a: int)
    requires
        names_plain(entries),
        0 <= a < entries.len(),
        entries[a] is Directory,
    ensures
        path_bytes(entries, a).len() > 0,
        path_bytes(entries, a).last() == SEPARATOR,
{
    if a >= 1 {
        assert(plain_name(entries[a]));
    }
}

/// The path of an entry that lies in a directory is the path of the
/// directory and the name of the entry behind it.
pub proof fn lemma_child_path(entries: Seq<Entry>, a: int, c: int)
    requires
        names_plain(entries),
        0 <= a < c < entries.len(),
        entries[a] is Directory,
        entries[c].spec_info().directory_index == Some(a as usize),
        a <= usize::MAX,
    ensures
        path_bytes(entries, c) == path_bytes(entries, a) + entries[c].name_bytes(),
{
    lemma_directory_path(entries, a);
}

/// The path of an entry is the path of a directory above it, and behind
/// it the names on the way down from there.
#[verifier::rlimit(40)]
pub proof fn lemma_path_is_way_down(entries: Seq<Entry>, a: int, i: int)
    requires
        shaped(entries),
        names_plain(entries),
        entries.len() <= usize::MAX,
        0 <= a <= i < spans_of(entries)[a],
        i < entries.len(),
    ensures
        path_bytes(entries, i) == path_bytes(entries, a) + way_down(entries, a, i),
    decreases i - a,
{
    let spans = spans_of(entries);
    if a < i {
        lemma_toward(spans, a, i);
        let c = toward(spans, a, i);
        lemma_path_is_way_down(entries, c, i);
        assert(entries[c].spec_info().directory_index == Some(parent_of(spans, c) as usize));
        assert(entries[a] is Directory);
        lemma_child_path(entries, a, c);
        crate::bytes::lemma_concat_assoc(
            path_bytes(entries, a),
            entries[c].name_bytes(),
            way_down(entries, c, i),
        );
    } else {
        assert(toward(spans, a, i) == i);
        assert(way_down(entries, a, i) =~= Seq::<u8>::empty());
        assert(path_bytes(entries, a) + Seq::<u8>::empty() =~= path_bytes(entries, a));
    }
}

/// The names on the way from `a` down to `i` lead from `a` to `i`.
#[verifier::rlimit(40)]
pub proof fn lemma_way_down_resolves(entries: Seq<Entry>, a: int, i: int)
    requires
        shaped(entries),
        names_plain(entries),
        names_apart(entries),
        entries.len() <= usize::MAX,
        0 <= a <= i < spans_of(entries)[a],
        i < entries.len(),
    ensures
        resolve(entries, a, way_down(entries, a, i)) == Some(i),
    decreases i - a,
{
    let spans = spans_of(entries);
    if a < i {
        lemma_toward(spans, a, i);
        let c = toward(spans, a, i);
        let name = entries[c].name_bytes();
        let rest = way_down(entries, c, i);
        let path = way_down(entries, a, i);
        assert(path == name + rest);
        assert(plain_name(entries[c]));
        if !(entries[c] is Directory) {
            assert(c == i);
            assert(toward(spans, c, i) == i);
            assert(rest =~= Seq::<u8>::empty());
        }
        lemma_first_segment(name, rest);
        assert(first_segment(path) =~= name);
        assert(behind_segment(path) =~= rest);
        lemma_walk_begins(spans, a);
        assert forall|x: int| a + 1 <= x < c && parent_of(spans, x) == a implies (
        #[trigger] entries[x]).name_bytes() != entries[c].name_bytes() by {
            assert(entries[x].spec_info().directory_index == Some(a as usize));
            assert(entries[c].spec_info().directory_index == Some(a as usize));
        }
        lemma_find_child(entries, a, a + 1, c);
        lemma_way_down_resolves(entries, c, i);
    } else {
        assert(toward(spans, a, i) == i);
    }
}

/// The path of every entry leads to that entry, in a table in which the
/// names are plain and no two entries of one directory have the same name.
pub proof fn lemma_path_resolves(table: FST, i: int)
    requires
        table.well_formed(),
        names_plain(table.entries@),
        names_apart(table.entries@),
        table.entries@.len() <= usize::MAX,
        0 <= i < table.entries@.len(),
    ensures
        entry_at_path(table.entries@, encode_utf8(table.entries@[i].spec_info().full_path@))
            == Some(i),
{
    let entries = table.entries@;
    let path = path_bytes(entries, i);
    lemma_path_is_way_down(entries, 0, i);
    lemma_way_down_resolves(entries, 0, i);
    assert(path_bytes(entries, 0) == seq![SEPARATOR]);
    assert(path.drop_first() =~= way_down(entries, 0, i));
    assert(path[0] == SEPARATOR);
    assert(encode_utf8(entries[i].spec_info().full_path@) == path);
}

} // verus!
