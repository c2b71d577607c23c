//! What lies in a directory.

use crate::sections::fst::decode::shaped;
use crate::sections::fst::entry::{spans_of, Entry};
use crate::sections::fst::tree::{
    children, lemma_children, lemma_children_ascend, lemma_children_fill, lemma_parent_of,
    parent_of, span_sum,
};
use vstd::prelude::*;

verus! {

/// A walk through a directory stops at exactly the entries that lie in it
/// directly, at each of them once, in the order of the table; and their
/// spans are, together, the span of the directory without the directory
/// itself.
///
/// `DirectoryEntry::iter_contents` begins such a walk, with `children` as
/// what it has yet to stop at, and `DirectoryIter::next` takes one stop
/// after the other from it.
pub proof fn lemma_contents(entries: Seq<Entry>, d: int)
    requires
        shaped(entries),
        0 <= d < entries.len(),
        entries.len() <= usize::MAX,
    ensures
        forall|j: int|
            children(spans_of(entries), d).contains(j) <==> (0 <= j < entries.len()
                && entries[j].spec_info().directory_index == Some(d as usize)),
        forall|a: int, b: int|
            0 <= a < b < children(spans_of(entries), d).len() ==> children(spans_of(entries), d)[a]
                < children(spans_of(entries), d)[b],
        span_sum(spans_of(entries), children(spans_of(entries), d)) == spans_of(entries)[d] - d
            - 1,
{
    let spans = spans_of(entries);
    let walk = children(spans, d);
    assert forall|j: int| walk.contains(j) <==> (0 <= j < entries.len()
        && entries[j].spec_info().directory_index == Some(d as usize)) by {
        lemma_children(spans, d, j);
        if 1 <= j < entries.len() {
            lemma_parent_of(spans, j);
            assert(entries[j].spec_info().directory_index == Some(parent_of(spans, j) as usize));
        }
    }
    assert forall|a: int, b: int| 0 <= a < b < walk.len() implies walk[a] < walk[b] by {
        lemma_children_ascend(spans, d + 1, spans[d], a, b);
    }
    lemma_children_fill(spans, d);
}

} // verus!
