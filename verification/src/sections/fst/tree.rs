//! The shape of a table: directories as index ranges.
//!
//! Entry `i` spans the indices from `i` up to, not including, `spans[i]`: a
//! file spans itself alone, a directory itself and everything below it.

use vstd::prelude::*;

verus! {

/// The spans are those of a tree that entry 0 is the root of: every span is
/// inside the table, the root spans all of it, and two spans are nested or
/// apart.
pub open spec fn nested(spans: Seq<int>) -> bool {
    &&& spans.len() >= 1
    &&& spans[0] == spans.len()
    &&& forall|i: int| 0 <= i < spans.len() ==> i < #[trigger] spans[i] <= spans.len()
    &&& forall|i: int, j: int|
        0 <= i < j < spans.len() && j < #[trigger] spans[i] ==> #[trigger] spans[j] <= spans[i]
}

/// The last index from `d` down whose span reaches beyond `i`; 0 if there is none.
pub open spec fn parent_from(spans: Seq<int>, i: int, d: int) -> int
    decreases d,
{
    if d <= 0 {
        0
    } else if spans[d] > i {
        d
    } else {
        parent_from(spans, i, d - 1)
    }
}

/// The directory that entry `i` lies in directly: the last entry before `i`
/// whose span holds `i`.
pub open spec fn parent_of(spans: Seq<int>, i: int) -> int {
    parent_from(spans, i, i - 1)
}

/// What `parent_from` finds.
pub proof fn lemma_parent_from(spans: Seq<int>, i: int, d: int)
    requires
        0 <= d < i < spans.len(),
        spans[0] > i,
    ensures
        0 <= parent_from(spans, i, d) <= d,
        spans[parent_from(spans, i, d)] > i,
        forall|e: int| parent_from(spans, i, d) < e <= d ==> #[trigger] spans[e] <= i,
    decreases d,
{
    if d > 0 && spans[d] <= i {
        lemma_parent_from(spans, i, d - 1);
    }
}

/// The parent of an entry comes before it and spans it, and nothing between
/// the two spans it.
pub proof fn lemma_parent_of(spans: Seq<int>, i: int)
    requires
        nested(spans),
        1 <= i < spans.len(),
    ensures
        0 <= parent_of(spans, i) < i,
        spans[parent_of(spans, i)] > i,
        forall|e: int| parent_of(spans, i) < e < i ==> #[trigger] spans[e] <= i,
{
    lemma_parent_from(spans, i, i - 1);
}

/// The one index before `i` whose span reaches beyond `i`, while the span of
/// none between the two does, is the parent of `i`.
pub proof fn lemma_parent_unique(spans: Seq<int>, i: int, p: int)
    requires
        0 <= p < i,
        spans[p] > i,
        forall|e: int| p < e < i ==> #[trigger] spans[e] <= i,
    ensures
        parent_of(spans, i) == p,
{
    lemma_parent_from_skips(spans, i, p, i - 1);
}

/// The search for the parent passes over every index whose span ends before `i`.
pub proof fn lemma_parent_from_skips(spans: Seq<int>, i: int, p: int, d: int)
    requires
        0 <= p <= d < i,
        spans[p] > i,
        forall|e: int| p < e <= d ==> #[trigger] spans[e] <= i,
    ensures
        parent_from(spans, i, d) == p,
    decreases d - p,
{
    if d > p {
        lemma_parent_from_skips(spans, i, p, d - 1);
    }
}

/// What lies inside a span lies, step by step, below the span's owner.
pub proof fn lemma_parent_inside(spans: Seq<int>, c: int, j: int)
    requires
        nested(spans),
        0 <= c < j < spans[c],
        j < spans.len(),
    ensures
        c <= parent_of(spans, j) < j,
{
    lemma_parent_of(spans, j);
    let p = parent_of(spans, j);
    if p < c {
        assert(spans[c] <= j);
    }
}

/// The entry right behind a directory, if the directory's span holds it, is
/// its first child.
pub proof fn lemma_first_child(spans: Seq<int>, d: int)
    requires
        nested(spans),
        0 <= d,
        d + 1 < spans[d],
        d < spans.len(),
    ensures
        parent_of(spans, d + 1) == d,
{
    lemma_parent_unique(spans, d + 1, d);
}

/// Where the span of a child ends, the next child of the same directory
/// begins, or the directory ends.
pub proof fn lemma_next_sibling(spans: Seq<int>, d: int, c: int)
    requires
        nested(spans),
        1 <= c < spans.len(),
        parent_of(spans, c) == d,
    ensures
        spans[c] <= spans[d],
        spans[c] < spans[d] ==> parent_of(spans, spans[c]) == d,
{
    lemma_parent_of(spans, c);
    let next = spans[c];
    if next < spans[d] {
        assert forall|e: int| d < e < next implies #[trigger] spans[e] <= next by {
            if e < c {
                assert(spans[e] <= c);
            } else if e > c {
                assert(spans[e] <= spans[c]);
            }
        }
        lemma_parent_unique(spans, next, d);
    }
}

/// The indices that a walk through a directory stops at: from `cursor` on,
/// each time over the whole span of the entry it stands on, as long as it is
/// before `end`.
pub open spec fn children_from(spans: Seq<int>, cursor: int, end: int) -> Seq<int>
    decreases end - cursor,
{
    if cursor < 0 || cursor >= end || cursor >= spans.len() || spans[cursor] <= cursor
        || spans[cursor] > end {
        Seq::empty()
    } else {
        seq![cursor] + children_from(spans, spans[cursor], end)
    }
}

/// The children of directory `d`, in the order of the table.
pub open spec fn children(spans: Seq<int>, d: int) -> Seq<int> {
    children_from(spans, d + 1, spans[d])
}

/// The cursor of a walk through directory `d` stands on a child of `d`, or at
/// the directory's end.
pub open spec fn at_child(spans: Seq<int>, d: int, cursor: int) -> bool {
    &&& 0 <= d < cursor <= spans[d]
    &&& d < spans.len()
    &&& cursor < spans[d] ==> parent_of(spans, cursor) == d
}

/// A walk that begins right behind the directory begins on a child.
pub proof fn lemma_walk_begins(spans: Seq<int>, d: int)
    requires
        nested(spans),
        0 <= d < spans.len(),
    ensures
        at_child(spans, d, d + 1),
{
    if d + 1 < spans[d] {
        lemma_first_child(spans, d);
    }
}

/// A step of the walk leads from a child to the next child or to the end.
pub proof fn lemma_walk_step(spans: Seq<int>, d: int, cursor: int)
    requires
        nested(spans),
        at_child(spans, d, cursor),
        cursor < spans[d],
    ensures
        at_child(spans, d, spans[cursor]),
        cursor < spans[cursor],
{
    lemma_next_sibling(spans, d, cursor);
}

/// The walk stops at the children of the directory, at each of them, and at
/// nothing else.
pub proof fn lemma_children_from(spans: Seq<int>, d: int, cursor: int, j: int)
    requires
        nested(spans),
        at_child(spans, d, cursor),
    ensures
        children_from(spans, cursor, spans[d]).contains(j) <==> (cursor <= j < spans[d]
            && parent_of(spans, j) == d),
    decreases spans[d] - cursor,
{
    let end = spans[d];
    let walk = children_from(spans, cursor, end);
    if cursor < end {
        let next = spans[cursor];
        lemma_walk_step(spans, d, cursor);
        lemma_children_from(spans, d, next, j);
        let rest = children_from(spans, next, end);
        assert(walk =~= seq![cursor] + rest);
        if walk.contains(j) {
            let k = choose|k: int| 0 <= k < walk.len() && walk[k] == j;
            if k > 0 {
                assert(rest[k - 1] == j);
                assert(rest.contains(j));
            }
        }
        if cursor <= j < end && parent_of(spans, j) == d {
            if j == cursor {
                assert(walk[0] == j);
            } else {
                if j < next {
                    lemma_parent_inside(spans, cursor, j);
                }
                assert(rest.contains(j));
                let k = choose|k: int| 0 <= k < rest.len() && rest[k] == j;
                assert(walk[k + 1] == j);
            }
        }
    } else {
        assert(walk =~= Seq::<int>::empty());
    }
}

/// The walk through a directory stops at exactly those entries whose parent
/// the directory is.
pub proof fn lemma_children(spans: Seq<int>, d: int, j: int)
    requires
        nested(spans),
        0 <= d < spans.len(),
    ensures
        children(spans, d).contains(j) <==> (1 <= j < spans.len() && parent_of(spans, j) == d),
{
    lemma_walk_begins(spans, d);
    lemma_children_from(spans, d, d + 1, j);
    if 1 <= j < spans.len() && parent_of(spans, j) == d {
        lemma_parent_of(spans, j);
    }
}

/// The walk goes forward: it stops at no entry twice.
pub proof fn lemma_children_ascend(spans: Seq<int>, cursor: int, end: int, a: int, b: int)
    requires
        0 <= a < b < children_from(spans, cursor, end).len(),
    ensures
        cursor <= children_from(spans, cursor, end)[a] < children_from(spans, cursor, end)[b] < end,
    decreases end - cursor,
{
    let walk = children_from(spans, cursor, end);
    let rest = children_from(spans, spans[cursor], end);
    assert(walk =~= seq![cursor] + rest);
    if a == 0 {
        if b - 1 > 0 {
            lemma_children_ascend(spans, spans[cursor], end, 0, b - 1);
        } else {
            lemma_children_bounds(spans, spans[cursor], end, 0);
        }
    } else {
        lemma_children_ascend(spans, spans[cursor], end, a - 1, b - 1);
    }
}

/// Every stop of the walk lies between the cursor and the end.
pub proof fn lemma_children_bounds(spans: Seq<int>, cursor: int, end: int, a: int)
    requires
        0 <= a < children_from(spans, cursor, end).len(),
    ensures
        cursor <= children_from(spans, cursor, end)[a] < end,
        children_from(spans, cursor, end)[a] < spans.len(),
        children_from(spans, cursor, end)[a] < spans[children_from(spans, cursor, end)[a]],
    decreases end - cursor,
{
    let walk = children_from(spans, cursor, end);
    let rest = children_from(spans, spans[cursor], end);
    assert(walk =~= seq![cursor] + rest);
    if a > 0 {
        lemma_children_bounds(spans, spans[cursor], end, a - 1);
    }
}

/// The number of entries in the spans of the given entries, taken together.
pub open spec fn span_sum(spans: Seq<int>, stops: Seq<int>) -> int
    decreases stops.len(),
{
    if stops.len() == 0 {
        0
    } else {
        spans[stops[0]] - stops[0] + span_sum(spans, stops.drop_first())
    }
}

/// The spans of the entries that the walk stops at fill the rest of the directory.
pub proof fn lemma_span_sum_from(spans: Seq<int>, d: int, cursor: int)
    requires
        nested(spans),
        at_child(spans, d, cursor),
    ensures
        span_sum(spans, children_from(spans, cursor, spans[d])) == spans[d] - cursor,
    decreases spans[d] - cursor,
{
    let end = spans[d];
    let walk = children_from(spans, cursor, end);
    if cursor < end {
        lemma_walk_step(spans, d, cursor);
        lemma_span_sum_from(spans, d, spans[cursor]);
        assert(walk.drop_first() =~= children_from(spans, spans[cursor], end));
    }
}

/// The spans of a directory's children fill the directory: together they
/// hold every entry of its span but the directory itself.
pub proof fn lemma_children_fill(spans: Seq<int>, d: int)
    requires
        nested(spans),
        0 <= d < spans.len(),
    ensures
        span_sum(spans, children(spans, d)) == spans[d] - d - 1,
{
    lemma_walk_begins(spans, d);
    lemma_span_sum_from(spans, d, d + 1);
}

/// How many of the entries from 1 up to, not including, `upto` have `d` as parent.
pub open spec fn count_children(spans: Seq<int>, d: int, upto: int) -> nat
    decreases upto,
{
    if upto <= 1 {
        0
    } else {
        count_children(spans, d, upto - 1) + if parent_of(spans, upto - 1) == d {
            1nat
        } else {
            0nat
        }
    }
}

/// Entries that come before a directory or behind its span are no children of it.
pub proof fn lemma_count_children_outside(spans: Seq<int>, d: int, from: int, upto: int)
    requires
        nested(spans),
        0 <= d < spans.len(),
        spans[d] <= from <= upto <= spans.len(),
    ensures
        count_children(spans, d, upto) == count_children(spans, d, from),
    decreases upto - from,
{
    if from < upto {
        lemma_count_children_outside(spans, d, from, upto - 1);
        if upto - 1 >= 1 {
            lemma_parent_of(spans, upto - 1);
        }
    }
}

} // verus!
