//! Writing the image: the files at their places, zero bytes between them
//! and behind the last, up to the length of an image.

use crate::bytes::zeros;
use crate::rom_rebuilder::ROM_SIZE;
use crate::WRITE_CHUNK_SIZE;
use vstd::prelude::*;

verus! {

/// One step of writing an image.
#[derive(Copy, Clone, Debug, PartialEq, Eq, Structural)]
pub enum WriteStep {
    /// Write `count` zero bytes.
    Zeros { count: u64 },
    /// Copy the `size` bytes of the file with the given index.
    Copy { file: usize, size: u64 },
}

/// Why an image cannot be written.
#[derive(Copy, Clone, Debug, PartialEq, Eq, Structural)]
pub enum WriteError {
    /// A file would reach beyond the length of an image.
    NotEnoughSpace,
    /// The file with the given index begins before the one before it ends.
    Overlap { file: usize },
}

impl WriteStep {
    /// How many bytes the step writes.
    pub open spec fn len(&self) -> int {
        match self {
            WriteStep::Zeros { count } => *count as int,
            WriteStep::Copy { size, .. } => *size as int,
        }
    }
}

/// The steps that write the files from `i` on, when `cursor` bytes are
/// written: for every file that is not empty, zero bytes up to its place,
/// then the file; at last zero bytes up to the length of an image. Fails
/// at the first file that begins before the cursor, or that would end
/// behind the length of an image.
pub open spec fn plan_from(places: Seq<u64>, sizes: Seq<u64>, i: int, cursor: int) -> Result<
    Seq<WriteStep>,
    WriteError,
>
    decreases places.len() - i,
{
    if i < 0 || i >= places.len() {
        Ok(seq![WriteStep::Zeros { count: (ROM_SIZE - cursor) as u64 }])
    } else if sizes[i] == 0 {
        plan_from(places, sizes, i + 1, cursor)
    } else if places[i] < cursor {
        Err(WriteError::Overlap { file: i as usize })
    } else if places[i] + sizes[i] > ROM_SIZE {
        Err(WriteError::NotEnoughSpace)
    } else {
        match plan_from(places, sizes, i + 1, places[i] + sizes[i]) {
            Ok(rest) => Ok(
                seq![
                    WriteStep::Zeros { count: (places[i] - cursor) as u64 },
                    WriteStep::Copy { file: i as usize, size: sizes[i] },
                ] + rest,
            ),
            Err(e) => Err(e),
        }
    }
}

/// How many bytes the first `upto` steps write.
pub open spec fn written(steps: Seq<WriteStep>, upto: int) -> int
    decreases upto,
{
    if upto <= 0 {
        0
    } else {
        written(steps, upto - 1) + steps[upto - 1].len()
    }
}

/// The step `k` writes the byte at `x`.
pub open spec fn writes_at(steps: Seq<WriteStep>, k: int, x: int) -> bool {
    0 <= k < steps.len() && written(steps, k) <= x < written(steps, k + 1)
}

/// What two rows of steps write is what the one and the other write.
pub proof fn lemma_written_concat(a: Seq<WriteStep>, b: Seq<WriteStep>, upto: int)
    requires
        0 <= upto <= b.len(),
    ensures
        written(a + b, a.len() + upto) == written(a, a.len() as int) + written(b, upto),
    decreases upto,
{
    if upto > 0 {
        lemma_written_concat(a, b, upto - 1);
        assert((a + b)[a.len() + upto - 1] == b[upto - 1]);
    } else {
        lemma_written_prefix(a + b, a, a.len() as int);
    }
}

/// What the first steps write does not depend on later steps.
pub proof fn lemma_written_prefix(a: Seq<WriteStep>, b: Seq<WriteStep>, upto: int)
    requires
        upto <= a.len(),
        upto <= b.len(),
        forall|k: int| 0 <= k < upto ==> a[k] == b[k],
    ensures
        written(a, upto) == written(b, upto),
    decreases upto,
{
    if upto > 0 {
        lemma_written_prefix(a, b, upto - 1);
    }
}

/// The steps of a plan fill an image: together they write as many bytes as
/// an image has left behind the cursor, and every file is copied to its place.
pub proof fn lemma_plan_fills(places: Seq<u64>, sizes: Seq<u64>, i: int, cursor: int)
    requires
        0 <= i,
        0 <= cursor <= ROM_SIZE,
        places.len() == sizes.len(),
        places.len() <= usize::MAX,
        plan_from(places, sizes, i, cursor) is Ok,
    ensures
        ({
            let steps = plan_from(places, sizes, i, cursor)->Ok_0;
            &&& written(steps, steps.len() as int) == ROM_SIZE - cursor
            &&& forall|k: int|
                0 <= k < steps.len() ==> ((#[trigger] steps[k]) matches WriteStep::Copy {
                    file,
                    size,
                } ==> i <= file < places.len() && size == sizes[file as int] && size > 0
                    && cursor + written(steps, k) == places[file as int])
        }),
    decreases places.len() - i,
{
    let steps = plan_from(places, sizes, i, cursor)->Ok_0;
    if i >= places.len() {
        assert(written(steps, 0) == 0);
    } else if sizes[i] == 0 {
        lemma_plan_fills(places, sizes, i + 1, cursor);
    } else {
        let next = places[i] + sizes[i];
        lemma_plan_fills(places, sizes, i + 1, next);
        let rest = plan_from(places, sizes, i + 1, next)->Ok_0;
        let head = seq![
            WriteStep::Zeros { count: (places[i] - cursor) as u64 },
            WriteStep::Copy { file: i as usize, size: sizes[i] },
        ];
        assert(steps == head + rest);
        assert(written(head, 0) == 0);
        assert(written(head, 1) == places[i] - cursor);
        assert(written(head, 2) == next - cursor);
        lemma_written_concat(head, rest, rest.len() as int);
        assert forall|k: int| 0 <= k < steps.len() implies ((
        #[trigger] steps[k]) matches WriteStep::Copy { file, size } ==> i <= file < places.len()
            && size == sizes[file as int] && size > 0 && cursor + written(steps, k)
            == places[file as int]) by {
            if k < 2 {
                lemma_written_prefix(steps, head, k);
            } else {
                assert(steps[k] == rest[k - 2]);
                lemma_written_concat(head, rest, k - 2);
            }
        }
    }
}

/// What the steps write grows from step to step.
pub proof fn lemma_written_grows(steps: Seq<WriteStep>, j: int, k: int)
    requires
        0 <= j <= k <= steps.len(),
    ensures
        0 <= written(steps, j) <= written(steps, k),
    decreases k,
{
    if k > 0 {
        if j < k {
            lemma_written_grows(steps, j, k - 1);
        } else {
            lemma_written_grows(steps, k - 1, k - 1);
        }
    }
}

/// Every byte that the steps write is written by one step, and by no other.
pub proof fn lemma_one_step_writes(steps: Seq<WriteStep>, x: int) -> (k: int)
    requires
        0 <= x < written(steps, steps.len() as int),
    ensures
        writes_at(steps, k, x),
        forall|other: int| writes_at(steps, other, x) ==> other == k,
{
    let k = lemma_find_step(steps, x, steps.len() as int);
    assert forall|other: int| writes_at(steps, other, x) implies other == k by {
        if other < k {
            lemma_written_grows(steps, other + 1, k);
        } else if other > k {
            lemma_written_grows(steps, k + 1, other);
        }
    }
    k
}

/// A step among the first `upto` that writes the byte at `x`.
pub proof fn lemma_find_step(steps: Seq<WriteStep>, x: int, upto: int) -> (k: int)
    requires
        0 <= upto <= steps.len(),
        0 <= x < written(steps, upto),
    ensures
        0 <= k < upto,
        writes_at(steps, k, x),
    decreases upto,
{
    if x >= written(steps, upto - 1) {
        upto - 1
    } else {
        lemma_find_step(steps, x, upto - 1)
    }
}

/// The steps of a plan for a whole image write every byte of the image,
/// each byte in one step and in no other: as part of a file, or as a zero
/// byte between files or behind the last.
pub proof fn lemma_image_filled(places: Seq<u64>, sizes: Seq<u64>, x: int) -> (k: int)
    requires
        places.len() == sizes.len(),
        places.len() <= usize::MAX,
        plan_from(places, sizes, 0, 0) is Ok,
        0 <= x < ROM_SIZE,
    ensures
        writes_at(plan_from(places, sizes, 0, 0)->Ok_0, k, x),
        forall|other: int|
            writes_at(plan_from(places, sizes, 0, 0)->Ok_0, other, x) ==> other == k,
{
    lemma_plan_fills(places, sizes, 0, 0);
    lemma_one_step_writes(plan_from(places, sizes, 0, 0)->Ok_0, x)
}

/// Appends `remaining` zero bytes to `output`, `WRITE_CHUNK_SIZE` at a time.
pub fn write_zeros(remaining: usize, output: &mut Vec<u8>)
    ensures
        final(output)@ == old(output)@ + zeros(remaining as int),
{
    let mut left = remaining;
    while left > 0
        invariant
            left <= remaining,
            output@ == old(output)@ + zeros(remaining - left),
        decreases left,
    {
        let count = if WRITE_CHUNK_SIZE < left {
            WRITE_CHUNK_SIZE
        } else {
            left
        };
        let ghost before = output@;
        crate::bytes::push_zeros(output, count);
        assert(output@ =~= old(output)@ + zeros(remaining - left + count));
        left -= count;
    }
    assert(zeros(0) =~= Seq::<u8>::empty());
    assert(output@ =~= old(output)@ + zeros(remaining as int));
}

} // verus!
