//! What all sections of an image have in common: a place and a length.

use std::cmp::Ordering;
use vstd::prelude::*;

verus! {

/// A section of the image.
pub trait Section {
    /// Where the section begins.
    spec fn spec_start(&self) -> u64;

    /// How many bytes the section has.
    spec fn spec_size(&self) -> usize;

    fn start(&self) -> (r: u64)
        ensures
            r == self.spec_start(),
    ;

    fn size(&self) -> (r: usize)
        ensures
            r == self.spec_size(),
    ;

    /// The offset of the last byte of the section.
    fn end(&self) -> (r: u64)
        requires
            1 <= self.spec_start() + self.spec_size() <= u64::MAX,
        ensures
            r == self.spec_start() + self.spec_size() - 1,
    {
        self.start() + (self.size() as u64) - 1
    }

    /// Where the section lies, seen from `offset`: `Less` if it ends before
    /// it, `Greater` if it begins behind it, `Equal` if `offset` is inside.
    fn compare_offset(&self, offset: u64) -> (r: Ordering)
        requires
            1 <= self.spec_start() + self.spec_size() <= u64::MAX,
        ensures
            r == Ordering::Less <==> self.spec_start() + self.spec_size() <= offset,
            r == Ordering::Greater <==> offset < self.spec_start() && offset < self.spec_start()
                + self.spec_size(),
            r == Ordering::Equal <==> self.spec_start() <= offset < self.spec_start()
                + self.spec_size(),
    {
        if self.end() < offset {
            Ordering::Less
        } else if self.start() > offset {
            Ordering::Greater
        } else {
            Ordering::Equal
        }
    }
}

} // verus!
