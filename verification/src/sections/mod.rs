//! The sections of a disc image.

use vstd::prelude::*;

pub mod apploader;
pub mod dol;
pub mod fst;
pub mod header;
pub mod section;

pub use section::Section;

verus! {

/// Why a section could not be read.
#[derive(Debug, Clone, Copy, PartialEq, Eq, Structural)]
pub enum ReadError {
    /// The source ends before the section does.
    Truncated,
    /// The magic word of the header is not that of a disc image.
    InvalidMagic,
    /// A text of the section is no UTF-8.
    InvalidText,
    /// The executable has no segment.
    NoSegments,
    /// A place or a length of the section is more than the machine can address.
    TooLarge,
}

/// The 32-bit big-endian number at `at`.
pub open spec fn word_at(source: Seq<u8>, at: int) -> int {
    crate::bytes::be32(source.subrange(at, at + 4))
}

} // verus!
