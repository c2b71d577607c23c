//! The apploader: the program that loads the executable. Here it is a
//! region of the image with a length.

use crate::bytes::u32_at;
use crate::sections::{word_at, ReadError, Section};
use vstd::prelude::*;

verus! {

/// Where the apploader begins in the image.
pub const APPLOADER_OFFSET: u64 = 0x2440;

/// The length of what stands before the code of the apploader.
pub const APPLOADER_HEADER_SIZE: usize = 0x20;

/// The apploader of an image.
pub struct Apploader {
    pub entry_point: u64,
    /// The length of the code.
    pub size: usize,
    /// The length of what follows the code.
    pub trailer_size: usize,
}

impl Apploader {
    /// The apploader lies at `offset` in `source`.
    pub open spec fn stored_at(&self, source: Seq<u8>, offset: int) -> bool {
        &&& self.entry_point == word_at(source, offset + 0x10)
        &&& self.size == word_at(source, offset + 0x14)
        &&& self.trailer_size == word_at(source, offset + 0x18)
    }

    /// Reads the apploader at `offset`: the entry point, the length of the
    /// code and that of the trailer, 32 bits each, from byte 16 on.
    pub fn new(iso: &[u8], offset: u64) -> (r: Result<Apploader, ReadError>)
        ensures
            offset + APPLOADER_HEADER_SIZE > iso@.len() ==> r == Err::<Apploader, ReadError>(
                ReadError::Truncated,
            ),
            offset + APPLOADER_HEADER_SIZE <= iso@.len() ==> r is Ok && r->Ok_0.stored_at(
                iso@,
                offset as int,
            ),
    {
        let len = iso.len();
        if len < APPLOADER_HEADER_SIZE || offset > (len - APPLOADER_HEADER_SIZE) as u64 {
            return Err(ReadError::Truncated);
        }
        let base = offset as usize;
        Ok(
            Apploader {
                entry_point: u32_at(iso, base + 0x10) as u64,
                size: u32_at(iso, base + 0x14) as usize,
                trailer_size: u32_at(iso, base + 0x18) as usize,
            },
        )
    }

    /// The length of the apploader in the image: header, code and trailer.
    pub open spec fn spec_total_size(&self) -> int {
        APPLOADER_HEADER_SIZE + self.size + self.trailer_size
    }

    /// The length of the apploader in the image, if the machine can say it.
    pub fn total_size(&self) -> (r: Option<usize>)
        ensures
            r == if self.spec_total_size() <= usize::MAX {
                Some(self.spec_total_size() as usize)
            } else {
                None
            },
    {
        match self.size.checked_add(self.trailer_size) {
            Some(both) => both.checked_add(APPLOADER_HEADER_SIZE),
            None => None,
        }
    }
}

impl Section for Apploader {
    open spec fn spec_start(&self) -> u64 {
        APPLOADER_OFFSET
    }

    open spec fn spec_size(&self) -> usize {
        if self.spec_total_size() <= usize::MAX {
            self.spec_total_size() as usize
        } else {
            usize::MAX
        }
    }

    fn start(&self) -> u64 {
        APPLOADER_OFFSET
    }

    fn size(&self) -> usize {
        match self.total_size() {
            Some(size) => size,
            None => usize::MAX,
        }
    }
}

} // verus!
