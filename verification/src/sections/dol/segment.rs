//! The segments of the executable.

use crate::number::push_decimal;
use crate::sections::Section;
use crate::{parse_as_u64, parsed};
use vstd::prelude::*;
use vstd::string::{StrSliceExecFns, StringExecFns};

verus! {

#[derive(Copy, Clone, Debug, PartialEq, Eq, Hash, Structural)]
pub enum SegmentType {
    Text,
    Data,
}

impl SegmentType {
    /// What the name of a segment of this type begins with.
    pub open spec fn prefix(&self) -> Seq<char> {
        match self {
            SegmentType::Text => seq!['.', 't', 'e', 'x', 't'],
            SegmentType::Data => seq!['.', 'd', 'a', 't', 'a'],
        }
    }

    /// The name of the segment of this type with the given number:
    /// `.text` or `.data`, and the number in decimal digits.
    pub fn fmt(&self, seg_num: u64) -> (r: String)
        ensures
            r@ == self.prefix() + crate::number::decimal_digits(seg_num as nat),
    {
        proof {
            reveal_strlit(".text");
            reveal_strlit(".data");
            assert(".text"@ =~= SegmentType::Text.prefix());
            assert(".data"@ =~= SegmentType::Data.prefix());
        }
        let mut name = match self {
            SegmentType::Text => String::from_str(".text"),
            SegmentType::Data => String::from_str(".data"),
        };
        push_decimal(&mut name, seg_num);
        name
    }
}

/// A segment of the executable. `offset` is counted from the beginning of
/// the image, not from that of the executable.
#[derive(Copy, Clone, Debug)]
pub struct Segment {
    pub offset: u64,
    pub size: usize,
    pub loading_address: u64,
    pub seg_type: SegmentType,
    pub seg_num: u64,
}

/// Whether `text` begins with the five characters of `prefix`.
pub open spec fn begins_with(text: Seq<char>, prefix: Seq<char>) -> bool {
    text.len() >= prefix.len() && text.subrange(0, prefix.len() as int) == prefix
}

/// The type and the number that the name of a segment gives: `.text` or
/// `.data` and a number behind it.
pub open spec fn parsed_segment_name(name: Seq<char>) -> Option<(SegmentType, u64)> {
    let kind = if begins_with(name, SegmentType::Text.prefix()) {
        Some(SegmentType::Text)
    } else if begins_with(name, SegmentType::Data.prefix()) {
        Some(SegmentType::Data)
    } else {
        None
    };
    match kind {
        Some(kind) => match parsed(name.subrange(5, name.len() as int)) {
            Some(n) => if n <= u64::MAX {
                Some((kind, n as u64))
            } else {
                None
            },
            None => None,
        },
        None => None,
    }
}

/// Whether `text` begins with the five characters of `prefix`.
fn has_prefix(text: &str, len: usize, prefix: &str) -> (r: bool)
    requires
        len == text@.len(),
        prefix@.len() == 5,
    ensures
        r == begins_with(text@, prefix@),
{
    if len < 5 {
        return false;
    }
    let mut i: usize = 0;
    while i < 5
        invariant
            0 <= i <= 5,
            len == text@.len(),
            len >= 5,
            prefix@.len() == 5,
            text@.subrange(0, i as int) == prefix@.subrange(0, i as int),
        decreases 5 - i,
    {
        if text.get_char(i) != prefix.get_char(i) {
            assert(text@.subrange(0, 5)[i as int] != prefix@[i as int]);
            return false;
        }
        assert(text@.subrange(0, i + 1) =~= text@.subrange(0, i as int).push(text@[i as int]));
        assert(prefix@.subrange(0, i + 1) =~= prefix@.subrange(0, i as int).push(
            prefix@[i as int],
        ));
        i += 1;
    }
    assert(prefix@.subrange(0, 5) =~= prefix@);
    true
}

impl Segment {
    /// An empty text segment.
    pub fn text() -> (r: Self)
        ensures
            r == (Segment {
                offset: 0,
                size: 0,
                loading_address: 0,
                seg_type: SegmentType::Text,
                seg_num: 0,
            }),
    {
        Self { offset: 0, size: 0, loading_address: 0, seg_type: SegmentType::Text, seg_num: 0 }
    }

    /// An empty data segment.
    pub fn data() -> (r: Self)
        ensures
            r == (Segment {
                offset: 0,
                size: 0,
                loading_address: 0,
                seg_type: SegmentType::Data,
                seg_num: 0,
            }),
    {
        Self { offset: 0, size: 0, loading_address: 0, seg_type: SegmentType::Data, seg_num: 0 }
    }

    /// Reads the name of a segment: `.text` or `.data`, and the number of
    /// the segment behind it, decimal, or hexadecimal behind `0x`.
    pub fn parse_segment_name(name: &str) -> (r: Option<(SegmentType, u64)>)
        ensures
            r == parsed_segment_name(name@),
    {
        proof {
            reveal_strlit(".text");
            reveal_strlit(".data");
            assert(".text"@ =~= SegmentType::Text.prefix());
            assert(".data"@ =~= SegmentType::Data.prefix());
        }
        let len = name.unicode_len();
        let kind = if has_prefix(name, len, ".text") {
            SegmentType::Text
        } else if has_prefix(name, len, ".data") {
            SegmentType::Data
        } else {
            return None;
        };
        match parse_as_u64(name.substring_char(5, len)) {
            Ok(num) => Some((kind, num)),
            Err(_) => None,
        }
    }

    /// The name of the segment.
    pub fn name(&self) -> (r: String)
        ensures
            r@ == self.seg_type.prefix() + crate::number::decimal_digits(self.seg_num as nat),
    {
        self.seg_type.fmt(self.seg_num)
    }

    /// Whether the segment is loaded to a range of memory that holds `mem_addr`.
    pub open spec fn loads_at(&self, mem_addr: u64) -> bool {
        self.loading_address <= mem_addr < self.loading_address + self.size
    }
}

impl Section for Segment {
    open spec fn spec_start(&self) -> u64 {
        self.offset
    }

    open spec fn spec_size(&self) -> usize {
        self.size
    }

    fn start(&self) -> u64 {
        self.offset
    }

    fn size(&self) -> usize {
        self.size
    }
}

} // verus!
