//! The header of the executable and the segments that it lists.

use crate::bytes::u32_at;
use crate::sections::{word_at, ReadError, Section};
use vstd::prelude::*;

pub mod segment;

use segment::{Segment, SegmentType};

verus! {

pub const TEXT_SEG_COUNT: usize = 7;

pub const DATA_SEG_COUNT: usize = 11;

pub const TOTAL_SEG_COUNT: usize = 18;

/// Where the offset of the executable stands in the header of the image.
pub const DOL_OFFSET_OFFSET: u64 = 0x0420;

/// The length of the header of the executable.
pub const DOL_HEADER_LEN: usize = 0x100;

/// The header of the executable. The text segments come first in
/// `segments`; `data_segments_index` is where the data segments begin.
pub struct DOLHeader {
    pub offset: u64,
    pub dol_size: usize,
    pub entry_point: u64,
    pub segments: Vec<Segment>,
    pub data_segments_index: usize,
}

/// The length that the header gives for the segment in `slot`.
pub open spec fn slot_size(source: Seq<u8>, offset: int, slot: int) -> int {
    word_at(source, offset + 0x90 + 4 * slot)
}

/// The slots before `upto` that hold a segment: those with a length other than 0.
pub open spec fn used_slots(source: Seq<u8>, offset: int, upto: int) -> Seq<int>
    decreases upto,
{
    if upto <= 0 {
        Seq::empty()
    } else if slot_size(source, offset, upto - 1) != 0 {
        used_slots(source, offset, upto - 1).push(upto - 1)
    } else {
        used_slots(source, offset, upto - 1)
    }
}

/// The segment of a slot is what the header says of it: a text segment in
/// the first seven slots, a data segment in the others, numbered from 0
/// within its type; the place counted from `offset`.
pub open spec fn in_slot(segment: Segment, source: Seq<u8>, offset: int, slot: int) -> bool {
    &&& segment.size == slot_size(source, offset, slot)
    &&& segment.offset == offset + word_at(source, offset + 4 * slot)
    &&& segment.loading_address == word_at(source, offset + 0x48 + 4 * slot)
    &&& segment.seg_type == if slot < TEXT_SEG_COUNT {
        SegmentType::Text
    } else {
        SegmentType::Data
    }
    &&& segment.seg_num == if slot < TEXT_SEG_COUNT {
        slot
    } else {
        slot - TEXT_SEG_COUNT
    }
}

/// The segment of the slot lies where a 64-bit number cannot say, or ends
/// where the machine cannot address it.
pub open spec fn out_of_reach(source: Seq<u8>, offset: int, slot: int) -> bool {
    slot_size(source, offset, slot) != 0 && (offset + word_at(source, offset + 4 * slot)
        > u64::MAX || word_at(source, offset + 4 * slot) + slot_size(source, offset, slot)
        > usize::MAX)
}

/// The greatest end of the first `upto` segments, counted from `offset`.
pub open spec fn greatest_end(segments: Seq<Segment>, offset: int, upto: int) -> int
    decreases upto,
{
    if upto <= 0 {
        0
    } else {
        let before = greatest_end(segments, offset, upto - 1);
        let here = segments[upto - 1].offset - offset + segments[upto - 1].size;
        if here > before {
            here
        } else {
            before
        }
    }
}

/// The first of the segments from `from` on that has the type and the number.
pub open spec fn first_segment_like(
    segments: Seq<Segment>,
    from: int,
    seg_type: SegmentType,
    number: u64,
) -> Option<int>
    decreases segments.len() - from,
{
    if from < 0 || from >= segments.len() {
        None
    } else if segments[from].seg_num == number && segments[from].seg_type == seg_type {
        Some(from)
    } else {
        first_segment_like(segments, from + 1, seg_type, number)
    }
}

/// The first of the segments from `from` on that is loaded around `mem_addr`.
pub open spec fn first_segment_around(segments: Seq<Segment>, from: int, mem_addr: u64) -> Option<
    int,
>
    decreases segments.len() - from,
{
    if from < 0 || from >= segments.len() {
        None
    } else if segments[from].loads_at(mem_addr) {
        Some(from)
    } else {
        first_segment_around(segments, from + 1, mem_addr)
    }
}

impl DOLHeader {
    /// The header is the one that lies at `offset` in `source`: one segment
    /// for each used slot, in the order of the slots.
    pub open spec fn stored_at(&self, source: Seq<u8>, offset: int) -> bool {
        let slots = used_slots(source, offset, TOTAL_SEG_COUNT as int);
        &&& self.offset == offset
        &&& self.segments@.len() == slots.len()
        &&& forall|k: int|
            0 <= k < slots.len() ==> in_slot(#[trigger] self.segments@[k], source, offset, slots[k])
        &&& self.data_segments_index == used_slots(source, offset, TEXT_SEG_COUNT as int).len()
        &&& self.data_segments_index <= self.segments@.len()
        &&& self.entry_point == word_at(source, offset + 0xe0)
        &&& self.dol_size == greatest_end(self.segments@, offset, self.segments@.len() as int)
    }

    /// Why the header at `offset` cannot be read, if it cannot: the source
    /// ends before the header does, a segment lies or ends where the machine
    /// cannot address it, or there is no segment.
    pub open spec fn read_error(source: Seq<u8>, offset: int) -> Option<ReadError> {
        if offset + DOL_HEADER_LEN > source.len() {
            Some(ReadError::Truncated)
        } else if exists|slot: int| 0 <= slot < TOTAL_SEG_COUNT && out_of_reach(source, offset, slot) {
            Some(ReadError::TooLarge)
        } else if used_slots(source, offset, TOTAL_SEG_COUNT as int).len() == 0 {
            Some(ReadError::NoSegments)
        } else {
            None
        }
    }

    /// Reads the header of the executable at `offset`: the eighteen slots
    /// of places, of loading addresses and of lengths, and the entry point.
    /// A slot with length 0 holds no segment. The length of the executable
    /// is the greatest end of a segment.
    #[verifier::rlimit(40)]
    pub fn new(iso: &[u8], offset: u64) -> (r: Result<Self, ReadError>)
        ensures
            match r {
                Ok(dol) => DOLHeader::read_error(iso@, offset as int) is None && dol.stored_at(
                    iso@,
                    offset as int,
                ),
                Err(e) => DOLHeader::read_error(iso@, offset as int) == Some(e),
            },
    {
        let len = iso.len();
        if len < DOL_HEADER_LEN || offset > (len - DOL_HEADER_LEN) as u64 {
            return Err(ReadError::Truncated);
        }
        let base = offset as usize;
        let ghost source = iso@;
        let ghost start = offset as int;
        let mut segments: Vec<Segment> = Vec::new();
        let mut data_segments_index: usize = 0;
        let mut dol_size: usize = 0;
        let mut slot: usize = 0;
        while slot < TOTAL_SEG_COUNT
            invariant
                0 <= slot <= TOTAL_SEG_COUNT,
                len == iso@.len(),
                source == iso@,
                start == offset as int,
                base == offset,
                base + DOL_HEADER_LEN <= len,
                forall|k: int| 0 <= k < slot ==> !out_of_reach(source, start, k),
                segments@.len() == used_slots(source, start, slot as int).len(),
                forall|k: int|
                    0 <= k < segments@.len() ==> in_slot(
                        #[trigger] segments@[k],
                        source,
                        start,
                        used_slots(source, start, slot as int)[k],
                    ),
                data_segments_index == used_slots(
                    source,
                    start,
                    if slot < TEXT_SEG_COUNT {
                        slot as int
                    } else {
                        TEXT_SEG_COUNT as int
                    },
                ).len(),
                dol_size == greatest_end(segments@, start, segments@.len() as int),
                data_segments_index <= segments@.len(),
            decreases TOTAL_SEG_COUNT - slot,
        {
            let size = u32_at(iso, base + 0x90 + 4 * slot) as usize;
            if size != 0 {
                let place = u32_at(iso, base + 4 * slot);
                let loading_address = u32_at(iso, base + 0x48 + 4 * slot) as u64;
                let seg_offset = match offset.checked_add(place as u64) {
                    Some(seg_offset) => seg_offset,
                    None => {
                        assert(out_of_reach(source, start, slot as int));
                        return Err(ReadError::TooLarge);
                    },
                };
                let end = match (place as usize).checked_add(size) {
                    Some(end) => end,
                    None => {
                        assert(out_of_reach(source, start, slot as int));
                        return Err(ReadError::TooLarge);
                    },
                };
                let segment = if slot < TEXT_SEG_COUNT {
                    Segment {
                        offset: seg_offset,
                        size,
                        loading_address,
                        seg_type: SegmentType::Text,
                        seg_num: slot as u64,
                    }
                } else {
                    Segment {
                        offset: seg_offset,
                        size,
                        loading_address,
                        seg_type: SegmentType::Data,
                        seg_num: (slot - TEXT_SEG_COUNT) as u64,
                    }
                };
                let ghost before = segments@;
                segments.push(segment);
                proof {
                    assert(greatest_end(segments@, start, before.len() as int) == greatest_end(
                        before,
                        start,
                        before.len() as int,
                    )) by {
                        lemma_greatest_end_prefix(before, segments@, start, before.len() as int);
                    }
                }
                if end > dol_size {
                    dol_size = end;
                }
                if slot < TEXT_SEG_COUNT {
                    data_segments_index = segments.len();
                }
            }
            slot += 1;
        }
        if segments.len() == 0 {
            return Err(ReadError::NoSegments);
        }
        let entry_point = u32_at(iso, base + 0xe0) as u64;
        Ok(Self { offset, dol_size, entry_point, segments, data_segments_index })
    }

    /// The segment with the given type and number, if there is one.
    pub fn find_segment(&self, seg_type: SegmentType, number: u64) -> (r: Option<&Segment>)
        requires
            self.data_segments_index <= self.segments@.len(),
        ensures
            match first_segment_like(
                self.segments@,
                if seg_type == SegmentType::Data {
                    self.data_segments_index as int
                } else {
                    0
                },
                seg_type,
                number,
            ) {
                Some(i) => r == Some(&self.segments@[i]),
                None => r is None,
            },
    {
        let ghost first = first_segment_like(
            self.segments@,
            if seg_type == SegmentType::Data {
                self.data_segments_index as int
            } else {
                0
            },
            seg_type,
            number,
        );
        let len = self.segments.len();
        match self.segment_index(seg_type, number) {
            Some(i) => {
                assert(first is Some);
                assert(first == Some(i as int));
                Some(&self.segments[i])
            },
            None => None,
        }
    }

    /// The index of the segment with the given type and number, if there is
    /// one: the first such among the text segments, or among the data
    /// segments.
    pub fn segment_index(&self, seg_type: SegmentType, number: u64) -> (r: Option<usize>)
        requires
            self.data_segments_index <= self.segments@.len(),
        ensures
            match first_segment_like(
                self.segments@,
                if seg_type == SegmentType::Data {
                    self.data_segments_index as int
                } else {
                    0
                },
                seg_type,
                number,
            ) {
                Some(i) => 0 <= i < self.segments@.len() && r == Some(i as usize),
                None => r is None,
            },
    {
        let start = match seg_type {
            SegmentType::Data => self.data_segments_index,
            SegmentType::Text => 0,
        };
        let mut i = start;
        while i < self.segments.len()
            invariant
                start <= i <= self.segments@.len(),
                start == if seg_type == SegmentType::Data {
                    self.data_segments_index
                } else {
                    0
                },
                first_segment_like(self.segments@, start as int, seg_type, number)
                    == first_segment_like(self.segments@, i as int, seg_type, number),
            decreases self.segments@.len() - i,
        {
            let segment = &self.segments[i];
            if segment.seg_num == number && segment.seg_type == seg_type {
                return Some(i);
            }
            i += 1;
        }
        None
    }

    /// The segments, the text segments first.
    pub fn iter_segments(&self) -> (r: &Vec<Segment>)
        ensures
            r@ == self.segments@,
    {
        &self.segments
    }

    /// The length of the executable at `dol_addr`, from the places and
    /// lengths in its header: the greatest end of a slot.
    pub fn stored_size(iso: &[u8], dol_addr: u64) -> (r: Result<u64, ReadError>)
        ensures
            dol_addr + DOL_HEADER_LEN > iso@.len() ==> r == Err::<u64, ReadError>(
                ReadError::Truncated,
            ),
            dol_addr + DOL_HEADER_LEN <= iso@.len() ==> r is Ok && r->Ok_0 == greatest_slot_end(
                iso@,
                dol_addr as int,
                TOTAL_SEG_COUNT as int,
            ),
    {
        let len = iso.len();
        if len < DOL_HEADER_LEN || dol_addr > (len - DOL_HEADER_LEN) as u64 {
            return Err(ReadError::Truncated);
        }
        let base = dol_addr as usize;
        let mut dol_size: u64 = 0;
        let mut slot: usize = 0;
        while slot < TOTAL_SEG_COUNT
            invariant
                0 <= slot <= TOTAL_SEG_COUNT,
                len == iso@.len(),
                base == dol_addr,
                base + DOL_HEADER_LEN <= len,
                dol_size == greatest_slot_end(iso@, dol_addr as int, slot as int),
                dol_size <= 0x2_0000_0000,
            decreases TOTAL_SEG_COUNT - slot,
        {
            let place = u32_at(iso, base + 4 * slot) as u64;
            let size = u32_at(iso, base + 0x90 + 4 * slot) as u64;
            if place + size > dol_size {
                dol_size = place + size;
            }
            slot += 1;
        }
        Ok(dol_size)
    }

    /// The first segment that is loaded to a range of memory that holds `mem_addr`.
    pub fn segment_at_addr(&self, mem_addr: u64) -> (r: Option<&Segment>)
        ensures
            match first_segment_around(self.segments@, 0, mem_addr) {
                Some(i) => r == Some(&self.segments@[i]),
                None => r is None,
            },
    {
        let mut i: usize = 0;
        while i < self.segments.len()
            invariant
                0 <= i <= self.segments@.len(),
                first_segment_around(self.segments@, 0, mem_addr) == first_segment_around(
                    self.segments@,
                    i as int,
                    mem_addr,
                ),
            decreases self.segments@.len() - i,
        {
            let segment = &self.segments[i];
            if segment.loading_address <= mem_addr && mem_addr - segment.loading_address
                < segment.size as u64 {
                return Some(segment);
            }
            i += 1;
        }
        None
    }
}

/// The greatest end of the slots before `upto`, counted from the beginning
/// of the executable: place and length of each slot, added.
pub open spec fn greatest_slot_end(source: Seq<u8>, offset: int, upto: int) -> int
    decreases upto,
{
    if upto <= 0 {
        0
    } else {
        let before = greatest_slot_end(source, offset, upto - 1);
        let here = word_at(source, offset + 4 * (upto - 1)) + slot_size(source, offset, upto - 1);
        if here > before {
            here
        } else {
            before
        }
    }
}

/// The greatest end of the first segments does not depend on later ones.
pub proof fn lemma_greatest_end_prefix(a: Seq<Segment>, b: Seq<Segment>, offset: int, upto: int)
    requires
        upto <= a.len(),
        upto <= b.len(),
        forall|k: int| 0 <= k < upto ==> a[k] == b[k],
    ensures
        greatest_end(a, offset, upto) == greatest_end(b, offset, upto),
    decreases upto,
{
    if upto > 0 {
        lemma_greatest_end_prefix(a, b, offset, upto - 1);
    }
}

impl Section for DOLHeader {
    open spec fn spec_start(&self) -> u64 {
        self.offset
    }

    open spec fn spec_size(&self) -> usize {
        DOL_HEADER_LEN
    }

    fn start(&self) -> u64 {
        self.offset
    }

    fn size(&self) -> usize {
        DOL_HEADER_LEN
    }
}

} // verus!
