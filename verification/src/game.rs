//! An image as a whole: its sections, and which of them owns a byte.

use crate::order::{lemma_insert_at, sorted_by_key};
use crate::paths::{APPLOADER_PATH, DOL_PATH, FST_PATH, HEADER_PATH};
use crate::sections::apploader::{Apploader, APPLOADER_HEADER_SIZE, APPLOADER_OFFSET};
use crate::sections::dol::segment::Segment;
use crate::sections::dol::{DOLHeader, DOL_HEADER_LEN};
use crate::sections::fst::decode::shaped;
use crate::sections::fst::entry::{DirectoryEntry, Entry};
use crate::sections::fst::path::entry_at_path;
use crate::sections::fst::source::decode_error;
use crate::sections::fst::tree::children;
use crate::sections::fst::{FstError, FST};
use crate::sections::header::{Header, GAME_HEADER_SIZE};
use crate::sections::{word_at, ReadError, Section};
use vstd::prelude::*;
use vstd::string::StringExecFns;
use vstd::utf8::encode_utf8;

verus! {

/// An image: its header, its apploader, its table and its executable.
pub struct Game {
    pub header: Header,
    pub apploader: Apploader,
    pub fst: FST,
    pub dol: DOLHeader,
}

/// Why an image could not be opened: the section that could not be read,
/// and why not.
#[derive(Debug, Clone, Copy, PartialEq, Eq, Structural)]
pub enum GameError {
    Header(ReadError),
    Apploader(ReadError),
    Dol(ReadError),
    Fst(FstError),
}

/// What a section of the layout is.
#[derive(Debug, Clone, Copy, PartialEq, Eq, Structural)]
pub enum SectionKind {
    Header,
    Apploader,
    Dol,
    /// The segment of the executable with this index among its segments.
    Segment(usize),
    Fst,
    /// The file with this index in the table.
    File(usize),
}

/// A section of the layout: what it is, where it begins and how long it is.
#[derive(Debug, Clone, Copy, PartialEq, Eq, Structural)]
pub struct LayoutSection {
    pub kind: SectionKind,
    pub start: u64,
    pub size: usize,
}

impl LayoutSection {
    /// The section owns the byte at `offset`.
    pub open spec fn owns(&self, offset: u64) -> bool {
        self.start <= offset < self.start + self.size
    }
}

impl Section for LayoutSection {
    open spec fn spec_start(&self) -> u64 {
        self.start
    }

    open spec fn spec_size(&self) -> usize {
        self.size
    }

    fn start(&self) -> u64 {
        self.start
    }

    fn size(&self) -> usize {
        self.size
    }
}

/// The sections of an image in the order of their places.
pub struct ROMLayout(pub Vec<LayoutSection>);

/// Where a section begins, which the sections are ordered by.
pub open spec fn start_key() -> spec_fn(LayoutSection) -> int {
    |section: LayoutSection| section.start as int
}

/// The sections of the first `upto` segments.
pub open spec fn segment_sections(segments: Seq<Segment>, upto: int) -> Seq<LayoutSection>
    decreases upto,
{
    if upto <= 0 {
        Seq::empty()
    } else {
        segment_sections(segments, upto - 1).push(
            LayoutSection {
                kind: SectionKind::Segment((upto - 1) as usize),
                start: segments[upto - 1].offset,
                size: segments[upto - 1].size,
            },
        )
    }
}

/// The sections of the files among the first `upto` entries.
pub open spec fn file_sections(entries: Seq<Entry>, upto: int) -> Seq<LayoutSection>
    decreases upto,
{
    if upto <= 0 {
        Seq::empty()
    } else {
        match entries[upto - 1] {
            Entry::File(file) => file_sections(entries, upto - 1).push(
                LayoutSection {
                    kind: SectionKind::File((upto - 1) as usize),
                    start: file.file_offset,
                    size: file.size,
                },
            ),
            Entry::Directory(_) => file_sections(entries, upto - 1),
        }
    }
}

/// What a name stands for in an image: one of the four system files, an
/// entry of the table, a segment of the executable, or nothing.
#[derive(Debug, Clone, Copy, PartialEq, Eq, Structural)]
pub enum NamedSection {
    Header,
    Apploader,
    Dol,
    Fst,
    /// The entry of the table with this index.
    Entry(usize),
    /// The segment with this index among the segments of the executable.
    Segment(usize),
    Nothing,
}

impl Game {
    /// The image is the one that lies at `offset` in `source`.
    pub open spec fn stored_at(&self, source: Seq<u8>, offset: int) -> bool {
        &&& self.header.stored_at(source, offset)
        &&& self.apploader.stored_at(source, offset + APPLOADER_OFFSET)
        &&& self.dol.stored_at(source, offset + self.header.dol_offset)
        &&& self.fst.stored_at(source, offset + self.header.fst_offset)
    }

    /// Why the image at `offset` cannot be opened, if it cannot: what is
    /// wrong with the first of its sections that cannot be read.
    pub open spec fn open_error(source: Seq<u8>, offset: int) -> Option<GameError> {
        let dol = offset + word_at(source, offset + 0x420);
        let fst = offset + word_at(source, offset + 0x424);
        if Header::read_error(source, offset) is Some {
            Some(GameError::Header(Header::read_error(source, offset)->0))
        } else if offset + APPLOADER_OFFSET + APPLOADER_HEADER_SIZE > source.len() {
            Some(GameError::Apploader(ReadError::Truncated))
        } else if DOLHeader::read_error(source, dol) is Some {
            Some(GameError::Dol(DOLHeader::read_error(source, dol)->0))
        } else if decode_error(source, fst) is Some {
            Some(GameError::Fst(decode_error(source, fst)->0))
        } else {
            None
        }
    }

    /// Opens the image at `offset`: reads the header, the apploader, the
    /// header of the executable and the table, in this order, the last two
    /// where the header says they are. Fails with the first section that
    /// cannot be read.
    pub fn open(iso: &[u8], offset: u64) -> (r: Result<Game, GameError>)
        ensures
            match r {
                Ok(game) => Game::open_error(iso@, offset as int) is None && game.stored_at(
                    iso@,
                    offset as int,
                ),
                Err(e) => Game::open_error(iso@, offset as int) == Some(e),
            },
    {
        let header = match Header::new(iso, offset) {
            Ok(header) => header,
            Err(e) => {
                return Err(GameError::Header(e));
            },
        };
        Game::open_behind(iso, offset, header)
    }

    /// What is wrong with the first section behind the header that cannot
    /// be read, the header given.
    pub open spec fn error_behind(source: Seq<u8>, offset: int, header: Header) -> Option<
        GameError,
    > {
        if offset + APPLOADER_OFFSET + APPLOADER_HEADER_SIZE > source.len() {
            Some(GameError::Apploader(ReadError::Truncated))
        } else if DOLHeader::read_error(source, offset + header.dol_offset) is Some {
            Some(GameError::Dol(DOLHeader::read_error(source, offset + header.dol_offset)->0))
        } else if decode_error(source, offset + header.fst_offset) is Some {
            Some(GameError::Fst(decode_error(source, offset + header.fst_offset)->0))
        } else {
            None
        }
    }

    /// Reads the sections behind the header, which is given.
    #[verifier::rlimit(40)]
    fn open_behind(iso: &[u8], offset: u64, header: Header) -> (r: Result<Game, GameError>)
        requires
            header.dol_offset < 0x1_0000_0000,
            header.fst_offset < 0x1_0000_0000,
            offset <= iso@.len(),
        ensures
            match r {
                Ok(game) => {
                    &&& Game::error_behind(iso@, offset as int, header) is None
                    &&& game.header == header
                    &&& game.apploader.stored_at(iso@, offset + APPLOADER_OFFSET)
                    &&& game.dol.stored_at(iso@, offset + header.dol_offset)
                    &&& game.fst.stored_at(iso@, offset + header.fst_offset)
                },
                Err(e) => Game::error_behind(iso@, offset as int, header) == Some(e),
            },
    {
        let len = iso.len();
        let apploader_offset = match offset.checked_add(APPLOADER_OFFSET) {
            Some(at) => at,
            None => {
                return Err(GameError::Apploader(ReadError::Truncated));
            },
        };
        let apploader = match Apploader::new(iso, apploader_offset) {
            Ok(apploader) => apploader,
            Err(e) => {
                return Err(GameError::Apploader(e));
            },
        };
        let dol_offset = match offset.checked_add(header.dol_offset) {
            Some(at) => at,
            None => {
                return Err(GameError::Dol(ReadError::Truncated));
            },
        };
        let dol = match DOLHeader::new(iso, dol_offset) {
            Ok(dol) => dol,
            Err(e) => {
                return Err(GameError::Dol(e));
            },
        };
        let fst_offset = match offset.checked_add(header.fst_offset) {
            Some(at) => at,
            None => {
                assert(!crate::sections::fst::source::has_record(
                    iso@,
                    offset + header.fst_offset,
                    0,
                ));
                return Err(GameError::Fst(FstError::Truncated));
            },
        };
        let fst = match FST::new(iso, fst_offset) {
            Ok(fst) => fst,
            Err(e) => {
                return Err(GameError::Fst(e));
            },
        };
        Ok(Game { header, apploader, fst, dol })
    }

    /// The sections of the image before they are put in order: the header,
    /// the apploader, the header of the executable, its segments, the
    /// table, and the files of the table.
    pub open spec fn sections(&self) -> Seq<LayoutSection> {
        seq![
            LayoutSection { kind: SectionKind::Header, start: 0, size: GAME_HEADER_SIZE },
            LayoutSection {
                kind: SectionKind::Apploader,
                start: APPLOADER_OFFSET,
                size: self.apploader.spec_size(),
            },
            LayoutSection { kind: SectionKind::Dol, start: self.dol.offset, size: DOL_HEADER_LEN },
        ] + segment_sections(self.dol.segments@, self.dol.segments@.len() as int) + seq![
            LayoutSection { kind: SectionKind::Fst, start: self.fst.offset, size: self.fst.size },
        ] + file_sections(self.fst.entries@, self.fst.entries@.len() as int)
    }

    /// The sections of the image in the order of their places; sections
    /// with the same place in the order of `sections`.
    #[verifier::rlimit(40)]
    pub fn rom_layout(&self) -> (layout: ROMLayout)
        ensures
            layout.0@ == sorted_by_key(self.sections(), self.sections().len() as int, start_key()),
    {
        let mut layout: Vec<LayoutSection> = Vec::new();
        layout.push(
            LayoutSection {
                kind: SectionKind::Header,
                start: self.header.start(),
                size: self.header.size(),
            },
        );
        layout.push(
            LayoutSection {
                kind: SectionKind::Apploader,
                start: self.apploader.start(),
                size: self.apploader.size(),
            },
        );
        layout.push(
            LayoutSection { kind: SectionKind::Dol, start: self.dol.start(), size: self.dol.size() },
        );
        let ghost head = layout@;
        let mut i: usize = 0;
        assert(layout@ =~= head + segment_sections(self.dol.segments@, 0));
        while i < self.dol.segments.len()
            invariant
                0 <= i <= self.dol.segments@.len(),
                layout@ == head + segment_sections(self.dol.segments@, i as int),
            decreases self.dol.segments@.len() - i,
        {
            let segment = &self.dol.segments[i];
            layout.push(
                LayoutSection {
                    kind: SectionKind::Segment(i),
                    start: segment.start(),
                    size: segment.size(),
                },
            );
            assert(layout@ =~= head + segment_sections(self.dol.segments@, i + 1));
            i += 1;
        }
        layout.push(
            LayoutSection { kind: SectionKind::Fst, start: self.fst.offset, size: self.fst.size },
        );
        let ghost middle = layout@;
        let mut k: usize = 0;
        assert(layout@ =~= middle + file_sections(self.fst.entries@, 0));
        while k < self.fst.entries.len()
            invariant
                0 <= k <= self.fst.entries@.len(),
                layout@ == middle + file_sections(self.fst.entries@, k as int),
            decreases self.fst.entries@.len() - k,
        {
            match &self.fst.entries[k] {
                Entry::File(file) => {
                    layout.push(
                        LayoutSection {
                            kind: SectionKind::File(k),
                            start: file.file_offset,
                            size: file.size,
                        },
                    );
                },
                Entry::Directory(_) => {},
            }
            assert(layout@ =~= middle + file_sections(self.fst.entries@, k + 1));
            k += 1;
        }
        assert(layout@ == self.sections());
        ROMLayout(sort_sections(layout))
    }

    /// The listing of a directory: one line for each entry that lies in it
    /// directly, in the order of the table; the path of the entry, or its
    /// long form.
    #[verifier::rlimit(40)]
    pub fn print_directory(&self, dir: &DirectoryEntry, long_format: bool) -> (lines: Vec<String>)
        requires
            dir.stands_in(self.fst.entries@),
        ensures
            lines@.len() == children(self.fst.spans(), dir.info.index as int).len(),
            forall|k: int|
                0 <= k < lines@.len() ==> {
                    let child = self.fst.entries@[children(
                        self.fst.spans(),
                        dir.info.index as int,
                    )[k]];
                    (#[trigger] lines@[k])@ == if long_format {
                        child.long_form()
                    } else {
                        child.spec_info().full_path@
                    }
                },
    {
        let ghost all = children(self.fst.spans(), dir.info.index as int);
        let mut lines: Vec<String> = Vec::new();
        let mut iter = dir.iter_contents(self.fst.entries.as_slice());
        loop
            invariant
                iter.well_formed(),
                iter.dir == dir,
                iter.fst@ == self.fst.entries@,
                all == children(self.fst.spans(), dir.info.index as int),
                lines@.len() + iter.remaining().len() == all.len(),
                iter.remaining() == all.subrange(lines@.len() as int, all.len() as int),
                forall|k: int|
                    0 <= k < lines@.len() ==> (#[trigger] lines@[k])@ == if long_format {
                        self.fst.entries@[all[k]].long_form()
                    } else {
                        self.fst.entries@[all[k]].spec_info().full_path@
                    },
            ensures
                lines@.len() == all.len(),
            decreases iter.remaining().len(),
        {
            let ghost before = iter.remaining();
            match iter.next() {
                Some(entry) => {
                    assert(before[0] == all[lines@.len() as int]);
                    assert(before.drop_first() =~= all.subrange(
                        lines@.len() as int + 1,
                        all.len() as int,
                    ));
                    let line = if long_format {
                        entry.format_long()
                    } else {
                        entry.info().full_path.clone()
                    };
                    lines.push(line);
                },
                None => {
                    break ;
                },
            }
        }
        lines
    }

    /// What the name stands for: one of the four system files by its path;
    /// else the entry of the table that the name, as a path, leads to; else
    /// the segment of the executable that has the name; else nothing.
    pub fn section_with_name(&self, filename: &str) -> (r: NamedSection)
        requires
            shaped(self.fst.entries@),
            self.dol.data_segments_index <= self.dol.segments@.len(),
        ensures
            filename@ == HEADER_PATH@ ==> r == NamedSection::Header,
            filename@ != HEADER_PATH@ && filename@ == APPLOADER_PATH@ ==> r
                == NamedSection::Apploader,
            filename@ != HEADER_PATH@ && filename@ != APPLOADER_PATH@ && filename@ == DOL_PATH@
                ==> r == NamedSection::Dol,
            filename@ != HEADER_PATH@ && filename@ != APPLOADER_PATH@ && filename@ != DOL_PATH@
                && filename@ == FST_PATH@ ==> r == NamedSection::Fst,
            filename@ != HEADER_PATH@ && filename@ != APPLOADER_PATH@ && filename@ != DOL_PATH@
                && filename@ != FST_PATH@ ==> (match entry_at_path(
                self.fst.entries@,
                encode_utf8(filename@),
            ) {
                Some(i) => r == NamedSection::Entry(i as usize),
                None => match crate::sections::dol::segment::parsed_segment_name(filename@) {
                    Some((seg_type, number)) => match crate::sections::dol::first_segment_like(
                        self.dol.segments@,
                        if seg_type == crate::sections::dol::segment::SegmentType::Data {
                            self.dol.data_segments_index as int
                        } else {
                            0
                        },
                        seg_type,
                        number,
                    ) {
                        Some(k) => r == NamedSection::Segment(k as usize),
                        None => r == NamedSection::Nothing,
                    },
                    None => r == NamedSection::Nothing,
                },
            }),
    {
        if same_text(filename, HEADER_PATH) {
            return NamedSection::Header;
        }
        if same_text(filename, APPLOADER_PATH) {
            return NamedSection::Apploader;
        }
        if same_text(filename, DOL_PATH) {
            return NamedSection::Dol;
        }
        if same_text(filename, FST_PATH) {
            return NamedSection::Fst;
        }
        match self.fst.index_for_path(filename) {
            Some(index) => NamedSection::Entry(index),
            None => match Segment::parse_segment_name(filename) {
                Some((seg_type, number)) => match self.dol.segment_index(seg_type, number) {
                    Some(k) => NamedSection::Segment(k),
                    None => NamedSection::Nothing,
                },
                None => NamedSection::Nothing,
            },
        }
    }
}

/// Whether two texts are the same.
pub fn same_text(a: &str, b: &str) -> (same: bool)
    ensures
        same == (a@ == b@),
{
    let same = crate::bytes::bytes_eq(a.as_bytes(), b.as_bytes());
    proof {
        if same {
            crate::bytes::lemma_encode_injective(a@, b@);
        }
    }
    same
}

/// Puts the sections in the order of their places; sections with the same
/// place stay in the order in which they came.
pub fn sort_sections(sections: Vec<LayoutSection>) -> (sorted: Vec<LayoutSection>)
    ensures
        sorted@ == sorted_by_key(sections@, sections@.len() as int, start_key()),
{
    let mut sorted: Vec<LayoutSection> = Vec::new();
    let mut taken: usize = 0;
    assert(sorted@ =~= sorted_by_key(sections@, 0, start_key()));
    while taken < sections.len()
        invariant
            0 <= taken <= sections@.len(),
            sorted@ == sorted_by_key(sections@, taken as int, start_key()),
        decreases sections@.len() - taken,
    {
        let section = sections[taken];
        let mut at: usize = sorted.len();
        while at > 0 && sorted[at - 1].start > section.start
            invariant
                0 <= at <= sorted@.len(),
                forall|j: int| at <= j < sorted@.len() ==> (#[trigger] sorted@[j]).start
                    > section.start,
            decreases at,
        {
            at -= 1;
        }
        proof {
            lemma_insert_at(sorted@, section, start_key(), at as int);
        }
        sorted.insert(at, section);
        taken += 1;
    }
    sorted
}

/// The section that halving the row from `low` up to, not including,
/// `high` finds for `offset`: the one in the middle if it holds `offset`,
/// else what is found before it if it begins behind `offset`, and behind
/// it if not.
pub open spec fn search(sections: Seq<LayoutSection>, offset: u64, low: int, high: int) -> Option<
    int,
>
    decreases high - low,
{
    if low < 0 || low >= high {
        None
    } else {
        let middle = low + (high - low) / 2;
        if sections[middle].start > offset {
            search(sections, offset, low, middle)
        } else if offset - sections[middle].start < sections[middle].size {
            Some(middle)
        } else {
            search(sections, offset, middle + 1, high)
        }
    }
}

impl ROMLayout {
    /// The sections stand in the order of their places, and no two of them
    /// overlap.
    pub open spec fn apart(&self) -> bool {
        forall|i: int, j: int|
            0 <= i < j < self.0@.len() ==> (#[trigger] self.0@[i]).start + self.0@[i].size <= (
            #[trigger] self.0@[j]).start
    }

    /// The section that owns the byte at `offset`, if there is one: found
    /// by halving the row of sections, each time by whether the section in
    /// the middle ends before `offset`, begins behind it, or holds it.
    ///
    /// What is found owns the byte. Where the sections stand in the order
    /// of their places and do not overlap, the owner is found if there is one.
    pub fn find_offset(&self, offset: u64) -> (r: Option<&LayoutSection>)
        ensures
            match search(self.0@, offset, 0, self.0@.len() as int) {
                Some(i) => 0 <= i < self.0@.len() && r == Some(&self.0@[i]),
                None => r is None,
            },
            r matches Some(section) ==> section.owns(offset),
            r is None && self.apart() ==> forall|i: int|
                0 <= i < self.0@.len() ==> !(#[trigger] self.0@[i]).owns(offset),
    {
        let mut low: usize = 0;
        let mut high: usize = self.0.len();
        while low < high
            invariant
                0 <= low <= high <= self.0@.len(),
                search(self.0@, offset, 0, self.0@.len() as int) == search(
                    self.0@,
                    offset,
                    low as int,
                    high as int,
                ),
                self.apart() ==> forall|i: int|
                    0 <= i < low ==> (#[trigger] self.0@[i]).start + self.0@[i].size <= offset,
                self.apart() ==> forall|i: int|
                    high <= i < self.0@.len() ==> offset < (#[trigger] self.0@[i]).start,
            decreases high - low,
        {
            let middle = low + (high - low) / 2;
            let section = &self.0[middle];
            if section.start > offset {
                proof {
                    if self.apart() {
                        assert forall|i: int| middle <= i < self.0@.len() implies offset < (
                        #[trigger] self.0@[i]).start by {
                            if i > middle {
                                assert(self.0@[middle as int].start + self.0@[middle as int].size
                                    <= self.0@[i].start);
                            }
                        }
                    }
                }
                high = middle;
            } else if offset - section.start < section.size as u64 {
                return Some(section);
            } else {
                proof {
                    if self.apart() {
                        assert forall|i: int| 0 <= i < middle + 1 implies (
                        #[trigger] self.0@[i]).start + self.0@[i].size <= offset by {
                            if i < middle {
                                assert(self.0@[i].start + self.0@[i].size
                                    <= self.0@[middle as int].start);
                            }
                        }
                    }
                }
                low = middle + 1;
            }
        }
        None
    }

    pub fn len(&self) -> (r: usize)
        ensures
            r == self.0@.len(),
    {
        self.0.len()
    }
}

} // verus!
