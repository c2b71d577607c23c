//! The header of the image.

use crate::bytes::{
    be_bytes, lemma_concat_assoc, push_u32, push_zeros, text_at, u32_at, zeros,
};
use crate::sections::apploader::APPLOADER_OFFSET;
use crate::sections::fst::encode::append_bytes;
use crate::sections::{word_at, ReadError, Section};
use crate::{align_up, checked_align};
use vstd::prelude::*;
use vstd::utf8::{encode_utf8, valid_utf8};

verus! {

pub const GAME_HEADER_SIZE: usize = 0x2440;

pub const GAMEID_SIZE: usize = 6;

pub const GAMEID_OFFSET: u64 = 0;

pub const TITLE_SIZE: usize = 0x60;

pub const TITLE_OFFSET: u64 = 0x20;

pub const MAGIC_WORD: u32 = 0xc2339f3d;

pub const GAME_CODE_SIZE: usize = 4;

pub const MAKER_CODE_SIZE: usize = 2;

pub const UNUSED_REGION_1_SIZE: usize = 0x12;

pub const GAME_NAME_SIZE: usize = 0x03e0;

pub const UNUSED_REGION_2_SIZE: usize = 0x18;

pub const UNUSED_REGION_3_SIZE: usize = 4;

/// How many bytes of the image `Header::new` reads.
pub const HEADER_READ_SIZE: usize = 0x45c;

/// What the header says of the image.
pub struct Header {
    pub game_code: String,
    pub maker_code: String,
    pub disk_id: u8,
    pub version: u8,
    pub audio_streaming: u8,
    pub stream_buffer_size: u8,
    pub title: String,
    pub debug_monitor_offset: u32,
    pub debug_monitor_load_addr: u32,
    pub dol_offset: u64,
    pub fst_offset: u64,
    pub fst_size: usize,
    pub max_fst_size: usize,
    pub user_position: u32,
    pub user_length: u32,
    pub unknown: u32,
    pub information: HeaderInformation,
}

/// The second part of the header.
#[derive(Copy, Clone, Debug, PartialEq, Eq, Structural)]
pub struct HeaderInformation {
    pub debug_monitor_size: u32,
    pub simulated_memory_size: u32,
    pub argument_offset: u32,
    pub debug_flag: u32,
    pub track_location: u32,
    pub track_size: u32,
    pub country_code: u32,
    pub unknown: u32,
}

impl HeaderInformation {
    /// The eight numbers lie at `offset` in `source`, one behind the other.
    pub open spec fn stored_at(&self, source: Seq<u8>, offset: int) -> bool {
        &&& self.debug_monitor_size == word_at(source, offset)
        &&& self.simulated_memory_size == word_at(source, offset + 4)
        &&& self.argument_offset == word_at(source, offset + 8)
        &&& self.debug_flag == word_at(source, offset + 12)
        &&& self.track_location == word_at(source, offset + 16)
        &&& self.track_size == word_at(source, offset + 20)
        &&& self.country_code == word_at(source, offset + 24)
        &&& self.unknown == word_at(source, offset + 28)
    }

    /// The eight numbers as bytes.
    pub open spec fn bytes(&self) -> Seq<u8> {
        be_bytes(self.debug_monitor_size as int, 4) + be_bytes(self.simulated_memory_size as int, 4)
            + be_bytes(self.argument_offset as int, 4) + be_bytes(self.debug_flag as int, 4)
            + be_bytes(self.track_location as int, 4) + be_bytes(self.track_size as int, 4)
            + be_bytes(self.country_code as int, 4) + be_bytes(self.unknown as int, 4)
    }

    /// Reads the eight numbers at `offset`.
    pub fn new(file: &[u8], offset: u64) -> (r: Result<HeaderInformation, ReadError>)
        ensures
            offset + 32 > file@.len() ==> r == Err::<HeaderInformation, ReadError>(
                ReadError::Truncated,
            ),
            offset + 32 <= file@.len() ==> r is Ok && r->Ok_0.stored_at(file@, offset as int),
    {
        let len = file.len();
        if len < 32 || offset > (len - 32) as u64 {
            return Err(ReadError::Truncated);
        }
        let base = offset as usize;
        Ok(
            HeaderInformation {
                debug_monitor_size: u32_at(file, base),
                simulated_memory_size: u32_at(file, base + 4),
                argument_offset: u32_at(file, base + 8),
                debug_flag: u32_at(file, base + 12),
                track_location: u32_at(file, base + 16),
                track_size: u32_at(file, base + 20),
                country_code: u32_at(file, base + 24),
                unknown: u32_at(file, base + 28),
            },
        )
    }

    /// Writes the eight numbers to the end of `writer`.
    pub fn write(&self, writer: &mut Vec<u8>)
        ensures
            final(writer)@ == old(writer)@ + self.bytes(),
    {
        push_u32(writer, self.debug_monitor_size);
        push_u32(writer, self.simulated_memory_size);
        push_u32(writer, self.argument_offset);
        push_u32(writer, self.debug_flag);
        push_u32(writer, self.track_location);
        push_u32(writer, self.track_size);
        push_u32(writer, self.country_code);
        push_u32(writer, self.unknown);
        assert(writer@ =~= old(writer)@ + self.bytes());
    }
}

/// Where the title ends that begins at `from`: at the first zero byte
/// before `limit`, or at `limit`.
pub open spec fn title_end(source: Seq<u8>, from: int, limit: int) -> int
    decreases limit - from,
{
    if from >= limit {
        limit
    } else if source[from] == 0 {
        from
    } else {
        title_end(source, from + 1, limit)
    }
}

impl Header {
    /// The header is the one that lies at `offset` in `source`.
    pub open spec fn stored_at(&self, source: Seq<u8>, offset: int) -> bool {
        &&& encode_utf8(self.game_code@) == source.subrange(offset, offset + 4)
        &&& encode_utf8(self.maker_code@) == source.subrange(offset + 4, offset + 6)
        &&& self.disk_id == source[offset + 6]
        &&& self.version == source[offset + 7]
        &&& self.audio_streaming == source[offset + 8]
        &&& self.stream_buffer_size == source[offset + 9]
        &&& encode_utf8(self.title@) == source.subrange(
            offset + 0x20,
            title_end(source, offset + 0x20, offset + 0x400),
        )
        &&& self.debug_monitor_offset == word_at(source, offset + 0x400)
        &&& self.debug_monitor_load_addr == word_at(source, offset + 0x404)
        &&& self.dol_offset == word_at(source, offset + 0x420)
        &&& self.fst_offset == word_at(source, offset + 0x424)
        &&& self.fst_size == word_at(source, offset + 0x428)
        &&& self.max_fst_size == word_at(source, offset + 0x42c)
        &&& self.user_position == word_at(source, offset + 0x430)
        &&& self.user_length == word_at(source, offset + 0x434)
        &&& self.unknown == word_at(source, offset + 0x438)
        &&& self.information.stored_at(source, offset + 0x43c)
    }

    /// Why the header at `offset` cannot be read, if it cannot: the source
    /// ends too early, the two codes are no text, the magic word is
    /// another, or the title is no text.
    pub open spec fn read_error(source: Seq<u8>, offset: int) -> Option<ReadError> {
        if offset + HEADER_READ_SIZE > source.len() {
            Some(ReadError::Truncated)
        } else if !valid_utf8(source.subrange(offset, offset + 4)) || !valid_utf8(
            source.subrange(offset + 4, offset + 6),
        ) {
            Some(ReadError::InvalidText)
        } else if word_at(source, offset + 0x1c) != MAGIC_WORD {
            Some(ReadError::InvalidMagic)
        } else if !valid_utf8(
            source.subrange(offset + 0x20, title_end(source, offset + 0x20, offset + 0x400)),
        ) {
            Some(ReadError::InvalidText)
        } else {
            None
        }
    }

    /// Reads the header at `offset`: the codes of game and maker, four
    /// single bytes, the magic word, the title up to its zero byte, and the
    /// numbers, 32 bits each, the most significant byte first.
    #[verifier::rlimit(40)]
    pub fn new(file: &[u8], offset: u64) -> (r: Result<Header, ReadError>)
        ensures
            match r {
                Ok(header) => Header::read_error(file@, offset as int) is None && header.stored_at(
                    file@,
                    offset as int,
                ),
                Err(e) => Header::read_error(file@, offset as int) == Some(e),
            },
    {
        let len = file.len();
        if len < HEADER_READ_SIZE || offset > (len - HEADER_READ_SIZE) as u64 {
            return Err(ReadError::Truncated);
        }
        let base = offset as usize;
        let game_code = match text_at(file, base, base + GAME_CODE_SIZE) {
            Some(text) => text,
            None => {
                return Err(ReadError::InvalidText);
            },
        };
        let maker_code = match text_at(file, base + 4, base + 6) {
            Some(text) => text,
            None => {
                return Err(ReadError::InvalidText);
            },
        };
        let disk_id = file[base + 6];
        let version = file[base + 7];
        let audio_streaming = file[base + 8];
        let stream_buffer_size = file[base + 9];
        if u32_at(file, base + 0x1c) != MAGIC_WORD {
            return Err(ReadError::InvalidMagic);
        }
        let first = base + 0x20;
        let limit = base + 0x400;
        let mut end = first;
        while end < limit && file[end] != 0
            invariant
                first <= end <= limit,
                limit <= file@.len(),
                title_end(file@, first as int, limit as int) == title_end(
                    file@,
                    end as int,
                    limit as int,
                ),
            decreases limit - end,
        {
            end += 1;
        }
        let title = match text_at(file, first, end) {
            Some(text) => text,
            None => {
                return Err(ReadError::InvalidText);
            },
        };
        let information = match HeaderInformation::new(file, (base + 0x43c) as u64) {
            Ok(information) => information,
            Err(e) => {
                return Err(e);
            },
        };
        Ok(
            Header {
                game_code,
                maker_code,
                disk_id,
                version,
                audio_streaming,
                stream_buffer_size,
                title,
                debug_monitor_offset: u32_at(file, base + 0x400),
                debug_monitor_load_addr: u32_at(file, base + 0x404),
                dol_offset: u32_at(file, base + 0x420) as u64,
                fst_offset: u32_at(file, base + 0x424) as u64,
                fst_size: u32_at(file, base + 0x428) as usize,
                max_fst_size: u32_at(file, base + 0x42c) as usize,
                user_position: u32_at(file, base + 0x430),
                user_length: u32_at(file, base + 0x434),
                unknown: u32_at(file, base + 0x438),
                information,
            },
        )
    }

    /// The header as bytes: the fields in their order, zero bytes where
    /// nothing stands, the title filled up with zero bytes to its full
    /// length, the numbers cut to 32 bits.
    pub open spec fn bytes(&self) -> Seq<u8> {
        encode_utf8(self.game_code@) + encode_utf8(self.maker_code@) + seq![
            self.disk_id,
            self.version,
            self.audio_streaming,
            self.stream_buffer_size,
        ] + zeros(UNUSED_REGION_1_SIZE as int) + be_bytes(MAGIC_WORD as int, 4) + encode_utf8(
            self.title@,
        ) + zeros(GAME_NAME_SIZE - encode_utf8(self.title@).len()) + be_bytes(
            self.debug_monitor_offset as int,
            4,
        ) + be_bytes(self.debug_monitor_load_addr as int, 4) + zeros(UNUSED_REGION_2_SIZE as int)
            + be_bytes(self.dol_offset as int % 0x1_0000_0000, 4) + be_bytes(
            self.fst_offset as int % 0x1_0000_0000,
            4,
        ) + be_bytes(self.fst_size as int % 0x1_0000_0000, 4) + be_bytes(
            self.max_fst_size as int % 0x1_0000_0000,
            4,
        ) + be_bytes(self.user_position as int, 4) + be_bytes(self.user_length as int, 4)
            + be_bytes(self.unknown as int, 4) + zeros(UNUSED_REGION_3_SIZE as int)
            + self.information.bytes() + zeros(0x1fe0)
    }

    /// Writes the header to the end of `writer`.
    #[verifier::rlimit(40)]
    pub fn write(&self, writer: &mut Vec<u8>)
        requires
            encode_utf8(self.title@).len() <= GAME_NAME_SIZE,
        ensures
            final(writer)@ == old(writer)@ + self.bytes(),
    {
        let ghost start = writer@;
        append_bytes(writer, self.game_code.as_str().as_bytes());
        let ghost mut acc = encode_utf8(self.game_code@);
        let title = self.title.as_str().as_bytes();
        let ghost before = writer@;
        append_bytes(writer, self.maker_code.as_str().as_bytes());
        proof {
            let part = encode_utf8(self.maker_code@);
            assert(writer@ =~= before + part);
            lemma_concat_assoc(start, acc, part);
            acc = acc + part;
        }
        assert(writer@ == start + acc);
        let ghost before = writer@;
        writer.push(self.disk_id);
        writer.push(self.version);
        writer.push(self.audio_streaming);
        writer.push(self.stream_buffer_size);
        proof {
            let part = seq![self.disk_id, self.version, self.audio_streaming, self.stream_buffer_size];
            assert(writer@ =~= before + part);
            lemma_concat_assoc(start, acc, part);
            acc = acc + part;
        }
        assert(writer@ == start + acc);
        let ghost before = writer@;
        push_zeros(writer, UNUSED_REGION_1_SIZE);
        proof {
            let part = zeros(UNUSED_REGION_1_SIZE as int);
            assert(writer@ =~= before + part);
            lemma_concat_assoc(start, acc, part);
            acc = acc + part;
        }
        assert(writer@ == start + acc);
        let ghost before = writer@;
        push_u32(writer, MAGIC_WORD);
        proof {
            let part = be_bytes(MAGIC_WORD as int, 4);
            assert(writer@ =~= before + part);
            lemma_concat_assoc(start, acc, part);
            acc = acc + part;
        }
        assert(writer@ == start + acc);
        let ghost before = writer@;
        append_bytes(writer, title);
        proof {
            let part = encode_utf8(self.title@);
            assert(writer@ =~= before + part);
            lemma_concat_assoc(start, acc, part);
            acc = acc + part;
        }
        assert(writer@ == start + acc);
        let ghost before = writer@;
        push_zeros(writer, GAME_NAME_SIZE - title.len());
        proof {
            let part = zeros(GAME_NAME_SIZE - encode_utf8(self.title@).len());
            assert(writer@ =~= before + part);
            lemma_concat_assoc(start, acc, part);
            acc = acc + part;
        }
        assert(writer@ == start + acc);
        let ghost before = writer@;
        push_u32(writer, self.debug_monitor_offset);
        proof {
            let part = be_bytes(self.debug_monitor_offset as int, 4);
            assert(writer@ =~= before + part);
            lemma_concat_assoc(start, acc, part);
            acc = acc + part;
        }
        assert(writer@ == start + acc);
        let ghost before = writer@;
        push_u32(writer, self.debug_monitor_load_addr);
        proof {
            let part = be_bytes(self.debug_monitor_load_addr as int, 4);
            assert(writer@ =~= before + part);
            lemma_concat_assoc(start, acc, part);
            acc = acc + part;
        }
        assert(writer@ == start + acc);
        let ghost before = writer@;
        push_zeros(writer, UNUSED_REGION_2_SIZE);
        proof {
            let part = zeros(UNUSED_REGION_2_SIZE as int);
            assert(writer@ =~= before + part);
            lemma_concat_assoc(start, acc, part);
            acc = acc + part;
        }
        assert(writer@ == start + acc);
        let ghost before = writer@;
        push_u32(writer, (self.dol_offset % 0x1_0000_0000) as u32);
        proof {
            let part = be_bytes(self.dol_offset as int % 0x1_0000_0000, 4);
            assert(writer@ =~= before + part);
            lemma_concat_assoc(start, acc, part);
            acc = acc + part;
        }
        assert(writer@ == start + acc);
        let ghost before = writer@;
        push_u32(writer, (self.fst_offset % 0x1_0000_0000) as u32);
        proof {
            let part = be_bytes(self.fst_offset as int % 0x1_0000_0000, 4);
            assert(writer@ =~= before + part);
            lemma_concat_assoc(start, acc, part);
            acc = acc + part;
        }
        assert(writer@ == start + acc);
        let ghost before = writer@;
        push_u32(writer, (self.fst_size as u64 % 0x1_0000_0000) as u32);
        proof {
            let part = be_bytes(self.fst_size as int % 0x1_0000_0000, 4);
            assert(writer@ =~= before + part);
            lemma_concat_assoc(start, acc, part);
            acc = acc + part;
        }
        assert(writer@ == start + acc);
        let ghost before = writer@;
        push_u32(writer, (self.max_fst_size as u64 % 0x1_0000_0000) as u32);
        proof {
            let part = be_bytes(self.max_fst_size as int % 0x1_0000_0000, 4);
            assert(writer@ =~= before + part);
            lemma_concat_assoc(start, acc, part);
            acc = acc + part;
        }
        assert(writer@ == start + acc);
        let ghost before = writer@;
        push_u32(writer, self.user_position);
        proof {
            let part = be_bytes(self.user_position as int, 4);
            assert(writer@ =~= before + part);
            lemma_concat_assoc(start, acc, part);
            acc = acc + part;
        }
        assert(writer@ == start + acc);
        let ghost before = writer@;
        push_u32(writer, self.user_length);
        proof {
            let part = be_bytes(self.user_length as int, 4);
            assert(writer@ =~= before + part);
            lemma_concat_assoc(start, acc, part);
            acc = acc + part;
        }
        assert(writer@ == start + acc);
        let ghost before = writer@;
        push_u32(writer, self.unknown);
        proof {
            let part = be_bytes(self.unknown as int, 4);
            assert(writer@ =~= before + part);
            lemma_concat_assoc(start, acc, part);
            acc = acc + part;
        }
        assert(writer@ == start + acc);
        let ghost before = writer@;
        push_zeros(writer, UNUSED_REGION_3_SIZE);
        proof {
            let part = zeros(UNUSED_REGION_3_SIZE as int);
            assert(writer@ =~= before + part);
            lemma_concat_assoc(start, acc, part);
            acc = acc + part;
        }
        assert(writer@ == start + acc);
        let ghost before = writer@;
        self.information.write(writer);
        proof {
            let part = self.information.bytes();
            assert(writer@ =~= before + part);
            lemma_concat_assoc(start, acc, part);
            acc = acc + part;
        }
        assert(writer@ == start + acc);
        let ghost before = writer@;
        push_zeros(writer, 0x1fe0);
        proof {
            let part = zeros(0x1fe0);
            assert(writer@ =~= before + part);
            lemma_concat_assoc(start, acc, part);
            acc = acc + part;
        }
        assert(writer@ == start + acc);
        assert(acc == self.bytes());
    }

    /// Gives the header the places of a rebuilt image: the table behind the
    /// apploader, the executable behind the table's file, both at the
    /// alignment; and the size of the table. Nothing where a place is no
    /// 64-bit number.
    pub fn rebuild(
        header: Header,
        apploader_size: u64,
        fst_file_size: u64,
        fst_size: usize,
        alignment: u64,
    ) -> (r: Option<Header>)
        requires
            alignment > 0,
        ensures
            ({
                let fst_offset = align_up(APPLOADER_OFFSET + apploader_size, alignment as int);
                let dol_offset = align_up(fst_offset + fst_file_size, alignment as int);
                if dol_offset <= u64::MAX {
                    r == Some(
                        Header {
                            dol_offset: dol_offset as u64,
                            fst_offset: fst_offset as u64,
                            fst_size,
                            max_fst_size: fst_size,
                            ..header
                        },
                    )
                } else {
                    r is None
                }
            }),
    {
        proof {
            crate::lemma_align_up(APPLOADER_OFFSET + apploader_size, alignment as int);
            crate::lemma_align_up(
                align_up(APPLOADER_OFFSET + apploader_size, alignment as int) + fst_file_size,
                alignment as int,
            );
        }
        let behind_apploader = match APPLOADER_OFFSET.checked_add(apploader_size) {
            Some(end) => end,
            None => {
                return None;
            },
        };
        let fst_offset = match checked_align(behind_apploader, alignment) {
            Some(offset) => offset,
            None => {
                return None;
            },
        };
        let behind_fst = match fst_offset.checked_add(fst_file_size) {
            Some(end) => end,
            None => {
                return None;
            },
        };
        let dol_offset = match checked_align(behind_fst, alignment) {
            Some(offset) => offset,
            None => {
                return None;
            },
        };
        let mut header = header;
        header.dol_offset = dol_offset;
        header.fst_offset = fst_offset;
        header.fst_size = fst_size;
        header.max_fst_size = fst_size;
        Some(header)
    }
}

impl Section for Header {
    open spec fn spec_start(&self) -> u64 {
        0
    }

    open spec fn spec_size(&self) -> usize {
        GAME_HEADER_SIZE
    }

    fn start(&self) -> u64 {
        0
    }

    fn size(&self) -> usize {
        GAME_HEADER_SIZE
    }
}

} // verus!
