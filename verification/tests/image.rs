use gcmod::game::{Game, GameError, LayoutSection, NamedSection, ROMLayout, SectionKind};
use gcmod::sections::apploader::{Apploader, APPLOADER_OFFSET};
use gcmod::sections::dol::segment::SegmentType;
use gcmod::sections::dol::DOLHeader;
use gcmod::sections::fst::extract::ExtractStep;
use gcmod::sections::fst::{FstError, FST};
use gcmod::sections::header::{Header, HeaderInformation, GAME_HEADER_SIZE, MAGIC_WORD};
use gcmod::sections::{ReadError, Section};
use std::cmp::Ordering;

fn put(bytes: &mut [u8], at: usize, value: u32) {
    bytes[at..at + 4].copy_from_slice(&value.to_be_bytes());
}

fn record(tag: u8, name_offset: u32, second: u32, third: u32) -> Vec<u8> {
    let mut bytes = vec![tag];
    bytes.extend_from_slice(&name_offset.to_be_bytes()[1..]);
    bytes.extend_from_slice(&second.to_be_bytes());
    bytes.extend_from_slice(&third.to_be_bytes());
    bytes
}

const DOL_AT: usize = 0x3000;
const FST_AT: usize = 0x4000;

/// An image with the files `/a.txt` (5 bytes) and `/sub/b.txt` (3 bytes).
fn image() -> Vec<u8> {
    let mut bytes = vec![0u8; 0x6000];
    bytes[..6].copy_from_slice(b"GTSTAB");
    bytes[6] = 1;
    bytes[7] = 2;
    put(&mut bytes, 0x1c, MAGIC_WORD);
    bytes[0x20..0x2a].copy_from_slice(b"Test title");
    put(&mut bytes, 0x400, 11);
    put(&mut bytes, 0x404, 12);
    put(&mut bytes, 0x420, DOL_AT as u32);
    put(&mut bytes, 0x424, FST_AT as u32);
    put(&mut bytes, 0x428, 64);
    put(&mut bytes, 0x42c, 64);
    put(&mut bytes, 0x430, 13);
    put(&mut bytes, 0x434, 14);
    put(&mut bytes, 0x438, 15);
    for k in 0..8 {
        put(&mut bytes, 0x43c + 4 * k, 100 + k as u32);
    }
    let apploader = APPLOADER_OFFSET as usize;
    put(&mut bytes, apploader + 0x10, 0x8130_0000);
    put(&mut bytes, apploader + 0x14, 0x100);
    put(&mut bytes, apploader + 0x18, 0x40);
    put(&mut bytes, DOL_AT, 0x100);
    put(&mut bytes, DOL_AT + 0x48, 0x8000_3100);
    put(&mut bytes, DOL_AT + 0x90, 0x200);
    put(&mut bytes, DOL_AT + 4 * 8, 0x300);
    put(&mut bytes, DOL_AT + 0x48 + 4 * 8, 0x8000_4000);
    put(&mut bytes, DOL_AT + 0x90 + 4 * 8, 0x80);
    put(&mut bytes, DOL_AT + 0xe0, 0x8000_3100);
    let mut table = Vec::new();
    table.extend(record(1, 0, 0, 4));
    table.extend(record(0, 0, 0x5000, 5));
    table.extend(record(1, 6, 0, 4));
    table.extend(record(0, 10, 0x5020, 3));
    table.extend_from_slice(b"a.txt\0sub\0b.txt\0");
    bytes[FST_AT..FST_AT + table.len()].copy_from_slice(&table);
    bytes
}

#[test]
fn opens_an_image() {
    let bytes = image();
    let game = Game::open(&bytes, 0).unwrap();
    assert_eq!(game.header.game_code, "GTST");
    assert_eq!(game.header.maker_code, "AB");
    assert_eq!(game.header.title, "Test title");
    assert_eq!((game.header.disk_id, game.header.version), (1, 2));
    assert_eq!(game.header.dol_offset, DOL_AT as u64);
    assert_eq!(game.header.fst_offset, FST_AT as u64);
    assert_eq!((game.header.fst_size, game.header.max_fst_size), (64, 64));
    assert_eq!(game.header.debug_monitor_offset, 11);
    assert_eq!(game.header.debug_monitor_load_addr, 12);
    assert_eq!(
        (game.header.user_position, game.header.user_length, game.header.unknown),
        (13, 14, 15)
    );
    assert_eq!(game.header.information.debug_monitor_size, 100);
    assert_eq!(game.header.information.unknown, 107);
    assert_eq!(game.apploader.entry_point, 0x8130_0000);
    assert_eq!(game.apploader.size, 0x100);
    assert_eq!(game.apploader.trailer_size, 0x40);
    assert_eq!(game.apploader.total_size(), Some(0x160));
    assert_eq!(game.dol.offset, DOL_AT as u64);
    assert_eq!(game.dol.entry_point, 0x8000_3100);
    assert_eq!(game.dol.dol_size, 0x380);
    assert_eq!(game.dol.iter_segments().len(), 2);
    assert_eq!(game.dol.data_segments_index, 1);
    assert_eq!(game.fst.entries.len(), 4);
    assert_eq!(game.fst.offset, FST_AT as u64);
    assert_eq!(game.fst.size, 64);
}

#[test]
fn an_image_is_refused_with_its_first_bad_section() {
    let bytes = image();
    assert_eq!(Game::open(&bytes[..0x400], 0).err(), Some(GameError::Header(ReadError::Truncated)));
    let mut bad = image();
    bad[0x1c] = 0;
    assert_eq!(Game::open(&bad, 0).err(), Some(GameError::Header(ReadError::InvalidMagic)));
    assert_eq!(
        Game::open(&bytes[..0x2450], 0).err(),
        Some(GameError::Apploader(ReadError::Truncated))
    );
    assert_eq!(Game::open(&bytes[..0x3050], 0).err(), Some(GameError::Dol(ReadError::Truncated)));
    let mut bad = image();
    for k in 0..18 {
        put(&mut bad, DOL_AT + 0x90 + 4 * k, 0);
    }
    assert_eq!(Game::open(&bad, 0).err(), Some(GameError::Dol(ReadError::NoSegments)));
    let mut bad = image();
    bad[FST_AT] = 2;
    assert_eq!(
        Game::open(&bad, 0).err(),
        Some(GameError::Fst(FstError::InvalidTag { index: 0, byte: 2 }))
    );
    assert_eq!(
        Game::open(&bytes[..0x4020], 0).err(),
        Some(GameError::Fst(FstError::Truncated))
    );
    assert_eq!(Game::open(&bytes, u64::MAX).err(), Some(GameError::Header(ReadError::Truncated)));
}

#[test]
fn a_header_is_read_and_written() {
    let bytes = image();
    let header = Header::new(&bytes, 0).unwrap();
    let mut written = Vec::new();
    header.write(&mut written);
    assert_eq!(written.len(), GAME_HEADER_SIZE);
    assert_eq!(&written[..0x43c], &bytes[..0x43c]);
    assert_eq!(&written[0x43c..0x440], &[0, 0, 0, 0]);
    assert_eq!(&written[0x440..0x460], &bytes[0x43c..0x45c]);
    assert!(written[0x460..].iter().all(|b| *b == 0));
}

#[test]
fn a_header_with_bad_texts_is_refused() {
    let mut bad = image();
    bad[2] = 0xff;
    assert_eq!(Header::new(&bad, 0).err(), Some(ReadError::InvalidText));
    let mut bad = image();
    bad[5] = 0xff;
    assert_eq!(Header::new(&bad, 0).err(), Some(ReadError::InvalidText));
    let mut bad = image();
    bad[0x22] = 0xff;
    assert_eq!(Header::new(&bad, 0).err(), Some(ReadError::InvalidText));
    let mut bad = image();
    bad[0x22] = 0xff;
    bad[0x1c] = 1;
    assert_eq!(Header::new(&bad, 0).err(), Some(ReadError::InvalidMagic));
    let mut bad = image();
    bad[0x1c] = 1;
    bad[0] = 0xff;
    assert_eq!(Header::new(&bad, 0).err(), Some(ReadError::InvalidText));
    let mut full = image();
    for b in full[0x20..0x400].iter_mut() {
        *b = b'x';
    }
    assert_eq!(Header::new(&full, 0).unwrap().title.len(), 0x3e0);
    assert_eq!(Header::new(&full[..0x45b], 0).err(), Some(ReadError::Truncated));
    assert!(Header::new(&full[..0x45c], 0).is_ok());
}

#[test]
fn the_second_part_of_a_header() {
    let mut bytes = vec![9u8; 3];
    for k in 0..8u32 {
        bytes.extend_from_slice(&(k * 0x01020304).to_be_bytes());
    }
    let information = HeaderInformation::new(&bytes, 3).unwrap();
    assert_eq!(information.simulated_memory_size, 0x01020304);
    assert_eq!(information.unknown, 7 * 0x01020304);
    let mut written = Vec::new();
    information.write(&mut written);
    assert_eq!(&written[..], &bytes[3..]);
    assert_eq!(HeaderInformation::new(&bytes, 4).err(), Some(ReadError::Truncated));
}

#[test]
fn a_header_gets_the_places_of_a_rebuilt_image() {
    let header = Header::new(&image(), 0).unwrap();
    let rebuilt = Header::rebuild(header, 100, 70, 64, 32).unwrap();
    assert_eq!(rebuilt.fst_offset, 0x2440 + 128);
    assert_eq!(rebuilt.dol_offset, 0x2440 + 128 + 96);
    assert_eq!((rebuilt.fst_size, rebuilt.max_fst_size), (64, 64));
    assert_eq!(rebuilt.title, "Test title");
    let header = Header::new(&image(), 0).unwrap();
    assert!(Header::rebuild(header, u64::MAX, 0, 0, 32).is_none());
}

#[test]
fn the_header_of_the_executable() {
    let bytes = image();
    let dol = DOLHeader::new(&bytes, DOL_AT as u64).unwrap();
    let segments = dol.iter_segments();
    assert_eq!(segments[0].seg_type, SegmentType::Text);
    assert_eq!(segments[0].seg_num, 0);
    assert_eq!(segments[0].offset, DOL_AT as u64 + 0x100);
    assert_eq!(segments[0].size, 0x200);
    assert_eq!(segments[0].loading_address, 0x8000_3100);
    assert_eq!(segments[1].seg_type, SegmentType::Data);
    assert_eq!(segments[1].seg_num, 1);
    assert_eq!(segments[1].offset, DOL_AT as u64 + 0x300);
    assert_eq!(segments[1].size, 0x80);
    assert_eq!(dol.find_segment(SegmentType::Text, 0).unwrap().size, 0x200);
    assert_eq!(dol.find_segment(SegmentType::Data, 1).unwrap().size, 0x80);
    assert!(dol.find_segment(SegmentType::Data, 0).is_none());
    assert!(dol.find_segment(SegmentType::Text, 1).is_none());
    assert_eq!(dol.segment_index(SegmentType::Data, 1), Some(1));
    assert_eq!(dol.segment_at_addr(0x8000_3100).unwrap().seg_num, 0);
    assert_eq!(dol.segment_at_addr(0x8000_32ff).unwrap().seg_type, SegmentType::Text);
    assert!(dol.segment_at_addr(0x8000_3300).is_none());
    assert_eq!(dol.segment_at_addr(0x8000_407f).unwrap().seg_type, SegmentType::Data);
    assert!(dol.segment_at_addr(0x8000_4080).is_none());
    assert!(dol.segment_at_addr(0).is_none());
    assert_eq!(DOLHeader::stored_size(&bytes, DOL_AT as u64).ok(), Some(0x380));
    assert_eq!(DOLHeader::stored_size(&bytes[..0x3010], DOL_AT as u64).err(), Some(ReadError::Truncated));
    assert_eq!(DOLHeader::new(&bytes, 0x5f01).err(), Some(ReadError::Truncated));
}

#[test]
fn the_apploader() {
    let bytes = image();
    let apploader = Apploader::new(&bytes, APPLOADER_OFFSET).unwrap();
    assert_eq!(apploader.start(), 0x2440);
    assert_eq!(apploader.size(), 0x160);
    assert_eq!(apploader.end(), 0x2440 + 0x160 - 1);
    assert_eq!(Apploader::new(&bytes[..0x2450], APPLOADER_OFFSET).err(), Some(ReadError::Truncated));
}

#[test]
fn sections_compare_with_offsets() {
    let section = LayoutSection { kind: SectionKind::Fst, start: 100, size: 10 };
    assert_eq!(section.end(), 109);
    assert_eq!(section.compare_offset(99), Ordering::Greater);
    assert_eq!(section.compare_offset(100), Ordering::Equal);
    assert_eq!(section.compare_offset(109), Ordering::Equal);
    assert_eq!(section.compare_offset(110), Ordering::Less);
    let empty = LayoutSection { kind: SectionKind::File(3), start: 100, size: 0 };
    assert_eq!(empty.end(), 99);
    assert_eq!(empty.compare_offset(99), Ordering::Greater);
    assert_eq!(empty.compare_offset(100), Ordering::Less);
    let game = Game::open(&image(), 0).unwrap();
    assert_eq!((game.header.start(), game.header.size()), (0, 0x2440));
    assert_eq!((game.fst.start(), game.fst.size()), (0x4000, 64));
    assert_eq!((game.dol.start(), game.dol.size()), (0x3000, 0x100));
    let file = game.fst.entries[1].as_file().unwrap();
    assert_eq!((file.start(), file.size(), file.end()), (0x5000, 5, 0x5004));
    let segment = game.dol.iter_segments()[0];
    assert_eq!((segment.start(), segment.size()), (0x3100, 0x200));
}

#[test]
fn the_layout_of_an_image() {
    let game = Game::open(&image(), 0).unwrap();
    let layout = game.rom_layout();
    assert_eq!(layout.len(), 8);
    let kinds: Vec<(SectionKind, u64, usize)> =
        layout.0.iter().map(|s| (s.kind, s.start, s.size)).collect();
    assert_eq!(
        kinds,
        vec![
            (SectionKind::Header, 0, 0x2440),
            (SectionKind::Apploader, 0x2440, 0x160),
            (SectionKind::Dol, 0x3000, 0x100),
            (SectionKind::Segment(0), 0x3100, 0x200),
            (SectionKind::Segment(1), 0x3300, 0x80),
            (SectionKind::Fst, 0x4000, 64),
            (SectionKind::File(1), 0x5000, 5),
            (SectionKind::File(3), 0x5020, 3),
        ]
    );
}

#[test]
fn the_owner_of_an_offset_is_found() {
    let game = Game::open(&image(), 0).unwrap();
    let layout = game.rom_layout();
    assert_eq!(layout.find_offset(0).unwrap().kind, SectionKind::Header);
    assert_eq!(layout.find_offset(0x243f).unwrap().kind, SectionKind::Header);
    assert_eq!(layout.find_offset(0x2440).unwrap().kind, SectionKind::Apploader);
    assert_eq!(layout.find_offset(0x30ff).unwrap().kind, SectionKind::Dol);
    assert_eq!(layout.find_offset(0x3100).unwrap().kind, SectionKind::Segment(0));
    assert_eq!(layout.find_offset(0x337f).unwrap().kind, SectionKind::Segment(1));
    assert_eq!(layout.find_offset(0x4010).unwrap().kind, SectionKind::Fst);
    assert_eq!(layout.find_offset(0x5004).unwrap().kind, SectionKind::File(1));
    assert_eq!(layout.find_offset(0x5022).unwrap().kind, SectionKind::File(3));
}

#[test]
fn an_offset_between_two_sections_has_no_owner() {
    let game = Game::open(&image(), 0).unwrap();
    let layout = game.rom_layout();
    assert!(layout.find_offset(0x25a0).is_none());
    assert!(layout.find_offset(0x3380).is_none());
    assert!(layout.find_offset(0x4040).is_none());
    assert!(layout.find_offset(0x5005).is_none());
    assert!(layout.find_offset(0x501f).is_none());
    assert!(layout.find_offset(0x5023).is_none());
    assert!(layout.find_offset(u64::MAX).is_none());
    let layout = ROMLayout(vec![
        LayoutSection { kind: SectionKind::Header, start: 0, size: 10 },
        LayoutSection { kind: SectionKind::File(1), start: 20, size: 0 },
        LayoutSection { kind: SectionKind::File(2), start: 20, size: 10 },
    ]);
    assert!(layout.find_offset(15).is_none());
    assert_eq!(layout.find_offset(20).unwrap().kind, SectionKind::File(2));
    assert!(ROMLayout(vec![]).find_offset(0).is_none());
    assert_eq!(ROMLayout(vec![]).len(), 0);
}

#[test]
fn names_stand_for_sections() {
    let game = Game::open(&image(), 0).unwrap();
    assert_eq!(game.section_with_name("&&systemdata/ISO.hdr"), NamedSection::Header);
    assert_eq!(game.section_with_name("&&systemdata/Apploader.ldr"), NamedSection::Apploader);
    assert_eq!(game.section_with_name("&&systemdata/Start.dol"), NamedSection::Dol);
    assert_eq!(game.section_with_name("&&systemdata/Game.toc"), NamedSection::Fst);
    assert_eq!(game.section_with_name("/sub/b.txt"), NamedSection::Entry(3));
    assert_eq!(game.section_with_name("a.txt"), NamedSection::Entry(1));
    assert_eq!(game.section_with_name(".text0"), NamedSection::Segment(0));
    assert_eq!(game.section_with_name(".data1"), NamedSection::Segment(1));
    assert_eq!(game.section_with_name(".data0"), NamedSection::Nothing);
    assert_eq!(game.section_with_name("nothing"), NamedSection::Nothing);
}

#[test]
fn a_directory_is_listed() {
    let game = Game::open(&image(), 0).unwrap();
    let root = game.fst.root();
    assert_eq!(game.print_directory(root, false), vec!["/a.txt", "/sub/"]);
    assert_eq!(
        game.print_directory(root, true),
        vec!["-          5 /a.txt", "d          1 /sub/"]
    );
    let sub = game.fst.entries[2].as_dir().unwrap();
    assert_eq!(game.print_directory(sub, false), vec!["/sub/b.txt"]);
}

#[test]
fn the_long_form_of_an_entry() {
    let fst = FST::new(&image()[FST_AT..], 0).unwrap();
    assert_eq!(fst.entries[0].format_long(), "d          2 /");
    assert_eq!(fst.entries[3].format_long(), "-          3 /sub/b.txt");
    let mut entry = FST::new(&image()[FST_AT..], 0).unwrap().entries.remove(1);
    entry.as_file_mut().unwrap().size = 12345678901;
    assert_eq!(entry.format_long(), "- 12345678901 /a.txt");
    entry.as_file_mut().unwrap().size = 1234567890;
    assert_eq!(entry.format_long(), "- 1234567890 /a.txt");
}

#[test]
fn a_tree_is_taken_out_in_steps() {
    let fst = FST::new(&image()[FST_AT..], 0).unwrap();
    let steps = fst.extract_file_system("out");
    assert_eq!(steps.len(), 4);
    let described: Vec<String> = steps
        .iter()
        .map(|step| match step {
            ExtractStep::Directory { path } => format!("dir {}", path),
            ExtractStep::File { path, file_offset, size } => {
                format!("file {} {:#x} {}", path, file_offset, size)
            }
        })
        .collect();
    assert_eq!(
        described,
        vec!["dir out", "file out/a.txt 0x5000 5", "dir out/sub/", "file out/sub/b.txt 0x5020 3"]
    );
    let steps = fst.entries[2].extract_with_name("x/y", &fst.entries);
    assert_eq!(steps.len(), 2);
    assert!(matches!(&steps[0], ExtractStep::Directory { path } if path == "x/y"));
    assert!(matches!(&steps[1], ExtractStep::File { path, size: 3, .. } if path == "x/y/b.txt"));
    let steps = fst.entries[3].extract_with_name("alone", &fst.entries);
    assert_eq!(steps.len(), 1);
    assert!(
        matches!(&steps[0], ExtractStep::File { path, file_offset: 0x5020, size: 3 } if path == "alone")
    );
}
