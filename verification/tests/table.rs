use gcmod::sections::fst::entry::{DirectoryEntry, Entry, EntryInfo, FileEntry};
use gcmod::sections::fst::{FstError, FST};

fn record(tag: u8, name_offset: u32, second: u32, third: u32) -> Vec<u8> {
    let mut bytes = vec![tag];
    bytes.extend_from_slice(&name_offset.to_be_bytes()[1..]);
    bytes.extend_from_slice(&second.to_be_bytes());
    bytes.extend_from_slice(&third.to_be_bytes());
    bytes
}

/// The table of `/a.txt` (5 bytes at 0x1000) and `/sub/b.txt` (3 bytes at 0x2000).
fn small_table() -> Vec<u8> {
    let mut bytes = Vec::new();
    bytes.extend(record(1, 0, 0, 4));
    bytes.extend(record(0, 0, 0x1000, 5));
    bytes.extend(record(1, 6, 0, 4));
    bytes.extend(record(0, 10, 0x2000, 3));
    bytes.extend_from_slice(b"a.txt\0sub\0b.txt\0");
    bytes
}

fn name(entry: &Entry) -> &str {
    entry.info().name.as_str()
}

#[test]
fn decodes_a_small_table() {
    let bytes = small_table();
    let fst = FST::new(&bytes, 0).unwrap();
    assert_eq!(fst.entries.len(), 4);
    assert_eq!(fst.offset, 0);
    assert_eq!(fst.file_count, 2);
    assert_eq!(fst.total_file_system_size, 8);
    assert_eq!(fst.size, 64);
    assert_eq!(name(&fst.entries[0]), "/");
    assert_eq!(name(&fst.entries[1]), "a.txt");
    assert_eq!(name(&fst.entries[2]), "sub/");
    assert_eq!(name(&fst.entries[3]), "b.txt");
    assert_eq!(fst.entries[0].info().full_path, "/");
    assert_eq!(fst.entries[1].info().full_path, "/a.txt");
    assert_eq!(fst.entries[2].info().full_path, "/sub/");
    assert_eq!(fst.entries[3].info().full_path, "/sub/b.txt");
    assert_eq!(fst.entries[0].info().directory_index, None);
    assert_eq!(fst.entries[1].info().directory_index, Some(0));
    assert_eq!(fst.entries[2].info().directory_index, Some(0));
    assert_eq!(fst.entries[3].info().directory_index, Some(2));
    for (i, entry) in fst.entries.iter().enumerate() {
        assert_eq!(entry.info().index, i);
    }
    assert_eq!(fst.root().file_count, 2);
    assert_eq!(fst.root().next_index, 4);
    let sub = fst.entries[2].as_dir().unwrap();
    assert_eq!(sub.file_count, 1);
    assert_eq!(sub.next_index, 4);
    let a = fst.entries[1].as_file().unwrap();
    assert_eq!((a.file_offset, a.size, a.info.filename_offset), (0x1000, 5, 0));
    let b = fst.entries[3].as_file().unwrap();
    assert_eq!((b.file_offset, b.size, b.info.filename_offset), (0x2000, 3, 10));
}

#[test]
fn decodes_a_table_behind_other_bytes() {
    let mut bytes = vec![0xaa; 7];
    bytes.extend(small_table());
    bytes.extend_from_slice(b"trailing");
    let fst = FST::new(&bytes, 7).unwrap();
    assert_eq!(fst.offset, 7);
    assert_eq!(fst.size, 64);
    assert_eq!(fst.entries.len(), 4);
    assert_eq!(name(&fst.entries[3]), "b.txt");
}

#[test]
fn root_with_tag_two_is_refused() {
    let mut bytes = small_table();
    bytes[0] = 2;
    assert_eq!(FST::new(&bytes, 0).err(), Some(FstError::InvalidTag { index: 0, byte: 2 }));
}

#[test]
fn later_record_with_bad_tag_is_refused() {
    let mut bytes = small_table();
    bytes[24] = 7;
    assert_eq!(FST::new(&bytes, 0).err(), Some(FstError::InvalidTag { index: 2, byte: 7 }));
}

#[test]
fn root_that_is_a_file_is_refused() {
    let mut bytes = small_table();
    bytes[0] = 0;
    assert_eq!(FST::new(&bytes, 0).err(), Some(FstError::RootNotDirectory));
}

#[test]
fn truncated_sources_are_refused() {
    let bytes = small_table();
    assert_eq!(FST::new(&bytes[..11], 0).err(), Some(FstError::Truncated));
    assert_eq!(FST::new(&bytes[..30], 0).err(), Some(FstError::Truncated));
    assert_eq!(FST::new(&bytes[..63], 0).err(), Some(FstError::Truncated));
    assert_eq!(FST::new(&bytes, 1000).err(), Some(FstError::Truncated));
    assert_eq!(FST::new(&bytes, u64::MAX).err(), Some(FstError::Truncated));
    assert!(FST::new(&bytes[..64], 0).is_ok());
}

#[test]
fn directory_that_ends_outside_its_parent_is_refused() {
    let mut bytes = small_table();
    bytes[24 + 11] = 5;
    assert_eq!(FST::new(&bytes, 0).err(), Some(FstError::InvalidRange { index: 2 }));
    let mut bytes = small_table();
    bytes[24 + 11] = 2;
    assert_eq!(FST::new(&bytes, 0).err(), Some(FstError::InvalidRange { index: 2 }));
    let mut bytes = small_table();
    bytes[11] = 0;
    assert_eq!(FST::new(&bytes, 0).err(), Some(FstError::InvalidRange { index: 0 }));
}

#[test]
fn name_that_is_no_text_is_refused() {
    let mut bytes = small_table();
    bytes[48 + 6] = 0xff;
    assert_eq!(FST::new(&bytes, 0).err(), Some(FstError::InvalidName { index: 2 }));
}

#[test]
fn records_come_before_names_among_the_errors() {
    let mut bytes = small_table();
    bytes[48] = 0xff;
    bytes[36] = 9;
    assert_eq!(FST::new(&bytes, 0).err(), Some(FstError::InvalidTag { index: 3, byte: 9 }));
}

#[test]
fn empty_directory_at_the_end() {
    let mut bytes = Vec::new();
    bytes.extend(record(1, 0, 0, 3));
    bytes.extend(record(1, 0, 0, 2));
    bytes.extend(record(1, 2, 0, 3));
    bytes.extend_from_slice(b"a\0b\0");
    let fst = FST::new(&bytes, 0).unwrap();
    assert_eq!(fst.file_count, 0);
    assert_eq!(fst.total_file_system_size, 0);
    assert_eq!(fst.root().file_count, 2);
    assert_eq!(fst.entries[1].as_dir().unwrap().file_count, 0);
    assert_eq!(fst.entries[2].info().directory_index, Some(0));
    assert_eq!(fst.entries[2].info().full_path, "/b/");
}

#[test]
fn lone_root() {
    let bytes = record(1, 0, 0, 1);
    let fst = FST::new(&bytes, 0).unwrap();
    assert_eq!(fst.entries.len(), 1);
    assert_eq!(fst.size, 12);
    assert_eq!(name(&fst.entries[0]), "/");
    let mut written = Vec::new();
    fst.write(&mut written);
    assert_eq!(written, bytes);
}

#[test]
fn size_reaches_behind_the_name_that_ends_last() {
    let mut bytes = Vec::new();
    bytes.extend(record(1, 0, 0, 3));
    bytes.extend(record(0, 4, 0, 1));
    bytes.extend(record(0, 0, 0, 1));
    bytes.extend_from_slice(b"one\0second\0");
    let fst = FST::new(&bytes, 0).unwrap();
    assert_eq!(name(&fst.entries[1]), "second");
    assert_eq!(name(&fst.entries[2]), "one");
    assert_eq!(fst.size, 36 + 11);
}

#[test]
fn writing_a_decoded_table_gives_its_bytes_again() {
    let bytes = small_table();
    let fst = FST::new(&bytes, 0).unwrap();
    let mut written = vec![0xee];
    fst.write(&mut written);
    assert_eq!(written[0], 0xee);
    assert_eq!(&written[1..], &bytes[..]);
}

#[test]
fn decoding_a_written_table_gives_the_table_again() {
    let fst = FST::new(&small_table(), 0).unwrap();
    let mut written = Vec::new();
    fst.write(&mut written);
    let again = FST::new(&written, 0).unwrap();
    assert_eq!(again.entries.len(), fst.entries.len());
    assert_eq!(again.file_count, fst.file_count);
    assert_eq!(again.total_file_system_size, fst.total_file_system_size);
    assert_eq!(again.size, fst.size);
    for (a, b) in again.entries.iter().zip(fst.entries.iter()) {
        assert_eq!(a.is_dir(), b.is_dir());
        assert_eq!(a.info().index, b.info().index);
        assert_eq!(a.info().name, b.info().name);
        assert_eq!(a.info().filename_offset, b.info().filename_offset);
        assert_eq!(a.info().directory_index, b.info().directory_index);
        assert_eq!(a.info().full_path, b.info().full_path);
    }
}

#[test]
fn names_are_written_in_the_order_of_their_offsets() {
    let mut bytes = Vec::new();
    bytes.extend(record(1, 0, 0, 3));
    bytes.extend(record(0, 4, 0, 1));
    bytes.extend(record(0, 0, 0, 1));
    bytes.extend_from_slice(b"one\0second\0");
    let fst = FST::new(&bytes, 0).unwrap();
    let mut written = Vec::new();
    fst.write(&mut written);
    assert_eq!(written, bytes);
}

#[test]
fn one_record_decodes_and_encodes() {
    let bytes = record(0, 0x01_02_03, 0x0a0b0c0d, 0x11223344);
    let entry = Entry::new(&bytes, 9, Some(4)).unwrap();
    let file = entry.as_file().unwrap();
    assert_eq!(file.info.index, 9);
    assert_eq!(file.info.directory_index, Some(4));
    assert_eq!(file.info.filename_offset, 0x010203);
    assert_eq!(file.file_offset, 0x0a0b0c0d);
    assert_eq!(file.size, 0x11223344);
    assert_eq!(file.info.name, "");
    assert!(entry.is_file());
    assert!(!entry.is_dir());
    assert!(entry.as_dir().is_none());
    let mut out = Vec::new();
    entry.write(&mut out);
    assert_eq!(out, bytes);

    let bytes = record(1, 7, 3, 12);
    let entry = Entry::new(&bytes, 5, Some(3)).unwrap();
    let dir = entry.as_dir().unwrap();
    assert_eq!((dir.parent_index, dir.next_index, dir.file_count), (3, 12, 0));
    assert_eq!(dir.info.filename_offset, 7);
    let mut out = Vec::new();
    entry.write(&mut out);
    assert_eq!(out, bytes);

    let bytes = record(3, 0, 0, 0);
    assert_eq!(
        Entry::new(&bytes, 2, None).err(),
        Some(FstError::InvalidTag { index: 2, byte: 3 })
    );
}

#[test]
fn a_record_cuts_numbers_to_its_widths() {
    let entry = Entry::File(FileEntry {
        info: EntryInfo {
            index: 1,
            name: String::from("x"),
            filename_offset: 0x1_0000_0005,
            directory_index: Some(0),
            full_path: String::from("/x"),
        },
        file_offset: 0x2_0000_0007,
        size: 9,
    });
    let mut out = Vec::new();
    entry.write(&mut out);
    assert_eq!(out, vec![0, 0, 0, 5, 0, 0, 0, 7, 0, 0, 0, 9]);
}

#[test]
fn mutable_access_to_an_entry() {
    let mut entry = Entry::Directory(DirectoryEntry {
        info: EntryInfo {
            index: 0,
            name: String::from("/"),
            filename_offset: 0,
            directory_index: None,
            full_path: String::from("/"),
        },
        parent_index: 0,
        next_index: 1,
        file_count: 0,
    });
    entry.info_mut().filename_offset = 4;
    assert_eq!(entry.info().filename_offset, 4);
    entry.as_dir_mut().unwrap().file_count = 3;
    assert_eq!(entry.as_dir().unwrap().file_count, 3);
    assert!(entry.as_file_mut().is_none());
}

#[test]
fn walking_a_directory() {
    let fst = FST::new(&small_table(), 0).unwrap();
    let mut iter = fst.root().iter_contents(&fst.entries);
    assert_eq!(iter.next().unwrap().info().index, 1);
    assert_eq!(iter.next().unwrap().info().index, 2);
    assert!(iter.next().is_none());
    assert!(iter.next().is_none());
    let sub = fst.entries[2].as_dir().unwrap();
    let mut iter = sub.iter_contents(&fst.entries);
    assert_eq!(iter.next().unwrap().info().index, 3);
    assert!(iter.next().is_none());
}

#[test]
fn walk_stops_at_the_children_only() {
    let mut bytes = Vec::new();
    bytes.extend(record(1, 0, 0, 6));
    bytes.extend(record(1, 0, 0, 4));
    bytes.extend(record(1, 2, 1, 4));
    bytes.extend(record(0, 4, 0, 1));
    bytes.extend(record(0, 6, 0, 1));
    bytes.extend(record(1, 8, 0, 6));
    bytes.extend_from_slice(b"a\0b\0c\0d\0e\0");
    let fst = FST::new(&bytes, 0).unwrap();
    let mut seen = Vec::new();
    let mut iter = fst.root().iter_contents(&fst.entries);
    while let Some(entry) = iter.next() {
        seen.push(entry.info().index);
    }
    assert_eq!(seen, vec![1, 4, 5]);
    let expected: Vec<usize> = fst
        .entries
        .iter()
        .filter(|e| e.info().directory_index == Some(0))
        .map(|e| e.info().index)
        .collect();
    assert_eq!(seen, expected);
    assert_eq!(fst.root().file_count, 3);
    assert_eq!(fst.entries[1].as_dir().unwrap().file_count, 1);
    assert_eq!(fst.entries[2].as_dir().unwrap().file_count, 1);
    assert_eq!(fst.entries[3].info().full_path, "/a/b/c");
}

#[test]
fn paths_lead_to_their_entries() {
    let fst = FST::new(&small_table(), 0).unwrap();
    for entry in fst.entries.iter() {
        let found = fst.entry_for_path(entry.info().full_path.as_str()).unwrap();
        assert_eq!(found.info().index, entry.info().index);
    }
    assert_eq!(fst.entry_for_path("/").unwrap().info().index, 0);
    assert_eq!(fst.entry_for_path("/sub/b.txt").unwrap().info().index, 3);
    assert!(fst.entry_for_path("/b.txt").is_none());
    assert!(fst.entry_for_path("/sub/a.txt").is_none());
    assert!(fst.entry_for_path("/a.txt/b.txt").is_none());
    assert!(fst.entry_for_path("/sub").is_none());
    assert_eq!(fst.index_for_path("/sub/"), Some(2));
}

#[test]
fn a_bare_name_is_searched_through_the_whole_tree() {
    let fst = FST::new(&small_table(), 0).unwrap();
    assert_eq!(fst.entry_for_path("b.txt").unwrap().info().index, 3);
    assert_eq!(fst.entry_for_path("a.txt").unwrap().info().index, 1);
    assert_eq!(fst.entry_for_path("sub/").unwrap().info().index, 2);
    assert!(fst.entry_for_path("c.txt").is_none());
    assert!(fst.entry_for_path("").is_none());
    let sub = fst.entries[2].as_dir().unwrap();
    assert!(fst.entry_with_name("a.txt", sub).is_none());
    assert_eq!(fst.entry_with_name("b.txt", sub).unwrap().info().index, 3);
}

#[test]
fn the_first_of_two_entries_with_one_name_is_found() {
    let mut bytes = Vec::new();
    bytes.extend(record(1, 0, 0, 4));
    bytes.extend(record(1, 0, 0, 3));
    bytes.extend(record(0, 2, 0x10, 1));
    bytes.extend(record(0, 2, 0x20, 1));
    bytes.extend_from_slice(b"d\0x\0");
    let fst = FST::new(&bytes, 0).unwrap();
    assert_eq!(fst.entry_for_path("x").unwrap().info().index, 2);
    assert_eq!(fst.entry_for_path("/x").unwrap().info().index, 3);
    assert_eq!(fst.entry_for_path("/d/x").unwrap().info().index, 2);
}

#[test]
fn parents_and_paths() {
    let fst = FST::new(&small_table(), 0).unwrap();
    let b = fst.entries[3].info();
    assert_eq!(fst.get_parent_for_entry(b).unwrap().info().index, 2);
    assert!(fst.get_parent_for_entry(fst.entries[0].info()).is_none());
    assert_eq!(fst.get_full_path(b), "/sub/b.txt");
    assert_eq!(fst.get_full_path(fst.entries[0].info()), "/");
    assert_eq!(fst.path_to(2), "/sub/");
}
