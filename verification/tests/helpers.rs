use gcmod::bytes::{bytes_eq, push_u32, push_zeros, text_at, u32_at, write_int_to_buffer};
use gcmod::game::{same_text, sort_sections, LayoutSection, SectionKind};
use gcmod::rom_rebuilder::files::sort_files;
use gcmod::rom_rebuilder::system_path;
use gcmod::sections::fst::encode::{append_bytes, insert_ordered, write_stored_name};
use gcmod::sections::fst::entry::{DirectoryEntry, Entry, EntryInfo, FileEntry};
use gcmod::sections::fst::{push_joined, FstError};

fn file(index: usize, name: &str, filename_offset: u64) -> Entry {
    Entry::File(FileEntry {
        info: EntryInfo {
            index,
            name: name.to_string(),
            filename_offset,
            directory_index: Some(0),
            full_path: String::new(),
        },
        file_offset: 0,
        size: 0,
    })
}

fn directory(index: usize, name: &str, filename_offset: u64) -> Entry {
    Entry::Directory(DirectoryEntry {
        info: EntryInfo {
            index,
            name: name.to_string(),
            filename_offset,
            directory_index: Some(0),
            full_path: String::new(),
        },
        parent_index: 0,
        next_index: index + 1,
        file_count: 0,
    })
}

#[test]
fn numbers_are_written_most_significant_byte_first() {
    let mut out = vec![0xaa];
    write_int_to_buffer(0x0102_0304_0506_0708, &mut out, 3);
    assert_eq!(out, vec![0xaa, 0x06, 0x07, 0x08]);
    write_int_to_buffer(0x0102_0304_0506_0708, &mut out, 0);
    assert_eq!(out.len(), 4);
    let mut out = Vec::new();
    write_int_to_buffer(0x0102_0304_0506_0708, &mut out, 8);
    assert_eq!(out, vec![1, 2, 3, 4, 5, 6, 7, 8]);
    let mut out = Vec::new();
    write_int_to_buffer(1, &mut out, 10);
    assert_eq!(out, vec![0, 0, 0, 0, 0, 0, 0, 0, 0, 1]);
    let mut out = Vec::new();
    push_u32(&mut out, 0xc233_9f3d);
    assert_eq!(out, vec![0xc2, 0x33, 0x9f, 0x3d]);
    assert_eq!(u32_at(&[9, 0xc2, 0x33, 0x9f, 0x3d, 9], 1), 0xc233_9f3d);
    assert_eq!(u32_at(&[0, 0, 1, 0x0b], 0), 267);
}

#[test]
fn bytes_are_compared_and_appended() {
    assert!(bytes_eq(b"", b""));
    assert!(bytes_eq(b"abc", b"abc"));
    assert!(!bytes_eq(b"abc", b"abd"));
    assert!(!bytes_eq(b"abc", b"ab"));
    assert!(same_text("é", "é"));
    assert!(!same_text("e", "é"));
    let mut out = vec![1u8];
    append_bytes(&mut out, b"xy");
    push_zeros(&mut out, 2);
    assert_eq!(out, vec![1, b'x', b'y', 0, 0]);
}

#[test]
fn texts_are_read_from_bytes() {
    let bytes = b"ab\xc3\xa9cd";
    assert_eq!(text_at(bytes, 0, 6), Some("abécd".to_string()));
    assert_eq!(text_at(bytes, 2, 4), Some("é".to_string()));
    assert_eq!(text_at(bytes, 3, 3), Some(String::new()));
    assert_eq!(text_at(bytes, 0, 3), None);
    assert_eq!(text_at(bytes, 3, 6), None);
}

#[test]
fn paths_are_joined() {
    let mut path = String::new();
    push_joined(&mut path, "a");
    assert_eq!(path, "a");
    push_joined(&mut path, "b/");
    assert_eq!(path, "a/b/");
    push_joined(&mut path, "c");
    assert_eq!(path, "a/b/c");
    let mut root = String::from("/");
    push_joined(&mut root, "x");
    assert_eq!(root, "/x");
    assert_eq!(system_path("out", "&&systemdata/ISO.hdr"), "out/&&systemdata/ISO.hdr");
    assert_eq!(system_path("out/", "f"), "out/f");
}

#[test]
fn names_are_stored_without_the_separator_of_a_directory() {
    let mut out = Vec::new();
    write_stored_name(&directory(1, "sub/", 0), &mut out);
    write_stored_name(&file(2, "f/", 4), &mut out);
    write_stored_name(&directory(3, "bare", 7), &mut out);
    write_stored_name(&directory(4, "/", 12), &mut out);
    write_stored_name(&directory(5, "", 13), &mut out);
    assert_eq!(out, b"sub\0f/\0bare\0\0\0");
}

#[test]
fn entries_are_ordered_by_the_offsets_of_their_names() {
    let entries = vec![
        directory(0, "/", 0),
        file(1, "d", 30),
        file(2, "b", 10),
        file(3, "c", 10),
        file(4, "a", 0),
    ];
    let mut order = Vec::new();
    for k in 1..entries.len() {
        insert_ordered(&mut order, &entries, k);
    }
    assert_eq!(order, vec![4, 2, 3, 1]);
}

#[test]
fn files_and_sections_are_ordered_by_their_places() {
    let files = vec![
        (30u64, "c".to_string()),
        (10, "z".to_string()),
        (10, "a".to_string()),
        (0, "h".to_string()),
    ];
    let sorted = sort_files(files);
    let names: Vec<&str> = sorted.iter().map(|f| f.1.as_str()).collect();
    assert_eq!(names, vec!["h", "z", "a", "c"]);
    assert!(sort_files(vec![]).is_empty());
    let section = |kind, start| LayoutSection { kind, start, size: 1 };
    let sorted = sort_sections(vec![
        section(SectionKind::Fst, 5),
        section(SectionKind::File(1), 9),
        section(SectionKind::Header, 0),
        section(SectionKind::File(2), 5),
    ]);
    let kinds: Vec<SectionKind> = sorted.iter().map(|s| s.kind).collect();
    assert_eq!(
        kinds,
        vec![SectionKind::Header, SectionKind::Fst, SectionKind::File(2), SectionKind::File(1)]
    );
}

#[test]
fn one_name_is_read() {
    let table = b"xx\0first\0dir\0\xff\0tail";
    let mut entry = file(1, "", 1);
    assert_eq!(entry.read_filename(table, 2), Ok(9));
    assert_eq!(entry.info().name, "first");
    let mut entry = directory(2, "", 7);
    assert_eq!(entry.read_filename(table, 2), Ok(13));
    assert_eq!(entry.info().name, "dir/");
    let mut entry = file(3, "", 0);
    assert_eq!(entry.read_filename(table, 2), Ok(3));
    assert_eq!(entry.info().name, "");
    let mut entry = file(4, "old", 11);
    assert_eq!(entry.read_filename(table, 2), Err(FstError::InvalidName { index: 4 }));
    assert_eq!(entry.info().name, "old");
    let mut entry = file(5, "", 13);
    assert_eq!(entry.read_filename(table, 2), Err(FstError::Truncated));
    let mut entry = file(6, "", 100);
    assert_eq!(entry.read_filename(table, 2), Err(FstError::Truncated));
    let mut entry = file(7, "", u64::MAX);
    assert_eq!(entry.read_filename(table, 2), Err(FstError::Truncated));
    let mut root = directory(0, "", 5);
    assert_eq!(root.read_filename(table, 2), Ok(2));
    assert_eq!(root.info().name, "/");
}
