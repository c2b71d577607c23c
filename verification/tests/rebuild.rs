use gcmod::rom_rebuilder::host::HostEntry;
use gcmod::rom_rebuilder::walk::{FSTRebuilderInfo, RebuildError};
use gcmod::rom_rebuilder::writer::{write_zeros, WriteError, WriteStep};
use gcmod::rom_rebuilder::{FSTRebuilder, ROMRebuilder, ROM_SIZE};
use gcmod::sections::fst::entry::{Entry, EntryInfo, FileEntry};
use gcmod::sections::fst::FST;
use gcmod::sections::header::{Header, HeaderInformation};

fn file(name: &str, size: usize) -> HostEntry {
    HostEntry::File { name: name.to_string(), size }
}

fn dir(name: &str, children: Vec<HostEntry>) -> HostEntry {
    HostEntry::Directory { name: name.to_string(), children }
}

fn small_tree() -> Vec<HostEntry> {
    vec![file("a.txt", 5), dir("sub", vec![file("b.txt", 3)])]
}

fn header() -> Header {
    Header {
        game_code: "GAME".to_string(),
        maker_code: "01".to_string(),
        disk_id: 0,
        version: 1,
        audio_streaming: 0,
        stream_buffer_size: 0,
        title: "A game".to_string(),
        debug_monitor_offset: 0,
        debug_monitor_load_addr: 0,
        dol_offset: 0,
        fst_offset: 0,
        fst_size: 0,
        max_fst_size: 0,
        user_position: 0,
        user_length: 0,
        unknown: 0,
        information: HeaderInformation {
            debug_monitor_size: 0,
            simulated_memory_size: 0,
            argument_offset: 0,
            debug_flag: 0,
            track_location: 0,
            track_size: 0,
            country_code: 0,
            unknown: 0,
        },
    }
}

#[test]
fn rebuilds_a_small_tree() {
    let next = FSTRebuilder::new("root", 32, 100, 200).rebuild(&small_tree()).unwrap();
    let fst = &next.fst;
    assert_eq!(fst.entries.len(), 4);
    assert_eq!(fst.file_count, 2);
    assert_eq!(fst.total_file_system_size, 8);
    let root = fst.root();
    assert_eq!(root.next_index, 4);
    assert_eq!(root.file_count, 2);
    assert_eq!(root.info.name, "/");
    let a = fst.entries[1].as_file().unwrap();
    let sub = fst.entries[2].as_dir().unwrap();
    let b = fst.entries[3].as_file().unwrap();
    assert_eq!(a.info.name, "a.txt");
    assert_eq!(sub.info.name, "sub/");
    assert_eq!(b.info.name, "b.txt");
    assert_eq!((sub.parent_index, sub.next_index, sub.file_count), (0, 4, 1));
    assert_eq!(a.size, 5);
    assert_eq!(b.size, 3);
    assert_eq!(a.file_offset % 32, 0);
    assert_eq!(b.file_offset % 32, 0);
    assert!(b.file_offset - a.file_offset >= 32);
    assert_eq!(a.info.filename_offset, 0);
    assert_eq!(sub.info.filename_offset, 6);
    assert_eq!(b.info.filename_offset, 10);
    assert_eq!(fst.size, 4 * 12 + 16);
    assert_eq!(fst.offset, 0x2440 + 128);
    assert_eq!(next.dol_offset, 0x2440 + 128 + 64);
    assert_eq!(a.file_offset, 0x2440 + 128 + 64 + 224);
    assert_eq!(b.file_offset, a.file_offset + 32);
    assert_eq!(next.config.space_used, Some(b.file_offset + 3));
    assert_eq!(a.info.directory_index, Some(0));
    assert_eq!(b.info.directory_index, Some(2));
    assert_eq!(a.info.full_path, "/a.txt");
    assert_eq!(sub.info.full_path, "/sub/");
    assert_eq!(b.info.full_path, "/sub/b.txt");
}

#[test]
fn the_order_of_the_host_is_kept() {
    let tree = vec![dir("sub", vec![file("b.txt", 3)]), file("a.txt", 5)];
    let next = FSTRebuilder::new("root", 32, 100, 200).rebuild(&tree).unwrap();
    let fst = &next.fst;
    let names: Vec<&str> = fst.entries.iter().map(|e| e.info().name.as_str()).collect();
    assert_eq!(names, vec!["/", "sub/", "b.txt", "a.txt"]);
    assert_eq!(fst.entries[1].as_dir().unwrap().next_index, 3);
    assert_eq!(fst.root().next_index, 4);
    assert_eq!(fst.total_file_system_size, 8);
    assert_eq!(fst.file_count, 2);
    let b = fst.entries[2].as_file().unwrap();
    let a = fst.entries[3].as_file().unwrap();
    assert_eq!(a.file_offset, b.file_offset + 32);
}

#[test]
fn hidden_entries_and_system_data_are_left_out() {
    let tree = vec![
        file(".hidden", 9),
        dir("&&systemdata", vec![file("Start.dol", 100)]),
        file("kept", 1),
        dir(".git", vec![file("config", 2)]),
        dir("d", vec![file(".x", 4), file("y", 6)]),
    ];
    let next = FSTRebuilder::new("root", 4, 0, 0).rebuild(&tree).unwrap();
    let names: Vec<&str> = next.fst.entries.iter().map(|e| e.info().name.as_str()).collect();
    assert_eq!(names, vec!["/", "kept", "d/", "y"]);
    assert_eq!(next.fst.total_file_system_size, 7);
    assert!(FSTRebuilder::is_file_ignored(".hidden"));
    assert!(FSTRebuilder::is_file_ignored("&&systemdata"));
    assert!(FSTRebuilder::is_file_ignored("."));
    assert!(!FSTRebuilder::is_file_ignored("&&systemdata2"));
    assert!(!FSTRebuilder::is_file_ignored("a.b"));
    assert!(!FSTRebuilder::is_file_ignored(""));
}

#[test]
fn an_empty_tree_gives_a_lone_root() {
    let next = FSTRebuilder::new("root", 32, 0, 0).rebuild(&vec![]).unwrap();
    assert_eq!(next.fst.entries.len(), 1);
    assert_eq!(next.fst.root().next_index, 1);
    assert_eq!(next.fst.size, 12);
    assert_eq!(next.fst.file_count, 0);
    assert_eq!(next.config.space_used, Some(0));
}

#[test]
fn files_stand_at_the_alignment_and_apart() {
    let tree = vec![
        file("a", 0),
        file("b", 1),
        dir("d", vec![file("c", 4096), dir("e", vec![]), file("f", 33)]),
        file("g", 7),
    ];
    for alignment in [1u64, 4, 32, 2048, 32768] {
        let next = FSTRebuilder::new("root", alignment, 12345, 67890).rebuild(&tree).unwrap();
        let files: Vec<&FileEntry> = next.fst.entries.iter().filter_map(|e| e.as_file()).collect();
        assert_eq!(files.len(), 5);
        for f in &files {
            assert_eq!(f.file_offset % alignment, 0);
        }
        for pair in files.windows(2) {
            assert!(pair[0].file_offset + pair[0].size as u64 <= pair[1].file_offset);
        }
        assert_eq!(next.fst.offset % alignment, 0);
        assert_eq!(next.dol_offset % alignment, 0);
        assert!(next.fst.offset >= 0x2440 + 12345);
        assert!(next.dol_offset >= next.fst.offset + next.fst.size as u64);
        assert!(files[0].file_offset >= next.dol_offset + 67890);
        assert_eq!(next.fst.total_file_system_size, 1 + 4096 + 33 + 7);
    }
}

#[test]
fn a_rebuilt_table_is_decoded_as_it_was_built() {
    let tree = vec![
        file("a.txt", 5),
        dir("sub", vec![file("b.txt", 3), dir("deep", vec![file("c", 1)])]),
        dir("empty", vec![]),
    ];
    let next = FSTRebuilder::new("root", 32, 100, 200).rebuild(&tree).unwrap();
    let mut bytes = Vec::new();
    next.fst.write(&mut bytes);
    assert_eq!(bytes.len(), next.fst.size);
    let decoded = FST::new(&bytes, 0).unwrap();
    assert_eq!(decoded.entries.len(), next.fst.entries.len());
    assert_eq!(decoded.file_count, next.fst.file_count);
    assert_eq!(decoded.total_file_system_size, next.fst.total_file_system_size);
    assert_eq!(decoded.size, next.fst.size);
    for (a, b) in decoded.entries.iter().zip(next.fst.entries.iter()) {
        assert_eq!(a.info().name, b.info().name);
        assert_eq!(a.info().index, b.info().index);
        assert_eq!(a.info().filename_offset, b.info().filename_offset);
        assert_eq!(a.info().directory_index, b.info().directory_index);
        assert_eq!(a.info().full_path, b.info().full_path);
        match (a, b) {
            (Entry::File(x), Entry::File(y)) => {
                assert_eq!((x.file_offset, x.size), (y.file_offset, y.size));
            }
            (Entry::Directory(x), Entry::Directory(y)) => {
                assert_eq!(
                    (x.parent_index, x.next_index, x.file_count),
                    (y.parent_index, y.next_index, y.file_count)
                );
            }
            _ => panic!("kinds differ"),
        }
    }
}

#[test]
fn too_large_a_tree_is_refused() {
    let tree = vec![file("a", usize::MAX), file("b", usize::MAX)];
    assert_eq!(
        FSTRebuilder::new("root", 32, 0, 0).rebuild(&tree).err(),
        Some(RebuildError::TooLarge)
    );
    let tree = vec![file("a", 16)];
    assert_eq!(
        FSTRebuilder::new("root", 32, usize::MAX, 0).rebuild(&tree).err(),
        Some(RebuildError::TooLarge)
    );
    assert!(FSTRebuilder::new("root", 32, 0, 0).rebuild(&tree).is_ok());
}

#[test]
fn the_accumulator_takes_entries() {
    let mut info = FSTRebuilderInfo {
        entries: Vec::new(),
        file_system_size: 64,
        filename_offset: 3,
        file_count: 0,
        total_size: 10,
        parent_index: None,
        alignment: 32,
    };
    let entry = Entry::File(FileEntry {
        info: EntryInfo {
            index: 0,
            name: "f".to_string(),
            filename_offset: 0,
            directory_index: None,
            full_path: String::new(),
        },
        file_offset: 64,
        size: 33,
    });
    assert!(info.add_entry(entry).is_ok());
    assert_eq!(info.entries.len(), 1);
    assert_eq!(info.file_system_size, 128);
    assert_eq!(info.file_count, 1);
    assert_eq!(info.total_size, 43);
    assert_eq!(info.filename_offset, 3);
}

#[test]
fn the_steps_of_a_rebuild_hand_on() {
    let next = FSTRebuilder::new("out", 32, 100, 200).rebuild(&small_tree()).unwrap();
    let dol_offset = next.dol_offset;
    let (fst_offset, fst_size) = (next.fst.offset, next.fst.size);
    let a_offset = next.fst.entries[1].as_file().unwrap().file_offset;
    let b_offset = next.fst.entries[3].as_file().unwrap().file_offset;
    let files = next.rebuild(header());
    assert_eq!(files.header.dol_offset, dol_offset);
    assert_eq!(files.header.fst_offset, fst_offset);
    assert_eq!(files.header.fst_size, fst_size);
    assert_eq!(files.header.max_fst_size, fst_size);
    assert_eq!(files.header.title, "A game");
    let rom = files.rebuild();
    let expected = vec![
        (0u64, "out/&&systemdata/ISO.hdr".to_string()),
        (0x2440, "out/&&systemdata/Apploader.ldr".to_string()),
        (fst_offset, "out/&&systemdata/Game.toc".to_string()),
        (dol_offset, "out/&&systemdata/Start.dol".to_string()),
        (a_offset, "out/a.txt".to_string()),
        (b_offset, "out/sub/b.txt".to_string()),
    ];
    assert_eq!(rom.files, expected);
    assert_eq!(rom.space_used, Some(b_offset + 3));
}

#[test]
fn a_whole_rebuild() {
    let out = ROMRebuilder::rebuild("out", &small_tree(), 32, 100, 200, header()).unwrap();
    assert_eq!(out.rom.files.len(), 6);
    assert_eq!(out.header.len(), 0x2440);
    assert_eq!(&out.header[..6], b"GAME01");
    assert_eq!(&out.header[0x1c..0x20], &[0xc2, 0x33, 0x9f, 0x3d]);
    let table = FST::new(&out.table, 0).unwrap();
    assert_eq!(table.entries.len(), 4);
    let fst_offset = u32::from_be_bytes([
        out.header[0x424],
        out.header[0x425],
        out.header[0x426],
        out.header[0x427],
    ]);
    assert_eq!(fst_offset as u64, 0x2440 + 128);
    assert!(out.rom.files.windows(2).all(|w| w[0].0 <= w[1].0));
    assert_eq!(
        ROMRebuilder::rebuild("out", &vec![file("a", usize::MAX)], 32, usize::MAX, 0, header())
            .err(),
        Some(RebuildError::TooLarge)
    );
}

#[test]
fn files_with_one_place_keep_their_order() {
    let tree = vec![file("empty", 0), file("full", 4), file("z", 0), file("a", 0)];
    let next = FSTRebuilder::new("r", 4, 0, 0).rebuild(&tree).unwrap();
    let rom = next.rebuild(header()).rebuild();
    let names: Vec<&str> = rom.files[4..].iter().map(|f| f.1.as_str()).collect();
    assert_eq!(names, vec!["r/empty", "r/full", "r/z", "r/a"]);
    assert_eq!(rom.files[4].0, rom.files[5].0);
}

fn rom(places: &[u64]) -> ROMRebuilder {
    ROMRebuilder {
        files: places.iter().map(|p| (*p, format!("f{}", p))).collect(),
        space_used: None,
    }
}

#[test]
fn an_image_is_written_in_steps() {
    let steps = rom(&[0, 100, 100, 400]).write(&[50, 0, 200, 10]).unwrap();
    assert_eq!(
        steps,
        vec![
            WriteStep::Zeros { count: 0 },
            WriteStep::Copy { file: 0, size: 50 },
            WriteStep::Zeros { count: 50 },
            WriteStep::Copy { file: 2, size: 200 },
            WriteStep::Zeros { count: 100 },
            WriteStep::Copy { file: 3, size: 10 },
            WriteStep::Zeros { count: ROM_SIZE as u64 - 410 },
        ]
    );
    let total: u64 = steps
        .iter()
        .map(|s| match s {
            WriteStep::Zeros { count } => *count,
            WriteStep::Copy { size, .. } => *size,
        })
        .sum();
    assert_eq!(total, ROM_SIZE as u64);
}

#[test]
fn an_image_without_files_is_all_zeros() {
    assert_eq!(rom(&[]).write(&[]).unwrap(), vec![WriteStep::Zeros { count: ROM_SIZE as u64 }]);
    assert_eq!(
        rom(&[7, 9]).write(&[0, 0]).unwrap(),
        vec![WriteStep::Zeros { count: ROM_SIZE as u64 }]
    );
}

#[test]
fn an_image_that_is_too_long_is_refused() {
    let size = ROM_SIZE as u64;
    assert_eq!(rom(&[0]).write(&[size + 1]).err(), Some(WriteError::NotEnoughSpace));
    assert_eq!(rom(&[size]).write(&[1]).err(), Some(WriteError::NotEnoughSpace));
    assert_eq!(rom(&[u64::MAX]).write(&[u64::MAX]).err(), Some(WriteError::NotEnoughSpace));
    assert_eq!(
        rom(&[0]).write(&[size]).unwrap(),
        vec![
            WriteStep::Zeros { count: 0 },
            WriteStep::Copy { file: 0, size },
            WriteStep::Zeros { count: 0 },
        ]
    );
}

#[test]
fn files_that_overlap_are_refused() {
    assert_eq!(rom(&[0, 10]).write(&[11, 5]).err(), Some(WriteError::Overlap { file: 1 }));
    assert_eq!(rom(&[10, 0]).write(&[1, 1]).err(), Some(WriteError::Overlap { file: 1 }));
    assert!(rom(&[0, 10]).write(&[10, 5]).is_ok());
    assert!(rom(&[0, 5]).write(&[11, 0]).is_ok());
}

#[test]
fn zeros_are_written() {
    let mut out = vec![1u8, 2];
    write_zeros(0, &mut out);
    assert_eq!(out, vec![1, 2]);
    write_zeros(3, &mut out);
    assert_eq!(out, vec![1, 2, 0, 0, 0]);
    let mut out = Vec::new();
    write_zeros((1 << 20) + 5, &mut out);
    assert_eq!(out.len(), (1 << 20) + 5);
    assert!(out.iter().all(|b| *b == 0));
}
