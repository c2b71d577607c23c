//! Building a table, and the layout of an image, from a host directory tree.

use crate::rom_rebuilder::host::{flat_list, HostEntry, HostItem};
use crate::rom_rebuilder::layout::{
    contents_counted, executable_offset, files_offset, files_placed, greatest_file_end,
    lemma_aligned_len, lemma_files_apart, lemma_greatest_file_end_prefix, lemma_same_tree,
    lemma_walk_shaped, names_packed, rebuild_fits, same_tree, shifted, table_offset, table_size,
};
use crate::rom_rebuilder::walk::{
    aligned_len, block_mirrors, items_aligned, items_names, lemma_items_sums_nonnegative, placed,
    FSTRebuilderInfo, RebuildError,
};
use crate::sections::apploader::APPLOADER_OFFSET;
use crate::sections::fst::decode::{fill_paths, shaped};
use crate::sections::fst::entry::{
    lemma_separator_text, DirectoryEntry, Entry, EntryInfo, ENTRY_SIZE, SEPARATOR,
};
use crate::paths::{APPLOADER_PATH, DOL_PATH, FST_PATH, HEADER_PATH};
use crate::rom_rebuilder::files::{file_views, files_below, sort_files, sorted_placed};
use crate::rom_rebuilder::writer::{plan_from, WriteError, WriteStep};
use crate::sections::fst::{join_path, lemma_shaped_parents_precede, push_joined, FST};
use crate::sections::header::Header;
use vstd::utf8::encode_utf8;
use crate::{checked_align, lemma_align_up};
use vstd::prelude::*;
use vstd::string::StringExecFns;

pub mod files;
pub mod host;
pub mod layout;
pub mod walk;
pub mod writer;
pub mod written;

verus! {

/// The length of an image.
pub const ROM_SIZE: usize = 0x57058000;

/// What the steps of a rebuild hand on to one another.
pub struct ROMConfig {
    pub alignment: u64,
    pub root_path: String,
    /// The host files that go into the image, each with its place.
    pub files: Vec<(u64, String)>,
    /// How far the files reach in the image.
    pub space_used: Option<u64>,
}

/// The first step of a rebuild: the table.
pub struct FSTRebuilder {
    pub apploader_size: usize,
    pub dol_size: usize,
    pub config: ROMConfig,
}

/// The second step of a rebuild: the header.
pub struct HeaderRebuilder {
    pub dol_offset: u64,
    pub fst: FST,
    pub config: ROMConfig,
}

impl FSTRebuilder {
    pub fn new(root_path: &str, alignment: u64, apploader_size: usize, dol_size: usize) -> (r: Self)
        ensures
            r.apploader_size == apploader_size,
            r.dol_size == dol_size,
            r.config.alignment == alignment,
            r.config.root_path@ == root_path@,
            r.config.files@.len() == 0,
            r.config.space_used is None,
    {
        Self {
            apploader_size,
            dol_size,
            config: ROMConfig {
                alignment,
                root_path: String::from_str(root_path),
                files: Vec::new(),
                space_used: None,
            },
        }
    }

    /// `next` is what `rebuild` makes of the host directory `root`.
    pub open spec fn rebuilt(&self, root: Seq<HostEntry>, next: HeaderRebuilder) -> bool {
                let items = flat_list(root, root.len());
                let alignment = self.config.alignment as int;
                let entries = next.fst.entries@;
                let base = files_offset(
                    items,
                    self.apploader_size as int,
                    self.dol_size as int,
                    alignment,
                );
                &&& next.fst.well_formed()
                &&& entries.len() == 1 + items.len()
                &&& block_mirrors(entries, 1, items)
                &&& entries[0].name_bytes() == seq![SEPARATOR]
                &&& names_packed(entries)
                &&& files_placed(entries, base, alignment)
                &&& next.fst.offset == table_offset(self.apploader_size as int, alignment)
                &&& next.fst.size == table_size(items)
                &&& next.fst.size == ENTRY_SIZE * entries.len()
                    + crate::rom_rebuilder::walk::names_len(entries, entries.len() as int)
                &&& next.dol_offset == executable_offset(
                    items,
                    self.apploader_size as int,
                    alignment,
                )
                &&& next.config.alignment == self.config.alignment
                &&& next.config.root_path == self.config.root_path
                &&& next.config.files == self.config.files
                &&& next.config.space_used == Some(
                    greatest_file_end(entries, entries.len() as int) as u64,
                )
                &&& forall|k: int|
                    0 <= k < entries.len() ==> ((#[trigger] entries[k]) matches Entry::File(file)
                        ==> file.file_offset as int % alignment == 0)
                &&& forall|j: int, k: int|
                    0 <= j < k < entries.len() ==> ((#[trigger] entries[j]) matches Entry::File(a)
                        ==> ((#[trigger] entries[k]) matches Entry::File(b) ==> a.file_offset
                        + a.size <= b.file_offset))
    }

    /// Builds the table of the host directory `root`, and lays out the image.
    ///
    /// The entries stand in the order in which the host gave them, each
    /// directory followed by what lies in it; the root comes first. Names
    /// go into the string table one behind the other, files into the image
    /// one behind the other, each at the alignment. The table goes behind
    /// the apploader, the executable behind the table, the files behind the
    /// executable, each at the alignment.
    #[verifier::rlimit(40)]
    pub fn rebuild(self, root: &Vec<HostEntry>) -> (r: Result<HeaderRebuilder, RebuildError>)
        requires
            self.config.alignment > 0,
        ensures
            r is Ok <==> rebuild_fits(
                flat_list(root@, root@.len()),
                self.apploader_size as int,
                self.dol_size as int,
                self.config.alignment as int,
            ),
            r matches Ok(next) ==> self.rebuilt(root@, next),
    {
        let ghost items = flat_list(root@, root@.len());
        let ghost al = self.config.alignment as int;
        let alignment = self.config.alignment;
        proof {
            lemma_separator_text();
        }
        let root_entry = Entry::Directory(
            DirectoryEntry {
                info: EntryInfo {
                    index: 0,
                    name: String::from_str("/"),
                    filename_offset: 0,
                    directory_index: None,
                    full_path: String::new(),
                },
                parent_index: 0,
                next_index: 0,
                file_count: 0,
            },
        );
        let mut rb_info = FSTRebuilderInfo {
            entries: Vec::new(),
            file_system_size: 0,
            filename_offset: 0,
            file_count: 0,
            total_size: 0,
            parent_index: None,
            alignment,
        };
        proof {
            lemma_layout_order(items, self.apploader_size as int, self.dol_size as int, al);
        }
        match Self::rebuild_dir_info(root, root_entry, &mut rb_info) {
            Ok(()) => {},
            Err(e) => {
                return Err(e);
            },
        }
        self.lay_out(rb_info, Ghost(root@))
    }

    /// Lays out the image when the walk is over: computes where the
    /// sections go, moves the files to their places, and gives every entry
    /// its path.
    #[verifier::rlimit(40)]
    fn lay_out(self, rb_info: FSTRebuilderInfo, Ghost(root): Ghost<Seq<HostEntry>>) -> (r: Result<
        HeaderRebuilder,
        RebuildError,
    >)
        requires
            self.config.alignment == rb_info.alignment,
            rb_info.alignment > 0,
            forall|k: int|
                0 <= k < rb_info.entries@.len() ==> #[trigger] placed(
                    rb_info.entries@,
                    k,
                    rb_info.alignment as int,
                ),
            rb_info.file_count == crate::sections::fst::count_files(
                rb_info.entries@,
                rb_info.entries@.len() as int,
            ),
            rb_info.total_size == crate::sections::fst::total_size(
                rb_info.entries@,
                rb_info.entries@.len() as int,
            ),
            rb_info.file_system_size == aligned_len(
                rb_info.entries@,
                rb_info.entries@.len() as int,
                rb_info.alignment as int,
            ),
            rb_info.entries@.len() == 1 + flat_list(root, root.len()).len(),
            rb_info.entries@[0] is Directory,
            rb_info.entries@[0].third_field() == rb_info.entries@.len(),
            rb_info.entries@[0].spec_info().directory_index is None,
            rb_info.entries@[0].spec_file_count() == crate::rom_rebuilder::walk::count_pointing(
                rb_info.entries@,
                0,
                rb_info.entries@.len() as int,
            ),
            rb_info.entries@[0].name_bytes() == seq![SEPARATOR],
            crate::rom_rebuilder::walk::closed_block(
                rb_info.entries@,
                1,
                rb_info.entries@.len() as int,
            ),
            block_mirrors(rb_info.entries@, 1, flat_list(root, root.len())),
            rb_info.file_system_size == items_aligned(
                flat_list(root, root.len()),
                rb_info.alignment as int,
            ),
            rb_info.filename_offset == items_names(flat_list(root, root.len())),
            rb_info.filename_offset == crate::rom_rebuilder::walk::names_len(
                rb_info.entries@,
                rb_info.entries@.len() as int,
            ),
        ensures
            r is Ok <==> rebuild_fits(
                flat_list(root, root.len()),
                self.apploader_size as int,
                self.dol_size as int,
                self.config.alignment as int,
            ),
            r matches Ok(next) ==> self.rebuilt(root, next),
    {
        let ghost items = flat_list(root, root.len());
        let ghost al = self.config.alignment as int;
        let alignment = self.config.alignment;
        let ghost walked = rb_info.entries@;
        let places = match place_sections(
            rb_info.entries.len(),
            rb_info.filename_offset,
            rb_info.file_system_size,
            self.apploader_size,
            self.dol_size,
            alignment,
            Ghost(items),
        ) {
            Ok(places) => places,
            Err(e) => {
                return Err(e);
            },
        };
        let mut entries = rb_info.entries;
        let max_eof = move_files(&mut entries, places.files, Ghost(al));
        let ghost moved = entries@;
        proof {
            lemma_table_moved(walked, moved, items, al, places.files as int);
        }
        fill_paths(&mut entries);
        proof {
            lemma_table_rebuilt(walked, moved, entries@, items, al, places.files as int);
        }
        let fst = FST {
            offset: places.table,
            file_count: rb_info.file_count,
            total_file_system_size: rb_info.total_size,
            entries,
            size: places.size,
        };
        let mut config = self.config;
        config.space_used = Some(max_eof);
        Ok(HeaderRebuilder { dol_offset: places.executable, fst, config })
    }
}

/// Where the sections of a rebuilt image go.
pub struct Places {
    /// The length of the table.
    pub size: usize,
    /// Where the table begins.
    pub table: u64,
    /// Where the executable begins.
    pub executable: u64,
    /// Where the files begin.
    pub files: u64,
}

/// Lays out a rebuilt image: the table behind the apploader, the
/// executable behind the table, the files behind the executable, each at
/// the alignment.
fn place_sections(
    count: usize,
    names: u64,
    files: u64,
    apploader_size: usize,
    dol_size: usize,
    alignment: u64,
    Ghost(items): Ghost<Seq<HostItem>>,
) -> (r: Result<Places, RebuildError>)
    requires
        alignment > 0,
        count == 1 + items.len(),
        names == items_names(items),
        files == items_aligned(items, alignment as int),
    ensures
        r is Ok <==> rebuild_fits(items, apploader_size as int, dol_size as int, alignment as int),
        r matches Ok(places) ==> {
            &&& places.size == table_size(items)
            &&& places.table == table_offset(apploader_size as int, alignment as int)
            &&& places.executable == executable_offset(
                items,
                apploader_size as int,
                alignment as int,
            )
            &&& places.files == files_offset(
                items,
                apploader_size as int,
                dol_size as int,
                alignment as int,
            )
            &&& places.files % alignment == 0
        },
{
    proof {
        lemma_layout_order(items, apploader_size as int, dol_size as int, alignment as int);
    }
    let records = match (count as u64).checked_mul(ENTRY_SIZE as u64) {
        Some(records) => records,
        None => {
            return Err(RebuildError::TooLarge);
        },
    };
    let size = match records.checked_add(names) {
        Some(size) => size,
        None => {
            return Err(RebuildError::TooLarge);
        },
    };
    if size > usize::MAX as u64 {
        return Err(RebuildError::TooLarge);
    }
    let behind_apploader = match APPLOADER_OFFSET.checked_add(apploader_size as u64) {
        Some(end) => end,
        None => {
            return Err(RebuildError::TooLarge);
        },
    };
    let table = match checked_align(behind_apploader, alignment) {
        Some(offset) => offset,
        None => {
            return Err(RebuildError::TooLarge);
        },
    };
    let behind_table = match table.checked_add(size) {
        Some(end) => end,
        None => {
            return Err(RebuildError::TooLarge);
        },
    };
    let executable = match checked_align(behind_table, alignment) {
        Some(offset) => offset,
        None => {
            return Err(RebuildError::TooLarge);
        },
    };
    let behind_executable = match executable.checked_add(dol_size as u64) {
        Some(end) => end,
        None => {
            return Err(RebuildError::TooLarge);
        },
    };
    let first_file = match checked_align(behind_executable, alignment) {
        Some(offset) => offset,
        None => {
            return Err(RebuildError::TooLarge);
        },
    };
    match first_file.checked_add(files) {
        Some(_) => {},
        None => {
            return Err(RebuildError::TooLarge);
        },
    }
    Ok(Places { size: size as usize, table, executable, files: first_file })
}

/// Moves the contents of every file on by `base`: from its place among the
/// files to its place in the image. Returns the greatest end of a file.
#[verifier::rlimit(40)]
fn move_files(entries: &mut Vec<Entry>, base: u64, Ghost(alignment): Ghost<int>) -> (max_eof:
    u64)
    requires
        alignment > 0,
        forall|k: int| 0 <= k < old(entries)@.len() ==> #[trigger] placed(old(entries)@, k, alignment),
        base + aligned_len(old(entries)@, old(entries)@.len() as int, alignment) <= u64::MAX,
    ensures
        final(entries)@.len() == old(entries)@.len(),
        forall|k: int|
            0 <= k < old(entries)@.len() ==> shifted(
                #[trigger] final(entries)@[k],
                old(entries)@[k],
                base as int,
            ),
        max_eof == greatest_file_end(final(entries)@, final(entries)@.len() as int),
{
    let ghost walked = entries@;
    let count = entries.len();
    let mut max_eof: u64 = 0;
    let mut index: usize = 0;
    proof {
        lemma_aligned_len(walked, 0, count as int, alignment);
    }
    while index < count
        invariant
            0 <= index <= count,
            walked == old(entries)@,
            count == walked.len(),
            entries@.len() == count,
            alignment > 0,
            base + aligned_len(walked, count as int, alignment) <= u64::MAX,
            forall|k: int| 0 <= k < count ==> #[trigger] placed(walked, k, alignment),
            forall|k: int|
                0 <= k < index ==> shifted(#[trigger] entries@[k], walked[k], base as int),
            forall|k: int| index <= k < count ==> #[trigger] entries@[k] == walked[k],
            max_eof == greatest_file_end(entries@, index as int),
            max_eof <= base + aligned_len(walked, count as int, alignment),
        decreases count - index,
    {
        let ghost before = entries@;
        proof {
            assert(placed(walked, index as int, alignment));
            lemma_aligned_len(walked, index as int, count as int, alignment);
        }
        match &mut entries[index] {
            Entry::File(file) => {
                file.file_offset = file.file_offset + base;
                let end = file.file_offset + file.size as u64;
                if end > max_eof {
                    max_eof = end;
                }
            },
            Entry::Directory(_) => {},
        }
        proof {
            lemma_greatest_file_end_prefix(before, entries@, index as int);
            assert forall|k: int| 0 <= k < index + 1 implies shifted(
                #[trigger] entries@[k],
                walked[k],
                base as int,
            ) by {
                if k < index {
                    assert(entries@[k] == before[k]);
                }
            }
        }
        index += 1;
    }
    max_eof
}

/// What holds of a table when the walk is over and the files are moved
/// to their places.
#[verifier::rlimit(40)]
pub proof fn lemma_table_moved(
    walked: Seq<Entry>,
    moved: Seq<Entry>,
    items: Seq<HostItem>,
    alignment: int,
    base: int,
)
    requires
        walked.len() >= 1,
        walked[0] is Directory,
        walked[0].third_field() == walked.len(),
        walked[0].spec_info().directory_index is None,
        walked[0].spec_file_count() == crate::rom_rebuilder::walk::count_pointing(
            walked,
            0,
            walked.len() as int,
        ),
        crate::rom_rebuilder::walk::closed_block(walked, 1, walked.len() as int),
        block_mirrors(walked, 1, items),
        forall|k: int| 0 <= k < walked.len() ==> #[trigger] placed(walked, k, alignment),
        walked.len() == moved.len(),
        forall|k: int| 0 <= k < walked.len() ==> shifted(#[trigger] moved[k], walked[k], base),
    ensures
        shaped(moved),
        contents_counted(moved),
        block_mirrors(moved, 1, items),
        names_packed(moved),
        crate::sections::fst::parents_precede(moved),
{
    lemma_walk_shaped(walked, alignment);
    assert(names_packed(walked)) by {
        assert forall|k: int| 1 <= k < walked.len() implies (
        #[trigger] walked[k]).spec_info().filename_offset
            == crate::rom_rebuilder::walk::names_len(walked, k) by {
            assert(placed(walked, k, alignment));
        }
    }
    assert forall|k: int| 0 <= k < walked.len() implies same_tree(
        #[trigger] moved[k],
        walked[k],
    ) by {
        assert(shifted(moved[k], walked[k], base));
    }
    lemma_same_tree(walked, moved, items, alignment);
    lemma_shaped_parents_precede(moved);
}

/// What holds of a table when the walk is over, the files are moved to
/// their places, and the paths are filled in.
#[verifier::rlimit(40)]
pub proof fn lemma_table_rebuilt(
    walked: Seq<Entry>,
    moved: Seq<Entry>,
    done: Seq<Entry>,
    items: Seq<HostItem>,
    alignment: int,
    base: int,
)
    requires
        alignment > 0,
        base >= 0,
        base % alignment == 0,
        shaped(moved),
        contents_counted(moved),
        block_mirrors(moved, 1, items),
        names_packed(moved),
        walked.len() == moved.len(),
        moved.len() == done.len(),
        forall|k: int| 0 <= k < walked.len() ==> #[trigger] placed(walked, k, alignment),
        forall|k: int| 0 <= k < walked.len() ==> shifted(#[trigger] moved[k], walked[k], base),
        forall|k: int|
            0 <= k < moved.len() ==> {
                &&& (#[trigger] done[k]).kept(moved[k])
                &&& done[k].spec_info().name == moved[k].spec_info().name
                &&& done[k].spec_file_count() == moved[k].spec_file_count()
            },
    ensures
        shaped(done),
        contents_counted(done),
        block_mirrors(done, 1, items),
        names_packed(done),
        files_placed(done, base, alignment),
        done[0].name_bytes() == walked[0].name_bytes(),
        greatest_file_end(done, done.len() as int) == greatest_file_end(moved, moved.len() as int),
        crate::sections::fst::count_files(done, done.len() as int)
            == crate::sections::fst::count_files(walked, walked.len() as int),
        crate::sections::fst::total_size(done, done.len() as int)
            == crate::sections::fst::total_size(walked, walked.len() as int),
        crate::rom_rebuilder::walk::names_len(done, done.len() as int)
            == crate::rom_rebuilder::walk::names_len(walked, walked.len() as int),
        forall|k: int|
            0 <= k < done.len() ==> ((#[trigger] done[k]) matches Entry::File(file)
                ==> file.file_offset as int % alignment == 0),
        forall|j: int, k: int|
            0 <= j < k < done.len() ==> ((#[trigger] done[j]) matches Entry::File(a) ==> ((
            #[trigger] done[k]) matches Entry::File(b) ==> a.file_offset + a.size
                <= b.file_offset)),
{
    let count = walked.len() as int;
    assert forall|k: int| 0 <= k < count implies same_tree(#[trigger] moved[k], walked[k]) by {
        assert(shifted(moved[k], walked[k], base));
    }
    lemma_same_tree(walked, moved, items, alignment);
    assert forall|k: int| 0 <= k < count implies same_tree(#[trigger] done[k], moved[k]) by {
        assert(done[k].kept(moved[k]));
    }
    lemma_same_tree(moved, done, items, alignment);
    assert(files_placed(done, base, alignment)) by {
        assert forall|k: int| 0 <= k < done.len() implies ((
        #[trigger] done[k]) matches Entry::File(file) ==> file.file_offset == base + aligned_len(
            done,
            k,
            alignment,
        )) by {
            assert(done[k].kept(moved[k]));
            assert(shifted(moved[k], walked[k], base));
            assert(placed(walked, k, alignment));
            assert(aligned_len(moved, k, alignment) == aligned_len(walked, k, alignment));
            assert(aligned_len(done, k, alignment) == aligned_len(moved, k, alignment));
        }
    }
    lemma_files_apart(done, base, alignment);
    lemma_greatest_file_end_kept(moved, done, count);
    assert(done[0].kept(moved[0]));
    assert(shifted(moved[0], walked[0], base));
}

/// The places of a rebuilt image come one behind the other.
pub proof fn lemma_layout_order(
    items: Seq<HostItem>,
    apploader_size: int,
    dol_size: int,
    alignment: int,
)
    requires
        alignment > 0,
        apploader_size >= 0,
        dol_size >= 0,
    ensures
        0 <= APPLOADER_OFFSET + apploader_size <= table_offset(apploader_size, alignment),
        table_offset(apploader_size, alignment) + table_size(items) <= executable_offset(
            items,
            apploader_size,
            alignment,
        ),
        executable_offset(items, apploader_size, alignment) + dol_size <= files_offset(
            items,
            apploader_size,
            dol_size,
            alignment,
        ),
        files_offset(items, apploader_size, dol_size, alignment) % alignment == 0,
        table_size(items) >= 0,
        items_aligned(items, alignment) >= 0,
        items_names(items) >= 0,
{
    lemma_items_sums_nonnegative(items, alignment);
    lemma_align_up(APPLOADER_OFFSET + apploader_size, alignment);
    lemma_align_up(table_offset(apploader_size, alignment) + table_size(items), alignment);
    lemma_align_up(executable_offset(items, apploader_size, alignment) + dol_size, alignment);
}

/// The greatest end of the files does not depend on names and paths.
pub proof fn lemma_greatest_file_end_kept(a: Seq<Entry>, b: Seq<Entry>, upto: int)
    requires
        upto <= a.len(),
        upto <= b.len(),
        forall|k: int| 0 <= k < upto ==> (#[trigger] b[k]).kept(a[k]),
    ensures
        greatest_file_end(a, upto) == greatest_file_end(b, upto),
    decreases upto,
{
    if upto > 0 {
        lemma_greatest_file_end_kept(a, b, upto - 1);
        assert(b[upto - 1].kept(a[upto - 1]));
    }
}

/// The third step of a rebuild: the files.
pub struct FileSystemRebuilder {
    pub fst: FST,
    pub header: Header,
    pub config: ROMConfig,
}

/// The last step of a rebuild: the image. The files stand in the order
/// of their places.
pub struct ROMRebuilder {
    pub files: Vec<(u64, String)>,
    pub space_used: Option<u64>,
}

impl HeaderRebuilder {
    /// What `rebuild` gives.
    pub open spec fn spec_rebuild(self, header: Header) -> FileSystemRebuilder {
        FileSystemRebuilder {
            fst: self.fst,
            header: Header {
                dol_offset: self.dol_offset,
                fst_offset: self.fst.offset,
                fst_size: self.fst.size,
                max_fst_size: self.fst.size,
                ..header
            },
            config: self.config,
        }
    }

    /// Gives the header the places of the rebuilt image: those of the
    /// executable and of the table, and the size of the table.
    #[verifier::when_used_as_spec(spec_rebuild)]
    pub fn rebuild(self, header: Header) -> (r: FileSystemRebuilder)
        ensures
            r == self.spec_rebuild(header),
    {
        let mut header = header;
        header.dol_offset = self.dol_offset;
        header.fst_offset = self.fst.offset;
        header.fst_size = self.fst.size;
        header.max_fst_size = self.fst.size;
        FileSystemRebuilder { fst: self.fst, header, config: self.config }
    }
}

/// The path of a system file below `root`.
pub fn system_path(root: &str, file: &str) -> (path: String)
    ensures
        encode_utf8(path@) == join_path(encode_utf8(root@), encode_utf8(file@)),
{
    let mut path = String::from_str(root);
    push_joined(&mut path, file);
    path
}

impl FileSystemRebuilder {
    /// The host files of the image before they are put in order: what the
    /// configuration has already, the four system files, and the files of
    /// the table.
    pub open spec fn collected(&self) -> Seq<(u64, Seq<u8>)> {
        let root = encode_utf8(self.config.root_path@);
        file_views(self.config.files@) + seq![
            (APPLOADER_OFFSET, join_path(root, encode_utf8(APPLOADER_PATH@))),
            (self.header.dol_offset, join_path(root, encode_utf8(DOL_PATH@))),
            (self.fst.offset, join_path(root, encode_utf8(FST_PATH@))),
            (0u64, join_path(root, encode_utf8(HEADER_PATH@))),
        ] + files_below(self.fst.entries@, 0, root, self.fst.entries@.len() as int)
    }

    /// Collects the host files that go into the image, each with its
    /// place: the apploader, the executable, the table and the header, and
    /// every file of the table; and puts them in the order of their places.
    pub fn rebuild(self) -> (r: ROMRebuilder)
        requires
            shaped(self.fst.entries@),
        ensures
            file_views(r.files@) == sorted_placed(self.collected()),
            r.space_used == self.config.space_used,
    {
        let ghost start = file_views(self.config.files@);
        let ghost root = encode_utf8(self.config.root_path@);
        let mut config = self.config;
        let root_path = config.root_path.as_str();
        let mut files = config.files;
        let ghost system = seq![
            (APPLOADER_OFFSET, join_path(root, encode_utf8(APPLOADER_PATH@))),
            (self.header.dol_offset, join_path(root, encode_utf8(DOL_PATH@))),
            (self.fst.offset, join_path(root, encode_utf8(FST_PATH@))),
            (0u64, join_path(root, encode_utf8(HEADER_PATH@))),
        ];
        files.push((APPLOADER_OFFSET, system_path(root_path, APPLOADER_PATH)));
        files.push((self.header.dol_offset, system_path(root_path, DOL_PATH)));
        files.push((self.fst.offset, system_path(root_path, FST_PATH)));
        files.push((0, system_path(root_path, HEADER_PATH)));
        assert(file_views(files@) =~= start + system);
        let root_dir = self.fst.root();
        assert(crate::sections::fst::entry::spans_of(self.fst.entries@)[0] == root_dir.next_index);
        assert(root_dir.info == self.fst.entries@[0].spec_info());
        Self::fill_files(&mut files, root_dir, root_path, &self.fst);
        let sorted = sort_files(files);
        ROMRebuilder { files: sorted, space_used: config.space_used }
    }
}

/// What a rebuild gives: the files of the image in the order of their
/// places, and the table and the header as bytes.
pub struct Rebuilt {
    pub rom: ROMRebuilder,
    pub table: Vec<u8>,
    pub header: Vec<u8>,
}

impl ROMRebuilder {
    /// Rebuilds an image from the host directory `root`, found at
    /// `root_path`: builds the table and lays out the image, gives the
    /// header the new places, and collects the files in the order of their
    /// places.
    pub fn rebuild(
        root_path: &str,
        root: &Vec<HostEntry>,
        alignment: u64,
        apploader_size: usize,
        dol_size: usize,
        header: Header,
    ) -> (r: Result<Rebuilt, RebuildError>)
        requires
            alignment > 0,
            encode_utf8(header.title@).len() <= crate::sections::header::GAME_NAME_SIZE,
        ensures
            r is Ok <==> rebuild_fits(
                flat_list(root@, root@.len()),
                apploader_size as int,
                dol_size as int,
                alignment as int,
            ),
            r matches Ok(out) ==> exists|first: FSTRebuilder, next: HeaderRebuilder|
                {
                    let files = next.rebuild(header);
                    &&& first.apploader_size == apploader_size
                    &&& first.dol_size == dol_size
                    &&& first.config.alignment == alignment
                    &&& first.config.root_path@ == root_path@
                    &&& first.config.files@.len() == 0
                    &&& #[trigger] first.rebuilt(root@, next)
                    &&& out.table@ == crate::sections::fst::encode::table_bytes(next.fst.entries@)
                    &&& out.header@ == files.header.bytes()
                    &&& file_views(out.rom.files@) == sorted_placed(files.collected())
                    &&& out.rom.space_used == next.config.space_used
                },
    {
        let first = FSTRebuilder::new(root_path, alignment, apploader_size, dol_size);
        let ghost start = first;
        let next = match first.rebuild(root) {
            Ok(next) => next,
            Err(e) => {
                return Err(e);
            },
        };
        let ghost witness = next;
        let mut table: Vec<u8> = Vec::new();
        next.fst.write(&mut table);
        let files = next.rebuild(header);
        let mut header_bytes: Vec<u8> = Vec::new();
        files.header.write(&mut header_bytes);
        assert(table@ =~= crate::sections::fst::encode::table_bytes(witness.fst.entries@));
        assert(header_bytes@ =~= files.header.bytes());
        let ghost collected = files.collected();
        let rom = files.rebuild();
        assert(start.rebuilt(root@, witness));
        Ok(Rebuilt { rom, table, header: header_bytes })
    }

    /// The places of the files.
    pub open spec fn places(&self) -> Seq<u64> {
        self.files@.map_values(|file: (u64, String)| file.0)
    }

    /// The steps that write the image, given the length of every host
    /// file: zero bytes up to the place of each file that is not empty,
    /// then the file, and at last zero bytes up to the length of an image.
    /// Fails if a file begins before the one before it ends, or would end
    /// behind the length of an image.
    pub fn write(&self, sizes: &[u64]) -> (r: Result<Vec<WriteStep>, WriteError>)
        requires
            sizes@.len() == self.files@.len(),
        ensures
            match plan_from(self.places(), sizes@, 0, 0) {
                Ok(steps) => r is Ok && r->Ok_0@ == steps,
                Err(e) => r == Err::<Vec<WriteStep>, WriteError>(e),
            },
    {
        let ghost places = self.places();
        let mut steps: Vec<WriteStep> = Vec::new();
        let mut bytes_written: u64 = 0;
        let mut i: usize = 0;
        assert(steps@ + seq![WriteStep::Zeros { count: 0 }] =~= seq![WriteStep::Zeros { count: 0 }]);
        while i < self.files.len()
            invariant
                0 <= i <= self.files@.len(),
                sizes@.len() == self.files@.len(),
                places == self.places(),
                bytes_written <= ROM_SIZE,
                plan_from(places, sizes@, 0, 0) == match plan_from(
                    places,
                    sizes@,
                    i as int,
                    bytes_written as int,
                ) {
                    Ok(rest) => Ok::<Seq<WriteStep>, WriteError>(steps@ + rest),
                    Err(e) => Err::<Seq<WriteStep>, WriteError>(e),
                },
            decreases self.files@.len() - i,
        {
            let offset = self.files[i].0;
            let size = sizes[i];
            assert(places[i as int] == offset);
            if size != 0 {
                if offset < bytes_written {
                    return Err(WriteError::Overlap { file: i });
                }
                if offset > ROM_SIZE as u64 || size > ROM_SIZE as u64 - offset {
                    return Err(WriteError::NotEnoughSpace);
                }
                let ghost before = steps@;
                steps.push(WriteStep::Zeros { count: offset - bytes_written });
                steps.push(WriteStep::Copy { file: i, size });
                proof {
                    let head = seq![
                        WriteStep::Zeros { count: (offset - bytes_written) as u64 },
                        WriteStep::Copy { file: i, size },
                    ];
                    let next = plan_from(places, sizes@, i + 1, offset + size);
                    if next is Ok {
                        assert(before + (head + next->Ok_0) =~= steps@ + next->Ok_0);
                    }
                }
                bytes_written = offset + size;
            }
            i += 1;
        }
        let ghost before = steps@;
        steps.push(WriteStep::Zeros { count: ROM_SIZE as u64 - bytes_written });
        assert(steps@ =~= before + seq![
            WriteStep::Zeros { count: (ROM_SIZE - bytes_written) as u64 },
        ]);
        Ok(steps)
    }
}

} // verus!
