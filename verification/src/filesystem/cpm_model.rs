//! The mathematical model of a CP/M filesystem as it is read.

use crate::error::ErrorView;
use crate::filesystem::header;
use crate::filesystem::{DirEntryView, ExtendedDirEntryView, FileAttributes};
use crate::image::ImageView;
use crate::order;
use crate::specification::{AllocationSize, DiskSpecFormat, DiskSpecSide, DiskSpecification};
use crate::text;
use vstd::prelude::*;

verus! {

/// The mathematical value of a directory entry.
#[verifier::ext_equal]
pub struct EntryView {
    pub index: int,
    pub user: u8,
    pub filename: Seq<u8>,
    pub extension: Seq<u8>,
    pub extent_low: u8,
    pub bytes_in_last_record: u8,
    pub extent_high: u8,
    pub record_count: u8,
    pub allocation: Seq<u8>,
}

/// The directory entry in 32 bytes. Labels, unused user numbers and (unless they are
/// wanted) deleted entries are none.
pub open spec fn entry_of(data: Seq<u8>, index: int, include_deleted: bool) -> Option<EntryView> {
    if data.len() < 32 || (data[0] > 0x1F && data[0] != 0xE5) || (!include_deleted && data[0] == 0xE5) {
        None
    } else {
        Some(
            EntryView {
                index,
                user: data[0],
                filename: data.subrange(1, 9),
                extension: data.subrange(9, 12),
                extent_low: data[12],
                bytes_in_last_record: data[13],
                extent_high: data[14],
                record_count: data[15],
                allocation: data.subrange(16, 32),
            },
        )
    }
}

/// A character of a stored name: without the attribute bit, and a blank for 0.
pub open spec fn plain_char(b: u8) -> char {
    if b % 128 == 0 {
        ' '
    } else {
        (b % 128) as char
    }
}

/// The text of a stored name.
pub open spec fn plain_text(name: Seq<u8>) -> Seq<char> {
    text::trim(Seq::new(name.len(), |i: int| plain_char(name[i])))
}

/// The block numbers among the first `n` of an allocation list; 0 stands for none. Behind
/// the first `needed`, numbers above `limit` are leftovers and stand for none either, if there
/// is a limit.
pub open spec fn kept_to(numbers: Seq<u16>, needed: int, limit: int, n: int) -> Seq<u16>
    decreases n,
{
    if n <= 0 {
        Seq::empty()
    } else if numbers[n - 1] != 0 && (n <= needed || limit == 0 || numbers[n - 1] <= limit) {
        kept_to(numbers, needed, limit, n - 1).push(numbers[n - 1])
    } else {
        kept_to(numbers, needed, limit, n - 1)
    }
}

impl EntryView {
    /// The name of the file, with its extension if it has one.
    pub open spec fn name(self) -> Seq<char> {
        let name = plain_text(self.filename);
        let extension = plain_text(self.extension);
        if extension.len() == 0 {
            name
        } else {
            name + "."@ + extension
        }
    }

    /// The attributes, which are the high bits of the extension.
    pub open spec fn attributes(self) -> FileAttributes {
        FileAttributes {
            read_only: self.extension[0] >= 0x80,
            system: self.extension[1] >= 0x80,
            archive: self.extension[2] >= 0x80,
        }
    }

    /// The number of the extent within its file.
    pub open spec fn extent_number(self) -> int {
        32 * self.extent_high + self.extent_low % 32
    }

    /// The number of bytes in the extent, if it is the last of its file and its last record
    /// holds `last` bytes (0 for a full record).
    pub open spec fn size_with(self, last: u8) -> int {
        if self.record_count == 0 {
            0
        } else if last > 0 {
            (self.record_count - 1) * 128 + last
        } else {
            self.record_count * 128
        }
    }

    /// The numbers in the allocation list.
    pub open spec fn numbers(self, width: AllocationSize) -> Seq<u16> {
        match width {
            AllocationSize::Byte => Seq::new(self.allocation.len(), |i: int| self.allocation[i] as u16),
            AllocationSize::Word => Seq::new(
                self.allocation.len() / 2,
                |i: int| crate::bytes::word_at(self.allocation, 2 * i) as u16,
            ),
        }
    }

    /// The blocks that the allocation list names.
    pub open spec fn blocks(self, width: AllocationSize) -> Seq<u16> {
        kept_to(self.numbers(width), 0, 0, self.numbers(width).len() as int)
    }

    /// The number of blocks that the records of the extent reach.
    pub open spec fn blocks_reached(self, spec: DiskSpecification) -> int {
        crate::bytes::div_up(self.record_count * 128, spec.block_bytes())
    }

    /// The blocks of the extent: all that the allocation list names. Where the format was not
    /// recognised, entries are not checked, so that what the list holds behind the last record
    /// counts only where the disk has room for such a block.
    pub open spec fn file_blocks(self, spec: DiskSpecification) -> Seq<u16> {
        let numbers = self.numbers(spec.allocation_size);
        if spec.format == DiskSpecFormat::Unknown {
            kept_to(numbers, self.blocks_reached(spec), spec.room(), numbers.len() as int)
        } else {
            self.blocks(spec.allocation_size)
        }
    }

    /// Whether the blocks that the allocation list names exist on the disk. Where the
    /// specification has no blocks at all, nothing is checked.
    pub open spec fn valid(self, spec: DiskSpecification) -> bool {
        let blocks = self.blocks(spec.allocation_size);
        ||| spec.blocks() == 0
        ||| {
            &&& forall|i: int| 0 <= i < blocks.len() ==> #[trigger] blocks[i] <= spec.blocks()
            &&& blocks.len() <= spec.blocks()
        }
    }
}

/// The side and track on which logical track `lt` lies.
pub open spec fn place(spec: DiskSpecification, lt: int) -> Option<(int, int)> {
    let tps = spec.tracks_per_side as int;
    match spec.side {
        DiskSpecSide::Single => Some((0, lt)),
        DiskSpecSide::DoubleAlternate => Some((lt % 2, lt / 2)),
        DiskSpecSide::DoubleSuccessive => Some((lt / tps, lt % tps)),
        DiskSpecSide::DoubleReverse => Some(
            (lt / tps, if lt / tps == 1 { tps - 1 - lt % tps } else { lt % tps }),
        ),
        DiskSpecSide::Invalid => None,
    }
}

/// The data of a logical sector: sectors count up by their ID numbers along each track.
/// Sides and tracks are addressed by one byte each.
pub open spec fn sector_at(image: ImageView, spec: DiskSpecification, absolute: int) -> Option<Seq<u8>> {
    let spt = spec.sectors_per_track as int;
    if spt == 0 || spec.tracks_per_side == 0 {
        None
    } else {
        match place(spec, absolute / spt) {
            None => None,
            Some((side, track)) => match image.track(side % 256, track % 256) {
                None => None,
                Some(t) => if absolute % spt < t.by_id().len() {
                    Some(t.by_id()[absolute % spt].data)
                } else {
                    None
                },
            },
        }
    }
}

/// The data of the logical sectors from `from` up to `to`; sectors that do not exist are
/// passed over.
pub open spec fn span(image: ImageView, spec: DiskSpecification, from: int, to: int) -> Seq<u8>
    decreases to - from,
{
    if to <= from {
        Seq::empty()
    } else {
        span(image, spec, from, to - 1) + (match sector_at(image, spec, to - 1) {
            Some(d) => d,
            None => Seq::empty(),
        })
    }
}

/// The bytes of the directory: what lies behind the reserved tracks, up to the size of the
/// directory.
pub open spec fn directory_bytes(image: ImageView, spec: DiskSpecification) -> Seq<u8> {
    let all = span(image, spec, spec.first_sector(), spec.last_sector());
    let size = spec.entries() * 32;
    if all.len() > size { all.take(size) } else { all }
}

/// The entries among the first `n` slots of a directory that name a file and are valid.
pub open spec fn entries_to(data: Seq<u8>, spec: DiskSpecification, include_deleted: bool, n: int) -> Seq<EntryView>
    decreases n,
{
    if n <= 0 {
        Seq::empty()
    } else {
        let rest = entries_to(data, spec, include_deleted, n - 1);
        match entry_of(data.subrange(32 * (n - 1), 32 * n), n - 1, include_deleted) {
            Some(e) => if e.valid(spec) { rest.push(e) } else { rest },
            None => rest,
        }
    }
}

/// The directory of a disk.
pub open spec fn directory(image: ImageView, spec: DiskSpecification, include_deleted: bool) -> Seq<EntryView> {
    let data = directory_bytes(image, spec);
    entries_to(data, spec, include_deleted, data.len() as int / 32)
}

/// What tells files apart: the user number and the name.
#[verifier::ext_equal]
pub struct FileKey {
    pub user: u8,
    pub name: Seq<char>,
}

impl EntryView {
    /// The file that the entry belongs to.
    pub open spec fn key(self) -> FileKey {
        FileKey { user: self.user, name: self.name() }
    }
}

/// The files among the first `n` entries, in the order in which they first appear.
pub open spec fn keys_to(entries: Seq<EntryView>, n: int) -> Seq<FileKey>
    decreases n,
{
    if n <= 0 {
        Seq::empty()
    } else {
        let rest = keys_to(entries, n - 1);
        let k = entries[n - 1].key();
        if rest.contains(k) { rest } else { rest.push(k) }
    }
}

/// The entries of a file among the first `n` entries.
pub open spec fn selected_to(entries: Seq<EntryView>, key: FileKey, n: int) -> Seq<EntryView>
    decreases n,
{
    if n <= 0 {
        Seq::empty()
    } else if entries[n - 1].key() == key {
        selected_to(entries, key, n - 1).push(entries[n - 1])
    } else {
        selected_to(entries, key, n - 1)
    }
}

/// The extent numbers of a list of entries.
pub open spec fn extent_numbers(s: Seq<EntryView>) -> Seq<int> {
    Seq::new(s.len(), |i: int| s[i].extent_number())
}

/// The extents of a file in their order.
pub open spec fn extents(entries: Seq<EntryView>, key: FileKey) -> Seq<EntryView> {
    let s = selected_to(entries, key, entries.len() as int);
    order::arranged(s, order::key_order(extent_numbers(s)))
}

/// The bytes in the first `n` extents of a file: full records, but for the last extent.
pub open spec fn size_to(extents: Seq<EntryView>, n: int) -> int
    decreases n,
{
    if n <= 0 {
        0
    } else {
        size_to(extents, n - 1) + (if n == extents.len() {
            extents[n - 1].size_with(extents[n - 1].bytes_in_last_record)
        } else {
            extents[n - 1].record_count * 128
        })
    }
}

/// The size of a file.
pub open spec fn file_size(extents: Seq<EntryView>) -> int {
    size_to(extents, extents.len() as int)
}

/// The blocks of the first `n` extents of a file.
pub open spec fn blocks_to(extents: Seq<EntryView>, spec: DiskSpecification, n: int) -> Seq<u16>
    decreases n,
{
    if n <= 0 {
        Seq::empty()
    } else {
        blocks_to(extents, spec, n - 1) + extents[n - 1].file_blocks(spec)
    }
}

/// The number of sectors per block.
pub open spec fn sectors_per_block(spec: DiskSpecification) -> int {
    spec.block_bytes() / (spec.sector_size as int)
}

/// The first `n` sectors from logical sector `start` on; missing ones count as zeros.
pub open spec fn sectors_to(image: ImageView, spec: DiskSpecification, start: int, n: int) -> Seq<u8>
    decreases n,
{
    if n <= 0 {
        Seq::empty()
    } else {
        sectors_to(image, spec, start, n - 1) + (match sector_at(image, spec, start + n - 1) {
            Some(d) => d,
            None => Seq::new(spec.sector_size as nat, |i: int| 0u8),
        })
    }
}

/// The first logical sector of a block.
pub open spec fn block_start(spec: DiskSpecification, block: int) -> int {
    block * sectors_per_block(spec) + spec.first_sector()
}

/// The data of the first `n` blocks of a list; block 0 is passed over.
pub open spec fn block_data_to(image: ImageView, spec: DiskSpecification, blocks: Seq<u16>, n: int) -> Seq<u8>
    decreases n,
{
    if n <= 0 {
        Seq::empty()
    } else if blocks[n - 1] == 0 {
        block_data_to(image, spec, blocks, n - 1)
    } else {
        block_data_to(image, spec, blocks, n - 1) + sectors_to(
            image,
            spec,
            block_start(spec, blocks[n - 1] as int),
            sectors_per_block(spec),
        )
    }
}

/// The data of the blocks of the first `n` extents of a file.
pub open spec fn extent_data_to(image: ImageView, spec: DiskSpecification, extents: Seq<EntryView>, n: int) -> Seq<u8>
    decreases n,
{
    if n <= 0 {
        Seq::empty()
    } else {
        let blocks = extents[n - 1].file_blocks(spec);
        extent_data_to(image, spec, extents, n - 1) + block_data_to(image, spec, blocks, blocks.len() as int)
    }
}

/// The content of a file, header included: the data of its blocks, up to its size.
pub open spec fn raw_file(image: ImageView, spec: DiskSpecification, extents: Seq<EntryView>) -> Seq<u8> {
    let all = extent_data_to(image, spec, extents, extents.len() as int);
    let size = file_size(extents);
    if all.len() > size { all.take(size) } else { all }
}

/// The file that a name stands for: `N:NAME` is a file of user N, other names are of user 0.
pub open spec fn key_of_name(name: Seq<char>) -> Result<FileKey, ErrorView> {
    match text::find(name, ':') {
        None => Ok(FileKey { user: 0, name }),
        Some(i) => match text::user_number(name.take(i)) {
            None => Err(ErrorView::Filesystem("Invalid CP/M user number"@)),
            Some(u) => Ok(FileKey { user: u as u8, name: name.skip(i + 1) }),
        },
    }
}

/// The content of the file with the given name, or why there is none.
pub open spec fn file_content(
    image: ImageView,
    spec: DiskSpecification,
    entries: Seq<EntryView>,
    name: Seq<char>,
    include_header: bool,
) -> Result<Seq<u8>, ErrorView> {
    match key_of_name(name) {
        Err(e) => Err(e),
        Ok(key) => {
            let ext = extents(entries, key);
            if ext.len() == 0 {
                Err(ErrorView::FileNotFound(name))
            } else if include_header {
                Ok(raw_file(image, spec, ext))
            } else {
                Ok(header::stripped(raw_file(image, spec, ext)))
            }
        },
    }
}

/// The names of a list of files.
pub open spec fn key_names(keys: Seq<FileKey>) -> Seq<Seq<char>> {
    Seq::new(keys.len(), |i: int| keys[i].name)
}

/// All files, ordered by name.
pub open spec fn sorted_keys(entries: Seq<EntryView>) -> Seq<FileKey> {
    let keys = keys_to(entries, entries.len() as int);
    order::arranged(keys, order::name_order(key_names(keys)))
}

/// The listing of a file.
pub open spec fn dir_entry(entries: Seq<EntryView>, key: FileKey) -> DirEntryView {
    let ext = extents(entries, key);
    DirEntryView {
        name: key.name,
        user: ext[0].user,
        extent: ext[0].extent_low,
        size: file_size(ext),
        attributes: ext[0].attributes(),
    }
}

/// The listing of a directory, ordered by name.
pub open spec fn listing(entries: Seq<EntryView>) -> Seq<DirEntryView> {
    Seq::new(sorted_keys(entries).len(), |i: int| dir_entry(entries, sorted_keys(entries)[i]))
}

/// The detailed listing of a file.
pub open spec fn extended_entry(image: ImageView, spec: DiskSpecification, entries: Seq<EntryView>, key: FileKey) -> ExtendedDirEntryView {
    let ext = extents(entries, key);
    let blocks = blocks_to(ext, spec, ext.len() as int);
    ExtendedDirEntryView {
        name: key.name,
        user: ext[0].user,
        index: ext[0].index,
        blocks: blocks.len() as int,
        allocated: blocks.len() * spec.block_bytes(),
        size: file_size(ext),
        attributes: ext[0].attributes(),
        header: if blocks.len() > 0 {
            header::parsed_header(block_data_to(image, spec, blocks, 1))
        } else {
            header::no_header()
        },
    }
}

/// The detailed listing of a directory, ordered by name.
pub open spec fn extended_listing(image: ImageView, spec: DiskSpecification, entries: Seq<EntryView>) -> Seq<ExtendedDirEntryView> {
    Seq::new(
        sorted_keys(entries).len(),
        |i: int| extended_entry(image, spec, entries, sorted_keys(entries)[i]),
    )
}

/// The number of blocks that the first `n` entries name.
pub open spec fn used_to(entries: Seq<EntryView>, spec: DiskSpecification, n: int) -> int
    decreases n,
{
    if n <= 0 {
        0
    } else {
        used_to(entries, spec, n - 1) + entries[n - 1].file_blocks(spec).len()
    }
}

/// The number of blocks that are neither named by an entry nor part of the directory.
pub open spec fn free_blocks(spec: DiskSpecification, entries: Seq<EntryView>) -> int {
    let used = used_to(entries, spec, entries.len() as int) + spec.directory_blocks;
    if used >= spec.blocks() { 0 } else { spec.blocks() - used }
}

/// Every file of a list of entries has an extent.
pub proof fn lemma_extents_exist(entries: Seq<EntryView>, i: int)
    requires
        0 <= i < entries.len(),
    ensures
        extents(entries, entries[i].key()).len() > 0,
{
    let key = entries[i].key();
    lemma_selected_grows(entries, key, i + 1, entries.len() as int);
    let s = selected_to(entries, key, entries.len() as int);
    order::lemma_order_permutes(order::by_key(extent_numbers(s)), s.len() as int);
}

proof fn lemma_selected_grows(entries: Seq<EntryView>, key: FileKey, n: int, m: int)
    requires
        0 <= n <= m <= entries.len(),
    ensures
        selected_to(entries, key, n).len() <= selected_to(entries, key, m).len(),
    decreases m - n,
{
    if n < m {
        lemma_selected_grows(entries, key, n, m - 1);
    }
}

/// A directory has no more entries than its specification allows, each with 16 bytes of
/// block numbers.
pub proof fn lemma_directory_len(image: ImageView, spec: DiskSpecification, include_deleted: bool)
    ensures
        directory(image, spec, include_deleted).len() <= spec.entries() <= 130560,
        forall|i: int| 0 <= i < directory(image, spec, include_deleted).len() ==> (#[trigger] directory(
            image,
            spec,
            include_deleted,
        )[i]).allocation.len() == 16,
{
    let data = directory_bytes(image, spec);
    crate::specification::lemma_entries_bound(spec);
    lemma_entries_len(data, spec, include_deleted, data.len() as int / 32);
}

proof fn lemma_entries_len(data: Seq<u8>, spec: DiskSpecification, include_deleted: bool, n: int)
    requires
        0 <= n <= data.len() / 32,
    ensures
        entries_to(data, spec, include_deleted, n).len() <= n,
        forall|i: int| 0 <= i < entries_to(data, spec, include_deleted, n).len() ==> (#[trigger] entries_to(
            data,
            spec,
            include_deleted,
            n,
        )[i]).allocation.len() == 16,
    decreases n,
{
    if n > 0 {
        lemma_entries_len(data, spec, include_deleted, n - 1);
    }
}

/// Whether a detailed listing can be made: sectors have a size where a file has blocks, and
/// the numbers of allocated bytes can be represented.
pub open spec fn listing_fits(image: ImageView, spec: DiskSpecification, entries: Seq<EntryView>) -> bool {
    forall|i: int| 0 <= i < sorted_keys(entries).len() ==> {
        let e = #[trigger] extended_listing(image, spec, entries)[i];
        &&& e.allocated <= usize::MAX
        &&& e.blocks > 0 ==> spec.sector_size > 0
    }
}

}
