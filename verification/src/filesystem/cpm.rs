//! CP/M filesystems.

use crate::bytes;
use crate::error::{DskError, ErrorView};
use crate::filesystem;
use crate::filesystem::cpm_blocks;
use crate::filesystem::cpm_model;
use crate::filesystem::cpm_model::{EntryView, FileKey};
use crate::filesystem::header;
use crate::filesystem::header::FileHeader;
use crate::filesystem::{DirEntry, ExtendedDirEntry, FileAttributes, FileSystem, FileSystemInfo};
use crate::image::{DiskImage, ImageView};
use crate::order;
use crate::specification;
use crate::specification::{AllocationSize, DiskSpecFormat, DiskSpecSide, DiskSpecification};
use crate::text;
use vstd::prelude::*;

verus! {

/// A CP/M directory entry.
#[derive(Debug)]
pub struct CpmDirEntry {
    /// The place of the entry in the directory.
    pub index: usize,
    pub user: u8,
    pub filename: [u8; 8],
    pub extension: [u8; 3],
    pub extent_low: u8,
    pub bytes_in_last_record: u8,
    pub extent_high: u8,
    pub record_count: u8,
    pub allocation: Vec<u8>,
}

impl View for CpmDirEntry {
    type V = EntryView;

    open spec fn view(&self) -> EntryView {
        EntryView {
            index: self.index as int,
            user: self.user,
            filename: self.filename@,
            extension: self.extension@,
            extent_low: self.extent_low,
            bytes_in_last_record: self.bytes_in_last_record,
            extent_high: self.extent_high,
            record_count: self.record_count,
            allocation: self.allocation@,
        }
    }
}

/// The values of a list of entries.
pub open spec fn entry_views(s: Seq<CpmDirEntry>) -> Seq<EntryView> {
    Seq::new(s.len(), |i: int| s[i]@)
}

/// The text of a stored name.
fn plain_chars(name: &[u8]) -> (v: Vec<char>)
    ensures
        v@ == cpm_model::plain_text(name@),
{
    let mut v: Vec<char> = Vec::new();
    let mut i: usize = 0;
    while i < name.len()
        invariant
            i <= name@.len(),
            v@ =~= Seq::new(i as nat, |k: int| cpm_model::plain_char(name@[k])),
        decreases name@.len() - i,
    {
        let b: u8 = name[i] % 128;
        v.push(if b == 0 { ' ' } else { b as char });
        i = i + 1;
    }
    text::trimmed(&v)
}

/// The block numbers of an allocation list.
fn keep_blocks(numbers: &Vec<u16>, needed: usize, limit: u16) -> (blocks: Vec<u16>)
    ensures
        blocks@ == cpm_model::kept_to(numbers@, needed as int, limit as int, numbers@.len() as int),
        blocks@.len() <= numbers@.len(),
{
    let mut blocks: Vec<u16> = Vec::new();
    let mut i: usize = 0;
    while i < numbers.len()
        invariant
            i <= numbers@.len(),
            blocks@ == cpm_model::kept_to(numbers@, needed as int, limit as int, i as int),
            blocks@.len() <= i,
        decreases numbers@.len() - i,
    {
        let block = numbers[i];
        if block != 0 && (i < needed || limit == 0 || block <= limit) {
            blocks.push(block);
        }
        i = i + 1;
    }
    blocks
}

/// Without a limit all block numbers count.
proof fn lemma_kept_unlimited(numbers: Seq<u16>, a: int, b: int, n: int)
    requires
        0 <= n <= numbers.len(),
    ensures
        cpm_model::kept_to(numbers, a, 0, n) == cpm_model::kept_to(numbers, b, 0, n),
    decreases n,
{
    if n > 0 {
        lemma_kept_unlimited(numbers, a, b, n - 1);
    }
}

impl CpmDirEntry {
    /// Reads an entry from 32 bytes; labels and deleted entries are none.
    pub fn parse(data: &[u8], index: usize) -> (r: Option<CpmDirEntry>)
        ensures
            match r {
                Some(e) => cpm_model::entry_of(data@, index as int, false) == Some(e@),
                None => cpm_model::entry_of(data@, index as int, false) is None,
            },
    {
        Self::parse_internal(data, index, false)
    }

    /// Reads an entry from 32 bytes; labels are none.
    pub fn parse_with_deleted(data: &[u8], index: usize) -> (r: Option<CpmDirEntry>)
        ensures
            match r {
                Some(e) => cpm_model::entry_of(data@, index as int, true) == Some(e@),
                None => cpm_model::entry_of(data@, index as int, true) is None,
            },
    {
        Self::parse_internal(data, index, true)
    }

    /// Reads an entry from 32 bytes.
    fn parse_internal(data: &[u8], index: usize, include_deleted: bool) -> (r: Option<CpmDirEntry>)
        ensures
            match r {
                Some(e) => cpm_model::entry_of(data@, index as int, include_deleted) == Some(e@),
                None => cpm_model::entry_of(data@, index as int, include_deleted) is None,
            },
    {
        if data.len() < 32 {
            return None;
        }
        let user = data[0];
        if user == 0x20 {
            return None;
        }
        if !include_deleted && user == 0xE5 {
            return None;
        }
        if user > 0x1F && user != 0xE5 {
            return None;
        }
        let filename: [u8; 8] = [
            data[1],
            data[2],
            data[3],
            data[4],
            data[5],
            data[6],
            data[7],
            data[8],
        ];
        let extension: [u8; 3] = [data[9], data[10], data[11]];
        assert(filename@ =~= data@.subrange(1, 9));
        assert(extension@ =~= data@.subrange(9, 12));
        let allocation = vstd::slice::slice_to_vec(vstd::slice::slice_subrange(data, 16, 32));
        Some(
            CpmDirEntry {
                index,
                user,
                filename,
                extension,
                extent_low: data[12],
                bytes_in_last_record: data[13],
                extent_high: data[14],
                record_count: data[15],
                allocation,
            },
        )
    }

    /// Whether the entry is deleted.
    pub fn is_deleted(&self) -> (b: bool)
        ensures
            b == (self@.user == 0xE5),
    {
        self.user == 0xE5
    }

    /// The characters of the file name.
    fn filename_chars(&self) -> (v: Vec<char>)
        ensures
            v@ == self@.name(),
    {
        let mut name = plain_chars(self.filename.as_slice());
        let extension = plain_chars(self.extension.as_slice());
        if extension.len() > 0 {
            let ghost before = name@;
            proof {
                reveal_strlit(".");
            }
            name.push('.');
            assert(name@ =~= before + "."@);
            name.extend_from_slice(extension.as_slice());
            assert(name@ =~= before + "."@ + extension@);
        }
        name
    }

    /// The file name, without attribute bits.
    pub fn filename_str(&self) -> (s: String)
        ensures
            s@ == self@.name(),
    {
        text::string_of(&self.filename_chars())
    }

    /// Whether the read-only attribute is set.
    pub fn is_read_only(&self) -> (b: bool)
        ensures
            b == self@.attributes().read_only,
    {
        self.extension[0] >= 0x80
    }

    /// Whether the system attribute is set.
    pub fn is_system(&self) -> (b: bool)
        ensures
            b == self@.attributes().system,
    {
        self.extension[1] >= 0x80
    }

    /// Whether the archive attribute is set.
    pub fn is_archive(&self) -> (b: bool)
        ensures
            b == self@.attributes().archive,
    {
        self.extension[2] >= 0x80
    }

    /// The file attributes.
    pub fn attributes(&self) -> (a: FileAttributes)
        ensures
            a == self@.attributes(),
    {
        FileAttributes {
            read_only: self.is_read_only(),
            system: self.is_system(),
            archive: self.is_archive(),
        }
    }

    /// The number of the extent within its file.
    pub fn extent_number(&self) -> (n: u16)
        ensures
            n == self@.extent_number(),
    {
        32 * self.extent_high as u16 + (self.extent_low % 32) as u16
    }

    /// The size of the extent, if its last record holds `bytes_in_last` bytes (0 for a full record).
    pub fn extent_size(&self, bytes_in_last: u8) -> (n: usize)
        ensures
            n == self@.size_with(bytes_in_last),
    {
        let records = self.record_count as usize;
        if records == 0 {
            0
        } else if bytes_in_last > 0 {
            (records - 1) * 128 + bytes_in_last as usize
        } else {
            records * 128
        }
    }

    /// The numbers in the allocation list.
    fn extract_numbers(&self, width: AllocationSize) -> (numbers: Vec<u16>)
        ensures
            numbers@ == self@.numbers(width),
            numbers@.len() <= self@.allocation.len(),
    {
        let mut numbers: Vec<u16> = Vec::new();
        match width {
            AllocationSize::Byte => {
                let mut i: usize = 0;
                while i < self.allocation.len()
                    invariant
                        i <= self.allocation@.len(),
                        numbers@.len() == i,
                        forall|k: int| 0 <= k < i ==> #[trigger] numbers@[k] == self.allocation@[k],
                    decreases self.allocation@.len() - i,
                {
                    numbers.push(self.allocation[i] as u16);
                    i = i + 1;
                }
            },
            AllocationSize::Word => {
                let n: usize = self.allocation.len() / 2;
                let mut i: usize = 0;
                while i < n
                    invariant
                        i <= n,
                        n == self.allocation@.len() / 2,
                        2 * n <= usize::MAX,
                        numbers@.len() == i,
                        forall|k: int| 0 <= k < i ==> #[trigger] numbers@[k] == bytes::word_at(self.allocation@, 2 * k),
                    decreases n - i,
                {
                    numbers.push(bytes::make_word(self.allocation[2 * i], self.allocation[2 * i + 1]));
                    i = i + 1;
                }
            },
        }
        assert(numbers@ =~= self@.numbers(width));
        numbers
    }

    /// The blocks that the allocation list names.
    pub fn extract_blocks(&self, width: AllocationSize) -> (blocks: Vec<u16>)
        ensures
            blocks@ == self@.blocks(width),
            blocks@.len() <= self@.allocation.len(),
    {
        keep_blocks(&self.extract_numbers(width), 0, 0)
    }

    /// The blocks that the allocation list names, as they are checked against a disk.
    pub fn extract_blocks_for_validation(&self, spec: &DiskSpecification) -> (blocks: Vec<u16>)
        ensures
            blocks@ == self@.blocks(spec.allocation_size),
            blocks@.len() <= self@.allocation.len(),
    {
        self.extract_blocks(spec.allocation_size)
    }

    /// The blocks of the extent. Where the format was not recognised, what the allocation list
    /// holds behind the last record counts only where the disk has room for such a block.
    pub fn extract_file_blocks(&self, spec: &DiskSpecification) -> (blocks: Vec<u16>)
        ensures
            blocks@ == self@.file_blocks(*spec),
            blocks@.len() <= self@.allocation.len(),
    {
        match spec.format {
            DiskSpecFormat::Unknown => {},
            _ => {
                return self.extract_blocks(spec.allocation_size);
            },
        }
        let numbers = self.extract_numbers(spec.allocation_size);
        let limit = spec.block_room();
        let block_size = spec.block_size();
        if block_size == 0 {
            proof {
                lemma_kept_unlimited(numbers@, 0, self@.blocks_reached(*spec), numbers@.len() as int);
            }
            return keep_blocks(&numbers, 0, limit);
        }
        let needed = bytes::ceil_div(self.record_count as usize * 128, block_size);
        keep_blocks(&numbers, needed, limit)
    }

    /// Whether the blocks of the entry exist on the disk.
    pub fn is_valid(&self, spec: &DiskSpecification) -> (b: bool)
        ensures
            b == self@.valid(*spec),
    {
        let blocks = self.extract_blocks_for_validation(spec);
        let max_block = spec.block_count();
        if max_block == 0 {
            return true;
        }
        let mut i: usize = 0;
        while i < blocks.len()
            invariant
                i <= blocks@.len(),
                blocks@ == self@.blocks(spec.allocation_size),
                max_block == spec.blocks(),
                max_block != 0,
                forall|k: int| 0 <= k < i ==> #[trigger] blocks@[k] <= max_block,
            decreases blocks@.len() - i,
        {
            if blocks[i] > max_block {
                return false;
            }
            i = i + 1;
        }
        blocks.len() <= max_block as usize
    }
}

/// A CP/M filesystem on an image.
pub struct CpmFileSystem<'a> {
    image: &'a DiskImage,
    spec: DiskSpecification,
    directory_entries: Vec<CpmDirEntry>,
}

impl<'a> CpmFileSystem<'a> {
    /// The image that the filesystem lies on.
    pub closed spec fn disk(&self) -> ImageView {
        self.image@
    }

    /// Where the filesystem lies.
    pub closed spec fn layout(&self) -> DiskSpecification {
        self.spec
    }

    /// The directory, without deleted files.
    pub open spec fn entries(&self) -> Seq<EntryView> {
        cpm_model::directory(self.disk(), self.layout(), false)
    }

    /// The entries are those on the disk.
    #[verifier::type_invariant]
    spec fn inv(&self) -> bool {
        entry_views(self.directory_entries@) == cpm_model::directory(self.image@, self.spec, false)
    }

    /// The filesystem that lies on an image in the given way.
    pub fn new(image: &'a DiskImage, spec: DiskSpecification) -> (r: Result<CpmFileSystem<'a>, DskError>)
        ensures
            r matches Ok(fs) && fs.disk() == image@ && fs.layout() == spec,
    {
        let directory_entries = Self::read_directory(image, &spec);
        Ok(CpmFileSystem { image, spec, directory_entries })
    }

    /// Reads the directory, without deleted files.
    fn read_directory(image: &DiskImage, spec: &DiskSpecification) -> (entries: Vec<CpmDirEntry>)
        ensures
            entry_views(entries@) == cpm_model::directory(image@, *spec, false),
    {
        Self::read_directory_internal(image, spec, false)
    }

    /// Reads the directory.
    fn read_directory_internal(image: &DiskImage, spec: &DiskSpecification, include_deleted: bool) -> (entries: Vec<CpmDirEntry>)
        ensures
            entry_views(entries@) == cpm_model::directory(image@, *spec, include_deleted),
    {
        let mut entries: Vec<CpmDirEntry> = Vec::new();
        let max_entries = spec.directory_entries();
        let dir_data = Self::read_directory_data(image, spec, max_entries);
        let data = dir_data.as_slice();
        let count: usize = data.len() / 32;
        let mut n: usize = 0;
        assert(entry_views(entries@) =~= cpm_model::entries_to(data@, *spec, include_deleted, 0));
        while n < count
            invariant
                n <= count,
                count == data@.len() / 32,
                32 * count <= usize::MAX,
                entry_views(entries@) == cpm_model::entries_to(data@, *spec, include_deleted, n as int),
            decreases count - n,
        {
            let chunk = vstd::slice::slice_subrange(data, 32 * n, 32 * n + 32);
            let entry = if include_deleted {
                CpmDirEntry::parse_with_deleted(chunk, n)
            } else {
                CpmDirEntry::parse(chunk, n)
            };
            if let Some(e) = entry {
                if e.is_valid(spec) {
                    let ghost before = entries@;
                    entries.push(e);
                    assert(entry_views(entries@) =~= entry_views(before).push(e@));
                }
            }
            n = n + 1;
        }
        entries
    }

    /// Reads the bytes of the directory.
    fn read_directory_data(image: &DiskImage, spec: &DiskSpecification, max_entries: usize) -> (data: Vec<u8>)
        requires
            max_entries == spec.entries(),
            max_entries <= 130560,
        ensures
            data@ == cpm_model::directory_bytes(image@, *spec),
    {
        let dir_size_bytes: usize = max_entries * 32;
        let mut dir_data: Vec<u8> = Vec::new();
        let sides = spec.side_count();
        let spt = spec.sectors_per_track as usize;
        proof {
            specification::lemma_sector_bounds(*spec);
        }
        let total_tracks: usize = spec.tracks_per_side as usize * sides as usize;
        let first_sector: usize = spec.reserved_tracks as usize * spt;
        let last_sector: usize = total_tracks * spt;
        let mut absolute: usize = first_sector;
        let ghost mut all = cpm_model::span(image@, *spec, first_sector as int, first_sector as int);
        while absolute < last_sector && dir_data.len() < dir_size_bytes
            invariant
                first_sector <= absolute,
                first_sector == spec.first_sector(),
                last_sector == spec.last_sector(),
                absolute <= last_sector || absolute == first_sector,
                all == cpm_model::span(image@, *spec, first_sector as int, absolute as int),
                dir_data@ == (if all.len() > dir_size_bytes { all.take(dir_size_bytes as int) } else { all }),
            decreases last_sector - absolute,
        {
            let ghost before = all;
            if let Some(data) = Self::logical_sector(image, spec, absolute) {
                let room: usize = dir_size_bytes - dir_data.len();
                let to_copy: usize = if room < data.len() { room } else { data.len() };
                let ghost dir_before = dir_data@;
                let part = vstd::slice::slice_subrange(data, 0, to_copy);
                dir_data.extend_from_slice(part);
                assert(dir_data@ =~= dir_before + data@.take(to_copy as int));
                proof {
                    all = before + data@;
                }
                assert(dir_data@ =~= (if all.len() > dir_size_bytes { all.take(dir_size_bytes as int) } else { all }));
            } else {
                assert(before + Seq::<u8>::empty() =~= before);
            }
            absolute = absolute + 1;
        }
        proof {
            if absolute < last_sector {
                cpm_blocks::lemma_span_extends(image@, *spec, first_sector as int, absolute as int, last_sector as int);
                let whole = cpm_model::span(image@, *spec, first_sector as int, last_sector as int);
                assert(dir_data@.len() == dir_size_bytes);
                assert(dir_data@ =~= whole.take(dir_size_bytes as int));
                assert(whole.len() == dir_size_bytes ==> whole.take(dir_size_bytes as int) =~= whole);
            } else if absolute > last_sector {
                assert(absolute == first_sector);
            }
        }
        dir_data
    }

    /// The data of a logical sector.
    fn logical_sector<'b>(image: &'b DiskImage, spec: &DiskSpecification, absolute: usize) -> (r: Option<&'b [u8]>)
        ensures
            match r {
                Some(d) => cpm_model::sector_at(image@, *spec, absolute as int) == Some(d@),
                None => cpm_model::sector_at(image@, *spec, absolute as int) is None,
            },
    {
        let spt = spec.sectors_per_track as usize;
        let tps = spec.tracks_per_side as usize;
        if spt == 0 || tps == 0 {
            return None;
        }
        let logical_track: usize = absolute / spt;
        let sector_index: usize = absolute % spt;
        let (side, track): (usize, usize) = match spec.side {
            DiskSpecSide::Single => (0, logical_track),
            DiskSpecSide::DoubleAlternate => (logical_track % 2, logical_track / 2),
            DiskSpecSide::DoubleSuccessive => (logical_track / tps, logical_track % tps),
            DiskSpecSide::DoubleReverse => {
                let side: usize = logical_track / tps;
                let track: usize = logical_track % tps;
                (side, if side == 1 { tps - 1 - track } else { track })
            },
            DiskSpecSide::Invalid => {
                return None;
            },
        };
        match image.get_disk((side % 256) as u8) {
            None => None,
            Some(disk) => match disk.get_track((track % 256) as u8) {
                None => None,
                Some(t) => match t.nth_by_id(sector_index) {
                    None => None,
                    Some(s) => Some(s.data()),
                },
            },
        }
    }

    /// The names of a list of entries.
    fn entry_names(entries: &Vec<CpmDirEntry>) -> (names: Vec<Vec<char>>)
        ensures
            names@.len() == entries@.len(),
            forall|i: int| 0 <= i < names@.len() ==> (#[trigger] names@[i])@ == entries@[i]@.name(),
    {
        let mut names: Vec<Vec<char>> = Vec::new();
        let mut i: usize = 0;
        while i < entries.len()
            invariant
                i <= entries@.len(),
                names@.len() == i,
                forall|k: int| 0 <= k < i ==> (#[trigger] names@[k])@ == entries@[k]@.name(),
            decreases entries@.len() - i,
        {
            names.push(entries[i].filename_chars());
            i = i + 1;
        }
        names
    }

    /// The indices of the extents of a file, in their order.
    fn extents_of(entries: &Vec<CpmDirEntry>, names: &Vec<Vec<char>>, user: u8, name: &Vec<char>) -> (r: Vec<usize>)
        requires
            names@.len() == entries@.len(),
            forall|i: int| 0 <= i < names@.len() ==> (#[trigger] names@[i])@ == entries@[i]@.name(),
        ensures
            picked(entries@, r@) == cpm_model::extents(entry_views(entries@), FileKey { user, name: name@ }),
            r@.len() <= entries@.len(),
            forall|i: int| 0 <= i < r@.len() ==> #[trigger] r@[i] < entries@.len(),
    {
        let ghost views = entry_views(entries@);
        let ghost key = FileKey { user, name: name@ };
        let mut found: Vec<usize> = Vec::new();
        let mut numbers: Vec<u16> = Vec::new();
        let mut i: usize = 0;
        assert(picked(entries@, found@) =~= cpm_model::selected_to(views, key, 0));
        while i < entries.len()
            invariant
                i <= entries@.len(),
                names@.len() == entries@.len(),
                forall|k: int| 0 <= k < names@.len() ==> (#[trigger] names@[k])@ == entries@[k]@.name(),
                views == entry_views(entries@),
                key == (FileKey { user, name: name@ }),
                picked(entries@, found@) == cpm_model::selected_to(views, key, i as int),
                found@.len() == numbers@.len() <= i,
                forall|k: int| 0 <= k < found@.len() ==> #[trigger] found@[k] < entries@.len(),
                forall|k: int| 0 <= k < found@.len() ==> #[trigger] numbers@[k] == entries@[found@[k] as int]@.extent_number(),
            decreases entries@.len() - i,
        {
            assert(views[i as int] == entries@[i as int]@);
            assert(names@[i as int]@ == views[i as int].name());
            let same = entries[i].user == user && chars_equal(&names[i], name);
            assert(same == (views[i as int].key() == key));
            if same {
                let ghost before = found@;
                found.push(i);
                numbers.push(entries[i].extent_number());
                assert(picked(entries@, found@) =~= picked(entries@, before).push(views[i as int]));
            }
            i = i + 1;
        }
        let ghost s = picked(entries@, found@);
        assert(order::ints(numbers@) =~= cpm_model::extent_numbers(s));
        let o = order::order_by_key(&numbers);
        let mut r: Vec<usize> = Vec::new();
        let mut j: usize = 0;
        while j < o.len()
            invariant
                j <= o@.len() == found@.len(),
                r@.len() == j,
                forall|k: int| 0 <= k < o@.len() ==> #[trigger] o@[k] < found@.len(),
                forall|k: int| 0 <= k < found@.len() ==> #[trigger] found@[k] < entries@.len(),
                forall|k: int| 0 <= k < j ==> #[trigger] r@[k] == found@[o@[k] as int],
            decreases o@.len() - j,
        {
            r.push(found[o[j]]);
            j = j + 1;
        }
        assert(order::indices(o@).len() == o@.len());
        assert(picked(entries@, r@) =~= order::arranged(s, order::indices(o@)));
        r
    }

    /// The files of a list of entries, in the order in which they first appear.
    fn merge_extents_from_entries(entries: &Vec<CpmDirEntry>) -> (files: Vec<CpmFile>)
        ensures
            files@.len() == cpm_model::keys_to(entry_views(entries@), entries@.len() as int).len(),
            forall|i: int| 0 <= i < files@.len() ==> (#[trigger] files@[i]).holds(
                entries@,
                cpm_model::keys_to(entry_views(entries@), entries@.len() as int)[i],
            ),
    {
        let ghost views = entry_views(entries@);
        let names = Self::entry_names(entries);
        let mut files: Vec<CpmFile> = Vec::new();
        let mut i: usize = 0;
        while i < entries.len()
            invariant
                i <= entries@.len(),
                views == entry_views(entries@),
                names@.len() == entries@.len(),
                forall|k: int| 0 <= k < names@.len() ==> (#[trigger] names@[k])@ == entries@[k]@.name(),
                files@.len() == cpm_model::keys_to(views, i as int).len(),
                forall|k: int| 0 <= k < files@.len() ==> (#[trigger] files@[k]).holds(entries@, cpm_model::keys_to(views, i as int)[k]),
            decreases entries@.len() - i,
        {
            let ghost keys = cpm_model::keys_to(views, i as int);
            let ghost key = views[i as int].key();
            assert(views[i as int] == entries@[i as int]@);
            assert(names@[i as int]@ == views[i as int].name());
            let user = entries[i].user;
            let mut known = false;
            let mut j: usize = 0;
            while j < files.len()
                invariant
                    j <= files@.len() == keys.len(),
                    i < names@.len(),
                    key == (FileKey { user, name: names@[i as int]@ }),
                    forall|k: int| 0 <= k < files@.len() ==> (#[trigger] files@[k]).holds(entries@, keys[k]),
                    known == (exists|k: int| 0 <= k < j && keys[k] == key),
                decreases files@.len() - j,
            {
                assert(files@[j as int].holds(entries@, keys[j as int]));
                if files[j].user == user && chars_equal(&files[j].name, &names[i]) {
                    known = true;
                    assert(keys[j as int] == key);
                }
                j = j + 1;
            }
            assert(known == keys.contains(key));
            if !known {
                let extents = Self::extents_of(entries, &names, user, &names[i]);
                proof {
                    cpm_model::lemma_extents_exist(views, i as int);
                }
                assert(picked(entries@, extents@).len() == extents@.len());
                let file = CpmFile { user, name: text::part(&names[i], 0, names[i].len()), extents };
                assert(file.name@ =~= names@[i as int]@);
                assert(file.holds(entries@, key));
                files.push(file);
            }
            i = i + 1;
        }
        files
    }

    /// The size of a file.
    fn size_of_file(entries: &Vec<CpmDirEntry>, extents: &Vec<usize>) -> (n: usize)
        requires
            entries@.len() <= 130560,
            extents@.len() <= entries@.len(),
            forall|i: int| 0 <= i < extents@.len() ==> #[trigger] extents@[i] < entries@.len(),
        ensures
            n == cpm_model::file_size(picked(entries@, extents@)),
    {
        let ghost ext = picked(entries@, extents@);
        let mut total: usize = 0;
        let mut i: usize = 0;
        while i < extents.len()
            invariant
                i <= extents@.len() <= entries@.len() <= 130560,
                ext == picked(entries@, extents@),
                forall|k: int| 0 <= k < extents@.len() ==> #[trigger] extents@[k] < entries@.len(),
                total == cpm_model::size_to(ext, i as int),
                total <= 32767 * i,
            decreases extents@.len() - i,
        {
            assert(ext[i as int] == entries@[extents@[i as int] as int]@);
            let e = &entries[extents[i]];
            let part: usize = if i + 1 == extents.len() {
                e.extent_size(e.bytes_in_last_record)
            } else {
                e.record_count as usize * 128
            };
            assert(part <= 32767);
            total = total + part;
            i = i + 1;
        }
        total
    }

    /// The file that a name stands for.
    fn file_key(name: &str) -> (r: Result<(u8, Vec<char>), DskError>)
        ensures
            match r {
                Ok(k) => cpm_model::key_of_name(name@) == Ok::<FileKey, ErrorView>(FileKey { user: k.0, name: k.1@ }),
                Err(e) => cpm_model::key_of_name(name@) == Err::<FileKey, ErrorView>(e@),
            },
    {
        let chars = text::chars_of(name);
        match text::find_char(&chars, ':') {
            None => Ok((0, chars)),
            Some(i) => {
                let len = chars.len();
                let user = text::part(&chars, 0, i);
                assert(user@ =~= chars@.take(i as int));
                match text::parse_user(&user) {
                    None => Err(DskError::filesystem("Invalid CP/M user number")),
                    Some(u) => {
                        let rest = text::part(&chars, i + 1, len);
                        assert(rest@ =~= chars@.skip(i + 1));
                        Ok((u, rest))
                    },
                }
            },
        }
    }

    /// The data of a list of blocks.
    fn read_blocks(&self, blocks: &Vec<u16>, count: usize) -> (data: Vec<u8>)
        requires
            self.layout().sector_size > 0,
            count <= blocks@.len(),
        ensures
            data@ == cpm_model::block_data_to(self.disk(), self.layout(), blocks@, count as int),
    {
        let block_size = self.spec.block_size();
        let sector_size = self.spec.sector_size as usize;
        let spb: usize = block_size / sector_size;
        let mut data: Vec<u8> = Vec::new();
        let mut n: usize = 0;
        while n < count
            invariant
                n <= count <= blocks@.len(),
                sector_size == self.spec.sector_size > 0,
                spb == cpm_model::sectors_per_block(self.spec),
                spb <= 16384,
                data@ == cpm_model::block_data_to(self.disk(), self.layout(), blocks@, n as int),
            decreases count - n,
        {
            let block = blocks[n];
            if block != 0 {
                let start_sector = self.block_to_sector(block);
                let ghost before = data@;
                let mut i: usize = 0;
                assert(data@ =~= before + cpm_model::sectors_to(self.disk(), self.layout(), start_sector as int, 0));
                while i < spb
                    invariant
                        i <= spb <= 16384,
                        start_sector <= 65535 * 16384 + 65025,
                        sector_size == self.spec.sector_size,
                        data@ == before + cpm_model::sectors_to(self.disk(), self.layout(), start_sector as int, i as int),
                    decreases spb - i,
                {
                    let ghost so_far = data@;
                    match Self::logical_sector(self.image, &self.spec, start_sector + i) {
                        Some(d) => {
                            data.extend_from_slice(d);
                            assert(data@ =~= so_far + d@);
                        },
                        None => {
                            let zeros: Vec<u8> = vec![0u8; sector_size];
                            assert(zeros@ =~= Seq::new(sector_size as nat, |k: int| 0u8));
                            data.extend_from_slice(zeros.as_slice());
                            assert(data@ =~= so_far + zeros@);
                        },
                    }
                    assert(data@ =~= before + cpm_model::sectors_to(self.disk(), self.layout(), start_sector as int, i + 1));
                    i = i + 1;
                }
            }
            n = n + 1;
        }
        data
    }

    /// The first logical sector of a block.
    fn block_to_sector(&self, block: u16) -> (n: usize)
        requires
            self.layout().sector_size > 0,
        ensures
            n == cpm_model::block_start(self.layout(), block as int),
            n <= 65535 * 16384 + 65025,
    {
        let block_size = self.spec.block_size();
        let spb: usize = block_size / self.spec.sector_size as usize;
        assert(spb <= block_size) by (nonlinear_arith)
            requires
                spb == block_size as int / self.spec.sector_size as int,
                self.spec.sector_size > 0,
                block_size >= 0,
        ;
        proof {
            specification::lemma_small_product(block as int, 65535, spb as int, 16384);
            specification::lemma_sector_bounds(self.spec);
        }
        let reserved: usize = self.spec.reserved_tracks as usize * self.spec.sectors_per_track as usize;
        block as usize * spb + reserved
    }

    /// Where the filesystem lies.
    pub fn specification(&self) -> (s: &DiskSpecification)
        ensures
            *s == self.layout(),
    {
        &self.spec
    }

    /// Lists the files in detail.
    pub fn read_dir_extended(&self) -> (r: Result<Vec<ExtendedDirEntry>, DskError>)
        requires
            cpm_model::listing_fits(self.disk(), self.layout(), cpm_model::directory(self.disk(), self.layout(), false)),
        ensures
            r matches Ok(list) && filesystem::extended_views(list@) == cpm_model::extended_listing(
                self.disk(),
                self.layout(),
                cpm_model::directory(self.disk(), self.layout(), false),
            ),
    {
        self.read_dir_extended_internal(false)
    }

    /// Lists the files in detail, deleted ones included.
    pub fn read_dir_extended_with_deleted(&self) -> (r: Result<Vec<ExtendedDirEntry>, DskError>)
        requires
            cpm_model::listing_fits(self.disk(), self.layout(), cpm_model::directory(self.disk(), self.layout(), true)),
        ensures
            r matches Ok(list) && filesystem::extended_views(list@) == cpm_model::extended_listing(
                self.disk(),
                self.layout(),
                cpm_model::directory(self.disk(), self.layout(), true),
            ),
    {
        self.read_dir_extended_internal(true)
    }

    /// Lists the files in detail.
    fn read_dir_extended_internal(&self, include_deleted: bool) -> (r: Result<Vec<ExtendedDirEntry>, DskError>)
        requires
            cpm_model::listing_fits(
                self.disk(),
                self.layout(),
                cpm_model::directory(self.disk(), self.layout(), include_deleted),
            ),
        ensures
            r matches Ok(list) && filesystem::extended_views(list@) == cpm_model::extended_listing(
                self.disk(),
                self.layout(),
                cpm_model::directory(self.disk(), self.layout(), include_deleted),
            ),
    {
        let dir_entries = Self::read_directory_internal(self.image, &self.spec, include_deleted);
        let ghost views = entry_views(dir_entries@);
        proof {
            cpm_model::lemma_directory_len(self.image@, self.spec, include_deleted);
        }
        let files = Self::merge_extents_from_entries(&dir_entries);
        let ghost keys = cpm_model::keys_to(views, dir_entries@.len() as int);
        let o = Self::file_order(&files, Ghost(dir_entries@), Ghost(keys));
        let block_size = self.spec.block_size();
        let mut entries: Vec<ExtendedDirEntry> = Vec::new();
        let mut n: usize = 0;
        while n < o.len()
            invariant
                n <= o@.len() == files@.len(),
                views == entry_views(dir_entries@),
                views == cpm_model::directory(self.disk(), self.layout(), include_deleted),
                dir_entries@.len() <= 130560,
                keys == cpm_model::keys_to(views, dir_entries@.len() as int),
                files@.len() == keys.len(),
                forall|k: int| 0 <= k < files@.len() ==> (#[trigger] files@[k]).holds(dir_entries@, keys[k]),
                forall|k: int| 0 <= k < o@.len() ==> #[trigger] o@[k] < files@.len(),
                order::indices(o@) == order::name_order(cpm_model::key_names(keys)),
                cpm_model::sorted_keys(views).len() == o@.len(),
                cpm_model::listing_fits(self.disk(), self.layout(), views),
                block_size == self.spec.block_bytes(),
                entries@.len() == n,
                forall|k: int| 0 <= k < n ==> (#[trigger] entries@[k])@ == cpm_model::extended_listing(self.disk(), self.layout(), views)[k],
            decreases o@.len() - n,
        {
            let file = &files[o[n]];
            let ghost key = keys[o@[n as int] as int];
            assert(file.holds(dir_entries@, key));
            assert(order::indices(o@)[n as int] == o@[n as int]);
            assert(cpm_model::sorted_keys(views)[n as int] == key);
            let ghost ext = cpm_model::extents(views, key);
            assert(picked(dir_entries@, file.extents@) == ext);
            let ghost expected = cpm_model::extended_entry(self.disk(), self.layout(), views, key);
            assert(cpm_model::extended_listing(self.disk(), self.layout(), views)[n as int] == expected);
            let first_extent = &dir_entries[file.extents[0]];
            assert(ext[0] == first_extent@);
            let mut all_blocks: Vec<u16> = Vec::new();
            let mut i: usize = 0;
            while i < file.extents.len()
                invariant
                    i <= file.extents@.len(),
                    ext == picked(dir_entries@, file.extents@),
                    forall|k: int| 0 <= k < file.extents@.len() ==> #[trigger] file.extents@[k] < dir_entries@.len(),
                    all_blocks@ == cpm_model::blocks_to(ext, self.layout(), i as int),
                decreases file.extents@.len() - i,
            {
                assert(ext[i as int] == dir_entries@[file.extents@[i as int] as int]@);
                let ghost before = all_blocks@;
                let blocks = dir_entries[file.extents[i]].extract_file_blocks(&self.spec);
                all_blocks.extend_from_slice(blocks.as_slice());
                assert(all_blocks@ =~= before + blocks@);
                i = i + 1;
            }
            let total_size = Self::size_of_file(&dir_entries, &file.extents);
            assert(ext.len() == file.extents@.len());
            assert(expected.allocated == all_blocks@.len() * block_size);
            let allocated: usize = all_blocks.len() * block_size;
            let header = if all_blocks.len() > 0 {
                let data = self.read_first_block(&all_blocks);
                header::try_parse_header(data.as_slice())
            } else {
                FileHeader::none()
            };
            let entry = ExtendedDirEntry {
                name: text::string_of(&file.name),
                user: first_extent.user,
                index: first_extent.index,
                blocks: all_blocks.len(),
                allocated,
                size: total_size,
                attributes: first_extent.attributes(),
                header,
            };
            assert(entry@ == expected);
            entries.push(entry);
            n = n + 1;
        }
        assert(filesystem::extended_views(entries@) =~= cpm_model::extended_listing(self.disk(), self.layout(), views));
        Ok(entries)
    }

    /// The data of the first block of a file.
    fn read_first_block(&self, blocks: &Vec<u16>) -> (data: Vec<u8>)
        requires
            self.layout().sector_size > 0,
            blocks@.len() > 0,
        ensures
            data@ == cpm_model::block_data_to(self.disk(), self.layout(), blocks@, 1),
    {
        self.read_blocks(blocks, 1)
    }

    /// The order of files by their names.
    fn file_order(files: &Vec<CpmFile>, entries: Ghost<Seq<CpmDirEntry>>, keys: Ghost<Seq<FileKey>>) -> (o: Vec<usize>)
        requires
            files@.len() == keys@.len(),
            forall|k: int| 0 <= k < files@.len() ==> (#[trigger] files@[k]).holds(entries@, keys@[k]),
        ensures
            order::indices(o@) == order::name_order(cpm_model::key_names(keys@)),
            o@.len() == files@.len(),
            o@.len() == order::name_order(cpm_model::key_names(keys@)).len(),
            forall|k: int| 0 <= k < o@.len() ==> #[trigger] o@[k] < files@.len(),
    {
        let mut names: Vec<Vec<char>> = Vec::new();
        let mut i: usize = 0;
        while i < files.len()
            invariant
                i <= files@.len() == keys@.len(),
                forall|k: int| 0 <= k < files@.len() ==> (#[trigger] files@[k]).holds(entries@, keys@[k]),
                names@.len() == i,
                forall|k: int| 0 <= k < i ==> (#[trigger] names@[k])@ == keys@[k].name,
            decreases files@.len() - i,
        {
            assert(files@[i as int].holds(entries@, keys@[i as int]));
            let name = text::part(&files[i].name, 0, files[i].name.len());
            assert(name@ =~= files@[i as int].name@);
            names.push(name);
            i = i + 1;
        }
        assert(order::name_views(names@) =~= cpm_model::key_names(keys@));
        let o = order::order_by_name(&names);
        assert(order::indices(o@).len() == o@.len());
        o
    }

    /// Opens the CP/M filesystem on an image, whose specification is recognised.
    pub fn from_image(image: &'a DiskImage) -> (r: Result<CpmFileSystem<'a>, DskError>)
        ensures
            ({
                let spec = specification::identified(image@);
                match r {
                    Ok(fs) => {
                        &&& spec.sector_size != 0 && spec.sectors_per_track != 0
                        &&& fs.disk() == image@
                        &&& fs.layout() == spec
                    },
                    Err(e) => {
                        &&& spec.sector_size == 0 || spec.sectors_per_track == 0
                        &&& e@ == ErrorView::Filesystem("Invalid disk specification"@)
                    },
                }
            }),
    {
        let spec = DiskSpecification::identify(image);
        if spec.sector_size == 0 || spec.sectors_per_track == 0 {
            return Err(DskError::filesystem("Invalid disk specification"));
        }
        CpmFileSystem::new(image, spec)
    }

    /// The content of a file. `N:NAME` names a file of user N, other names are of user 0. The
    /// AMSDOS or +3DOS header is left out unless it is wanted.
    pub fn read_file_binary(&self, name: &str, include_header: bool) -> (r: Result<Vec<u8>, DskError>)
        requires
            self.layout().sector_size > 0 || cpm_model::file_content(
                self.disk(),
                self.layout(),
                self.entries(),
                name@,
                include_header,
            ) is Err,
        ensures
            match r {
                Ok(data) => cpm_model::file_content(
                    self.disk(),
                    self.layout(),
                    self.entries(),
                    name@,
                    include_header,
                ) == Ok::<Seq<u8>, ErrorView>(data@),
                Err(e) => cpm_model::file_content(
                    self.disk(),
                    self.layout(),
                    self.entries(),
                    name@,
                    include_header,
                ) == Err::<Seq<u8>, ErrorView>(e@),
            },
    {
        proof {
            use_type_invariant(self);
            cpm_model::lemma_directory_len(self.image@, self.spec, false);
        }
        let (user, wanted) = match Self::file_key(name) {
            Ok(key) => key,
            Err(e) => {
                return Err(e);
            },
        };
        let entries = &self.directory_entries;
        let ghost views = entry_views(entries@);
        let names = Self::entry_names(entries);
        let found = Self::extents_of(entries, &names, user, &wanted);
        let ghost ext = cpm_model::extents(views, FileKey { user, name: wanted@ });
        assert(ext.len() == found@.len());
        if found.len() == 0 {
            return Err(DskError::FileNotFound(name.to_string()));
        }
        let mut file_data: Vec<u8> = Vec::new();
        let mut i: usize = 0;
        while i < found.len()
            invariant
                i <= found@.len(),
                self.layout().sector_size > 0,
                ext == picked(entries@, found@),
                forall|k: int| 0 <= k < found@.len() ==> #[trigger] found@[k] < entries@.len(),
                file_data@ == cpm_model::extent_data_to(self.disk(), self.layout(), ext, i as int),
            decreases found@.len() - i,
        {
            assert(ext[i as int] == entries@[found@[i as int] as int]@);
            let ghost before = file_data@;
            let blocks = entries[found[i]].extract_file_blocks(&self.spec);
            let block_data = self.read_blocks(&blocks, blocks.len());
            file_data.extend_from_slice(block_data.as_slice());
            assert(file_data@ =~= before + block_data@);
            i = i + 1;
        }
        let actual_size = Self::size_of_file(entries, &found);
        if file_data.len() > actual_size {
            file_data.truncate(actual_size);
        }
        assert(file_data@ =~= cpm_model::raw_file(self.disk(), self.layout(), ext));
        if !include_header {
            let h = header::try_parse_header(file_data.as_slice());
            if h.header_size > 0 && file_data.len() >= h.header_size {
                let rest = vstd::slice::slice_to_vec(
                    vstd::slice::slice_subrange(file_data.as_slice(), h.header_size, file_data.len()),
                );
                assert(rest@ =~= file_data@.skip(h.header_size as int));
                return Ok(rest);
            }
        }
        Ok(file_data)
    }
}

/// Whether two lists of characters are equal.
fn chars_equal(a: &Vec<char>, b: &Vec<char>) -> (r: bool)
    ensures
        r == (a@ == b@),
{
    if a.len() != b.len() {
        return false;
    }
    let mut i: usize = 0;
    while i < a.len()
        invariant
            i <= a@.len() == b@.len(),
            forall|k: int| 0 <= k < i ==> #[trigger] a@[k] == b@[k],
        decreases a@.len() - i,
    {
        if a[i] != b[i] {
            return false;
        }
        i = i + 1;
    }
    assert(a@ =~= b@);
    true
}

/// The entries with the given indices.
pub open spec fn picked(entries: Seq<CpmDirEntry>, indices: Seq<usize>) -> Seq<EntryView> {
    Seq::new(indices.len(), |i: int| entries[indices[i] as int]@)
}

/// A file: its name and the indices of its extents, in their order.
struct CpmFile {
    user: u8,
    name: Vec<char>,
    extents: Vec<usize>,
}

impl CpmFile {
    /// This is the file `key` of a list of entries.
    spec fn holds(&self, entries: Seq<CpmDirEntry>, key: FileKey) -> bool {
        &&& self.user == key.user
        &&& self.name@ == key.name
        &&& self.extents@.len() > 0
        &&& self.extents@.len() <= entries.len()
        &&& picked(entries, self.extents@) == cpm_model::extents(entry_views(entries), key)
        &&& forall|i: int| 0 <= i < self.extents@.len() ==> #[trigger] self.extents@[i] < entries.len()
    }
}

impl<'a> FileSystem for CpmFileSystem<'a> {
    /// A filesystem cannot borrow from an image it does not outlive; `CpmFileSystem::from_image`
    /// is to be used instead.
    fn from_image(image: &DiskImage) -> (r: Result<Self, DskError>)
        ensures
            r matches Err(e) && e@ == ErrorView::Filesystem("Use CpmFileSystem::from_image() directly"@),
    {
        Err(DskError::filesystem("Use CpmFileSystem::from_image() directly"))
    }

    fn from_image_mut(image: &mut DiskImage) -> (r: Result<Self, DskError>)
        ensures
            r matches Err(e) && e@ == ErrorView::Filesystem("Mutable CP/M filesystem not yet implemented"@),
            *final(image) == *old(image),
    {
        Err(DskError::filesystem("Mutable CP/M filesystem not yet implemented"))
    }

    /// Lists the files, ordered by name.
    fn read_dir(&self) -> (r: Result<Vec<DirEntry>, DskError>)
        ensures
            r matches Ok(list) && filesystem::dir_views(list@) == cpm_model::listing(self.entries()),
    {
        proof {
            use_type_invariant(self);
            cpm_model::lemma_directory_len(self.image@, self.spec, false);
        }
        let dir_entries = &self.directory_entries;
        let ghost views = entry_views(dir_entries@);
        let files = Self::merge_extents_from_entries(dir_entries);
        let ghost keys = cpm_model::keys_to(views, dir_entries@.len() as int);
        let o = Self::file_order(&files, Ghost(dir_entries@), Ghost(keys));
        let mut entries: Vec<DirEntry> = Vec::new();
        let mut n: usize = 0;
        while n < o.len()
            invariant
                n <= o@.len() == files@.len(),
                views == entry_views(dir_entries@),
                dir_entries@.len() <= 130560,
                keys == cpm_model::keys_to(views, dir_entries@.len() as int),
                files@.len() == keys.len(),
                forall|k: int| 0 <= k < files@.len() ==> (#[trigger] files@[k]).holds(dir_entries@, keys[k]),
                forall|k: int| 0 <= k < o@.len() ==> #[trigger] o@[k] < files@.len(),
                order::indices(o@) == order::name_order(cpm_model::key_names(keys)),
                cpm_model::sorted_keys(views).len() == o@.len(),
                entries@.len() == n,
                forall|k: int| 0 <= k < n ==> (#[trigger] entries@[k])@ == cpm_model::listing(views)[k],
            decreases o@.len() - n,
        {
            let file = &files[o[n]];
            let ghost key = keys[o@[n as int] as int];
            assert(file.holds(dir_entries@, key));
            assert(order::indices(o@)[n as int] == o@[n as int]);
            assert(cpm_model::sorted_keys(views)[n as int] == key);
            let ghost ext = cpm_model::extents(views, key);
            assert(picked(dir_entries@, file.extents@) == ext);
            let first_extent = &dir_entries[file.extents[0]];
            assert(ext[0] == first_extent@);
            let total_size = Self::size_of_file(dir_entries, &file.extents);
            let entry = DirEntry {
                name: text::string_of(&file.name),
                user: first_extent.user,
                extent: first_extent.extent_low,
                size: total_size,
                attributes: first_extent.attributes(),
            };
            assert(entry@ == cpm_model::dir_entry(views, key));
            assert(entry@ == cpm_model::listing(views)[n as int]);
            entries.push(entry);
            n = n + 1;
        }
        assert(filesystem::dir_views(entries@) =~= cpm_model::listing(views));
        Ok(entries)
    }

    open spec fn readable(&self, name: Seq<char>) -> bool {
        self.layout().sector_size > 0 || cpm_model::file_content(self.disk(), self.layout(), self.entries(), name, false) is Err
    }

    /// The content of a file, without its header.
    fn read_file(&self, name: &str) -> (r: Result<Vec<u8>, DskError>)
        ensures
            match r {
                Ok(data) => cpm_model::file_content(self.disk(), self.layout(), self.entries(), name@, false)
                    == Ok::<Seq<u8>, ErrorView>(data@),
                Err(e) => cpm_model::file_content(self.disk(), self.layout(), self.entries(), name@, false)
                    == Err::<Seq<u8>, ErrorView>(e@),
            },
    {
        self.read_file_binary(name, false)
    }

    fn write_file(&mut self, name: &str, data: &[u8]) -> (r: Result<(), DskError>)
        ensures
            r matches Err(e) && e@ == ErrorView::Filesystem("Writing files not yet implemented"@),
            *final(self) == *old(self),
    {
        Err(DskError::filesystem("Writing files not yet implemented"))
    }

    fn delete_file(&mut self, name: &str) -> (r: Result<(), DskError>)
        ensures
            r matches Err(e) && e@ == ErrorView::Filesystem("Deleting files not yet implemented"@),
            *final(self) == *old(self),
    {
        Err(DskError::filesystem("Deleting files not yet implemented"))
    }

    /// The number of blocks, and how many of them are free.
    fn info(&self) -> (info: FileSystemInfo)
        ensures
            info.fs_type@ == "CP/M ("@ + self.layout().format.label() + ")"@,
            info.total_blocks == self.layout().blocks(),
            info.free_blocks == cpm_model::free_blocks(self.layout(), self.entries()),
            info.block_size == self.layout().block_bytes(),
    {
        proof {
            use_type_invariant(self);
            cpm_model::lemma_directory_len(self.image@, self.spec, false);
        }
        let total_blocks = self.spec.block_count() as usize;
        let entries = &self.directory_entries;
        let ghost views = entry_views(entries@);
        let mut used_blocks: usize = 0;
        let mut i: usize = 0;
        while i < entries.len()
            invariant
                i <= entries@.len() <= 130560,
                views == entry_views(entries@),
                forall|k: int| 0 <= k < views.len() ==> (#[trigger] views[k]).allocation.len() == 16,
                used_blocks == cpm_model::used_to(views, self.spec, i as int),
                used_blocks <= 16 * i,
            decreases entries@.len() - i,
        {
            assert(views[i as int] == entries@[i as int]@);
            let blocks = entries[i].extract_file_blocks(&self.spec);
            used_blocks = used_blocks + blocks.len();
            i = i + 1;
        }
        let taken: usize = used_blocks + self.spec.directory_blocks as usize;
        let mut fs_type = "CP/M (".to_string();
        fs_type.append(self.spec.format.name());
        fs_type.append(")");
        FileSystemInfo {
            fs_type,
            total_blocks,
            free_blocks: total_blocks.saturating_sub(taken),
            block_size: self.spec.block_size(),
        }
    }
}

}
