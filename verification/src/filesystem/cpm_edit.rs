//! Storing and removing files on CP/M disks.

use crate::bytes;
use crate::error::{DskError, ErrorView};
use crate::filesystem::cpm::CpmDirEntry;
use crate::filesystem::cpm_model;
use crate::filesystem::names;
use crate::image::laws;
use crate::image::{DiskImage, ImageView};
use crate::specification;
use crate::specification::{AllocationSize, DiskSpecSide, DiskSpecification};
use vstd::prelude::*;

verus! {

/// Where a sector lies: its side, its track and its ID number.
pub type Address = (u8, u8, u8);

/// The side and track on which logical track `lt` is written.
pub open spec fn write_place(spec: DiskSpecification, lt: int) -> Option<(int, int)> {
    let tps = spec.tracks_per_side as int;
    match spec.side {
        DiskSpecSide::Single => Some((0, lt)),
        DiskSpecSide::DoubleAlternate => Some((lt % 2, lt / 2)),
        DiskSpecSide::DoubleSuccessive => Some((lt / tps, lt % tps)),
        DiskSpecSide::DoubleReverse => Some((lt / tps, if lt >= tps { tps - 1 - lt % tps } else { lt })),
        DiskSpecSide::Invalid => None,
    }
}

/// The address of a logical sector, or why it cannot be written.
pub open spec fn address(image: ImageView, spec: DiskSpecification, absolute: int) -> Result<Address, ErrorView> {
    let spt = spec.sectors_per_track as int;
    if spt == 0 || spec.tracks_per_side == 0 {
        Err(ErrorView::Filesystem("Invalid CP/M geometry"@))
    } else {
        match write_place(spec, absolute / spt) {
            None => Err(ErrorView::Filesystem("Invalid CP/M side mode"@)),
            Some((side, track)) => match image.track(side % 256, track % 256) {
                None => Err(ErrorView::Filesystem("Missing CP/M track"@)),
                Some(t) => if absolute % spt >= t.by_id().len() {
                    Err(ErrorView::Filesystem("Missing CP/M sector"@))
                } else {
                    let a = ((side % 256) as u8, (track % 256) as u8, t.by_id()[absolute % spt].id.sector);
                    if data_at(image, a).len() == spec.sector_size {
                        Ok(a)
                    } else {
                        Err(ErrorView::Filesystem("Unexpected CP/M sector size"@))
                    }
                },
            },
        }
    }
}

/// The data at an address.
pub open spec fn data_at(image: ImageView, a: Address) -> Seq<u8> {
    match image.read(a.0, a.1, a.2) {
        Ok(d) => d,
        Err(_) => Seq::empty(),
    }
}

/// The address of a logical sector.
pub fn cpm_address(image: &DiskImage, spec: &DiskSpecification, absolute: usize) -> (r: Result<Address, DskError>)
    ensures
        match r {
            Ok(a) => address(image@, *spec, absolute as int) == Ok::<Address, ErrorView>(a),
            Err(e) => address(image@, *spec, absolute as int) == Err::<Address, ErrorView>(e@),
        },
{
    let spt = spec.sectors_per_track as usize;
    let tps = spec.tracks_per_side as usize;
    if spt == 0 || tps == 0 {
        return Err(DskError::filesystem("Invalid CP/M geometry"));
    }
    let logical_track: usize = absolute / spt;
    let (side, track): (usize, usize) = match spec.side {
        DiskSpecSide::Single => (0, logical_track),
        DiskSpecSide::DoubleAlternate => (logical_track % 2, logical_track / 2),
        DiskSpecSide::DoubleSuccessive => (logical_track / tps, logical_track % tps),
        DiskSpecSide::DoubleReverse => (
            logical_track / tps,
            if logical_track >= tps { tps - 1 - logical_track % tps } else { logical_track },
        ),
        DiskSpecSide::Invalid => {
            return Err(DskError::filesystem("Invalid CP/M side mode"));
        },
    };
    let side: u8 = (side % 256) as u8;
    let track: u8 = (track % 256) as u8;
    let physical = match image.get_disk(side) {
        None => {
            return Err(DskError::filesystem("Missing CP/M track"));
        },
        Some(disk) => match disk.get_track(track) {
            None => {
                return Err(DskError::filesystem("Missing CP/M track"));
            },
            Some(t) => t,
        },
    };
    let id = match physical.nth_by_id(absolute % spt) {
        None => {
            return Err(DskError::filesystem("Missing CP/M sector"));
        },
        Some(s) => s.number(),
    };
    proof {
        crate::image::track::lemma_by_id_found(physical@, absolute as int % spt as int);
    }
    match image.read_sector(side, track, id) {
        Err(e) => Err(e),
        Ok(d) => if d.len() == spec.sector_size as usize {
            Ok((side, track, id))
        } else {
            Err(DskError::filesystem("Unexpected CP/M sector size"))
        },
    }
}

/// The addresses of `n` logical sectors from `first` on.
pub open spec fn addresses_to(image: ImageView, spec: DiskSpecification, first: int, n: int) -> Result<Seq<Address>, ErrorView>
    decreases n,
{
    if n <= 0 {
        Ok(Seq::empty())
    } else {
        match addresses_to(image, spec, first, n - 1) {
            Err(e) => Err(e),
            Ok(s) => match address(image, spec, first + n - 1) {
                Err(e) => Err(e),
                Ok(a) => Ok(s.push(a)),
            },
        }
    }
}

/// The data at the first `n` addresses.
pub open spec fn bytes_to(image: ImageView, addresses: Seq<Address>, n: int) -> Seq<u8>
    decreases n,
{
    if n <= 0 {
        Seq::empty()
    } else {
        bytes_to(image, addresses, n - 1) + data_at(image, addresses[n - 1])
    }
}

/// The number of sectors that the directory takes.
pub open spec fn directory_sectors(spec: DiskSpecification) -> int {
    spec.entries() * 32 / (spec.sector_size as int)
}

/// The addresses and the bytes of the directory, or why it cannot be changed.
pub open spec fn directory_at(image: ImageView, spec: DiskSpecification) -> Result<(Seq<Address>, Seq<u8>), ErrorView> {
    let size = spec.entries() * 32;
    if size == 0 || spec.sector_size == 0 || size % (spec.sector_size as int) != 0 {
        Err(ErrorView::Filesystem("Invalid CP/M directory geometry"@))
    } else {
        match addresses_to(image, spec, spec.first_sector(), directory_sectors(spec)) {
            Err(e) => Err(e),
            Ok(s) => Ok((s, bytes_to(image, s, s.len() as int))),
        }
    }
}

/// The length of a list of addresses, each of a sector of the right size.
pub proof fn lemma_addresses(image: ImageView, spec: DiskSpecification, first: int, n: int)
    requires
        n >= 0,
    ensures
        addresses_to(image, spec, first, n) matches Ok(s) ==> {
            &&& s.len() == n
            &&& bytes_to(image, s, n).len() == n * spec.sector_size
            &&& forall|i: int| 0 <= i < n ==> address(image, spec, first + i) == Ok::<Address, ErrorView>(#[trigger] s[i])
        },
    decreases n,
{
    if n > 0 {
        lemma_addresses(image, spec, first, n - 1);
        if let Ok(s) = addresses_to(image, spec, first, n) {
            let r = addresses_to(image, spec, first, n - 1)->Ok_0;
            lemma_bytes_prefix(image, r, s, n - 1);
            assert((n - 1) * spec.sector_size + spec.sector_size == n * spec.sector_size) by (nonlinear_arith);
        }
    } else {
        assert(n * spec.sector_size == 0) by (nonlinear_arith)
            requires
                n == 0,
        ;
    }
}

/// The first addresses decide the first bytes.
pub proof fn lemma_bytes_prefix(image: ImageView, a: Seq<Address>, b: Seq<Address>, n: int)
    requires
        n <= a.len(),
        n <= b.len(),
        forall|i: int| 0 <= i < n ==> a[i] == b[i],
    ensures
        bytes_to(image, a, n) == bytes_to(image, b, n),
    decreases n,
{
    if n > 0 {
        lemma_bytes_prefix(image, a, b, n - 1);
    }
}

/// Reads the directory, and where it lies.
fn cpm_directory(image: &DiskImage, spec: &DiskSpecification) -> (r: Result<(Vec<Address>, Vec<u8>), DskError>)
    ensures
        match r {
            Ok(d) => {
                &&& directory_at(image@, *spec) == Ok::<(Seq<Address>, Seq<u8>), ErrorView>((d.0@, d.1@))
                &&& spec.sector_size > 0
                &&& d.0@.len() == directory_sectors(*spec)
                &&& d.1@.len() == spec.entries() * 32
                &&& d.1@.len() == d.0@.len() * spec.sector_size
                &&& d.1@.len() <= 4177920
            },
            Err(e) => directory_at(image@, *spec) == Err::<(Seq<Address>, Seq<u8>), ErrorView>(e@),
        },
{
    let size: usize = spec.directory_entries() * 32;
    if size == 0 || spec.sector_size == 0 || size % spec.sector_size as usize != 0 {
        return Err(DskError::filesystem("Invalid CP/M directory geometry"));
    }
    proof {
        specification::lemma_sector_bounds(*spec);
        vstd::arithmetic::div_mod::lemma_fundamental_div_mod(size as int, spec.sector_size as int);
        bytes::lemma_div_up(size as int, spec.sector_size as int);
    }
    let first: usize = spec.reserved_tracks as usize * spec.sectors_per_track as usize;
    let count: usize = size / spec.sector_size as usize;
    let mut addresses: Vec<Address> = Vec::new();
    let mut data: Vec<u8> = Vec::new();
    let mut i: usize = 0;
    while i < count
        invariant
            i <= count <= 4177920,
            first <= 65025,
            spec.sector_size > 0,
            addresses@.len() == i,
            addresses_to(image@, *spec, first as int, i as int) == Ok::<Seq<Address>, ErrorView>(addresses@),
            data@ == bytes_to(image@, addresses@, i as int),
            first == spec.first_sector(),
            count == directory_sectors(*spec),
            directory_at(image@, *spec) is Err <== addresses_to(image@, *spec, first as int, count as int) is Err,
            addresses_to(image@, *spec, first as int, count as int) matches Err(e) ==> directory_at(image@, *spec)
                == Err::<(Seq<Address>, Seq<u8>), ErrorView>(e),
        decreases count - i,
    {
        match cpm_address(image, spec, first + i) {
            Err(e) => {
                proof {
                    lemma_addresses_stop(image@, *spec, first as int, i + 1, count as int);
                }
                return Err(e);
            },
            Ok(a) => {
                let ghost before = addresses@;
                let ghost so_far = data@;
                addresses.push(a);
                match image.read_sector(a.0, a.1, a.2) {
                    Err(e) => {
                        assert(data_at(image@, a).len() > 0);
                        return Err(e);
                    },
                    Ok(d) => {
                        data.extend_from_slice(d);
                        assert(data@ =~= so_far + d@);
                    },
                }
                proof {
                    lemma_bytes_prefix(image@, before, addresses@, i as int);
                }
            },
        }
        i = i + 1;
    }
    proof {
        lemma_addresses(image@, *spec, first as int, count as int);
        assert(count * spec.sector_size == size) by (nonlinear_arith)
            requires
                size == spec.sector_size as int * count,
        ;
    }
    Ok((addresses, data))
}

/// An error among the first addresses is an error of the whole list.
proof fn lemma_addresses_stop(image: ImageView, spec: DiskSpecification, first: int, i: int, n: int)
    requires
        i <= n,
        addresses_to(image, spec, first, i) is Err,
    ensures
        addresses_to(image, spec, first, n) == addresses_to(image, spec, first, i),
    decreases n - i,
{
    if i < n {
        lemma_addresses_stop(image, spec, first, i, n - 1);
    }
}

/// The image after the first `n` pieces of `data` have been written to the given addresses.
pub open spec fn put_to(image: ImageView, addresses: Seq<Address>, data: Seq<u8>, size: int, n: int) -> Result<ImageView, ErrorView>
    decreases n,
{
    if n <= 0 {
        Ok(image)
    } else {
        match put_to(image, addresses, data, size, n - 1) {
            Err(e) => Err(e),
            Ok(i) => i.write(
                addresses[n - 1].0,
                addresses[n - 1].1,
                addresses[n - 1].2,
                data.subrange(size * (n - 1), size * (n - 1) + size),
            ),
        }
    }
}

/// An error while the first pieces are written is an error of the whole.
proof fn lemma_put_stop(image: ImageView, addresses: Seq<Address>, data: Seq<u8>, size: int, i: int, n: int)
    requires
        i <= n,
        put_to(image, addresses, data, size, i) is Err,
    ensures
        put_to(image, addresses, data, size, n) == put_to(image, addresses, data, size, i),
    decreases n - i,
{
    if i < n {
        lemma_put_stop(image, addresses, data, size, i, n - 1);
    }
}

/// Writes the directory back.
fn cpm_write_directory(image: &mut DiskImage, addresses: &Vec<Address>, data: &Vec<u8>, size: usize) -> (r: Result<(), DskError>)
    requires
        data@.len() == addresses@.len() * size,
    ensures
        match r {
            Ok(()) => put_to(old(image)@, addresses@, data@, size as int, addresses@.len() as int)
                == Ok::<ImageView, ErrorView>(final(image)@),
            Err(e) => put_to(old(image)@, addresses@, data@, size as int, addresses@.len() as int)
                == Err::<ImageView, ErrorView>(e@),
        },
        laws::same_layout(old(image)@, final(image)@),
{
    let ghost start = image@;
    proof {
        laws::lemma_same_layout_reflexive(image@);
    }
    let total = data.len();
    let mut i: usize = 0;
    while i < addresses.len()
        invariant
            i <= addresses@.len(),
            total == data@.len() == addresses@.len() * size,
            start == old(image)@,
            put_to(start, addresses@, data@, size as int, i as int) == Ok::<ImageView, ErrorView>(image@),
            laws::same_layout(start, image@),
        decreases addresses@.len() - i,
    {
        assert(size * i + size <= total && size * i >= 0) by (nonlinear_arith)
            requires
                0 <= i < addresses@.len(),
                total == addresses@.len() * size,
        ;
        let a = addresses[i];
        let chunk = vstd::slice::slice_subrange(data.as_slice(), size * i, size * i + size);
        let ghost before = image@;
        let written = image.write_sector(a.0, a.1, a.2, chunk);
        proof {
            laws::lemma_same_layout_chain(start, before, image@);
        }
        match written {
            Err(e) => {
                proof {
                    lemma_put_stop(start, addresses@, data@, size as int, i + 1, addresses@.len() as int);
                }
                return Err(e);
            },
            Ok(()) => {},
        }
        i = i + 1;
    }
    Ok(())
}

/// Slot `i` of a directory.
pub open spec fn slot(dir: Seq<u8>, i: int) -> Seq<u8> {
    dir.subrange(32 * i, 32 * i + 32)
}

/// Whether a directory slot belongs to the file with the given user number and name, whatever
/// its attributes.
pub open spec fn matches(entry: Seq<u8>, user: u8, name: Seq<u8>) -> bool {
    &&& entry[0] == user
    &&& forall|i: int| 0 <= i < 11 ==> #[trigger] entry[i + 1] % 128 == name[i]
}

/// Whether a directory slot belongs to the file.
fn cpm_matches(entry: &[u8], user: u8, name: &Vec<u8>) -> (b: bool)
    requires
        entry@.len() == 32,
        name@.len() == 11,
    ensures
        b == matches(entry@, user, name@),
{
    if entry[0] != user {
        return false;
    }
    let mut i: usize = 0;
    while i < 11
        invariant
            i <= 11,
            entry@.len() == 32,
            name@.len() == 11,
            forall|k: int| 0 <= k < i ==> #[trigger] entry@[k + 1] % 128 == name@[k],
        decreases 11 - i,
    {
        if entry[i + 1] % 128 != name[i] {
            assert(entry@[i as int + 1] % 128 != name@[i as int]);
            return false;
        }
        i = i + 1;
    }
    true
}

/// Whether a directory holds the file.
pub open spec fn holds(dir: Seq<u8>, user: u8, name: Seq<u8>) -> bool {
    exists|i: int| 0 <= i < dir.len() / 32 && matches(#[trigger] slot(dir, i), user, name)
}

/// Whether directory slot `i` names the block `b` for a file.
pub open spec fn names_block(spec: DiskSpecification, dir: Seq<u8>, i: int, b: int) -> bool {
    match cpm_model::entry_of(slot(dir, i), i, false) {
        Some(e) => e.blocks(spec.allocation_size).contains(b as u16),
        None => false,
    }
}

/// Whether a block belongs to the directory or to a file in one of its first `n` slots.
pub open spec fn taken_to(spec: DiskSpecification, dir: Seq<u8>, n: int, b: int) -> bool {
    b < spec.directory_blocks || exists|i: int| 0 <= i < n && #[trigger] names_block(spec, dir, i, b)
}

/// The free blocks below `n`; block 0 is never free.
pub open spec fn free_to(spec: DiskSpecification, dir: Seq<u8>, n: int) -> Seq<u16>
    decreases n,
{
    if n <= 1 {
        Seq::empty()
    } else if taken_to(spec, dir, dir.len() as int / 32, n - 1) {
        free_to(spec, dir, n - 1)
    } else {
        free_to(spec, dir, n - 1).push((n - 1) as u16)
    }
}

/// The first byte of slot `i`: a user number, or `0xE5` where the slot is free.
pub open spec fn mark(dir: Seq<u8>, i: int) -> u8 {
    dir[32 * i]
}

/// The number of free slots among the first `n`.
pub open spec fn free_slots(dir: Seq<u8>, n: int) -> int
    decreases n,
{
    if n <= 0 {
        0
    } else {
        free_slots(dir, n - 1) + (if mark(dir, n - 1) == 0xE5 { 1int } else { 0 })
    }
}

/// The first free slot at or behind `from`.
pub open spec fn free_slot(dir: Seq<u8>, from: int) -> int
    decreases dir.len() / 32 - from,
{
    if from >= dir.len() / 32 || mark(dir, from) == 0xE5 {
        from
    } else {
        free_slot(dir, from + 1)
    }
}

/// The directory with other bytes in slot `i`.
pub open spec fn with_slot(dir: Seq<u8>, i: int, entry: Seq<u8>) -> Seq<u8> {
    Seq::new(dir.len(), |j: int| if 32 * i <= j < 32 * i + 32 { entry[j - 32 * i] } else { dir[j] })
}

/// The number of blocks that one directory entry can name: what fits into its 16 bytes, and
/// no more than 16 KiB.
pub open spec fn blocks_per_extent(spec: DiskSpecification) -> int {
    let capacity: int = match spec.allocation_size {
        AllocationSize::Byte => 16,
        AllocationSize::Word => 8,
    };
    if 16384int / spec.block_bytes() < capacity { 16384int / spec.block_bytes() } else { capacity }
}

/// The number of bytes that one directory entry can hold.
pub open spec fn bytes_per_extent(spec: DiskSpecification) -> int {
    blocks_per_extent(spec) * spec.block_bytes()
}

/// The number of directory entries that a file takes; an empty file takes one.
pub open spec fn extent_count(spec: DiskSpecification, len: int) -> int {
    bytes::div_up(if len > 1 { len } else { 1 }, bytes_per_extent(spec))
}

/// The number of bytes of a file in its extent `k`.
pub open spec fn chunk_len(spec: DiskSpecification, len: int, k: int) -> int {
    let rest = len - k * bytes_per_extent(spec);
    if rest < bytes_per_extent(spec) { rest } else { bytes_per_extent(spec) }
}

/// Block `j` of extent `k` of a file, or 0 if it has none.
pub open spec fn extent_block(spec: DiskSpecification, free: Seq<u16>, k: int, j: int) -> u16 {
    let n = k * blocks_per_extent(spec) + j;
    if j < blocks_per_extent(spec) && n < free.len() { free[n] } else { 0 }
}

/// The directory entry of extent `k` of a file with `len` bytes in the blocks `free`.
pub open spec fn extent_bytes(spec: DiskSpecification, user: u8, name: Seq<u8>, len: int, free: Seq<u16>, k: int) -> Seq<u8> {
    let size = chunk_len(spec, len, k);
    Seq::new(
        32,
        |i: int|
            if i == 0 {
                user
            } else if i < 12 {
                name[i - 1]
            } else if i == 12 {
                (k % 32) as u8
            } else if i == 13 {
                (size % 128) as u8
            } else if i == 14 {
                (k / 32) as u8
            } else if i == 15 {
                bytes::div_up(size, 128) as u8
            } else {
                match spec.allocation_size {
                    AllocationSize::Byte => (extent_block(spec, free, k, i - 16) % 256) as u8,
                    AllocationSize::Word => if i % 2 == 0 {
                        (extent_block(spec, free, k, (i - 16) / 2) % 256) as u8
                    } else {
                        (extent_block(spec, free, k, (i - 16) / 2) / 256) as u8
                    },
                }
            },
    )
}

/// The directory with the first `n` extents of a file in its first free slots.
pub open spec fn filled_to(spec: DiskSpecification, dir: Seq<u8>, user: u8, name: Seq<u8>, len: int, free: Seq<u16>, n: int) -> Seq<u8>
    decreases n,
{
    if n <= 0 {
        dir
    } else {
        let d = filled_to(spec, dir, user, name, len, free, n - 1);
        with_slot(d, free_slot(d, 0), extent_bytes(spec, user, name, len, free, n - 1))
    }
}

/// The logical sector that holds sector `n` of a file in the blocks `free`.
pub open spec fn file_sector(spec: DiskSpecification, free: Seq<u16>, n: int) -> int {
    let spb = cpm_model::sectors_per_block(spec);
    cpm_model::block_start(spec, free[n / spb] as int) + n % spb
}

/// The bytes of sector `n` of a file; what is left of the last block is filled with the CP/M
/// end-of-file mark.
pub open spec fn file_sector_bytes(data: Seq<u8>, size: int, n: int) -> Seq<u8> {
    Seq::new(size as nat, |k: int| if size * n + k < data.len() { data[size * n + k] } else { 0x1Au8 })
}

/// The image after the first `n` sectors of a file have been written.
pub open spec fn stored_to(image: ImageView, spec: DiskSpecification, free: Seq<u16>, data: Seq<u8>, n: int) -> Result<ImageView, ErrorView>
    decreases n,
{
    if n <= 0 {
        Ok(image)
    } else {
        match stored_to(image, spec, free, data, n - 1) {
            Err(e) => Err(e),
            Ok(i) => match address(i, spec, file_sector(spec, free, n - 1)) {
                Err(e) => Err(e),
                Ok(a) => i.write(a.0, a.1, a.2, file_sector_bytes(data, spec.sector_size as int, n - 1)),
            },
        }
    }
}

/// The image with a file in the given directory and the blocks `free`.
pub open spec fn stored(
    image: ImageView,
    spec: DiskSpecification,
    addresses: Seq<Address>,
    dir: Seq<u8>,
    user: u8,
    name: Seq<u8>,
    data: Seq<u8>,
    free: Seq<u16>,
) -> Result<ImageView, ErrorView> {
    match stored_to(image, spec, free, data, free.len() * cpm_model::sectors_per_block(spec)) {
        Err(e) => Err(e),
        Ok(i) => put_to(
            i,
            addresses,
            filled_to(spec, dir, user, name, data.len() as int, free, extent_count(spec, data.len() as int)),
            spec.sector_size as int,
            addresses.len() as int,
        ),
    }
}

/// The number of blocks that a file takes.
pub open spec fn blocks_needed(spec: DiskSpecification, len: int) -> int {
    bytes::div_up(len, spec.block_bytes())
}

/// The image with a new file, or why it cannot be stored: its name is bad, the disk is not laid
/// out for files, there is no room, or a file of this name exists.
pub open spec fn imported(image: ImageView, name: Seq<char>, data: Seq<u8>) -> Result<ImageView, ErrorView> {
    match names::cpm_key(name) {
        Err(e) => Err(e),
        Ok((user, raw)) => {
            let spec = specification::identified(image);
            match directory_at(image, spec) {
                Err(e) => Err(e),
                Ok((addresses, dir)) => {
                    let slots = dir.len() as int / 32;
                    let extents = extent_count(spec, data.len() as int);
                    let free = free_to(spec, dir, spec.blocks());
                    let needed = blocks_needed(spec, data.len() as int);
                    if spec.block_bytes() < spec.sector_size || spec.block_bytes() % (spec.sector_size as int) != 0 {
                        Err(ErrorView::Filesystem("Unsupported CP/M block size"@))
                    } else if extents > 2048 || extents > free_slots(dir, slots) {
                        Err(ErrorView::DiskFull)
                    } else if holds(dir, user, raw) {
                        Err(ErrorView::Filesystem("File already exists"@))
                    } else if free.len() < needed {
                        Err(ErrorView::DiskFull)
                    } else {
                        stored(image, spec, addresses, dir, user, raw, data, free.take(needed))
                    }
                },
            }
        },
    }
}

/// The directory with the slots of a file marked as deleted.
pub open spec fn without(dir: Seq<u8>, user: u8, name: Seq<u8>) -> Seq<u8> {
    Seq::new(dir.len(), |j: int| if j % 32 == 0 && matches(slot(dir, j / 32), user, name) { 0xE5u8 } else { dir[j] })
}

/// The image without a file, or why it cannot be removed.
pub open spec fn deleted(image: ImageView, name: Seq<char>) -> Result<ImageView, ErrorView> {
    match names::cpm_key(name) {
        Err(e) => Err(e),
        Ok((user, raw)) => {
            let spec = specification::identified(image);
            match directory_at(image, spec) {
                Err(e) => Err(e),
                Ok((addresses, dir)) => if holds(dir, user, raw) {
                    put_to(image, addresses, without(dir, user, raw), spec.sector_size as int, addresses.len() as int)
                } else {
                    Err(ErrorView::FileNotFound(name))
                },
            }
        },
    }
}

/// Writes the directory entry of extent `k` into slot `at`.
fn fill_slot(
    dir: &mut Vec<u8>,
    at: usize,
    spec: &DiskSpecification,
    user: u8,
    name: &Vec<u8>,
    len: usize,
    free: &Vec<u16>,
    k: usize,
)
    requires
        32 * at + 32 <= old(dir)@.len(),
        old(dir)@.len() <= 4177920,
        name@.len() == 11,
        k < 2048,
        128 <= spec.block_bytes(),
        k * bytes_per_extent(*spec) <= len,
    ensures
        final(dir)@ == with_slot(old(dir)@, at as int, extent_bytes(*spec, user, name@, len as int, free@, k as int)),
{
    let block_size = spec.block_size();
    let capacity: usize = match spec.allocation_size {
        AllocationSize::Byte => 16,
        AllocationSize::Word => 8,
    };
    let most: usize = 16384 / block_size;
    let per_extent: usize = if most < capacity { most } else { capacity };
    proof {
        lemma_extent_sizes(*spec);
        specification::lemma_small_product(k as int, 2047, per_extent as int, 16);
        specification::lemma_small_product(k as int, 2047, bytes_per_extent(*spec), 16384);
    }
    let whole: usize = per_extent * block_size;
    let rest: usize = len - k * whole;
    let size: usize = if rest < whole { rest } else { whole };
    let base: usize = 32 * at;
    let ghost entry = extent_bytes(*spec, user, name@, len as int, free@, k as int);
    proof {
        bytes::lemma_div_up(size as int, 128);
    }
    let records = bytes::ceil_div(size, 128);
    assert(records <= 128) by {
        assert((records - 1) * 128 < size || size == 0);
    }
    let mut i: usize = 0;
    while i < 32
        invariant
            i <= 32,
            base == 32 * at,
            base + 32 <= dir@.len() <= 4177920,
            dir@.len() == old(dir)@.len(),
            name@.len() == 11,
            k < 2048,
            k * per_extent <= 2047 * 16,
            0 <= k * per_extent,
            per_extent == blocks_per_extent(*spec),
            size == chunk_len(*spec, len as int, k as int),
            records == bytes::div_up(size as int, 128),
            records <= 128,
            entry == extent_bytes(*spec, user, name@, len as int, free@, k as int),
            forall|j: int| 0 <= j < dir@.len() ==> #[trigger] dir@[j] == (if base <= j < base + i {
                entry[j - base]
            } else {
                old(dir)@[j]
            }),
        decreases 32 - i,
    {
        let b: u8 = if i == 0 {
            user
        } else if i < 12 {
            name[i - 1]
        } else if i == 12 {
            (k % 32) as u8
        } else if i == 13 {
            (size % 128) as u8
        } else if i == 14 {
            (k / 32) as u8
        } else if i == 15 {
            records as u8
        } else {
            let j: usize = match spec.allocation_size {
                AllocationSize::Byte => i - 16,
                AllocationSize::Word => (i - 16) / 2,
            };
            let n: usize = k * per_extent + j;
            let block: u16 = if j < per_extent && n < free.len() { free[n] } else { 0 };
            let (low, high) = bytes::split_word(block);
            match spec.allocation_size {
                AllocationSize::Byte => low,
                AllocationSize::Word => if i % 2 == 0 {
                    low
                } else {
                    high
                },
            }
        };
        assert(b == entry[i as int]);
        dir.set(base + i, b);
        i = i + 1;
    }
    assert(dir@ =~= with_slot(old(dir)@, at as int, entry));
}

/// An extent has at least one block and at most 16 KiB.
pub proof fn lemma_extent_sizes(spec: DiskSpecification)
    requires
        128 <= spec.block_bytes(),
    ensures
        1 <= blocks_per_extent(spec) <= 16,
        spec.allocation_size == AllocationSize::Word ==> blocks_per_extent(spec) <= 8,
        128 <= bytes_per_extent(spec) <= 16384,
        bytes_per_extent(spec) % 128 == 0,
        spec.block_bytes() % 128 == 0,
{
    let b = spec.block_bytes();
    let n = blocks_per_extent(spec);
    assert(1 <= 16384int / b && (16384int / b) * b <= 16384 && b % 128 == 0);
    assert(128 <= n * b <= 16384 && (n * b) % 128 == 0) by (nonlinear_arith)
        requires
            1 <= n <= 16384int / b,
            (16384int / b) * b <= 16384,
            b >= 128,
            b % 128 == 0,
    ;
}

/// Where a free slot is found.
pub proof fn lemma_free_slot(dir: Seq<u8>, from: int)
    requires
        0 <= from,
        free_slots(dir, dir.len() as int / 32) > free_slots(dir, from),
        from <= dir.len() / 32,
    ensures
        from <= free_slot(dir, from) < dir.len() / 32,
        mark(dir, free_slot(dir, from)) == 0xE5,
        forall|i: int| from <= i < free_slot(dir, from) ==> #[trigger] mark(dir, i) != 0xE5,
    decreases dir.len() / 32 - from,
{
    if from < dir.len() / 32 {
        if mark(dir, from) != 0xE5 {
            assert(free_slots(dir, from + 1) == free_slots(dir, from));
            lemma_free_slot(dir, from + 1);
        }
    }
}

/// A slot that is filled leaves one free slot less.
pub proof fn lemma_fill_slot(dir: Seq<u8>, at: int, entry: Seq<u8>, n: int)
    requires
        0 <= at < dir.len() / 32,
        0 <= n <= dir.len() / 32,
        entry.len() == 32,
        entry[0] != 0xE5,
        mark(dir, at) == 0xE5,
    ensures
        free_slots(with_slot(dir, at, entry), n) == free_slots(dir, n) - (if at < n { 1int } else { 0 }),
    decreases n,
{
    if n > 0 {
        lemma_fill_slot(dir, at, entry, n - 1);
    }
}

/// Counts the free slots of a directory.
fn count_free_slots(dir: &Vec<u8>) -> (n: usize)
    ensures
        n == free_slots(dir@, dir@.len() as int / 32),
{
    let slots: usize = dir.len() / 32;
    let mut n: usize = 0;
    let mut i: usize = 0;
    while i < slots
        invariant
            i <= slots,
            slots == dir@.len() / 32,
            32 * slots <= usize::MAX,
            n == free_slots(dir@, i as int),
            n <= i,
        decreases slots - i,
    {
        if dir[32 * i] == 0xE5 {
            n = n + 1;
        }
        i = i + 1;
    }
    n
}

/// Whether a directory holds the file.
fn directory_holds(dir: &Vec<u8>, user: u8, name: &Vec<u8>) -> (b: bool)
    requires
        name@.len() == 11,
    ensures
        b == holds(dir@, user, name@),
{
    let slots: usize = dir.len() / 32;
    let mut i: usize = 0;
    while i < slots
        invariant
            i <= slots,
            slots == dir@.len() / 32,
            32 * slots <= usize::MAX,
            name@.len() == 11,
            forall|k: int| 0 <= k < i ==> !matches(#[trigger] slot(dir@, k), user, name@),
        decreases slots - i,
    {
        let entry = vstd::slice::slice_subrange(dir.as_slice(), 32 * i, 32 * i + 32);
        assert(entry@ == slot(dir@, i as int));
        if cpm_matches(entry, user, name) {
            return true;
        }
        i = i + 1;
    }
    false
}

/// Finds the free blocks, up to `needed` of them.
fn find_free_blocks(spec: &DiskSpecification, dir: &Vec<u8>, needed: usize) -> (free: Vec<u16>)
    ensures
        ({
            let all = free_to(*spec, dir@, spec.blocks());
            free@ == (if all.len() > needed { all.take(needed as int) } else { all })
        }),
        free@.len() <= 65535,
{
    let mut used: Vec<bool> = vec![false; 65536];
    let mut b: usize = 0;
    while b < spec.directory_blocks as usize
        invariant
            b <= spec.directory_blocks,
            used@.len() == 65536,
            forall|k: int| 0 <= k < 65536 ==> #[trigger] used@[k] == (k < b),
        decreases spec.directory_blocks - b,
    {
        used.set(b, true);
        b = b + 1;
    }
    let slots: usize = dir.len() / 32;
    let mut i: usize = 0;
    while i < slots
        invariant
            i <= slots,
            slots == dir@.len() / 32,
            32 * slots <= usize::MAX,
            used@.len() == 65536,
            forall|k: int| 0 <= k < 65536 ==> #[trigger] used@[k] == taken_to(*spec, dir@, i as int, k),
        decreases slots - i,
    {
        let entry = vstd::slice::slice_subrange(dir.as_slice(), 32 * i, 32 * i + 32);
        assert(entry@ == slot(dir@, i as int));
        if let Some(e) = CpmDirEntry::parse(entry, i) {
            let blocks = e.extract_blocks(spec.allocation_size);
            let ghost before = used@;
            let mut j: usize = 0;
            while j < blocks.len()
                invariant
                    j <= blocks@.len(),
                    used@.len() == 65536,
                    before.len() == 65536,
                    forall|k: int| 0 <= k < 65536 ==> #[trigger] used@[k] == (before[k] || exists|m: int| 0 <= m < j && #[trigger] blocks@[m] == k),
                decreases blocks@.len() - j,
            {
                let ghost u = used@;
                used.set(blocks[j] as usize, true);
                assert forall|k: int| 0 <= k < 65536 implies #[trigger] used@[k] == (before[k] || exists|m: int| 0 <= m < j + 1 && #[trigger] blocks@[m] == k) by {
                    if k == blocks@[j as int] {
                        assert(blocks@[j as int] == k);
                    }
                    if exists|m: int| 0 <= m < j + 1 && #[trigger] blocks@[m] == k {
                        let m = choose|m: int| 0 <= m < j + 1 && #[trigger] blocks@[m] == k;
                        assert(m < j || k == blocks@[j as int]);
                    }
                    assert(u[k] == (before[k] || exists|m: int| 0 <= m < j && #[trigger] blocks@[m] == k));
                }
                j = j + 1;
            }
            assert forall|k: int| 0 <= k < 65536 implies #[trigger] used@[k] == taken_to(*spec, dir@, i + 1, k) by {
                let named = names_block(*spec, dir@, i as int, k);
                assert(named == blocks@.contains(k as u16));
                if named {
                    let m = choose|m: int| 0 <= m < blocks@.len() && blocks@[m] == k as u16;
                    assert(blocks@[m] == k);
                }
                assert(before[k] == taken_to(*spec, dir@, i as int, k));
                lemma_taken_step(*spec, dir@, i as int, k);
            }
        } else {
            assert forall|k: int| 0 <= k < 65536 implies #[trigger] used@[k] == taken_to(*spec, dir@, i + 1, k) by {
                assert(!names_block(*spec, dir@, i as int, k));
                lemma_taken_step(*spec, dir@, i as int, k);
            }
        }
        i = i + 1;
    }
    let count = spec.block_count();
    let mut free: Vec<u16> = Vec::new();
    let mut n: u16 = 1;
    let ghost mut all = free_to(*spec, dir@, 1);
    while n < count
        invariant
            1 <= n,
            n <= count || n == 1,
            count == spec.blocks(),
            used@.len() == 65536,
            forall|k: int| 0 <= k < 65536 ==> #[trigger] used@[k] == taken_to(*spec, dir@, dir@.len() as int / 32, k),
            all == free_to(*spec, dir@, n as int),
            free@ == (if all.len() > needed { all.take(needed as int) } else { all }),
            free@.len() < n,
        decreases count - n,
    {
        if !used[n as usize] {
            proof {
                all = all.push(n);
            }
            if free.len() < needed {
                free.push(n);
            }
            assert(free@ =~= (if all.len() > needed { all.take(needed as int) } else { all }));
        }
        n = n + 1;
    }
    free
}

/// One more slot names its own blocks.
proof fn lemma_taken_step(spec: DiskSpecification, dir: Seq<u8>, i: int, b: int)
    requires
        i >= 0,
    ensures
        taken_to(spec, dir, i + 1, b) == (taken_to(spec, dir, i, b) || names_block(spec, dir, i, b)),
{
    if taken_to(spec, dir, i + 1, b) && !(b < spec.directory_blocks) {
        let k = choose|k: int| 0 <= k < i + 1 && #[trigger] names_block(spec, dir, k, b);
        assert(k < i || k == i);
    }
    if taken_to(spec, dir, i, b) && !(b < spec.directory_blocks) {
        let k = choose|k: int| 0 <= k < i && #[trigger] names_block(spec, dir, k, b);
        assert(0 <= k < i + 1);
    }
}

/// Finds the first free slot.
fn find_free_slot(dir: &Vec<u8>) -> (n: usize)
    ensures
        n == free_slot(dir@, 0),
        n <= dir@.len() / 32,
{
    let slots: usize = dir.len() / 32;
    let mut i: usize = 0;
    while i < slots && dir[32 * i] != 0xE5
        invariant
            i <= slots,
            slots == dir@.len() / 32,
            32 * slots <= usize::MAX,
            free_slot(dir@, 0) == free_slot(dir@, i as int),
        decreases slots - i,
    {
        i = i + 1;
    }
    i
}

/// Fills the first free slots with the extents of a file.
fn fill_directory(dir: &mut Vec<u8>, spec: &DiskSpecification, user: u8, name: &Vec<u8>, len: usize, free: &Vec<u16>, extents: usize)
    requires
        old(dir)@.len() <= 4177920,
        user <= 31,
        name@.len() == 11,
        128 <= spec.block_bytes(),
        extents == extent_count(*spec, len as int),
        extents <= 2048,
        extents <= free_slots(old(dir)@, old(dir)@.len() as int / 32),
    ensures
        final(dir)@ == filled_to(*spec, old(dir)@, user, name@, len as int, free@, extents as int),
        final(dir)@.len() == old(dir)@.len(),
{
    let ghost start = dir@;
    let mut k: usize = 0;
    while k < extents
        invariant
            k <= extents <= 2048,
            start == old(dir)@,
            dir@.len() == start.len() <= 4177920,
            user <= 31,
            name@.len() == 11,
            128 <= spec.block_bytes(),
            extents == extent_count(*spec, len as int),
            dir@ == filled_to(*spec, start, user, name@, len as int, free@, k as int),
            free_slots(dir@, dir@.len() as int / 32) >= extents - k,
        decreases extents - k,
    {
        proof {
            lemma_free_slot(dir@, 0);
            lemma_extent_fits(*spec, len as int, k as int);
        }
        let at = find_free_slot(dir);
        let ghost entry = extent_bytes(*spec, user, name@, len as int, free@, k as int);
        proof {
            lemma_fill_slot(dir@, at as int, entry, dir@.len() as int / 32);
        }
        fill_slot(dir, at, spec, user, name, len, free, k);
        k = k + 1;
    }
}

/// Every extent of a file begins within it.
pub proof fn lemma_extent_fits(spec: DiskSpecification, len: int, k: int)
    requires
        128 <= spec.block_bytes(),
        len >= 0,
        0 <= k < extent_count(spec, len),
    ensures
        0 <= k * bytes_per_extent(spec) <= len,
        len > 0 ==> k * bytes_per_extent(spec) < len,
{
    lemma_extent_sizes(spec);
    let e = bytes_per_extent(spec);
    let n = extent_count(spec, len);
    let l = if len > 1 { len } else { 1 };
    bytes::lemma_div_up(l, e);
    assert(0 <= k * e <= (n - 1) * e) by (nonlinear_arith)
        requires
            0 <= k <= n - 1,
            e > 0,
    ;
}

/// Writes the sectors of a file.
fn store_sectors(image: &mut DiskImage, spec: &DiskSpecification, free: &Vec<u16>, data: &[u8]) -> (r: Result<(), DskError>)
    requires
        spec.sector_size > 0,
        spec.block_bytes() % (spec.sector_size as int) == 0,
        spec.block_bytes() >= spec.sector_size,
        free@.len() <= 65535,
    ensures
        match r {
            Ok(()) => stored_to(old(image)@, *spec, free@, data@, free@.len() * cpm_model::sectors_per_block(*spec))
                == Ok::<ImageView, ErrorView>(final(image)@),
            Err(e) => stored_to(old(image)@, *spec, free@, data@, free@.len() * cpm_model::sectors_per_block(*spec))
                == Err::<ImageView, ErrorView>(e@),
        },
        laws::same_layout(old(image)@, final(image)@),
{
    let ghost start = image@;
    proof {
        laws::lemma_same_layout_reflexive(image@);
    }
    let block_size = spec.block_size();
    let sector_size = spec.sector_size as usize;
    let spb: usize = block_size / sector_size;
    proof {
        vstd::arithmetic::div_mod::lemma_fundamental_div_mod(block_size as int, sector_size as int);
        assert(spb * sector_size == block_size && 1 <= spb <= block_size) by (nonlinear_arith)
            requires
                block_size == sector_size as int * spb,
                sector_size > 0,
                block_size >= sector_size,
        ;
        specification::lemma_small_product(free@.len() as int, 65535, spb as int, 16384);
        specification::lemma_sector_bounds(*spec);
    }
    let total: usize = free.len() * spb;
    let first: usize = spec.reserved_tracks as usize * spec.sectors_per_track as usize;
    let mut n: usize = 0;
    while n < total
        invariant
            n <= total,
            total == free@.len() * spb,
            free@.len() <= 65535,
            sector_size == spec.sector_size > 0,
            spb == cpm_model::sectors_per_block(*spec),
            1 <= spb <= 16384,
            spb * sector_size <= 16384,
            first == spec.first_sector() <= 65025,
            start == old(image)@,
            stored_to(start, *spec, free@, data@, n as int) == Ok::<ImageView, ErrorView>(image@),
            laws::same_layout(start, image@),
        decreases total - n,
    {
        proof {
            vstd::arithmetic::div_mod::lemma_multiply_divide_lt(n as int, spb as int, free@.len() as int);
        }
        let block = free[n / spb];
        proof {
            specification::lemma_small_product(block as int, 65535, spb as int, 16384);
        }
        let absolute: usize = block as usize * spb + first + n % spb;
        assert(absolute == file_sector(*spec, free@, n as int));
        assert(0 <= sector_size * n <= 65535 * 16384) by (nonlinear_arith)
            requires
                0 <= n < total,
                total == free@.len() * spb,
                free@.len() <= 65535,
                spb * sector_size <= 16384,
                sector_size > 0,
                spb > 0,
        ;
        let a = match cpm_address(image, spec, absolute) {
            Ok(a) => a,
            Err(e) => {
                proof {
                    lemma_stored_stop(start, *spec, free@, data@, n + 1, total as int);
                }
                return Err(e);
            },
        };
        let mut sector: Vec<u8> = Vec::new();
        let offset: usize = sector_size * n;
        while sector.len() < sector_size
            invariant
                sector@.len() <= sector_size <= 65535,
                offset == sector_size * n,
                offset <= 65535 * 16384,
                forall|k: int| 0 <= k < sector@.len() ==> #[trigger] sector@[k] == file_sector_bytes(data@, sector_size as int, n as int)[k],
            decreases sector_size - sector@.len(),
        {
            let at: usize = offset + sector.len();
            sector.push(if at < data.len() { data[at] } else { 0x1A });
        }
        assert(sector@ =~= file_sector_bytes(data@, sector_size as int, n as int));
        let ghost before = image@;
        let written = image.write_sector(a.0, a.1, a.2, sector.as_slice());
        proof {
            laws::lemma_same_layout_chain(start, before, image@);
        }
        match written {
            Ok(()) => {},
            Err(e) => {
                proof {
                    lemma_stored_stop(start, *spec, free@, data@, n + 1, total as int);
                }
                return Err(e);
            },
        }
        n = n + 1;
    }
    Ok(())
}

/// An error while the first sectors are written is an error of the whole.
proof fn lemma_stored_stop(image: ImageView, spec: DiskSpecification, free: Seq<u16>, data: Seq<u8>, i: int, n: int)
    requires
        i <= n,
        stored_to(image, spec, free, data, i) is Err,
    ensures
        stored_to(image, spec, free, data, n) == stored_to(image, spec, free, data, i),
    decreases n - i,
{
    if i < n {
        lemma_stored_stop(image, spec, free, data, i, n - 1);
    }
}

/// Stores a new file. After an error the image may be half-written, but keeps its layout.
pub fn cpm_import(image: &mut DiskImage, name: &str, data: &[u8]) -> (r: Result<(), DskError>)
    ensures
        match r {
            Ok(()) => imported(old(image)@, name@, data@) == Ok::<ImageView, ErrorView>(final(image)@),
            Err(e) => imported(old(image)@, name@, data@) == Err::<ImageView, ErrorView>(e@),
        },
        laws::same_layout(old(image)@, final(image)@),
{
    proof {
        laws::lemma_same_layout_reflexive(image@);
    }
    let (user, raw) = match names::cpm_name(name) {
        Ok(key) => key,
        Err(e) => {
            return Err(e);
        },
    };
    let spec = DiskSpecification::identify(image);
    let (addresses, mut dir) = match cpm_directory(image, &spec) {
        Ok(d) => d,
        Err(e) => {
            return Err(e);
        },
    };
    let block_size = spec.block_size();
    let sector_size = spec.sector_size as usize;
    if block_size < sector_size || block_size % sector_size != 0 {
        return Err(DskError::filesystem("Unsupported CP/M block size"));
    }
    proof {
        lemma_extent_sizes(spec);
    }
    let capacity: usize = match spec.allocation_size {
        AllocationSize::Byte => 16,
        AllocationSize::Word => 8,
    };
    let most: usize = 16384 / block_size;
    let per_extent: usize = if most < capacity { most } else { capacity };
    let extents = bytes::ceil_div(if data.len() > 1 { data.len() } else { 1 }, per_extent * block_size);
    if extents > 2048 || extents > count_free_slots(&dir) {
        return Err(DskError::DiskFull);
    }
    if directory_holds(&dir, user, &raw) {
        return Err(DskError::filesystem("File already exists"));
    }
    let needed = bytes::ceil_div(data.len(), block_size);
    let free = find_free_blocks(&spec, &dir, needed);
    if free.len() != needed {
        return Err(DskError::DiskFull);
    }
    assert(free@ =~= free_to(spec, dir@, spec.blocks()).take(needed as int));
    fill_directory(&mut dir, &spec, user, &raw, data.len(), &free, extents);
    match store_sectors(image, &spec, &free, data) {
        Ok(()) => {},
        Err(e) => {
            return Err(e);
        },
    }
    let ghost mid = image@;
    let written = cpm_write_directory(image, &addresses, &dir, sector_size);
    proof {
        laws::lemma_same_layout_chain(old(image)@, mid, image@);
    }
    written
}

/// Removes a file. After an error the image may be half-written, but keeps its layout.
pub fn cpm_delete(image: &mut DiskImage, name: &str) -> (r: Result<(), DskError>)
    ensures
        match r {
            Ok(()) => deleted(old(image)@, name@) == Ok::<ImageView, ErrorView>(final(image)@),
            Err(e) => deleted(old(image)@, name@) == Err::<ImageView, ErrorView>(e@),
        },
        laws::same_layout(old(image)@, final(image)@),
{
    proof {
        laws::lemma_same_layout_reflexive(image@);
    }
    let (user, raw) = match names::cpm_name(name) {
        Ok(key) => key,
        Err(e) => {
            return Err(e);
        },
    };
    let spec = DiskSpecification::identify(image);
    let (addresses, mut dir) = match cpm_directory(image, &spec) {
        Ok(d) => d,
        Err(e) => {
            return Err(e);
        },
    };
    let ghost before = dir@;
    let slots: usize = dir.len() / 32;
    let mut found = false;
    let mut i: usize = 0;
    while i < slots
        invariant
            i <= slots,
            slots == dir@.len() / 32,
            dir@.len() == before.len(),
            32 * slots <= usize::MAX,
            raw@.len() == 11,
            found == (exists|k: int| 0 <= k < i && matches(#[trigger] slot(before, k), user, raw@)),
            forall|j: int| 0 <= j < before.len() ==> #[trigger] dir@[j] == (if j < 32 * i { without(before, user, raw@)[j] } else { before[j] }),
        decreases slots - i,
    {
        let entry = vstd::slice::slice_subrange(dir.as_slice(), 32 * i, 32 * i + 32);
        assert(entry@ =~= slot(before, i as int));
        if cpm_matches(entry, user, &raw) {
            dir.set(32 * i, 0xE5);
            found = true;
        }
        i = i + 1;
    }
    assert(dir@ =~= without(before, user, raw@));
    if !found {
        return Err(DskError::FileNotFound(name.to_string()));
    }
    cpm_write_directory(image, &addresses, &dir, spec.sector_size as usize)
}

}
