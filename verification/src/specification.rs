//! Logical disk specifications: where a CP/M filesystem lies on a disk.

use crate::format::{FileSystemType, SideMode};
use crate::image::sector::SectorView;
use crate::image::{DiskImage, ImageView};
use vstd::prelude::*;

verus! {

/// How logical tracks are spread over the sides.
#[derive(Clone, Copy, Debug, PartialEq, Eq, Structural)]
pub enum DiskSpecSide {
    Single,
    DoubleAlternate,
    DoubleSuccessive,
    /// Side 0 upwards, then side 1 from the last track down.
    DoubleReverse,
    Invalid,
}

/// The width of block numbers in directory entries.
#[derive(Clone, Copy, Debug, PartialEq, Eq, Structural)]
pub enum AllocationSize {
    Byte,
    Word,
}

/// The disk format that a specification belongs to.
#[derive(Clone, Copy, Debug, PartialEq, Eq, Structural)]
pub enum DiskSpecFormat {
    Unknown,
    AmstradSystem,
    AmstradData,
    Plus3,
    BootRecord,
    MgtSamCoupe,
}

impl DiskSpecFormat {
    /// The name of the format.
    pub open spec fn label(self) -> Seq<char> {
        match self {
            DiskSpecFormat::Unknown => "Unknown"@,
            DiskSpecFormat::AmstradSystem => "Amstrad CPC system"@,
            DiskSpecFormat::AmstradData => "Amstrad CPC data"@,
            DiskSpecFormat::Plus3 => "Spectrum +3"@,
            DiskSpecFormat::BootRecord => "Amstrad PCW/Spectrum +3"@,
            DiskSpecFormat::MgtSamCoupe => "MGT Sam Coupe"@,
        }
    }

    /// The name of the format.
    pub fn name(self) -> (s: &'static str)
        ensures
            s@ == self.label(),
    {
        match self {
            DiskSpecFormat::Unknown => "Unknown",
            DiskSpecFormat::AmstradSystem => "Amstrad CPC system",
            DiskSpecFormat::AmstradData => "Amstrad CPC data",
            DiskSpecFormat::Plus3 => "Spectrum +3",
            DiskSpecFormat::BootRecord => "Amstrad PCW/Spectrum +3",
            DiskSpecFormat::MgtSamCoupe => "MGT Sam Coupe",
        }
    }
}

/// A logical disk specification.
#[derive(Clone, Copy, Debug, PartialEq, Eq, Structural)]
pub struct DiskSpecification {
    pub format: DiskSpecFormat,
    pub side: DiskSpecSide,
    pub tracks_per_side: u8,
    pub sectors_per_track: u8,
    /// The FDC code of the sector size.
    pub fdc_sector_size: u8,
    pub sector_size: u16,
    /// Tracks before the directory.
    pub reserved_tracks: u8,
    /// A block has 128 bytes, doubled this often.
    pub block_shift: u8,
    pub directory_blocks: u8,
    pub gap_read_write: u8,
    pub gap_format: u8,
    pub allocation_size: AllocationSize,
}

/// 128 doubled `shift` times, for shifts up to 7; CP/M has no larger blocks.
pub open spec fn block_bytes(shift: u8) -> int {
    if shift == 0 {
        128
    } else if shift == 1 {
        256
    } else if shift == 2 {
        512
    } else if shift == 3 {
        1024
    } else if shift == 4 {
        2048
    } else if shift == 5 {
        4096
    } else if shift == 6 {
        8192
    } else if shift == 7 {
        16384
    } else {
        0
    }
}

/// The side layout that goes with a side mode.
pub open spec fn layout_of(mode: SideMode) -> DiskSpecSide {
    match mode {
        SideMode::SingleSide => DiskSpecSide::Single,
        SideMode::Alternate => DiskSpecSide::DoubleAlternate,
        SideMode::Successive => DiskSpecSide::DoubleSuccessive,
    }
}

/// The side layout that goes with a side mode.
pub fn layout_for(mode: SideMode) -> (side: DiskSpecSide)
    ensures
        side == layout_of(mode),
{
    match mode {
        SideMode::SingleSide => DiskSpecSide::Single,
        SideMode::Alternate => DiskSpecSide::DoubleAlternate,
        SideMode::Successive => DiskSpecSide::DoubleSuccessive,
    }
}

impl DiskSpecification {
    /// The number of bytes in a block.
    pub open spec fn block_bytes(self) -> int {
        block_bytes(self.block_shift)
    }

    /// The number of sides in use.
    pub open spec fn sides(self) -> int {
        match self.side {
            DiskSpecSide::Single => 1,
            DiskSpecSide::DoubleAlternate => 2,
            DiskSpecSide::DoubleSuccessive => 2,
            DiskSpecSide::DoubleReverse => 2,
            DiskSpecSide::Invalid => 0,
        }
    }

    /// The number of logical tracks.
    pub open spec fn tracks(self) -> int {
        self.tracks_per_side * self.sides()
    }

    /// The number of sectors before the directory.
    pub open spec fn first_sector(self) -> int {
        self.reserved_tracks * self.sectors_per_track
    }

    /// The number of logical sectors.
    pub open spec fn last_sector(self) -> int {
        self.tracks() * self.sectors_per_track
    }

    /// The number of blocks that fit behind the reserved tracks, at most 65535.
    pub open spec fn room(self) -> int {
        if self.block_bytes() == 0 || self.tracks() <= self.reserved_tracks {
            0
        } else {
            let n = (self.tracks() - self.reserved_tracks) * self.sectors_per_track * self.sector_size
                / self.block_bytes();
            if n > 65535 { 65535 } else { n }
        }
    }

    /// The number of blocks: all that fit, but none where the format was not recognised.
    pub open spec fn blocks(self) -> int {
        if self.format == DiskSpecFormat::Unknown { 0 } else { self.room() }
    }

    /// The number of directory entries.
    pub open spec fn entries(self) -> int {
        self.directory_blocks * self.block_bytes() / 32
    }

    /// The specification with block numbers just wide enough.
    pub open spec fn fitted(self) -> DiskSpecification {
        DiskSpecification {
            allocation_size: if self.blocks() <= 256 { AllocationSize::Byte } else { AllocationSize::Word },
            ..self
        }
    }

    /// A specification with the values of a small single-sided disk.
    pub fn new() -> (spec: DiskSpecification)
        ensures
            spec == default_specification(),
    {
        DiskSpecification {
            format: DiskSpecFormat::Unknown,
            side: DiskSpecSide::Single,
            tracks_per_side: 40,
            sectors_per_track: 9,
            fdc_sector_size: 2,
            sector_size: 512,
            reserved_tracks: 1,
            block_shift: 3,
            directory_blocks: 2,
            gap_read_write: 42,
            gap_format: 82,
            allocation_size: AllocationSize::Byte,
        }
    }

    /// The number of bytes in a block.
    pub fn block_size(&self) -> (n: usize)
        ensures
            n == self.block_bytes(),
            n <= 16384,
    {
        match self.block_shift {
            0 => 128,
            1 => 256,
            2 => 512,
            3 => 1024,
            4 => 2048,
            5 => 4096,
            6 => 8192,
            7 => 16384,
            _ => 0,
        }
    }

    /// The number of sides in use.
    pub fn side_count(&self) -> (n: u8)
        ensures
            n == self.sides(),
    {
        match self.side {
            DiskSpecSide::Single => 1,
            DiskSpecSide::DoubleAlternate => 2,
            DiskSpecSide::DoubleSuccessive => 2,
            DiskSpecSide::DoubleReverse => 2,
            DiskSpecSide::Invalid => 0,
        }
    }

    /// The number of blocks.
    pub fn block_count(&self) -> (n: u16)
        ensures
            n == self.blocks(),
    {
        match self.format {
            DiskSpecFormat::Unknown => 0,
            _ => self.block_room(),
        }
    }

    /// The number of blocks that fit behind the reserved tracks.
    pub fn block_room(&self) -> (n: u16)
        ensures
            n == self.room(),
    {
        let block_size = self.block_size();
        let sides = self.side_count();
        proof {
            lemma_small_product(self.tracks_per_side as int, 255, sides as int, 2);
        }
        let tracks: u64 = self.tracks_per_side as u64 * sides as u64;
        if block_size == 0 || tracks <= self.reserved_tracks as u64 {
            return 0;
        }
        let data_tracks: u64 = tracks - self.reserved_tracks as u64;
        proof {
            lemma_small_product(data_tracks as int, 510, self.sectors_per_track as int, 255);
        }
        let sectors: u64 = data_tracks * self.sectors_per_track as u64;
        proof {
            lemma_small_product(sectors as int, 130050, self.sector_size as int, 65535);
        }
        let n: u64 = sectors * self.sector_size as u64 / block_size as u64;
        if n > 65535 {
            65535
        } else {
            n as u16
        }
    }

    /// The number of directory entries.
    pub fn directory_entries(&self) -> (n: usize)
        ensures
            n == self.entries(),
            n <= 130560,
    {
        let block_size = self.block_size();
        proof {
            lemma_small_product(self.directory_blocks as int, 255, block_size as int, 16384);
        }
        self.directory_blocks as usize * block_size / 32
    }

    /// The specification with block numbers just wide enough.
    fn fit(self) -> (spec: DiskSpecification)
        ensures
            spec == self.fitted(),
    {
        let n = self.block_count();
        DiskSpecification {
            allocation_size: if n <= 256 { AllocationSize::Byte } else { AllocationSize::Word },
            ..self
        }
    }

    /// Recognises the logical format of a disk.
    pub fn identify(image: &DiskImage) -> (spec: DiskSpecification)
        ensures
            spec == identified(image@),
    {
        let disk = match image.get_disk(0) {
            Some(disk) => disk,
            None => {
                return unknown();
            },
        };
        let track = match disk.get_track(0) {
            Some(track) => track,
            None => {
                return unknown();
            },
        };
        let first = match track.nth_by_id(0) {
            Some(first) => first,
            None => {
                return unknown();
            },
        };
        let data = first.data();
        if disk.track_count() > 255 || track.sector_count() > 255 || data.len() > 65535 {
            return unknown();
        }
        let base = DiskSpecification {
            format: DiskSpecFormat::Plus3,
            side: DiskSpecSide::Single,
            tracks_per_side: disk.track_count() as u8,
            sectors_per_track: track.sector_count() as u8,
            fdc_sector_size: first.sector_id().size_code,
            sector_size: data.len() as u16,
            reserved_tracks: 1,
            block_shift: 3,
            directory_blocks: 2,
            gap_read_write: 42,
            gap_format: 82,
            allocation_size: AllocationSize::Byte,
        };
        let id = first.number();
        if id >= 0xC1 {
            DiskSpecification { format: DiskSpecFormat::AmstradData, reserved_tracks: 0, ..base }.fit()
        } else if id >= 0x41 {
            DiskSpecification { format: DiskSpecFormat::AmstradSystem, reserved_tracks: 2, ..base }.fit()
        } else if is_boot_record(data) {
            DiskSpecification {
                format: DiskSpecFormat::BootRecord,
                side: match data[1] % 128 {
                    0 => DiskSpecSide::Single,
                    1 => DiskSpecSide::DoubleAlternate,
                    _ => DiskSpecSide::DoubleSuccessive,
                },
                tracks_per_side: data[2],
                sectors_per_track: data[3],
                fdc_sector_size: data[4],
                sector_size: crate::format::size_for_code(data[4]) as u16,
                reserved_tracks: data[5],
                block_shift: data[6],
                directory_blocks: data[7],
                gap_read_write: data[8],
                gap_format: data[9],
                ..base
            }.fit()
        } else if image.disk_count() == 2 {
            if base.tracks_per_side == 80 && base.sectors_per_track == 10 && base.sector_size == 512 && id == 1 {
                DiskSpecification { format: DiskSpecFormat::MgtSamCoupe, side: DiskSpecSide::DoubleSuccessive, ..base }.fit()
            } else {
                DiskSpecification {
                    side: layout_for(image.spec().side_mode),
                    block_shift: 4,
                    directory_blocks: 4,
                    ..base
                }.fit()
            }
        } else {
            base.fit()
        }
    }
}

pub proof fn lemma_small_product(a: int, a_max: int, b: int, b_max: int)
    requires
        0 <= a <= a_max,
        0 <= b <= b_max,
    ensures
        0 <= a * b <= a_max * b_max,
{
    assert(0 <= a * b <= a_max * b_max) by (nonlinear_arith)
        requires
            0 <= a <= a_max,
            0 <= b <= b_max,
    ;
}

/// Sector numbers stay small.
pub proof fn lemma_sector_bounds(spec: DiskSpecification)
    ensures
        0 <= spec.tracks() <= 510,
        0 <= spec.first_sector() <= 65025,
        0 <= spec.last_sector() <= 130050,
{
    lemma_small_product(spec.tracks_per_side as int, 255, spec.sides(), 2);
    lemma_small_product(spec.reserved_tracks as int, 255, spec.sectors_per_track as int, 255);
    lemma_small_product(spec.tracks(), 510, spec.sectors_per_track as int, 255);
}

/// Directories stay small.
pub proof fn lemma_entries_bound(spec: DiskSpecification)
    ensures
        0 <= spec.entries() <= 130560,
{
    lemma_small_product(spec.directory_blocks as int, 255, spec.block_bytes(), 16384);
}

/// The values that `DiskSpecification::new` starts with.
pub open spec fn default_specification() -> DiskSpecification {
    DiskSpecification {
        format: DiskSpecFormat::Unknown,
        side: DiskSpecSide::Single,
        tracks_per_side: 40,
        sectors_per_track: 9,
        fdc_sector_size: 2,
        sector_size: 512,
        reserved_tracks: 1,
        block_shift: 3,
        directory_blocks: 2,
        gap_read_write: 42,
        gap_format: 82,
        allocation_size: AllocationSize::Byte,
    }
}

/// The specification of a disk that is not recognised.
pub open spec fn unknown_specification() -> DiskSpecification {
    DiskSpecification {
        format: DiskSpecFormat::Unknown,
        side: DiskSpecSide::Invalid,
        tracks_per_side: 0,
        sectors_per_track: 0,
        fdc_sector_size: 0,
        sector_size: 0,
        reserved_tracks: 0,
        block_shift: 0,
        directory_blocks: 0,
        gap_read_write: 0,
        gap_format: 0,
        allocation_size: AllocationSize::Byte,
    }
}

fn unknown() -> (spec: DiskSpecification)
    ensures
        spec == unknown_specification(),
{
    DiskSpecification {
        format: DiskSpecFormat::Unknown,
        side: DiskSpecSide::Invalid,
        tracks_per_side: 0,
        sectors_per_track: 0,
        fdc_sector_size: 0,
        sector_size: 0,
        reserved_tracks: 0,
        block_shift: 0,
        directory_blocks: 0,
        gap_read_write: 0,
        gap_format: 0,
        allocation_size: AllocationSize::Byte,
    }
}

/// Whether the first sector holds a disk specification in its first ten bytes.
pub open spec fn boot_record(data: Seq<u8>) -> bool {
    &&& data.len() >= 10
    &&& data[0] <= 3
    &&& data[1] % 128 <= 2
    &&& data[2] > 0
    &&& data[3] > 0
    &&& data[4] <= 7
    &&& data[6] <= 7
    &&& data[7] > 0
}

fn is_boot_record(data: &[u8]) -> (b: bool)
    ensures
        b == boot_record(data@),
{
    data.len() >= 10 && data[0] <= 3 && data[1] % 128 <= 2 && data[2] > 0 && data[3] > 0 && data[4] <= 7
        && data[6] <= 7 && data[7] > 0
}

/// The specification told by the geometry alone.
pub open spec fn base_specification(tracks: int, sectors: int, first: SectorView) -> DiskSpecification {
    DiskSpecification {
        format: DiskSpecFormat::Plus3,
        side: DiskSpecSide::Single,
        tracks_per_side: tracks as u8,
        sectors_per_track: sectors as u8,
        fdc_sector_size: first.id.size_code,
        sector_size: first.data.len() as u16,
        reserved_tracks: 1,
        block_shift: 3,
        directory_blocks: 2,
        gap_read_write: 42,
        gap_format: 82,
        allocation_size: AllocationSize::Byte,
    }
}

/// The specification of a disk: told by the ID number of the first sector of track 0, by
/// the boot record in it, or by the geometry.
pub open spec fn identified(image: ImageView) -> DiskSpecification {
    match image.track(0, 0) {
        None => unknown_specification(),
        Some(t) => if t.sectors.len() == 0 || t.sectors.len() > 255 || image.disks[0].tracks.len() > 255
            || t.by_id()[0].data.len() > 65535 {
            unknown_specification()
        } else {
            identified_by(
                base_specification(image.disks[0].tracks.len() as int, t.sectors.len() as int, t.by_id()[0]),
                t.by_id()[0].id.sector,
                t.by_id()[0].data,
                image.disks.len() as int,
                image.spec.side_mode,
            )
        },
    }
}

/// The specification of a disk whose first sector has the given ID number and data.
pub open spec fn identified_by(
    base: DiskSpecification,
    id: u8,
    data: Seq<u8>,
    sides: int,
    mode: SideMode,
) -> DiskSpecification {
    if id >= 0xC1 {
        DiskSpecification { format: DiskSpecFormat::AmstradData, reserved_tracks: 0, ..base }.fitted()
    } else if id >= 0x41 {
        DiskSpecification { format: DiskSpecFormat::AmstradSystem, reserved_tracks: 2, ..base }.fitted()
    } else if boot_record(data) {
        DiskSpecification {
            format: DiskSpecFormat::BootRecord,
            side: if data[1] % 128 == 0 {
                DiskSpecSide::Single
            } else if data[1] % 128 == 1 {
                DiskSpecSide::DoubleAlternate
            } else {
                DiskSpecSide::DoubleSuccessive
            },
            tracks_per_side: data[2],
            sectors_per_track: data[3],
            fdc_sector_size: data[4],
            sector_size: crate::format::coded_size(data[4]) as u16,
            reserved_tracks: data[5],
            block_shift: data[6],
            directory_blocks: data[7],
            gap_read_write: data[8],
            gap_format: data[9],
            ..base
        }.fitted()
    } else if sides == 2 {
        if base.tracks_per_side == 80 && base.sectors_per_track == 10 && base.sector_size == 512 && id == 1 {
            DiskSpecification { format: DiskSpecFormat::MgtSamCoupe, side: DiskSpecSide::DoubleSuccessive, ..base }.fitted()
        } else {
            DiskSpecification {
                side: layout_of(mode),
                block_shift: 4,
                directory_blocks: 4,
                ..base
            }.fitted()
        }
    } else {
        base.fitted()
    }
}

/// The filesystem that an image most likely holds.
pub open spec fn likely_filesystem(image: ImageView) -> FileSystemType {
    if identified(image).format == DiskSpecFormat::MgtSamCoupe {
        FileSystemType::Mgt
    } else {
        image.format.filesystem()
    }
}

impl DiskImage {
    /// The filesystem that the image most likely holds: MGT if its layout is that of a Sam
    /// Coupe disk, otherwise what its file format suggests.
    pub fn default_filesystem(&self) -> (fs: FileSystemType)
        ensures
            fs == likely_filesystem(self@),
            fs != FileSystemType::Auto,
    {
        let spec = DiskSpecification::identify(self);
        match spec.format {
            DiskSpecFormat::MgtSamCoupe => FileSystemType::Mgt,
            _ => self.format().default_filesystem(),
        }
    }
}

}
