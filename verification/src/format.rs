//! Physical disk formats.

use vstd::prelude::*;

verus! {

/// How the tracks of a double-sided disk follow each other.
#[derive(Clone, Copy, Debug, PartialEq, Eq, Structural)]
pub enum SideMode {
    /// Side 0 alone.
    SingleSide,
    /// Track 0 of side 0, track 0 of side 1, track 1 of side 0, and so on.
    Alternate,
    /// All of side 0, then all of side 1.
    Successive,
}

/// The kind of image file.
#[derive(Clone, Copy, Debug, PartialEq, Eq, Structural)]
pub enum DiskImageFormat {
    StandardDSK,
    ExtendedDSK,
    RawMgt,
    RawTrd,
    RawTd0,
}

/// The filesystem on a disk.
#[derive(Clone, Copy, Debug, PartialEq, Eq, Structural)]
pub enum FileSystemType {
    /// Whatever the image suggests.
    Auto,
    Cpm,
    Mgt,
    Trdos,
}

impl DiskImageFormat {
    /// The filesystem that images of this kind usually hold.
    pub open spec fn filesystem(self) -> FileSystemType {
        match self {
            DiskImageFormat::RawMgt => FileSystemType::Mgt,
            DiskImageFormat::RawTrd => FileSystemType::Trdos,
            _ => FileSystemType::Cpm,
        }
    }

    /// The filesystem that images of this kind usually hold.
    pub fn default_filesystem(self) -> (fs: FileSystemType)
        ensures
            fs == self.filesystem(),
    {
        match self {
            DiskImageFormat::RawMgt => FileSystemType::Mgt,
            DiskImageFormat::RawTrd => FileSystemType::Trdos,
            _ => FileSystemType::Cpm,
        }
    }
}

/// The geometry of a freshly formatted disk.
#[derive(Clone, Copy, Debug, PartialEq, Eq, Structural)]
pub struct FormatSpec {
    pub num_sides: u8,
    pub num_tracks: u8,
    pub sectors_per_track: u8,
    pub sector_size: u16,
    pub first_sector_id: u8,
    pub gap3_length: u8,
    pub filler_byte: u8,
    pub interleave: u8,
    pub side_mode: SideMode,
}

/// The side mode that goes with a number of sides.
pub open spec fn mode_for(num_sides: u8, mode: SideMode) -> SideMode {
    if num_sides < 2 {
        SideMode::SingleSide
    } else if mode == SideMode::SingleSide {
        SideMode::Alternate
    } else {
        mode
    }
}

/// The FDC code of a sector size: the code `n` stands for 128 bytes, doubled `n` times.
pub open spec fn size_code(size: int) -> Option<u8> {
    if size == 128 {
        Some(0)
    } else if size == 256 {
        Some(1)
    } else if size == 512 {
        Some(2)
    } else if size == 1024 {
        Some(3)
    } else if size == 2048 {
        Some(4)
    } else if size == 4096 {
        Some(5)
    } else if size == 8192 {
        Some(6)
    } else if size == 16384 {
        Some(7)
    } else {
        None
    }
}

/// The sector size that an FDC size code stands for; only its low three bits count.
pub open spec fn coded_size(code: u8) -> int {
    let c = code % 8;
    if c == 0 {
        128
    } else if c == 1 {
        256
    } else if c == 2 {
        512
    } else if c == 3 {
        1024
    } else if c == 4 {
        2048
    } else if c == 5 {
        4096
    } else if c == 6 {
        8192
    } else {
        16384
    }
}

/// The FDC code of a sector size.
pub fn code_for_size(size: u16) -> (code: Option<u8>)
    ensures
        code == size_code(size as int),
{
    match size {
        128 => Some(0),
        256 => Some(1),
        512 => Some(2),
        1024 => Some(3),
        2048 => Some(4),
        4096 => Some(5),
        8192 => Some(6),
        16384 => Some(7),
        _ => None,
    }
}

/// The sector size that an FDC size code stands for.
pub fn size_for_code(code: u8) -> (size: usize)
    ensures
        size == coded_size(code),
        128 <= size <= 16384,
{
    match code % 8 {
        0 => 128,
        1 => 256,
        2 => 512,
        3 => 1024,
        4 => 2048,
        5 => 4096,
        6 => 8192,
        _ => 16384,
    }
}

impl FormatSpec {
    /// The number of bytes on the disk.
    pub open spec fn capacity(self) -> int {
        self.num_sides * self.num_tracks * self.sectors_per_track * self.sector_size
    }

    /// A disk with the given geometry; sector IDs start at `0xC1`.
    pub fn new(num_sides: u8, num_tracks: u8, sectors_per_track: u8, sector_size: u16) -> (spec: FormatSpec)
        ensures
            spec == (FormatSpec {
                num_sides,
                num_tracks,
                sectors_per_track,
                sector_size,
                first_sector_id: 0xC1,
                gap3_length: 0x4E,
                filler_byte: 0xE5,
                interleave: 1,
                side_mode: mode_for(num_sides, SideMode::SingleSide),
            }),
    {
        FormatSpec {
            num_sides,
            num_tracks,
            sectors_per_track,
            sector_size,
            first_sector_id: 0xC1,
            gap3_length: 0x4E,
            filler_byte: 0xE5,
            interleave: 1,
            side_mode: if num_sides < 2 { SideMode::SingleSide } else { SideMode::Alternate },
        }
    }

    /// The same geometry with another first sector ID.
    pub fn with_first_sector_id(self, id: u8) -> (spec: FormatSpec)
        ensures
            spec == (FormatSpec { first_sector_id: id, ..self }),
    {
        FormatSpec { first_sector_id: id, ..self }
    }

    /// The same geometry with another filler byte.
    pub fn with_filler_byte(self, filler: u8) -> (spec: FormatSpec)
        ensures
            spec == (FormatSpec { filler_byte: filler, ..self }),
    {
        FormatSpec { filler_byte: filler, ..self }
    }

    /// The same geometry with another order of sides.
    pub fn with_side_mode(self, mode: SideMode) -> (spec: FormatSpec)
        ensures
            spec == (FormatSpec { side_mode: mode, ..self }),
    {
        FormatSpec { side_mode: mode, ..self }
    }

    /// The Amstrad CPC data format.
    pub fn amstrad_data() -> (spec: FormatSpec)
        ensures
            spec == (FormatSpec {
                num_sides: 1,
                num_tracks: 40,
                sectors_per_track: 9,
                sector_size: 512,
                first_sector_id: 0xC1,
                gap3_length: 0x4E,
                filler_byte: 0xE5,
                interleave: 1,
                side_mode: SideMode::SingleSide,
            }),
    {
        FormatSpec::new(1, 40, 9, 512)
    }

    /// The Amstrad CPC system format.
    pub fn amstrad_system() -> (spec: FormatSpec)
        ensures
            spec == (FormatSpec {
                num_sides: 1,
                num_tracks: 40,
                sectors_per_track: 9,
                sector_size: 512,
                first_sector_id: 0x41,
                gap3_length: 0x4E,
                filler_byte: 0xE5,
                interleave: 1,
                side_mode: SideMode::SingleSide,
            }),
    {
        FormatSpec::new(1, 40, 9, 512).with_first_sector_id(0x41)
    }

    /// The Spectrum +3 format.
    pub fn spectrum_plus3() -> (spec: FormatSpec)
        ensures
            spec == (FormatSpec {
                num_sides: 1,
                num_tracks: 40,
                sectors_per_track: 9,
                sector_size: 512,
                first_sector_id: 1,
                gap3_length: 0x4E,
                filler_byte: 0xE5,
                interleave: 1,
                side_mode: SideMode::SingleSide,
            }),
    {
        FormatSpec::new(1, 40, 9, 512).with_first_sector_id(1)
    }

    /// The double-sided Spectrum +3 format.
    pub fn spectrum_plus3_ds() -> (spec: FormatSpec)
        ensures
            spec == (FormatSpec {
                num_sides: 2,
                num_tracks: 80,
                sectors_per_track: 9,
                sector_size: 512,
                first_sector_id: 1,
                gap3_length: 0x4E,
                filler_byte: 0xE5,
                interleave: 1,
                side_mode: SideMode::Alternate,
            }),
    {
        FormatSpec::new(2, 80, 9, 512).with_first_sector_id(1)
    }

    /// The TR-DOS format with 80 tracks on one side.
    pub fn trdos() -> (spec: FormatSpec)
        ensures
            spec == (FormatSpec {
                num_sides: 1,
                num_tracks: 80,
                sectors_per_track: 16,
                sector_size: 256,
                first_sector_id: 1,
                gap3_length: 0x4E,
                filler_byte: 0xE5,
                interleave: 1,
                side_mode: SideMode::SingleSide,
            }),
    {
        FormatSpec::new(1, 80, 16, 256).with_first_sector_id(1)
    }

    /// The number of bytes on the disk.
    pub fn total_capacity(&self) -> (n: usize)
        requires
            self.capacity() <= usize::MAX,
        ensures
            n == self.capacity(),
    {
        assert(self.num_sides * self.num_tracks <= 255 * 255) by (nonlinear_arith)
            requires
                self.num_sides <= 255,
                self.num_tracks <= 255,
        ;
        let tracks: usize = self.num_sides as usize * self.num_tracks as usize;
        assert(tracks * self.sectors_per_track <= 255 * 255 * 255) by (nonlinear_arith)
            requires
                0 <= tracks <= 255 * 255,
                self.sectors_per_track <= 255,
        ;
        let sectors: usize = tracks * self.sectors_per_track as usize;
        sectors * self.sector_size as usize
    }
}

}
