//! Building freshly formatted images.

use crate::error::{DskError, ErrorView};
use crate::format::{DiskImageFormat, FormatSpec, SideMode};
use crate::image::disk::{Disk, DiskView};
use crate::image::sector::{FdcStatus1, FdcStatus2, Sector, SectorId, SectorView};
use crate::image::track::{DataRate, RecordingMode, Track, TrackView};
use crate::image::{DiskImage, ImageView};
use vstd::prelude::*;

verus! {

/// Builds images step by step.
pub struct DiskImageBuilder {
    format: DiskImageFormat,
    spec: FormatSpec,
}

/// The geometry that a builder starts with.
pub open spec fn default_spec() -> FormatSpec {
    FormatSpec {
        num_sides: 1,
        num_tracks: 40,
        sectors_per_track: 9,
        sector_size: 512,
        first_sector_id: 0xC1,
        gap3_length: 0x4E,
        filler_byte: 0xE5,
        interleave: 1,
        side_mode: SideMode::SingleSide,
    }
}

/// Sector `i` of a freshly formatted track.
pub open spec fn blank_sector(spec: FormatSpec, side: int, track: int, i: int) -> SectorView {
    SectorView {
        id: SectorId {
            track: track as u8,
            side: side as u8,
            sector: (spec.first_sector_id + i) as u8,
            size_code: crate::format::size_code(spec.sector_size as int).unwrap(),
        },
        status1: FdcStatus1(0),
        status2: FdcStatus2(0),
        data: Seq::new(spec.sector_size as nat, |k: int| spec.filler_byte),
    }
}

/// A freshly formatted track.
pub open spec fn blank_track(spec: FormatSpec, side: int, track: int) -> TrackView {
    TrackView {
        track_number: track as u8,
        side_number: side as u8,
        gap3_length: spec.gap3_length,
        filler_byte: spec.filler_byte,
        recording_mode: RecordingMode::MFM,
        data_rate: DataRate::SingleDouble,
        sectors: Seq::new(spec.sectors_per_track as nat, |i: int| blank_sector(spec, side, track, i)),
    }
}

/// A freshly formatted side.
pub open spec fn blank_disk(spec: FormatSpec, side: int) -> DiskView {
    DiskView {
        side: side as u8,
        tracks: Seq::new(spec.num_tracks as nat, |t: int| blank_track(spec, side, t)),
    }
}

/// What `build` returns: a formatted image, or what is wrong with the geometry.
pub open spec fn built(format: DiskImageFormat, spec: FormatSpec) -> Result<ImageView, ErrorView> {
    if spec.num_sides == 0 || spec.num_sides > 2 {
        Err(ErrorView::InvalidFormat("An image has one or two sides"@))
    } else if spec.num_tracks == 0 || spec.sectors_per_track == 0 {
        Err(ErrorView::InvalidFormat("An image has at least one track and one sector"@))
    } else if spec.first_sector_id + spec.sectors_per_track > 256 {
        Err(ErrorView::InvalidFormat("Sector IDs exceed 255"@))
    } else if crate::format::size_code(spec.sector_size as int) is None {
        Err(ErrorView::InvalidFormat("Invalid sector size"@))
    } else {
        Ok(
            ImageView {
                format,
                spec,
                disks: Seq::new(spec.num_sides as nat, |s: int| blank_disk(spec, s)),
                changed: true,
                filename: None,
                warnings: Seq::empty(),
            },
        )
    }
}

/// A track with freshly formatted sectors.
fn format_track(spec: &FormatSpec, side: u8, track: u8, code: u8) -> (t: Track)
    requires
        spec.first_sector_id + spec.sectors_per_track <= 256,
        crate::format::size_code(spec.sector_size as int) == Some(code),
    ensures
        t@ == blank_track(*spec, side as int, track as int),
{
    let mut t = Track::with_recording(
        track,
        side,
        spec.gap3_length,
        spec.filler_byte,
        RecordingMode::MFM,
        DataRate::SingleDouble,
    );
    let mut i: u8 = 0;
    while i < spec.sectors_per_track
        invariant
            i <= spec.sectors_per_track,
            spec.first_sector_id + spec.sectors_per_track <= 256,
            crate::format::size_code(spec.sector_size as int) == Some(code),
            t@ == (TrackView {
                sectors: Seq::new(i as nat, |k: int| blank_sector(*spec, side as int, track as int, k)),
                ..blank_track(*spec, side as int, track as int)
            }),
        decreases spec.sectors_per_track - i,
    {
        let data: Vec<u8> = vec![spec.filler_byte; spec.sector_size as usize];
        let id = SectorId::new(track, side, spec.first_sector_id + i, code);
        let sector = Sector::with_status(id, FdcStatus1(0), FdcStatus2(0), data);
        assert(sector@.data =~= blank_sector(*spec, side as int, track as int, i as int).data);
        t.add_sector(sector);
        assert(t@.sectors =~= Seq::new((i + 1) as nat, |k: int| blank_sector(*spec, side as int, track as int, k)));
        i = i + 1;
    }
    t
}

impl DiskImageBuilder {
    /// The kind of image file to build.
    pub closed spec fn chosen_format(&self) -> DiskImageFormat {
        self.format
    }

    /// The geometry to build.
    pub closed spec fn chosen_spec(&self) -> FormatSpec {
        self.spec
    }

    /// A builder for an Amstrad data disk.
    pub fn new() -> (b: DiskImageBuilder)
        ensures
            b.chosen_format() == DiskImageFormat::StandardDSK,
            b.chosen_spec() == default_spec(),
    {
        DiskImageBuilder {
            format: DiskImageFormat::StandardDSK,
            spec: FormatSpec::amstrad_data(),
        }
    }

    /// Chooses the kind of image file.
    pub fn format(self, format: DiskImageFormat) -> (b: DiskImageBuilder)
        ensures
            b.chosen_format() == format,
            b.chosen_spec() == self.chosen_spec(),
    {
        DiskImageBuilder { format, spec: self.spec }
    }

    /// Chooses the whole geometry.
    pub fn spec(self, spec: FormatSpec) -> (b: DiskImageBuilder)
        ensures
            b.chosen_format() == self.chosen_format(),
            b.chosen_spec() == spec,
    {
        DiskImageBuilder { format: self.format, spec }
    }

    /// Chooses the number of sides; two sides alternate unless another order was chosen.
    pub fn num_sides(self, n: u8) -> (b: DiskImageBuilder)
        ensures
            b.chosen_format() == self.chosen_format(),
            b.chosen_spec() == (FormatSpec {
                num_sides: n,
                side_mode: crate::format::mode_for(n, self.chosen_spec().side_mode),
                ..self.chosen_spec()
            }),
    {
        let mode = if n < 2 {
            SideMode::SingleSide
        } else {
            match self.spec.side_mode {
                SideMode::SingleSide => SideMode::Alternate,
                other => other,
            }
        };
        DiskImageBuilder {
            format: self.format,
            spec: FormatSpec { num_sides: n, side_mode: mode, ..self.spec },
        }
    }

    /// Chooses the number of tracks per side.
    pub fn num_tracks(self, n: u8) -> (b: DiskImageBuilder)
        ensures
            b.chosen_format() == self.chosen_format(),
            b.chosen_spec() == (FormatSpec { num_tracks: n, ..self.chosen_spec() }),
    {
        DiskImageBuilder {
            format: self.format,
            spec: FormatSpec { num_tracks: n, ..self.spec },
        }
    }

    /// Chooses the number of sectors per track.
    pub fn sectors_per_track(self, n: u8) -> (b: DiskImageBuilder)
        ensures
            b.chosen_format() == self.chosen_format(),
            b.chosen_spec() == (FormatSpec { sectors_per_track: n, ..self.chosen_spec() }),
    {
        DiskImageBuilder {
            format: self.format,
            spec: FormatSpec { sectors_per_track: n, ..self.spec },
        }
    }

    /// Chooses the sector size.
    pub fn sector_size(self, n: u16) -> (b: DiskImageBuilder)
        ensures
            b.chosen_format() == self.chosen_format(),
            b.chosen_spec() == (FormatSpec { sector_size: n, ..self.chosen_spec() }),
    {
        DiskImageBuilder {
            format: self.format,
            spec: FormatSpec { sector_size: n, ..self.spec },
        }
    }

    /// Builds the image.
    pub fn build(self) -> (r: Result<DiskImage, DskError>)
        ensures
            match r {
                Ok(image) => built(self.chosen_format(), self.chosen_spec()) == Ok::<ImageView, ErrorView>(image@),
                Err(e) => built(self.chosen_format(), self.chosen_spec()) == Err::<ImageView, ErrorView>(e@),
            },
    {
        let spec = self.spec;
        if spec.num_sides == 0 || spec.num_sides > 2 {
            return Err(DskError::invalid_format("An image has one or two sides"));
        }
        if spec.num_tracks == 0 || spec.sectors_per_track == 0 {
            return Err(DskError::invalid_format("An image has at least one track and one sector"));
        }
        if spec.first_sector_id as u16 + spec.sectors_per_track as u16 > 256 {
            return Err(DskError::invalid_format("Sector IDs exceed 255"));
        }
        let code = match crate::format::code_for_size(spec.sector_size) {
            Some(code) => code,
            None => {
                return Err(DskError::invalid_format("Invalid sector size"));
            },
        };
        let mut disks: Vec<Disk> = Vec::new();
        let mut side: u8 = 0;
        while side < spec.num_sides
            invariant
                side <= spec.num_sides,
                spec.first_sector_id + spec.sectors_per_track <= 256,
                crate::format::size_code(spec.sector_size as int) == Some(code),
                disks@.len() == side,
                forall|s: int| 0 <= s < side ==> (#[trigger] disks@[s])@ == blank_disk(spec, s),
            decreases spec.num_sides - side,
        {
            let mut disk = Disk::with_capacity(side, spec.num_tracks as usize);
            let mut t: u8 = 0;
            while t < spec.num_tracks
                invariant
                    t <= spec.num_tracks,
                    spec.first_sector_id + spec.sectors_per_track <= 256,
                    crate::format::size_code(spec.sector_size as int) == Some(code),
                    disk@.side == side,
                    disk@.tracks =~= Seq::new(t as nat, |k: int| blank_track(spec, side as int, k)),
                decreases spec.num_tracks - t,
            {
                let track = format_track(&spec, side, t, code);
                disk.add_track(track);
                t = t + 1;
            }
            assert(disk@ == blank_disk(spec, side as int));
            disks.push(disk);
            side = side + 1;
        }
        let image = DiskImage::from_parts(self.format, spec, disks, true, None, Vec::new());
        assert(image@.disks =~= Seq::new(spec.num_sides as nat, |s: int| blank_disk(spec, s)));
        assert(image@.warnings =~= Seq::<Seq<char>>::empty());
        Ok(image)
    }
}

}
