//! Sector images.

pub mod builder;
pub mod disk;
pub mod file_laws;
pub mod files;
pub mod laws;
pub mod sector;
pub mod sector_laws;
pub mod track;

use crate::error::{DskError, ErrorView};
use crate::format::{DiskImageFormat, FormatSpec, SideMode};
use crate::image::builder::DiskImageBuilder;
use crate::image::disk::{Disk, DiskView};
use crate::image::sector::SectorView;
use crate::image::track::TrackView;
use vstd::prelude::*;

verus! {

/// A disk image: the sides with their tracks and sectors, and what is known of the file.
#[derive(Debug)]
pub struct DiskImage {
    format: DiskImageFormat,
    spec: FormatSpec,
    disks: Vec<Disk>,
    changed: bool,
    filename: Option<String>,
    warnings: Vec<String>,
}

/// The mathematical value of an image.
#[verifier::ext_equal]
pub struct ImageView {
    pub format: DiskImageFormat,
    pub spec: FormatSpec,
    pub disks: Seq<DiskView>,
    pub changed: bool,
    pub filename: Option<Seq<char>>,
    pub warnings: Seq<Seq<char>>,
}

/// The values of a list of sides.
pub open spec fn disk_views(s: Seq<Disk>) -> Seq<DiskView> {
    Seq::new(s.len(), |i: int| s[i]@)
}

/// The values of a list of strings.
pub open spec fn string_views(s: Seq<String>) -> Seq<Seq<char>> {
    Seq::new(s.len(), |i: int| s[i]@)
}

/// The value of an optional string.
pub open spec fn option_view(s: Option<String>) -> Option<Seq<char>> {
    match s {
        Some(t) => Some(t@),
        None => None,
    }
}

impl View for DiskImage {
    type V = ImageView;

    closed spec fn view(&self) -> ImageView {
        ImageView {
            format: self.format,
            spec: self.spec,
            disks: disk_views(self.disks@),
            changed: self.changed,
            filename: option_view(self.filename),
            warnings: string_views(self.warnings@),
        }
    }
}

/// One below `n`, but not below 0.
pub open spec fn pred(n: u8) -> u8 {
    if n == 0 { 0 } else { (n - 1) as u8 }
}

impl ImageView {
    /// The track with the given number on the given side.
    pub open spec fn track(self, side: int, track: int) -> Option<TrackView> {
        if 0 <= side < self.disks.len() {
            self.disks[side].track(track)
        } else {
            None
        }
    }

    /// The first sector with this ID number on a track.
    pub open spec fn sector(self, side: int, track: int, id: u8) -> Option<SectorView> {
        match self.track(side, track) {
            None => None,
            Some(t) => match t.find(id) {
                None => None,
                Some(i) => Some(t.sectors[i]),
            },
        }
    }

    /// Why there is no such sector.
    pub open spec fn missing(self, side: u8, track: u8, id: u8) -> ErrorView {
        if side >= self.disks.len() {
            ErrorView::InvalidTrack { side, track, max: pred(self.spec.num_sides) }
        } else if track >= self.disks[side as int].tracks.len() {
            ErrorView::InvalidTrack { side, track, max: pred(self.spec.num_tracks) }
        } else {
            ErrorView::InvalidSector { side, track, id }
        }
    }

    /// The data of a sector, or why it cannot be read.
    pub open spec fn read(self, side: u8, track: u8, id: u8) -> Result<Seq<u8>, ErrorView> {
        match self.sector(side as int, track as int, id) {
            Some(s) => Ok(s.data),
            None => Err(self.missing(side, track, id)),
        }
    }

    /// The image with other data in one sector.
    pub open spec fn with_data(self, side: int, track: int, sector: int, data: Seq<u8>) -> ImageView {
        ImageView {
            disks: self.disks.update(side, self.disks[side].with_data(track, sector, data)),
            ..self
        }
    }

    /// The image after a sector has been written, or why it cannot be.
    pub open spec fn write(self, side: u8, track: u8, id: u8, data: Seq<u8>) -> Result<ImageView, ErrorView> {
        match self.sector(side as int, track as int, id) {
            Some(_) => Ok(
                ImageView { changed: true, ..self }.with_data(
                    side as int,
                    track as int,
                    self.disks[side as int].tracks[track as int].find(id).unwrap(),
                    data,
                ),
            ),
            None => Err(self.missing(side, track, id)),
        }
    }

    /// The largest number of tracks on any of the first `n` sides.
    pub open spec fn max_tracks(self, n: int) -> int
        decreases n,
    {
        if n <= 0 {
            0
        } else if self.disks[n - 1].tracks.len() > self.max_tracks(n - 1) {
            self.disks[n - 1].tracks.len() as int
        } else {
            self.max_tracks(n - 1)
        }
    }

    /// The data of track `t` on the first `n` sides, where it exists.
    pub open spec fn row_to(self, t: int, n: int) -> Seq<u8>
        decreases n,
    {
        if n <= 0 {
            Seq::empty()
        } else {
            self.row_to(t, n - 1) + (match self.disks[n - 1].track(t % 256) {
                Some(tr) => tr.logical(),
                None => Seq::empty(),
            })
        }
    }

    /// The data of the first `n` tracks, side by side.
    pub open spec fn rows_to(self, n: int) -> Seq<u8>
        decreases n,
    {
        if n <= 0 {
            Seq::empty()
        } else {
            self.rows_to(n - 1) + self.row_to(n - 1, self.disks.len() as int)
        }
    }

    /// The data of the first `n` sides, one after the other.
    pub open spec fn sides_to(self, n: int) -> Seq<u8>
        decreases n,
    {
        if n <= 0 {
            Seq::empty()
        } else {
            self.sides_to(n - 1) + self.disks[n - 1].logical_to(self.disks[n - 1].tracks.len() as int)
        }
    }

    /// The whole disk in logical order: sectors by their ID numbers, tracks as the side
    /// mode has them.
    pub open spec fn logical(self) -> Seq<u8> {
        match self.spec.side_mode {
            SideMode::SingleSide => self.sides_to(if self.disks.len() > 0 { 1 } else { 0 }),
            SideMode::Alternate => self.rows_to(self.max_tracks(self.disks.len() as int)),
            SideMode::Successive => self.sides_to(self.disks.len() as int),
        }
    }
}

impl Clone for DiskImage {
    fn clone(&self) -> (r: Self)
        ensures
            r@ == self@,
    {
        let mut disks: Vec<Disk> = Vec::new();
        let mut i: usize = 0;
        while i < self.disks.len()
            invariant
                i <= self.disks@.len(),
                disks@.len() == i,
                forall|k: int| 0 <= k < i ==> (#[trigger] disks@[k])@ == self.disks@[k]@,
            decreases self.disks@.len() - i,
        {
            disks.push(self.disks[i].clone());
            i = i + 1;
        }
        assert(disk_views(disks@) =~= disk_views(self.disks@));
        let mut warnings: Vec<String> = Vec::new();
        let mut j: usize = 0;
        while j < self.warnings.len()
            invariant
                j <= self.warnings@.len(),
                warnings@.len() == j,
                forall|k: int| 0 <= k < j ==> (#[trigger] warnings@[k])@ == self.warnings@[k]@,
            decreases self.warnings@.len() - j,
        {
            warnings.push(self.warnings[j].clone());
            j = j + 1;
        }
        assert(string_views(warnings@) =~= string_views(self.warnings@));
        let filename = match &self.filename {
            Some(name) => Some(name.clone()),
            None => None,
        };
        DiskImage {
            format: self.format,
            spec: self.spec,
            disks,
            changed: self.changed,
            filename,
            warnings,
        }
    }
}

impl DiskImage {
    /// An image with the given parts.
    pub fn from_parts(
        format: DiskImageFormat,
        spec: FormatSpec,
        disks: Vec<Disk>,
        changed: bool,
        filename: Option<String>,
        warnings: Vec<String>,
    ) -> (image: DiskImage)
        ensures
            image@ == (ImageView {
                format,
                spec,
                disks: disk_views(disks@),
                changed,
                filename: option_view(filename),
                warnings: string_views(warnings@),
            }),
    {
        DiskImage { format, spec, disks, changed, filename, warnings }
    }

    /// A freshly formatted image of the given geometry.
    pub fn create(spec: FormatSpec) -> (r: Result<DiskImage, DskError>)
        ensures
            match r {
                Ok(image) => builder::built(DiskImageFormat::StandardDSK, spec) == Ok::<ImageView, ErrorView>(image@),
                Err(e) => builder::built(DiskImageFormat::StandardDSK, spec) == Err::<ImageView, ErrorView>(e@),
            },
    {
        DiskImageBuilder::new().spec(spec).build()
    }

    /// A builder for images.
    pub fn builder() -> (b: DiskImageBuilder)
        ensures
            b.chosen_format() == DiskImageFormat::StandardDSK,
            b.chosen_spec() == builder::default_spec(),
    {
        DiskImageBuilder::new()
    }

    /// The kind of image file.
    pub fn format(&self) -> (f: DiskImageFormat)
        ensures
            f == self@.format,
    {
        self.format
    }

    /// The geometry of the image.
    pub fn spec(&self) -> (s: &FormatSpec)
        ensures
            *s == self@.spec,
    {
        &self.spec
    }

    /// The name of the file that the image was read from.
    pub fn filename(&self) -> (r: Option<&str>)
        ensures
            match r {
                Some(s) => self@.filename == Some(s@),
                None => self@.filename is None,
            },
    {
        match &self.filename {
            Some(name) => Some(name.as_str()),
            None => None,
        }
    }

    /// What was amiss, but not fatal, when the image was read.
    pub fn warnings(&self) -> (w: &[String])
        ensures
            string_views(w@) == self@.warnings,
    {
        self.warnings.as_slice()
    }

    /// The sides of the image.
    pub fn disks(&self) -> (d: &[Disk])
        ensures
            disk_views(d@) == self@.disks,
            d@.len() == self@.disks.len(),
    {
        self.disks.as_slice()
    }

    /// The sides of the image, to be changed; the image counts as changed.
    pub fn disks_mut(&mut self) -> (d: &mut [Disk])
        ensures
            disk_views(d@) == old(self)@.disks,
            final(self)@ == (ImageView {
                disks: disk_views(final(d)@),
                changed: true,
                ..old(self)@
            }),
    {
        self.changed = true;
        self.disks.as_mut_slice()
    }

    /// One side of the image.
    pub fn get_disk(&self, side: u8) -> (r: Option<&Disk>)
        ensures
            match r {
                Some(d) => side < self@.disks.len() && d@ == self@.disks[side as int],
                None => side >= self@.disks.len(),
            },
    {
        if (side as usize) < self.disks.len() {
            assert(self@.disks[side as int] == self.disks@[side as int]@);
            Some(&self.disks[side as usize])
        } else {
            None
        }
    }

    /// One side of the image, to be changed; the image counts as changed.
    pub fn get_disk_mut(&mut self, side: u8) -> (r: Option<&mut Disk>)
        ensures
            match r {
                Some(d) => {
                    &&& side < old(self)@.disks.len()
                    &&& d@ == old(self)@.disks[side as int]
                    &&& final(self)@ == (ImageView {
                        disks: old(self)@.disks.update(side as int, final(d)@),
                        changed: true,
                        ..old(self)@
                    })
                },
                None => {
                    &&& side >= old(self)@.disks.len()
                    &&& final(self)@ == (ImageView { changed: true, ..old(self)@ })
                },
            },
    {
        self.changed = true;
        if (side as usize) < self.disks.len() {
            assert(self@.disks[side as int] == self.disks@[side as int]@);
            let d = &mut self.disks[side as usize];
            assert(disk_views(after_borrow(self).disks@) =~= disk_views(old(self).disks@).update(side as int, final(d)@));
            Some(d)
        } else {
            None
        }
    }

    /// The number of sides.
    pub fn disk_count(&self) -> (n: usize)
        ensures
            n == self@.disks.len(),
    {
        self.disks.len()
    }

    /// The data of the first sector with the given ID number on a track.
    pub fn read_sector(&self, side: u8, track: u8, sector_id: u8) -> (r: Result<&[u8], DskError>)
        ensures
            match r {
                Ok(d) => self@.read(side, track, sector_id) == Ok::<Seq<u8>, ErrorView>(d@),
                Err(e) => self@.read(side, track, sector_id) == Err::<Seq<u8>, ErrorView>(e@),
            },
    {
        match self.get_disk(side) {
            None => Err(
                DskError::InvalidTrack { side, track, max: self.spec.num_sides.saturating_sub(1) },
            ),
            Some(disk) => match disk.get_track(track) {
                None => Err(
                    DskError::InvalidTrack { side, track, max: self.spec.num_tracks.saturating_sub(1) },
                ),
                Some(t) => match t.get_sector(sector_id) {
                    None => Err(DskError::InvalidSector { side, track, id: sector_id }),
                    Some(sector) => Ok(sector.data()),
                },
            },
        }
    }

    /// Replaces the data of the first sector with the given ID number on a track. The
    /// image counts as changed even if there is no such sector.
    pub fn write_sector(&mut self, side: u8, track: u8, sector_id: u8, data: &[u8]) -> (r: Result<(), DskError>)
        ensures
            match r {
                Ok(()) => old(self)@.write(side, track, sector_id, data@) == Ok::<ImageView, ErrorView>(final(self)@),
                Err(e) => {
                    &&& old(self)@.write(side, track, sector_id, data@) == Err::<ImageView, ErrorView>(e@)
                    &&& final(self)@ == (ImageView { changed: true, ..old(self)@ })
                },
            },
            laws::same_layout(old(self)@, final(self)@),
    {
        proof {
            laws::lemma_same_layout_reflexive(self@);
        }
        self.changed = true;
        if side as usize >= self.disks.len() {
            return Err(
                DskError::InvalidTrack { side, track, max: self.spec.num_sides.saturating_sub(1) },
            );
        }
        assert(self@.disks[side as int] == self.disks@[side as int]@);
        let found = match self.disks[side as usize].get_track(track) {
            None => {
                return Err(
                    DskError::InvalidTrack { side, track, max: self.spec.num_tracks.saturating_sub(1) },
                );
            },
            Some(t) => t.find(sector_id),
        };
        match found {
            None => Err(DskError::InvalidSector { side, track, id: sector_id }),
            Some(i) => {
                self.disks[side as usize].set_data(track as usize, i, data);
                assert(self@.disks =~= old(self)@.with_data(side as int, track as int, i as int, data@).disks);
                proof {
                    laws::law_write_keeps_layout(old(self)@, self@, side, track, sector_id, data@);
                }
                Ok(())
            },
        }
    }

    /// Whether the image has been changed.
    pub fn is_changed(&self) -> (b: bool)
        ensures
            b == self@.changed,
    {
        self.changed
    }

    /// Lets the image count as a file of another kind.
    fn set_format(&mut self, format: DiskImageFormat)
        ensures
            final(self)@ == (ImageView { format, ..old(self)@ }),
    {
        self.format = format;
    }

    /// Lets the image count as unchanged.
    pub fn mark_unchanged(&mut self)
        ensures
            final(self)@ == (ImageView { changed: false, ..old(self)@ }),
    {
        self.changed = false;
    }

    /// The capacity of the disk in bytes.
    pub fn total_capacity(&self) -> (n: usize)
        requires
            self@.spec.capacity() <= usize::MAX,
        ensures
            n == self@.spec.capacity(),
    {
        self.spec.total_capacity()
    }

    /// The whole disk in logical order.
    pub fn read_logical(&self) -> (data: Vec<u8>)
        ensures
            data@ == self@.logical(),
    {
        let mut data: Vec<u8> = Vec::new();
        match self.spec.side_mode {
            SideMode::SingleSide => {
                if self.disks.len() > 0 {
                    assert(self@.disks[0] == self.disks@[0]@);
                    self.disks[0].read_logical(&mut data);
                    reveal_with_fuel(ImageView::sides_to, 2);
                    assert(data@ =~= self@.sides_to(1));
                }
            },
            SideMode::Alternate => {
                let mut max_tracks: usize = 0;
                let mut i: usize = 0;
                while i < self.disks.len()
                    invariant
                        i <= self.disks@.len(),
                        max_tracks == self@.max_tracks(i as int),
                    decreases self.disks@.len() - i,
                {
                    assert(self@.disks[i as int] == self.disks@[i as int]@);
                    let n = self.disks[i].track_count();
                    if n > max_tracks {
                        max_tracks = n;
                    }
                    i = i + 1;
                }
                let mut t: usize = 0;
                while t < max_tracks
                    invariant
                        t <= max_tracks,
                        data@ == self@.rows_to(t as int),
                    decreases max_tracks - t,
                {
                    let ghost start = data@;
                    let mut s: usize = 0;
                    assert(data@ =~= start + self@.row_to(t as int, 0));
                    while s < self.disks.len()
                        invariant
                            s <= self.disks@.len(),
                            data@ == start + self@.row_to(t as int, s as int),
                        decreases self.disks@.len() - s,
                    {
                        assert(self@.disks[s as int] == self.disks@[s as int]@);
                        let number: u8 = (t % 256) as u8;
                        if let Some(track) = self.disks[s].get_track(number) {
                            track.read_logical(&mut data);
                        }
                        assert(data@ =~= start + self@.row_to(t as int, s + 1));
                        s = s + 1;
                    }
                    t = t + 1;
                }
            },
            SideMode::Successive => {
                let mut s: usize = 0;
                while s < self.disks.len()
                    invariant
                        s <= self.disks@.len(),
                        data@ == self@.sides_to(s as int),
                    decreases self.disks@.len() - s,
                {
                    assert(self@.disks[s as int] == self.disks@[s as int]@);
                    self.disks[s].read_logical(&mut data);
                    s = s + 1;
                }
            },
        }
        data
    }
}

}
