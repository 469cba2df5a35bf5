//! Opening and saving image files. What is read and written comes from the caller.

use crate::error::{DskError, ErrorView};
use crate::format::DiskImageFormat;
use crate::image;
use crate::image::disk::Disk;
use crate::image::track::{Track, TrackView};
use crate::image::{DiskImage, ImageView};
use crate::io::paths;
use crate::io::paths::FileKind;
use crate::io::td0_reader;
use crate::text;
use vstd::prelude::*;

verus! {

/// Whether the sector with the given ID number is there, has the given size, and says so.
pub open spec fn raw_sector(t: TrackView, id: u8, size: int) -> bool {
    t.find(id) matches Some(i) && t.sectors[i].data.len() == size && crate::format::coded_size(
        t.sectors[i].id.size_code,
    ) == size
}

/// Whether a track has the sectors 1 to `sectors`, all of the given size.
pub open spec fn raw_track(t: TrackView, sectors: u8, size: int) -> bool {
    &&& t.sectors.len() == sectors
    &&& forall|id: u8| 1 <= id <= sectors ==> #[trigger] raw_sector(t, id, size)
}

/// Whether an image can be written as a plain sequence of sectors.
pub open spec fn raw_geometry(image: ImageView, sides: u8, tracks: u8, sectors: u8, size: int) -> bool {
    &&& image.disks.len() == sides
    &&& image.spec.num_sides == sides
    &&& image.spec.num_tracks == tracks
    &&& forall|s: int| 0 <= s < image.disks.len() ==> (#[trigger] image.disks[s]).tracks.len() == tracks
    &&& forall|s: int, t: int|
        0 <= s < image.disks.len() && 0 <= t < image.disks[s].tracks.len() ==> raw_track(
            #[trigger] image.disks[s].tracks[t],
            sectors,
            size,
        )
}

/// Why an image cannot be written as a plain sequence of sectors.
pub open spec fn not_raw() -> ErrorView {
    ErrorView::InvalidFormat("Image geometry cannot be represented in the requested raw format"@)
}

/// The format in which an image is written to a path that does not end in `.json`, or why it
/// cannot be.
pub open spec fn sector_format(image: ImageView, path: Seq<char>) -> Result<DiskImageFormat, ErrorView> {
    if paths::has_extension(path, "mgt"@) {
        if raw_geometry(image, 2, 80, 10, 512) {
            Ok(DiskImageFormat::RawMgt)
        } else {
            Err(not_raw())
        }
    } else if paths::has_extension(path, "trd"@) {
        if image.spec.num_tracks == 0 || image.spec.num_tracks > 80 {
            Err(ErrorView::InvalidFormat("TRD requires 1 to 80 tracks per side"@))
        } else if raw_geometry(image, image.spec.num_sides, image.spec.num_tracks, 16, 256) {
            Ok(DiskImageFormat::RawTrd)
        } else {
            Err(not_raw())
        }
    } else if paths::has_extension(path, "td0"@) {
        if image.disks.len() == 0 || image.disks.len() > 2 {
            Err(ErrorView::InvalidFormat("TD0 requires one or two sides"@))
        } else {
            Ok(DiskImageFormat::RawTd0)
        }
    } else if paths::has_extension(path, "dsk"@) {
        match image.format {
            DiskImageFormat::StandardDSK => Ok(DiskImageFormat::StandardDSK),
            _ => Ok(DiskImageFormat::ExtendedDSK),
        }
    } else {
        Ok(image.format)
    }
}

/// What is written to a path: sectors in some format, or JSON.
pub open spec fn target(image: ImageView, path: Seq<char>) -> Result<Option<DiskImageFormat>, ErrorView> {
    if paths::has_extension(path, "json"@) {
        Ok(None)
    } else {
        match sector_format(image, path) {
            Ok(f) => Ok(Some(f)),
            Err(e) => Err(e),
        }
    }
}

fn is_raw_track(track: &Track, sectors: u8, size: usize) -> (b: bool)
    ensures
        b == raw_track(track@, sectors, size as int),
{
    if track.sector_count() != sectors as usize {
        return false;
    }
    let mut id: u16 = 1;
    while id <= sectors as u16
        invariant
            1 <= id <= sectors + 1,
            forall|k: u8| 1 <= k < id ==> #[trigger] raw_sector(track@, k, size as int),
        decreases sectors + 1 - id,
    {
        let fits = match track.get_sector(id as u8) {
            Some(s) => s.data().len() == size && s.advertised_size() == size,
            None => false,
        };
        assert(fits == raw_sector(track@, id as u8, size as int));
        if !fits {
            return false;
        }
        id = id + 1;
    }
    true
}

fn is_raw_disk(disk: &Disk, tracks: u8, sectors: u8, size: usize) -> (b: bool)
    ensures
        b == (disk@.tracks.len() == tracks && forall|t: int|
            0 <= t < disk@.tracks.len() ==> raw_track(#[trigger] disk@.tracks[t], sectors, size as int)),
{
    if disk.track_count() != tracks as usize {
        return false;
    }
    let list = disk.tracks();
    let mut t: usize = 0;
    while t < list.len()
        invariant
            t <= list@.len() == disk@.tracks.len(),
            crate::image::disk::track_views(list@) == disk@.tracks,
            forall|k: int| 0 <= k < t ==> raw_track(#[trigger] disk@.tracks[k], sectors, size as int),
        decreases list@.len() - t,
    {
        assert(disk@.tracks[t as int] == list@[t as int]@);
        if !is_raw_track(&list[t], sectors, size) {
            return false;
        }
        t = t + 1;
    }
    true
}

impl DiskImage {
    /// Opens an image file with the given contents: TeleDisk files are read here. `None` is
    /// returned for files of other kinds, which have readers of their own.
    pub fn open(path: &str, contents: &[u8]) -> (r: Option<Result<DiskImage, DskError>>)
        ensures
            match r {
                Some(Ok(image)) => paths::kind_of(path@) == FileKind::Td0 && td0_reader::td0_image(
                    contents@,
                    paths::file_name(path@),
                ) == Ok::<ImageView, ErrorView>(image@),
                Some(Err(e)) => paths::kind_of(path@) == FileKind::Td0 && td0_reader::td0_image(
                    contents@,
                    paths::file_name(path@),
                ) == Err::<ImageView, ErrorView>(e@),
                None => paths::kind_of(path@) != FileKind::Td0,
            },
    {
        match FileKind::of(path) {
            FileKind::Td0 => {
                let filename = match paths::name_of(path) {
                    Some(name) => Some(text::string_of(&name)),
                    None => None,
                };
                Some(td0_reader::read_td0(contents, filename))
            },
            _ => None,
        }
    }

    /// Checks that the image can be written as a plain sequence of sectors.
    pub fn validate_raw_geometry(&self, sides: u8, tracks: u8, sectors: u8, size: usize) -> (r: Result<(), DskError>)
        ensures
            match r {
                Ok(()) => raw_geometry(self@, sides, tracks, sectors, size as int),
                Err(e) => !raw_geometry(self@, sides, tracks, sectors, size as int) && e@ == not_raw(),
            },
    {
        let disks = self.disks();
        let mut valid = disks.len() == sides as usize && self.spec().num_sides == sides && self.spec().num_tracks == tracks;
        let mut s: usize = 0;
        while valid && s < disks.len()
            invariant
                s <= disks@.len() == self@.disks.len(),
                image::disk_views(disks@) == self@.disks,
                valid ==> self@.disks.len() == sides && self@.spec.num_sides == sides && self@.spec.num_tracks == tracks,
                valid ==> forall|k: int| 0 <= k < s ==> (#[trigger] self@.disks[k]).tracks.len() == tracks,
                valid ==> forall|k: int, t: int|
                    0 <= k < s && 0 <= t < self@.disks[k].tracks.len() ==> raw_track(
                        #[trigger] self@.disks[k].tracks[t],
                        sectors,
                        size as int,
                    ),
                !valid ==> !raw_geometry(self@, sides, tracks, sectors, size as int),
            decreases disks@.len() - s, (if valid { 1int } else { 0 }),
        {
            assert(self@.disks[s as int] == disks@[s as int]@);
            if is_raw_disk(&disks[s], tracks, sectors, size) {
                s = s + 1;
            } else {
                valid = false;
            }
        }
        if valid {
            Ok(())
        } else {
            Err(DskError::invalid_format("Image geometry cannot be represented in the requested raw format"))
        }
    }

    /// Decides what is written to a path: sectors in some format, or JSON (`None`).
    pub fn output_format(&self, path: &str) -> (r: Result<Option<DiskImageFormat>, DskError>)
        ensures
            match r {
                Ok(f) => target(self@, path@) == Ok::<Option<DiskImageFormat>, ErrorView>(f),
                Err(e) => target(self@, path@) == Err::<Option<DiskImageFormat>, ErrorView>(e@),
            },
    {
        if paths::ends_in(path, "json") {
            Ok(None)
        } else if paths::ends_in(path, "mgt") {
            match self.validate_raw_geometry(2, 80, 10, 512) {
                Ok(()) => Ok(Some(DiskImageFormat::RawMgt)),
                Err(e) => Err(e),
            }
        } else if paths::ends_in(path, "trd") {
            let spec = *self.spec();
            if spec.num_tracks == 0 || spec.num_tracks > 80 {
                return Err(DskError::invalid_format("TRD requires 1 to 80 tracks per side"));
            }
            match self.validate_raw_geometry(spec.num_sides, spec.num_tracks, 16, 256) {
                Ok(()) => Ok(Some(DiskImageFormat::RawTrd)),
                Err(e) => Err(e),
            }
        } else if paths::ends_in(path, "td0") {
            if self.disk_count() == 0 || self.disk_count() > 2 {
                return Err(DskError::invalid_format("TD0 requires one or two sides"));
            }
            Ok(Some(DiskImageFormat::RawTd0))
        } else if paths::ends_in(path, "dsk") {
            match self.format() {
                DiskImageFormat::StandardDSK => Ok(Some(DiskImageFormat::StandardDSK)),
                _ => Ok(Some(DiskImageFormat::ExtendedDSK)),
            }
        } else {
            Ok(Some(self.format()))
        }
    }

    /// Concludes the writing of the image to a path, in the format that `output_format` gives:
    /// once it has been written, the image has that format and counts as unchanged. An image
    /// that cannot be written to the path, or was not, stays as it is.
    pub fn save(&mut self, path: &str, written: Result<(), DskError>) -> (r: Result<(), DskError>)
        ensures
            match (target(old(self)@, path@), written) {
                (Err(e), _) => {
                    &&& r matches Err(d) && d@ == e
                    &&& final(self)@ == old(self)@
                },
                (Ok(_), Err(e)) => {
                    &&& r == Err::<(), DskError>(e)
                    &&& final(self)@ == old(self)@
                },
                (Ok(f), Ok(())) => {
                    &&& r is Ok
                    &&& final(self)@ == (ImageView {
                        format: match f {
                            Some(f) => f,
                            None => old(self)@.format,
                        },
                        changed: false,
                        ..old(self)@
                    })
                },
            },
    {
        let format = match self.output_format(path) {
            Ok(Some(f)) => f,
            Ok(None) => self.format(),
            Err(e) => {
                return Err(e);
            },
        };
        match written {
            Err(e) => Err(e),
            Ok(()) => {
                self.set_format(format);
                self.mark_unchanged();
                Ok(())
            },
        }
    }
}

}
