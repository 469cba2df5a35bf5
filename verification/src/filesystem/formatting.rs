//! Setting up empty filesystems.

use crate::error::{DskError, ErrorView};
use crate::filesystem::cpm_edit;
use crate::filesystem::edit;
use crate::format::{FileSystemType, FormatSpec, SideMode};
use crate::image::disk::DiskView;
use crate::image::track::TrackView;
use crate::image::{DiskImage, ImageView};
use crate::specification;
use crate::specification::DiskSpecification;
use vstd::prelude::*;

verus! {

/// A sector (its side, its track and its ID number) and the length of its data.
pub type Place = (u8, u8, u8, int);

/// A sector and the length of its data.
type FoundPlace = (u8, u8, u8, usize);

/// The values of a list of sectors.
spec fn place_views(s: Seq<FoundPlace>) -> Seq<Place> {
    Seq::new(s.len(), |i: int| (s[i].0, s[i].1, s[i].2, s[i].3 as int))
}

/// The first `n` sectors of a track. Sides and tracks are addressed by one byte each.
pub open spec fn sectors_to(side: int, track: int, t: TrackView, n: int) -> Seq<Place>
    decreases n,
{
    if n <= 0 {
        Seq::empty()
    } else {
        sectors_to(side, track, t, n - 1).push(
            ((side % 256) as u8, (track % 256) as u8, t.sectors[n - 1].id.sector, t.sectors[n - 1].data.len() as int),
        )
    }
}

/// The sectors of the first `n` tracks of a side.
pub open spec fn tracks_to(side: int, d: DiskView, n: int) -> Seq<Place>
    decreases n,
{
    if n <= 0 {
        Seq::empty()
    } else {
        tracks_to(side, d, n - 1) + sectors_to(side, n - 1, d.tracks[n - 1], d.tracks[n - 1].sectors.len() as int)
    }
}

/// The sectors of the first `n` sides.
pub open spec fn sides_to(image: ImageView, n: int) -> Seq<Place>
    decreases n,
{
    if n <= 0 {
        Seq::empty()
    } else {
        sides_to(image, n - 1) + tracks_to(n - 1, image.disks[n - 1], image.disks[n - 1].tracks.len() as int)
    }
}

/// All sectors of an image.
pub open spec fn all_sectors(image: ImageView) -> Seq<Place> {
    sides_to(image, image.disks.len() as int)
}

/// A sector full of one byte.
pub open spec fn filler(size: int, b: u8) -> Seq<u8> {
    Seq::new(size as nat, |i: int| b)
}

/// The image after the first `n` of the given sectors have been filled, or why one cannot be.
pub open spec fn filled_to(image: ImageView, places: Seq<Place>, size: int, b: u8, n: int) -> Result<ImageView, ErrorView>
    decreases n,
{
    if n <= 0 {
        Ok(image)
    } else {
        match filled_to(image, places, size, b, n - 1) {
            Err(e) => Err(e),
            Ok(i) => {
                let p = places[n - 1];
                if p.3 != size {
                    Err(ErrorView::Filesystem("Sector geometry does not match filesystem"@))
                } else {
                    i.write(p.0, p.1, p.2, filler(size, b))
                }
            },
        }
    }
}

/// The image with all sectors filled; they must all have the same size.
pub open spec fn filled(image: ImageView, size: int, b: u8) -> Result<ImageView, ErrorView> {
    filled_to(image, all_sectors(image), size, b, all_sectors(image).len() as int)
}

/// The CP/M layout that a disk gets.
pub open spec fn cpm_layout(image: ImageView) -> DiskSpecification {
    let spec = specification::identified(image);
    if image.disks.len() == 2 && image.spec.first_sector_id == 1 {
        DiskSpecification { side: specification::layout_of(image.spec.side_mode), ..spec }
    } else {
        spec
    }
}

/// The image after the first `n` logical sectors from `first` on have been marked as free
/// directory entries.
pub open spec fn erased_to(image: ImageView, spec: DiskSpecification, first: int, n: int) -> Result<ImageView, ErrorView>
    decreases n,
{
    if n <= 0 {
        Ok(image)
    } else {
        match erased_to(image, spec, first, n - 1) {
            Err(e) => Err(e),
            Ok(i) => match cpm_edit::address(i, spec, first + n - 1) {
                Err(e) => Err(e),
                Ok(a) => i.write(a.0, a.1, a.2, filler(spec.sector_size as int, 0xE5)),
            },
        }
    }
}

/// The number of a side mode in a boot record.
pub open spec fn mode_number(mode: SideMode) -> u8 {
    match mode {
        SideMode::SingleSide => 0,
        SideMode::Alternate => 1,
        SideMode::Successive => 2,
    }
}

/// The boot record that tells the layout of a disk.
pub open spec fn boot_bytes(spec: DiskSpecification, mode: SideMode, b: u8) -> Seq<u8> {
    Seq::new(
        spec.sector_size as nat,
        |i: int|
            if i == 0 {
                0u8
            } else if i == 1 {
                mode_number(mode)
            } else if i == 2 {
                spec.tracks_per_side
            } else if i == 3 {
                spec.sectors_per_track
            } else if i == 4 {
                spec.fdc_sector_size
            } else if i == 5 {
                spec.reserved_tracks
            } else if i == 6 {
                spec.block_shift
            } else if i == 7 {
                spec.directory_blocks
            } else if i == 8 {
                spec.gap_read_write
            } else if i == 9 {
                spec.gap_format
            } else {
                b
            },
    )
}

/// The image with an empty CP/M directory, before it gets a boot record.
pub open spec fn cpm_emptied(image: ImageView) -> Result<ImageView, ErrorView> {
    let spec = cpm_layout(image);
    let size = spec.directory_blocks * spec.block_bytes();
    if spec.sector_size == 0 || spec.sectors_per_track != image.spec.sectors_per_track || spec.tracks_per_side
        != image.spec.num_tracks || spec.directory_blocks == 0 {
        Err(ErrorView::Filesystem("Unrecognized CP/M disk geometry"@))
    } else {
        match filled(image, spec.sector_size as int, image.spec.filler_byte) {
            Err(e) => Err(e),
            Ok(i) => if size % (spec.sector_size as int) != 0 {
                Err(ErrorView::Filesystem("Invalid CP/M directory size"@))
            } else {
                erased_to(i, spec, spec.first_sector(), size / (spec.sector_size as int))
            },
        }
    }
}

/// The image with an empty CP/M filesystem, or why it cannot have one.
pub open spec fn cpm_formatted(image: ImageView) -> Result<ImageView, ErrorView> {
    match cpm_emptied(image) {
        Err(e) => Err(e),
        Ok(i) => if image.spec.first_sector_id == 1 {
            i.write(0, 0, 1, boot_bytes(cpm_layout(image), image.spec.side_mode, image.spec.filler_byte))
        } else {
            Ok(i)
        },
    }
}

/// Whether an image has the geometry of an MGT disk.
pub open spec fn mgt_geometry(image: ImageView) -> bool {
    &&& image.disks.len() == 2
    &&& image.spec.num_tracks == 80
    &&& image.spec.sectors_per_track == 10
    &&& image.spec.sector_size == 512
    &&& image.spec.first_sector_id == 1
}

/// The image with an empty MGT filesystem, or why it cannot have one.
pub open spec fn mgt_formatted(image: ImageView) -> Result<ImageView, ErrorView> {
    if mgt_geometry(image) {
        filled(image, 512, 0)
    } else {
        Err(ErrorView::Filesystem("MGT requires 2 sides, 80 tracks, 10x512-byte sectors"@))
    }
}

/// Whether an image has the geometry of a TR-DOS disk.
pub open spec fn trdos_geometry(image: ImageView) -> bool {
    &&& image.spec.num_tracks == 40 || image.spec.num_tracks == 80
    &&& image.spec.num_sides == 1 || image.spec.num_sides == 2
    &&& image.disks.len() == image.spec.num_sides
    &&& image.spec.sectors_per_track == 16
    &&& image.spec.sector_size == 256
    &&& image.spec.first_sector_id == 1
}

/// The type of a TR-DOS disk in its catalog.
pub open spec fn trdos_type(spec: FormatSpec) -> u8 {
    if spec.num_tracks == 80 {
        if spec.num_sides == 2 { 0x16 } else { 0x17 }
    } else {
        if spec.num_sides == 1 { 0x18 } else { 0x19 }
    }
}

/// The number of free sectors on an empty TR-DOS disk.
pub open spec fn trdos_free(spec: FormatSpec) -> int {
    (spec.num_tracks * spec.num_sides - 1) * 16
}

/// The catalog of an empty TR-DOS disk.
pub open spec fn empty_catalog(spec: FormatSpec) -> Seq<u8> {
    Seq::new(
        256,
        |i: int|
            if i == 226 {
                1u8
            } else if i == 227 {
                trdos_type(spec)
            } else if i == 229 {
                (trdos_free(spec) % 256) as u8
            } else if i == 230 {
                (trdos_free(spec) / 256) as u8
            } else if i == 231 {
                0x10u8
            } else {
                0u8
            },
    )
}

/// The image with an empty TR-DOS filesystem, or why it cannot have one.
pub open spec fn trdos_formatted(image: ImageView) -> Result<ImageView, ErrorView> {
    if trdos_geometry(image) {
        match filled(image, 256, 0) {
            Err(e) => Err(e),
            Ok(i) => i.write(0, 0, 9, empty_catalog(image.spec)),
        }
    } else {
        Err(ErrorView::Filesystem("TR-DOS requires 40/80 tracks, 1/2 sides, 16x256-byte sectors"@))
    }
}

/// The image with an empty filesystem, or why it cannot have one.
pub open spec fn formatted(image: ImageView, fs: FileSystemType) -> Result<ImageView, ErrorView> {
    match edit::chosen(image, fs) {
        FileSystemType::Mgt => mgt_formatted(image),
        FileSystemType::Trdos => trdos_formatted(image),
        _ => cpm_formatted(image),
    }
}

/// Whether a boot record, where the disk gets one, fits into a sector.
pub open spec fn boot_fits(image: ImageView) -> bool {
    image.spec.first_sector_id == 1 && cpm_emptied(image) is Ok ==> cpm_layout(image).sector_size >= 10
}

/// Collects the sectors of a track.
fn collect_sectors(image: &DiskImage, places: &mut Vec<FoundPlace>, side: usize, track: usize)
    requires
        side < image@.disks.len(),
        track < image@.disks[side as int].tracks.len(),
    ensures
        ({
            let t = image@.disks[side as int].tracks[track as int];
            place_views(final(places)@) == place_views(old(places)@) + sectors_to(side as int, track as int, t, t.sectors.len() as int)
        }),
{
    let ghost d = image@.disks[side as int];
    let ghost t = d.tracks[track as int];
    let disks = image.disks();
    assert(crate::image::disk_views(disks@)[side as int] == disks@[side as int]@);
    let tracks = disks[side].tracks();
    assert(crate::image::disk::track_views(tracks@)[track as int] == tracks@[track as int]@);
    let sectors = tracks[track].sectors();
    let mut i: usize = 0;
    assert(place_views(places@) =~= place_views(old(places)@) + sectors_to(side as int, track as int, t, 0));
    while i < sectors.len()
        invariant
            i <= sectors@.len() == t.sectors.len(),
            crate::image::track::sector_views(sectors@) == t.sectors,
            place_views(places@) == place_views(old(places)@) + sectors_to(side as int, track as int, t, i as int),
        decreases sectors@.len() - i,
    {
        assert(t.sectors[i as int] == sectors@[i as int]@);
        let ghost before = places@;
        let place = ((side % 256) as u8, (track % 256) as u8, sectors[i].number(), sectors[i].data().len());
        places.push(place);
        assert(place_views(places@) =~= place_views(before).push((place.0, place.1, place.2, place.3 as int)));
        assert(place_views(places@) =~= place_views(old(places)@) + sectors_to(side as int, track as int, t, i + 1));
        i = i + 1;
    }
}

/// Collects all sectors.
fn collect(image: &DiskImage) -> (places: Vec<FoundPlace>)
    ensures
        place_views(places@) == all_sectors(image@),
{
    let mut places: Vec<FoundPlace> = Vec::new();
    let sides = image.disk_count();
    let mut s: usize = 0;
    assert(place_views(places@) =~= sides_to(image@, 0));
    while s < sides
        invariant
            s <= sides == image@.disks.len(),
            place_views(places@) == sides_to(image@, s as int),
        decreases sides - s,
    {
        let disks = image.disks();
        let ghost d = image@.disks[s as int];
        assert(crate::image::disk_views(disks@)[s as int] == disks@[s as int]@);
        let tracks = disks[s].track_count();
        let ghost before = place_views(places@);
        let mut t: usize = 0;
        assert(place_views(places@) =~= before + tracks_to(s as int, d, 0));
        while t < tracks
            invariant
                s < image@.disks.len(),
                d == image@.disks[s as int],
                t <= tracks == d.tracks.len(),
                place_views(places@) == before + tracks_to(s as int, d, t as int),
            decreases tracks - t,
        {
            collect_sectors(image, &mut places, s, t);
            assert(place_views(places@) =~= before + tracks_to(s as int, d, t + 1));
            t = t + 1;
        }
        s = s + 1;
    }
    places
}

/// An error while the first sectors are filled is an error of the whole.
proof fn lemma_filled_stop(image: ImageView, places: Seq<Place>, size: int, b: u8, i: int, n: int)
    requires
        i <= n,
        filled_to(image, places, size, b, i) is Err,
    ensures
        filled_to(image, places, size, b, n) == filled_to(image, places, size, b, i),
    decreases n - i,
{
    if i < n {
        lemma_filled_stop(image, places, size, b, i, n - 1);
    }
}

/// Fills all sectors.
fn fill_image(image: &mut DiskImage, size: usize, b: u8) -> (r: Result<(), DskError>)
    ensures
        match r {
            Ok(()) => filled(old(image)@, size as int, b) == Ok::<ImageView, ErrorView>(final(image)@),
            Err(e) => filled(old(image)@, size as int, b) == Err::<ImageView, ErrorView>(e@),
        },
{
    let ghost before = image@;
    let places = collect(image);
    let ghost list = place_views(places@);
    let content: Vec<u8> = vec![b; size];
    assert(content@ =~= filler(size as int, b));
    let mut i: usize = 0;
    while i < places.len()
        invariant
            i <= places@.len(),
            before == old(image)@,
            content@ == filler(size as int, b),
            filled_to(before, list, size as int, b, i as int) == Ok::<ImageView, ErrorView>(image@),
            list == place_views(places@),
            list == all_sectors(before),
        decreases places@.len() - i,
    {
        let p = places[i];
        if p.3 != size {
            proof {
                lemma_filled_stop(before, list, size as int, b, i + 1, list.len() as int);
            }
            return Err(DskError::filesystem("Sector geometry does not match filesystem"));
        }
        match image.write_sector(p.0, p.1, p.2, content.as_slice()) {
            Ok(()) => {},
            Err(e) => {
                proof {
                    lemma_filled_stop(before, list, size as int, b, i + 1, list.len() as int);
                }
                return Err(e);
            },
        }
        i = i + 1;
    }
    Ok(())
}

/// An error while the first sectors are marked is an error of the whole.
proof fn lemma_erased_stop(image: ImageView, spec: DiskSpecification, first: int, i: int, n: int)
    requires
        i <= n,
        erased_to(image, spec, first, i) is Err,
    ensures
        erased_to(image, spec, first, n) == erased_to(image, spec, first, i),
    decreases n - i,
{
    if i < n {
        lemma_erased_stop(image, spec, first, i, n - 1);
    }
}

/// Marks the directory entries as free.
fn erase_directory(image: &mut DiskImage, spec: &DiskSpecification, first: usize, count: usize) -> (r: Result<(), DskError>)
    requires
        first <= 65025,
        count <= 4177920,
    ensures
        match r {
            Ok(()) => erased_to(old(image)@, *spec, first as int, count as int) == Ok::<ImageView, ErrorView>(final(image)@),
            Err(e) => erased_to(old(image)@, *spec, first as int, count as int) == Err::<ImageView, ErrorView>(e@),
        },
{
    let ghost before = image@;
    let content: Vec<u8> = vec![0xE5u8; spec.sector_size as usize];
    assert(content@ =~= filler(spec.sector_size as int, 0xE5));
    let mut i: usize = 0;
    while i < count
        invariant
            i <= count <= 4177920,
            first <= 65025,
            before == old(image)@,
            content@ == filler(spec.sector_size as int, 0xE5),
            erased_to(before, *spec, first as int, i as int) == Ok::<ImageView, ErrorView>(image@),
        decreases count - i,
    {
        let a = match cpm_edit::cpm_address(image, spec, first + i) {
            Ok(a) => a,
            Err(e) => {
                proof {
                    lemma_erased_stop(before, *spec, first as int, i + 1, count as int);
                }
                return Err(e);
            },
        };
        match image.write_sector(a.0, a.1, a.2, content.as_slice()) {
            Ok(()) => {},
            Err(e) => {
                proof {
                    lemma_erased_stop(before, *spec, first as int, i + 1, count as int);
                }
                return Err(e);
            },
        }
        i = i + 1;
    }
    Ok(())
}

/// The boot record that tells the layout of a disk.
fn boot_record(spec: &DiskSpecification, mode: SideMode, b: u8) -> (boot: Vec<u8>)
    requires
        spec.sector_size >= 10,
    ensures
        boot@ == boot_bytes(*spec, mode, b),
{
    let mut boot: Vec<u8> = vec![b; spec.sector_size as usize];
    boot.set(0, 0);
    boot.set(
        1,
        match mode {
            SideMode::SingleSide => 0,
            SideMode::Alternate => 1,
            SideMode::Successive => 2,
        },
    );
    boot.set(2, spec.tracks_per_side);
    boot.set(3, spec.sectors_per_track);
    boot.set(4, spec.fdc_sector_size);
    boot.set(5, spec.reserved_tracks);
    boot.set(6, spec.block_shift);
    boot.set(7, spec.directory_blocks);
    boot.set(8, spec.gap_read_write);
    boot.set(9, spec.gap_format);
    assert(boot@ =~= boot_bytes(*spec, mode, b));
    boot
}

/// Sets up an empty CP/M filesystem. After an error the image may be half-written.
fn format_cpm(image: &mut DiskImage) -> (r: Result<(), DskError>)
    requires
        boot_fits(old(image)@),
    ensures
        match r {
            Ok(()) => cpm_formatted(old(image)@) == Ok::<ImageView, ErrorView>(final(image)@),
            Err(e) => cpm_formatted(old(image)@) == Err::<ImageView, ErrorView>(e@),
        },
{
    let mut spec = DiskSpecification::identify(image);
    let physical = *image.spec();
    if image.disk_count() == 2 && physical.first_sector_id == 1 {
        spec.side = specification::layout_for(physical.side_mode);
    }
    assert(spec == cpm_layout(image@));
    let sector_size = spec.sector_size as usize;
    if sector_size == 0 || spec.sectors_per_track != physical.sectors_per_track || spec.tracks_per_side
        != physical.num_tracks || spec.directory_blocks == 0 {
        return Err(DskError::filesystem("Unrecognized CP/M disk geometry"));
    }
    match fill_image(image, sector_size, physical.filler_byte) {
        Ok(()) => {},
        Err(e) => {
            return Err(e);
        },
    }
    let block_size = spec.block_size();
    proof {
        specification::lemma_sector_bounds(spec);
        specification::lemma_small_product(spec.directory_blocks as int, 255, block_size as int, 16384);
    }
    let first: usize = spec.reserved_tracks as usize * spec.sectors_per_track as usize;
    let dir_size: usize = spec.directory_blocks as usize * block_size;
    if dir_size % sector_size != 0 {
        return Err(DskError::filesystem("Invalid CP/M directory size"));
    }
    assert(0 <= dir_size as int / sector_size as int <= dir_size) by (nonlinear_arith)
        requires
            dir_size >= 0,
            sector_size >= 1,
    ;
    match erase_directory(image, &spec, first, dir_size / sector_size) {
        Ok(()) => {},
        Err(e) => {
            return Err(e);
        },
    }
    if physical.first_sector_id == 1 {
        // The boot record keeps the layout when the image is opened again.
        let boot = boot_record(&spec, physical.side_mode, physical.filler_byte);
        return image.write_sector(0, 0, 1, boot.as_slice());
    }
    Ok(())
}

/// Sets up an empty MGT filesystem. After an error the image may be half-written.
fn format_mgt(image: &mut DiskImage) -> (r: Result<(), DskError>)
    ensures
        match r {
            Ok(()) => mgt_formatted(old(image)@) == Ok::<ImageView, ErrorView>(final(image)@),
            Err(e) => mgt_formatted(old(image)@) == Err::<ImageView, ErrorView>(e@),
        },
{
    let spec = *image.spec();
    if image.disk_count() != 2 || spec.num_tracks != 80 || spec.sectors_per_track != 10 || spec.sector_size != 512
        || spec.first_sector_id != 1 {
        return Err(DskError::filesystem("MGT requires 2 sides, 80 tracks, 10x512-byte sectors"));
    }
    fill_image(image, 512, 0)
}

/// The catalog of an empty TR-DOS disk.
fn make_catalog(spec: &FormatSpec) -> (catalog: Vec<u8>)
    requires
        spec.num_tracks == 40 || spec.num_tracks == 80,
        spec.num_sides == 1 || spec.num_sides == 2,
    ensures
        catalog@ == empty_catalog(*spec),
{
    let mut catalog: Vec<u8> = vec![0u8; 256];
    catalog.set(226, 1);
    catalog.set(
        227,
        if spec.num_tracks == 80 {
            if spec.num_sides == 2 { 0x16 } else { 0x17 }
        } else {
            if spec.num_sides == 1 { 0x18 } else { 0x19 }
        },
    );
    proof {
        assert(spec.num_tracks * spec.num_sides == (if spec.num_sides == 1 { 1 } else { 2int }) * spec.num_tracks) by (nonlinear_arith)
            requires
                spec.num_sides == 1 || spec.num_sides == 2,
        ;
    }
    let tracks: u16 = if spec.num_sides == 1 { spec.num_tracks as u16 } else { 2 * spec.num_tracks as u16 };
    let free: u16 = (tracks - 1) * 16;
    let (low, high) = crate::bytes::split_word(free);
    catalog.set(229, low);
    catalog.set(230, high);
    catalog.set(231, 0x10);
    assert(catalog@ =~= empty_catalog(*spec));
    catalog
}

/// Sets up an empty TR-DOS filesystem. After an error the image may be half-written.
fn format_trdos(image: &mut DiskImage) -> (r: Result<(), DskError>)
    ensures
        match r {
            Ok(()) => trdos_formatted(old(image)@) == Ok::<ImageView, ErrorView>(final(image)@),
            Err(e) => trdos_formatted(old(image)@) == Err::<ImageView, ErrorView>(e@),
        },
{
    let spec = *image.spec();
    if (spec.num_tracks != 40 && spec.num_tracks != 80) || (spec.num_sides != 1 && spec.num_sides != 2)
        || image.disk_count() != spec.num_sides as usize || spec.sectors_per_track != 16 || spec.sector_size != 256
        || spec.first_sector_id != 1 {
        return Err(DskError::filesystem("TR-DOS requires 40/80 tracks, 1/2 sides, 16x256-byte sectors"));
    }
    match fill_image(image, 256, 0) {
        Ok(()) => {},
        Err(e) => {
            return Err(e);
        },
    }
    let catalog = make_catalog(&spec);
    image.write_sector(0, 0, 9, catalog.as_slice())
}

/// Sets up an empty CP/M, MGT or TR-DOS filesystem on an image. All files and all data are
/// erased. `Auto` stands for what the image suggests. After an error the image is as it was.
pub fn format_filesystem(image: &mut DiskImage, fs: FileSystemType) -> (r: Result<(), DskError>)
    requires
        edit::chosen(old(image)@, fs) == FileSystemType::Cpm ==> boot_fits(old(image)@),
    ensures
        match r {
            Ok(()) => formatted(old(image)@, fs) == Ok::<ImageView, ErrorView>(final(image)@),
            Err(e) => {
                &&& formatted(old(image)@, fs) == Err::<ImageView, ErrorView>(e@)
                &&& final(image)@ == old(image)@
            },
        },
{
    let mut staged = image.clone();
    let result = match edit::effective_type(&staged, fs) {
        FileSystemType::Mgt => format_mgt(&mut staged),
        FileSystemType::Trdos => format_trdos(&mut staged),
        _ => format_cpm(&mut staged),
    };
    match result {
        Ok(()) => {
            *image = staged;
            Ok(())
        },
        Err(e) => Err(e),
    }
}

}
