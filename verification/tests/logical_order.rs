use dskmanager::error::DskError;
use dskmanager::format::{code_for_size, size_for_code, DiskImageFormat, FileSystemType, FormatSpec, SideMode};
use dskmanager::image::disk::Disk;
use dskmanager::image::sector::{FdcStatus1, FdcStatus2, Sector, SectorId};
use dskmanager::image::track::Track;
use dskmanager::image::DiskImage;

fn sector(id: u8, data: &[u8]) -> Sector {
    Sector::with_status(SectorId::new(0, 0, id, 0), FdcStatus1(0), FdcStatus2(0), data.to_vec())
}

fn track(number: u8, side: u8, sectors: &[(u8, u8)]) -> Track {
    let mut t = Track::new(number, side);
    for (id, byte) in sectors {
        t.add_sector(sector(*id, &[*byte]));
    }
    t
}

fn two_sides(mode: SideMode) -> DiskImage {
    let mut disks = Vec::new();
    for side in 0..2u8 {
        let mut disk = Disk::with_capacity(side, 2);
        for t in 0..(2 + side) {
            disk.add_track(track(t, side, &[(2, 16 * side + 4 * t + 2), (1, 16 * side + 4 * t + 1)]));
        }
        disks.push(disk);
    }
    let spec = FormatSpec::new(2, 2, 2, 128).with_side_mode(mode);
    DiskImage::from_parts(DiskImageFormat::ExtendedDSK, spec, disks, false, None, Vec::new())
}

#[test]
fn sectors_are_read_by_their_numbers() {
    let t = track(0, 0, &[(3, 30), (1, 10), (2, 20), (1, 11)]);
    let mut data = Vec::new();
    t.read_logical(&mut data);
    assert_eq!(data, vec![10, 11, 20, 30]);
    assert_eq!(t.order(), vec![1, 3, 2, 0]);
    assert_eq!(t.nth_by_id(2).unwrap().number(), 2);
    assert!(t.nth_by_id(4).is_none());
}

#[test]
fn sides_are_read_as_the_mode_has_them() {
    assert_eq!(two_sides(SideMode::SingleSide).read_logical(), vec![1, 2, 5, 6]);
    assert_eq!(
        two_sides(SideMode::Alternate).read_logical(),
        vec![1, 2, 17, 18, 5, 6, 21, 22, 25, 26]
    );
    assert_eq!(
        two_sides(SideMode::Successive).read_logical(),
        vec![1, 2, 5, 6, 17, 18, 21, 22, 25, 26]
    );
}

#[test]
fn image_without_sides_reads_as_nothing() {
    for mode in [SideMode::SingleSide, SideMode::Alternate, SideMode::Successive] {
        let spec = FormatSpec::new(1, 1, 1, 128).with_side_mode(mode);
        let image = DiskImage::from_parts(DiskImageFormat::StandardDSK, spec, Vec::new(), false, None, Vec::new());
        assert!(image.read_logical().is_empty());
        assert!(image.get_disk(0).is_none());
    }
}

#[test]
fn fresh_images_read_as_filler() {
    for spec in [
        FormatSpec::amstrad_data(),
        FormatSpec::spectrum_plus3_ds(),
        FormatSpec::new(2, 3, 4, 256).with_side_mode(SideMode::Successive).with_filler_byte(0x4E),
        FormatSpec::trdos(),
    ] {
        let image = DiskImage::create(spec).unwrap();
        let data = image.read_logical();
        assert_eq!(data.len(), image.total_capacity());
        assert!(data.iter().all(|b| *b == spec.filler_byte));
    }
    assert_eq!(FormatSpec::amstrad_data().total_capacity(), 184320);
    assert_eq!(FormatSpec::spectrum_plus3_ds().total_capacity(), 737280);
}

#[test]
fn geometries_that_cannot_be_built() {
    let bad = [
        (FormatSpec::new(0, 40, 9, 512), "An image has one or two sides"),
        (FormatSpec::new(3, 40, 9, 512), "An image has one or two sides"),
        (FormatSpec::new(1, 0, 9, 512), "An image has at least one track and one sector"),
        (FormatSpec::new(1, 40, 0, 512), "An image has at least one track and one sector"),
        (FormatSpec::new(1, 40, 64, 512), "Sector IDs exceed 255"),
        (FormatSpec::new(1, 40, 9, 500), "Invalid sector size"),
    ];
    for (spec, message) in bad {
        match DiskImage::create(spec) {
            Err(DskError::InvalidFormat(m)) => assert_eq!(m, message),
            other => panic!("{:?}", other),
        }
    }
    assert!(DiskImage::create(FormatSpec::new(1, 40, 63, 512)).is_ok());
}

#[test]
fn errors_name_what_is_missing() {
    let mut image = DiskImage::builder().num_sides(2).num_tracks(10).build().unwrap();
    assert!(matches!(
        image.read_sector(2, 3, 0xC1),
        Err(DskError::InvalidTrack { side: 2, track: 3, max: 1 })
    ));
    assert!(matches!(
        image.read_sector(1, 10, 0xC1),
        Err(DskError::InvalidTrack { side: 1, track: 10, max: 9 })
    ));
    assert!(matches!(
        image.read_sector(1, 9, 1),
        Err(DskError::InvalidSector { side: 1, track: 9, id: 1 })
    ));
    image.mark_unchanged();
    assert!(!image.is_changed());
    assert!(matches!(
        image.write_sector(2, 3, 0xC1, &[0]),
        Err(DskError::InvalidTrack { side: 2, track: 3, max: 1 })
    ));
    assert!(image.is_changed());
    assert!(matches!(
        image.write_sector(0, 0, 1, &[0]),
        Err(DskError::InvalidSector { side: 0, track: 0, id: 1 })
    ));
}

#[test]
fn writes_change_one_sector_alone() {
    let mut image = DiskImage::builder().num_tracks(2).sectors_per_track(3).build().unwrap();
    let before = image.clone();
    image.write_sector(0, 1, 0xC2, &[1, 2, 3]).unwrap();
    assert_eq!(image.read_sector(0, 1, 0xC2).unwrap(), &[1, 2, 3]);
    for t in 0..2 {
        for id in 0xC1..=0xC3 {
            if (t, id) != (1, 0xC2) {
                assert_eq!(image.read_sector(0, t, id).unwrap(), before.read_sector(0, t, id).unwrap());
            }
        }
    }
    assert_eq!(image.disk_count(), before.disk_count());
    assert_eq!(image.spec(), before.spec());
    let t = image.get_disk(0).unwrap().get_track(1).unwrap();
    assert_eq!(t.sectors()[1].sector_id(), SectorId::new(1, 0, 0xC2, 2));
    assert_eq!(t.sectors()[1].advertised_size(), 512);
}

#[test]
fn sides_can_be_changed_in_place() {
    let mut image = DiskImage::builder().num_sides(2).num_tracks(1).build().unwrap();
    image.mark_unchanged();
    assert!(image.get_disk_mut(2).is_none());
    assert!(image.is_changed());
    image.get_disk_mut(1).unwrap().get_track_mut(0).unwrap().add_sector(sector(7, &[9]));
    assert_eq!(image.read_sector(1, 0, 7).unwrap(), &[9]);
    image.mark_unchanged();
    image.disks_mut()[0].add_track(track(1, 0, &[(5, 6)]));
    assert!(image.is_changed());
    assert_eq!(image.read_sector(0, 1, 5).unwrap(), &[6]);
    assert_eq!(image.disks()[0].track_count(), 2);
}

#[test]
fn builders_keep_what_was_chosen() {
    let image = DiskImage::builder()
        .format(DiskImageFormat::RawMgt)
        .num_sides(2)
        .num_tracks(3)
        .sectors_per_track(4)
        .sector_size(256)
        .build()
        .unwrap();
    assert_eq!(image.format(), DiskImageFormat::RawMgt);
    assert_eq!(image.spec().side_mode, SideMode::Alternate);
    assert_eq!(image.disks()[1].tracks()[2].sector_count(), 4);
    assert_eq!(image.read_sector(1, 2, 0xC4).unwrap(), &[0xE5; 256]);
    assert!(image.filename().is_none());
    assert!(image.warnings().is_empty());
}

#[test]
fn sector_sizes_have_codes() {
    for (code, size) in [(0u8, 128u16), (1, 256), (2, 512), (3, 1024), (4, 2048), (5, 4096), (6, 8192), (7, 16384)] {
        assert_eq!(code_for_size(size), Some(code));
        assert_eq!(size_for_code(code), size as usize);
        assert_eq!(size_for_code(code + 8), size as usize);
    }
    assert_eq!(code_for_size(0), None);
    assert_eq!(code_for_size(32768), None);
}

#[test]
fn formats_suggest_filesystems() {
    assert_eq!(DiskImageFormat::RawMgt.default_filesystem(), FileSystemType::Mgt);
    assert_eq!(DiskImageFormat::RawTrd.default_filesystem(), FileSystemType::Trdos);
    assert_eq!(DiskImageFormat::RawTd0.default_filesystem(), FileSystemType::Cpm);
    let sam = FormatSpec::new(2, 80, 10, 512).with_first_sector_id(1);
    assert_eq!(DiskImage::create(sam).unwrap().default_filesystem(), FileSystemType::Mgt);
    assert_eq!(
        DiskImage::create(FormatSpec::amstrad_data()).unwrap().default_filesystem(),
        FileSystemType::Cpm
    );
}
