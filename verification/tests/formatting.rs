use dskmanager::error::DskError;
use dskmanager::filesystem::cpm::CpmFileSystem;
use dskmanager::filesystem::edit::import_file;
use dskmanager::filesystem::formatting::format_filesystem;
use dskmanager::filesystem::mgt::MgtFileSystem;
use dskmanager::filesystem::trdos::TrdosFileSystem;
use dskmanager::filesystem::FileSystem;
use dskmanager::format::{DiskImageFormat, FileSystemType, FormatSpec, SideMode};
use dskmanager::image::DiskImage;
use dskmanager::specification::{DiskSpecFormat, DiskSpecSide, DiskSpecification};

#[test]
fn boot_records_tell_the_layout() {
    let mut image = DiskImage::create(FormatSpec::spectrum_plus3()).unwrap();
    let before = DiskSpecification::identify(&image);
    assert_eq!(before.format, DiskSpecFormat::Plus3);
    format_filesystem(&mut image, FileSystemType::Cpm).unwrap();
    let boot = image.read_sector(0, 0, 1).unwrap();
    assert_eq!(&boot[..10], &[0, 0, 40, 9, 2, 1, 3, 2, 42, 82]);
    assert!(boot[10..].iter().all(|b| *b == 0xE5));
    let after = DiskSpecification::identify(&image);
    assert_eq!(after, DiskSpecification { format: DiskSpecFormat::BootRecord, ..before });
    let fs = CpmFileSystem::from_image(&image).unwrap();
    assert!(fs.read_dir().unwrap().is_empty());
}

#[test]
fn boot_records_tell_the_order_of_sides() {
    for (mode, byte, side) in [
        (SideMode::Alternate, 1, DiskSpecSide::DoubleAlternate),
        (SideMode::Successive, 2, DiskSpecSide::DoubleSuccessive),
        (SideMode::SingleSide, 0, DiskSpecSide::Single),
    ] {
        let mut image = DiskImage::create(FormatSpec::spectrum_plus3_ds().with_side_mode(mode)).unwrap();
        format_filesystem(&mut image, FileSystemType::Cpm).unwrap();
        assert_eq!(image.read_sector(0, 0, 1).unwrap()[1], byte);
        assert_eq!(DiskSpecification::identify(&image).side, side);
        assert!(CpmFileSystem::from_image(&image).unwrap().read_dir().unwrap().is_empty());
    }
}

#[test]
fn sector_numbers_keep_the_layout() {
    for spec in [FormatSpec::amstrad_data(), FormatSpec::amstrad_system()] {
        let mut image = DiskImage::create(spec.with_filler_byte(0x11)).unwrap();
        let before = DiskSpecification::identify(&image);
        format_filesystem(&mut image, FileSystemType::Auto).unwrap();
        assert_eq!(DiskSpecification::identify(&image), before);
        let fs = CpmFileSystem::from_image(&image).unwrap();
        assert!(fs.read_dir().unwrap().is_empty());
        let first = before.reserved_tracks;
        for id in 0..4 {
            assert_eq!(image.read_sector(0, first, spec.first_sector_id + id).unwrap(), &[0xE5; 512]);
        }
        assert_eq!(image.read_sector(0, first, spec.first_sector_id + 4).unwrap(), &[0x11; 512]);
    }
}

#[test]
fn formatting_erases_all_files() {
    let mut image = DiskImage::create(FormatSpec::amstrad_data()).unwrap();
    let fresh = image.read_logical();
    import_file(&mut image, FileSystemType::Cpm, "OLD.TXT", &[1; 5000]).unwrap();
    assert_ne!(image.read_logical(), fresh);
    format_filesystem(&mut image, FileSystemType::Cpm).unwrap();
    assert_eq!(image.read_logical(), fresh);
}

#[test]
fn raw_formats_start_empty() {
    let mut image = DiskImage::builder()
        .format(DiskImageFormat::RawMgt)
        .spec(FormatSpec::new(2, 80, 10, 512).with_first_sector_id(1))
        .build()
        .unwrap();
    assert_eq!(MgtFileSystem::new(&image).unwrap().directory().len(), 80);
    format_filesystem(&mut image, FileSystemType::Mgt).unwrap();
    assert!(MgtFileSystem::new(&image).unwrap().directory().is_empty());
    assert!(image.read_logical().iter().all(|b| *b == 0));

    for (sides, tracks, kind) in [(2, 80, 0x16), (1, 80, 0x17), (1, 40, 0x18), (2, 40, 0x19)] {
        let mut image = DiskImage::create(FormatSpec::new(sides, tracks, 16, 256).with_first_sector_id(1)).unwrap();
        format_filesystem(&mut image, FileSystemType::Trdos).unwrap();
        let fs = TrdosFileSystem::new(&image).unwrap();
        assert!(fs.directory().is_empty());
        let catalog = fs.catalog().unwrap();
        assert_eq!(catalog.disk_type, kind);
        assert_eq!((catalog.first_free_track, catalog.first_free_sector, catalog.file_count), (1, 0, 0));
        assert_eq!(catalog.free_sectors, (sides as u16 * tracks as u16 - 1) * 16);
    }
}

#[test]
fn fresh_disks_take_whatever_fits() {
    for (spec, fs, name, most) in [
        (FormatSpec::amstrad_data(), FileSystemType::Cpm, "A.BIN", 178 * 1024),
        (FormatSpec::amstrad_system(), FileSystemType::Cpm, "A.BIN", 169 * 1024),
        (FormatSpec::spectrum_plus3(), FileSystemType::Cpm, "A.BIN", 173 * 1024),
        (FormatSpec::new(2, 80, 10, 512).with_first_sector_id(1), FileSystemType::Mgt, "A", 65535),
        (FormatSpec::new(1, 40, 16, 256).with_first_sector_id(1), FileSystemType::Trdos, "A.C", 65280),
    ] {
        let mut image = DiskImage::create(spec).unwrap();
        format_filesystem(&mut image, fs).unwrap();
        let data: Vec<u8> = (0..most + 1).map(|i| (i % 251) as u8).collect();
        assert!(import_file(&mut image, fs, name, &data).is_err());
        import_file(&mut image, fs, name, &data[..most]).unwrap();
    }
}

fn refusal(image: &mut DiskImage, fs: FileSystemType) -> String {
    image.mark_unchanged();
    let before = image.read_logical();
    let r = format_filesystem(image, fs);
    assert_eq!(image.read_logical(), before);
    assert!(!image.is_changed());
    match r {
        Err(DskError::Filesystem(m)) => m,
        other => panic!("{:?}", other),
    }
}

#[test]
fn wrong_geometry_is_refused() {
    let mut amstrad = DiskImage::create(FormatSpec::amstrad_data()).unwrap();
    assert_eq!(
        refusal(&mut amstrad, FileSystemType::Mgt),
        "MGT requires 2 sides, 80 tracks, 10x512-byte sectors"
    );
    assert_eq!(
        refusal(&mut amstrad, FileSystemType::Trdos),
        "TR-DOS requires 40/80 tracks, 1/2 sides, 16x256-byte sectors"
    );
    amstrad.write_sector(0, 39, 0xC9, &[0; 256]).unwrap();
    assert_eq!(refusal(&mut amstrad, FileSystemType::Cpm), "Sector geometry does not match filesystem");

    let none = FormatSpec::amstrad_data();
    let mut empty = DiskImage::from_parts(DiskImageFormat::StandardDSK, none, Vec::new(), false, None, Vec::new());
    assert_eq!(refusal(&mut empty, FileSystemType::Auto), "Unrecognized CP/M disk geometry");

    let mut large = DiskImage::create(FormatSpec::new(1, 40, 3, 4096)).unwrap();
    assert_eq!(refusal(&mut large, FileSystemType::Cpm), "Invalid CP/M directory size");
}
