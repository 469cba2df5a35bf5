use dskmanager::filesystem::cpm::CpmFileSystem;
use dskmanager::filesystem::edit::{delete_file, import_file};
use dskmanager::filesystem::formatting::format_filesystem;
use dskmanager::filesystem::mgt::MgtFileSystem;
use dskmanager::filesystem::trdos::TrdosFileSystem;
use dskmanager::filesystem::FileSystem;
use dskmanager::format::{DiskImageFormat, FileSystemType, FormatSpec};
use dskmanager::image::DiskImage;

#[test]
fn cpm_import_multiextent_and_delete() {
    let mut image = DiskImage::create(FormatSpec::amstrad_data()).unwrap();
    let data: Vec<_> = (0..20017).map(|i| (i % 251) as u8).collect();
    import_file(&mut image, FileSystemType::Cpm, "2:DEMO.BIN", &data).unwrap();
    let fs = CpmFileSystem::from_image(&image).unwrap();
    assert_eq!(fs.read_file_binary("2:DEMO.BIN", true).unwrap(), data);
    assert_eq!(fs.read_dir().unwrap().iter().filter(|e| e.user == 2).count(), 1);
    delete_file(&mut image, FileSystemType::Cpm, "2:DEMO.BIN").unwrap();
    assert!(CpmFileSystem::from_image(&image).unwrap().read_file("2:DEMO.BIN").is_err());
    import_file(&mut image, FileSystemType::Cpm, "2:DEMO.BIN", &data).unwrap();
}

#[test]
fn mgt_import_delete_and_reuse() {
    let mut image = DiskImage::builder()
        .format(DiskImageFormat::RawMgt)
        .num_sides(2)
        .num_tracks(80)
        .sectors_per_track(10)
        .spec(FormatSpec::new(2, 80, 10, 512).with_first_sector_id(1).with_filler_byte(0))
        .build()
        .unwrap();
    let data = vec![0x41; 763];
    import_file(&mut image, FileSystemType::Mgt, "TESTFILE", &data).unwrap();
    let fs = MgtFileSystem::new(&image).unwrap();
    assert_eq!(fs.read_file(fs.find_file("TESTFILE").unwrap()).unwrap(), data);
    delete_file(&mut image, FileSystemType::Mgt, "TESTFILE").unwrap();
    assert!(MgtFileSystem::new(&image).unwrap().find_file("TESTFILE").is_none());
    import_file(&mut image, FileSystemType::Mgt, "TESTFILE", &data).unwrap();
}

#[test]
fn trdos_delete_compacts_surviving_files() {
    let mut image = DiskImage::builder()
        .format(DiskImageFormat::RawTrd)
        .spec(FormatSpec::trdos())
        .build()
        .unwrap();
    let mut catalog = [0u8; 256];
    catalog[226] = 1;
    catalog[227] = 0x17;
    catalog[229..231].copy_from_slice(&(80u16 * 16 - 16).to_le_bytes());
    catalog[231] = 0x10;
    image.write_sector(0, 0, 9, &catalog).unwrap();
    for id in 1..=8 {
        image.write_sector(0, 0, id, &[0; 256]).unwrap();
    }
    import_file(&mut image, FileSystemType::Trdos, "FIRST.C", &[0x11; 300]).unwrap();
    import_file(&mut image, FileSystemType::Trdos, "SECOND.C", &[0x22; 400]).unwrap();
    delete_file(&mut image, FileSystemType::Trdos, "FIRST.C").unwrap();
    let fs = TrdosFileSystem::new(&image).unwrap();
    assert_eq!(fs.read_file("SECOND").unwrap(), vec![0x22; 400]);
    assert_eq!(fs.catalog().unwrap().first_free_track, 1);
    assert_eq!(fs.catalog().unwrap().first_free_sector, 2);
    import_file(&mut image, FileSystemType::Trdos, "THIRD.C", &[0x33; 256]).unwrap();
}

#[test]
fn formatted_amstrad_and_plus3_accept_files() {
    for spec in [
        FormatSpec::amstrad_data(),
        FormatSpec::amstrad_system(),
        FormatSpec::spectrum_plus3(),
        FormatSpec::spectrum_plus3_ds(),
    ] {
        let mut image = DiskImage::create(spec).unwrap();
        format_filesystem(&mut image, FileSystemType::Cpm).unwrap();
        import_file(&mut image, FileSystemType::Cpm, "HELLO.TXT", b"hello").unwrap();
        assert_eq!(
            CpmFileSystem::from_image(&image).unwrap().read_file_binary("HELLO.TXT", true).unwrap(),
            b"hello"
        );
    }
}

#[test]
fn formatted_raw_disks_accept_files() {
    let mut mgt = DiskImage::builder()
        .format(DiskImageFormat::RawMgt)
        .spec(FormatSpec::new(2, 80, 10, 512).with_first_sector_id(1))
        .build()
        .unwrap();
    format_filesystem(&mut mgt, FileSystemType::Mgt).unwrap();
    import_file(&mut mgt, FileSystemType::Mgt, "HELLO", b"hello").unwrap();
    assert_eq!(MgtFileSystem::new(&mgt).unwrap().directory().len(), 1);

    let mut trd = DiskImage::builder()
        .format(DiskImageFormat::RawTrd)
        .spec(FormatSpec::trdos())
        .build()
        .unwrap();
    format_filesystem(&mut trd, FileSystemType::Trdos).unwrap();
    import_file(&mut trd, FileSystemType::Trdos, "HELLO.C", b"hello").unwrap();
    assert_eq!(TrdosFileSystem::new(&trd).unwrap().read_file("HELLO").unwrap(), b"hello");
}
