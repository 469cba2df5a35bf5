use dskmanager::error::DskError;
use dskmanager::filesystem::edit::{delete_file, import_file};
use dskmanager::filesystem::formatting::format_filesystem;
use dskmanager::filesystem::mgt::{mgt_location, mgt_sector, MgtFileSystem};
use dskmanager::format::{DiskImageFormat, FileSystemType, FormatSpec};
use dskmanager::image::DiskImage;

fn blank() -> DiskImage {
    let mut image = DiskImage::builder()
        .format(DiskImageFormat::RawMgt)
        .spec(FormatSpec::new(2, 80, 10, 512).with_first_sector_id(1))
        .build()
        .unwrap();
    format_filesystem(&mut image, FileSystemType::Auto).unwrap();
    image
}

fn import(image: &mut DiskImage, name: &str, data: &[u8]) -> Result<(), DskError> {
    import_file(image, FileSystemType::Mgt, name, data)
}

fn read(image: &DiskImage, name: &str) -> Option<Vec<u8>> {
    let fs = MgtFileSystem::new(image).unwrap();
    fs.find_file(name).map(|e| fs.read_file(e).unwrap())
}

fn pattern(n: usize, seed: usize) -> Vec<u8> {
    (0..n).map(|i| ((i * 5 + seed) % 251) as u8).collect()
}

#[test]
fn mgt_places() {
    assert_eq!(mgt_location(0), (0, 0, 1, 0));
    assert_eq!(mgt_location(1), (0, 0, 1, 256));
    assert_eq!(mgt_location(79), (0, 3, 10, 256));
    assert_eq!(mgt_sector(40), (0, 4, 1));
    assert_eq!(mgt_sector(799), (0, 79, 10));
    assert_eq!(mgt_sector(800), (1, 0, 1));
    assert_eq!(mgt_sector(1599), (1, 79, 10));
}

#[test]
fn mgt_entries_are_laid_out_byte_for_byte() {
    let mut image = blank();
    import(&mut image, "first", &pattern(513, 1)).unwrap();
    import(&mut image, "SECOND", &pattern(4000, 2)).unwrap();
    let dir = image.read_sector(0, 0, 1).unwrap();
    assert_eq!(dir[0], 0x13);
    assert_eq!(&dir[1..11], b"FIRST     ");
    assert_eq!(&dir[11..15], &[0, 2, 4, 1]);
    assert_eq!(dir[15], 0b1100_0000);
    assert!(dir[16..210].iter().all(|b| *b == 0));
    assert_eq!(&dir[210..214], &[0, 3, 1, 2]);
    let second = &dir[256..];
    assert_eq!(&second[11..17], &[0, 8, 4, 3, 0b0011_1111, 0b1100_0000]);
    assert_eq!(&second[212..214], &[0xA0, 0x0F]);
    assert_eq!(image.read_sector(0, 4, 1).unwrap(), &pattern(513, 1)[..512]);
    let rest = image.read_sector(0, 4, 2).unwrap();
    assert_eq!(rest[0], pattern(513, 1)[512]);
    assert!(rest[1..].iter().all(|b| *b == 0));
}

#[test]
fn mgt_names_match_in_any_case() {
    let mut image = blank();
    import(&mut image, "Mixed", &pattern(20, 3)).unwrap();
    assert_eq!(read(&image, "mIxEd").unwrap(), pattern(20, 3));
    match import(&mut image, "MIXED", &[]) {
        Err(DskError::Filesystem(m)) => assert_eq!(m, "File already exists"),
        other => panic!("{:?}", other),
    }
    delete_file(&mut image, FileSystemType::Mgt, "mixed").unwrap();
    assert!(read(&image, "Mixed").is_none());
    match delete_file(&mut image, FileSystemType::Mgt, "mixed") {
        Err(DskError::FileNotFound(n)) => assert_eq!(n, "mixed"),
        other => panic!("{:?}", other),
    }
}

#[test]
fn mgt_names_and_lengths_have_limits() {
    let mut image = blank();
    for name in ["", "ELEVENCHARS", "A.B", "A B"] {
        match import(&mut image, name, &[]) {
            Err(DskError::InvalidFilename(m)) => assert_eq!(m, name),
            other => panic!("{:?}", other),
        }
    }
    match import(&mut image, "LONG", &vec![0; 65536]) {
        Err(DskError::Filesystem(m)) => assert_eq!(m, "MGT import limited to 65535 bytes"),
        other => panic!("{:?}", other),
    }
    let most = pattern(65535, 4);
    import(&mut image, "MOST", &most).unwrap();
    assert_eq!(read(&image, "MOST").unwrap(), most);
    import(&mut image, "NOTHING", &[]).unwrap();
    assert_eq!(read(&image, "NOTHING").unwrap(), Vec::<u8>::new());
}

#[test]
fn mgt_files_stay_on_one_side() {
    let mut image = blank();
    for i in 0..6 {
        import(&mut image, &format!("F{}", i), &pattern(65535, i)).unwrap();
    }
    let fs = MgtFileSystem::new(&image).unwrap();
    let starts: Vec<usize> = fs.directory().iter().map(|e| e.start()).collect();
    assert_eq!(starts, vec![40, 168, 296, 424, 552, 800]);
    for i in 0..6 {
        assert_eq!(read(&image, &format!("F{}", i)).unwrap(), pattern(65535, i));
    }
}

#[test]
fn mgt_space_is_used_again() {
    let mut image = blank();
    let mut n = 0;
    while import(&mut image, &format!("F{}", n), &pattern(65535, n)).is_ok() {
        n += 1;
    }
    assert_eq!(n, 11);
    assert!(matches!(import(&mut image, "MORE", &pattern(65535, 99)), Err(DskError::DiskFull)));
    delete_file(&mut image, FileSystemType::Mgt, "F4").unwrap();
    import(&mut image, "MORE", &pattern(65535, 99)).unwrap();
    assert_eq!(read(&image, "MORE").unwrap(), pattern(65535, 99));
    for i in [0, 3, 5, 10] {
        assert_eq!(read(&image, &format!("F{}", i)).unwrap(), pattern(65535, i));
    }
}

#[test]
fn mgt_directories_can_be_full() {
    let mut image = blank();
    for i in 0..80 {
        import(&mut image, &format!("F{}", i), &[i as u8]).unwrap();
    }
    let before = image.read_logical();
    assert!(matches!(import(&mut image, "F80", &[]), Err(DskError::DiskFull)));
    assert_eq!(image.read_logical(), before);
    assert_eq!(MgtFileSystem::new(&image).unwrap().directory().len(), 80);
}

#[test]
fn mgt_needs_its_sectors() {
    let mut image = DiskImage::create(FormatSpec::amstrad_data()).unwrap();
    assert!(matches!(
        import(&mut image, "A", &[]),
        Err(DskError::InvalidSector { side: 0, track: 0, id: 1 })
    ));
    let small = DiskImage::create(FormatSpec::trdos()).unwrap();
    match MgtFileSystem::new(&small) {
        Err(DskError::Filesystem(m)) => assert_eq!(m, "Not an MGT disk"),
        _ => panic!("sectors are too small"),
    }
}
