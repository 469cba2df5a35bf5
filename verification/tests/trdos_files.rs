use dskmanager::error::DskError;
use dskmanager::filesystem::edit::{delete_file, import_file};
use dskmanager::filesystem::formatting::format_filesystem;
use dskmanager::filesystem::trdos::{trdos_place, TrdosFileSystem};
use dskmanager::format::{DiskImageFormat, FileSystemType, FormatSpec};
use dskmanager::image::DiskImage;

fn blank() -> DiskImage {
    let mut image = DiskImage::builder()
        .format(DiskImageFormat::RawTrd)
        .spec(FormatSpec::trdos())
        .build()
        .unwrap();
    format_filesystem(&mut image, FileSystemType::Auto).unwrap();
    image
}

fn import(image: &mut DiskImage, name: &str, data: &[u8]) -> Result<(), DskError> {
    import_file(image, FileSystemType::Trdos, name, data)
}

fn read(image: &DiskImage, name: &str) -> Result<Vec<u8>, DskError> {
    TrdosFileSystem::new(image).unwrap().read_file(name)
}

fn pattern(n: usize, seed: usize) -> Vec<u8> {
    (0..n).map(|i| ((i * 3 + seed) % 249) as u8).collect()
}

#[test]
fn trdos_places() {
    assert_eq!(trdos_place(80, 0), (0, 0, 1));
    assert_eq!(trdos_place(80, 16 * 80 - 1), (0, 79, 16));
    assert_eq!(trdos_place(80, 16 * 80), (1, 0, 1));
    assert_eq!(trdos_place(40, 16 * 41 + 2), (1, 1, 3));
}

#[test]
fn trdos_entries_are_laid_out_byte_for_byte() {
    let mut image = blank();
    import(&mut image, "prog.b", &pattern(300, 1)).unwrap();
    import(&mut image, "DATA.#", &pattern(256, 2)).unwrap();
    let dir = image.read_sector(0, 0, 1).unwrap();
    let mut first = b"PROG    B".to_vec();
    first.extend_from_slice(&[0x2C, 1, 0, 0, 2, 0, 1]);
    assert_eq!(&dir[..16], first.as_slice());
    let mut second = b"DATA    #".to_vec();
    second.extend_from_slice(&[0, 1, 0, 0, 1, 2, 1]);
    assert_eq!(&dir[16..32], second.as_slice());
    let catalog = image.read_sector(0, 0, 9).unwrap();
    assert_eq!(&catalog[225..232], &[3, 1, 0x17, 2, 0xED, 4, 0x10]);
    let rest = image.read_sector(0, 1, 2).unwrap();
    assert_eq!(&rest[..44], &pattern(300, 1)[256..]);
    assert!(rest[44..].iter().all(|b| *b == 0));
}

#[test]
fn trdos_names_match_in_any_case() {
    let mut image = blank();
    import(&mut image, "Game", &pattern(20, 3)).unwrap();
    assert_eq!(read(&image, "gAmE").unwrap(), pattern(20, 3));
    assert_eq!(read(&image, "GAME.x").unwrap(), pattern(20, 3));
    match import(&mut image, "game.B", &[]) {
        Err(DskError::Filesystem(m)) => assert_eq!(m, "File already exists"),
        other => panic!("{:?}", other),
    }
    delete_file(&mut image, FileSystemType::Trdos, "GAME.D").unwrap();
    assert!(matches!(read(&image, "Game"), Err(DskError::FileNotFound(n)) if n == "Game"));
    assert!(matches!(
        delete_file(&mut image, FileSystemType::Trdos, "Game"),
        Err(DskError::FileNotFound(n)) if n == "Game"
    ));
}

#[test]
fn trdos_names_and_lengths_have_limits() {
    let mut image = blank();
    for (name, named) in [
        ("", ""),
        ("NINECHARS", "NINECHARS"),
        ("A.X", "A.X"),
        ("A.", "A."),
        ("A.BC", "A.BC"),
        ("A B.C", "A B"),
        ("A.B.C", "A.B"),
    ] {
        match import(&mut image, name, &[]) {
            Err(DskError::InvalidFilename(m)) => assert_eq!(m, named),
            other => panic!("{:?}", other),
        }
    }
    for n in [65281, 65536] {
        match import(&mut image, "LONG", &vec![0; n]) {
            Err(DskError::Filesystem(m)) => assert_eq!(m, "TR-DOS file exceeds format limits"),
            other => panic!("{:?}", other),
        }
    }
    let most = pattern(65280, 4);
    import(&mut image, "MOST", &most).unwrap();
    assert_eq!(read(&image, "MOST").unwrap(), most);
}

#[test]
fn trdos_removal_moves_files_together() {
    let mut image = blank();
    for i in 0..5 {
        import(&mut image, &format!("F{}.{}", i, ['B', 'C', 'D', '#', 'C'][i]), &pattern(1000 + i, i)).unwrap();
    }
    let mut dir = image.read_sector(0, 0, 1).unwrap().to_vec();
    dir[3 * 16 + 11] = 0x34;
    dir[3 * 16 + 12] = 0x12;
    image.write_sector(0, 0, 1, &dir).unwrap();
    delete_file(&mut image, FileSystemType::Trdos, "F1").unwrap();
    let fs = TrdosFileSystem::new(&image).unwrap();
    let lines: Vec<(String, u8, u16, u8, u8)> = fs
        .directory()
        .iter()
        .map(|e| (e.filename.clone(), e.file_type, e.param1, e.start_track, e.start_sector))
        .collect();
    assert_eq!(
        lines,
        vec![
            ("F0".to_string(), b'B', 0, 1, 0),
            ("F2".to_string(), b'D', 0, 1, 4),
            ("F3".to_string(), b'#', 0x1234, 1, 8),
            ("F4".to_string(), b'C', 0, 1, 12),
        ]
    );
    for i in [0, 2, 3, 4] {
        assert_eq!(read(&image, &format!("F{}", i)).unwrap(), pattern(1000 + i, i));
    }
    let catalog = fs.catalog().unwrap();
    assert_eq!(catalog.file_count, 4);
    assert_eq!((catalog.first_free_track, catalog.first_free_sector), (2, 0));
    assert_eq!(catalog.free_sectors, 80 * 16 - 16 - 16);
    assert_eq!(catalog.disk_type, 0x17);
}

#[test]
fn trdos_space_is_used_again() {
    let mut image = blank();
    let mut n = 0;
    while import(&mut image, &format!("F{}", n), &pattern(65280, n)).is_ok() {
        n += 1;
    }
    assert_eq!(n, 4);
    assert!(matches!(import(&mut image, "MORE", &pattern(65280, 99)), Err(DskError::DiskFull)));
    delete_file(&mut image, FileSystemType::Trdos, "F2").unwrap();
    import(&mut image, "MORE", &pattern(65280, 99)).unwrap();
    for i in [0, 1, 3] {
        assert_eq!(read(&image, &format!("F{}", i)).unwrap(), pattern(65280, i));
    }
    assert_eq!(read(&image, "MORE").unwrap(), pattern(65280, 99));
}

#[test]
fn trdos_removed_files_can_be_stored_again() {
    let mut image = blank();
    for i in 0..128 {
        import(&mut image, &format!("F{}", i), &pattern(100, i)).unwrap();
    }
    assert!(matches!(import(&mut image, "NEW.D", &[1]), Err(DskError::DiskFull)));
    delete_file(&mut image, FileSystemType::Trdos, "F5").unwrap();
    import(&mut image, "f5.b", &pattern(300, 7)).unwrap();
    assert_eq!(read(&image, "F5").unwrap(), pattern(300, 7));
    delete_file(&mut image, FileSystemType::Trdos, "F0").unwrap();
    import(&mut image, "NEW.D", &[1]).unwrap();
    assert_eq!(read(&image, "F127").unwrap(), pattern(100, 127));
}

#[test]
fn trdos_directories_can_be_full() {
    let mut image = blank();
    for i in 0..128 {
        import(&mut image, &format!("F{}", i), &[]).unwrap();
    }
    let before = image.read_logical();
    assert!(matches!(import(&mut image, "F128", &[]), Err(DskError::DiskFull)));
    assert_eq!(image.read_logical(), before);
}

#[test]
fn trdos_needs_a_formatted_disk() {
    let mut image = DiskImage::create(FormatSpec::trdos()).unwrap();
    match import(&mut image, "A", &[]) {
        Err(DskError::Filesystem(m)) => assert_eq!(m, "Format the TR-DOS disk before importing"),
        other => panic!("{:?}", other),
    }
    let mut image = DiskImage::create(FormatSpec::amstrad_data()).unwrap();
    match import(&mut image, "A", &[]) {
        Err(DskError::Filesystem(m)) => assert_eq!(m, "Not a TR-DOS disk"),
        other => panic!("{:?}", other),
    }
}

#[test]
fn trdos_survivors_that_cannot_be_named_stop_a_removal() {
    let mut image = blank();
    import(&mut image, "GOOD", &pattern(100, 1)).unwrap();
    import(&mut image, "ODD", &pattern(100, 2)).unwrap();
    let mut dir = image.read_sector(0, 0, 1).unwrap().to_vec();
    dir[16 + 1] = b' ';
    image.write_sector(0, 0, 1, &dir).unwrap();
    let before = image.read_logical();
    match delete_file(&mut image, FileSystemType::Trdos, "GOOD") {
        Err(DskError::InvalidFilename(m)) => assert_eq!(m, "O D"),
        other => panic!("{:?}", other),
    }
    assert_eq!(image.read_logical(), before);
}
