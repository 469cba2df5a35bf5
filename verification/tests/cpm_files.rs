use dskmanager::error::DskError;
use dskmanager::filesystem::cpm::{CpmDirEntry, CpmFileSystem};
use dskmanager::filesystem::cpm_edit::cpm_address;
use dskmanager::filesystem::edit::{delete_file, import_file};
use dskmanager::filesystem::formatting::format_filesystem;
use dskmanager::filesystem::header::{try_parse_header, HeaderType};
use dskmanager::filesystem::names::cpm_name;
use dskmanager::filesystem::FileSystem;
use dskmanager::format::{DiskImageFormat, FileSystemType, FormatSpec};
use dskmanager::image::DiskImage;
use dskmanager::specification::{AllocationSize, DiskSpecFormat, DiskSpecSide, DiskSpecification};

fn blank() -> DiskImage {
    DiskImage::create(FormatSpec::amstrad_data()).unwrap()
}

fn import(image: &mut DiskImage, name: &str, data: &[u8]) -> Result<(), DskError> {
    import_file(image, FileSystemType::Cpm, name, data)
}

fn read(image: &DiskImage, name: &str) -> Result<Vec<u8>, DskError> {
    CpmFileSystem::from_image(image).unwrap().read_file_binary(name, true)
}

fn pattern(n: usize, seed: usize) -> Vec<u8> {
    (0..n).map(|i| ((i * 7 + seed) % 253) as u8).collect()
}

#[test]
fn listings_are_ordered_and_name_each_file_once() {
    let mut image = blank();
    import(&mut image, "ZETA.TXT", &pattern(20000, 1)).unwrap();
    import(&mut image, "3:alpha.b", &pattern(5, 2)).unwrap();
    import(&mut image, "ALPHA", &pattern(128, 3)).unwrap();
    import(&mut image, "3:ZETA.TXT", &[]).unwrap();
    let fs = CpmFileSystem::from_image(&image).unwrap();
    let list = fs.read_dir().unwrap();
    let lines: Vec<(u8, String, usize)> = list.iter().map(|e| (e.user, e.name.clone(), e.size)).collect();
    assert_eq!(
        lines,
        vec![
            (0, "ALPHA".to_string(), 128),
            (3, "ALPHA.B".to_string(), 5),
            (0, "ZETA.TXT".to_string(), 20000),
            (3, "ZETA.TXT".to_string(), 0),
        ]
    );
    for e in &list {
        let data = fs.read_file_binary(&format!("{}:{}", e.user, e.name), true).unwrap();
        assert_eq!(data.len(), e.size);
    }
    let details = fs.read_dir_extended().unwrap();
    assert_eq!(details[2].blocks, 20);
    assert_eq!(details[2].allocated, 20480);
    assert_eq!(details[2].index, 0);
    assert_eq!(details[1].blocks, 1);
    assert_eq!(details[3].blocks, 0);
    assert_eq!(details[3].header.header_type, HeaderType::Absent);
}

#[test]
fn deleted_files_are_listed_on_demand() {
    let mut image = blank();
    import(&mut image, "KEEP.BIN", &[1; 300]).unwrap();
    import(&mut image, "GONE.BIN", &[2; 300]).unwrap();
    delete_file(&mut image, FileSystemType::Cpm, "GONE.BIN").unwrap();
    let fs = CpmFileSystem::from_image(&image).unwrap();
    let plain = fs.read_dir_extended().unwrap();
    assert_eq!(plain.len(), 1);
    assert_eq!(plain[0].name, "KEEP.BIN");
    let all = fs.read_dir_extended_with_deleted().unwrap();
    assert!(all.iter().any(|e| e.name == "GONE.BIN" && e.user == 0xE5 && e.size == 300));
    assert!(all.iter().any(|e| e.name == "KEEP.BIN" && e.user == 0 && e.size == 300 && e.index == 0));
    assert!(matches!(fs.read_file("GONE.BIN"), Err(DskError::FileNotFound(n)) if n == "GONE.BIN"));
}

#[test]
fn bare_names_are_of_user_zero() {
    let mut image = blank();
    import(&mut image, "A.B", &[7; 10]).unwrap();
    assert_eq!(read(&image, "A.B").unwrap(), vec![7; 10]);
    assert_eq!(read(&image, "0:A.B").unwrap(), vec![7; 10]);
    assert_eq!(read(&image, "+0:A.B").unwrap(), vec![7; 10]);
    assert_eq!(read(&image, "000:A.B").unwrap(), vec![7; 10]);
    assert!(matches!(read(&image, "1:A.B"), Err(DskError::FileNotFound(_))));
    for name in ["32:A.B", ":A.B", "x:A.B", "-1:A.B", "+:A.B", "999999999999999999999:A.B"] {
        match read(&image, name) {
            Err(DskError::Filesystem(m)) => assert_eq!(m, "Invalid CP/M user number"),
            other => panic!("{:?}", other),
        }
    }
    assert!(matches!(read(&image, "a.b"), Err(DskError::FileNotFound(_))));
}

#[test]
fn names_are_checked_and_padded() {
    let (user, raw) = cpm_name("31:read-me.tx").unwrap();
    assert_eq!(user, 31);
    assert_eq!(raw, b"READ-ME TX ".to_vec());
    assert_eq!(cpm_name("A").unwrap().1, b"A          ".to_vec());
    assert_eq!(cpm_name("A.").unwrap().1, b"A          ".to_vec());
    for (name, named) in [
        ("", ""),
        (".TXT", ""),
        ("TOOLONGNAME", "TOOLONGNAME"),
        ("A.LONG", "LONG"),
        ("A B", "A B"),
        ("A.B.C", "B.C"),
        ("32:A", "32:A"),
        ("1:2:A", "2:A"),
        ("\u{c4}", "\u{c4}"),
    ] {
        match cpm_name(name) {
            Err(DskError::InvalidFilename(m)) => assert_eq!(m, named),
            other => panic!("{:?}", other),
        }
    }
}

#[test]
fn existing_files_are_not_replaced() {
    let mut image = blank();
    import(&mut image, "ONCE.TXT", b"first").unwrap();
    let before = image.read_logical();
    match import(&mut image, "once.txt", b"second") {
        Err(DskError::Filesystem(m)) => assert_eq!(m, "File already exists"),
        other => panic!("{:?}", other),
    }
    assert_eq!(image.read_logical(), before);
    assert_eq!(read(&image, "ONCE.TXT").unwrap(), b"first");
    import(&mut image, "1:ONCE.TXT", b"second").unwrap();
    assert_eq!(read(&image, "ONCE.TXT").unwrap(), b"first");
    assert_eq!(read(&image, "1:ONCE.TXT").unwrap(), b"second");
}

#[test]
fn full_disks_stay_as_they_were() {
    let mut image = blank();
    let all = pattern(178 * 1024, 5);
    image.mark_unchanged();
    assert!(matches!(import(&mut image, "BIG.BIN", &pattern(178 * 1024 + 1, 5)), Err(DskError::DiskFull)));
    assert!(!image.is_changed());
    import(&mut image, "BIG.BIN", &all).unwrap();
    assert_eq!(read(&image, "BIG.BIN").unwrap(), all);
    assert!(matches!(import(&mut image, "MORE.BIN", &[1]), Err(DskError::DiskFull)));
    import(&mut image, "EMPTY.BIN", &[]).unwrap();
    assert_eq!(read(&image, "EMPTY.BIN").unwrap(), Vec::<u8>::new());
    let fs = CpmFileSystem::from_image(&image).unwrap();
    assert_eq!(fs.info().free_blocks, 0);
    delete_file(&mut image, FileSystemType::Cpm, "BIG.BIN").unwrap();
    import(&mut image, "MORE.BIN", &all).unwrap();
    assert_eq!(read(&image, "MORE.BIN").unwrap(), all);
}

#[test]
fn directories_can_be_full() {
    let mut image = blank();
    for i in 0..64 {
        import(&mut image, &format!("F{}", i), &[]).unwrap();
    }
    assert!(matches!(import(&mut image, "F64", &[]), Err(DskError::DiskFull)));
    delete_file(&mut image, FileSystemType::Cpm, "F17").unwrap();
    import(&mut image, "F64", &[]).unwrap();
}

#[test]
fn other_files_keep_their_content() {
    let mut image = blank();
    import(&mut image, "A", &pattern(3000, 1)).unwrap();
    import(&mut image, "B", &pattern(4000, 2)).unwrap();
    import(&mut image, "C", &pattern(5000, 3)).unwrap();
    delete_file(&mut image, FileSystemType::Cpm, "B").unwrap();
    assert_eq!(read(&image, "A").unwrap(), pattern(3000, 1));
    assert_eq!(read(&image, "C").unwrap(), pattern(5000, 3));
    import(&mut image, "D", &pattern(9000, 4)).unwrap();
    assert_eq!(read(&image, "A").unwrap(), pattern(3000, 1));
    assert_eq!(read(&image, "C").unwrap(), pattern(5000, 3));
    assert_eq!(read(&image, "D").unwrap(), pattern(9000, 4));
    match delete_file(&mut image, FileSystemType::Cpm, "B") {
        Err(DskError::FileNotFound(n)) => assert_eq!(n, "B"),
        other => panic!("{:?}", other),
    }
}

#[test]
fn entries_are_laid_out_byte_for_byte() {
    let mut image = blank();
    import(&mut image, "5:DATA.X", &pattern(16384 + 1025, 9)).unwrap();
    let dir = image.read_sector(0, 0, 0xC1).unwrap();
    let mut first = vec![5];
    first.extend_from_slice(b"DATA    X  ");
    first.extend_from_slice(&[0, 0, 0, 128]);
    first.extend_from_slice(&(2..18).collect::<Vec<u8>>());
    assert_eq!(&dir[..32], first.as_slice());
    let mut second = vec![5];
    second.extend_from_slice(b"DATA    X  ");
    second.extend_from_slice(&[1, 1, 0, 9, 18, 19]);
    second.extend_from_slice(&[0; 14]);
    assert_eq!(&dir[32..64], second.as_slice());
    assert_eq!(dir[64], 0xE5);
    let data = pattern(16384 + 1025, 9);
    assert_eq!(image.read_sector(0, 0, 0xC5).unwrap(), &data[..512]);
    let last = image.read_sector(0, 4, 0xC3).unwrap();
    assert_eq!(last[0], data[17408]);
    assert!(last[1..].iter().all(|b| *b == 0x1A));
}

#[test]
fn large_disks_have_wide_block_numbers() {
    let mut image = DiskImage::create(FormatSpec::spectrum_plus3_ds()).unwrap();
    format_filesystem(&mut image, FileSystemType::Cpm).unwrap();
    let spec = DiskSpecification::identify(&image);
    assert_eq!(spec.allocation_size, AllocationSize::Word);
    assert_eq!(spec.block_count(), 357);
    assert_eq!(spec.block_size(), 2048);
    assert_eq!(spec.directory_entries(), 256);
    let data = pattern(600_000, 11);
    import(&mut image, "HUGE.BIN", &data).unwrap();
    assert_eq!(read(&image, "HUGE.BIN").unwrap(), data);
    let fs = CpmFileSystem::from_image(&image).unwrap();
    let info = fs.info();
    assert_eq!(info.fs_type, "CP/M (Amstrad PCW/Spectrum +3)");
    assert_eq!(info.total_blocks, 357);
    assert_eq!(info.free_blocks, 357 - 293 - 4);
    assert_eq!(info.block_size, 2048);
    assert_eq!(*fs.specification(), spec);
}

fn checksummed(mut head: Vec<u8>, upto: usize) -> Vec<u8> {
    let sum: u32 = head[..upto].iter().map(|b| *b as u32).sum();
    if upto == 127 {
        head[127] = (sum % 256) as u8;
    } else {
        head[67] = (sum % 256) as u8;
        head[68] = (sum / 256) as u8;
    }
    head
}

#[test]
fn headers_are_left_out_on_demand() {
    let mut plus3 = vec![0; 128];
    plus3[..9].copy_from_slice(b"PLUS3DOS\x1A");
    plus3[11] = 0xE8;
    plus3[12] = 3;
    plus3[15] = 3;
    let plus3 = checksummed(plus3, 127);
    let h = try_parse_header(&plus3);
    assert_eq!((h.header_type, h.header_size, h.file_type, h.file_size), (HeaderType::Plus3dos, 128, 3, 1000));
    let mut amsdos = vec![0; 128];
    amsdos[1..9].copy_from_slice(b"GAME    ");
    amsdos[18] = 2;
    amsdos[64] = 0x10;
    amsdos[65] = 0x27;
    let amsdos = checksummed(amsdos, 67);
    let h = try_parse_header(&amsdos);
    assert_eq!((h.header_type, h.file_type, h.file_size), (HeaderType::Amsdos, 2, 10000));
    assert_eq!(try_parse_header(&[0; 128]).header_type, HeaderType::Absent);
    assert_eq!(try_parse_header(&plus3[..127]).header_type, HeaderType::Absent);

    let mut image = blank();
    for (name, head) in [("P.BIN", &plus3), ("A.BIN", &amsdos)] {
        let mut data = head.clone();
        data.extend_from_slice(b"body");
        import(&mut image, name, &data).unwrap();
        let fs = CpmFileSystem::from_image(&image).unwrap();
        assert_eq!(fs.read_file_binary(name, true).unwrap(), data);
        assert_eq!(fs.read_file_binary(name, false).unwrap(), b"body");
        assert_eq!(fs.read_file(name).unwrap(), b"body");
    }
    let fs = CpmFileSystem::from_image(&image).unwrap();
    let list = fs.read_dir_extended().unwrap();
    assert_eq!(list[0].header.header_type, HeaderType::Amsdos);
    assert_eq!(list[1].header.header_type, HeaderType::Plus3dos);
}

fn entry(bytes: &[(usize, u8)]) -> [u8; 32] {
    let mut e = [0x20u8; 32];
    e[12..].fill(0);
    e[0] = 0;
    for (i, b) in bytes {
        e[*i] = *b;
    }
    e
}

#[test]
fn entries_are_parsed_by_their_user_numbers() {
    assert!(CpmDirEntry::parse(&entry(&[(0, 31)]), 0).is_some());
    assert!(CpmDirEntry::parse(&entry(&[(0, 32)]), 0).is_none());
    assert!(CpmDirEntry::parse(&entry(&[(0, 0x21)]), 0).is_none());
    assert!(CpmDirEntry::parse(&entry(&[(0, 0xE5)]), 0).is_none());
    assert!(CpmDirEntry::parse_with_deleted(&entry(&[(0, 0xE5)]), 0).unwrap().is_deleted());
    assert!(CpmDirEntry::parse_with_deleted(&entry(&[(0, 0xE4)]), 0).is_none());
    assert!(CpmDirEntry::parse(&entry(&[])[..31], 0).is_none());
}

#[test]
fn names_are_trimmed_and_stripped() {
    let e = CpmDirEntry::parse(&entry(&[(1, 0), (2, b'a' | 0x80), (3, 0), (4, b'b'), (5, 9)]), 0).unwrap();
    assert_eq!(e.filename_str(), "a b");
    let e = CpmDirEntry::parse(&entry(&[(1, b'X'), (10, b'Y')]), 0).unwrap();
    assert_eq!(e.filename_str(), "X.Y");
    let e = CpmDirEntry::parse(&entry(&[(1, b'X'), (10, 0x80 | b' ')]), 0).unwrap();
    assert_eq!(e.filename_str(), "X");
    assert!(!e.attributes().read_only && e.attributes().system && !e.attributes().archive);
}

#[test]
fn sizes_count_records() {
    let e = CpmDirEntry::parse(&entry(&[(15, 3)]), 0).unwrap();
    assert_eq!(e.extent_size(0), 384);
    assert_eq!(e.extent_size(5), 261);
    let e = CpmDirEntry::parse(&entry(&[]), 0).unwrap();
    assert_eq!(e.extent_size(5), 0);
    let e = CpmDirEntry::parse(&entry(&[(12, 0xFF), (14, 0xFF)]), 0).unwrap();
    assert_eq!(e.extent_number(), 8191);
}

#[test]
fn entries_with_bad_blocks_are_pruned() {
    let mut spec = DiskSpecification::new();
    spec.tracks_per_side = 3;
    spec.sectors_per_track = 2;
    spec.reserved_tracks = 0;
    assert_eq!((spec.block_count(), spec.block_room()), (0, 3));
    spec.format = DiskSpecFormat::AmstradData;
    assert_eq!(spec.block_count(), 3);
    let good = CpmDirEntry::parse(&entry(&[(15, 16), (16, 1), (17, 3)]), 0).unwrap();
    assert!(good.is_valid(&spec));
    assert_eq!(good.extract_blocks_for_validation(&spec), vec![1, 3]);
    let bad = CpmDirEntry::parse(&entry(&[(15, 16), (16, 1), (17, 4)]), 0).unwrap();
    assert!(!bad.is_valid(&spec));
    let left_over = CpmDirEntry::parse(&entry(&[(15, 8), (16, 1), (17, 4)]), 0).unwrap();
    assert!(!left_over.is_valid(&spec));
    assert_eq!(left_over.extract_blocks_for_validation(&spec), vec![1, 4]);
    assert_eq!(left_over.extract_file_blocks(&spec), vec![1, 4]);
    let unknown = DiskSpecification { format: DiskSpecFormat::Unknown, ..spec };
    assert!(left_over.is_valid(&unknown) && bad.is_valid(&unknown));
    assert_eq!(left_over.extract_file_blocks(&unknown), vec![1]);
    assert_eq!(bad.extract_file_blocks(&unknown), vec![1, 4]);
    let many = CpmDirEntry::parse(&entry(&[(15, 32), (16, 1), (17, 1), (18, 1), (19, 1)]), 0).unwrap();
    assert!(!many.is_valid(&spec));
    spec.tracks_per_side = 0;
    assert!(bad.is_valid(&spec));
    assert_eq!(bad.extract_blocks(AllocationSize::Word), vec![0x0401]);
}

#[test]
fn reversed_second_sides_count_down() {
    let image = DiskImage::builder().num_sides(2).num_tracks(4).sectors_per_track(3).build().unwrap();
    let mut spec = DiskSpecification::new();
    spec.tracks_per_side = 4;
    spec.sectors_per_track = 3;
    spec.side = DiskSpecSide::DoubleReverse;
    assert_eq!(cpm_address(&image, &spec, 11).unwrap(), (0, 3, 0xC3));
    assert_eq!(cpm_address(&image, &spec, 12).unwrap(), (1, 3, 0xC1));
    assert_eq!(cpm_address(&image, &spec, 23).unwrap(), (1, 0, 0xC3));
    spec.side = DiskSpecSide::DoubleSuccessive;
    assert_eq!(cpm_address(&image, &spec, 13).unwrap(), (1, 0, 0xC2));
    spec.side = DiskSpecSide::DoubleAlternate;
    assert_eq!(cpm_address(&image, &spec, 13).unwrap(), (0, 2, 0xC2));
    spec.side = DiskSpecSide::Single;
    assert_eq!(cpm_address(&image, &spec, 5).unwrap(), (0, 1, 0xC3));
}

fn refused(image: &DiskImage, spec: &DiskSpecification, absolute: usize) -> String {
    match cpm_address(image, spec, absolute) {
        Err(DskError::Filesystem(m)) => m,
        other => panic!("{:?}", other),
    }
}

#[test]
fn addresses_that_do_not_exist() {
    let image = DiskImage::builder().num_tracks(4).sectors_per_track(3).build().unwrap();
    let mut spec = DiskSpecification::new();
    assert_eq!(refused(&image, &spec, 3), "Missing CP/M sector");
    assert_eq!(refused(&image, &spec, 36), "Missing CP/M track");
    spec.sector_size = 256;
    assert_eq!(refused(&image, &spec, 0), "Unexpected CP/M sector size");
    spec.side = DiskSpecSide::Invalid;
    assert_eq!(refused(&image, &spec, 0), "Invalid CP/M side mode");
    spec.sectors_per_track = 0;
    assert_eq!(refused(&image, &spec, 0), "Invalid CP/M geometry");
}

#[test]
fn disks_are_recognised() {
    let data = DiskSpecification::identify(&blank());
    assert_eq!(data.format, DiskSpecFormat::AmstradData);
    assert_eq!((data.reserved_tracks, data.block_count(), data.allocation_size), (0, 180, AllocationSize::Byte));
    let system = DiskSpecification::identify(&DiskImage::create(FormatSpec::amstrad_system()).unwrap());
    assert_eq!(system.format, DiskSpecFormat::AmstradSystem);
    assert_eq!((system.reserved_tracks, system.block_count()), (2, 171));
    let empty = DiskImage::from_parts(
        DiskImageFormat::StandardDSK,
        FormatSpec::amstrad_data(),
        Vec::new(),
        false,
        None,
        Vec::new(),
    );
    assert_eq!(DiskSpecification::identify(&empty).format, DiskSpecFormat::Unknown);
    match CpmFileSystem::from_image(&empty) {
        Err(DskError::Filesystem(m)) => assert_eq!(m, "Invalid disk specification"),
        _ => panic!("an empty image has no filesystem"),
    }
    let mut empty = empty;
    match import(&mut empty, "A", &[]) {
        Err(DskError::Filesystem(m)) => assert_eq!(m, "Invalid CP/M directory geometry"),
        other => panic!("{:?}", other),
    }
}

#[test]
fn blocks_must_hold_whole_sectors() {
    let mut image = DiskImage::create(FormatSpec::new(1, 40, 4, 2048)).unwrap();
    match import(&mut image, "A", &[]) {
        Err(DskError::Filesystem(m)) => assert_eq!(m, "Unsupported CP/M block size"),
        other => panic!("{:?}", other),
    }
}

#[test]
fn removal_brings_back_the_old_listing() {
    let mut image = blank();
    import(&mut image, "A", &pattern(3000, 1)).unwrap();
    import(&mut image, "B", &pattern(20_000, 2)).unwrap();
    delete_file(&mut image, FileSystemType::Cpm, "A").unwrap();
    let lines = |image: &DiskImage| format!("{:?}", CpmFileSystem::from_image(image).unwrap().read_dir_extended().unwrap());
    let before = lines(&image);
    import(&mut image, "C", &pattern(40_000, 3)).unwrap();
    assert_ne!(lines(&image), before);
    delete_file(&mut image, FileSystemType::Cpm, "C").unwrap();
    assert_eq!(lines(&image), before);
    import(&mut image, "C", &pattern(40_000, 3)).unwrap();
}

#[test]
fn leftover_block_numbers_prune_an_entry() {
    let mut image = blank();
    let mut dir = [0xE5u8; 512];
    dir[..32].copy_from_slice(&entry(&[(1, b'X'), (15, 8), (16, 2), (17, 229)]));
    dir[32..64].copy_from_slice(&entry(&[(1, b'Y'), (15, 8), (16, 2), (17, 180)]));
    image.write_sector(0, 0, 0xC1, &dir).unwrap();
    assert_eq!(DiskSpecification::identify(&image).block_count(), 180);
    let fs = CpmFileSystem::from_image(&image).unwrap();
    let names: Vec<String> = fs.read_dir().unwrap().into_iter().map(|e| e.name).collect();
    assert_eq!(names, vec!["Y"]);
    assert_eq!(fs.info().free_blocks, 176);
}

#[test]
fn files_one_block_past_the_end_keep_their_bytes() {
    let mut image = blank();
    let mut dir = [0xE5u8; 512];
    dir[..32].copy_from_slice(&entry(&[(1, b'X'), (15, 16), (16, 2), (17, 180)]));
    image.write_sector(0, 0, 0xC1, &dir).unwrap();
    image.write_sector(0, 0, 0xC5, &[0x33; 512]).unwrap();
    let before = read(&image, "X").unwrap();
    assert_eq!((before.len(), before[0], before[2047]), (2048, 0x33, 0));
    import(&mut image, "NEW.BIN", &pattern(50_000, 4)).unwrap();
    assert_eq!(read(&image, "X").unwrap(), before);
    delete_file(&mut image, FileSystemType::Cpm, "NEW.BIN").unwrap();
    assert_eq!(read(&image, "X").unwrap(), before);
}

#[test]
fn directories_may_reach_beyond_the_disk() {
    // The boot record counts two of five tracks; behind the first, the directory takes two.
    let mut image = DiskImage::create(FormatSpec::new(1, 5, 4, 512).with_first_sector_id(1)).unwrap();
    let mut boot = [0xE5u8; 512];
    boot[..10].copy_from_slice(&[0, 0, 2, 4, 2, 1, 2, 8, 42, 82]);
    image.write_sector(0, 0, 1, &boot).unwrap();
    let spec = DiskSpecification::identify(&image);
    assert_eq!((spec.format, spec.block_count(), spec.directory_entries()), (DiskSpecFormat::BootRecord, 4, 128));
    import(&mut image, "EMPTY.BIN", &[]).unwrap();
    assert_eq!(read(&image, "EMPTY.BIN").unwrap(), Vec::<u8>::new());
    let again = import(&mut image, "empty.bin", &[]);
    assert!(matches!(again, Err(DskError::Filesystem(m)) if m == "File already exists"));
    delete_file(&mut image, FileSystemType::Cpm, "EMPTY.BIN").unwrap();
    assert!(read(&image, "EMPTY.BIN").is_err());
}

#[test]
fn doubled_sectors_elsewhere_do_no_harm() {
    let mut image = blank();
    let id = image.get_disk(0).unwrap().get_track(39).unwrap().sectors()[0].clone();
    image.get_disk_mut(0).unwrap().get_track_mut(39).unwrap().add_sector(id);
    let data = pattern(30_000, 8);
    import(&mut image, "SAFE.BIN", &data).unwrap();
    assert_eq!(read(&image, "SAFE.BIN").unwrap(), data);
    delete_file(&mut image, FileSystemType::Cpm, "SAFE.BIN").unwrap();
    assert!(read(&image, "SAFE.BIN").is_err());
}

#[test]
fn open_filesystems_cannot_be_changed() {
    let image = blank();
    let mut other = blank();
    let mut fs = CpmFileSystem::from_image(&image).unwrap();
    assert!(matches!(fs.write_file("A", &[]), Err(DskError::Filesystem(m)) if m == "Writing files not yet implemented"));
    assert!(matches!(
        FileSystem::delete_file(&mut fs, "A"),
        Err(DskError::Filesystem(m)) if m == "Deleting files not yet implemented"
    ));
    match <CpmFileSystem as FileSystem>::from_image(&image) {
        Err(DskError::Filesystem(m)) => assert_eq!(m, "Use CpmFileSystem::from_image() directly"),
        _ => panic!("not to be opened in this way"),
    }
    match <CpmFileSystem as FileSystem>::from_image_mut(&mut other) {
        Err(DskError::Filesystem(m)) => assert_eq!(m, "Mutable CP/M filesystem not yet implemented"),
        _ => panic!("not to be opened in this way"),
    }
}
