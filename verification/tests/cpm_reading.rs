use dskmanager::filesystem::cpm::{CpmDirEntry, CpmFileSystem};
use dskmanager::filesystem::FileSystem;
use dskmanager::image::DiskImage;
use dskmanager::specification::{DiskSpecSide, DiskSpecification};

#[test]
fn test_parse_dir_entry() {
    let mut data = [0u8; 32];
    data[0] = 0; // User 0
    data[1..9].copy_from_slice(b"TESTFILE");
    data[9..12].copy_from_slice(b"TXT");
    data[12] = 0; // Extent low
    data[15] = 10; // Record count

    let entry = CpmDirEntry::parse(&data, 0).unwrap();
    assert_eq!(entry.user, 0);
    assert_eq!(entry.index, 0);
    assert_eq!(entry.filename_str(), "TESTFILE.TXT");
    assert_eq!(entry.record_count, 10);
}

#[test]
fn test_parse_deleted_entry() {
    let mut data = [0u8; 32];
    data[0] = 0xE5; // Deleted

    let entry = CpmDirEntry::parse(&data, 0);
    assert!(entry.is_none());
}

#[test]
fn test_filename_with_attributes() {
    let mut data = [0u8; 32];
    data[0] = 0; // User 0
    data[1..9].copy_from_slice(b"TESTFILE");
    // Extension with high bits set (attributes)
    data[9] = b'T' | 0x80; // Read-only
    data[10] = b'X' | 0x80; // System
    data[11] = b'T' | 0x80; // Archive

    let entry = CpmDirEntry::parse(&data, 5).unwrap();
    assert_eq!(entry.filename_str(), "TESTFILE.TXT");
    assert_eq!(entry.index, 5);
    assert!(entry.is_read_only());
    assert!(entry.is_system());
    assert!(entry.is_archive());
}

#[test]
fn test_extent_number() {
    let mut data = [0u8; 32];
    data[0] = 0;
    data[1..9].copy_from_slice(b"TEST    ");
    data[9..12].copy_from_slice(b"   ");
    data[12] = 3; // Extent low
    data[14] = 1; // Extent high

    let entry = CpmDirEntry::parse(&data, 10).unwrap();
    assert_eq!(entry.index, 10);
    // The high byte counts 32 extents each.
    assert_eq!(entry.extent_number(), 35);
}

#[test]
fn test_read_file_on_second_side_of_alternate_disk() {
    let mut image = DiskImage::builder()
        .num_sides(2)
        .num_tracks(2)
        .sectors_per_track(2)
        .build()
        .unwrap();
    let mut directory = [0xE5; 512];
    directory[0] = 0;
    directory[1..9].copy_from_slice(b"SIDE1   ");
    directory[9..12].copy_from_slice(b"TXT");
    directory[15] = 8; // 1024 bytes in block 1
    directory[16] = 1;
    image.write_sector(0, 0, 0xC1, &directory).unwrap();
    image.write_sector(1, 0, 0xC1, &[0x11; 512]).unwrap();
    image.write_sector(1, 0, 0xC2, &[0x22; 512]).unwrap();

    let mut spec = DiskSpecification::new();
    spec.side = DiskSpecSide::DoubleAlternate;
    spec.tracks_per_side = 2;
    spec.sectors_per_track = 2;
    spec.reserved_tracks = 0;
    spec.directory_blocks = 1;
    let fs = CpmFileSystem::new(&image, spec).unwrap();
    let data = fs.read_file_binary("SIDE1.TXT", true).unwrap();
    assert_eq!(&data[..512], &[0x11; 512]);
    assert_eq!(&data[512..], &[0x22; 512]);
}

#[test]
fn test_identical_names_on_different_cpm_users_stay_separate() {
    let mut image = DiskImage::builder()
        .num_tracks(3)
        .sectors_per_track(2)
        .build()
        .unwrap();
    let mut directory = [0xE5; 512];
    for (index, user, block) in [(0, 0, 1), (1, 1, 2)] {
        let offset = index * 32;
        directory[offset] = user;
        directory[offset + 1..offset + 9].copy_from_slice(b"SAME    ");
        directory[offset + 9..offset + 12].copy_from_slice(b"TXT");
        directory[offset + 15] = 8;
        directory[offset + 16] = block;
    }
    image.write_sector(0, 0, 0xC1, &directory).unwrap();
    image.write_sector(0, 1, 0xC1, &[0x11; 512]).unwrap();
    image.write_sector(0, 1, 0xC2, &[0x11; 512]).unwrap();
    image.write_sector(0, 2, 0xC1, &[0x22; 512]).unwrap();
    image.write_sector(0, 2, 0xC2, &[0x22; 512]).unwrap();

    let mut spec = DiskSpecification::new();
    spec.tracks_per_side = 3;
    spec.sectors_per_track = 2;
    spec.reserved_tracks = 0;
    spec.directory_blocks = 1;
    let fs = CpmFileSystem::new(&image, spec).unwrap();
    let entries = fs.read_dir().unwrap();
    assert_eq!(entries.len(), 2);
    assert!(entries.iter().any(|entry| entry.user == 0 && entry.name == "SAME.TXT"));
    assert!(entries.iter().any(|entry| entry.user == 1 && entry.name == "SAME.TXT"));
    assert_eq!(fs.read_file_binary("SAME.TXT", true).unwrap(), vec![0x11; 1024]);
    assert_eq!(fs.read_file_binary("1:SAME.TXT", true).unwrap(), vec![0x22; 1024]);
}
