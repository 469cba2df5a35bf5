use dskmanager::format::{DiskImageFormat, FormatSpec};
use dskmanager::image::DiskImage;

#[test]
fn test_create_image() {
    let spec = FormatSpec::amstrad_system();
    let image = DiskImage::create(spec).unwrap();

    assert_eq!(image.format(), DiskImageFormat::StandardDSK);
    assert_eq!(image.disk_count(), 1);
    assert!(image.is_changed());
}

#[test]
fn test_builder() {
    let image = DiskImage::builder()
        .num_sides(2)
        .num_tracks(40)
        .build()
        .unwrap();

    assert_eq!(image.disk_count(), 2);
}

#[test]
fn test_get_disk() {
    let image = DiskImage::builder().num_sides(2).build().unwrap();

    assert!(image.get_disk(0).is_some());
    assert!(image.get_disk(1).is_some());
    assert!(image.get_disk(2).is_none());
}

#[test]
fn test_read_write_sector() {
    let mut image = DiskImage::builder()
        .num_sides(1)
        .num_tracks(2)
        .sectors_per_track(3)
        .build()
        .unwrap();

    // Write data
    let test_data = vec![0x42; 512];
    image
        .write_sector(0, 0, 0xC1, &test_data)
        .unwrap();

    // Read it back
    let read_data = image.read_sector(0, 0, 0xC1).unwrap();
    assert_eq!(read_data, test_data.as_slice());
    assert!(image.is_changed());
}

#[test]
fn test_read_invalid_sector() {
    let image = DiskImage::builder().build().unwrap();

    let result = image.read_sector(0, 0, 0xFF);
    assert!(result.is_err());
}

#[test]
fn test_write_invalid_track() {
    let mut image = DiskImage::builder().num_tracks(10).build().unwrap();

    let data = vec![0; 512];
    let result = image.write_sector(0, 50, 0xC1, &data);
    assert!(result.is_err());
}

#[test]
fn test_capacity() {
    let image = DiskImage::builder()
        .num_sides(2)
        .num_tracks(40)
        .sectors_per_track(9)
        .sector_size(512)
        .build()
        .unwrap();

    assert_eq!(image.total_capacity(), 2 * 40 * 9 * 512);
    assert_eq!(image.total_capacity() / 1024, 360);
}
