use dskmanager::format::DiskImageFormat;
use dskmanager::image::DiskImage;
use dskmanager::io::crc::teledisk_crc;
use dskmanager::io::lzw::decode_lzw_block;
use dskmanager::io::td0_reader::{decode_rle, is_td0_file};

const LAST_TRACK: u8 = 0xFF;

#[test]
fn test_td0_extension() {
    assert!(is_td0_file("CPM3.TD0"));
    assert!(!is_td0_file("disk.dsk"));
}

#[test]
fn test_lzw_block() {
    // Codes for "ABABA": A, B, AB, ABA in 12-bit nibble order.
    let codes = [0x41u16, 0x42, 0x100, 0x41];
    let mut encoded = Vec::new();
    let mut nibbles = Vec::new();
    for code in codes {
        nibbles.push((code & 0x0F) as u8);
        nibbles.push(((code >> 4) & 0x0F) as u8);
        nibbles.push(((code >> 8) & 0x0F) as u8);
    }
    for pair in nibbles.chunks(2) {
        encoded.push(pair[0] | (pair.get(1).copied().unwrap_or(0) << 4));
    }
    assert_eq!(decode_lzw_block(&encoded, nibbles.len()).unwrap(), b"ABABA");
}

#[test]
fn test_rle_block() {
    let payload = [1, 2, b'A', b'B'];
    let mut cursor = 0;
    assert_eq!(decode_rle(&payload, &mut cursor, 4).unwrap(), b"ABAB");
}

#[test]
fn test_uncompressed_td0_image() {
    let mut image = vec![b'T', b'D', 0, 0, 15, 0, 1, 0, 0, 1, 0, 0];
    let header_crc = teledisk_crc(&image[..10]).to_le_bytes();
    image[10..12].copy_from_slice(&header_crc);

    let track_header = [1, 0, 0, teledisk_crc(&[1, 0, 0]) as u8];
    image.extend_from_slice(&track_header);

    let mut sector_header = [0, 0, 1, 2, 0, 0];
    let data = vec![0xE5; 512];
    let mut sector_crc_data = sector_header[..5].to_vec();
    sector_crc_data.extend_from_slice(&data);
    sector_header[5] = teledisk_crc(&sector_crc_data) as u8;
    image.extend_from_slice(&sector_header);
    image.extend_from_slice(&[0x01, 0x02, 0]);
    image.extend_from_slice(&data);
    image.extend_from_slice(&[LAST_TRACK, 0, 0, 0]);

    let path = "disks/dskmgr_td0.td0";
    let parsed = DiskImage::open(path, &image).unwrap().unwrap();

    assert_eq!(parsed.format(), DiskImageFormat::RawTd0);
    assert_eq!(parsed.spec().num_sides, 1);
    assert_eq!(parsed.spec().num_tracks, 1);
    assert_eq!(parsed.read_sector(0, 0, 1).unwrap(), data.as_slice());
    assert!(parsed.warnings().is_empty(), "{:?}", parsed.warnings());
}
