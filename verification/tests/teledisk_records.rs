use dskmanager::error::DskError;
use dskmanager::format::SideMode;
use dskmanager::image::sector::{FdcStatus1, FdcStatus2, SectorId};
use dskmanager::image::DiskImage;
use dskmanager::io::crc::teledisk_crc;
use dskmanager::io::td0_reader::read_td0;

fn header(signature: &[u8; 2], version: u8, rate: u8, stepping: u8, sides: u8) -> Vec<u8> {
    let mut h = signature.to_vec();
    h.extend_from_slice(&[0, 0, version, rate, 1, stepping, 0, sides]);
    let crc = teledisk_crc(&h).to_le_bytes();
    h.extend_from_slice(&crc);
    h
}

fn track(count: u8, number: u8, side: u8) -> Vec<u8> {
    let mut t = vec![count, number, side];
    t.push(teledisk_crc(&t) as u8);
    t
}

fn sector(track: u8, id: u8, code: u8, flags: u8, record: &[u8], data: &[u8]) -> Vec<u8> {
    let mut s = vec![track, 0, id, code, flags];
    let mut checked = s.clone();
    if flags & 0x30 == 0 {
        checked.extend_from_slice(data);
    }
    s.push(teledisk_crc(&checked) as u8);
    s.extend_from_slice(record);
    s
}

fn raw(data: &[u8]) -> Vec<u8> {
    let mut r = (data.len() as u16 + 1).to_le_bytes().to_vec();
    r.push(0);
    r.extend_from_slice(data);
    r
}

const END: [u8; 4] = [0xFF, 0, 0, 0];

fn join(parts: &[Vec<u8>]) -> Vec<u8> {
    let mut all = parts.concat();
    all.extend_from_slice(&END);
    all
}

fn opened(file: &[u8]) -> DiskImage {
    DiskImage::open("some/disk.td0", file).unwrap().unwrap()
}

#[test]
fn sector_records_have_three_encodings() {
    let data: Vec<u8> = (0..128).collect();
    let file = join(&[
        header(b"TD", 21, 0, 0, 1),
        track(3, 0, 0),
        sector(0, 1, 0, 0, &raw(&data), &data),
        sector(0, 2, 0, 0, &[5, 0, 1, 64, 0, 0xAB, 0xCD], &[0xAB, 0xCD].repeat(64)),
        sector(0, 3, 0, 0, &[7, 0, 2, 1, 63, 1, 2, 0, 2, 8, 9], &[[1u8, 2].repeat(63), vec![8, 9]].concat()),
    ]);
    let image = opened(&file);
    assert!(image.warnings().is_empty(), "{:?}", image.warnings());
    assert_eq!(image.read_sector(0, 0, 1).unwrap(), data.as_slice());
    assert_eq!(image.read_sector(0, 0, 2).unwrap(), [0xAB, 0xCD].repeat(64).as_slice());
    assert_eq!(&image.read_sector(0, 0, 3).unwrap()[124..], &[1, 2, 8, 9]);
    assert_eq!(image.filename(), Some("disk.td0"));
    assert!(!image.is_changed());
    assert_eq!(image.spec().sectors_per_track, 3);
    assert_eq!(image.spec().sector_size, 128);
    assert_eq!(image.spec().first_sector_id, 1);
    assert_eq!(image.spec().side_mode, SideMode::SingleSide);
}

#[test]
fn flags_become_status() {
    let data = [7u8; 128];
    let file = join(&[
        header(b"TD", 21, 0, 0, 1),
        track(4, 2, 0),
        sector(2, 1, 0, 0x02, &raw(&data), &data),
        sector(2, 2, 0, 0x04, &raw(&data), &data),
        sector(2, 3, 0, 0x10, &[], &[]),
        sector(2, 4, 1, 0x22, &[], &[]),
    ]);
    let image = opened(&file);
    assert!(image.warnings().is_empty(), "{:?}", image.warnings());
    let t = image.get_disk(0).unwrap().get_track(2).unwrap();
    let status: Vec<(FdcStatus1, FdcStatus2)> = t.sectors().iter().map(|s| (s.status1, s.status2)).collect();
    assert_eq!(
        status,
        vec![
            (FdcStatus1(0x20), FdcStatus2(0)),
            (FdcStatus1(0), FdcStatus2(0x40)),
            (FdcStatus1(0x04), FdcStatus2(0)),
            (FdcStatus1(0x24), FdcStatus2(0)),
        ]
    );
    assert_eq!(image.read_sector(0, 2, 3).unwrap(), &[0xF6; 128]);
    assert_eq!(image.read_sector(0, 2, 4).unwrap(), &[0; 256]);
    assert_eq!(t.sectors()[3].sector_id(), SectorId::new(2, 0, 4, 1));
    assert_eq!(image.spec().num_tracks, 3);
    assert!(image.get_disk(0).unwrap().get_track(0).unwrap().is_empty());
}

#[test]
fn data_is_brought_to_size_with_a_warning() {
    let short = [1u8, 2, 3];
    let mut kept = short.to_vec();
    kept.resize(128, 0);
    let long = [9u8; 130];
    let file = join(&[
        header(b"TD", 21, 0, 0, 1),
        track(2, 0, 0),
        sector(0, 1, 0, 0, &raw(&short), &kept),
        sector(0, 2, 0, 0, &raw(&long), &long[..128]),
    ]);
    let image = opened(&file);
    assert_eq!(
        image.warnings(),
        &["TD0 sector data has 3 bytes; expected 128.", "TD0 sector data has 130 bytes; expected 128."]
    );
    assert_eq!(image.read_sector(0, 0, 1).unwrap(), kept.as_slice());
    assert_eq!(image.read_sector(0, 0, 2).unwrap(), &[9; 128]);
}

#[test]
fn wrong_checksums_are_warned_of() {
    let data = [7u8; 128];
    let mut comment = vec![0xAA, 0xBB, 2, 0, 80, 1, 2, 3, 4, 5];
    comment.extend_from_slice(b"hi");
    let mut file = join(&[
        header(b"TD", 21, 0, 0x80, 1),
        comment,
        track(1, 12, 1),
        sector(12, 105, 0, 0, &raw(&data), &data),
    ]);
    file[10] ^= 1;
    file[12 + 12 + 3] ^= 1;
    file[12 + 12 + 4 + 5] ^= 1;
    let image = opened(&file);
    assert_eq!(
        image.warnings(),
        &[
            "TD0 header CRC is invalid.",
            "TD0 comment CRC is invalid.",
            "TD0 track 12 side 1 header CRC is invalid.",
            "TD0 track 12 side 1 sector 105 header CRC is invalid.",
        ]
    );
    assert_eq!(image.disk_count(), 2);
    assert_eq!(image.spec().num_sides, 2);
    assert_eq!(image.spec().side_mode, SideMode::Successive);
    assert_eq!(image.read_sector(1, 12, 105).unwrap(), &data);
}

#[test]
fn comments_are_passed_over() {
    let data = [7u8; 128];
    let mut comment = vec![2, 0, 80, 1, 2, 3, 4, 5];
    comment.extend_from_slice(b"hi");
    let crc = teledisk_crc(&comment).to_le_bytes();
    let comment = [crc.to_vec(), comment].concat();
    let file = join(&[
        header(b"TD", 21, 0, 0x80, 2),
        comment,
        track(1, 0, 0),
        sector(0, 1, 0, 0, &raw(&data), &data),
    ]);
    let image = opened(&file);
    assert!(image.warnings().is_empty());
    assert_eq!(image.disk_count(), 2);
}

#[test]
fn later_tracks_replace_earlier_ones() {
    let file = join(&[
        header(b"TD", 21, 0, 0, 1),
        track(1, 0, 0),
        sector(0, 1, 0, 0, &raw(&[1; 128]), &[1; 128]),
        track(1, 0, 0),
        sector(0, 1, 0, 0, &raw(&[2; 128]), &[2; 128]),
        track(0, 255, 0),
    ]);
    let image = opened(&file);
    assert_eq!(image.read_sector(0, 0, 1).unwrap(), &[2; 128]);
    assert_eq!(image.spec().num_tracks, 255);
    assert_eq!(image.disks()[0].track_count(), 255);
}

#[test]
fn images_without_sectors_have_a_plain_geometry() {
    let image = opened(&join(&[header(b"TD", 21, 0, 0, 1), track(0, 1, 0)]));
    let spec = image.spec();
    assert_eq!((spec.num_tracks, spec.sectors_per_track, spec.sector_size, spec.first_sector_id), (2, 0, 512, 1));
    assert_eq!((spec.gap3_length, spec.filler_byte, spec.interleave), (0x2A, 0xE5, 1));
}

fn nibbled(bytes: &[u8]) -> Vec<u8> {
    let mut out = Vec::new();
    for part in bytes.chunks(2000) {
        let mut nibbles = Vec::new();
        for b in part {
            nibbles.extend_from_slice(&[b & 15, b >> 4, 0]);
        }
        out.extend_from_slice(&(nibbles.len() as u16).to_le_bytes());
        out.extend(nibbles.chunks(2).map(|p| p[0] | p.get(1).unwrap_or(&0) << 4));
    }
    out
}

#[test]
fn packed_files_are_unpacked_first() {
    let data: Vec<u8> = (0..512).map(|i| (i / 3) as u8).collect();
    let body = join(&[track(1, 0, 0), sector(0, 1, 2, 0, &raw(&data), &data)]);
    let file = [header(b"td", 11, 0, 0, 1), nibbled(&body)].concat();
    let image = opened(&file);
    assert!(image.warnings().is_empty(), "{:?}", image.warnings());
    assert_eq!(image.read_sector(0, 0, 1).unwrap(), data.as_slice());
    match read_td0(&header(b"td", 21, 0, 0, 1), None) {
        Err(DskError::InvalidFormat(m)) => assert_eq!(m, "TD0 LZHUF stream is empty"),
        other => panic!("{:?}", other),
    }
}

fn parse_error(parts: &[Vec<u8>]) -> (usize, String) {
    match read_td0(&[vec![header(b"TD", 21, 0, 0, 1)], parts.to_vec()].concat().concat(), None) {
        Err(DskError::Parse { offset, message }) => (offset, message),
        other => panic!("{:?}", other),
    }
}

#[test]
fn damaged_files_are_refused() {
    let short = |s: &str| s.to_string();
    assert_eq!(parse_error(&[]), (0, short("Short TD0 track header")));
    assert_eq!(parse_error(&[track(1, 0, 0)]), (4, short("Short TD0 sector header")));
    assert_eq!(
        parse_error(&[track(1, 0, 0), sector(0, 1, 8, 0x10, &[], &[])]),
        (4, short("Invalid TD0 sector size code"))
    );
    assert_eq!(
        parse_error(&[track(1, 0, 0), sector(0, 1, 0, 0, &[], &[])]),
        (10, short("Short TD0 sector data header"))
    );
    assert_eq!(
        parse_error(&[track(1, 0, 0), sector(0, 1, 0, 0, &[0, 0, 0], &[])]),
        (10, short("Invalid TD0 data block size"))
    );
    assert_eq!(
        parse_error(&[track(1, 0, 0), sector(0, 1, 0, 0, &[3, 0, 0, 1], &[])]),
        (13, short("Short TD0 sector data"))
    );
    assert_eq!(
        parse_error(&[track(1, 0, 0), sector(0, 1, 0, 0, &[5, 0, 1, 1, 0], &[])]),
        (13, short("Short TD0 sector repeat data"))
    );
    assert_eq!(
        parse_error(&[track(1, 0, 0), sector(0, 1, 0, 0, &[5, 0, 2, 1], &[])]),
        (14, short("Short TD0 RLE block"))
    );
    assert_eq!(
        parse_error(&[track(1, 0, 0), sector(0, 1, 0, 0, &[5, 0, 3, 1], &[])]),
        (10, short("Unsupported TD0 sector encoding"))
    );
    for (file, message) in [
        (vec![0; 11], "TD0 file has unexpected size 11 bytes"),
        (vec![0; 4_194_305], "TD0 file has unexpected size 4194305 bytes"),
        (vec![0; 12], "Invalid TD0 signature"),
        (join(&[header(b"TD", 21, 0, 0, 1)]), "TD0 image contains no tracks"),
    ] {
        match read_td0(&file, None) {
            Err(DskError::InvalidFormat(m)) => assert_eq!(m, message),
            other => panic!("{:?}", other),
        }
    }
    let mut commented = header(b"Td", 21, 0, 0x80, 1);
    commented.extend_from_slice(&[0, 0, 5, 0, 0, 0, 0, 0, 0, 0, 1]);
    match read_td0(&commented, None) {
        Err(DskError::Parse { offset, message }) => assert_eq!((offset, message.as_str()), (10, "Short TD0 comment data")),
        other => panic!("{:?}", other),
    }
}
