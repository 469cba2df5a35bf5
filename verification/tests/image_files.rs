use dskmanager::error::DskError;
use dskmanager::format::{DiskImageFormat, FormatSpec};
use dskmanager::image::DiskImage;
use dskmanager::io::paths::{ends_in, extension_of, name_of, FileKind};
use dskmanager::text::string_of;

fn name(path: &str) -> Option<String> {
    name_of(path).map(|n| string_of(&n))
}

fn extension(path: &str) -> Option<String> {
    extension_of(path).map(|e| string_of(&e))
}

#[test]
fn names_and_extensions_are_split_off() {
    for path in [
        "disk.dsk", "a/b/disk.TD0", "/", "", ".", "..", "a/..", "a/.", "a/./", "a.b/c", ".hidden", "x/.hidden.mgt", "a.b.c", "tail.",
        "a//", "./a.td0/",
    ] {
        let p = std::path::Path::new(path);
        let expected = p.file_name().and_then(|n| n.to_str()).map(str::to_string);
        assert_eq!(name(path), expected, "{}", path);
        let expected = p.extension().and_then(|e| e.to_str()).map(str::to_string);
        assert_eq!(extension(path), expected, "{}", path);
    }
    assert!(ends_in("x.TrD", "trd"));
    assert!(!ends_in("trd", "trd"));
}

#[test]
fn kinds_are_told_by_extensions() {
    assert_eq!(FileKind::of("a.json"), FileKind::Json);
    assert_eq!(FileKind::of("a.TRD"), FileKind::Trd);
    assert_eq!(FileKind::of("a.mgt"), FileKind::Mgt);
    assert_eq!(FileKind::of("a.Td0"), FileKind::Td0);
    assert_eq!(FileKind::of("a.dsk"), FileKind::Dsk);
    assert_eq!(FileKind::of("a"), FileKind::Dsk);
    assert_eq!(FileKind::of("a.td0/b"), FileKind::Dsk);
}

#[test]
fn other_kinds_are_not_opened_here() {
    assert!(DiskImage::open("a.dsk", &[0; 20]).is_none());
    assert!(DiskImage::open("a.json", b"{}").is_none());
    match DiskImage::open("a.td0", b"TD") {
        Some(Err(DskError::InvalidFormat(m))) => assert_eq!(m, "TD0 file has unexpected size 2 bytes"),
        other => panic!("{:?}", other),
    }
}

fn mgt() -> DiskImage {
    DiskImage::create(FormatSpec::new(2, 80, 10, 512).with_first_sector_id(1)).unwrap()
}

#[test]
fn output_formats_follow_extensions() {
    let image = mgt();
    assert_eq!(image.output_format("a.json").unwrap(), None);
    assert_eq!(image.output_format("a.MGT").unwrap(), Some(DiskImageFormat::RawMgt));
    assert_eq!(image.output_format("a.td0").unwrap(), Some(DiskImageFormat::RawTd0));
    assert_eq!(image.output_format("a.dsk").unwrap(), Some(DiskImageFormat::StandardDSK));
    assert_eq!(image.output_format("a.img").unwrap(), Some(DiskImageFormat::StandardDSK));
    let trd = DiskImage::create(FormatSpec::trdos()).unwrap();
    assert_eq!(trd.output_format("a.trd").unwrap(), Some(DiskImageFormat::RawTrd));
    let raw = DiskImage::builder().format(DiskImageFormat::RawTrd).build().unwrap();
    assert_eq!(raw.output_format("a.dsk").unwrap(), Some(DiskImageFormat::ExtendedDSK));
    assert_eq!(raw.output_format("a").unwrap(), Some(DiskImageFormat::RawTrd));
}

fn refusal(image: &DiskImage, path: &str) -> String {
    match image.output_format(path) {
        Err(DskError::InvalidFormat(m)) => m,
        other => panic!("{:?}", other),
    }
}

#[test]
fn lossy_geometry_is_refused() {
    let plain = "Image geometry cannot be represented in the requested raw format";
    let amstrad = DiskImage::create(FormatSpec::amstrad_data()).unwrap();
    assert_eq!(refusal(&amstrad, "a.mgt"), plain);
    assert_eq!(refusal(&amstrad, "a.trd"), plain);
    let long = DiskImage::create(FormatSpec::new(1, 81, 16, 256).with_first_sector_id(1)).unwrap();
    assert_eq!(refusal(&long, "a.trd"), "TRD requires 1 to 80 tracks per side");
    let mut image = mgt();
    assert!(image.validate_raw_geometry(2, 80, 10, 512).is_ok());
    image.write_sector(1, 79, 10, &[0; 511]).unwrap();
    assert!(image.validate_raw_geometry(2, 80, 10, 512).is_err());
    assert_eq!(refusal(&image, "a.mgt"), plain);
    let none = DiskImage::from_parts(DiskImageFormat::RawTd0, *image.spec(), Vec::new(), false, None, Vec::new());
    assert_eq!(refusal(&none, "a.td0"), "TD0 requires one or two sides");
}

#[test]
fn saving_settles_format_and_changes() {
    let mut image = DiskImage::builder().num_tracks(2).sectors_per_track(1).build().unwrap();
    assert!(image.is_changed());
    image.save("copy.td0", Ok(())).unwrap();
    assert_eq!(image.format(), DiskImageFormat::RawTd0);
    assert!(!image.is_changed());
    image.write_sector(0, 0, 0xC1, &[1]).unwrap();
    assert!(matches!(image.save("copy.dsk", Err(DskError::DiskFull)), Err(DskError::DiskFull)));
    assert_eq!(image.format(), DiskImageFormat::RawTd0);
    assert!(image.is_changed());
    image.save("copy.json", Ok(())).unwrap();
    assert_eq!(image.format(), DiskImageFormat::RawTd0);
    assert!(!image.is_changed());
    image.save("copy.dsk", Ok(())).unwrap();
    assert_eq!(image.format(), DiskImageFormat::ExtendedDSK);
}

#[test]
fn refused_saves_change_nothing() {
    let mut image = DiskImage::create(FormatSpec::amstrad_data()).unwrap();
    assert!(matches!(image.save("a.mgt", Ok(())), Err(DskError::InvalidFormat(_))));
    assert_eq!(image.format(), DiskImageFormat::StandardDSK);
    assert!(image.is_changed());
}
