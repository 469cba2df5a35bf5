//! TeleDisk (TD0) file reader.
//!
//! A TD0 file stores floppy tracks and sector headers rather than a flat sector dump.
//! The reader turns these records into tracks and sectors.

use crate::bytes;
use crate::error::{DskError, ErrorView};
use crate::format::{DiskImageFormat, FormatSpec, SideMode};
use crate::image;
use crate::image::disk::{Disk, DiskView};
use crate::image::sector::{
    FdcStatus1, FdcStatus2, Sector, SectorId, SectorView, ST1_DATA_ERROR, ST1_NO_DATA,
    ST2_CONTROL_MARK,
};
use crate::image::track::{DataRate, RecordingMode, Track, TrackView};
use crate::image::{DiskImage, ImageView};
use crate::io::crc;
use crate::io::lzhuf;
use crate::io::lzw;
use crate::io::paths;
use crate::text;
use vstd::prelude::*;

verus! {

/// The size of the file header.
pub const HEADER_SIZE: usize = 12;

/// Larger files are not TeleDisk images of floppies.
pub const MAX_FILE_SIZE: usize = 4_194_304;

/// The sector count that marks the end of the track records.
pub const LAST_TRACK: u8 = 0xFF;

/// Sector flag: the sector was read with a checksum error.
pub const FLAG_CRC_ERROR: u8 = 0x02;

/// Sector flag: deleted data mark.
pub const FLAG_DELETED: u8 = 0x04;

/// Sector flag: the sector was not allocated, so it was not stored.
pub const FLAG_UNALLOCATED: u8 = 0x10;

/// Sector flag: the sector has an ID field but no data.
pub const FLAG_NO_DATA: u8 = 0x20;

/// The `length` bytes at `cursor`, or why they cannot be had.
pub open spec fn taken(data: Seq<u8>, cursor: int, length: int, what: Seq<char>) -> Result<Seq<u8>, ErrorView> {
    if cursor + length > usize::MAX {
        Err(ErrorView::Parse { offset: cursor, message: "Invalid TD0 "@ + what + " length"@ })
    } else if cursor + length > data.len() {
        Err(ErrorView::Parse { offset: cursor, message: "Short TD0 "@ + what })
    } else {
        Ok(data.subrange(cursor, cursor + length))
    }
}

/// `pattern`, `n` times.
pub open spec fn repeated(pattern: Seq<u8>, n: int) -> Seq<u8>
    decreases n,
{
    if n <= 0 {
        Seq::empty()
    } else {
        repeated(pattern, n - 1) + pattern
    }
}

/// The first `size` bytes of `s`, or all of it.
pub open spec fn cut(s: Seq<u8>, size: int) -> Seq<u8> {
    if s.len() > size { s.take(size) } else { s }
}

/// The first `size` bytes of `s`, filled up with zeros.
pub open spec fn resized(s: Seq<u8>, size: int) -> Seq<u8> {
    Seq::new(size as nat, |i: int| if i < s.len() { s[i] } else { 0u8 })
}

/// Run-length records from `cursor` on, appended to `out` until it has `size` bytes; and
/// where they end. A record with length 0 holds literal bytes, any other a pattern of
/// twice that length that is repeated.
pub open spec fn rle(data: Seq<u8>, cursor: int, size: int, out: Seq<u8>) -> Result<(Seq<u8>, int), ErrorView>
    decreases data.len() - cursor,
{
    if out.len() >= size {
        Ok((out, cursor))
    } else if cursor >= data.len() {
        Err(ErrorView::Parse { offset: cursor, message: "Short TD0 RLE block"@ })
    } else if cursor + 1 >= data.len() {
        Err(ErrorView::Parse { offset: cursor + 1, message: "Short TD0 RLE block"@ })
    } else {
        let length = data[cursor] as int;
        let count = data[cursor + 1] as int;
        let start = cursor + 2;
        if count == 0 {
            Err(ErrorView::Parse { offset: start, message: "Empty TD0 RLE block"@ })
        } else if length == 0 {
            if start + count > data.len() {
                Err(ErrorView::Parse { offset: start, message: "Short TD0 literal block"@ })
            } else {
                rle(data, start + count, size, cut(out + data.subrange(start, start + count), size))
            }
        } else {
            if start + 2 * length > data.len() {
                Err(ErrorView::Parse { offset: start, message: "Short TD0 repeat block"@ })
            } else {
                let pattern = data.subrange(start, start + 2 * length);
                rle(data, start + 2 * length, size, cut(out + repeated(pattern, count), size))
            }
        }
    }
}

/// The data record of a sector at `cursor`, as it is stored; and where it ends.
pub open spec fn stored_data(data: Seq<u8>, cursor: int, size: int) -> Result<(Seq<u8>, int), ErrorView> {
    match taken(data, cursor, 3, "sector data header"@) {
        Err(e) => Err(e),
        Ok(header) => {
            let block_size = bytes::word_at(header, 0);
            if block_size < 1 {
                Err(ErrorView::Parse { offset: cursor, message: "Invalid TD0 data block size"@ })
            } else if header[2] == 0 {
                match taken(data, cursor + 3, block_size - 1, "sector data"@) {
                    Err(e) => Err(e),
                    Ok(payload) => Ok((payload, cursor + 3 + block_size - 1)),
                }
            } else if header[2] == 1 {
                match taken(data, cursor + 3, 4, "sector repeat data"@) {
                    Err(e) => Err(e),
                    Ok(p) => Ok((repeated(p.subrange(2, 4), bytes::word_at(p, 0)), cursor + 7)),
                }
            } else if header[2] == 2 {
                rle(data, cursor + 3, size, Seq::empty())
            } else {
                Err(ErrorView::Parse { offset: cursor, message: "Unsupported TD0 sector encoding"@ })
            }
        },
    }
}

/// The warning about sector data of the wrong size.
pub open spec fn size_warning(actual: int, expected: int) -> Seq<char> {
    "TD0 sector data has "@ + text::decimal(actual) + " bytes; expected "@ + text::decimal(expected) + "."@
}

/// The data of a sector: brought to the size of the sector, with a warning if it had
/// another; the read position behind it; and the warnings so far.
pub open spec fn sector_data(data: Seq<u8>, cursor: int, size: int, warnings: Seq<Seq<char>>) -> Result<(Seq<u8>, int, Seq<Seq<char>>), ErrorView> {
    match stored_data(data, cursor, size) {
        Err(e) => Err(e),
        Ok((d, next)) => if d.len() == size {
            Ok((d, next, warnings))
        } else {
            Ok((resized(d, size), next, warnings.push(size_warning(d.len() as int, size))))
        },
    }
}

/// What has been read so far: the read position, the warnings, and the track with the
/// sectors read so far.
#[verifier::ext_equal]
pub struct Progress {
    pub cursor: int,
    pub warnings: Seq<Seq<char>>,
    pub track: TrackView,
}

/// Whether a flag is set.
pub open spec fn has_flag(flags: u8, flag: u8) -> bool {
    (flags / flag) % 2 == 1
}

/// Whether the record of a sector with these flags holds no data.
pub open spec fn no_data(flags: u8) -> bool {
    has_flag(flags, FLAG_UNALLOCATED) || has_flag(flags, FLAG_NO_DATA)
}

/// The warning about the checksum of a sector.
pub open spec fn sector_warning(track: int, side: int, sector: int) -> Seq<char> {
    "TD0 track "@ + text::decimal(track) + " side "@ + text::decimal(side) + " sector "@
        + text::decimal(sector) + " header CRC is invalid."@
}

/// The warning about the checksum of a track header.
pub open spec fn track_warning(track: int, side: int) -> Seq<char> {
    "TD0 track "@ + text::decimal(track) + " side "@ + text::decimal(side) + " header CRC is invalid."@
}

/// The sector that a header, its data and its flags make up.
pub open spec fn sector_of(header: Seq<u8>, d: Seq<u8>) -> SectorView {
    let flags = header[4];
    SectorView {
        id: SectorId {
            track: header[0],
            side: header[1] % 2,
            sector: header[2],
            size_code: header[3],
        },
        status1: FdcStatus1(
            ((if has_flag(flags, FLAG_CRC_ERROR) { ST1_DATA_ERROR as int } else { 0 }) + (if no_data(flags) {
                ST1_NO_DATA as int
            } else {
                0
            })) as u8,
        ),
        status2: FdcStatus2(if has_flag(flags, FLAG_DELETED) { ST2_CONTROL_MARK } else { 0 }),
        data: d,
    }
}

/// Appends a sector to the track, with a warning if its checksum is wrong.
pub open spec fn with_sector(p: Progress, header: Seq<u8>, d: Seq<u8>) -> Progress {
    let checked = header.take(5) + (if no_data(header[4]) { Seq::empty() } else { d });
    Progress {
        cursor: p.cursor,
        warnings: if crc::crc_of(checked) % 256 == header[5] {
            p.warnings
        } else {
            p.warnings.push(
                sector_warning(p.track.track_number as int, p.track.side_number as int, header[2] as int),
            )
        },
        track: TrackView { sectors: p.track.sectors.push(sector_of(header, d)), ..p.track },
    }
}

/// One sector record.
pub open spec fn sector_step(data: Seq<u8>, p: Progress) -> Result<Progress, ErrorView> {
    match taken(data, p.cursor, 6, "sector header"@) {
        Err(e) => Err(e),
        Ok(header) => {
            let size = crate::format::coded_size(header[3]);
            if header[3] > 7 {
                Err(ErrorView::Parse { offset: p.cursor, message: "Invalid TD0 sector size code"@ })
            } else if no_data(header[4]) {
                let filler = if has_flag(header[4], FLAG_UNALLOCATED) { 0xF6u8 } else { 0u8 };
                Ok(
                    with_sector(
                        Progress { cursor: p.cursor + 6, ..p },
                        header,
                        Seq::new(size as nat, |i: int| filler),
                    ),
                )
            } else {
                match sector_data(data, p.cursor + 6, size, p.warnings) {
                    Err(e) => Err(e),
                    Ok((d, next, warnings)) => Ok(
                        with_sector(Progress { cursor: next, warnings, ..p }, header, d),
                    ),
                }
            }
        },
    }
}

/// `n` sector records.
pub open spec fn sector_steps(data: Seq<u8>, p: Progress, n: int) -> Result<Progress, ErrorView>
    decreases n,
{
    if n <= 0 {
        Ok(p)
    } else {
        match sector_steps(data, p, n - 1) {
            Err(e) => Err(e),
            Ok(q) => sector_step(data, q),
        }
    }
}

/// The track that a track header announces, still without sectors. `rate` is the data
/// rate byte of the file header.
pub open spec fn track_of(header: Seq<u8>, rate: u8) -> TrackView {
    TrackView {
        track_number: header[1],
        side_number: header[2] % 2,
        gap3_length: 0x2A,
        filler_byte: 0xE5,
        recording_mode: if rate >= 0x80 { RecordingMode::FM } else { RecordingMode::MFM },
        data_rate: crate::image::track::rate_of((rate % 4 + 1) as u8),
        sectors: Seq::empty(),
    }
}

/// The start of a track: its header has been read and its checksum tested.
pub open spec fn track_start(header: Seq<u8>, rate: u8, cursor: int, warnings: Seq<Seq<char>>) -> Progress {
    Progress {
        cursor: cursor + 4,
        warnings: if crc::crc_of(header.take(3)) % 256 == header[3] {
            warnings
        } else {
            warnings.push(track_warning(header[1] as int, (header[2] % 2) as int))
        },
        track: track_of(header, rate),
    }
}

/// All track records from `cursor` on, behind those of `tracks`; and the warnings.
pub open spec fn track_steps(
    data: Seq<u8>,
    rate: u8,
    cursor: int,
    warnings: Seq<Seq<char>>,
    tracks: Seq<TrackView>,
) -> Result<(Seq<TrackView>, Seq<Seq<char>>), ErrorView>
    decreases data.len() - cursor,
{
    match taken(data, cursor, 4, "track header"@) {
        Err(e) => Err(e),
        Ok(header) => if header[0] == LAST_TRACK {
            Ok((tracks, warnings))
        } else {
            match sector_steps(data, track_start(header, rate, cursor, warnings), header[0] as int) {
                Err(e) => Err(e),
                Ok(p) => {
                    proof {
                        lemma_steps_range(data, track_start(header, rate, cursor, warnings), header[0] as int);
                    }
                    track_steps(data, rate, p.cursor, p.warnings, tracks.push(p.track))
                },
            }
        },
    }
}

/// The comment record at `cursor`: where it ends, and the warnings.
pub open spec fn comment(data: Seq<u8>, cursor: int, warnings: Seq<Seq<char>>) -> Result<(int, Seq<Seq<char>>), ErrorView> {
    match taken(data, cursor, 10, "comment header"@) {
        Err(e) => Err(e),
        Ok(header) => {
            let length = bytes::word_at(header, 2);
            match taken(data, cursor + 10, length, "comment data"@) {
                Err(e) => Err(e),
                Ok(d) => Ok(
                    (
                        cursor + 10 + length,
                        if crc::crc_of(header.subrange(2, 10) + d) == bytes::word_at(header, 0) {
                            warnings
                        } else {
                            warnings.push("TD0 comment CRC is invalid."@)
                        },
                    ),
                ),
            }
        },
    }
}

/// The highest track number among the first `n` tracks.
pub open spec fn max_track(tracks: Seq<TrackView>, n: int) -> int
    decreases n,
{
    if n <= 0 {
        0
    } else if tracks[n - 1].track_number > max_track(tracks, n - 1) {
        tracks[n - 1].track_number as int
    } else {
        max_track(tracks, n - 1)
    }
}

/// Whether one of the first `n` tracks is on side 1.
pub open spec fn uses_side_1(tracks: Seq<TrackView>, n: int) -> bool
    decreases n,
{
    n > 0 && (tracks[n - 1].side_number == 1 || uses_side_1(tracks, n - 1))
}

/// The number of sides: as many as the header declares (one or two), and two if a track
/// is on side 1.
pub open spec fn side_count(declared: u8, tracks: Seq<TrackView>) -> int {
    if declared >= 2 || uses_side_1(tracks, tracks.len() as int) { 2 } else { 1 }
}

/// The number of tracks per side, at most 255.
pub open spec fn track_count(tracks: Seq<TrackView>) -> int {
    let m = max_track(tracks, tracks.len() as int);
    if m >= 255 { 255 } else { m + 1 }
}

/// Track `number` of side `side`: the last of the first `n` records for it, or an empty track.
pub open spec fn placed(tracks: Seq<TrackView>, n: int, side: int, number: int) -> TrackView
    decreases n,
{
    if n <= 0 {
        TrackView::blank(number as u8, side as u8)
    } else if tracks[n - 1].side_number == side && tracks[n - 1].track_number == number {
        tracks[n - 1]
    } else {
        placed(tracks, n - 1, side, number)
    }
}

/// One side, after the first `n` track records have been placed on it.
pub open spec fn placed_side(tracks: Seq<TrackView>, n: int, side: int) -> DiskView {
    DiskView {
        side: side as u8,
        tracks: Seq::new(track_count(tracks) as nat, |t: int| placed(tracks, n, side, t)),
    }
}

/// All sides.
pub open spec fn placed_sides(declared: u8, tracks: Seq<TrackView>) -> Seq<DiskView> {
    Seq::new(
        side_count(declared, tracks) as nat,
        |s: int| placed_side(tracks, tracks.len() as int, s),
    )
}

/// The first track with sectors at or behind track `t`.
pub open spec fn first_full_track(d: DiskView, t: int) -> Option<TrackView>
    decreases d.tracks.len() - t,
{
    if t < 0 || t >= d.tracks.len() {
        None
    } else if d.tracks[t].sectors.len() > 0 {
        Some(d.tracks[t])
    } else {
        first_full_track(d, t + 1)
    }
}

/// The first track with sectors at or behind side `s`.
pub open spec fn first_full(disks: Seq<DiskView>, s: int) -> Option<TrackView>
    decreases disks.len() - s,
{
    if s < 0 || s >= disks.len() {
        None
    } else {
        match first_full_track(disks[s], 0) {
            Some(t) => Some(t),
            None => first_full(disks, s + 1),
        }
    }
}

/// The geometry of an image, told by its first track with sectors.
pub open spec fn geometry(sides: int, tracks: int, first: Option<TrackView>) -> FormatSpec {
    let plain = FormatSpec {
        num_sides: sides as u8,
        num_tracks: tracks as u8,
        sectors_per_track: 0,
        sector_size: 512,
        first_sector_id: 1,
        gap3_length: 0x2A,
        filler_byte: 0xE5,
        interleave: 1,
        side_mode: if sides == 1 { SideMode::SingleSide } else { SideMode::Successive },
    };
    match first {
        None => plain,
        Some(t) => FormatSpec {
            sectors_per_track: (t.sectors.len() % 256) as u8,
            sector_size: crate::format::coded_size(t.sectors[0].id.size_code) as u16,
            first_sector_id: t.sectors[0].id.sector,
            gap3_length: t.gap3_length,
            filler_byte: t.filler_byte,
            ..plain
        },
    }
}

/// The image made of the given track records.
pub open spec fn assembled(
    declared: u8,
    tracks: Seq<TrackView>,
    warnings: Seq<Seq<char>>,
    filename: Option<Seq<char>>,
) -> ImageView {
    let disks = placed_sides(declared, tracks);
    ImageView {
        format: DiskImageFormat::RawTd0,
        spec: geometry(side_count(declared, tracks), track_count(tracks), first_full(disks, 0)),
        disks,
        changed: false,
        filename,
        warnings,
    }
}

/// The records of a file, decompressed as its header says: a capital T for none, version
/// 2x for LZHUF, otherwise LZW.
pub open spec fn unpacked(file: Seq<u8>) -> Result<Seq<u8>, ErrorView> {
    let body = file.skip(12);
    if file[0] != 0x74 {
        Ok(body)
    } else if (file[4] / 10) % 10 == 2 {
        lzhuf::lzhuf_stream(body)
    } else {
        lzw::lzw_stream(body, 0, Seq::empty())
    }
}

/// The image in a TeleDisk file, or why there is none.
pub open spec fn td0_image(file: Seq<u8>, filename: Option<Seq<char>>) -> Result<ImageView, ErrorView> {
    if let Err(e) = size_allowed(file.len() as int) {
        Err(e)
    } else if !((file[0] == 0x54 || file[0] == 0x74) && (file[1] == 0x44 || file[1] == 0x64)) {
        Err(ErrorView::InvalidFormat("Invalid TD0 signature"@))
    } else {
        let warnings: Seq<Seq<char>> = if crc::crc_of(file.take(10)) == bytes::word_at(file, 10) {
            Seq::empty()
        } else {
            seq!["TD0 header CRC is invalid."@]
        };
        match unpacked(file) {
            Err(e) => Err(e),
            Ok(data) => {
                let start = if file[7] >= 0x80 {
                    comment(data, 0, warnings)
                } else {
                    Ok((0int, warnings))
                };
                match start {
                    Err(e) => Err(e),
                    Ok((cursor, warnings)) => match track_steps(data, file[5], cursor, warnings, Seq::empty()) {
                        Err(e) => Err(e),
                        Ok((tracks, warnings)) => if tracks.len() == 0 {
                            Err(ErrorView::InvalidFormat("TD0 image contains no tracks"@))
                        } else {
                            Ok(assembled(file[9], tracks, warnings, filename))
                        },
                    },
                }
            },
        }
    }
}

/// Takes `length` bytes at the cursor and moves it past them.
fn take<'a>(data: &'a [u8], cursor: &mut usize, length: usize, what: &str) -> (r: Result<&'a [u8], DskError>)
    ensures
        match r {
            Ok(s) => {
                &&& taken(data@, *old(cursor) as int, length as int, what@) == Ok::<Seq<u8>, ErrorView>(s@)
                &&& *final(cursor) == *old(cursor) + length
                &&& *final(cursor) <= data@.len()
                &&& s@.len() == length
            },
            Err(e) => {
                &&& taken(data@, *old(cursor) as int, length as int, what@) == Err::<Seq<u8>, ErrorView>(e@)
                &&& *final(cursor) == *old(cursor)
            },
        },
{
    let start: usize = *cursor;
    if length > usize::MAX - start {
        let mut message = "Invalid TD0 ".to_string();
        message.append(what);
        message.append(" length");
        return Err(DskError::Parse { offset: start, message });
    }
    let end: usize = start + length;
    if end > data.len() {
        let mut message = "Short TD0 ".to_string();
        message.append(what);
        return Err(DskError::Parse { offset: start, message });
    }
    *cursor = end;
    Ok(vstd::slice::slice_subrange(data, start, end))
}

/// Appends `pattern` to `out`, `n` times.
fn push_repeated(out: &mut Vec<u8>, pattern: &[u8], n: usize)
    ensures
        final(out)@ == old(out)@ + repeated(pattern@, n as int),
{
    let mut i: usize = 0;
    assert(out@ =~= old(out)@ + repeated(pattern@, 0));
    while i < n
        invariant
            i <= n,
            out@ == old(out)@ + repeated(pattern@, i as int),
        decreases n - i,
    {
        let ghost before = out@;
        out.extend_from_slice(pattern);
        assert(out@ =~= before + pattern@);
        assert(out@ =~= old(out)@ + repeated(pattern@, i + 1));
        i = i + 1;
    }
}

/// Decodes run-length records at the cursor until there are `expected_size` bytes. Where
/// that fails, the cursor stays at the offset that the error names.
pub fn decode_rle(payload: &[u8], cursor: &mut usize, expected_size: usize) -> (r: Result<Vec<u8>, DskError>)
    ensures
        match r {
            Ok(out) => rle(payload@, *old(cursor) as int, expected_size as int, Seq::empty()) == Ok::<(Seq<u8>, int), ErrorView>(
                (out@, *final(cursor) as int),
            ),
            Err(e) => {
                &&& rle(payload@, *old(cursor) as int, expected_size as int, Seq::empty()) == Err::<(Seq<u8>, int), ErrorView>(e@)
                &&& e@ matches ErrorView::Parse { offset, message } && offset == *final(cursor)
            },
        },
{
    let mut decoded: Vec<u8> = Vec::new();
    while decoded.len() < expected_size
        invariant
            rle(payload@, *old(cursor) as int, expected_size as int, Seq::empty()) == rle(
                payload@,
                *cursor as int,
                expected_size as int,
                decoded@,
            ),
        decreases payload@.len() - *cursor, expected_size - decoded@.len(),
    {
        let ghost start_out = decoded@;
        let start: usize = *cursor;
        if start >= payload.len() {
            return Err(DskError::parse(start, "Short TD0 RLE block"));
        }
        let length = payload[start];
        *cursor = start + 1;
        if *cursor >= payload.len() {
            return Err(DskError::parse(*cursor, "Short TD0 RLE block"));
        }
        let count: usize = payload[*cursor] as usize;
        *cursor = *cursor + 1;
        if count == 0 {
            return Err(DskError::parse(*cursor, "Empty TD0 RLE block"));
        }
        if length == 0 {
            if count > payload.len() - *cursor {
                return Err(DskError::parse(*cursor, "Short TD0 literal block"));
            }
            let literal = vstd::slice::slice_subrange(payload, *cursor, *cursor + count);
            decoded.extend_from_slice(literal);
            assert(decoded@ =~= start_out + literal@);
            *cursor = *cursor + count;
        } else {
            let pattern_size: usize = length as usize * 2;
            if pattern_size > payload.len() - *cursor {
                return Err(DskError::parse(*cursor, "Short TD0 repeat block"));
            }
            let pattern = vstd::slice::slice_subrange(payload, *cursor, *cursor + pattern_size);
            *cursor = *cursor + pattern_size;
            push_repeated(&mut decoded, pattern, count);
        }
        if decoded.len() > expected_size {
            decoded.truncate(expected_size);
        }
    }
    Ok(decoded)
}

/// The value of the warnings after one more.
proof fn lemma_push_view(w: Seq<String>, s: String)
    ensures
        image::string_views(w.push(s)) == image::string_views(w).push(s@),
{
    assert(image::string_views(w.push(s)) =~= image::string_views(w).push(s@));
}

/// Reads the data record of a sector and brings it to the size of the sector.
fn decode_sector_data(data: &[u8], cursor: &mut usize, sector_size: usize, warnings: &mut Vec<String>) -> (r: Result<Vec<u8>, DskError>)
    requires
        *old(cursor) <= data@.len(),
    ensures
        match r {
            Ok(d) => {
                &&& sector_data(
                    data@,
                    *old(cursor) as int,
                    sector_size as int,
                    image::string_views(old(warnings)@),
                ) == Ok::<(Seq<u8>, int, Seq<Seq<char>>), ErrorView>(
                    (d@, *final(cursor) as int, image::string_views(final(warnings)@)),
                )
                &&& *old(cursor) <= *final(cursor) <= data@.len()
            },
            Err(e) => sector_data(
                data@,
                *old(cursor) as int,
                sector_size as int,
                image::string_views(old(warnings)@),
            ) == Err::<(Seq<u8>, int, Seq<Seq<char>>), ErrorView>(e@),
        },
{
    let start: usize = *cursor;
    let header = match take(data, cursor, 3, "sector data header") {
        Ok(header) => header,
        Err(e) => {
            return Err(e);
        },
    };
    let block_size: usize = bytes::make_word(header[0], header[1]) as usize;
    if block_size < 1 {
        return Err(DskError::parse(start, "Invalid TD0 data block size"));
    }
    let mut decoded: Vec<u8> = match header[2] {
        0 => {
            match take(data, cursor, block_size - 1, "sector data") {
                Ok(payload) => vstd::slice::slice_to_vec(payload),
                Err(e) => {
                    return Err(e);
                },
            }
        },
        1 => {
            match take(data, cursor, 4, "sector repeat data") {
                Ok(payload) => {
                    let count: usize = bytes::make_word(payload[0], payload[1]) as usize;
                    let pattern = vstd::slice::slice_subrange(payload, 2, 4);
                    let mut out: Vec<u8> = Vec::new();
                    push_repeated(&mut out, pattern, count);
                    assert(out@ =~= repeated(pattern@, count as int));
                    out
                },
                Err(e) => {
                    return Err(e);
                },
            }
        },
        2 => {
            proof {
                lemma_rle_range(data@, *cursor as int, sector_size as int, Seq::empty());
            }
            match decode_rle(data, cursor, sector_size) {
                Ok(out) => out,
                Err(e) => {
                    return Err(e);
                },
            }
        },
        _ => {
            return Err(DskError::parse(start, "Unsupported TD0 sector encoding"));
        },
    };
    if decoded.len() != sector_size {
        let mut message = "TD0 sector data has ".to_string();
        text::push_decimal(&mut message, decoded.len());
        message.append(" bytes; expected ");
        text::push_decimal(&mut message, sector_size);
        message.append(".");
        assert(message@ == size_warning(decoded@.len() as int, sector_size as int));
        proof {
            lemma_push_view(warnings@, message);
        }
        warnings.push(message);
        let ghost before = decoded@;
        decoded.resize(sector_size, 0);
        proof {
            if sector_size > before.len() {
                assert forall|i: int| 0 <= i < before.len() implies decoded@[i] == before[i] by {
                    assert(decoded@.subrange(0, before.len() as int)[i] == decoded@[i]);
                }
            }
        }
        assert(decoded@ =~= resized(before, sector_size as int));
    }
    Ok(decoded)
}

/// Run-length records end behind their start and within the data.
pub proof fn lemma_rle_range(data: Seq<u8>, cursor: int, size: int, out: Seq<u8>)
    requires
        cursor <= data.len(),
    ensures
        rle(data, cursor, size, out) matches Ok(r) ==> cursor <= r.1 <= data.len(),
    decreases data.len() - cursor,
{
    if out.len() < size && cursor + 1 < data.len() {
        let length = data[cursor] as int;
        let count = data[cursor + 1] as int;
        let start = cursor + 2;
        if count != 0 && length == 0 && start + count <= data.len() {
            lemma_rle_range(data, start + count, size, cut(out + data.subrange(start, start + count), size));
        } else if count != 0 && length != 0 && start + 2 * length <= data.len() {
            let pattern = data.subrange(start, start + 2 * length);
            lemma_rle_range(data, start + 2 * length, size, cut(out + repeated(pattern, count), size));
        }
    }
}

/// Sector records end behind their start and within the data.
pub proof fn lemma_steps_range(data: Seq<u8>, p: Progress, n: int)
    requires
        p.cursor <= data.len(),
    ensures
        sector_steps(data, p, n) matches Ok(q) ==> p.cursor <= q.cursor <= data.len(),
    decreases n,
{
    if n > 0 {
        lemma_steps_range(data, p, n - 1);
        match sector_steps(data, p, n - 1) {
            Ok(q) => {
                if q.cursor + 9 <= data.len() {
                    lemma_rle_range(
                        data,
                        q.cursor + 9,
                        crate::format::coded_size(data.subrange(q.cursor, q.cursor + 6)[3]),
                        Seq::empty(),
                    );
                }
            },
            Err(_) => {},
        }
    }
}

/// Reads the comment record at the cursor.
fn parse_comment(data: &[u8], cursor: &mut usize, warnings: &mut Vec<String>) -> (r: Result<usize, DskError>)
    requires
        *old(cursor) <= data@.len(),
    ensures
        match r {
            Ok(end) => {
                &&& comment(data@, *old(cursor) as int, image::string_views(old(warnings)@)) == Ok::<(int, Seq<Seq<char>>), ErrorView>(
                    (end as int, image::string_views(final(warnings)@)),
                )
                &&& *final(cursor) == end
                &&& end <= data@.len()
            },
            Err(e) => comment(data@, *old(cursor) as int, image::string_views(old(warnings)@)) == Err::<(int, Seq<Seq<char>>), ErrorView>(e@),
        },
{
    let header = match take(data, cursor, 10, "comment header") {
        Ok(header) => header,
        Err(e) => {
            return Err(e);
        },
    };
    let stored_crc = bytes::make_word(header[0], header[1]);
    let length: usize = bytes::make_word(header[2], header[3]) as usize;
    let comment_data = match take(data, cursor, length, "comment data") {
        Ok(d) => d,
        Err(e) => {
            return Err(e);
        },
    };
    let mut crc_input: Vec<u8> = vstd::slice::slice_to_vec(vstd::slice::slice_subrange(header, 2, 10));
    crc_input.extend_from_slice(comment_data);
    assert(crc_input@ =~= header@.subrange(2, 10) + comment_data@);
    if crc::teledisk_crc(crc_input.as_slice()) != stored_crc {
        let message = "TD0 comment CRC is invalid.".to_string();
        proof {
            lemma_push_view(warnings@, message);
        }
        warnings.push(message);
    }
    Ok(*cursor)
}

/// Whether a flag is set.
fn flag_set(flags: u8, flag: u8) -> (b: bool)
    requires
        flag > 0,
    ensures
        b == has_flag(flags, flag),
{
    (flags / flag) % 2 == 1
}

/// Reads one sector record and appends the sector to the track.
fn read_sector_record(data: &[u8], cursor: &mut usize, track: &mut Track, number: u8, side: u8, warnings: &mut Vec<String>) -> (r: Result<(), DskError>)
    requires
        *old(cursor) <= data@.len(),
        number == old(track)@.track_number,
        side == old(track)@.side_number,
    ensures
        match r {
            Ok(()) => {
                &&& sector_step(
                    data@,
                    (Progress {
                        cursor: *old(cursor) as int,
                        warnings: image::string_views(old(warnings)@),
                        track: old(track)@,
                    }),
                ) == Ok::<Progress, ErrorView>(
                    (Progress {
                        cursor: *final(cursor) as int,
                        warnings: image::string_views(final(warnings)@),
                        track: final(track)@,
                    }),
                )
                &&& *old(cursor) < *final(cursor) <= data@.len()
                &&& number == final(track)@.track_number
                &&& side == final(track)@.side_number
            },
            Err(e) => sector_step(
                data@,
                (Progress {
                    cursor: *old(cursor) as int,
                    warnings: image::string_views(old(warnings)@),
                    track: old(track)@,
                }),
            ) == Err::<Progress, ErrorView>(e@),
        },
{
    let start: usize = *cursor;
    let header = match take(data, cursor, 6, "sector header") {
        Ok(header) => header,
        Err(e) => {
            return Err(e);
        },
    };
    let size_code = header[3];
    if size_code > 7 {
        return Err(DskError::parse(start, "Invalid TD0 sector size code"));
    }
    let sector_size = crate::format::size_for_code(size_code);
    let flags = header[4];
    let mut status1: u8 = if flag_set(flags, FLAG_CRC_ERROR) { ST1_DATA_ERROR } else { 0 };
    let status2: u8 = if flag_set(flags, FLAG_DELETED) { ST2_CONTROL_MARK } else { 0 };
    let unallocated = flag_set(flags, FLAG_UNALLOCATED);
    let empty = unallocated || flag_set(flags, FLAG_NO_DATA);
    let d: Vec<u8> = if empty {
        let filler: u8 = if unallocated { 0xF6 } else { 0 };
        status1 = status1 + ST1_NO_DATA;
        let filled: Vec<u8> = vec![filler; sector_size];
        assert(filled@ =~= Seq::new(sector_size as nat, |i: int| filler));
        filled
    } else {
        match decode_sector_data(data, cursor, sector_size, warnings) {
            Ok(d) => d,
            Err(e) => {
                return Err(e);
            },
        }
    };
    let mut crc_input: Vec<u8> = vstd::slice::slice_to_vec(vstd::slice::slice_subrange(header, 0, 5));
    if !empty {
        crc_input.extend_from_slice(d.as_slice());
    }
    assert(crc_input@ =~= header@.take(5) + (if no_data(flags) { Seq::empty() } else { d@ }));
    if crc::teledisk_crc(crc_input.as_slice()) % 256 != header[5] as u16 {
        let mut message = "TD0 track ".to_string();
        text::push_decimal(&mut message, number as usize);
        message.append(" side ");
        text::push_decimal(&mut message, side as usize);
        message.append(" sector ");
        text::push_decimal(&mut message, header[2] as usize);
        message.append(" header CRC is invalid.");
        assert(message@ == sector_warning(number as int, side as int, header@[2] as int));
        proof {
            lemma_push_view(warnings@, message);
        }
        warnings.push(message);
    }
    let id = SectorId::new(header[0], header[1] % 2, header[2], size_code);
    let sector = Sector::with_status(id, FdcStatus1(status1), FdcStatus2(status2), d);
    assert(sector@ == sector_of(header@, d@));
    track.add_sector(sector);
    Ok(())
}

/// Reads all track records from the cursor on.
fn read_tracks(data: &[u8], start: usize, rate: u8, warnings: &mut Vec<String>) -> (r: Result<Vec<Track>, DskError>)
    requires
        start <= data@.len(),
    ensures
        match r {
            Ok(tracks) => track_steps(
                data@,
                rate,
                start as int,
                image::string_views(old(warnings)@),
                Seq::empty(),
            ) == Ok::<(Seq<TrackView>, Seq<Seq<char>>), ErrorView>(
                (crate::image::disk::track_views(tracks@), image::string_views(final(warnings)@)),
            ),
            Err(e) => track_steps(
                data@,
                rate,
                start as int,
                image::string_views(old(warnings)@),
                Seq::empty(),
            ) == Err::<(Seq<TrackView>, Seq<Seq<char>>), ErrorView>(e@),
        },
{
    let mut cursor: usize = start;
    let mut tracks: Vec<Track> = Vec::new();
    let mut done = false;
    assert(crate::image::disk::track_views(tracks@) =~= Seq::<TrackView>::empty());
    let ghost result = track_steps(
        data@,
        rate,
        start as int,
        image::string_views(old(warnings)@),
        Seq::empty(),
    );
    while !done
        invariant
            cursor <= data@.len(),
            result == track_steps(
                data@,
                rate,
                start as int,
                image::string_views(old(warnings)@),
                Seq::empty(),
            ),
            !done ==> result == track_steps(
                data@,
                rate,
                cursor as int,
                image::string_views(warnings@),
                crate::image::disk::track_views(tracks@),
            ),
            done ==> result == Ok::<(Seq<TrackView>, Seq<Seq<char>>), ErrorView>(
                (crate::image::disk::track_views(tracks@), image::string_views(warnings@)),
            ),
        decreases data@.len() - cursor, (if done { 0int } else { 1 }),
    {
        let ghost before = cursor;
        let ghost warnings_before = image::string_views(warnings@);
        let header = match take(data, &mut cursor, 4, "track header") {
            Ok(header) => header,
            Err(e) => {
                return Err(e);
            },
        };
        let sector_count = header[0];
        if sector_count == LAST_TRACK {
            done = true;
        } else {
            let number = header[1];
            let side: u8 = header[2] % 2;
            assert(header@.subrange(0, 3) =~= header@.take(3));
            if crc::teledisk_crc(vstd::slice::slice_subrange(header, 0, 3)) % 256 != header[3] as u16 {
                let mut message = "TD0 track ".to_string();
                text::push_decimal(&mut message, number as usize);
                message.append(" side ");
                text::push_decimal(&mut message, side as usize);
                message.append(" header CRC is invalid.");
                assert(message@ == track_warning(number as int, side as int));
                proof {
                    lemma_push_view(warnings@, message);
                }
                warnings.push(message);
            }
            let mode = if rate >= 0x80 { RecordingMode::FM } else { RecordingMode::MFM };
            let mut track = Track::with_recording(number, side, 0x2A, 0xE5, mode, DataRate::from_code(rate % 4 + 1));
            let ghost begun = track_start(header@, rate, before as int, warnings_before);
            let mut n: u8 = 0;
            while n < sector_count
                invariant
                    n <= sector_count,
                    before < cursor <= data@.len(),
                    number == track@.track_number,
                    side == track@.side_number,
                    sector_steps(data@, begun, n as int) == Ok::<Progress, ErrorView>(
                        (Progress {
                            cursor: cursor as int,
                            warnings: image::string_views(warnings@),
                            track: track@,
                        }),
                    ),
                    result == track_steps(
                        data@,
                        rate,
                        start as int,
                        image::string_views(old(warnings)@),
                        Seq::empty(),
                    ),
                    result == track_steps(
                        data@,
                        rate,
                        before as int,
                        warnings_before,
                        crate::image::disk::track_views(tracks@),
                    ),
                    taken(data@, before as int, 4, "track header"@) == Ok::<Seq<u8>, ErrorView>(header@),
                    header@[0] == sector_count,
                    sector_count != LAST_TRACK,
                    begun == track_start(header@, rate, before as int, warnings_before),
                decreases sector_count - n,
            {
                match read_sector_record(data, &mut cursor, &mut track, number, side, warnings) {
                    Ok(()) => {},
                    Err(e) => {
                        proof {
                            lemma_steps_stop(data@, begun, n + 1, sector_count as int);
                        }
                        return Err(e);
                    },
                }
                n = n + 1;
            }
            let ghost tracks_before = tracks@;
            tracks.push(track);
            assert(crate::image::disk::track_views(tracks@) =~= crate::image::disk::track_views(tracks_before).push(track@));
        }
    }
    Ok(tracks)
}

/// Where a sector record fails, the track does.
proof fn lemma_steps_stop(data: Seq<u8>, p: Progress, n: int, m: int)
    requires
        n <= m,
        sector_steps(data, p, n) is Err,
        n > 0,
    ensures
        sector_steps(data, p, m) == sector_steps(data, p, n),
    decreases m - n,
{
    if n < m {
        lemma_steps_stop(data, p, n, m - 1);
    }
}

/// Track numbers are single bytes.
pub proof fn lemma_max_track(tracks: Seq<TrackView>, n: int)
    requires
        0 <= n <= tracks.len(),
    ensures
        0 <= max_track(tracks, n) <= 255,
        forall|i: int| 0 <= i < n ==> (#[trigger] tracks[i]).track_number <= max_track(tracks, n),
    decreases n,
{
    if n > 0 {
        lemma_max_track(tracks, n - 1);
    }
}

/// Places the tracks on their sides.
fn place_tracks(tracks: &Vec<Track>, sides: u8, count: u8) -> (disks: Vec<Disk>)
    requires
        1 <= sides <= 2,
        count == track_count(crate::image::disk::track_views(tracks@)),
    ensures
        disks@.len() == sides,
        forall|s: int| 0 <= s < sides ==> (#[trigger] disks@[s])@ == placed_side(
            crate::image::disk::track_views(tracks@),
            tracks@.len() as int,
            s,
        ),
{
    let ghost views = crate::image::disk::track_views(tracks@);
    let mut disks: Vec<Disk> = Vec::new();
    let mut side: u8 = 0;
    while side < sides
        invariant
            side <= sides <= 2,
            views == crate::image::disk::track_views(tracks@),
            count == track_count(views),
            disks@.len() == side,
            forall|s: int| 0 <= s < side ==> (#[trigger] disks@[s])@ == placed_side(views, tracks@.len() as int, s),
        decreases sides - side,
    {
        let mut disk = Disk::with_capacity(side, count as usize);
        disk.ensure_track_count(count);
        assert(disk@ == placed_side(views, 0, side as int)) by {
            assert(disk@.tracks =~= placed_side(views, 0, side as int).tracks);
        }
        let mut i: usize = 0;
        while i < tracks.len()
            invariant
                i <= tracks@.len(),
                views == crate::image::disk::track_views(tracks@),
                count == track_count(views),
                disk@ == placed_side(views, i as int, side as int),
            decreases tracks@.len() - i,
        {
            assert(views[i as int] == tracks@[i as int]@);
            let (number, on_side) = tracks[i].place();
            if on_side == side {
                let copy = tracks[i].clone();
                match disk.get_track_mut(number) {
                    Some(destination) => {
                        *destination = copy;
                    },
                    None => {},
                }
            }
            assert(disk@.tracks =~= placed_side(views, i + 1, side as int).tracks);
            assert(disk@ == placed_side(views, i + 1, side as int));
            i = i + 1;
        }
        disks.push(disk);
        side = side + 1;
    }
    disks
}

/// The first track with sectors on a side.
fn find_full_track(disk: &Disk) -> (r: Option<&Track>)
    ensures
        match r {
            Some(t) => first_full_track(disk@, 0) == Some(t@) && t@.sectors.len() > 0,
            None => first_full_track(disk@, 0) is None,
        },
{
    let tracks = disk.tracks();
    let mut i: usize = 0;
    while i < tracks.len()
        invariant
            i <= tracks@.len() == disk@.tracks.len(),
            crate::image::disk::track_views(tracks@) == disk@.tracks,
            first_full_track(disk@, 0) == first_full_track(disk@, i as int),
        decreases tracks@.len() - i,
    {
        assert(disk@.tracks[i as int] == tracks@[i as int]@);
        if !tracks[i].is_empty() {
            return Some(&tracks[i]);
        }
        i = i + 1;
    }
    None
}

/// The geometry of an image with these sides.
fn find_geometry(disks: &Vec<Disk>, sides: u8, count: u8) -> (spec: FormatSpec)
    requires
        1 <= sides <= 2,
    ensures
        spec == geometry(sides as int, count as int, first_full(image::disk_views(disks@), 0)),
{
    let plain = FormatSpec {
        num_sides: sides,
        num_tracks: count,
        sectors_per_track: 0,
        sector_size: 512,
        first_sector_id: 1,
        gap3_length: 0x2A,
        filler_byte: 0xE5,
        interleave: 1,
        side_mode: if sides == 1 { SideMode::SingleSide } else { SideMode::Successive },
    };
    let ghost views = image::disk_views(disks@);
    let mut s: usize = 0;
    while s < disks.len()
        invariant
            s <= disks@.len(),
            views == image::disk_views(disks@),
            first_full(views, 0) == first_full(views, s as int),
            plain == geometry(sides as int, count as int, None),
        decreases disks@.len() - s,
    {
        assert(views[s as int] == disks@[s as int]@);
        match find_full_track(&disks[s]) {
            Some(track) => {
                let sectors = track.sectors();
                let first = &sectors[0];
                assert(track@.sectors[0] == first@);
                let (gap, filler) = track.recording();
                let n: u8 = (track.sector_count() % 256) as u8;
                return FormatSpec {
                    sectors_per_track: n,
                    sector_size: first.advertised_size() as u16,
                    first_sector_id: first.number(),
                    gap3_length: gap,
                    filler_byte: filler,
                    ..plain
                };
            },
            None => {},
        }
        s = s + 1;
    }
    plain
}

/// Whether a path has the extension of TeleDisk files.
pub fn is_td0_file(path: &str) -> (b: bool)
    ensures
        b == paths::has_extension(path@, "td0"@),
{
    paths::ends_in(path, "td0")
}

/// Whether a TeleDisk file can have so many bytes, or what to say of it.
pub open spec fn size_allowed(len: int) -> Result<(), ErrorView> {
    if len < HEADER_SIZE || len > MAX_FILE_SIZE {
        Err(ErrorView::InvalidFormat("TD0 file has unexpected size "@ + text::decimal(len) + " bytes"@))
    } else {
        Ok(())
    }
}

/// Tests the size of a TeleDisk file.
pub fn check_size(len: usize) -> (r: Result<(), DskError>)
    ensures
        match r {
            Ok(()) => size_allowed(len as int) is Ok,
            Err(e) => size_allowed(len as int) == Err::<(), ErrorView>(e@),
        },
{
    if len < HEADER_SIZE || len > MAX_FILE_SIZE {
        let mut message = "TD0 file has unexpected size ".to_string();
        text::push_decimal(&mut message, len);
        message.append(" bytes");
        return Err(DskError::InvalidFormat(message));
    }
    Ok(())
}

/// Reads a TeleDisk file and exposes it as a sector image. `bytes` is the content of the
/// file; `filename` is recorded in the image.
pub fn read_td0(bytes: &[u8], filename: Option<String>) -> (r: Result<DiskImage, DskError>)
    ensures
        match r {
            Ok(image) => td0_image(bytes@, image::option_view(filename)) == Ok::<ImageView, ErrorView>(image@),
            Err(e) => td0_image(bytes@, image::option_view(filename)) == Err::<ImageView, ErrorView>(e@),
        },
{
    match check_size(bytes.len()) {
        Ok(()) => {},
        Err(e) => {
            return Err(e);
        },
    }
    if !((bytes[0] == 0x54 || bytes[0] == 0x74) && (bytes[1] == 0x44 || bytes[1] == 0x64)) {
        return Err(DskError::invalid_format("Invalid TD0 signature"));
    }
    let mut warnings: Vec<String> = Vec::new();
    assert(image::string_views(warnings@) =~= Seq::<Seq<char>>::empty());
    let stored_crc = bytes::make_word(bytes[10], bytes[11]);
    assert(bytes@.subrange(0, 10) =~= bytes@.take(10));
    if crc::teledisk_crc(vstd::slice::slice_subrange(bytes, 0, 10)) != stored_crc {
        warnings.push("TD0 header CRC is invalid.".to_string());
        assert(image::string_views(warnings@) =~= seq!["TD0 header CRC is invalid."@]);
    }
    let body = vstd::slice::slice_subrange(bytes, HEADER_SIZE, bytes.len());
    assert(body@ =~= bytes@.skip(12));
    let image_data: Vec<u8> = if bytes[0] != 0x74 {
        vstd::slice::slice_to_vec(body)
    } else if (bytes[4] / 10) % 10 == 2 {
        match lzhuf::decode_lzhuf_stream(body) {
            Ok(d) => d,
            Err(e) => {
                return Err(e);
            },
        }
    } else {
        match lzw::decode_lzw_stream(body) {
            Ok(d) => d,
            Err(e) => {
                return Err(e);
            },
        }
    };
    let data = image_data.as_slice();
    let mut cursor: usize = 0;
    if bytes[7] >= 0x80 {
        match parse_comment(data, &mut cursor, &mut warnings) {
            Ok(_) => {},
            Err(e) => {
                return Err(e);
            },
        }
    }
    let tracks = match read_tracks(data, cursor, bytes[5], &mut warnings) {
        Ok(tracks) => tracks,
        Err(e) => {
            return Err(e);
        },
    };
    if tracks.len() == 0 {
        return Err(DskError::invalid_format("TD0 image contains no tracks"));
    }
    let ghost views = crate::image::disk::track_views(tracks@);
    let mut two_sides: bool = bytes[9] >= 2;
    let mut highest: u8 = 0;
    let mut i: usize = 0;
    while i < tracks.len()
        invariant
            i <= tracks@.len(),
            views == crate::image::disk::track_views(tracks@),
            highest == max_track(views, i as int),
            two_sides == (bytes@[9] >= 2 || uses_side_1(views, i as int)),
        decreases tracks@.len() - i,
    {
        assert(views[i as int] == tracks@[i as int]@);
        let (number, side) = tracks[i].place();
        if number > highest {
            highest = number;
        }
        if side == 1 {
            two_sides = true;
        }
        i = i + 1;
    }
    let sides: u8 = if two_sides { 2 } else { 1 };
    let count: u8 = if highest == 255 { 255 } else { highest + 1 };
    let disks = place_tracks(&tracks, sides, count);
    let spec = find_geometry(&disks, sides, count);
    assert(image::disk_views(disks@) =~= placed_sides(bytes@[9], views));
    Ok(DiskImage::from_parts(DiskImageFormat::RawTd0, spec, disks, false, filename, warnings))
}

}
