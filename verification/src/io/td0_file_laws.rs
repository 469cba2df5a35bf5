//! Laws of whole TeleDisk files: an image that has been written is read back.

use crate::error::ErrorView;
use crate::format::SideMode;
use crate::image::sector::{FdcStatus1, FdcStatus2, SectorId, SectorView};
use crate::image::track::{DataRate, RecordingMode, TrackView};
use crate::image::ImageView;
use crate::io::crc;
use crate::io::lzhuf;
use crate::io::lzw;
use crate::io::td0_reader;
use crate::io::td0_reader::Progress;
use crate::io::td0_record_laws;
use crate::io::td0_record_laws::Stored;
use vstd::prelude::*;

verus! {

/// A sector as it is saved: its ID field, its flags, a checksum, and its data if it has any.
pub struct SavedSector {
    pub track: u8,
    pub side: u8,
    pub sector: u8,
    pub size_code: u8,
    pub flags: u8,
    pub checksum: u8,
    pub stored: Option<Stored>,
}

/// A track as it is saved.
pub struct SavedTrack {
    pub number: u8,
    pub side: u8,
    pub checksum: u8,
    pub sectors: Seq<SavedSector>,
}

/// Whether bit `n` of a number is set.
pub open spec fn bit(flags: u8, n: int) -> bool {
    (flags / (if n == 1 { 2u8 } else if n == 2 { 4 } else if n == 4 { 16 } else { 32 })) % 2 == 1
}

/// The number of bytes in a sector: 128, doubled as often as the code says.
pub open spec fn sector_bytes(code: int) -> int
    decreases code,
{
    if code <= 0 { 128 } else { 2 * sector_bytes(code - 1) }
}

/// The data of a saved sector. Sectors that were not allocated (bit 4) hold 0xF6, those without
/// data (bit 5) zeros.
pub open spec fn data_of(s: SavedSector) -> Seq<u8> {
    match s.stored {
        Some(stored) => td0_record_laws::bytes_of(stored).take(sector_bytes(s.size_code as int)),
        None => Seq::new(sector_bytes(s.size_code as int) as nat, |i: int| if bit(s.flags, 4) { 0xF6u8 } else { 0 }),
    }
}

/// The five bytes of a sector header before its checksum.
pub open spec fn sector_head(s: SavedSector) -> Seq<u8> {
    seq![s.track, s.side, s.sector, s.size_code, s.flags]
}

/// Whether a sector can be saved so: it has data unless bit 4 or 5 of its flags says otherwise,
/// and its checksum is right.
pub open spec fn sector_ok(s: SavedSector) -> bool {
    &&& s.size_code <= 7
    &&& s.stored is None <==> bit(s.flags, 4) || bit(s.flags, 5)
    &&& s.stored matches Some(stored) ==> {
        &&& td0_record_laws::storable(stored, sector_bytes(s.size_code as int))
        &&& stored is Runs || td0_record_laws::bytes_of(stored).len() == sector_bytes(s.size_code as int)
    }
    &&& s.checksum == crc::crc_of(
        sector_head(s) + (if s.stored is Some { data_of(s) } else { Seq::empty() }),
    ) % 256
}

/// The record for a sector.
pub open spec fn written_sector(s: SavedSector) -> Seq<u8> {
    sector_head(s) + seq![s.checksum] + (match s.stored {
        Some(stored) => td0_record_laws::written_data(stored),
        None => Seq::empty(),
    })
}

/// The sector that a record was written for. Bit 1 of the flags is a data error, bit 2 a deleted
/// data mark, and without data the sector was not found.
pub open spec fn sector_saved(s: SavedSector) -> SectorView {
    SectorView {
        id: SectorId { track: s.track, side: s.side % 2, sector: s.sector, size_code: s.size_code },
        status1: FdcStatus1(
            if bit(s.flags, 1) && s.stored is None {
                0x24u8
            } else if bit(s.flags, 1) {
                0x20
            } else if s.stored is None {
                0x04
            } else {
                0
            },
        ),
        status2: FdcStatus2(if bit(s.flags, 2) { 0x40u8 } else { 0 }),
        data: data_of(s),
    }
}

/// Sector sizes agree.
proof fn lemma_sector_bytes(code: u8)
    requires
        code <= 7,
    ensures
        sector_bytes(code as int) == crate::format::coded_size(code),
        0 <= sector_bytes(code as int) <= 16384,
{
    reveal_with_fuel(sector_bytes, 9);
}

/// A sector record gives back the sector that it was written for, at the end of its track, and
/// no warning if its checksum is right.
pub proof fn law_sector_reads_back(data: Seq<u8>, p: Progress, s: SavedSector)
    requires
        data.len() <= usize::MAX,
        sector_ok(s),
        td0_record_laws::stands_at(data, p.cursor, written_sector(s)),
    ensures
        td0_reader::sector_step(data, p) == Ok::<Progress, ErrorView>(
            Progress {
                cursor: p.cursor + written_sector(s).len(),
                warnings: p.warnings,
                track: TrackView { sectors: p.track.sectors.push(sector_saved(s)), ..p.track },
            },
        ),
{
    let head = sector_head(s) + seq![s.checksum];
    let rest = match s.stored {
        Some(stored) => td0_record_laws::written_data(stored),
        None => Seq::empty(),
    };
    let size = sector_bytes(s.size_code as int);
    lemma_sector_bytes(s.size_code);
    assert(written_sector(s) == head + rest);
    td0_record_laws::lemma_parts(data, p.cursor, head, rest);
    let header = data.subrange(p.cursor, p.cursor + 6);
    assert(header == head);
    assert(header[0] == s.track && header[1] == s.side && header[2] == s.sector && header[3] == s.size_code && header[4]
        == s.flags && header[5] == s.checksum);
    assert(header.take(5) =~= sector_head(s));
    match s.stored {
        Some(stored) => {
            let (d, w) = td0_record_laws::law_stored_data_reads_back(data, p.cursor + 6, size, p.warnings, stored);
            assert(d =~= data_of(s));
            assert(td0_reader::sector_of(header, d) == sector_saved(s));
        },
        None => {
            let filler = if bit(s.flags, 4) { 0xF6u8 } else { 0 };
            let d = Seq::new(size as nat, |i: int| filler);
            assert(d =~= data_of(s));
            assert(td0_reader::sector_of(header, d) == sector_saved(s));
            assert(Seq::new(size as nat, |i: int| if td0_reader::has_flag(header[4], 0x10) { 0xF6u8 } else { 0u8 }) =~= d);
        },
    }
}

/// The records for the first `n` sectors of a track.
pub open spec fn written_sectors(sectors: Seq<SavedSector>, n: int) -> Seq<u8>
    decreases n,
{
    if n <= 0 {
        Seq::empty()
    } else {
        written_sectors(sectors, n - 1) + written_sector(sectors[n - 1])
    }
}

/// The sectors of a track.
pub open spec fn sectors_saved(sectors: Seq<SavedSector>, n: int) -> Seq<SectorView> {
    Seq::new(n as nat, |i: int| sector_saved(sectors[i]))
}

proof fn lemma_sectors(data: Seq<u8>, p: Progress, sectors: Seq<SavedSector>, n: int)
    requires
        data.len() <= usize::MAX,
        0 <= n <= sectors.len(),
        p.track.sectors.len() == 0,
        forall|i: int| 0 <= i < sectors.len() ==> sector_ok(#[trigger] sectors[i]),
        td0_record_laws::stands_at(data, p.cursor, written_sectors(sectors, n)),
    ensures
        td0_reader::sector_steps(data, p, n) == Ok::<Progress, ErrorView>(
            Progress {
                cursor: p.cursor + written_sectors(sectors, n).len(),
                warnings: p.warnings,
                track: TrackView { sectors: sectors_saved(sectors, n), ..p.track },
            },
        ),
    decreases n,
{
    if n > 0 {
        let before = written_sectors(sectors, n - 1);
        td0_record_laws::lemma_parts(data, p.cursor, before, written_sector(sectors[n - 1]));
        lemma_sectors(data, p, sectors, n - 1);
        let q = td0_reader::sector_steps(data, p, n - 1)->Ok_0;
        law_sector_reads_back(data, q, sectors[n - 1]);
        assert(q.track.sectors.push(sector_saved(sectors[n - 1])) =~= sectors_saved(sectors, n));
    } else {
        assert(p.track.sectors =~= sectors_saved(sectors, 0));
    }
}

/// The record for a track: the number of sectors, its place, a checksum, and the sectors.
pub open spec fn written_track(t: SavedTrack) -> Seq<u8> {
    seq![t.sectors.len() as u8, t.number, t.side, t.checksum] + written_sectors(t.sectors, t.sectors.len() as int)
}

/// Whether a track can be saved so.
pub open spec fn track_ok(t: SavedTrack) -> bool {
    &&& t.sectors.len() < 255
    &&& forall|i: int| 0 <= i < t.sectors.len() ==> sector_ok(#[trigger] t.sectors[i])
    &&& t.checksum == crc::crc_of(seq![t.sectors.len() as u8, t.number, t.side]) % 256
}

/// The track that a record was written for. The data rate byte of the file tells how it is
/// recorded.
pub open spec fn track_saved(t: SavedTrack, rate: u8) -> TrackView {
    TrackView {
        track_number: t.number,
        side_number: t.side % 2,
        gap3_length: 0x2A,
        filler_byte: 0xE5,
        recording_mode: if rate >= 128 { RecordingMode::FM } else { RecordingMode::MFM },
        data_rate: if rate % 4 == 0 {
            DataRate::SingleDouble
        } else if rate % 4 == 1 {
            DataRate::HighDensity
        } else if rate % 4 == 2 {
            DataRate::ExtendedDensity
        } else {
            DataRate::Unknown
        },
        sectors: sectors_saved(t.sectors, t.sectors.len() as int),
    }
}

/// The records for the tracks from `from` on, and the mark behind the last.
pub open spec fn written_tracks(tracks: Seq<SavedTrack>, from: int) -> Seq<u8>
    decreases tracks.len() - from,
{
    if from < 0 || from >= tracks.len() {
        seq![0xFFu8, 0u8, 0u8, 0u8]
    } else {
        written_track(tracks[from]) + written_tracks(tracks, from + 1)
    }
}

/// The first `n` tracks.
pub open spec fn tracks_saved(tracks: Seq<SavedTrack>, rate: u8, n: int) -> Seq<TrackView> {
    Seq::new(n as nat, |i: int| track_saved(tracks[i], rate))
}

proof fn lemma_tracks(data: Seq<u8>, rate: u8, cursor: int, warnings: Seq<Seq<char>>, tracks: Seq<SavedTrack>, n: int)
    requires
        data.len() <= usize::MAX,
        0 <= n <= tracks.len(),
        forall|i: int| 0 <= i < tracks.len() ==> track_ok(#[trigger] tracks[i]),
        td0_record_laws::stands_at(data, cursor, written_tracks(tracks, n)),
    ensures
        td0_reader::track_steps(data, rate, cursor, warnings, tracks_saved(tracks, rate, n)) == Ok::<
            (Seq<TrackView>, Seq<Seq<char>>),
            ErrorView,
        >((tracks_saved(tracks, rate, tracks.len() as int), warnings)),
    decreases tracks.len() - n,
{
    if n == tracks.len() {
        td0_record_laws::lemma_byte(data, cursor, written_tracks(tracks, n), 0);
        assert(data.subrange(cursor, cursor + 4)[0] == 0xFF);
    } else {
        let t = tracks[n];
        assert(track_ok(t));
        let count = t.sectors.len() as int;
        let head = seq![t.sectors.len() as u8, t.number, t.side, t.checksum];
        let body = written_sectors(t.sectors, count);
        td0_record_laws::lemma_parts(data, cursor, written_track(t), written_tracks(tracks, n + 1));
        td0_record_laws::lemma_parts(data, cursor, head, body);
        let header = data.subrange(cursor, cursor + 4);
        assert(header == head);
        assert(header[0] == count && header[1] == t.number && header[2] == t.side && header[3] == t.checksum);
        assert(header.take(3) =~= seq![t.sectors.len() as u8, t.number, t.side]);
        let start = td0_reader::track_start(header, rate, cursor, warnings);
        lemma_sectors(data, start, t.sectors, count);
        let q = td0_reader::sector_steps(data, start, count)->Ok_0;
        assert(q.track == track_saved(t, rate));
        assert(tracks_saved(tracks, rate, n).push(q.track) =~= tracks_saved(tracks, rate, n + 1));
        assert(q.cursor == cursor + written_track(t).len());
        td0_reader::lemma_steps_range(data, start, count);
        lemma_tracks(data, rate, q.cursor, warnings, tracks, n + 1);
    }
}

/// A comment as it is saved: a checksum, its length, six bytes for the date, and the text.
pub open spec fn written_comment(date: Seq<u8>, words: Seq<u8>) -> Seq<u8> {
    let body = td0_record_laws::two_bytes(words.len() as int) + date + words;
    td0_record_laws::two_bytes(crc::crc_of(body) as int) + body
}

/// Behind a comment the tracks are read.
proof fn lemma_comment(data: Seq<u8>, warnings: Seq<Seq<char>>, date: Seq<u8>, words: Seq<u8>)
    requires
        data.len() <= usize::MAX,
        date.len() == 6,
        words.len() < 65536,
        td0_record_laws::stands_at(data, 0, written_comment(date, words)),
    ensures
        td0_reader::comment(data, 0, warnings) == Ok::<(int, Seq<Seq<char>>), ErrorView>(
            (written_comment(date, words).len() as int, warnings),
        ),
{
    let n = words.len() as int;
    let body = td0_record_laws::two_bytes(n) + date + words;
    let sum = crc::crc_of(body) as int;
    let all = written_comment(date, words);
    let head = td0_record_laws::two_bytes(sum) + td0_record_laws::two_bytes(n) + date;
    assert(all =~= head + words);
    td0_record_laws::lemma_parts(data, 0, head, words);
    td0_record_laws::lemma_two_bytes(sum);
    td0_record_laws::lemma_two_bytes(n);
    let header = data.subrange(0, 10);
    assert(header == head);
    assert(header[0] == head[0] && header[1] == head[1] && header[2] == head[2] && header[3] == head[3]);
    assert(head[0] == td0_record_laws::two_bytes(sum)[0] && head[1] == td0_record_laws::two_bytes(sum)[1]);
    assert(head[2] == td0_record_laws::two_bytes(n)[0] && head[3] == td0_record_laws::two_bytes(n)[1]);
    assert(header.subrange(2, 10) + words =~= body);
}

/// Where the last record for a track is placed.
proof fn lemma_placed(tracks: Seq<TrackView>, n: int, k: int)
    requires
        0 <= k < n <= tracks.len(),
        forall|j: int|
            k < j < n ==> (#[trigger] tracks[j]).side_number != tracks[k].side_number || tracks[j].track_number
                != tracks[k].track_number,
    ensures
        td0_reader::placed(tracks, n, tracks[k].side_number as int, tracks[k].track_number as int) == tracks[k],
    decreases n,
{
    if n - 1 > k {
        lemma_placed(tracks, n - 1, k);
    }
}

/// A track without a record stays blank.
proof fn lemma_unplaced(tracks: Seq<TrackView>, n: int, side: int, number: int)
    requires
        0 <= n <= tracks.len(),
        forall|j: int| 0 <= j < n ==> (#[trigger] tracks[j]).side_number != side || tracks[j].track_number != number,
    ensures
        td0_reader::placed(tracks, n, side, number) == TrackView::blank(number as u8, side as u8),
    decreases n,
{
    if n > 0 {
        lemma_unplaced(tracks, n - 1, side, number);
    }
}

proof fn lemma_side_1(tracks: Seq<TrackView>, n: int)
    requires
        0 <= n <= tracks.len(),
    ensures
        td0_reader::uses_side_1(tracks, n) <==> exists|j: int| 0 <= j < n && (#[trigger] tracks[j]).side_number == 1,
    decreases n,
{
    if n > 0 {
        lemma_side_1(tracks, n - 1);
        if tracks[n - 1].side_number != 1 && td0_reader::uses_side_1(tracks, n) {
            let j = choose|j: int| 0 <= j < n - 1 && (#[trigger] tracks[j]).side_number == 1;
            assert(tracks[j].side_number == 1);
        }
    }
}

proof fn lemma_max(tracks: Seq<TrackView>, n: int)
    requires
        0 <= n <= tracks.len(),
    ensures
        forall|j: int| 0 <= j < n ==> (#[trigger] tracks[j]).track_number <= td0_reader::max_track(tracks, n),
        n > 0 ==> exists|j: int| 0 <= j < n && (#[trigger] tracks[j]).track_number == td0_reader::max_track(tracks, n),
    decreases n,
{
    if n > 0 {
        lemma_max(tracks, n - 1);
        let m = td0_reader::max_track(tracks, n);
        if tracks[n - 1].track_number == m {
            assert(tracks[n - 1].track_number == m);
        } else if n > 1 {
            let j = choose|j: int|
                0 <= j < n - 1 && (#[trigger] tracks[j]).track_number == td0_reader::max_track(tracks, n - 1);
            assert(tracks[j].track_number == m);
        } else {
            assert(tracks[0].track_number == m);
        }
    }
}

/// Whether a file starts with an uncompressed header with the right checksum.
pub open spec fn plain_header(file: Seq<u8>) -> bool {
    &&& 12 <= file.len() <= 4_194_304
    &&& file[0] == 0x54
    &&& file[1] == 0x44
    &&& file[10] + 256 * file[11] == crc::crc_of(file.take(10))
}

/// What is made of the records of a file.
proof fn lemma_file(
    file: Seq<u8>,
    filename: Option<Seq<char>>,
    before: Seq<u8>,
    date: Seq<u8>,
    words: Seq<u8>,
    tracks: Seq<SavedTrack>,
)
    requires
        saved_file(file, before, date, words, tracks),
    ensures
        td0_reader::td0_image(file, filename) == Ok::<ImageView, ErrorView>(
            td0_reader::assembled(file[9], tracks_saved(tracks, file[5], tracks.len() as int), Seq::empty(), filename),
        ),
{
    let data = file.skip(12);
    let rate = file[5];
    let none = Seq::<Seq<char>>::empty();
    let cursor = before.len() as int;
    assert(data.subrange(0, data.len() as int) =~= data);
    assert(td0_record_laws::stands_at(data, 0, before + written_tracks(tracks, 0)));
    td0_record_laws::lemma_parts(data, 0, before, written_tracks(tracks, 0));
    if file[7] >= 128 {
        lemma_comment(data, none, date, words);
    }
    assert(tracks_saved(tracks, rate, 0) =~= Seq::<TrackView>::empty());
    lemma_tracks(data, rate, cursor, none, tracks, 0);
}

/// Whether a file is written for the given tracks, with a comment if its header says so, and with
/// the right checksums.
pub open spec fn saved_file(file: Seq<u8>, before: Seq<u8>, date: Seq<u8>, words: Seq<u8>, tracks: Seq<SavedTrack>) -> bool {
    &&& plain_header(file)
    &&& file.skip(12) == before + written_tracks(tracks, 0)
    &&& if file[7] >= 128 {
        before == written_comment(date, words) && date.len() == 6 && words.len() < 65536
    } else {
        before.len() == 0
    }
    &&& tracks.len() > 0
    &&& forall|i: int| 0 <= i < tracks.len() ==> track_ok(#[trigger] tracks[i])
}

/// A file gives back the tracks that it was written for, each in its place: of several records
/// for one track the last counts. A comment changes nothing, and no warnings are given.
pub proof fn law_file_reads_back(
    file: Seq<u8>,
    filename: Option<Seq<char>>,
    before: Seq<u8>,
    date: Seq<u8>,
    words: Seq<u8>,
    tracks: Seq<SavedTrack>,
    k: int,
)
    requires
        saved_file(file, before, date, words, tracks),
        0 <= k < tracks.len(),
        tracks[k].number < 255,
        forall|j: int|
            k < j < tracks.len() ==> (#[trigger] tracks[j]).side % 2 != tracks[k].side % 2 || tracks[j].number
                != tracks[k].number,
    ensures
        td0_reader::td0_image(file, filename) matches Ok(image) && {
            let side = (tracks[k].side % 2) as int;
            &&& image.warnings.len() == 0
            &&& side < image.disks.len()
            &&& tracks[k].number < image.disks[side].tracks.len()
            &&& image.disks[side].tracks[tracks[k].number as int] == track_saved(tracks[k], file[5])
        },
{
    let n = tracks.len() as int;
    let saved = tracks_saved(tracks, file[5], n);
    lemma_file(file, filename, before, date, words, tracks);
    assert(saved[k].side_number == tracks[k].side % 2 && saved[k].track_number == tracks[k].number);
    assert forall|j: int| k < j < n implies (#[trigger] saved[j]).side_number != saved[k].side_number || saved[j].track_number
        != saved[k].track_number by {
        assert(tracks[j].side % 2 != tracks[k].side % 2 || tracks[j].number != tracks[k].number);
    }
    lemma_placed(saved, n, k);
    lemma_side_1(saved, n);
    lemma_max(saved, n);
}

/// An image has as many tracks on each side as the highest track number in the file asks for, and
/// two sides if byte 9 of the header says so or a track is on side 1, otherwise one. Tracks
/// without a record hold nothing.
pub proof fn law_file_tells_the_geometry(
    file: Seq<u8>,
    filename: Option<Seq<char>>,
    before: Seq<u8>,
    date: Seq<u8>,
    words: Seq<u8>,
    tracks: Seq<SavedTrack>,
    top: int,
    side: int,
    number: int,
)
    requires
        saved_file(file, before, date, words, tracks),
        0 <= top < tracks.len(),
        tracks[top].number < 255,
        forall|j: int| 0 <= j < tracks.len() ==> (#[trigger] tracks[j]).number <= tracks[top].number,
        forall|j: int| 0 <= j < tracks.len() ==> (#[trigger] tracks[j]).side % 2 != side || tracks[j].number != number,
    ensures
        td0_reader::td0_image(file, filename) matches Ok(image) && {
            &&& image.disks.len() == 2 <==> file[9] >= 2 || exists|j: int|
                0 <= j < tracks.len() && (#[trigger] tracks[j]).side % 2 == 1
            &&& image.disks.len() == 1 || image.disks.len() == 2
            &&& forall|s: int|
                0 <= s < image.disks.len() ==> (#[trigger] image.disks[s]).tracks.len() == tracks[top].number + 1
            &&& 0 <= side < image.disks.len() && 0 <= number <= tracks[top].number
                ==> image.disks[side].tracks[number].sectors.len() == 0
        },
{
    let n = tracks.len() as int;
    let saved = tracks_saved(tracks, file[5], n);
    lemma_file(file, filename, before, date, words, tracks);
    lemma_side_1(saved, n);
    lemma_max(saved, n);
    let m = td0_reader::max_track(saved, n);
    let j = choose|j: int| 0 <= j < n && (#[trigger] saved[j]).track_number == m;
    assert(tracks[j].number == m);
    assert(saved[top].track_number == tracks[top].number);
    if td0_reader::uses_side_1(saved, n) {
        let i = choose|i: int| 0 <= i < n && (#[trigger] saved[i]).side_number == 1;
        assert(tracks[i].side % 2 == 1);
    } else {
        assert forall|i: int| 0 <= i < n implies (#[trigger] tracks[i]).side % 2 != 1 by {
            assert(saved[i].side_number == tracks[i].side % 2);
        }
    }
    assert forall|i: int| 0 <= i < n implies (#[trigger] saved[i]).side_number != side || saved[i].track_number != number by {
        assert(tracks[i].side % 2 != side || tracks[i].number != number);
    }
    lemma_unplaced(saved, n, side, number);
}

/// A compressed file gives the same image as the uncompressed file with what it unpacks to: with
/// LZHUF in files of version 20 to 29, with LZW in others. (Both headers have the right checksum.)
pub proof fn law_compression_changes_nothing(packed: Seq<u8>, plain: Seq<u8>, filename: Option<Seq<char>>)
    requires
        plain_header(plain),
        12 <= packed.len() <= 4_194_304,
        packed[0] == 0x74,
        packed[1] == 0x64 || packed[1] == 0x44,
        packed[10] + 256 * packed[11] == crc::crc_of(packed.take(10)),
        packed[5] == plain[5] && packed[7] == plain[7] && packed[9] == plain[9],
        if 20 <= packed[4] <= 29 {
            lzhuf::lzhuf_stream(packed.skip(12)) == Ok::<Seq<u8>, ErrorView>(plain.skip(12))
        } else {
            packed[4] < 120 && lzw::lzw_stream(packed.skip(12), 0, Seq::empty()) == Ok::<Seq<u8>, ErrorView>(plain.skip(12))
        },
    ensures
        td0_reader::td0_image(packed, filename) == td0_reader::td0_image(plain, filename),
{
}

/// A file is refused that is too short for its header, too long, or does not start with the
/// letters of a TeleDisk file.
pub proof fn law_foreign_files_are_refused(file: Seq<u8>, filename: Option<Seq<char>>)
    requires
        file.len() < 12 || file.len() > 4_194_304 || file[0] != 0x54 && file[0] != 0x74 || file[1] != 0x44 && file[1] != 0x64,
    ensures
        td0_reader::td0_image(file, filename) matches Err(ErrorView::InvalidFormat(_)),
{
}

/// A wrong checksum of a sector changes nothing but the warnings, of which there is one more.
pub proof fn law_sector_checksum_only_warns(data: Seq<u8>, p: Progress, s: SavedSector, checksum: u8)
    requires
        data.len() <= usize::MAX,
        sector_ok(s),
        checksum != s.checksum,
        td0_record_laws::stands_at(data, p.cursor, written_sector(SavedSector { checksum, ..s })),
    ensures
        td0_reader::sector_step(data, p) matches Ok(q) && {
            &&& q.cursor == p.cursor + written_sector(s).len()
            &&& q.track == (TrackView { sectors: p.track.sectors.push(sector_saved(s)), ..p.track })
            &&& q.warnings.len() == p.warnings.len() + 1
            &&& q.warnings.take(p.warnings.len() as int) == p.warnings
        },
{
    let bad = SavedSector { checksum, ..s };
    let head = sector_head(s) + seq![checksum];
    let rest = match s.stored {
        Some(stored) => td0_record_laws::written_data(stored),
        None => Seq::empty(),
    };
    let size = sector_bytes(s.size_code as int);
    lemma_sector_bytes(s.size_code);
    assert(written_sector(bad) == head + rest);
    td0_record_laws::lemma_parts(data, p.cursor, head, rest);
    let header = data.subrange(p.cursor, p.cursor + 6);
    assert(header == head);
    assert(header[0] == s.track && header[1] == s.side && header[2] == s.sector && header[3] == s.size_code && header[4]
        == s.flags && header[5] == checksum);
    assert(header.take(5) =~= sector_head(s));
    let (d, w) = match s.stored {
        Some(stored) => td0_record_laws::law_stored_data_reads_back(data, p.cursor + 6, size, p.warnings, stored),
        None => (Seq::new(size as nat, |i: int| if bit(s.flags, 4) { 0xF6u8 } else { 0 }), p.warnings),
    };
    assert(d =~= data_of(s));
    assert(td0_reader::sector_of(header, d) == sector_saved(s));
    if s.stored is None {
        assert(Seq::new(size as nat, |i: int| if td0_reader::has_flag(header[4], 0x10) { 0xF6u8 } else { 0u8 }) =~= d);
    }
    let q = td0_reader::sector_step(data, p)->Ok_0;
    assert(q.warnings.take(p.warnings.len() as int) =~= p.warnings);
}

/// A wrong checksum of a track changes nothing but the warnings, of which there is one more.
pub proof fn law_track_checksum_only_warns(header: Seq<u8>, bad: u8, rate: u8, cursor: int, warnings: Seq<Seq<char>>)
    requires
        header.len() == 4,
        header[3] == crc::crc_of(header.take(3)) % 256,
        bad != header[3],
    ensures
        ({
            let right = td0_reader::track_start(header, rate, cursor, warnings);
            let wrong = td0_reader::track_start(header.update(3, bad), rate, cursor, warnings);
            &&& wrong.cursor == right.cursor && wrong.track == right.track
            &&& right.warnings == warnings
            &&& wrong.warnings.len() == warnings.len() + 1 && wrong.warnings.take(warnings.len() as int) == warnings
        }),
{
    let other = header.update(3, bad);
    assert(other.take(3) =~= header.take(3));
    let wrong = td0_reader::track_start(other, rate, cursor, warnings);
    assert(wrong.warnings.take(warnings.len() as int) =~= warnings);
}

/// A comment with a wrong checksum is passed over like one with the right checksum, with one
/// warning more.
pub proof fn law_comment_checksum_only_warns(data: Seq<u8>, warnings: Seq<Seq<char>>)
    requires
        10 <= data.len() <= usize::MAX,
        10 + data[2] + 256 * data[3] <= data.len(),
    ensures
        td0_reader::comment(data, 0, warnings) matches Ok((next, all)) && {
            let n = 10 + data[2] + 256 * data[3];
            &&& next == n
            &&& data[0] + 256 * data[1] == crc::crc_of(data.subrange(2, n)) ==> all == warnings
            &&& data[0] + 256 * data[1] != crc::crc_of(data.subrange(2, n)) ==> all.len() == warnings.len() + 1 && all.take(
                warnings.len() as int,
            ) == warnings
        },
{
    let n = 10 + data[2] + 256 * data[3];
    let header = data.subrange(0, 10);
    assert(header[0] == data[0] && header[1] == data[1] && header[2] == data[2] && header[3] == data[3]);
    assert(header.subrange(2, 10) + data.subrange(10, n) =~= data.subrange(2, n));
    let all = td0_reader::comment(data, 0, warnings)->Ok_0.1;
    if all != warnings {
        assert(all.take(warnings.len() as int) =~= warnings);
    }
}

/// Sector headers are refused that are cut short or have a size code above 7.
pub proof fn law_bad_sectors_are_refused(data: Seq<u8>, p: Progress)
    requires
        0 <= p.cursor <= data.len() <= usize::MAX,
        data.len() < p.cursor + 6 || data[p.cursor + 3] > 7,
    ensures
        td0_reader::sector_step(data, p) matches Err(ErrorView::Parse { offset, message }),
{
    if data.len() >= p.cursor + 6 {
        assert(data.subrange(p.cursor, p.cursor + 6)[3] == data[p.cursor + 3]);
    }
}

/// Files that hold no track at all are refused, and so are those that end before the mark behind
/// the last track.
pub proof fn law_empty_files_are_refused(file: Seq<u8>, filename: Option<Seq<char>>)
    requires
        plain_header(file),
        file[7] < 128,
        file.len() < 16 || file[12] == 0xFF,
    ensures
        td0_reader::td0_image(file, filename) is Err,
{
    let data = file.skip(12);
    if file.len() >= 16 {
        assert(data.subrange(0, 4)[0] == file[12]);
    }
}

/// The first track with sectors, counted along each side, tells how many sectors a track has, how large
/// they are and with which number they begin. Two sides follow each other.
pub proof fn law_first_track_tells_sectors(file: Seq<u8>, filename: Option<Seq<char>>, image: ImageView, side: int, track: int)
    requires
        td0_reader::td0_image(file, filename) == Ok::<ImageView, ErrorView>(image),
        0 <= side < image.disks.len(),
        0 <= track < image.disks[side].tracks.len(),
        0 < image.disks[side].tracks[track].sectors.len() < 256,
        image.disks[side].tracks[track].sectors[0].id.size_code <= 7,
        forall|s: int, t: int|
            0 <= s < side && 0 <= t < image.disks[s].tracks.len() || s == side && 0 <= t < track ==> (
            #[trigger] image.disks[s].tracks[t]).sectors.len() == 0,
    ensures
        ({
            let first = image.disks[side].tracks[track];
            &&& image.spec.sectors_per_track == first.sectors.len()
            &&& image.spec.sector_size == sector_bytes(first.sectors[0].id.size_code as int)
            &&& image.spec.first_sector_id == first.sectors[0].id.sector
            &&& image.spec.side_mode == (if image.disks.len() == 1 { SideMode::SingleSide } else { SideMode::Successive })
        }),
{
    lemma_first_full(image, 0, side, track);
    lemma_sector_bytes(image.disks[side].tracks[track].sectors[0].id.size_code);
}

proof fn lemma_first_full(image: ImageView, from: int, side: int, track: int)
    requires
        0 <= from <= side < image.disks.len(),
        0 <= track < image.disks[side].tracks.len(),
        0 < image.disks[side].tracks[track].sectors.len(),
        forall|s: int, t: int|
            0 <= s < side && 0 <= t < image.disks[s].tracks.len() || s == side && 0 <= t < track ==> (
            #[trigger] image.disks[s].tracks[t]).sectors.len() == 0,
    ensures
        td0_reader::first_full(image.disks, from) == Some(image.disks[side].tracks[track]),
    decreases side - from,
{
    if from < side {
        lemma_none_full(image, from, 0, side);
        lemma_first_full(image, from + 1, side, track);
    } else {
        lemma_first_in_side(image, side, 0, track);
    }
}

proof fn lemma_none_full(image: ImageView, s: int, t: int, side: int)
    requires
        0 <= s < side < image.disks.len(),
        0 <= t <= image.disks[s].tracks.len(),
        forall|x: int| 0 <= x < image.disks[s].tracks.len() ==> (#[trigger] image.disks[s].tracks[x]).sectors.len() == 0,
    ensures
        td0_reader::first_full_track(image.disks[s], t) is None,
    decreases image.disks[s].tracks.len() - t,
{
    if t < image.disks[s].tracks.len() {
        assert(image.disks[s].tracks[t].sectors.len() == 0);
        lemma_none_full(image, s, t + 1, side);
    }
}

proof fn lemma_first_in_side(image: ImageView, side: int, from: int, track: int)
    requires
        0 <= side < image.disks.len(),
        0 <= from <= track < image.disks[side].tracks.len(),
        0 < image.disks[side].tracks[track].sectors.len(),
        forall|x: int| 0 <= x < track ==> (#[trigger] image.disks[side].tracks[x]).sectors.len() == 0,
    ensures
        td0_reader::first_full_track(image.disks[side], from) == Some(image.disks[side].tracks[track]),
    decreases track - from,
{
    if from < track {
        assert(image.disks[side].tracks[from].sectors.len() == 0);
        lemma_first_in_side(image, side, from + 1, track);
    }
}

}
