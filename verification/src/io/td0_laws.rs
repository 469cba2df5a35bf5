//! Laws of TeleDisk images.

use crate::error::ErrorView;
use crate::format::DiskImageFormat;
use crate::image::sector::SectorView;
use crate::image::track::TrackView;
use crate::image::ImageView;
use crate::io::huffman::TreeView;
use crate::io::lzhuf;
use crate::io::td0_reader;
use crate::io::td0_reader::Progress;
use vstd::prelude::*;

verus! {

/// Run-length records make up exactly as many bytes as are wanted.
pub proof fn law_rle_fills(data: Seq<u8>, cursor: int, size: int, out: Seq<u8>)
    requires
        out.len() <= size,
    ensures
        td0_reader::rle(data, cursor, size, out) matches Ok((decoded, next)) ==> decoded.len() == size,
    decreases data.len() - cursor,
{
    if out.len() < size && cursor + 1 < data.len() {
        let length = data[cursor] as int;
        let count = data[cursor + 1] as int;
        let start = cursor + 2;
        if count != 0 && length == 0 && start + count <= data.len() {
            let more = td0_reader::cut(out + data.subrange(start, start + count), size);
            law_rle_fills(data, start + count, size, more);
        } else if count != 0 && length != 0 && start + 2 * length <= data.len() {
            let pattern = data.subrange(start, start + 2 * length);
            let more = td0_reader::cut(out + td0_reader::repeated(pattern, count), size);
            law_rle_fills(data, start + 2 * length, size, more);
        }
    }
}

proof fn lemma_decoded_bound(data: Seq<u8>, p: int, t: TreeView, out: Seq<u8>)
    requires
        out.len() <= lzhuf::MAX_OUTPUT,
    ensures
        lzhuf::decoded(data, p, t, out).len() <= lzhuf::MAX_OUTPUT,
    decreases lzhuf::MAX_OUTPUT - out.len(),
{
    if out.len() < lzhuf::MAX_OUTPUT {
        if let Some((c, p2)) = lzhuf::code_at(t, data, t.son[626], p) {
            if c < 256 {
                lemma_decoded_bound(data, p2, t.updated(c), out.push(c as u8));
            } else if let Some((position, p3)) = lzhuf::position_at(data, p2) {
                let more = lzhuf::repeat_back(out, position + 1, c - 253);
                lzhuf::lemma_repeat_back_grows(out, position + 1, c - 253);
                lemma_decoded_bound(data, p3, t.updated(c), more);
            }
        }
    }
}

/// A stream that can be unpacked holds at least one byte, and never more than the limit.
pub proof fn law_lzhuf_is_bounded(data: Seq<u8>)
    ensures
        lzhuf::lzhuf_stream(data) matches Ok(out) ==> 0 < out.len() <= lzhuf::MAX_OUTPUT,
{
    lemma_decoded_bound(data, 0, TreeView::initial(), Seq::empty());
}

/// Whether a sector has as many bytes as its ID field announces.
pub open spec fn whole(s: SectorView) -> bool {
    s.id.size_code <= 7 && s.data.len() == crate::format::coded_size(s.id.size_code)
}

/// Whether all sectors of a track have as many bytes as their ID fields announce.
pub open spec fn whole_track(t: TrackView) -> bool {
    forall|i: int| 0 <= i < t.sectors.len() ==> whole(#[trigger] t.sectors[i])
}

proof fn lemma_whole_steps(data: Seq<u8>, p: Progress, n: int)
    requires
        whole_track(p.track),
    ensures
        td0_reader::sector_steps(data, p, n) matches Ok(q) ==> whole_track(q.track),
    decreases n,
{
    if n > 0 {
        lemma_whole_steps(data, p, n - 1);
    }
}

proof fn lemma_whole_tracks(data: Seq<u8>, rate: u8, cursor: int, warnings: Seq<Seq<char>>, tracks: Seq<TrackView>)
    requires
        forall|i: int| 0 <= i < tracks.len() ==> whole_track(#[trigger] tracks[i]),
    ensures
        td0_reader::track_steps(data, rate, cursor, warnings, tracks) matches Ok((all, w)) ==> forall|i: int|
            0 <= i < all.len() ==> whole_track(#[trigger] all[i]),
    decreases data.len() - cursor,
{
    if let Ok(header) = td0_reader::taken(data, cursor, 4, "track header"@) {
        if header[0] != td0_reader::LAST_TRACK {
            let start = td0_reader::track_start(header, rate, cursor, warnings);
            lemma_whole_steps(data, start, header[0] as int);
            td0_reader::lemma_steps_range(data, start, header[0] as int);
            if let Ok(p) = td0_reader::sector_steps(data, start, header[0] as int) {
                lemma_whole_tracks(data, rate, p.cursor, p.warnings, tracks.push(p.track));
            }
        }
    }
}

proof fn lemma_whole_placed(tracks: Seq<TrackView>, n: int, side: int, number: int)
    requires
        0 <= n <= tracks.len(),
        forall|i: int| 0 <= i < tracks.len() ==> whole_track(#[trigger] tracks[i]),
    ensures
        whole_track(td0_reader::placed(tracks, n, side, number)),
    decreases n,
{
    if n > 0 {
        lemma_whole_placed(tracks, n - 1, side, number);
    }
}

/// Every sector of a TeleDisk image has as many bytes as its ID field announces, whatever the
/// file stored for it.
pub proof fn law_sectors_are_whole(file: Seq<u8>, filename: Option<Seq<char>>, image: ImageView, side: int, track: int, i: int)
    requires
        td0_reader::td0_image(file, filename) == Ok::<ImageView, ErrorView>(image),
        0 <= side < image.disks.len(),
        0 <= track < image.disks[side].tracks.len(),
        0 <= i < image.disks[side].tracks[track].sectors.len(),
    ensures
        whole(image.disks[side].tracks[track].sectors[i]),
{
    let (cursor, warnings, tracks) = lemma_records(file, filename, image);
    let data = td0_reader::unpacked(file)->Ok_0;
    lemma_whole_tracks(data, file[5], cursor, warnings, Seq::empty());
    lemma_whole_placed(tracks, tracks.len() as int, side, track);
}

/// The records that an image was assembled from.
proof fn lemma_records(file: Seq<u8>, filename: Option<Seq<char>>, image: ImageView) -> (r: (int, Seq<Seq<char>>, Seq<TrackView>))
    requires
        td0_reader::td0_image(file, filename) == Ok::<ImageView, ErrorView>(image),
    ensures
        td0_reader::unpacked(file) is Ok,
        td0_reader::track_steps(td0_reader::unpacked(file)->Ok_0, file[5], r.0, r.1, Seq::empty()) matches Ok((tracks, w)) && {
            &&& tracks == r.2
            &&& tracks.len() > 0
            &&& image == td0_reader::assembled(file[9], tracks, w, filename)
        },
{
    let warnings: Seq<Seq<char>> = if crate::io::crc::crc_of(file.take(10)) == crate::bytes::word_at(file, 10) {
        Seq::empty()
    } else {
        seq!["TD0 header CRC is invalid."@]
    };
    let data = td0_reader::unpacked(file)->Ok_0;
    let start: (int, Seq<Seq<char>>) = if file[7] >= 0x80 {
        td0_reader::comment(data, 0, warnings)->Ok_0
    } else {
        (0int, warnings)
    };
    let tracks = td0_reader::track_steps(data, file[5], start.0, start.1, Seq::empty())->Ok_0.0;
    (start.0, start.1, tracks)
}

/// A TeleDisk image has one or two sides, and its geometry tells how many sides and tracks it
/// has. It counts as unchanged.
pub proof fn law_geometry_is_told(file: Seq<u8>, filename: Option<Seq<char>>, image: ImageView, side: int)
    requires
        td0_reader::td0_image(file, filename) == Ok::<ImageView, ErrorView>(image),
        0 <= side < image.disks.len(),
    ensures
        1 <= image.disks.len() <= 2,
        image.spec.num_sides == image.disks.len(),
        image.disks[side].side == side,
        image.spec.num_tracks == image.disks[side].tracks.len() >= 1,
        image.format == DiskImageFormat::RawTd0,
        image.filename == filename,
        !image.changed,
{
    let (cursor, warnings, tracks) = lemma_records(file, filename, image);
    td0_reader::lemma_max_track(tracks, tracks.len() as int);
}

/// Warnings that were there before stay in front while sectors are read.
proof fn lemma_steps_prefix(data: Seq<u8>, first: Seq<Seq<char>>, p: Progress, n: int)
    ensures
        match td0_reader::sector_steps(data, p, n) {
            Ok(q) => td0_reader::sector_steps(data, Progress { warnings: first + p.warnings, ..p }, n) == Ok::<Progress, ErrorView>(
                Progress { warnings: first + q.warnings, ..q },
            ),
            Err(e) => td0_reader::sector_steps(data, Progress { warnings: first + p.warnings, ..p }, n) == Err::<Progress, ErrorView>(e),
        },
    decreases n,
{
    if n > 0 {
        lemma_steps_prefix(data, first, p, n - 1);
        if let Ok(q) = td0_reader::sector_steps(data, p, n - 1) {
            let r = Progress { warnings: first + q.warnings, ..q };
            assert forall|w: Seq<Seq<char>>, x: Seq<char>| first + #[trigger] w.push(x) == (first + w).push(x) by {
                assert(first + w.push(x) =~= (first + w).push(x));
            }
            if let Ok(a) = td0_reader::sector_step(data, q) {
                let b = td0_reader::sector_step(data, r)->Ok_0;
                assert(b.warnings =~= first + a.warnings);
            }
        }
    }
}

/// Warnings that were there before stay in front while tracks are read.
proof fn lemma_tracks_prefix(
    data: Seq<u8>,
    rate: u8,
    cursor: int,
    first: Seq<Seq<char>>,
    warnings: Seq<Seq<char>>,
    tracks: Seq<TrackView>,
)
    ensures
        match td0_reader::track_steps(data, rate, cursor, warnings, tracks) {
            Ok((t, w)) => td0_reader::track_steps(data, rate, cursor, first + warnings, tracks) == Ok::<
                (Seq<TrackView>, Seq<Seq<char>>),
                ErrorView,
            >((t, first + w)),
            Err(e) => td0_reader::track_steps(data, rate, cursor, first + warnings, tracks) == Err::<
                (Seq<TrackView>, Seq<Seq<char>>),
                ErrorView,
            >(e),
        },
    decreases data.len() - cursor,
{
    if let Ok(header) = td0_reader::taken(data, cursor, 4, "track header"@) {
        if header[0] != td0_reader::LAST_TRACK {
            let start = td0_reader::track_start(header, rate, cursor, warnings);
            let other = td0_reader::track_start(header, rate, cursor, first + warnings);
            assert(other.warnings =~= first + start.warnings);
            assert(other == Progress { warnings: first + start.warnings, ..start });
            lemma_steps_prefix(data, first, start, header[0] as int);
            td0_reader::lemma_steps_range(data, start, header[0] as int);
            if let Ok(p) = td0_reader::sector_steps(data, start, header[0] as int) {
                lemma_tracks_prefix(data, rate, p.cursor, first, p.warnings, tracks.push(p.track));
            }
        }
    }
}

/// A wrong checksum in the file header changes nothing but the warnings: one more stands in
/// front of the others.
pub proof fn law_header_checksum_only_warns(good: Seq<u8>, bad: Seq<u8>, filename: Option<Seq<char>>)
    requires
        12 <= good.len() == bad.len(),
        good.take(10) == bad.take(10),
        good.skip(12) == bad.skip(12),
        crate::io::crc::crc_of(good.take(10)) == crate::bytes::word_at(good, 10),
        crate::io::crc::crc_of(bad.take(10)) != crate::bytes::word_at(bad, 10),
    ensures
        match td0_reader::td0_image(good, filename) {
            Ok(image) => td0_reader::td0_image(bad, filename) == Ok::<ImageView, ErrorView>(
                ImageView { warnings: seq!["TD0 header CRC is invalid."@] + image.warnings, ..image },
            ),
            Err(e) => td0_reader::td0_image(bad, filename) == Err::<ImageView, ErrorView>(e),
        },
{
    let first = seq!["TD0 header CRC is invalid."@];
    assert forall|i: int| 0 <= i < 10 implies #[trigger] good[i] == bad[i] by {
        assert(good.take(10)[i] == good[i] && bad.take(10)[i] == bad[i]);
    }
    if let Ok(data) = td0_reader::unpacked(good) {
        let none = Seq::<Seq<char>>::empty();
        assert(first + none =~= first);
        if good[7] >= 0x80 {
            if let Ok((cursor, warnings)) = td0_reader::comment(data, 0, none) {
                let other = td0_reader::comment(data, 0, first)->Ok_0.1;
                assert(other =~= first + warnings);
                lemma_tracks_prefix(data, good[5], cursor, first, warnings, Seq::empty());
            }
        } else {
            lemma_tracks_prefix(data, good[5], 0, first, none, Seq::empty());
        }
    }
}

}
