//! Laws of images, sector by sector and byte by byte.

use crate::error::ErrorView;
use crate::format::{DiskImageFormat, FormatSpec, SideMode};
use crate::image::builder;
use crate::image::disk::DiskView;
use crate::image::sector::SectorView;
use crate::image::track;
use crate::image::track::TrackView;
use crate::image::ImageView;
use crate::order;
use vstd::prelude::*;

verus! {

/// Whether sector `i` of a track is the first with its ID number.
pub open spec fn first_with_id(t: TrackView, i: int) -> bool {
    &&& 0 <= i < t.sectors.len()
    &&& forall|j: int| 0 <= j < i ==> (#[trigger] t.sectors[j]).id.sector != t.sectors[i].id.sector
}

/// A sector is read by its side, its track and its ID number: of several with the same number
/// the first counts.
pub proof fn law_read_gives_the_first(image: ImageView, side: u8, track: u8, i: int)
    requires
        side < image.disks.len(),
        track < image.disks[side as int].tracks.len(),
        first_with_id(image.disks[side as int].tracks[track as int], i),
    ensures
        ({
            let s = image.disks[side as int].tracks[track as int].sectors[i];
            image.read(side, track, s.id.sector) == Ok::<Seq<u8>, ErrorView>(s.data)
        }),
{
    let t = image.disks[side as int].tracks[track as int];
    track::lemma_find(t, t.sectors[i].id.sector, 0);
}

/// A write replaces the data of that one sector and marks the image as changed; everything else
/// stays as it is.
pub proof fn law_write_replaces_the_first(image: ImageView, side: u8, track: u8, i: int, data: Seq<u8>, s: int, t: int, j: int)
    requires
        side < image.disks.len(),
        track < image.disks[side as int].tracks.len(),
        first_with_id(image.disks[side as int].tracks[track as int], i),
        0 <= s < image.disks.len(),
        0 <= t < image.disks[s].tracks.len(),
        0 <= j < image.disks[s].tracks[t].sectors.len(),
    ensures
        ({
            let id = image.disks[side as int].tracks[track as int].sectors[i].id.sector;
            let before = image.disks[s].tracks[t].sectors[j];
            image.write(side, track, id, data) matches Ok(after) && {
                let now = after.disks[s].tracks[t].sectors[j];
                &&& after.changed
                &&& after.format == image.format && after.spec == image.spec && after.filename == image.filename
                    && after.warnings == image.warnings
                &&& after.disks.len() == image.disks.len()
                &&& after.disks[s].tracks.len() == image.disks[s].tracks.len()
                &&& after.disks[s].tracks[t].sectors.len() == image.disks[s].tracks[t].sectors.len()
                &&& now.id == before.id && now.status1 == before.status1 && now.status2 == before.status2
                &&& now.data == (if s == side && t == track && j == i { data } else { before.data })
            }
        }),
{
    let tr = image.disks[side as int].tracks[track as int];
    track::lemma_find(tr, tr.sectors[i].id.sector, 0);
}

/// What is not there can be neither read nor written. The error tells what is missing: a side or
/// a track, with the highest number that there is, or a sector on its track.
pub proof fn law_missing_sectors_are_refused(image: ImageView, side: u8, track: u8, id: u8, data: Seq<u8>)
    ensures
        side >= image.disks.len() ==> image.read(side, track, id) == Err::<Seq<u8>, ErrorView>(
            ErrorView::InvalidTrack {
                side,
                track,
                max: if image.spec.num_sides == 0 { 0 } else { (image.spec.num_sides - 1) as u8 },
            },
        ),
        side < image.disks.len() && track >= image.disks[side as int].tracks.len() ==> image.read(side, track, id) == Err::<
            Seq<u8>,
            ErrorView,
        >(
            ErrorView::InvalidTrack {
                side,
                track,
                max: if image.spec.num_tracks == 0 { 0 } else { (image.spec.num_tracks - 1) as u8 },
            },
        ),
        side < image.disks.len() && track < image.disks[side as int].tracks.len() && (forall|j: int|
            0 <= j < image.disks[side as int].tracks[track as int].sectors.len() ==> (
            #[trigger] image.disks[side as int].tracks[track as int].sectors[j]).id.sector != id) ==> image.read(side, track, id)
            == Err::<Seq<u8>, ErrorView>(ErrorView::InvalidSector { side, track, id }),
        match (image.read(side, track, id), image.write(side, track, id, data)) {
            (Ok(_), Ok(_)) => true,
            (Err(a), Err(b)) => a == b,
            _ => false,
        },
{
    if side < image.disks.len() && track < image.disks[side as int].tracks.len() {
        track::lemma_find(image.disks[side as int].tracks[track as int], id, 0);
    }
}

/// Whether all sides have `tracks` tracks, all tracks `n` sectors and all sectors `size` bytes.
pub open spec fn even(image: ImageView, tracks: int, n: int, size: int) -> bool {
    &&& 0 <= tracks <= 256
    &&& forall|s: int| 0 <= s < image.disks.len() ==> (#[trigger] image.disks[s]).tracks.len() == tracks
    &&& forall|s: int, t: int|
        0 <= s < image.disks.len() && 0 <= t < tracks ==> even_track(#[trigger] image.disks[s].tracks[t], n, size)
}

/// Whether a track has `n` sectors of `size` bytes.
pub open spec fn even_track(t: TrackView, n: int, size: int) -> bool {
    &&& t.sectors.len() == n
    &&& forall|i: int| 0 <= i < n ==> (#[trigger] t.sectors[i]).data.len() == size
}

/// The sectors of a track in their order have the sizes of its sectors.
proof fn lemma_even_order(t: TrackView, n: int, size: int, k: int)
    requires
        even_track(t, n, size),
        0 <= k < n,
    ensures
        t.by_id().len() == n,
        t.by_id()[k].data.len() == size,
{
    order::lemma_order_permutes(order::by_key(t.ids()), t.sectors.len() as int);
    let o = order::key_order(t.ids());
    assert(t.by_id()[k] == t.sectors[o[k]]);
}

/// The data of a track, byte by byte.
proof fn lemma_track_bytes(t: TrackView, n: int, size: int, m: int, k: int, j: int)
    requires
        even_track(t, n, size),
        0 <= m <= n,
    ensures
        t.data_to(m).len() == m * size,
        0 <= k < m && 0 <= j < size ==> 0 <= k * size + j < m * size && t.data_to(m)[k * size + j] == t.by_id()[k].data[j],
    decreases m,
{
    if m > 0 {
        lemma_track_bytes(t, n, size, m - 1, k, j);
        lemma_even_order(t, n, size, m - 1);
        lemma_room(k, m - 1, size, j);
    } else {
        assert(m * size == 0) by (nonlinear_arith)
            requires
                m == 0,
        ;
    }
}

/// Where byte `j` of part `k` lies among `m + 1` parts of the same size.
proof fn lemma_room(k: int, m: int, size: int, j: int)
    requires
        0 <= m,
        0 <= size,
    ensures
        (m + 1) * size == m * size + size,
        0 <= k < m && 0 <= j < size ==> 0 <= k * size + j < m * size,
        k == m && 0 <= j < size ==> k * size + j == m * size + j,
{
    assert((m + 1) * size == m * size + size) by (nonlinear_arith);
    if 0 <= k < m && 0 <= j < size {
        assert(0 <= k * size + j < m * size) by (nonlinear_arith)
            requires
                0 <= k < m,
                0 <= j < size,
        ;
    }
}

/// The data of one side, track by track.
proof fn lemma_side_bytes(d: DiskView, n: int, size: int, m: int, t: int, q: int)
    requires
        0 <= m <= d.tracks.len() <= 256,
        0 <= n,
        0 <= size,
        forall|x: int| 0 <= x < d.tracks.len() ==> even_track(#[trigger] d.tracks[x], n, size),
    ensures
        d.logical_to(m).len() == m * (n * size),
        0 <= t < m && 0 <= q < n * size ==> 0 <= t * (n * size) + q < m * (n * size) && d.logical_to(m)[t * (n * size) + q]
            == d.tracks[t].logical()[q],
    decreases m,
{
    let w = n * size;
    assert(w >= 0) by (nonlinear_arith)
        requires
            n >= 0,
            size >= 0,
            w == n * size,
    ;
    if m > 0 {
        lemma_side_bytes(d, n, size, m - 1, t, q);
        assert((m - 1) % 256 == m - 1);
        assert(even_track(d.tracks[m - 1], n, size));
        lemma_track_bytes(d.tracks[m - 1], n, size, n, 0, 0);
        lemma_room(t, m - 1, w, q);
    } else {
        assert(m * w == 0) by (nonlinear_arith)
            requires
                m == 0,
        ;
    }
}

/// The data of several sides, one behind the other.
proof fn lemma_sides_bytes(image: ImageView, tracks: int, n: int, size: int, m: int, s: int, p: int)
    requires
        even(image, tracks, n, size),
        0 <= n,
        0 <= size,
        0 <= m <= image.disks.len(),
    ensures
        image.sides_to(m).len() == m * (tracks * (n * size)),
        0 <= s < m && 0 <= p < tracks * (n * size) ==> 0 <= s * (tracks * (n * size)) + p < m * (tracks * (n * size))
            && image.sides_to(m)[s * (tracks * (n * size)) + p] == image.disks[s].logical_to(tracks)[p],
    decreases m,
{
    let w = tracks * (n * size);
    assert(w >= 0) by (nonlinear_arith)
        requires
            n >= 0,
            size >= 0,
            tracks >= 0,
            w == tracks * (n * size),
    ;
    if m > 0 {
        lemma_sides_bytes(image, tracks, n, size, m - 1, s, p);
        let d = image.disks[m - 1];
        assert forall|x: int| 0 <= x < d.tracks.len() implies even_track(#[trigger] d.tracks[x], n, size) by {
            assert(even_track(image.disks[m - 1].tracks[x], n, size));
        }
        lemma_side_bytes(d, n, size, tracks, 0, 0);
        lemma_room(s, m - 1, w, p);
    } else {
        assert(m * w == 0) by (nonlinear_arith)
            requires
                m == 0,
        ;
    }
}

/// The data of one track on several sides.
proof fn lemma_row_bytes(image: ImageView, tracks: int, n: int, size: int, t: int, m: int, s: int, q: int)
    requires
        even(image, tracks, n, size),
        0 <= n,
        0 <= size,
        0 <= t < tracks,
        0 <= m <= image.disks.len(),
    ensures
        image.row_to(t, m).len() == m * (n * size),
        0 <= s < m && 0 <= q < n * size ==> 0 <= s * (n * size) + q < m * (n * size) && image.row_to(t, m)[s * (n * size) + q]
            == image.disks[s].tracks[t].logical()[q],
    decreases m,
{
    let w = n * size;
    assert(w >= 0) by (nonlinear_arith)
        requires
            n >= 0,
            size >= 0,
            w == n * size,
    ;
    if m > 0 {
        lemma_row_bytes(image, tracks, n, size, t, m - 1, s, q);
        assert(t % 256 == t);
        assert(image.disks[m - 1].tracks.len() == tracks);
        assert(even_track(image.disks[m - 1].tracks[t], n, size));
        lemma_track_bytes(image.disks[m - 1].tracks[t], n, size, n, 0, 0);
        lemma_room(s, m - 1, w, q);
    } else {
        assert(m * w == 0) by (nonlinear_arith)
            requires
                m == 0,
        ;
    }
}

/// The data of several tracks, side by side.
proof fn lemma_rows_bytes(image: ImageView, tracks: int, n: int, size: int, m: int, t: int, p: int)
    requires
        even(image, tracks, n, size),
        0 <= n,
        0 <= size,
        0 <= m <= tracks,
    ensures
        image.rows_to(m).len() == m * (image.disks.len() * (n * size)),
        0 <= t < m && 0 <= p < image.disks.len() * (n * size) ==> 0 <= t * (image.disks.len() * (n * size)) + p < m * (
        image.disks.len() * (n * size)) && image.rows_to(m)[t * (image.disks.len() * (n * size)) + p] == image.row_to(
            t,
            image.disks.len() as int,
        )[p],
    decreases m,
{
    let sides = image.disks.len() as int;
    let w = sides * (n * size);
    assert(w >= 0) by (nonlinear_arith)
        requires
            n >= 0,
            size >= 0,
            sides >= 0,
            w == sides * (n * size),
    ;
    if m > 0 {
        lemma_rows_bytes(image, tracks, n, size, m - 1, t, p);
        lemma_row_bytes(image, tracks, n, size, m - 1, sides, 0, 0);
        lemma_room(t, m - 1, w, p);
    } else {
        assert(m * w == 0) by (nonlinear_arith)
            requires
                m == 0,
        ;
    }
}

proof fn lemma_max_tracks(image: ImageView, tracks: int, m: int)
    requires
        0 <= tracks,
        0 <= m <= image.disks.len(),
        forall|s: int| 0 <= s < image.disks.len() ==> (#[trigger] image.disks[s]).tracks.len() == tracks,
    ensures
        image.max_tracks(m) == (if m > 0 { tracks } else { 0 }),
    decreases m,
{
    if m > 0 {
        lemma_max_tracks(image, tracks, m - 1);
        assert(image.disks[m - 1].tracks.len() == tracks);
    }
}

/// In logical order each track has its sectors in the order of their ID numbers. Where sides
/// alternate, every track is followed by the same track of the other side; where they follow each
/// other, all tracks of a side come before those of the next.
pub proof fn law_logical_order(image: ImageView, tracks: int, n: int, size: int, s: int, t: int, k: int, j: int)
    requires
        even(image, tracks, n, size),
        0 <= s < image.disks.len(),
        0 <= t < tracks,
        0 <= k < n,
        0 <= j < size,
        image.spec.side_mode == SideMode::SingleSide ==> s == 0,
    ensures
        ({
            let sides = image.disks.len() as int;
            let at = k * size + j;
            let p = match image.spec.side_mode {
                SideMode::Alternate => t * (sides * (n * size)) + (s * (n * size) + at),
                _ => s * (tracks * (n * size)) + (t * (n * size) + at),
            };
            &&& 0 <= p < image.logical().len()
            &&& image.logical()[p] == image.disks[s].tracks[t].by_id()[k].data[j]
            &&& image.logical().len() == (match image.spec.side_mode {
                SideMode::Alternate => tracks * (sides * (n * size)),
                SideMode::Successive => sides * (tracks * (n * size)),
                SideMode::SingleSide => tracks * (n * size),
            })
        }),
{
    let sides = image.disks.len() as int;
    let at = k * size + j;
    let d = image.disks[s];
    assert forall|x: int| 0 <= x < d.tracks.len() implies even_track(#[trigger] d.tracks[x], n, size) by {
        assert(even_track(image.disks[s].tracks[x], n, size));
    }
    lemma_track_bytes(d.tracks[t], n, size, n, k, j);
    match image.spec.side_mode {
        SideMode::Alternate => {
            lemma_max_tracks(image, tracks, sides);
            lemma_row_bytes(image, tracks, n, size, t, sides, s, at);
            lemma_rows_bytes(image, tracks, n, size, tracks, t, s * (n * size) + at);
        },
        SideMode::Successive => {
            lemma_side_bytes(d, n, size, tracks, t, at);
            lemma_sides_bytes(image, tracks, n, size, sides, s, t * (n * size) + at);
        },
        SideMode::SingleSide => {
            lemma_side_bytes(d, n, size, tracks, t, at);
            lemma_sides_bytes(image, tracks, n, size, 1, s, t * (n * size) + at);
        },
    }
}

/// 128, doubled as often as the code says.
pub open spec fn doubled(code: int) -> int
    decreases code,
{
    if code <= 0 { 128 } else { 2 * doubled(code - 1) }
}

/// An image can be built with one or two sides, with at least one track and one sector, with ID
/// numbers up to 255, and with sectors of 128 bytes, doubled up to seven times. Its sectors
/// count up from the first ID number on every track, hold the filler byte throughout, and say
/// in their ID fields where they are and how large they are. The image counts as changed.
pub proof fn law_fresh_image(format: DiskImageFormat, spec: FormatSpec, code: int)
    requires
        0 <= code <= 7,
        spec.sector_size == doubled(code),
    ensures
        builder::built(format, spec) is Ok <==> {
            &&& spec.num_sides == 1 || spec.num_sides == 2
            &&& spec.num_tracks >= 1
            &&& spec.sectors_per_track >= 1
            &&& spec.first_sector_id + spec.sectors_per_track <= 256
        },
        builder::built(format, spec) matches Ok(image) ==> {
            &&& image.format == format && image.spec == spec && image.changed && image.filename is None && image.warnings.len()
                == 0
            &&& image.disks.len() == spec.num_sides
            &&& forall|s: int| 0 <= s < spec.num_sides ==> (#[trigger] image.disks[s]).tracks.len() == spec.num_tracks
            &&& forall|s: int, t: int|
                0 <= s < spec.num_sides && 0 <= t < spec.num_tracks ==> fresh_track(#[trigger] image.disks[s].tracks[t], spec, s, t, code)
        },
{
    reveal_with_fuel(doubled, 9);
    if let Ok(image) = builder::built(format, spec) {
        assert forall|s: int, t: int| 0 <= s < spec.num_sides && 0 <= t < spec.num_tracks implies fresh_track(
            #[trigger] image.disks[s].tracks[t],
            spec,
            s,
            t,
            code,
        ) by {
            assert(image.disks[s].tracks[t] == builder::blank_track(spec, s, t));
        }
    }
}

/// Whether a track is freshly formatted.
pub open spec fn fresh_track(t: TrackView, spec: FormatSpec, side: int, number: int, code: int) -> bool {
    &&& t.track_number == number && t.side_number == side && t.gap3_length == spec.gap3_length && t.filler_byte
        == spec.filler_byte
    &&& t.sectors.len() == spec.sectors_per_track
    &&& forall|i: int| 0 <= i < t.sectors.len() ==> fresh_sector(#[trigger] t.sectors[i], spec, side, number, i, code)
}

/// Whether a sector is freshly formatted.
pub open spec fn fresh_sector(s: SectorView, spec: FormatSpec, side: int, number: int, i: int, code: int) -> bool {
    &&& s.id.track == number && s.id.side == side && s.id.sector == spec.first_sector_id + i && s.id.size_code == code
    &&& s.status1.0 == 0 && s.status2.0 == 0
    &&& s.data.len() == spec.sector_size
    &&& forall|k: int| 0 <= k < s.data.len() ==> #[trigger] s.data[k] == spec.filler_byte
}

/// Sectors of any other size cannot be built.
pub proof fn law_odd_sizes_are_refused(format: DiskImageFormat, spec: FormatSpec)
    requires
        forall|code: int| 0 <= code <= 7 ==> spec.sector_size != #[trigger] doubled(code),
    ensures
        builder::built(format, spec) is Err,
{
    reveal_with_fuel(doubled, 9);
    assert(doubled(0) == 128 && doubled(1) == 256 && doubled(2) == 512 && doubled(3) == 1024 && doubled(4) == 2048 && doubled(5)
        == 4096 && doubled(6) == 8192 && doubled(7) == 16384);
}

/// Where the sectors of a track stand in the order of their ID numbers: every sector once, numbers
/// ascending, and sectors with the same number in the order of the track.
pub proof fn law_order_by_id(t: TrackView) -> (places: Seq<int>)
    ensures
        places.len() == t.sectors.len() == t.by_id().len(),
        forall|k: int| 0 <= k < places.len() ==> 0 <= #[trigger] places[k] < t.sectors.len() && t.by_id()[k] == t.sectors[places[k]],
        forall|i: int| 0 <= i < t.sectors.len() ==> #[trigger] places.contains(i),
        forall|k: int, l: int|
            0 <= k < l < places.len() ==> t.sectors[#[trigger] places[k]].id.sector < t.sectors[#[trigger] places[l]].id.sector
                || t.sectors[places[k]].id.sector == t.sectors[places[l]].id.sector && places[k] < places[l],
{
    let ids = t.ids();
    let o = order::key_order(ids);
    order::lemma_order_permutes(order::by_key(ids), ids.len() as int);
    order::lemma_key_order_sorted(ids);
    order::lemma_key_order_stable(ids, ids.len() as int);
    assert forall|k: int, l: int| 0 <= k < l < o.len() implies t.sectors[#[trigger] o[k]].id.sector < t.sectors[#[trigger] o[l]].id.sector
        || t.sectors[o[k]].id.sector == t.sectors[o[l]].id.sector && o[k] < o[l] by {
        assert(ids[o[k]] <= ids[o[l]]);
    }
    o
}

/// One side stands alone, and two sides alternate unless they are to follow each other.
pub proof fn law_side_mode_suits_sides(sides: u8, mode: SideMode)
    ensures
        sides <= 1 ==> crate::format::mode_for(sides, mode) == SideMode::SingleSide,
        sides >= 2 && mode != SideMode::Successive ==> crate::format::mode_for(sides, mode) == SideMode::Alternate,
        sides >= 2 && mode == SideMode::Successive ==> crate::format::mode_for(sides, mode) == SideMode::Successive,
{
}

}
