//! Laws of formatting: what a freshly formatted disk holds.

use crate::error::ErrorView;
use crate::filesystem::cpm_blocks;
use crate::filesystem::cpm_edit;
use crate::filesystem::cpm_model;
use crate::filesystem::cpm_sectors;
use crate::filesystem::formatting;
use crate::filesystem::formatting::Place;
use crate::filesystem::mgt;
use crate::filesystem::mgt::MgtEntryView;
use crate::filesystem::trdos;
use crate::filesystem::trdos::TrdosCatalog;
use crate::image::disk::DiskView;
use crate::image::laws;
use crate::image::track;
use crate::image::track::TrackView;
use crate::image::ImageView;
use crate::order;
use crate::specification;
use crate::specification::{DiskSpecFormat, DiskSpecification};
use vstd::prelude::*;

verus! {

/// Whether a sector is among the first `n` of a list.
pub open spec fn listed(places: Seq<Place>, n: int, s: u8, t: u8, id: u8) -> bool {
    exists|i: int| 0 <= i < n && (#[trigger] places[i]).0 == s && places[i].1 == t && places[i].2 == id
}

/// What is read after the first sectors of a list have been filled.
proof fn lemma_filled_to(image: ImageView, places: Seq<Place>, size: int, b: u8, n: int)
    requires
        0 <= n <= places.len(),
    ensures
        formatting::filled_to(image, places, size, b, n) matches Ok(after) ==> {
            &&& laws::same_layout(image, after)
            &&& forall|i: int| 0 <= i < n ==> (#[trigger] places[i]).3 == size
            &&& forall|s: u8, t: u8, id: u8| #[trigger] after.read(s, t, id) == (if listed(places, n, s, t, id) {
                Ok::<Seq<u8>, ErrorView>(formatting::filler(size, b))
            } else {
                image.read(s, t, id)
            })
        },
    decreases n,
{
    if n <= 0 {
        laws::lemma_same_layout_reflexive(image);
    } else {
        lemma_filled_to(image, places, size, b, n - 1);
        if let Ok(after) = formatting::filled_to(image, places, size, b, n) {
            let before = formatting::filled_to(image, places, size, b, n - 1)->Ok_0;
            let p = places[n - 1];
            let f = formatting::filler(size, b);
            laws::law_write_keeps_layout(before, after, p.0, p.1, p.2, f);
            laws::lemma_same_layout_chain(image, before, after);
            laws::law_read_after_write(before, after, p.0, p.1, p.2, f);
            assert forall|s: u8, t: u8, id: u8| #[trigger] after.read(s, t, id) == (if listed(places, n, s, t, id) {
                Ok::<Seq<u8>, ErrorView>(f)
            } else {
                image.read(s, t, id)
            }) by {
                if (s, t, id) == (p.0, p.1, p.2) {
                    assert(places[n - 1].0 == s);
                } else {
                    laws::law_write_leaves_others(before, after, p.0, p.1, p.2, f, s, t, id);
                    if listed(places, n - 1, s, t, id) {
                        let i = choose|i: int|
                            0 <= i < n - 1 && (#[trigger] places[i]).0 == s && places[i].1 == t && places[i].2 == id;
                        assert(places[i].0 == s);
                    }
                    if listed(places, n, s, t, id) {
                        let i = choose|i: int| 0 <= i < n && (#[trigger] places[i]).0 == s && places[i].1 == t && places[i].2 == id;
                        assert(i < n - 1);
                    }
                }
            }
        }
    }
}

/// Every sector of a track is collected.
proof fn lemma_sector_collected(side: int, track: int, t: TrackView, n: int, i: int)
    requires
        0 <= i < n,
    ensures
        formatting::sectors_to(side, track, t, n).contains(
            ((side % 256) as u8, (track % 256) as u8, t.sectors[i].id.sector, t.sectors[i].data.len() as int),
        ),
    decreases n,
{
    let all = formatting::sectors_to(side, track, t, n);
    let rest = formatting::sectors_to(side, track, t, n - 1);
    let p = ((side % 256) as u8, (track % 256) as u8, t.sectors[i].id.sector, t.sectors[i].data.len() as int);
    if i < n - 1 {
        lemma_sector_collected(side, track, t, n - 1, i);
        let k = choose|k: int| 0 <= k < rest.len() && rest[k] == p;
        assert(all[k] == p);
    } else {
        assert(all[rest.len() as int] == p);
    }
}

/// Every sector of a side is collected.
proof fn lemma_track_collected(side: int, d: DiskView, n: int, track: int, i: int)
    requires
        0 <= track < n <= d.tracks.len(),
        0 <= i < d.tracks[track].sectors.len(),
    ensures
        formatting::tracks_to(side, d, n).contains(
            (
                (side % 256) as u8,
                (track % 256) as u8,
                d.tracks[track].sectors[i].id.sector,
                d.tracks[track].sectors[i].data.len() as int,
            ),
        ),
    decreases n,
{
    let all = formatting::tracks_to(side, d, n);
    let rest = formatting::tracks_to(side, d, n - 1);
    let last = formatting::sectors_to(side, n - 1, d.tracks[n - 1], d.tracks[n - 1].sectors.len() as int);
    let s = d.tracks[track].sectors[i];
    let p = ((side % 256) as u8, (track % 256) as u8, s.id.sector, s.data.len() as int);
    if track < n - 1 {
        lemma_track_collected(side, d, n - 1, track, i);
        let k = choose|k: int| 0 <= k < rest.len() && rest[k] == p;
        assert(all[k] == p);
    } else {
        lemma_sector_collected(side, track, d.tracks[track], d.tracks[track].sectors.len() as int, i);
        let k = choose|k: int| 0 <= k < last.len() && last[k] == p;
        assert(all[rest.len() + k] == p);
    }
}

/// Every sector of an image is collected.
proof fn lemma_side_collected(image: ImageView, n: int, side: int, track: int, i: int)
    requires
        0 <= side < n <= image.disks.len(),
        0 <= track < image.disks[side].tracks.len(),
        0 <= i < image.disks[side].tracks[track].sectors.len(),
    ensures
        formatting::sides_to(image, n).contains(
            (
                (side % 256) as u8,
                (track % 256) as u8,
                image.disks[side].tracks[track].sectors[i].id.sector,
                image.disks[side].tracks[track].sectors[i].data.len() as int,
            ),
        ),
    decreases n,
{
    let all = formatting::sides_to(image, n);
    let rest = formatting::sides_to(image, n - 1);
    let d = image.disks[n - 1];
    let last = formatting::tracks_to(n - 1, d, d.tracks.len() as int);
    let s = image.disks[side].tracks[track].sectors[i];
    let p = ((side % 256) as u8, (track % 256) as u8, s.id.sector, s.data.len() as int);
    if side < n - 1 {
        lemma_side_collected(image, n - 1, side, track, i);
        let k = choose|k: int| 0 <= k < rest.len() && rest[k] == p;
        assert(all[k] == p);
    } else {
        lemma_track_collected(side, d, d.tracks.len() as int, track, i);
        let k = choose|k: int| 0 <= k < last.len() && last[k] == p;
        assert(all[rest.len() + k] == p);
    }
}

/// Filling an image erases all data: every sector that can be read is full of the filler.
pub proof fn law_fill_erases(image: ImageView, size: int, b: u8, after: ImageView)
    requires
        formatting::filled(image, size, b) == Ok::<ImageView, ErrorView>(after),
    ensures
        laws::same_layout(image, after),
        forall|s: u8, t: u8, id: u8| #[trigger] after.read(s, t, id) is Ok ==> after.read(s, t, id) == Ok::<Seq<u8>, ErrorView>(
            formatting::filler(size, b),
        ),
{
    let places = formatting::all_sectors(image);
    lemma_filled_to(image, places, size, b, places.len() as int);
    assert forall|s: u8, t: u8, id: u8| #[trigger] after.read(s, t, id) is Ok implies after.read(s, t, id) == Ok::<
        Seq<u8>,
        ErrorView,
    >(formatting::filler(size, b)) by {
        laws::lemma_same_layout_reads(image, after, s, t, id);
        let tr = image.disks[s as int].tracks[t as int];
        track::lemma_find(tr, id, 0);
        let i = tr.find(id).unwrap();
        lemma_side_collected(image, image.disks.len() as int, s as int, t as int, i);
        let p = (s, t, id, tr.sectors[i].data.len() as int);
        let k = choose|k: int| 0 <= k < places.len() && places[k] == p;
        assert(places[k].0 == s);
        assert(listed(places, places.len() as int, s, t, id));
    }
}

/// Whether all sectors of an image have the same size.
pub open spec fn uniform(image: ImageView, size: int) -> bool {
    forall|s: int, t: int, i: int|
        0 <= s < image.disks.len() && 0 <= t < image.disks[s].tracks.len() && 0 <= i < image.disks[s].tracks[t].sectors.len()
            ==> #[trigger] image.disks[s].tracks[t].sectors[i].data.len() == size
}

/// A write of that size keeps it so.
pub proof fn lemma_write_uniform(image: ImageView, after: ImageView, side: u8, track: u8, id: u8, data: Seq<u8>)
    requires
        uniform(image, data.len() as int),
        image.write(side, track, id, data) == Ok::<ImageView, ErrorView>(after),
    ensures
        uniform(after, data.len() as int),
{
    track::lemma_find(image.disks[side as int].tracks[track as int], id, 0);
}

proof fn lemma_filled_uniform(image: ImageView, places: Seq<Place>, size: int, b: u8, n: int)
    requires
        0 <= n <= places.len(),
        size >= 0,
        uniform(image, size),
    ensures
        formatting::filled_to(image, places, size, b, n) matches Ok(after) ==> uniform(after, size),
    decreases n,
{
    if n > 0 {
        lemma_filled_uniform(image, places, size, b, n - 1);
        if let Ok(after) = formatting::filled_to(image, places, size, b, n) {
            let before = formatting::filled_to(image, places, size, b, n - 1)->Ok_0;
            let p = places[n - 1];
            lemma_write_uniform(before, after, p.0, p.1, p.2, formatting::filler(size, b));
        }
    }
}

/// Only an image whose sectors all have the given size can be filled, and they keep it.
proof fn lemma_fill_uniform(image: ImageView, size: int, b: u8, after: ImageView)
    requires
        size >= 0,
        formatting::filled(image, size, b) == Ok::<ImageView, ErrorView>(after),
    ensures
        uniform(image, size),
        uniform(after, size),
{
    let places = formatting::all_sectors(image);
    lemma_filled_to(image, places, size, b, places.len() as int);
    assert forall|s: int, t: int, i: int|
        0 <= s < image.disks.len() && 0 <= t < image.disks[s].tracks.len() && 0 <= i < image.disks[s].tracks[t].sectors.len()
            implies #[trigger] image.disks[s].tracks[t].sectors[i].data.len() == size by {
        lemma_side_collected(image, image.disks.len() as int, s, t, i);
        let x = image.disks[s].tracks[t].sectors[i];
        let p = ((s % 256) as u8, (t % 256) as u8, x.id.sector, x.data.len() as int);
        let k = choose|k: int| 0 <= k < places.len() && places[k] == p;
        assert(places[k].3 == size);
    }
    lemma_filled_uniform(image, places, size, b, places.len() as int);
}

/// Images with the same layout whose sectors all have one size have the same sizes.
proof fn lemma_uniform_sizes(a: ImageView, b: ImageView, size: int)
    requires
        laws::same_layout(a, b),
        uniform(a, size),
        uniform(b, size),
    ensures
        laws::same_sizes(a, b),
{
    assert forall|s: int, t: int, i: int|
        0 <= s < a.disks.len() && 0 <= t < a.disks[s].tracks.len() && 0 <= i < a.disks[s].tracks[t].sectors.len()
            implies #[trigger] a.disks[s].tracks[t].sectors[i].data.len() == b.disks[s].tracks[t].sectors[i].data.len() by {
        assert(laws::same_disk_layout(a.disks[s], b.disks[s]));
        assert(laws::same_track_layout(a.disks[s].tracks[t], b.disks[s].tracks[t]));
        assert(b.disks[s].tracks[t].sectors[i].data.len() == size);
    }
}

/// A freshly formatted MGT disk holds no files.
pub proof fn law_mgt_format_empty(image: ImageView, after: ImageView)
    requires
        formatting::mgt_formatted(image) == Ok::<ImageView, ErrorView>(after),
    ensures
        mgt::entries_to(after, 80).len() == 0,
        image.read(0, 0, 1) is Ok ==> mgt::entries(after) == Ok::<Seq<MgtEntryView>, ErrorView>(Seq::empty()),
        forall|s: u8, t: u8, id: u8| #[trigger] after.read(s, t, id) is Ok ==> after.read(s, t, id) == Ok::<Seq<u8>, ErrorView>(
            formatting::filler(512, 0),
        ),
{
    law_fill_erases(image, 512, 0, after);
    lemma_mgt_empty(after, 80);
    laws::lemma_same_layout_reads(image, after, 0, 0, 1);
    assert(mgt::entries_to(after, 80) =~= Seq::<MgtEntryView>::empty());
}

proof fn lemma_mgt_empty(image: ImageView, n: int)
    requires
        0 <= n <= 80,
        forall|s: u8, t: u8, id: u8| #[trigger] image.read(s, t, id) is Ok ==> image.read(s, t, id) == Ok::<Seq<u8>, ErrorView>(
            formatting::filler(512, 0),
        ),
    ensures
        mgt::entries_to(image, n).len() == 0,
    decreases n,
{
    if n > 0 {
        lemma_mgt_empty(image, n - 1);
        let (track, id, offset) = mgt::location(n - 1);
        if let Ok(s) = image.read(0, track, id) {
            assert(s == formatting::filler(512, 0));
        }
    }
}

/// A freshly formatted TR-DOS disk holds no files, and all its space behind track 0 is free.
pub proof fn law_trdos_format_empty(image: ImageView, after: ImageView)
    requires
        formatting::trdos_formatted(image) == Ok::<ImageView, ErrorView>(after),
        forall|id: u8| 1 <= id <= 8 ==> #[trigger] image.read(0, 0, id) is Ok,
    ensures
        trdos::is_trdos(after),
        trdos::entries(after).len() == 0,
        trdos::catalog(after) == Some(
            TrdosCatalog {
                first_free_sector: 0,
                first_free_track: 1,
                disk_type: formatting::trdos_type(image.spec),
                file_count: 0,
                free_sectors: formatting::trdos_free(image.spec) as u16,
            },
        ),
        forall|s: u8, t: u8, id: u8|
            #[trigger] after.read(s, t, id) is Ok && (s, t, id) != (0u8, 0u8, 9u8) ==> after.read(s, t, id) == Ok::<Seq<u8>, ErrorView>(
                formatting::filler(256, 0),
            ),
{
    let mid = formatting::filled(image, 256, 0)->Ok_0;
    let catalog = formatting::empty_catalog(image.spec);
    law_fill_erases(image, 256, 0, mid);
    laws::law_read_after_write(mid, after, 0, 0, 9, catalog);
    laws::law_write_keeps_layout(mid, after, 0, 0, 9, catalog);
    assert forall|s: u8, t: u8, id: u8| #[trigger] after.read(s, t, id) is Ok && (s, t, id) != (0u8, 0u8, 9u8) implies after.read(
        s,
        t,
        id,
    ) == Ok::<Seq<u8>, ErrorView>(formatting::filler(256, 0)) by {
        laws::law_write_leaves_others(mid, after, 0, 0, 9, catalog, s, t, id);
    }
    assert forall|id: u8| 1 <= id <= 9 implies (#[trigger] after.read(0, 0, id) matches Ok(s) && s.len() >= 256) by {
        if id <= 8 {
            assert(image.read(0, 0, id) is Ok);
            laws::lemma_same_layout_reads(image, mid, 0, 0, id);
            laws::law_write_leaves_others(mid, after, 0, 0, 9, catalog, 0, 0, id);
        }
    }
    lemma_trdos_empty(after, 128);
    let tracks = image.spec.num_tracks as int;
    let sides = image.spec.num_sides as int;
    assert(1 <= tracks * sides <= 160) by (nonlinear_arith)
        requires
            1 <= tracks <= 80,
            1 <= sides <= 2,
    ;
    assert(catalog[225] == 0 && catalog[226] == 1 && catalog[227] == formatting::trdos_type(image.spec) && catalog[228] == 0
        && catalog[231] == 0x10);
    assert(catalog[229] == formatting::trdos_free(image.spec) % 256 && catalog[230] == formatting::trdos_free(image.spec) / 256);
}

proof fn lemma_trdos_empty(image: ImageView, n: int)
    requires
        0 <= n <= 128,
        trdos::is_trdos(image),
        forall|s: u8, t: u8, id: u8|
            #[trigger] image.read(s, t, id) is Ok && (s, t, id) != (0u8, 0u8, 9u8) ==> image.read(s, t, id) == Ok::<Seq<u8>, ErrorView>(
                formatting::filler(256, 0),
            ),
    ensures
        trdos::entries_to(image, n).len() == 0,
    decreases n,
{
    if n > 0 {
        lemma_trdos_empty(image, n - 1);
        let id = ((n - 1) / 16 + 1) as u8;
        assert(1 <= id <= 8);
        assert(image.read(0, 0, id) is Ok);
        assert(trdos::system_sector(image, id) == formatting::filler(256, 0));
        assert(trdos::slot_at(image, n - 1)[0] == 0);
    }
}

/// What is read after the directory sectors have been marked as free.
proof fn lemma_erased(image: ImageView, spec: DiskSpecification, n: int)
    requires
        0 <= n,
        forall|x: int| spec.first_sector() <= x < spec.first_sector() + n ==> #[trigger] cpm_sectors::plain(image, spec, x),
        spec.first_sector() + n <= spec.last_sector(),
    ensures
        formatting::erased_to(image, spec, spec.first_sector(), n) matches Ok(after) ==> {
            &&& laws::same_layout(image, after)
            &&& laws::same_sizes(image, after)
            &&& forall|x: int| #[trigger] cpm_sectors::plain(after, spec, x) == cpm_sectors::plain(image, spec, x)
            &&& forall|x: int| spec.first_sector() <= x < spec.first_sector() + n ==> #[trigger] cpm_model::sector_at(after, spec, x)
                == Some(formatting::filler(spec.sector_size as int, 0xE5))
        },
    decreases n,
{
    if n <= 0 {
        laws::lemma_same_layout_reflexive(image);
    } else {
        lemma_erased(image, spec, n - 1);
        if let Ok(after) = formatting::erased_to(image, spec, spec.first_sector(), n) {
            let before = formatting::erased_to(image, spec, spec.first_sector(), n - 1)->Ok_0;
            let x = spec.first_sector() + n - 1;
            let a = cpm_edit::address(before, spec, x)->Ok_0;
            assert(cpm_sectors::plain(image, spec, x));
            cpm_sectors::lemma_disk_reached(spec);
            assert(cpm_sectors::on_disk(spec, x));
            cpm_blocks::lemma_put_one(before, spec, a, x, formatting::filler(spec.sector_size as int, 0xE5));
            laws::lemma_same_layout_chain(image, before, after);
            laws::lemma_same_sizes_chain(image, before, after);
        }
    }
}

/// A directory full of free marks lists nothing.
proof fn lemma_free_directory(dir: Seq<u8>, spec: DiskSpecification, n: int)
    requires
        0 <= n <= dir.len() / 32,
        forall|i: int| 0 <= i < dir.len() ==> #[trigger] dir[i] == 0xE5,
    ensures
        cpm_model::entries_to(dir, spec, false, n).len() == 0,
    decreases n,
{
    if n > 0 {
        lemma_free_directory(dir, spec, n - 1);
        assert(dir.subrange(32 * (n - 1), 32 * n)[0] == dir[32 * (n - 1)]);
    }
}

/// What a freshly formatted CP/M disk holds, before it gets a boot record.
proof fn lemma_cpm_emptied(image: ImageView, after: ImageView)
    requires
        formatting::cpm_emptied(image) == Ok::<ImageView, ErrorView>(after),
        cpm_blocks::plain_directory(image, formatting::cpm_layout(image)),
        cpm_blocks::directory_on_disk(formatting::cpm_layout(image)),
    ensures
        ({
            let spec = formatting::cpm_layout(image);
            &&& laws::same_layout(image, after)
            &&& laws::same_sizes(image, after)
            &&& cpm_blocks::whole_directory(spec)
            &&& forall|x: int|
                spec.first_sector() <= x < spec.first_sector() + cpm_edit::directory_sectors(spec) ==> #[trigger] cpm_model::sector_at(
                    after,
                    spec,
                    x,
                ) == Some(formatting::filler(spec.sector_size as int, 0xE5))
        }),
{
    let spec = formatting::cpm_layout(image);
    let ss = spec.sector_size as int;
    let b = image.spec.filler_byte;
    let mid = formatting::filled(image, ss, b)->Ok_0;
    law_fill_erases(image, ss, b, mid);
    lemma_fill_uniform(image, ss, b, mid);
    lemma_uniform_sizes(image, mid, ss);
    assert forall|x: int|
        spec.first_sector() <= x < spec.first_sector() + cpm_edit::directory_sectors(spec) implies #[trigger] cpm_sectors::plain(
        mid,
        spec,
        x,
    ) by {
        cpm_sectors::lemma_plain_kept(image, mid, spec, x);
        assert(cpm_sectors::plain(image, spec, x));
    }
    let size = spec.directory_blocks * spec.block_bytes();
    let q = spec.block_bytes() / 32;
    assert(size == 32 * (spec.directory_blocks * q)) by (nonlinear_arith)
        requires
            size == spec.directory_blocks * spec.block_bytes(),
            spec.block_bytes() == 32 * q,
    ;
    assert(spec.entries() * 32 == size);
    cpm_blocks::lemma_directory_sectors(spec);
    lemma_erased(mid, spec, cpm_edit::directory_sectors(spec));
    laws::lemma_same_layout_chain(image, mid, after);
    laws::lemma_same_sizes_chain(image, mid, after);
}

/// Sectors behind the reserved tracks do not depend on the first track.
proof fn lemma_boot_apart(a: ImageView, b: ImageView, spec: DiskSpecification, x: int)
    requires
        cpm_sectors::on_disk(spec, x),
        spec.reserved_tracks > 0,
        forall|s: int, t: int| (s != 0 || t != 0) ==> #[trigger] a.track(s, t) == b.track(s, t),
    ensures
        cpm_model::sector_at(a, spec, x) == cpm_model::sector_at(b, spec, x),
{
    cpm_sectors::lemma_logical_track(spec, x);
    let lt = x / (spec.sectors_per_track as int);
    cpm_sectors::lemma_place(spec, lt);
    cpm_sectors::lemma_first_place(spec);
    cpm_sectors::lemma_place_differs(spec, lt, 0);
    let (side, track) = cpm_model::place(spec, lt).unwrap();
    assert(a.track(side, track) == b.track(side, track));
}

/// Whether a disk can be formatted so that its directory is read as empty: the sectors of the
/// directory are found by their ID numbers, the directory does not reach beyond the disk, and a
/// boot record has a track of its own.
pub open spec fn formattable(image: ImageView) -> bool {
    let spec = formatting::cpm_layout(image);
    &&& cpm_blocks::plain_directory(image, spec)
    &&& cpm_blocks::directory_on_disk(spec)
    &&& image.spec.first_sector_id == 1 ==> spec.reserved_tracks > 0
}

/// A freshly formatted CP/M disk holds no files, in the layout that it was given.
pub proof fn law_cpm_format_empty(image: ImageView, after: ImageView)
    requires
        formatting::cpm_formatted(image) == Ok::<ImageView, ErrorView>(after),
        formattable(image),
    ensures
        cpm_model::directory(after, formatting::cpm_layout(image), false).len() == 0,
{
    let spec = formatting::cpm_layout(image);
    lemma_cpm_directory(image, after);
    let dir = cpm_model::directory_bytes(after, spec);
    lemma_free_directory(dir, spec, dir.len() as int / 32);
}

/// The directory of a freshly formatted CP/M disk.
pub proof fn lemma_cpm_directory(image: ImageView, after: ImageView)
    requires
        formatting::cpm_formatted(image) == Ok::<ImageView, ErrorView>(after),
        formattable(image),
    ensures
        ({
            let spec = formatting::cpm_layout(image);
            let dir = cpm_model::directory_bytes(after, spec);
            forall|i: int| 0 <= i < dir.len() ==> #[trigger] dir[i] == 0xE5
        }),
        laws::same_layout(image, after),
{
    let spec = formatting::cpm_layout(image);
    let ss = spec.sector_size as int;
    let mid = formatting::cpm_emptied(image)->Ok_0;
    lemma_cpm_emptied(image, mid);
    cpm_blocks::lemma_directory_sectors(spec);
    let n = cpm_edit::directory_sectors(spec);
    let dir = formatting::filler(spec.entries() * 32, 0xE5);
    specification::lemma_entries_bound(spec);
    let first = spec.first_sector();
    if image.spec.first_sector_id == 1 {
        let boot = formatting::boot_bytes(spec, image.spec.side_mode, image.spec.filler_byte);
        laws::law_write_keeps_layout(mid, after, 0, 0, 1, boot);
        laws::lemma_same_layout_chain(image, mid, after);
        assert forall|s: int, t: int| (s != 0 || t != 0) implies #[trigger] after.track(s, t) == mid.track(s, t) by {}
    }
    assert forall|x: int| first <= x < first + n implies #[trigger] cpm_model::sector_at(after, spec, x) == Some(
        cpm_blocks::piece(dir, ss, x - first),
    ) by {
        assert(cpm_model::sector_at(mid, spec, x) == Some(formatting::filler(ss, 0xE5)));
        if image.spec.first_sector_id == 1 {
            lemma_boot_apart(after, mid, spec, x);
        }
        let i = x - first;
        assert(0 <= ss * i && ss * i + ss <= dir.len()) by (nonlinear_arith)
            requires
                0 <= i < n,
                dir.len() == n * ss,
                ss >= 0,
        ;
        assert(cpm_blocks::piece(dir, ss, i) =~= formatting::filler(ss, 0xE5));
    }
    cpm_blocks::lemma_directory_bytes(after, spec, dir);
}

/// The layout that a boot record tells.
pub open spec fn booted(image: ImageView) -> DiskSpecification {
    DiskSpecification {
        format: DiskSpecFormat::BootRecord,
        side: specification::layout_of(image.spec.side_mode),
        ..formatting::cpm_layout(image)
    }.fitted()
}

/// Whether a boot record can tell the layout of a disk: sector 1 is the first of the first
/// track, and its size is what its ID field says.
pub open spec fn bootable(image: ImageView) -> bool {
    let spec = formatting::cpm_layout(image);
    &&& image.spec.first_sector_id == 1
    &&& image.track(0, 0) matches Some(t) && t.sectors.len() > 0 && t.by_id()[0].id.sector == 1
    &&& spec.fdc_sector_size <= 7
    &&& crate::format::coded_size(spec.fdc_sector_size) == spec.sector_size
}

/// The sector with the lowest ID number is the first with that number.
proof fn lemma_lowest_found(t: TrackView)
    requires
        t.sectors.len() > 0,
    ensures
        t.find(t.by_id()[0].id.sector) == Some(order::key_order(t.ids())[0]),
{
    let ids = t.ids();
    let o = order::key_order(ids);
    order::lemma_order_permutes(order::by_key(ids), ids.len() as int);
    order::lemma_key_order_stable(ids, ids.len() as int);
    track::lemma_by_id_found(t, 0);
    track::lemma_find(t, t.by_id()[0].id.sector, 0);
    let j = t.find(t.by_id()[0].id.sector).unwrap();
    assert(o.contains(j));
    let i = choose|i: int| 0 <= i < o.len() && o[i] == j;
    assert(ids[o[i]] == ids[o[0]]);
    if o[0] < j {
        assert(t.sectors[o[0]].id.sector != t.by_id()[0].id.sector);
    }
}

/// The boot record of a formatted disk keeps its layout when the image is opened again.
pub proof fn law_boot_record_keeps_layout(image: ImageView, after: ImageView)
    requires
        formatting::cpm_formatted(image) == Ok::<ImageView, ErrorView>(after),
        bootable(image),
    ensures
        specification::identified(after) == booted(image),
{
    let spec = formatting::cpm_layout(image);
    let boot = formatting::boot_bytes(spec, image.spec.side_mode, image.spec.filler_byte);
    let mid = formatting::cpm_emptied(image)->Ok_0;
    lemma_emptied_layout(image, mid);
    laws::law_write_keeps_layout(mid, after, 0, 0, 1, boot);
    laws::law_read_after_write(mid, after, 0, 0, 1, boot);
    laws::lemma_same_layout_chain(image, mid, after);
    let t = image.track(0, 0).unwrap();
    assert(laws::same_disk_layout(image.disks[0], after.disks[0]));
    let u = after.disks[0].tracks[0];
    assert(laws::same_track_layout(t, u));
    cpm_sectors::lemma_same_order(t, u);
    order::lemma_order_permutes(order::by_key(t.ids()), t.ids().len() as int);
    let o = order::key_order(t.ids())[0];
    assert(laws::same_sector_layout(t.sectors[o], u.sectors[o]));
    lemma_lowest_found(u);
    assert(u.by_id()[0].id.sector == 1);
    assert(u.by_id()[0].data == boot);
    assert(boot.len() >= 128);
    assert(specification::identified(image) != specification::unknown_specification());
    assert(specification::boot_record(boot));
}

/// Formatting keeps the layout of a disk whose sector numbers tell it.
pub proof fn law_numbers_keep_layout(image: ImageView, after: ImageView)
    requires
        formatting::cpm_formatted(image) == Ok::<ImageView, ErrorView>(after),
        image.track(0, 0) matches Some(t) && t.sectors.len() > 0 && t.by_id()[0].id.sector >= 0x41,
    ensures
        specification::identified(after) == specification::identified(image),
{
    let spec = formatting::cpm_layout(image);
    let ss = spec.sector_size as int;
    let mid = formatting::cpm_emptied(image)->Ok_0;
    lemma_emptied_layout(image, mid);
    if image.spec.first_sector_id == 1 {
        let boot = formatting::boot_bytes(spec, image.spec.side_mode, image.spec.filler_byte);
        laws::law_write_keeps_layout(mid, after, 0, 0, 1, boot);
        laws::lemma_same_layout_chain(image, mid, after);
        lemma_write_uniform(mid, after, 0, 0, 1, boot);
    }
    let t = image.track(0, 0).unwrap();
    assert(laws::same_disk_layout(image.disks[0], after.disks[0]));
    let u = after.disks[0].tracks[0];
    assert(laws::same_track_layout(t, u));
    cpm_sectors::lemma_same_order(t, u);
    order::lemma_order_permutes(order::by_key(t.ids()), t.ids().len() as int);
    let o = order::key_order(t.ids())[0];
    assert(laws::same_sector_layout(t.sectors[o], u.sectors[o]));
    assert(image.disks[0].tracks[0].sectors[o].data.len() == ss);
    assert(after.disks[0].tracks[0].sectors[o].data.len() == ss);
    assert(u.by_id()[0] == u.sectors[o]);
    assert(t.by_id()[0] == t.sectors[o]);
}

/// Whether two layouts put the same sectors and the same directory on a disk.
pub open spec fn alike(a: DiskSpecification, b: DiskSpecification) -> bool {
    &&& a.side == b.side
    &&& a.tracks_per_side == b.tracks_per_side
    &&& a.sectors_per_track == b.sectors_per_track
    &&& a.sector_size == b.sector_size
    &&& a.reserved_tracks == b.reserved_tracks
    &&& a.block_shift == b.block_shift
    &&& a.directory_blocks == b.directory_blocks
}

pub proof fn lemma_span_alike(image: ImageView, a: DiskSpecification, b: DiskSpecification, from: int, to: int)
    requires
        alike(a, b),
    ensures
        cpm_model::span(image, a, from, to) == cpm_model::span(image, b, from, to),
    decreases to - from,
{
    if from < to {
        lemma_span_alike(image, a, b, from, to - 1);
        assert(cpm_model::sector_at(image, a, to - 1) == cpm_model::sector_at(image, b, to - 1));
    }
}

/// A freshly formatted CP/M disk holds no files when its image is opened again and its layout
/// read from the boot record, where that tells the order of sides the disk was formatted with.
pub proof fn law_cpm_format_reopened(image: ImageView, after: ImageView)
    requires
        formatting::cpm_formatted(image) == Ok::<ImageView, ErrorView>(after),
        formattable(image),
        bootable(image),
        specification::layout_of(image.spec.side_mode) == formatting::cpm_layout(image).side,
    ensures
        cpm_model::directory(after, specification::identified(after), false).len() == 0,
{
    let spec = formatting::cpm_layout(image);
    let told = booted(image);
    law_boot_record_keeps_layout(image, after);
    lemma_cpm_directory(image, after);
    lemma_span_alike(after, spec, told, spec.first_sector(), spec.last_sector());
    assert(cpm_model::directory_bytes(after, told) == cpm_model::directory_bytes(after, spec));
    let dir = cpm_model::directory_bytes(after, told);
    lemma_free_directory(dir, told, dir.len() as int / 32);
}

/// Whether a sector holds what a freshly formatted CP/M disk holds there: the filler byte, free
/// directory entries, or the boot record.
pub open spec fn fresh(image: ImageView, s: u8, t: u8, id: u8, data: Seq<u8>) -> bool {
    let spec = formatting::cpm_layout(image);
    let ss = spec.sector_size as int;
    ||| data == formatting::filler(ss, image.spec.filler_byte)
    ||| data == formatting::filler(ss, 0xE5)
    ||| {
        &&& image.spec.first_sector_id == 1
        &&& (s, t, id) == (0u8, 0u8, 1u8)
        &&& data == formatting::boot_bytes(spec, image.spec.side_mode, image.spec.filler_byte)
    }
}

/// Setting up a CP/M filesystem erases all data: every sector that can be read is full of the
/// filler byte, full of free directory entries, or the boot record.
pub proof fn law_cpm_format_erases(image: ImageView, after: ImageView)
    requires
        formatting::cpm_formatted(image) == Ok::<ImageView, ErrorView>(after),
    ensures
        laws::same_layout(image, after),
        forall|s: u8, t: u8, id: u8| #[trigger] after.read(s, t, id) matches Ok(data) ==> fresh(image, s, t, id, data),
{
    let spec = formatting::cpm_layout(image);
    let ss = spec.sector_size as int;
    let b = image.spec.filler_byte;
    let boot = formatting::boot_bytes(spec, image.spec.side_mode, b);
    let mid = formatting::filled(image, ss, b)->Ok_0;
    let emptied = formatting::cpm_emptied(image)->Ok_0;
    law_fill_erases(image, ss, b, mid);
    lemma_emptied_layout(image, emptied);
    lemma_erased_reads(mid, spec, spec.first_sector(), spec.directory_blocks * spec.block_bytes() / ss);
    if image.spec.first_sector_id == 1 {
        laws::law_write_keeps_layout(emptied, after, 0, 0, 1, boot);
        laws::law_read_after_write(emptied, after, 0, 0, 1, boot);
        laws::lemma_same_layout_chain(image, emptied, after);
    }
    assert forall|s: u8, t: u8, id: u8| #[trigger] after.read(s, t, id) is Ok implies fresh(
        image,
        s,
        t,
        id,
        after.read(s, t, id)->Ok_0,
    ) by {
        if image.spec.first_sector_id == 1 && (s, t, id) != (0u8, 0u8, 1u8) {
            laws::law_write_leaves_others(emptied, after, 0, 0, 1, boot, s, t, id);
        }
        let kept = emptied.read(s, t, id);
        assert(kept == mid.read(s, t, id) || kept == Ok::<Seq<u8>, ErrorView>(formatting::filler(ss, 0xE5)));
    }
}

/// Marking directory sectors as free leaves every other sector as it was.
proof fn lemma_erased_reads(image: ImageView, spec: DiskSpecification, first: int, n: int)
    ensures
        formatting::erased_to(image, spec, first, n) matches Ok(after) ==> forall|s: u8, t: u8, id: u8|
            (#[trigger] after.read(s, t, id)) == image.read(s, t, id) || after.read(s, t, id) == Ok::<Seq<u8>, ErrorView>(
                formatting::filler(spec.sector_size as int, 0xE5),
            ),
    decreases n,
{
    if n > 0 {
        lemma_erased_reads(image, spec, first, n - 1);
        if let Ok(after) = formatting::erased_to(image, spec, first, n) {
            let before = formatting::erased_to(image, spec, first, n - 1)->Ok_0;
            let a = cpm_edit::address(before, spec, first + n - 1)->Ok_0;
            let f = formatting::filler(spec.sector_size as int, 0xE5);
            laws::law_read_after_write(before, after, a.0, a.1, a.2, f);
            assert forall|s: u8, t: u8, id: u8| (#[trigger] after.read(s, t, id)) == image.read(s, t, id) || after.read(s, t, id)
                == Ok::<Seq<u8>, ErrorView>(f) by {
                if (s, t, id) != (a.0, a.1, a.2) {
                    laws::law_write_leaves_others(before, after, a.0, a.1, a.2, f, s, t, id);
                }
            }
        }
    }
}

/// Formatting keeps the layout of the image, whose sectors all have one size.
pub proof fn lemma_emptied_layout(image: ImageView, after: ImageView)
    requires
        formatting::cpm_emptied(image) == Ok::<ImageView, ErrorView>(after),
    ensures
        laws::same_layout(image, after),
        uniform(image, formatting::cpm_layout(image).sector_size as int),
        uniform(after, formatting::cpm_layout(image).sector_size as int),
{
    let spec = formatting::cpm_layout(image);
    let ss = spec.sector_size as int;
    let mid = formatting::filled(image, ss, image.spec.filler_byte)->Ok_0;
    law_fill_erases(image, ss, image.spec.filler_byte, mid);
    lemma_fill_uniform(image, ss, image.spec.filler_byte, mid);
    lemma_erased_layout(mid, spec, spec.first_sector(), spec.directory_blocks * spec.block_bytes() / ss);
    laws::lemma_same_layout_chain(image, mid, after);
}

proof fn lemma_erased_layout(image: ImageView, spec: DiskSpecification, first: int, n: int)
    requires
        uniform(image, spec.sector_size as int),
    ensures
        formatting::erased_to(image, spec, first, n) matches Ok(after) ==> laws::same_layout(image, after) && uniform(
            after,
            spec.sector_size as int,
        ),
    decreases n,
{
    if n <= 0 {
        laws::lemma_same_layout_reflexive(image);
    } else {
        lemma_erased_layout(image, spec, first, n - 1);
        if let Ok(after) = formatting::erased_to(image, spec, first, n) {
            let before = formatting::erased_to(image, spec, first, n - 1)->Ok_0;
            let a = cpm_edit::address(before, spec, first + n - 1)->Ok_0;
            let f = formatting::filler(spec.sector_size as int, 0xE5);
            laws::law_write_keeps_layout(before, after, a.0, a.1, a.2, f);
            lemma_write_uniform(before, after, a.0, a.1, a.2, f);
            laws::lemma_same_layout_chain(image, before, after);
        }
    }
}

}
