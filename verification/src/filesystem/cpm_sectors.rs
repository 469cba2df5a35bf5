//! Logical sectors of a CP/M disk: where they lie, and what a write does to them.

use crate::error::ErrorView;
use crate::filesystem::cpm_edit;
use crate::filesystem::cpm_edit::Address;
use crate::filesystem::cpm_model;
use crate::image::laws;
use crate::image::track;
use crate::image::track::TrackView;
use crate::image::ImageView;
use crate::order;
use crate::specification;
use crate::specification::{DiskSpecSide, DiskSpecification};
use vstd::prelude::*;

verus! {

/// Whether a logical sector is the first on its track with its ID number, so that what is
/// written under that number is read there.
pub open spec fn plain(image: ImageView, spec: DiskSpecification, absolute: int) -> bool {
    let k = absolute % (spec.sectors_per_track as int);
    cpm_model::place(spec, absolute / (spec.sectors_per_track as int)) matches Some((side, track)) ==> (image.track(side, track) matches Some(t)
        ==> (0 <= k < t.sectors.len() ==> t.find(t.by_id()[k].id.sector) == Some(order::key_order(t.ids())[k])))
}

/// Whether a logical sector lies on the disk, behind the reserved tracks.
pub open spec fn on_disk(spec: DiskSpecification, absolute: int) -> bool {
    spec.first_sector() <= absolute < spec.last_sector()
}

/// Whether a logical sector lies behind the reserved tracks, at a side and a track that one byte
/// each can name, the same for reading and writing. It need not lie on the disk: an image may
/// have more tracks than its layout counts.
pub open spec fn reached(spec: DiskSpecification, absolute: int) -> bool {
    let lt = absolute / (spec.sectors_per_track as int);
    &&& spec.sectors_per_track > 0
    &&& spec.tracks_per_side > 0
    &&& spec.first_sector() <= absolute
    &&& cpm_model::place(spec, lt) matches Some((side, track)) && 0 <= side < 256 && 0 <= track < 256
    &&& cpm_edit::write_place(spec, lt) == cpm_model::place(spec, lt)
}

/// Where a logical track of the disk lies; different tracks lie in different places.
pub proof fn lemma_place(spec: DiskSpecification, lt: int)
    requires
        0 <= lt < spec.tracks(),
    ensures
        spec.tracks_per_side > 0,
        cpm_edit::write_place(spec, lt) == cpm_model::place(spec, lt),
        cpm_model::place(spec, lt) matches Some((side, track)) && 0 <= side < 2 && 0 <= track < spec.tracks_per_side,
{
    let tps = spec.tracks_per_side as int;
    assert(tps > 0 && lt < 2 * tps) by (nonlinear_arith)
        requires
            0 <= lt < tps * spec.sides(),
            0 <= spec.sides() <= 2,
            tps >= 0,
    ;
    if spec.side != DiskSpecSide::Single && spec.side != DiskSpecSide::DoubleAlternate {
        vstd::arithmetic::div_mod::lemma_fundamental_div_mod(lt, tps);
        vstd::arithmetic::div_mod::lemma_multiply_divide_lt(lt, tps, 2);
        vstd::arithmetic::div_mod::lemma_div_pos_is_pos(lt, tps);
        assert(lt / tps == 1 <==> lt >= tps) by (nonlinear_arith)
            requires
                lt == tps * (lt / tps) + lt % tps,
                0 <= lt % tps < tps,
                0 <= lt / tps < 2,
        ;
        assert(lt < tps ==> lt % tps == lt) by (nonlinear_arith)
            requires
                lt == tps * (lt / tps) + lt % tps,
                0 <= lt % tps < tps,
                0 <= lt / tps < 2,
                0 <= lt,
        ;
    } else if spec.side == DiskSpecSide::Single {
        assert(lt < tps) by (nonlinear_arith)
            requires
                lt < tps * spec.sides(),
                spec.sides() == 1,
        ;
    }
}

/// The first logical track is the first track.
pub proof fn lemma_first_place(spec: DiskSpecification)
    requires
        0 < spec.tracks(),
    ensures
        cpm_model::place(spec, 0) == Some((0int, 0int)),
{
    lemma_place(spec, 0);
    let tps = spec.tracks_per_side as int;
    if spec.side != DiskSpecSide::Single && spec.side != DiskSpecSide::DoubleAlternate {
        vstd::arithmetic::div_mod::lemma_basic_div(0, tps);
        vstd::arithmetic::div_mod::lemma_small_mod(0, tps as nat);
    }
}

/// Different logical tracks lie in different places.
pub proof fn lemma_place_differs(spec: DiskSpecification, a: int, b: int)
    requires
        spec.tracks_per_side > 0,
        cpm_model::place(spec, a) is Some,
        0 <= a,
        0 <= b,
        a != b,
    ensures
        cpm_model::place(spec, a) != cpm_model::place(spec, b),
{
    let tps = spec.tracks_per_side as int;
    if spec.side != DiskSpecSide::Single && spec.side != DiskSpecSide::DoubleAlternate {
        vstd::arithmetic::div_mod::lemma_fundamental_div_mod(a, tps);
        vstd::arithmetic::div_mod::lemma_fundamental_div_mod(b, tps);
    }
}

/// The logical track of a sector on the disk.
pub proof fn lemma_logical_track(spec: DiskSpecification, absolute: int)
    requires
        on_disk(spec, absolute),
    ensures
        spec.sectors_per_track > 0,
        spec.reserved_tracks <= absolute / (spec.sectors_per_track as int) < spec.tracks(),
        0 <= absolute % (spec.sectors_per_track as int) < spec.sectors_per_track,
        absolute == spec.sectors_per_track * (absolute / (spec.sectors_per_track as int)) + absolute % (
        spec.sectors_per_track as int),
{
    let spt = spec.sectors_per_track as int;
    specification::lemma_sector_bounds(spec);
    assert(spt > 0) by (nonlinear_arith)
        requires
            0 < spec.tracks() * spt,
            spt >= 0,
    ;
    vstd::arithmetic::mul::lemma_mul_is_commutative(spec.tracks(), spt);
    vstd::arithmetic::div_mod::lemma_multiply_divide_lt(absolute, spt, spec.tracks());
    vstd::arithmetic::div_mod::lemma_fundamental_div_mod(absolute, spt);
    assert(spec.reserved_tracks <= absolute / spt) by (nonlinear_arith)
        requires
            spec.reserved_tracks * spt <= absolute,
            absolute == spt * (absolute / spt) + absolute % spt,
            0 <= absolute % spt < spt,
    ;
}

/// The logical track of a sector behind the reserved tracks.
pub proof fn lemma_reached_track(spec: DiskSpecification, absolute: int)
    requires
        reached(spec, absolute),
    ensures
        spec.reserved_tracks <= absolute / (spec.sectors_per_track as int),
        0 <= absolute % (spec.sectors_per_track as int) < spec.sectors_per_track,
        absolute == spec.sectors_per_track * (absolute / (spec.sectors_per_track as int)) + absolute % (
        spec.sectors_per_track as int),
        0 < spec.tracks(),
{
    let spt = spec.sectors_per_track as int;
    specification::lemma_sector_bounds(spec);
    vstd::arithmetic::div_mod::lemma_fundamental_div_mod(absolute, spt);
    assert(spec.reserved_tracks <= absolute / spt) by (nonlinear_arith)
        requires
            spec.reserved_tracks * spt <= absolute,
            absolute == spt * (absolute / spt) + absolute % spt,
            0 <= absolute % spt < spt,
    ;
    assert(0 < spec.tracks()) by (nonlinear_arith)
        requires
            spec.tracks() == spec.tracks_per_side * spec.sides(),
            spec.tracks_per_side > 0,
            spec.sides() >= 1,
    ;
}

/// Sectors on the disk are reached.
pub proof fn lemma_disk_reached(spec: DiskSpecification)
    ensures
        forall|x: int| on_disk(spec, x) ==> #[trigger] reached(spec, x),
{
    assert forall|x: int| on_disk(spec, x) implies #[trigger] reached(spec, x) by {
        lemma_logical_track(spec, x);
        lemma_place(spec, x / (spec.sectors_per_track as int));
    }
}

/// Tracks with the same ID numbers have the same order of sectors.
pub proof fn lemma_same_order(a: TrackView, b: TrackView)
    requires
        laws::same_track_layout(a, b),
    ensures
        a.ids() == b.ids(),
        a.by_id().len() == a.sectors.len(),
        b.by_id().len() == a.sectors.len(),
{
    assert forall|i: int| 0 <= i < a.sectors.len() implies a.ids()[i] == b.ids()[i] by {
        assert(laws::same_sector_layout(a.sectors[i], b.sectors[i]));
    }
    assert(a.ids() =~= b.ids());
    order::lemma_order_permutes(order::by_key(a.ids()), a.ids().len() as int);
}

/// What the address of a sector says, and what is read there.
pub proof fn lemma_address(image: ImageView, spec: DiskSpecification, absolute: int)
    requires
        reached(spec, absolute),
        plain(image, spec, absolute),
    ensures
        cpm_edit::address(image, spec, absolute) matches Ok(a) ==> {
            let lt = absolute / (spec.sectors_per_track as int);
            let k = absolute % (spec.sectors_per_track as int);
            &&& cpm_model::place(spec, lt) == Some((a.0 as int, a.1 as int))
            &&& image.track(a.0 as int, a.1 as int) matches Some(t) && 0 <= k < t.sectors.len() && t.by_id().len()
                == t.sectors.len() && a.2 == t.by_id()[k].id.sector && t.find(a.2) == Some(order::key_order(t.ids())[k])
            &&& cpm_model::sector_at(image, spec, absolute) == Some(cpm_edit::data_at(image, a))
            &&& image.read(a.0, a.1, a.2) is Ok
            &&& cpm_edit::data_at(image, a).len() == spec.sector_size
        },
{
    if let Ok(a) = cpm_edit::address(image, spec, absolute) {
        lemma_reached_track(spec, absolute);
        let lt = absolute / (spec.sectors_per_track as int);
        let (side, track) = cpm_model::place(spec, lt).unwrap();
        let t = image.track(side, track).unwrap();
        order::lemma_order_permutes(order::by_key(t.ids()), t.ids().len() as int);
    }
}

/// Whether a sector is found by its ID number is a matter of layout.
pub proof fn lemma_plain_kept(image: ImageView, after: ImageView, spec: DiskSpecification, absolute: int)
    requires
        laws::same_layout(image, after),
    ensures
        plain(after, spec, absolute) == plain(image, spec, absolute),
{
    let k = absolute % (spec.sectors_per_track as int);
    if let Some((side, track)) = cpm_model::place(spec, absolute / (spec.sectors_per_track as int)) {
        if 0 <= side < image.disks.len() {
            assert(laws::same_disk_layout(image.disks[side], after.disks[side]));
            if 0 <= track < image.disks[side].tracks.len() {
                let t = image.disks[side].tracks[track];
                let u = after.disks[side].tracks[track];
                assert(laws::same_track_layout(t, u));
                lemma_same_order(t, u);
                if 0 <= k < t.sectors.len() {
                    order::lemma_order_permutes(order::by_key(t.ids()), t.ids().len() as int);
                    let o = order::key_order(t.ids())[k];
                    assert(laws::same_sector_layout(t.sectors[o], u.sectors[o]));
                    assert forall|j: int| 0 <= j < t.sectors.len() implies (#[trigger] t.sectors[j]).id.sector == u.sectors[j].id.sector by {
                        assert(laws::same_sector_layout(t.sectors[j], u.sectors[j]));
                    }
                    track::lemma_find_same_ids(t, u, t.by_id()[k].id.sector, 0);
                }
            }
        }
    }
}

/// What a write to a sector does: the sector holds the new data, all others are as
/// they were, and none moves.
pub proof fn lemma_write(image: ImageView, after: ImageView, spec: DiskSpecification, absolute: int, data: Seq<u8>)
    requires
        reached(spec, absolute),
        plain(image, spec, absolute),
        cpm_edit::address(image, spec, absolute) matches Ok(a) && image.write(a.0, a.1, a.2, data) == Ok::<ImageView, ErrorView>(after),
        data.len() == spec.sector_size,
    ensures
        laws::same_layout(image, after),
        forall|x: int| #[trigger] plain(after, spec, x) == plain(image, spec, x),
        cpm_model::sector_at(after, spec, absolute) == Some(data),
        forall|x: int| reached(spec, x) && x != absolute ==> #[trigger] cpm_model::sector_at(after, spec, x) == cpm_model::sector_at(image, spec, x),
        forall|x: int| #[trigger] cpm_edit::address(after, spec, x) == cpm_edit::address(image, spec, x),
        laws::same_sizes(image, after),
        spec.reserved_tracks > 0 ==> after.track(0, 0) == image.track(0, 0),
{
    let spt = spec.sectors_per_track as int;
    let a = cpm_edit::address(image, spec, absolute)->Ok_0;
    lemma_address(image, spec, absolute);
    laws::law_write_keeps_layout(image, after, a.0, a.1, a.2, data);
    laws::law_read_after_write(image, after, a.0, a.1, a.2, data);
    laws::lemma_write_keeps_sizes(image, after, a.0, a.1, a.2, data);
    lemma_reached_track(spec, absolute);
    if spec.reserved_tracks > 0 {
        lemma_first_place(spec);
        lemma_place_differs(spec, absolute / spt, 0);
    }
    let t = image.disks[a.0 as int].tracks[a.1 as int];
    let u = after.disks[a.0 as int].tracks[a.1 as int];
    assert(laws::same_disk_layout(image.disks[a.0 as int], after.disks[a.0 as int]));
    assert(laws::same_track_layout(t, u));
    lemma_same_order(t, u);
    order::lemma_order_permutes(order::by_key(t.ids()), t.ids().len() as int);
    let k = absolute % spt;
    assert(u.by_id()[k].data == data);
    assert forall|x: int| reached(spec, x) && x != absolute implies #[trigger] cpm_model::sector_at(after, spec, x)
        == cpm_model::sector_at(image, spec, x) by {
        lemma_reached_track(spec, x);
        if x / spt == absolute / spt {
            assert(x % spt != k);
        } else {
            lemma_place_differs(spec, x / spt, absolute / spt);
        }
    }
    assert forall|x: int| #[trigger] cpm_edit::address(after, spec, x) == cpm_edit::address(image, spec, x) by {
        lemma_address_kept(image, after, spec, x, a, data);
    }
    assert forall|x: int| #[trigger] plain(after, spec, x) == plain(image, spec, x) by {
        lemma_plain_kept(image, after, spec, x);
    }
}

/// A write of a whole sector does not change where any sector lies.
pub proof fn lemma_address_kept(image: ImageView, after: ImageView, spec: DiskSpecification, x: int, a: Address, data: Seq<u8>)
    requires
        image.write(a.0, a.1, a.2, data) == Ok::<ImageView, ErrorView>(after),
        laws::same_layout(image, after),
        data.len() == spec.sector_size,
        cpm_edit::data_at(image, a).len() == spec.sector_size,
    ensures
        cpm_edit::address(after, spec, x) == cpm_edit::address(image, spec, x),
{
    let spt = spec.sectors_per_track as int;
    if spt != 0 && spec.tracks_per_side != 0 {
        if let Some((side, track)) = cpm_edit::write_place(spec, x / spt) {
            let s = side % 256;
            let r = track % 256;
            if s < image.disks.len() {
                assert(laws::same_disk_layout(image.disks[s], after.disks[s]));
                if r < image.disks[s].tracks.len() {
                    let t = image.disks[s].tracks[r];
                    let u = after.disks[s].tracks[r];
                    assert(laws::same_track_layout(t, u));
                    lemma_same_order(t, u);
                    let k = x % spt;
                    assert(0 <= k);
                    if k < t.sectors.len() {
                        order::lemma_order_permutes(order::by_key(t.ids()), t.ids().len() as int);
                        let o = order::key_order(t.ids())[k];
                        assert(laws::same_sector_layout(t.sectors[o], u.sectors[o]));
                        let b = (s as u8, r as u8, t.by_id()[k].id.sector);
                        if b == a {
                            laws::law_read_after_write(image, after, a.0, a.1, a.2, data);
                        } else {
                            laws::law_write_leaves_others(image, after, a.0, a.1, a.2, data, b.0, b.1, b.2);
                        }
                    }
                }
            }
        }
    }
}

}
