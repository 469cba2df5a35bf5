//! Laws of sector images.

use crate::error::ErrorView;
use crate::format::{FormatSpec, SideMode};
use crate::image::builder;
use crate::image::disk::DiskView;
use crate::image::sector::SectorView;
use crate::image::track;
use crate::image::track::TrackView;
use crate::image::ImageView;
use crate::order;
use vstd::prelude::*;

verus! {

/// Whether two sectors differ in their data alone.
pub open spec fn same_sector_layout(a: SectorView, b: SectorView) -> bool {
    a == (SectorView { data: a.data, ..b })
}

/// Whether two tracks differ in the data of their sectors alone.
pub open spec fn same_track_layout(a: TrackView, b: TrackView) -> bool {
    &&& a == (TrackView { sectors: a.sectors, ..b })
    &&& a.sectors.len() == b.sectors.len()
    &&& forall|i: int| 0 <= i < a.sectors.len() ==> same_sector_layout(#[trigger] a.sectors[i], b.sectors[i])
}

/// Whether two sides differ in the data of their sectors alone.
pub open spec fn same_disk_layout(a: DiskView, b: DiskView) -> bool {
    &&& a.side == b.side
    &&& a.tracks.len() == b.tracks.len()
    &&& forall|i: int| 0 <= i < a.tracks.len() ==> same_track_layout(#[trigger] a.tracks[i], b.tracks[i])
}

/// Whether two images differ in the data of their sectors alone (and in whether they count as
/// changed).
pub open spec fn same_layout(a: ImageView, b: ImageView) -> bool {
    &&& a == (ImageView { disks: a.disks, changed: a.changed, ..b })
    &&& a.disks.len() == b.disks.len()
    &&& forall|i: int| 0 <= i < a.disks.len() ==> same_disk_layout(#[trigger] a.disks[i], b.disks[i])
}

/// Whether the sectors of two images with the same layout have the same sizes.
pub open spec fn same_sizes(a: ImageView, b: ImageView) -> bool {
    forall|s: int, t: int, i: int|
        0 <= s < a.disks.len() && 0 <= t < a.disks[s].tracks.len() && 0 <= i < a.disks[s].tracks[t].sectors.len()
            ==> #[trigger] a.disks[s].tracks[t].sectors[i].data.len() == b.disks[s].tracks[t].sectors[i].data.len()
}

/// A sector that has been written reads as what was written.
pub proof fn law_read_after_write(image: ImageView, after: ImageView, side: u8, track: u8, id: u8, data: Seq<u8>)
    requires
        image.write(side, track, id, data) == Ok::<ImageView, ErrorView>(after),
    ensures
        after.read(side, track, id) == Ok::<Seq<u8>, ErrorView>(data),
{
    let t = image.disks[side as int].tracks[track as int];
    let u = after.disks[side as int].tracks[track as int];
    track::lemma_find(t, id, 0);
    track::lemma_find_same_ids(t, u, id, 0);
}

/// A write leaves all other sectors as they were; what could not be read still cannot, for the
/// same reason.
pub proof fn law_write_leaves_others(
    image: ImageView,
    after: ImageView,
    side: u8,
    track: u8,
    id: u8,
    data: Seq<u8>,
    other_side: u8,
    other_track: u8,
    other_id: u8,
)
    requires
        image.write(side, track, id, data) == Ok::<ImageView, ErrorView>(after),
        (other_side, other_track, other_id) != (side, track, id),
    ensures
        after.read(other_side, other_track, other_id) == image.read(other_side, other_track, other_id),
{
    let t = image.disks[side as int].tracks[track as int];
    let u = after.disks[side as int].tracks[track as int];
    track::lemma_find(t, id, 0);
    track::lemma_find(t, other_id, 0);
    track::lemma_find_same_ids(t, u, other_id, 0);
}

/// A write keeps the layout of the image and marks it as changed.
pub proof fn law_write_keeps_layout(image: ImageView, after: ImageView, side: u8, track: u8, id: u8, data: Seq<u8>)
    requires
        image.write(side, track, id, data) == Ok::<ImageView, ErrorView>(after),
    ensures
        same_layout(image, after),
        after.changed,
{
    let t = image.disks[side as int].tracks[track as int];
    track::lemma_find(t, id, 0);
    let u = after.disks[side as int].tracks[track as int];
    assert(same_track_layout(t, u));
    assert(same_disk_layout(image.disks[side as int], after.disks[side as int]));
}

/// A write of the size that the sector had keeps all sizes.
pub proof fn lemma_write_keeps_sizes(image: ImageView, after: ImageView, side: u8, track: u8, id: u8, data: Seq<u8>)
    requires
        image.write(side, track, id, data) == Ok::<ImageView, ErrorView>(after),
        image.read(side, track, id) matches Ok(d) && d.len() == data.len(),
    ensures
        same_sizes(image, after),
{
    let t = image.disks[side as int].tracks[track as int];
    track::lemma_find(t, id, 0);
}

/// An image has its own layout.
pub proof fn lemma_same_layout_reflexive(a: ImageView)
    ensures
        same_layout(a, a),
{
    assert forall|i: int| 0 <= i < a.disks.len() implies same_disk_layout(#[trigger] a.disks[i], a.disks[i]) by {
        assert forall|j: int| 0 <= j < a.disks[i].tracks.len() implies same_track_layout(
            #[trigger] a.disks[i].tracks[j],
            a.disks[i].tracks[j],
        ) by {}
    }
}

/// Layouts that are alike to a third are alike.
pub proof fn lemma_same_layout_chain(a: ImageView, b: ImageView, c: ImageView)
    requires
        same_layout(a, b),
        same_layout(b, c),
    ensures
        same_layout(a, c),
{
    assert forall|i: int| 0 <= i < a.disks.len() implies same_disk_layout(#[trigger] a.disks[i], c.disks[i]) by {
        let d = a.disks[i];
        let e = b.disks[i];
        let f = c.disks[i];
        assert(same_disk_layout(d, e) && same_disk_layout(e, f));
        assert forall|j: int| 0 <= j < d.tracks.len() implies same_track_layout(#[trigger] d.tracks[j], f.tracks[j]) by {
            assert(same_track_layout(d.tracks[j], e.tracks[j]));
            assert(same_track_layout(e.tracks[j], f.tracks[j]));
            assert forall|k: int| 0 <= k < d.tracks[j].sectors.len() implies same_sector_layout(
                #[trigger] d.tracks[j].sectors[k],
                f.tracks[j].sectors[k],
            ) by {
                assert(same_sector_layout(d.tracks[j].sectors[k], e.tracks[j].sectors[k]));
                assert(same_sector_layout(e.tracks[j].sectors[k], f.tracks[j].sectors[k]));
            }
        }
    }
}

/// Sizes that are alike to a third are alike.
pub proof fn lemma_same_sizes_chain(a: ImageView, b: ImageView, c: ImageView)
    requires
        same_layout(a, b),
        same_sizes(a, b),
        same_sizes(b, c),
    ensures
        same_sizes(a, c),
{
    assert forall|s: int, t: int, i: int|
        0 <= s < a.disks.len() && 0 <= t < a.disks[s].tracks.len() && 0 <= i < a.disks[s].tracks[t].sectors.len()
            implies #[trigger] a.disks[s].tracks[t].sectors[i].data.len() == c.disks[s].tracks[t].sectors[i].data.len() by {
        assert(same_disk_layout(a.disks[s], b.disks[s]));
        assert(same_track_layout(a.disks[s].tracks[t], b.disks[s].tracks[t]));
        assert(a.disks[s].tracks[t].sectors[i].data.len() == b.disks[s].tracks[t].sectors[i].data.len());
        assert(b.disks[s].tracks[t].sectors[i].data.len() == c.disks[s].tracks[t].sectors[i].data.len());
    }
}

/// Whether a sector can be read, and why not, is a matter of layout.
pub proof fn lemma_same_layout_reads(a: ImageView, b: ImageView, side: u8, track: u8, id: u8)
    requires
        same_layout(a, b),
    ensures
        match a.read(side, track, id) {
            Ok(_) => b.read(side, track, id) is Ok,
            Err(e) => b.read(side, track, id) == Err::<Seq<u8>, ErrorView>(e),
        },
{
    if side < a.disks.len() {
        assert(same_disk_layout(a.disks[side as int], b.disks[side as int]));
        if track < a.disks[side as int].tracks.len() {
            let t = a.disks[side as int].tracks[track as int];
            let u = b.disks[side as int].tracks[track as int];
            assert(same_track_layout(t, u));
            assert forall|j: int| 0 <= j < t.sectors.len() implies (#[trigger] t.sectors[j]).id.sector == u.sectors[j].id.sector by {
                assert(same_sector_layout(t.sectors[j], u.sectors[j]));
            }
            track::lemma_find_same_ids(t, u, id, 0);
        }
    }
}

/// In logical order the sectors of a track ascend by their ID numbers, and every sector occurs
/// once.
pub proof fn law_sectors_ascend(t: TrackView)
    ensures
        t.by_id().len() == t.sectors.len(),
        t.by_id().to_multiset() == t.sectors.to_multiset(),
        forall|i: int, j: int| 0 <= i <= j < t.sectors.len() ==> (#[trigger] t.by_id()[i]).id.sector <= (#[trigger] t.by_id()[j]).id.sector,
{
    order::lemma_key_order_sorted(t.ids());
    order::lemma_order_permutes(order::by_key(t.ids()), t.ids().len() as int);
    order::lemma_arranged_multiset(t.sectors, order::by_key(t.ids()));
    let o = order::key_order(t.ids());
    assert forall|i: int, j: int| 0 <= i <= j < t.sectors.len() implies (#[trigger] t.by_id()[i]).id.sector <= (
    #[trigger] t.by_id()[j]).id.sector by {
        assert(t.ids()[o[i]] <= t.ids()[o[j]]);
    }
}

/// Data of one byte throughout.
spec fn constant(s: Seq<u8>, b: u8) -> bool {
    forall|i: int| 0 <= i < s.len() ==> #[trigger] s[i] == b
}

/// A freshly formatted track, read in logical order.
proof fn lemma_blank_track(spec: FormatSpec, side: int, track: int, n: int)
    requires
        0 <= n <= spec.sectors_per_track,
    ensures
        ({
            let d = builder::blank_track(spec, side, track).data_to(n);
            d.len() == n * spec.sector_size && constant(d, spec.filler_byte)
        }),
    decreases n,
{
    let t = builder::blank_track(spec, side, track);
    if n > 0 {
        lemma_blank_track(spec, side, track, n - 1);
        order::lemma_order_permutes(order::by_key(t.ids()), t.ids().len() as int);
        let o = order::key_order(t.ids())[n - 1];
        assert(t.by_id()[n - 1] == t.sectors[o]);
        assert(n * spec.sector_size == (n - 1) * spec.sector_size + spec.sector_size) by (nonlinear_arith);
    }
}

/// A freshly formatted side, read in logical order.
proof fn lemma_blank_side(spec: FormatSpec, side: int, n: int)
    requires
        0 <= n <= spec.num_tracks,
    ensures
        ({
            let d = builder::blank_disk(spec, side).logical_to(n);
            d.len() == n * (spec.sectors_per_track * spec.sector_size) && constant(d, spec.filler_byte)
        }),
    decreases n,
{
    if n > 0 {
        let size = spec.sectors_per_track * spec.sector_size;
        lemma_blank_side(spec, side, n - 1);
        lemma_blank_track(spec, side, n - 1, spec.sectors_per_track as int);
        assert(builder::blank_disk(spec, side).tracks[n - 1] == builder::blank_track(spec, side, n - 1));
        assert(n * size == (n - 1) * size + size) by (nonlinear_arith);
    }
}

proof fn lemma_blank_sides(image: ImageView, n: int)
    requires
        builder::built(image.format, image.spec) == Ok::<ImageView, ErrorView>(image),
        0 <= n <= image.spec.num_sides,
    ensures
        ({
            let d = image.sides_to(n);
            d.len() == n * (image.spec.num_tracks * (image.spec.sectors_per_track * image.spec.sector_size)) && constant(
                d,
                image.spec.filler_byte,
            )
        }),
    decreases n,
{
    if n > 0 {
        let size = image.spec.num_tracks * (image.spec.sectors_per_track * image.spec.sector_size);
        lemma_blank_sides(image, n - 1);
        lemma_blank_side(image.spec, n - 1, image.spec.num_tracks as int);
        assert(image.disks[n - 1] == builder::blank_disk(image.spec, n - 1));
        assert(n * size == (n - 1) * size + size) by (nonlinear_arith);
    }
}

proof fn lemma_blank_row(image: ImageView, t: int, n: int)
    requires
        builder::built(image.format, image.spec) == Ok::<ImageView, ErrorView>(image),
        0 <= n <= image.spec.num_sides,
        0 <= t < image.spec.num_tracks,
    ensures
        ({
            let d = image.row_to(t, n);
            d.len() == n * (image.spec.sectors_per_track * image.spec.sector_size) && constant(d, image.spec.filler_byte)
        }),
    decreases n,
{
    if n > 0 {
        let size = image.spec.sectors_per_track * image.spec.sector_size;
        lemma_blank_row(image, t, n - 1);
        lemma_blank_track(image.spec, n - 1, t, image.spec.sectors_per_track as int);
        assert(image.disks[n - 1] == builder::blank_disk(image.spec, n - 1));
        assert(image.disks[n - 1].tracks[t] == builder::blank_track(image.spec, n - 1, t));
        assert(n * size == (n - 1) * size + size) by (nonlinear_arith);
    }
}

proof fn lemma_blank_rows(image: ImageView, n: int)
    requires
        builder::built(image.format, image.spec) == Ok::<ImageView, ErrorView>(image),
        0 <= n <= image.spec.num_tracks,
    ensures
        ({
            let d = image.rows_to(n);
            d.len() == n * (image.spec.num_sides * (image.spec.sectors_per_track * image.spec.sector_size)) && constant(
                d,
                image.spec.filler_byte,
            )
        }),
    decreases n,
{
    if n > 0 {
        let size = image.spec.num_sides * (image.spec.sectors_per_track * image.spec.sector_size);
        lemma_blank_rows(image, n - 1);
        lemma_blank_row(image, n - 1, image.spec.num_sides as int);
        assert(n * size == (n - 1) * size + size) by (nonlinear_arith);
    }
}

proof fn lemma_blank_tracks(image: ImageView, n: int)
    requires
        builder::built(image.format, image.spec) == Ok::<ImageView, ErrorView>(image),
        0 < n <= image.spec.num_sides,
    ensures
        image.max_tracks(n) == image.spec.num_tracks,
    decreases n,
{
    assert(image.disks[n - 1] == builder::blank_disk(image.spec, n - 1));
    if n > 1 {
        lemma_blank_tracks(image, n - 1);
    } else {
        assert(image.max_tracks(0) == 0);
    }
}

/// A freshly formatted image reads as filler bytes, as many as its capacity; a geometry that
/// has only its first side read has one side.
pub proof fn law_fresh_image_reads(image: ImageView)
    requires
        builder::built(image.format, image.spec) == Ok::<ImageView, ErrorView>(image),
        image.spec.side_mode == SideMode::SingleSide ==> image.spec.num_sides == 1,
    ensures
        image.logical() == Seq::new(image.spec.capacity() as nat, |i: int| image.spec.filler_byte),
{
    let spec = image.spec;
    let a = spec.num_sides as int;
    let b = spec.num_tracks as int;
    let c = spec.sectors_per_track as int;
    let d = spec.sector_size as int;
    assert(a * (b * (c * d)) == a * b * c * d && b * (a * (c * d)) == a * b * c * d) by (nonlinear_arith);
    if spec.side_mode == SideMode::Alternate {
        lemma_blank_tracks(image, a);
        lemma_blank_rows(image, b);
    } else {
        lemma_blank_sides(image, a);
    }
    assert(image.logical() =~= Seq::new(spec.capacity() as nat, |i: int| spec.filler_byte));
}

}
