//! Laws of CP/M disks: what is read after files have been stored and removed.

use crate::bytes;
use crate::error::ErrorView;
use crate::filesystem::cpm_blocks;
use crate::filesystem::cpm_edit;
use crate::filesystem::cpm_entries;
use crate::filesystem::cpm_model;
use crate::filesystem::cpm_model::{EntryView, FileKey};
use crate::filesystem::cpm_sectors;
use crate::filesystem::header;
use crate::filesystem::names;
use crate::image::laws;
use crate::image::ImageView;
use crate::order;
use crate::specification;
use crate::specification::{DiskSpecFormat, DiskSpecification};
use crate::text;
use vstd::prelude::*;

verus! {

/// Part of a file with end-of-file marks behind it.
pub open spec fn eof_padded(data: Seq<u8>, from: int, len: int) -> Seq<u8> {
    Seq::new(len as nat, |i: int| if from + i < data.len() { data[from + i] } else { 0x1Au8 })
}

/// Whether the sectors of a file hold its data.
pub open spec fn holds_data(image: ImageView, spec: DiskSpecification, free: Seq<u16>, data: Seq<u8>) -> bool {
    forall|m: int|
        0 <= m < free.len() * cpm_model::sectors_per_block(spec) ==> cpm_model::sector_at(
            image,
            spec,
            #[trigger] cpm_edit::file_sector(spec, free, m),
        ) == Some(cpm_edit::file_sector_bytes(data, spec.sector_size as int, m))
}

/// Parts of a file join.
proof fn lemma_join(data: Seq<u8>, from: int, a: int, b: int)
    requires
        0 <= from,
        0 <= a,
        0 <= b,
    ensures
        eof_padded(data, from, a) + eof_padded(data, from + a, b) == eof_padded(data, from, a + b),
{
    assert(eof_padded(data, from, a) + eof_padded(data, from + a, b) =~= eof_padded(data, from, a + b));
}

/// What the first sectors of a block of a file hold.
proof fn lemma_block_read(image: ImageView, spec: DiskSpecification, free: Seq<u16>, data: Seq<u8>, b: int, j: int)
    requires
        cpm_blocks::whole_blocks(spec),
        holds_data(image, spec, free, data),
        0 <= b < free.len(),
        0 <= j <= cpm_model::sectors_per_block(spec),
    ensures
        cpm_model::sectors_to(image, spec, cpm_model::block_start(spec, free[b] as int), j) == eof_padded(
            data,
            b * spec.block_bytes(),
            j * spec.sector_size,
        ),
    decreases j,
{
    let ss = spec.sector_size as int;
    let bb = spec.block_bytes();
    let spb = cpm_model::sectors_per_block(spec);
    cpm_blocks::lemma_sizes(spec);
    assert(b * bb >= 0) by (nonlinear_arith)
        requires
            b >= 0,
            bb >= 0,
    ;
    if j <= 0 {
        assert(j * ss == 0) by (nonlinear_arith)
            requires
                j == 0,
        ;
        assert(eof_padded(data, b * bb, 0) =~= Seq::<u8>::empty());
    } else {
        lemma_block_read(image, spec, free, data, b, j - 1);
        let m = b * spb + (j - 1);
        assert(0 <= b * spb && m < free.len() * spb) by (nonlinear_arith)
            requires
                0 <= b <= free.len() - 1,
                m == b * spb + (j - 1),
                1 <= j <= spb,
        ;
        vstd::arithmetic::mul::lemma_mul_is_commutative(b, spb);
        vstd::arithmetic::div_mod::lemma_fundamental_div_mod_converse(m, spb, b, j - 1);
        assert(cpm_edit::file_sector(spec, free, m) == cpm_model::block_start(spec, free[b] as int) + (j - 1));
        assert(cpm_model::sector_at(image, spec, cpm_edit::file_sector(spec, free, m)) == Some(
            cpm_edit::file_sector_bytes(data, ss, m),
        ));
        assert(ss * m == b * bb + (j - 1) * ss && 0 <= (j - 1) * ss && (j - 1) * ss + ss == j * ss) by (nonlinear_arith)
            requires
                m == b * spb + (j - 1),
                bb == spb * ss,
                j >= 1,
                ss > 0,
        ;
        assert(cpm_edit::file_sector_bytes(data, ss, m) =~= eof_padded(data, b * bb + (j - 1) * ss, ss));
        lemma_join(data, b * bb, (j - 1) * ss, ss);
    }
}

/// What the first blocks of a part of a file hold.
proof fn lemma_part_read(image: ImageView, spec: DiskSpecification, free: Seq<u16>, data: Seq<u8>, from: int, to: int, j: int)
    requires
        cpm_blocks::whole_blocks(spec),
        cpm_blocks::usable(spec, free),
        holds_data(image, spec, free, data),
        0 <= from <= to <= free.len(),
        0 <= j <= to - from,
    ensures
        cpm_model::block_data_to(image, spec, free.subrange(from, to), j) == eof_padded(
            data,
            from * spec.block_bytes(),
            j * spec.block_bytes(),
        ),
    decreases j,
{
    let bb = spec.block_bytes();
    let spb = cpm_model::sectors_per_block(spec);
    if j <= 0 {
        assert(j * bb == 0) by (nonlinear_arith)
            requires
                j == 0,
        ;
        assert(eof_padded(data, from * bb, 0) =~= Seq::<u8>::empty());
    } else {
        lemma_part_read(image, spec, free, data, from, to, j - 1);
        cpm_blocks::lemma_sizes(spec);
        lemma_block_read(image, spec, free, data, from + j - 1, spb);
        assert(free.subrange(from, to)[j - 1] == free[from + j - 1]);
        assert((from + j - 1) * bb == from * bb + (j - 1) * bb && (j - 1) * bb + bb == j * bb && 0 <= from * bb && 0 <= (j - 1)
            * bb) by (nonlinear_arith)
            requires
                from >= 0,
                j >= 1,
                bb >= 0,
        ;
        lemma_join(data, from * bb, (j - 1) * bb, bb);
    }
}

/// The number of blocks in the first `k` extents of a file.
pub open spec fn blocks_before(spec: DiskSpecification, free: Seq<u16>, k: int) -> int {
    if k * cpm_edit::blocks_per_extent(spec) < free.len() {
        k * cpm_edit::blocks_per_extent(spec)
    } else {
        free.len() as int
    }
}

/// What the first extents of a file hold.
proof fn lemma_extents_read(
    image: ImageView,
    spec: DiskSpecification,
    user: u8,
    raw: Seq<u8>,
    data: Seq<u8>,
    free: Seq<u16>,
    ext: Seq<EntryView>,
    k: int,
)
    requires
        cpm_blocks::whole_blocks(spec),
        cpm_blocks::usable(spec, free),
        cpm_entries::wide_enough(spec),
        128 <= spec.block_bytes(),
        user <= 31,
        holds_data(image, spec, free, data),
        free.len() == cpm_edit::blocks_needed(spec, data.len() as int),
        ext.len() == cpm_edit::extent_count(spec, data.len() as int),
        forall|i: int| 0 <= i < ext.len() ==> #[trigger] ext[i] == cpm_entries::new_entry(
            spec,
            user,
            raw,
            data.len() as int,
            free,
            i,
            ext[i].index,
        ),
        0 <= k <= ext.len(),
    ensures
        cpm_model::extent_data_to(image, spec, ext, k) == eof_padded(data, 0, blocks_before(spec, free, k) * spec.block_bytes()),
    decreases k,
{
    let bb = spec.block_bytes();
    let per = cpm_edit::blocks_per_extent(spec);
    cpm_edit::lemma_extent_sizes(spec);
    if k <= 0 {
        assert(k * per == 0) by (nonlinear_arith)
            requires
                k == 0,
        ;
        assert(blocks_before(spec, free, 0) * bb == 0) by (nonlinear_arith)
            requires
                blocks_before(spec, free, 0) == 0,
        ;
        assert(eof_padded(data, 0, 0) =~= Seq::<u8>::empty());
    } else {
        let len = data.len() as int;
        lemma_extents_read(image, spec, user, raw, data, free, ext, k - 1);
        let e = ext[k - 1];
        assert(e == cpm_entries::new_entry(spec, user, raw, len, free, k - 1, e.index));
        cpm_entries::lemma_blocks_start(spec, len, free, k - 1);
        cpm_entries::lemma_new_blocks(spec, user, raw, len, free, k - 1, e.index);
        let from = (k - 1) * per;
        let c = cpm_entries::extent_blocks(spec, free, k - 1);
        assert(from + per == k * per) by (nonlinear_arith)
            requires
                from == (k - 1) * per,
        ;
        lemma_part_read(image, spec, free, data, from, from + c, c);
        assert(blocks_before(spec, free, k - 1) == from);
        assert(blocks_before(spec, free, k) == from + c);
        assert(from * bb + c * bb == (from + c) * bb && 0 <= from * bb && 0 <= c * bb) by (nonlinear_arith)
            requires
                from >= 0,
                c >= 0,
                bb >= 0,
        ;
        lemma_join(data, 0, from * bb, c * bb);
    }
}

/// The size of the first extents of a file.
proof fn lemma_extents_size(spec: DiskSpecification, name: Seq<char>, user: u8, raw: Seq<u8>, len: int, free: Seq<u16>, ext: Seq<EntryView>, k: int)
    requires
        names::cpm_key(name) == Ok::<(u8, Seq<u8>), ErrorView>((user, raw)),
        128 <= spec.block_bytes(),
        user <= 31,
        len >= 0,
        ext.len() == cpm_edit::extent_count(spec, len),
        ext.len() <= 2048,
        forall|i: int| 0 <= i < ext.len() ==> #[trigger] ext[i] == cpm_entries::new_entry(spec, user, raw, len, free, i, ext[i].index),
        0 <= k <= ext.len(),
    ensures
        cpm_model::size_to(ext, k) == (if k < ext.len() { k * cpm_edit::bytes_per_extent(spec) } else { len }),
    decreases k,
{
    let whole = cpm_edit::bytes_per_extent(spec);
    cpm_edit::lemma_extent_sizes(spec);
    let l = if len > 1 { len } else { 1 };
    bytes::lemma_div_up(l, whole);
    if k <= 0 {
        assert(k * whole == 0) by (nonlinear_arith)
            requires
                k == 0,
        ;
    } else {
        lemma_extents_size(spec, name, user, raw, len, free, ext, k - 1);
        let e = ext[k - 1];
        assert(e == cpm_entries::new_entry(spec, user, raw, len, free, k - 1, e.index));
        cpm_entries::lemma_new_entry(spec, name, user, raw, len, free, k - 1, e.index);
        let size = cpm_edit::chunk_len(spec, len, k - 1);
        cpm_entries::lemma_new_size(size, e);
        cpm_edit::lemma_extent_fits(spec, len, k - 1);
        assert((k - 1) * whole + whole == k * whole) by (nonlinear_arith);
        if k < ext.len() {
            cpm_edit::lemma_extent_fits(spec, len, k);
            assert(size == whole);
        } else {
            assert(k * whole >= l);
            assert(size == len - (k - 1) * whole);
        }
    }
}

/// A new file reads as what was stored.
proof fn lemma_raw_file(
    image: ImageView,
    spec: DiskSpecification,
    name: Seq<char>,
    user: u8,
    raw: Seq<u8>,
    data: Seq<u8>,
    free: Seq<u16>,
    ext: Seq<EntryView>,
)
    requires
        names::cpm_key(name) == Ok::<(u8, Seq<u8>), ErrorView>((user, raw)),
        cpm_blocks::whole_blocks(spec),
        cpm_blocks::usable(spec, free),
        cpm_entries::wide_enough(spec),
        128 <= spec.block_bytes(),
        user <= 31,
        holds_data(image, spec, free, data),
        free.len() == cpm_edit::blocks_needed(spec, data.len() as int),
        ext.len() == cpm_edit::extent_count(spec, data.len() as int),
        ext.len() <= 2048,
        forall|i: int| 0 <= i < ext.len() ==> #[trigger] ext[i] == cpm_entries::new_entry(
            spec,
            user,
            raw,
            data.len() as int,
            free,
            i,
            ext[i].index,
        ),
    ensures
        cpm_model::raw_file(image, spec, ext) == data,
        cpm_model::file_size(ext) == data.len(),
{
    let n = ext.len() as int;
    let len = data.len() as int;
    let bb = spec.block_bytes();
    let per = cpm_edit::blocks_per_extent(spec);
    let whole = cpm_edit::bytes_per_extent(spec);
    let needed = free.len() as int;
    lemma_extents_read(image, spec, user, raw, data, free, ext, n);
    lemma_extents_size(spec, name, user, raw, len, free, ext, n);
    cpm_edit::lemma_extent_sizes(spec);
    bytes::lemma_div_up(if len > 1 { len } else { 1 }, whole);
    bytes::lemma_div_up(len, bb);
    assert(n * per >= needed) by (nonlinear_arith)
        requires
            n * whole >= len,
            whole == per * bb,
            len > 0 ==> (needed - 1) * bb < len,
            len == 0 ==> needed == 0,
            n >= 0,
            per >= 1,
            bb > 0,
            len >= 0,
    ;
    let all = cpm_model::extent_data_to(image, spec, ext, n);
    assert(all == eof_padded(data, 0, needed * bb));
    assert(all.take(len) =~= data);
    assert(all.len() == len ==> all =~= data);
}

/// What identifies a disk: its layout, the sizes of its sectors, and the start of its first
/// sector.
pub proof fn lemma_identified_kept(image: ImageView, after: ImageView)
    requires
        laws::same_layout(image, after),
        laws::same_sizes(image, after),
        (image.track(0, 0) matches Some(t) && t.sectors.len() > 0) ==> {
            let d = image.track(0, 0).unwrap().by_id()[0].data;
            let e = after.track(0, 0).unwrap().by_id()[0].data;
            d.len() >= 10 && image.track(0, 0).unwrap().by_id()[0].id.sector < 0x41 ==> forall|i: int| 0 <= i < 10 ==> d[i] == e[i]
        },
    ensures
        specification::identified(after) == specification::identified(image),
{
    if let Some(t) = image.track(0, 0) {
        assert(laws::same_disk_layout(image.disks[0], after.disks[0]));
        let u = after.disks[0].tracks[0];
        assert(laws::same_track_layout(t, u));
        cpm_sectors::lemma_same_order(t, u);
        if t.sectors.len() > 0 {
            order::lemma_order_permutes(order::by_key(t.ids()), t.ids().len() as int);
            let o = order::key_order(t.ids())[0];
            assert(laws::same_sector_layout(t.sectors[o], u.sectors[o]));
            assert(image.disks[0].tracks[0].sectors[o].data.len() == after.disks[0].tracks[0].sectors[o].data.len());
            let d = t.by_id()[0].data;
            let e = u.by_id()[0].data;
            assert(d.len() == e.len());
            if t.by_id()[0].id.sector < 0x41 && d.len() >= 10 {
                assert(d[0] == e[0] && d[1] == e[1] && d[2] == e[2] && d[3] == e[3] && d[4] == e[4] && d[5] == e[5] && d[6]
                    == e[6] && d[7] == e[7] && d[8] == e[8] && d[9] == e[9]);
            }
        }
    } else {
        if image.disks.len() > 0 {
            assert(laws::same_disk_layout(image.disks[0], after.disks[0]));
        }
    }
}

/// Recognised disks have block numbers that are wide enough.
pub proof fn lemma_identified_fits(image: ImageView)
    ensures
        cpm_entries::wide_enough(specification::identified(image)),
{
}

/// The first sector of a disk without reserved tracks is the first of its directory.
proof fn lemma_first_sector(image: ImageView, spec: DiskSpecification)
    requires
        spec.reserved_tracks == 0,
        cpm_sectors::reached(spec, spec.first_sector()),
        image.track(0, 0) matches Some(t) && t.sectors.len() > 0,
    ensures
        spec.first_sector() == 0,
        cpm_model::sector_at(image, spec, 0) == Some(image.track(0, 0).unwrap().by_id()[0].data),
{
    let spt = spec.sectors_per_track as int;
    assert(spec.first_sector() == 0) by (nonlinear_arith)
        requires
            spec.first_sector() == spec.reserved_tracks * spt,
            spec.reserved_tracks == 0,
    ;
    cpm_sectors::lemma_reached_track(spec, 0);
    cpm_sectors::lemma_first_place(spec);
    vstd::arithmetic::div_mod::lemma_basic_div(0, spt);
    vstd::arithmetic::div_mod::lemma_small_mod(0, spt as nat);
    let t = image.track(0, 0).unwrap();
    order::lemma_order_permutes(order::by_key(t.ids()), t.ids().len() as int);
}

/// A new directory keeps what identifies the disk, if it keeps its first slot wherever that is
/// in use.
proof fn lemma_identified_by_directory(image: ImageView, after: ImageView, dir: Seq<u8>, dir1: Seq<u8>)
    requires
        laws::same_layout(image, after),
        laws::same_sizes(image, after),
        ({
            let spec = specification::identified(image);
            let ss = spec.sector_size as int;
            &&& spec.reserved_tracks > 0 ==> after.track(0, 0) == image.track(0, 0)
            &&& ss > 0
            &&& cpm_sectors::reached(spec, spec.first_sector())
            &&& cpm_model::sector_at(image, spec, spec.first_sector()) == Some(cpm_blocks::piece(dir, ss, 0))
            &&& cpm_model::sector_at(after, spec, spec.first_sector()) == Some(cpm_blocks::piece(dir1, ss, 0))
            &&& dir.len() >= ss
            &&& dir1.len() == dir.len()
            &&& dir[0] <= 31 ==> forall|i: int| 0 <= i < 32 && i < dir.len() ==> dir[i] == dir1[i]
        }),
    ensures
        specification::identified(after) == specification::identified(image),
{
    let spec = specification::identified(image);
    let ss = spec.sector_size as int;
    if let Some(t) = image.track(0, 0) {
        if t.sectors.len() > 0 && spec.reserved_tracks == 0 && t.by_id()[0].id.sector < 0x41 {
            assert(laws::same_disk_layout(image.disks[0], after.disks[0]));
            assert(laws::same_track_layout(t, after.disks[0].tracks[0]));
            lemma_first_sector(image, spec);
            lemma_first_sector(after, spec);
            let d = t.by_id()[0].data;
            let e = after.track(0, 0).unwrap().by_id()[0].data;
            assert(ss * 0 == 0);
            assert(specification::boot_record(d));
            assert(d[0] == dir[0]);
            assert forall|i: int| 0 <= i < 10 implies d[i] == e[i] by {
                assert(d[i] == dir[i]);
                assert(e[i] == dir1[i]);
            }
        }
    }
    lemma_identified_kept(image, after);
}

/// The directory as it is written, which may reach beyond the disk.
pub open spec fn written(image: ImageView, spec: DiskSpecification) -> Seq<u8> {
    cpm_edit::directory_at(image, spec)->Ok_0.1
}

/// The free blocks that a new file takes.
pub open spec fn new_blocks(image: ImageView, spec: DiskSpecification, len: int) -> Seq<u16> {
    cpm_edit::free_to(spec, written(image, spec), spec.blocks()).take(cpm_edit::blocks_needed(spec, len))
}

/// Whether the directory of a disk is read as it is written: its sectors are found by their ID
/// numbers, and none lies on a track that one byte cannot name.
pub open spec fn sound(image: ImageView) -> bool {
    let spec = specification::identified(image);
    cpm_blocks::plain_directory(image, spec) && cpm_blocks::reached_directory(spec)
}

/// Whether a file of `len` bytes is read as it is written: the directory is, and the sectors that
/// the file will take are found by their ID numbers.
pub open spec fn sound_for(image: ImageView, len: int) -> bool {
    let spec = specification::identified(image);
    sound(image) && cpm_blocks::plain_blocks(image, spec, new_blocks(image, spec, len))
}

/// Whether the entries of a new file of `len` bytes will be read: the directory does not reach
/// beyond the disk, or at least the free slots that they take do not.
pub open spec fn shown_for(image: ImageView, len: int) -> bool {
    let spec = specification::identified(image);
    let dir = cpm_model::directory_bytes(image, spec);
    ||| cpm_blocks::directory_on_disk(spec)
    ||| cpm_edit::extent_count(spec, len) <= cpm_edit::free_slots(dir, dir.len() as int / 32)
}

/// The first free slots are the same, whatever lies behind.
proof fn lemma_free_slots_prefix(dir: Seq<u8>, len: int, n: int)
    requires
        0 <= len <= dir.len(),
        0 <= n <= len / 32,
    ensures
        cpm_edit::free_slots(dir.take(len), n) == cpm_edit::free_slots(dir, n),
    decreases n,
{
    if n > 0 {
        lemma_free_slots_prefix(dir, len, n - 1);
    }
}

/// What a new file changes.
pub proof fn lemma_imported(image: ImageView, name: Seq<char>, data: Seq<u8>, after: ImageView)
    requires
        cpm_edit::imported(image, name, data) == Ok::<ImageView, ErrorView>(after),
        sound_for(image, data.len() as int),
    ensures
        specification::identified(after) == specification::identified(image),
        laws::same_layout(image, after),
        ({
            let spec = specification::identified(image);
            let (user, raw) = names::cpm_key(name)->Ok_0;
            let dir = written(image, spec);
            let len = data.len() as int;
            let free = new_blocks(image, spec, len);
            &&& cpm_blocks::whole_blocks(spec)
            &&& cpm_blocks::whole_directory(spec)
            &&& dir.len() == spec.entries() * 32
            &&& cpm_model::directory_bytes(image, spec) == dir.take(cpm_blocks::shown_len(spec))
            &&& cpm_model::directory_bytes(after, spec) == written(after, spec).take(cpm_blocks::shown_len(spec))
            &&& spec.sectors_per_track > 0
            &&& 128 <= spec.block_bytes()
            &&& forall|x: int| #[trigger] cpm_sectors::plain(after, spec, x) == cpm_sectors::plain(image, spec, x)
            &&& user <= 31
            &&& cpm_blocks::usable(spec, free)
            &&& free.len() == cpm_edit::blocks_needed(spec, len)
            &&& 0 <= cpm_edit::blocks_needed(spec, len) <= cpm_edit::free_to(spec, dir, spec.blocks()).len()
            &&& holds_data(after, spec, free, data)
            &&& cpm_edit::extent_count(spec, len) <= 2048
            &&& cpm_edit::extent_count(spec, len) <= cpm_edit::free_slots(dir, dir.len() as int / 32)
            &&& !cpm_edit::holds(dir, user, raw)
            &&& cpm_edit::directory_at(after, spec) is Ok
            &&& written(after, spec) == cpm_edit::filled_to(
                spec,
                dir,
                user,
                raw,
                len,
                free,
                cpm_edit::extent_count(spec, len),
            )
            &&& forall|x: int|
                spec.first_sector() + cpm_edit::directory_sectors(spec) <= x && cpm_sectors::reached(spec, x) && cpm_blocks::outside(
                    spec,
                    free,
                    x,
                ) ==> #[trigger] cpm_model::sector_at(after, spec, x) == cpm_model::sector_at(image, spec, x)
            &&& cpm_edit::directory_at(image, spec) is Ok
            &&& forall|x: int| #[trigger] cpm_edit::address(after, spec, x) == cpm_edit::address(image, spec, x)
        }),
{
    let spec = specification::identified(image);
    let ss = spec.sector_size as int;
    let (user, raw) = names::cpm_key(name)->Ok_0;
    lemma_user(name);
    let (addresses, dir) = cpm_edit::directory_at(image, spec)->Ok_0;
    let len = data.len() as int;
    cpm_blocks::lemma_sizes(spec);
    cpm_blocks::lemma_directory_at(image, spec);
    let all = cpm_edit::free_to(spec, dir, spec.blocks());
    let needed = cpm_edit::blocks_needed(spec, len);
    let free = all.take(needed);
    bytes::lemma_div_up(len, spec.block_bytes());
    cpm_blocks::lemma_free_usable(spec, dir, spec.blocks());
    assert(cpm_blocks::usable(spec, free)) by {
        assert forall|i: int| 0 <= i < free.len() implies spec.directory_blocks <= #[trigger] free[i] < spec.blocks() && free[i] > 0 by {
            assert(free[i] == all[i]);
        }
        assert forall|i: int, j: int| 0 <= i < j < free.len() implies #[trigger] free[i] < #[trigger] free[j] by {
            assert(free[i] == all[i] && free[j] == all[j]);
        }
    }
    let total = free.len() * cpm_model::sectors_per_block(spec);
    assert(total >= 0) by (nonlinear_arith)
        requires
            total == free.len() * cpm_model::sectors_per_block(spec),
            cpm_model::sectors_per_block(spec) >= 1,
    ;
    cpm_blocks::lemma_stored(image, spec, free, data, total);
    let mid = cpm_edit::stored_to(image, spec, free, data, total)->Ok_0;
    let extents = cpm_edit::extent_count(spec, len);
    cpm_edit::lemma_extent_sizes(spec);
    bytes::lemma_div_up(if len > 1 { len } else { 1 }, cpm_edit::bytes_per_extent(spec));
    cpm_entries::lemma_filled(spec, dir, user, raw, len, free, extents);
    let dir1 = cpm_edit::filled_to(spec, dir, user, raw, len, free, extents);
    let n = addresses.len() as int;
    assert forall|i: int| 0 <= i < n implies cpm_edit::address(mid, spec, spec.first_sector() + i) == Ok::<
        cpm_edit::Address,
        ErrorView,
    >(#[trigger] addresses[i]) by {}
    cpm_blocks::lemma_put(mid, spec, addresses, dir1, n);
    laws::lemma_same_layout_chain(image, mid, after);
    laws::lemma_same_sizes_chain(image, mid, after);
    cpm_sectors::lemma_disk_reached(spec);
    assert forall|m: int| 0 <= m < total implies cpm_model::sector_at(after, spec, #[trigger] cpm_edit::file_sector(spec, free, m))
        == Some(cpm_edit::file_sector_bytes(data, ss, m)) by {
        cpm_blocks::lemma_file_sector(spec, free, m);
        lemma_behind_directory(spec, free[m / cpm_model::sectors_per_block(spec)] as int, cpm_edit::file_sector(spec, free, m));
    }
    cpm_blocks::lemma_directory_bytes(after, spec, dir1);
    lemma_written(image, after, spec, addresses, dir1);
    specification::lemma_entries_bound(spec);
    assert(n >= 1) by (nonlinear_arith)
        requires
            dir.len() == n * ss,
            dir.len() != 0,
            n >= 0,
    ;
    assert(dir.len() >= ss) by (nonlinear_arith)
        requires
            dir.len() == n * ss,
            n >= 1,
            ss >= 0,
    ;
    assert(dir.len() >= 32);
    assert(dir[0] <= 31 ==> forall|i: int| 0 <= i < 32 && i < dir.len() ==> dir[i] == dir1[i]) by {
        if dir[0] <= 31 {
            assert(cpm_edit::slot(dir1, 0) == cpm_entries::slot_after(spec, dir, user, raw, len, free, extents, 0));
            assert(cpm_edit::mark(dir, 0) != 0xE5);
            assert forall|i: int| 0 <= i < 32 && i < dir.len() implies dir[i] == dir1[i] by {
                assert(cpm_edit::slot(dir1, 0)[i] == dir1[i]);
                assert(cpm_edit::slot(dir, 0)[i] == dir[i]);
            }
        }
    }
    assert(cpm_sectors::reached(spec, spec.first_sector()));
    lemma_identified_by_directory(image, after, dir, dir1);
}

/// The directory that has been written is the directory that will be changed next.
proof fn lemma_written(image: ImageView, after: ImageView, spec: DiskSpecification, addresses: Seq<cpm_edit::Address>, dir: Seq<u8>)
    requires
        cpm_edit::directory_at(image, spec) matches Ok((a, d)) && a == addresses && dir.len() == d.len(),
        cpm_blocks::plain_directory(after, spec),
        cpm_blocks::reached_directory(spec),
        forall|x: int| #[trigger] cpm_edit::address(after, spec, x) == cpm_edit::address(image, spec, x),
        forall|x: int|
            spec.first_sector() <= x < spec.first_sector() + addresses.len() ==> #[trigger] cpm_model::sector_at(after, spec, x) == Some(
                cpm_blocks::piece(dir, spec.sector_size as int, x - spec.first_sector()),
            ),
    ensures
        cpm_edit::directory_at(after, spec) == Ok::<(Seq<cpm_edit::Address>, Seq<u8>), ErrorView>((addresses, dir)),
{
    let ss = spec.sector_size as int;
    let first = spec.first_sector();
    cpm_blocks::lemma_directory_sectors(spec);
    cpm_edit::lemma_addresses(image, spec, first, cpm_edit::directory_sectors(spec));
    cpm_blocks::lemma_same_addresses(after, image, spec, first, cpm_edit::directory_sectors(spec));
    cpm_blocks::lemma_directory_at(after, spec);
    let d = written(after, spec);
    assert forall|i: int| 0 <= i < addresses.len() implies #[trigger] cpm_blocks::piece(d, ss, i) == cpm_blocks::piece(dir, ss, i) by {
        assert(cpm_model::sector_at(after, spec, first + i) == Some(cpm_blocks::piece(d, ss, first + i - first)));
        assert(cpm_model::sector_at(after, spec, first + i) == Some(cpm_blocks::piece(dir, ss, first + i - first)));
    }
    cpm_blocks::lemma_same_pieces(d, dir, ss, addresses.len() as int);
}

/// Blocks behind the directory have sectors behind the directory.
proof fn lemma_behind_directory(spec: DiskSpecification, b: int, x: int)
    requires
        cpm_blocks::whole_blocks(spec),
        b >= spec.directory_blocks,
        cpm_blocks::in_block(spec, b, x),
    ensures
        spec.first_sector() + cpm_edit::directory_sectors(spec) <= x,
{
    cpm_blocks::lemma_sizes(spec);
    let spb = cpm_model::sectors_per_block(spec);
    assert(spec.directory_blocks * spb <= b * spb) by (nonlinear_arith)
        requires
            spec.directory_blocks <= b,
            spb >= 1,
    ;
}

/// User numbers go up to 31.
pub proof fn lemma_user(name: Seq<char>)
    ensures
        names::user_and_name(name) matches Ok((user, rest)) ==> user <= 31,
{
    if let Some(i) = text::find(name, ':') {
        let s = name.take(i);
        let digits = if s.len() > 0 && s[0] == '+' { s.skip(1) } else { s };
        lemma_number_bound(digits, 31);
    }
}

proof fn lemma_number_bound(s: Seq<char>, limit: int)
    requires
        limit >= 0,
    ensures
        text::number(s, limit) matches Some(n) ==> 0 <= n <= limit,
    decreases s.len(),
{
    if s.len() > 0 {
        lemma_number_bound(s.drop_last(), limit);
    }
}

/// Whether a file is not there, told by its name.
pub open spec fn absent(image: ImageView, name: Seq<char>) -> bool {
    let spec = specification::identified(image);
    cpm_model::file_content(image, spec, cpm_model::directory(image, spec, false), name, true) is Err
}

/// What is read of a file on a disk that is opened anew.
pub open spec fn reread(image: ImageView, name: Seq<char>, include_header: bool) -> Result<Seq<u8>, ErrorView> {
    let spec = specification::identified(image);
    cpm_model::file_content(image, spec, cpm_model::directory(image, spec, false), name, include_header)
}

/// A file without extents has no entries.
proof fn lemma_no_extents(entries: Seq<EntryView>, key: FileKey)
    ensures
        cpm_model::extents(entries, key).len() == cpm_entries::selected(entries, key).len(),
{
    let s = cpm_entries::selected(entries, key);
    order::lemma_order_permutes(order::by_key(cpm_model::extent_numbers(s)), s.len() as int);
}

/// A file that has been stored is read back byte for byte, when the disk is opened again, under
/// the name that it is listed by.
pub proof fn law_import_then_read(image: ImageView, name: Seq<char>, data: Seq<u8>, after: ImageView, read_name: Seq<char>)
    requires
        cpm_edit::imported(image, name, data) == Ok::<ImageView, ErrorView>(after),
        sound_for(image, data.len() as int),
        shown_for(image, data.len() as int),
        cpm_model::key_of_name(read_name) == Ok::<FileKey, ErrorView>(cpm_entries::new_key(name)),
        absent(image, read_name),
    ensures
        specification::identified(after).sector_size > 0,
        specification::identified(after).sectors_per_track > 0,
        reread(after, read_name, true) == Ok::<Seq<u8>, ErrorView>(data),
        reread(after, read_name, false) == Ok::<Seq<u8>, ErrorView>(header::stripped(data)),
        cpm_model::file_size(
            cpm_model::extents(
                cpm_model::directory(after, specification::identified(after), false),
                cpm_entries::new_key(name),
            ),
        ) == data.len(),
{
    let spec = specification::identified(image);
    let (user, raw) = names::cpm_key(name)->Ok_0;
    let dir = written(image, spec);
    let len = data.len() as int;
    let free = new_blocks(image, spec, len);
    let extents = cpm_edit::extent_count(spec, len);
    let key = cpm_entries::new_key(name);
    lemma_imported(image, name, data, after);
    lemma_identified_fits(image);
    let slots = cpm_blocks::shown_slots(spec);
    cpm_blocks::lemma_shown_len(spec);
    lemma_free_slots_prefix(dir, cpm_blocks::shown_len(spec), slots);
    cpm_edit::lemma_extent_sizes(spec);
    bytes::lemma_div_up(if len > 1 { len } else { 1 }, cpm_edit::bytes_per_extent(spec));
    cpm_entries::lemma_filled(spec, dir, user, raw, len, free, extents);
    let dir1 = written(after, spec);
    cpm_blocks::lemma_shown_entries(image, spec, dir, false);
    cpm_blocks::lemma_shown_entries(after, spec, dir1, false);
    let old = cpm_model::directory(image, spec, false);
    let entries = cpm_model::directory(after, spec, false);
    lemma_no_extents(old, key);
    cpm_entries::lemma_entries_filled(spec, dir, dir1, name, user, raw, len, free, extents, slots);
    cpm_entries::lemma_new_extents(spec, user, raw, len, free, name, entries);
    let ext = cpm_model::extents(entries, key);
    let whole = cpm_edit::bytes_per_extent(spec);
    assert(extents >= 1) by (nonlinear_arith)
        requires
            extents * whole >= 1,
            whole > 0,
    ;
    lemma_raw_file(after, spec, name, user, raw, data, free, ext);
}

/// Names in upper case that do not end in a dot are listed as they are.
proof fn lemma_listed_as_given(name: Seq<char>)
    requires
        names::cpm_key(name) is Ok,
        text::upper_all(name) == name,
        name.last() != '.',
    ensures
        cpm_model::key_of_name(name) == Ok::<FileKey, ErrorView>(cpm_entries::new_key(name)),
{
    let (user, rest) = names::user_and_name(name)->Ok_0;
    assert forall|i: int| 0 <= i < rest.len() implies text::upper(#[trigger] rest[i]) == rest[i] by {
        if let Some(c) = text::find(name, ':') {
            lemma_find_range(name, ':', 0);
            assert(rest[i] == name[c + 1 + i]);
            assert(text::upper_all(name)[c + 1 + i] == name[c + 1 + i]);
        } else {
            assert(text::upper_all(name)[i] == name[i]);
        }
    }
    let (base, ext) = names::dotted(rest);
    reveal_strlit(".");
    lemma_find_range(rest, '.', 0);
    lemma_find_range(name, ':', 0);
    match text::find(rest, '.') {
        None => {
            assert(text::upper_all(base) =~= rest);
        },
        Some(d) => {
            assert(rest[d] == '.');
            assert(rest.last() == name.last());
            assert(ext.len() > 0);
            assert(text::upper_all(base) + "."@ + text::upper_all(ext) =~= rest);
        },
    }
}

/// What is found stands in the text.
proof fn lemma_find_range(s: Seq<char>, c: char, from: int)
    requires
        0 <= from <= s.len(),
    ensures
        from <= text::find_from(s, c, from) <= s.len(),
        text::find_from(s, c, from) < s.len() ==> s[text::find_from(s, c, from)] == c,
    decreases s.len() - from,
{
    if from < s.len() && s[from] != c {
        lemma_find_range(s, c, from + 1);
    }
}

/// A file that has been stored under a name in upper case is read back under the same name.
pub proof fn law_import_then_read_same_name(image: ImageView, name: Seq<char>, data: Seq<u8>, after: ImageView)
    requires
        cpm_edit::imported(image, name, data) == Ok::<ImageView, ErrorView>(after),
        sound_for(image, data.len() as int),
        shown_for(image, data.len() as int),
        text::upper_all(name) == name,
        name.last() != '.',
        absent(image, name),
    ensures
        reread(after, name, true) == Ok::<Seq<u8>, ErrorView>(data),
        reread(after, name, false) == Ok::<Seq<u8>, ErrorView>(header::stripped(data)),
{
    lemma_listed_as_given(name);
    law_import_then_read(image, name, data, after, name);
}

/// A file has at least one extent.
pub proof fn lemma_extents_positive(spec: DiskSpecification, len: int)
    requires
        128 <= spec.block_bytes(),
        len >= 0,
    ensures
        cpm_edit::extent_count(spec, len) >= 1,
{
    let whole = cpm_edit::bytes_per_extent(spec);
    let l = if len > 1 { len } else { 1 };
    cpm_edit::lemma_extent_sizes(spec);
    bytes::lemma_div_up(l, whole);
    let n = cpm_edit::extent_count(spec, len);
    assert(n >= 1) by (nonlinear_arith)
        requires
            n * whole >= 1,
            whole > 0,
    ;
}

/// Whether the sectors of a block lie behind the directory, none of them on a track that one
/// byte cannot name.
pub open spec fn own_block(spec: DiskSpecification, b: int) -> bool {
    forall|x: int| #[trigger]
        cpm_blocks::in_block(spec, b, x) ==> spec.first_sector() + cpm_edit::directory_sectors(spec) <= x && cpm_sectors::reached(spec, x)
}

/// Whether the blocks of a file lie behind the directory.
pub open spec fn own_blocks(image: ImageView, key: FileKey) -> bool {
    let spec = specification::identified(image);
    let ext = cpm_model::extents(cpm_model::directory(image, spec, false), key);
    forall|k: int, j: int|
        0 <= k < ext.len() && 0 <= j < ext[k].file_blocks(spec).len() ==> own_block(spec, #[trigger] ext[k].file_blocks(spec)[j] as int)
}

/// Sectors that are the same read the same.
proof fn lemma_same_sectors(a: ImageView, b: ImageView, spec: DiskSpecification, start: int, n: int)
    requires
        forall|j: int| 0 <= j < n ==> #[trigger] cpm_model::sector_at(a, spec, start + j) == cpm_model::sector_at(b, spec, start + j),
    ensures
        cpm_model::sectors_to(a, spec, start, n) == cpm_model::sectors_to(b, spec, start, n),
    decreases n,
{
    if n > 0 {
        lemma_same_sectors(a, b, spec, start, n - 1);
        assert(cpm_model::sector_at(a, spec, start + (n - 1)) == cpm_model::sector_at(b, spec, start + (n - 1)));
    }
}

/// Whether two images hold the same in a block.
pub open spec fn same_block(a: ImageView, b: ImageView, spec: DiskSpecification, block: int) -> bool {
    forall|x: int| cpm_blocks::in_block(spec, block, x) ==> #[trigger] cpm_model::sector_at(a, spec, x) == cpm_model::sector_at(b, spec, x)
}

/// Blocks that are the same read the same.
proof fn lemma_same_blocks(a: ImageView, b: ImageView, spec: DiskSpecification, blocks: Seq<u16>, n: int)
    requires
        0 <= n <= blocks.len(),
        forall|j: int| 0 <= j < blocks.len() ==> same_block(a, b, spec, #[trigger] blocks[j] as int),
    ensures
        cpm_model::block_data_to(a, spec, blocks, n) == cpm_model::block_data_to(b, spec, blocks, n),
    decreases n,
{
    if n > 0 {
        lemma_same_blocks(a, b, spec, blocks, n - 1);
        assert(same_block(a, b, spec, blocks[n - 1] as int));
        lemma_same_sectors(
            a,
            b,
            spec,
            cpm_model::block_start(spec, blocks[n - 1] as int),
            cpm_model::sectors_per_block(spec),
        );
    }
}

/// Extents in blocks that are the same read the same.
proof fn lemma_same_extents(a: ImageView, b: ImageView, spec: DiskSpecification, ext: Seq<EntryView>, n: int)
    requires
        0 <= n <= ext.len(),
        forall|k: int, j: int|
            0 <= k < ext.len() && 0 <= j < ext[k].file_blocks(spec).len() ==> same_block(
                a,
                b,
                spec,
                #[trigger] ext[k].file_blocks(spec)[j] as int,
            ),
    ensures
        cpm_model::extent_data_to(a, spec, ext, n) == cpm_model::extent_data_to(b, spec, ext, n),
    decreases n,
{
    if n > 0 {
        lemma_same_extents(a, b, spec, ext, n - 1);
        let blocks = ext[n - 1].file_blocks(spec);
        lemma_same_blocks(a, b, spec, blocks, blocks.len() as int);
    }
}

/// Storing a file leaves the blocks of every other file alone.
proof fn lemma_block_untouched(image: ImageView, after: ImageView, spec: DiskSpecification, dir: Seq<u8>, len: int, e: EntryView, j: int)
    requires
        cpm_blocks::whole_blocks(spec),
        dir == written(image, spec),
        0 <= cpm_edit::blocks_needed(spec, len) <= cpm_edit::free_to(spec, dir, spec.blocks()).len(),
        forall|x: int|
            spec.first_sector() + cpm_edit::directory_sectors(spec) <= x && cpm_sectors::reached(spec, x) && cpm_blocks::outside(
                spec,
                new_blocks(image, spec, len),
                x,
            ) ==> #[trigger] cpm_model::sector_at(after, spec, x) == cpm_model::sector_at(image, spec, x),
        0 <= e.index < dir.len() / 32,
        cpm_model::entry_of(cpm_edit::slot(dir, e.index), e.index, false) == Some(e),
        0 <= j < e.file_blocks(spec).len(),
        own_block(spec, e.file_blocks(spec)[j] as int),
    ensures
        same_block(after, image, spec, e.file_blocks(spec)[j] as int),
{
    let b = e.file_blocks(spec)[j] as int;
    let free = new_blocks(image, spec, len);
    let all = cpm_edit::free_to(spec, dir, spec.blocks());
    let numbers = e.numbers(spec.allocation_size);
    if spec.format == DiskSpecFormat::Unknown {
        cpm_entries::lemma_kept_named(numbers, e.blocks_reached(spec), spec.room(), numbers.len() as int, j);
    }
    assert(cpm_edit::names_block(spec, dir, e.index, b));
    assert(cpm_edit::taken_to(spec, dir, dir.len() as int / 32, b));
    cpm_blocks::lemma_free_usable(spec, dir, spec.blocks());
    assert forall|x: int| cpm_blocks::in_block(spec, b, x) implies #[trigger] cpm_model::sector_at(after, spec, x)
        == cpm_model::sector_at(image, spec, x) by {
        assert forall|f: int| 0 <= f < free.len() implies !cpm_blocks::in_block(spec, #[trigger] free[f] as int, x) by {
            assert(free[f] == all[f]);
            if cpm_blocks::in_block(spec, free[f] as int, x) {
                cpm_blocks::lemma_blocks_apart(spec, free[f] as int, b, x);
            }
        }
        assert(cpm_blocks::outside(spec, free, x));
    }
}

/// Storing a file leaves the content of every other file as it was, as long as that lies in
/// blocks of its own.
pub proof fn law_import_leaves_others(
    image: ImageView,
    name: Seq<char>,
    data: Seq<u8>,
    after: ImageView,
    other: Seq<char>,
    include_header: bool,
)
    requires
        cpm_edit::imported(image, name, data) == Ok::<ImageView, ErrorView>(after),
        sound_for(image, data.len() as int),
        cpm_model::key_of_name(other) matches Ok(key) && key != cpm_entries::new_key(name) && own_blocks(image, key),
    ensures
        reread(after, other, include_header) == reread(image, other, include_header),
{
    let key = cpm_model::key_of_name(other)->Ok_0;
    let spec = specification::identified(image);
    let (user, raw) = names::cpm_key(name)->Ok_0;
    let dir = written(image, spec);
    let slots = cpm_blocks::shown_slots(spec);
    let len = data.len() as int;
    let free = new_blocks(image, spec, len);
    let extents = cpm_edit::extent_count(spec, len);
    lemma_imported(image, name, data, after);
    cpm_edit::lemma_extent_sizes(spec);
    bytes::lemma_div_up(if len > 1 { len } else { 1 }, cpm_edit::bytes_per_extent(spec));
    cpm_entries::lemma_filled(spec, dir, user, raw, len, free, extents);
    cpm_blocks::lemma_shown_len(spec);
    cpm_blocks::lemma_shown_entries(image, spec, dir, false);
    cpm_blocks::lemma_shown_entries(after, spec, written(after, spec), false);
    let old = cpm_model::directory(image, spec, false);
    let new = cpm_model::directory(after, spec, false);
    cpm_entries::lemma_others_filled(
        spec,
        dir,
        written(after, spec),
        name,
        user,
        raw,
        len,
        free,
        extents,
        key,
        slots,
    );
    let ext = cpm_model::extents(old, key);
    assert(cpm_model::extents(new, key) == ext);
    assert forall|k: int, j: int| 0 <= k < ext.len() && 0 <= j < ext[k].file_blocks(spec).len() implies same_block(
        after,
        image,
        spec,
        #[trigger] ext[k].file_blocks(spec)[j] as int,
    ) by {
        cpm_entries::lemma_extents_listed(old, key, k);
        let i = choose|i: int| 0 <= i < old.len() && #[trigger] old[i] == ext[k];
        cpm_entries::lemma_entry_slot(dir, spec, slots, i);
        lemma_block_untouched(image, after, spec, dir, len, ext[k], j);
    }
    lemma_same_extents(after, image, spec, ext, ext.len() as int);
}

/// What the removal of a file changes.
pub proof fn lemma_deleted(image: ImageView, name: Seq<char>, after: ImageView)
    requires
        cpm_edit::deleted(image, name) == Ok::<ImageView, ErrorView>(after),
        sound(image),
    ensures
        specification::identified(after) == specification::identified(image),
        laws::same_layout(image, after),
        ({
            let spec = specification::identified(image);
            let (user, raw) = names::cpm_key(name)->Ok_0;
            let dir = written(image, spec);
            &&& user <= 31
            &&& spec.sector_size > 0
            &&& cpm_blocks::whole_directory(spec)
            &&& dir.len() == spec.entries() * 32
            &&& cpm_model::directory_bytes(image, spec) == dir.take(cpm_blocks::shown_len(spec))
            &&& cpm_model::directory_bytes(after, spec) == written(after, spec).take(cpm_blocks::shown_len(spec))
            &&& spec.sectors_per_track > 0
            &&& forall|x: int| #[trigger] cpm_sectors::plain(after, spec, x) == cpm_sectors::plain(image, spec, x)
            &&& forall|x: int| #[trigger] cpm_edit::address(after, spec, x) == cpm_edit::address(image, spec, x)
            &&& cpm_edit::directory_at(after, spec) is Ok
            &&& written(after, spec) == cpm_edit::without(dir, user, raw)
            &&& forall|x: int|
                spec.first_sector() + cpm_edit::directory_sectors(spec) <= x && cpm_sectors::reached(spec, x)
                    ==> #[trigger] cpm_model::sector_at(after, spec, x) == cpm_model::sector_at(image, spec, x)
        }),
{
    let spec = specification::identified(image);
    let ss = spec.sector_size as int;
    let (user, raw) = names::cpm_key(name)->Ok_0;
    lemma_user(name);
    let (addresses, dir) = cpm_edit::directory_at(image, spec)->Ok_0;
    cpm_blocks::lemma_directory_at(image, spec);
    let dir1 = cpm_edit::without(dir, user, raw);
    let n = addresses.len() as int;
    cpm_blocks::lemma_put(image, spec, addresses, dir1, n);
    cpm_blocks::lemma_directory_bytes(after, spec, dir1);
    lemma_written(image, after, spec, addresses, dir1);
    assert(n >= 1) by (nonlinear_arith)
        requires
            dir.len() == n * ss,
            dir.len() != 0,
            n >= 0,
    ;
    assert(dir.len() >= ss) by (nonlinear_arith)
        requires
            dir.len() == n * ss,
            n >= 1,
            ss >= 0,
    ;
    cpm_entries::lemma_raw_plain(name);
    assert(cpm_sectors::reached(spec, spec.first_sector()));
    lemma_boot_slot_kept(image, after, name, dir, dir1);
}

/// The first slot of a directory that holds a boot record belongs to no file.
proof fn lemma_boot_slot_kept(image: ImageView, after: ImageView, name: Seq<char>, dir: Seq<u8>, dir1: Seq<u8>)
    requires
        names::cpm_key(name) is Ok,
        dir1 == cpm_edit::without(dir, names::cpm_key(name)->Ok_0.0, names::cpm_key(name)->Ok_0.1),
        laws::same_layout(image, after),
        laws::same_sizes(image, after),
        ({
            let spec = specification::identified(image);
            let ss = spec.sector_size as int;
            &&& spec.reserved_tracks > 0 ==> after.track(0, 0) == image.track(0, 0)
            &&& ss > 0
            &&& cpm_sectors::reached(spec, spec.first_sector())
            &&& cpm_model::sector_at(image, spec, spec.first_sector()) == Some(cpm_blocks::piece(dir, ss, 0))
            &&& cpm_model::sector_at(after, spec, spec.first_sector()) == Some(cpm_blocks::piece(dir1, ss, 0))
            &&& dir.len() >= ss
            &&& dir.len() >= 32
        }),
    ensures
        specification::identified(after) == specification::identified(image),
{
    let spec = specification::identified(image);
    let ss = spec.sector_size as int;
    let (user, raw) = names::cpm_key(name)->Ok_0;
    if let Some(t) = image.track(0, 0) {
        if t.sectors.len() > 0 && spec.reserved_tracks == 0 && t.by_id()[0].id.sector < 0x41 {
            assert(laws::same_disk_layout(image.disks[0], after.disks[0]));
            assert(laws::same_track_layout(t, after.disks[0].tracks[0]));
            lemma_first_sector(image, spec);
            lemma_first_sector(after, spec);
            let d = t.by_id()[0].data;
            let e = after.track(0, 0).unwrap().by_id()[0].data;
            assert(ss * 0 == 0);
            assert(specification::boot_record(d));
            cpm_entries::lemma_raw_plain(name);
            assert(d[1] == dir[1]);
            assert(!cpm_edit::matches(cpm_edit::slot(dir, 0), user, raw)) by {
                let first: int = 0;
                assert(cpm_edit::slot(dir, 0)[first + 1] == dir[1]);
                assert(raw[first] > 2);
            }
            cpm_entries::lemma_slot_without(dir, user, raw, 0);
            assert forall|i: int| 0 <= i < 10 implies d[i] == e[i] by {
                assert(d[i] == dir[i]);
                assert(e[i] == dir1[i]);
                assert(cpm_edit::slot(dir, 0)[i] == dir[i]);
                assert(cpm_edit::slot(dir1, 0)[i] == dir1[i]);
            }
        }
    }
    lemma_identified_kept(image, after);
}

/// Whether all directory slots that are listed under the name of a file are found by that name:
/// no name in the directory begins with a blank or holds a zero.
pub open spec fn listed_plainly(image: ImageView, name: Seq<char>) -> bool {
    let spec = specification::identified(image);
    let dir = cpm_model::directory_bytes(image, spec);
    let (user, raw) = names::cpm_key(name)->Ok_0;
    forall|i: int|
        0 <= i < dir.len() / 32 && (cpm_model::entry_of(#[trigger] cpm_edit::slot(dir, i), i, false) matches Some(e) && e.valid(spec)
            && e.key() == cpm_entries::new_key(name)) ==> cpm_edit::matches(cpm_edit::slot(dir, i), user, raw)
}

/// A file that has been removed is not found any more.
pub proof fn law_delete_then_absent(image: ImageView, name: Seq<char>, after: ImageView, read_name: Seq<char>, include_header: bool)
    requires
        cpm_edit::deleted(image, name) == Ok::<ImageView, ErrorView>(after),
        sound(image),
        cpm_model::key_of_name(read_name) == Ok::<FileKey, ErrorView>(cpm_entries::new_key(name)),
        listed_plainly(image, name),
    ensures
        reread(after, read_name, include_header) == Err::<Seq<u8>, ErrorView>(ErrorView::FileNotFound(read_name)),
{
    let spec = specification::identified(image);
    let (user, raw) = names::cpm_key(name)->Ok_0;
    let dir = written(image, spec);
    let slots = cpm_blocks::shown_slots(spec);
    lemma_deleted(image, name, after);
    cpm_blocks::lemma_shown_len(spec);
    cpm_blocks::lemma_shown_entries(after, spec, written(after, spec), false);
    let shown = cpm_model::directory_bytes(image, spec);
    assert forall|i: int|
        0 <= i < slots && (cpm_model::entry_of(#[trigger] cpm_edit::slot(dir, i), i, false) matches Some(e) && e.valid(spec)
            && e.key() == cpm_entries::new_key(name)) implies cpm_edit::matches(cpm_edit::slot(dir, i), user, raw) by {
        assert(cpm_edit::slot(shown, i) =~= cpm_edit::slot(dir, i));
    }
    cpm_entries::lemma_removed(spec, dir, name, user, raw, slots);
    lemma_no_extents(cpm_model::directory(after, spec, false), cpm_entries::new_key(name));
}

/// Removing a file leaves the content of every other file as it was, as long as that lies in
/// blocks of its own.
pub proof fn law_delete_leaves_others(image: ImageView, name: Seq<char>, after: ImageView, other: Seq<char>, include_header: bool)
    requires
        cpm_edit::deleted(image, name) == Ok::<ImageView, ErrorView>(after),
        sound(image),
        cpm_model::key_of_name(other) matches Ok(key) && key != cpm_entries::new_key(name) && own_blocks(image, key),
    ensures
        reread(after, other, include_header) == reread(image, other, include_header),
{
    let key = cpm_model::key_of_name(other)->Ok_0;
    let spec = specification::identified(image);
    let (user, raw) = names::cpm_key(name)->Ok_0;
    let dir = written(image, spec);
    lemma_deleted(image, name, after);
    cpm_blocks::lemma_shown_len(spec);
    cpm_blocks::lemma_shown_entries(image, spec, dir, false);
    cpm_blocks::lemma_shown_entries(after, spec, written(after, spec), false);
    cpm_entries::lemma_others_removed(spec, dir, name, user, raw, key, cpm_blocks::shown_slots(spec));
    let old = cpm_model::directory(image, spec, false);
    let ext = cpm_model::extents(old, key);
    assert(cpm_model::extents(cpm_model::directory(after, spec, false), key) == ext);
    assert forall|k: int, j: int| 0 <= k < ext.len() && 0 <= j < ext[k].file_blocks(spec).len() implies same_block(
        after,
        image,
        spec,
        #[trigger] ext[k].file_blocks(spec)[j] as int,
    ) by {
        let b = ext[k].file_blocks(spec)[j] as int;
        assert forall|x: int| cpm_blocks::in_block(spec, b, x) implies #[trigger] cpm_model::sector_at(after, spec, x)
            == cpm_model::sector_at(image, spec, x) by {
            assert(own_block(spec, b));
        }
    }
    lemma_same_extents(after, image, spec, ext, ext.len() as int);
}

}
