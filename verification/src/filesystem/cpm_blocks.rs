//! Blocks of a CP/M disk: where they lie, and what is read after files and directories have
//! been written.

use crate::error::ErrorView;
use crate::filesystem::cpm_edit;
use crate::filesystem::cpm_edit::Address;
use crate::filesystem::cpm_model;
use crate::filesystem::cpm_sectors;
use crate::image::laws;
use crate::image::ImageView;
use crate::specification;
use crate::specification::DiskSpecification;
use vstd::prelude::*;

verus! {

/// Whether blocks consist of whole sectors.
pub open spec fn whole_blocks(spec: DiskSpecification) -> bool {
    &&& spec.sector_size > 0
    &&& spec.block_bytes() >= spec.sector_size
    &&& spec.block_bytes() % (spec.sector_size as int) == 0
}

/// The sizes of blocks and of the directory in sectors.
pub proof fn lemma_sizes(spec: DiskSpecification)
    requires
        whole_blocks(spec),
    ensures
        cpm_model::sectors_per_block(spec) >= 1,
        cpm_model::sectors_per_block(spec) * spec.sector_size == spec.block_bytes(),
        spec.entries() * 32 == spec.directory_blocks * spec.block_bytes(),
        (spec.entries() * 32) % (spec.sector_size as int) == 0,
        cpm_edit::directory_sectors(spec) == spec.directory_blocks * cpm_model::sectors_per_block(spec),
        cpm_edit::directory_sectors(spec) * spec.sector_size == spec.entries() * 32,
{
    let ss = spec.sector_size as int;
    let bb = spec.block_bytes();
    let spb = cpm_model::sectors_per_block(spec);
    let d = spec.directory_blocks as int;
    vstd::arithmetic::div_mod::lemma_fundamental_div_mod(bb, ss);
    assert(bb == ss * spb);
    assert(spb >= 1 && spb * ss == bb) by (nonlinear_arith)
        requires
            bb == ss * spb,
            bb >= ss,
            ss > 0,
    ;
    let q = bb / 32;
    assert(d * bb == 32 * (d * q)) by (nonlinear_arith)
        requires
            bb == 32 * q,
    ;
    assert(d * bb == (d * spb) * ss) by (nonlinear_arith)
        requires
            bb == spb * ss,
    ;
    vstd::arithmetic::div_mod::lemma_div_multiples_vanish(d * spb, ss);
    vstd::arithmetic::mul::lemma_mul_is_commutative(d * spb, ss);
    vstd::arithmetic::div_mod::lemma_mod_multiples_basic(d * spb, ss);
}

/// The sectors of a block lie on the disk.
pub proof fn lemma_block_on_disk(spec: DiskSpecification, b: int, j: int)
    requires
        whole_blocks(spec),
        0 <= b < spec.blocks(),
        0 <= j < cpm_model::sectors_per_block(spec),
    ensures
        cpm_sectors::on_disk(spec, cpm_model::block_start(spec, b) + j),
{
    lemma_sizes(spec);
    lemma_blocks_fit(spec);
    let spb = cpm_model::sectors_per_block(spec);
    let n = spec.blocks();
    assert(0 <= b * spb && b * spb + j < n * spb) by (nonlinear_arith)
        requires
            0 <= b <= n - 1,
            0 <= j < spb,
    ;
}

/// All blocks lie on the disk.
pub proof fn lemma_blocks_fit(spec: DiskSpecification)
    requires
        whole_blocks(spec),
        spec.blocks() > 0,
    ensures
        spec.first_sector() + spec.blocks() * cpm_model::sectors_per_block(spec) <= spec.last_sector(),
{
    lemma_sizes(spec);
    let ss = spec.sector_size as int;
    let bb = spec.block_bytes();
    let spb = cpm_model::sectors_per_block(spec);
    let n = spec.blocks();
    let spt = spec.sectors_per_track as int;
    let tracks = spec.tracks() - spec.reserved_tracks;
    let s = tracks * spt;
    assert(n <= s * ss / bb);
    vstd::arithmetic::div_mod::lemma_fundamental_div_mod(s * ss, bb);
    assert(n * bb <= s * ss) by (nonlinear_arith)
        requires
            n <= s * ss / bb,
            s * ss == bb * (s * ss / bb) + (s * ss) % bb,
            0 <= (s * ss) % bb,
            bb > 0,
    ;
    assert(n * spb <= s) by (nonlinear_arith)
        requires
            n * bb <= s * ss,
            bb == spb * ss,
            ss > 0,
    ;
    assert(spec.reserved_tracks * spt + tracks * spt == spec.tracks() * spt) by (nonlinear_arith)
        requires
            tracks == spec.tracks() - spec.reserved_tracks,
    ;
}

/// Whether a logical sector belongs to a block.
pub open spec fn in_block(spec: DiskSpecification, b: int, x: int) -> bool {
    cpm_model::block_start(spec, b) <= x < cpm_model::block_start(spec, b) + cpm_model::sectors_per_block(spec)
}

/// Different blocks have no sector in common.
pub proof fn lemma_blocks_apart(spec: DiskSpecification, a: int, b: int, x: int)
    requires
        whole_blocks(spec),
        in_block(spec, a, x),
        in_block(spec, b, x),
    ensures
        a == b,
{
    lemma_sizes(spec);
    let spb = cpm_model::sectors_per_block(spec);
    assert(a == b) by (nonlinear_arith)
        requires
            a * spb < b * spb + spb,
            b * spb < a * spb + spb,
            spb >= 1,
    ;
}

/// Whether a list of blocks can take a file: blocks of the disk behind the directory, none of
/// them twice.
pub open spec fn usable(spec: DiskSpecification, free: Seq<u16>) -> bool {
    &&& forall|i: int| 0 <= i < free.len() ==> spec.directory_blocks <= #[trigger] free[i] < spec.blocks() && free[i] > 0
    &&& forall|i: int, j: int| 0 <= i < j < free.len() ==> #[trigger] free[i] < #[trigger] free[j]
}

/// The free blocks of a disk can take a file.
pub proof fn lemma_free_usable(spec: DiskSpecification, dir: Seq<u8>, n: int)
    requires
        n <= 65535,
    ensures
        forall|i: int| 0 <= i < cpm_edit::free_to(spec, dir, n).len() ==> {
            let b = #[trigger] cpm_edit::free_to(spec, dir, n)[i];
            1 <= b < n && spec.directory_blocks <= b && !cpm_edit::taken_to(spec, dir, dir.len() as int / 32, b as int)
        },
        forall|i: int, j: int|
            0 <= i < j < cpm_edit::free_to(spec, dir, n).len() ==> #[trigger] cpm_edit::free_to(spec, dir, n)[i]
                < #[trigger] cpm_edit::free_to(spec, dir, n)[j],
        n >= 1 ==> cpm_edit::free_to(spec, dir, n).len() < n,
    decreases n,
{
    if n > 1 {
        lemma_free_usable(spec, dir, n - 1);
    }
}

/// Whether a file in the given blocks leaves a logical sector alone.
pub open spec fn outside(spec: DiskSpecification, free: Seq<u16>, x: int) -> bool {
    forall|i: int| 0 <= i < free.len() ==> !in_block(spec, #[trigger] free[i] as int, x)
}

/// Whether all sectors of a list of blocks are found by their ID numbers.
pub open spec fn plain_blocks(image: ImageView, spec: DiskSpecification, free: Seq<u16>) -> bool {
    forall|x: int| !outside(spec, free, x) ==> #[trigger] cpm_sectors::plain(image, spec, x)
}

/// The place of sector `n` of a file.
pub proof fn lemma_file_sector(spec: DiskSpecification, free: Seq<u16>, n: int)
    requires
        whole_blocks(spec),
        usable(spec, free),
        0 <= n < free.len() * cpm_model::sectors_per_block(spec),
    ensures
        0 <= n / cpm_model::sectors_per_block(spec) < free.len(),
        in_block(spec, free[n / cpm_model::sectors_per_block(spec)] as int, cpm_edit::file_sector(spec, free, n)),
        cpm_sectors::on_disk(spec, cpm_edit::file_sector(spec, free, n)),
        0 <= n % cpm_model::sectors_per_block(spec) < cpm_model::sectors_per_block(spec),
{
    lemma_sizes(spec);
    let spb = cpm_model::sectors_per_block(spec);
    vstd::arithmetic::mul::lemma_mul_is_commutative(free.len() as int, spb);
    vstd::arithmetic::div_mod::lemma_multiply_divide_lt(n, spb, free.len() as int);
    vstd::arithmetic::div_mod::lemma_div_pos_is_pos(n, spb);
    vstd::arithmetic::div_mod::lemma_fundamental_div_mod(n, spb);
    lemma_block_on_disk(spec, free[n / spb] as int, n % spb);
}

/// Different sectors of a file lie in different places.
pub proof fn lemma_file_sectors_differ(spec: DiskSpecification, free: Seq<u16>, m: int, n: int)
    requires
        whole_blocks(spec),
        usable(spec, free),
        0 <= m < n < free.len() * cpm_model::sectors_per_block(spec),
    ensures
        cpm_edit::file_sector(spec, free, m) != cpm_edit::file_sector(spec, free, n),
{
    lemma_file_sector(spec, free, m);
    lemma_file_sector(spec, free, n);
    let spb = cpm_model::sectors_per_block(spec);
    vstd::arithmetic::div_mod::lemma_fundamental_div_mod(m, spb);
    vstd::arithmetic::div_mod::lemma_fundamental_div_mod(n, spb);
    if cpm_edit::file_sector(spec, free, m) == cpm_edit::file_sector(spec, free, n) {
        lemma_blocks_apart(
            spec,
            free[m / spb] as int,
            free[n / spb] as int,
            cpm_edit::file_sector(spec, free, m),
        );
        if m / spb < n / spb {
            assert(free[m / spb] < free[n / spb]);
        } else if n / spb < m / spb {
            assert(free[n / spb] < free[m / spb]);
        }
    }
}

/// What is read after the first `n` sectors of a file have been written.
pub proof fn lemma_stored(image: ImageView, spec: DiskSpecification, free: Seq<u16>, data: Seq<u8>, n: int)
    requires
        whole_blocks(spec),
        plain_blocks(image, spec, free),
        usable(spec, free),
        0 <= n <= free.len() * cpm_model::sectors_per_block(spec),
    ensures
        cpm_edit::stored_to(image, spec, free, data, n) matches Ok(after) ==> {
            &&& laws::same_layout(image, after)
            &&& laws::same_sizes(image, after)
            &&& spec.reserved_tracks > 0 ==> after.track(0, 0) == image.track(0, 0)
            &&& forall|x: int| #[trigger] cpm_sectors::plain(after, spec, x) == cpm_sectors::plain(image, spec, x)
            &&& forall|x: int| #[trigger] cpm_edit::address(after, spec, x) == cpm_edit::address(image, spec, x)
            &&& forall|m: int| 0 <= m < n ==> cpm_model::sector_at(after, spec, #[trigger] cpm_edit::file_sector(spec, free, m))
                == Some(cpm_edit::file_sector_bytes(data, spec.sector_size as int, m))
            &&& forall|x: int|
                cpm_sectors::reached(spec, x) && outside(spec, free, x) ==> #[trigger] cpm_model::sector_at(after, spec, x)
                    == cpm_model::sector_at(image, spec, x)
        },
    decreases n,
{
    cpm_sectors::lemma_disk_reached(spec);
    if n <= 0 {
        laws::lemma_same_layout_reflexive(image);
    } else {
        lemma_stored(image, spec, free, data, n - 1);
        if let Ok(after) = cpm_edit::stored_to(image, spec, free, data, n) {
            let before = cpm_edit::stored_to(image, spec, free, data, n - 1)->Ok_0;
            let x = cpm_edit::file_sector(spec, free, n - 1);
            let bytes = cpm_edit::file_sector_bytes(data, spec.sector_size as int, n - 1);
            lemma_file_sector(spec, free, n - 1);
            assert(!outside(spec, free, x));
            assert(cpm_sectors::plain(image, spec, x));
            cpm_sectors::lemma_write(before, after, spec, x, bytes);
            laws::lemma_same_layout_chain(image, before, after);
            laws::lemma_same_sizes_chain(image, before, after);
            assert forall|m: int| 0 <= m < n implies cpm_model::sector_at(
                after,
                spec,
                #[trigger] cpm_edit::file_sector(spec, free, m),
            ) == Some(cpm_edit::file_sector_bytes(data, spec.sector_size as int, m)) by {
                if m < n - 1 {
                    lemma_file_sector(spec, free, m);
                    lemma_file_sectors_differ(spec, free, m, n - 1);
                }
            }
            assert forall|y: int| cpm_sectors::reached(spec, y) && outside(spec, free, y) implies #[trigger] cpm_model::sector_at(
                after,
                spec,
                y,
            ) == cpm_model::sector_at(image, spec, y) by {
                assert(!in_block(spec, free[(n - 1) / cpm_model::sectors_per_block(spec)] as int, y));
                assert(y != x);
            }
        }
    }
}

/// Piece `i` of a sequence of bytes.
pub open spec fn piece(dir: Seq<u8>, size: int, i: int) -> Seq<u8> {
    dir.subrange(size * i, size * i + size)
}

/// What is read after a sector of known address has been written.
pub proof fn lemma_put_one(image: ImageView, spec: DiskSpecification, a: Address, x: int, data: Seq<u8>)
    requires
        cpm_sectors::plain(image, spec, x),
        cpm_sectors::reached(spec, x),
        cpm_edit::address(image, spec, x) == Ok::<Address, ErrorView>(a),
        data.len() == spec.sector_size,
    ensures
        image.write(a.0, a.1, a.2, data) matches Ok(after) && {
            &&& laws::same_layout(image, after)
            &&& laws::same_sizes(image, after)
            &&& spec.reserved_tracks > 0 ==> after.track(0, 0) == image.track(0, 0)
            &&& forall|x: int| #[trigger] cpm_sectors::plain(after, spec, x) == cpm_sectors::plain(image, spec, x)
            &&& cpm_model::sector_at(after, spec, x) == Some(data)
            &&& forall|y: int| cpm_sectors::reached(spec, y) && y != x ==> #[trigger] cpm_model::sector_at(after, spec, y)
                == cpm_model::sector_at(image, spec, y)
            &&& forall|y: int| #[trigger] cpm_edit::address(after, spec, y) == cpm_edit::address(image, spec, y)
        },
{
    cpm_sectors::lemma_address(image, spec, x);
    assert(image.sector(a.0 as int, a.1 as int, a.2) is Some);
    let after = image.write(a.0, a.1, a.2, data)->Ok_0;
    cpm_sectors::lemma_write(image, after, spec, x, data);
}

/// What is read after the first `n` sectors of the directory have been written.
pub proof fn lemma_put(image: ImageView, spec: DiskSpecification, addresses: Seq<Address>, dir: Seq<u8>, n: int)
    requires
        spec.sector_size > 0,
        forall|x: int| spec.first_sector() <= x < spec.first_sector() + addresses.len() ==> #[trigger] cpm_sectors::plain(image, spec, x),
        0 <= n <= addresses.len(),
        dir.len() == addresses.len() * spec.sector_size,
        forall|i: int| 0 <= i < addresses.len() ==> cpm_edit::address(image, spec, spec.first_sector() + i)
            == Ok::<Address, ErrorView>(#[trigger] addresses[i]),
        forall|x: int| spec.first_sector() <= x < spec.first_sector() + addresses.len() ==> #[trigger] cpm_sectors::reached(spec, x),
    ensures
        cpm_edit::put_to(image, addresses, dir, spec.sector_size as int, n) matches Ok(after) && {
            &&& laws::same_layout(image, after)
            &&& laws::same_sizes(image, after)
            &&& spec.reserved_tracks > 0 ==> after.track(0, 0) == image.track(0, 0)
            &&& forall|x: int| #[trigger] cpm_sectors::plain(after, spec, x) == cpm_sectors::plain(image, spec, x)
            &&& forall|x: int| #[trigger] cpm_edit::address(after, spec, x) == cpm_edit::address(image, spec, x)
            &&& forall|x: int|
                spec.first_sector() <= x < spec.first_sector() + n ==> #[trigger] cpm_model::sector_at(after, spec, x) == Some(
                    piece(dir, spec.sector_size as int, x - spec.first_sector()),
                )
            &&& forall|x: int|
                spec.first_sector() + n <= x && cpm_sectors::reached(spec, x) ==> #[trigger] cpm_model::sector_at(after, spec, x)
                    == cpm_model::sector_at(image, spec, x)
        },
    decreases n,
{
    let ss = spec.sector_size as int;
    if n <= 0 {
        laws::lemma_same_layout_reflexive(image);
    } else {
        lemma_put(image, spec, addresses, dir, n - 1);
        let before = cpm_edit::put_to(image, addresses, dir, ss, n - 1)->Ok_0;
        let first = spec.first_sector();
        let x = first + (n - 1);
        let a = addresses[n - 1];
        assert(cpm_edit::address(image, spec, first + (n - 1)) == Ok::<Address, ErrorView>(a));
        assert(0 <= ss * (n - 1) && ss * (n - 1) + ss <= dir.len()) by (nonlinear_arith)
            requires
                1 <= n <= addresses.len(),
                dir.len() == addresses.len() * ss,
                ss > 0,
        ;
        let data = piece(dir, ss, n - 1);
        assert(cpm_edit::address(before, spec, x) == Ok::<Address, ErrorView>(a));
        assert(cpm_sectors::plain(image, spec, x));
        lemma_put_one(before, spec, a, x, data);
        let after = before.write(a.0, a.1, a.2, data)->Ok_0;
        assert(cpm_edit::put_to(image, addresses, dir, ss, n) == Ok::<ImageView, ErrorView>(after));
        laws::lemma_same_layout_chain(image, before, after);
        laws::lemma_same_sizes_chain(image, before, after);
        assert forall|y: int| first <= y < first + n implies #[trigger] cpm_model::sector_at(after, spec, y) == Some(
            piece(dir, ss, y - first),
        ) by {
            if y != x {
                assert(cpm_sectors::reached(spec, y));
                assert(cpm_model::sector_at(before, spec, y) == Some(piece(dir, ss, y - first)));
            }
        }
    }
}

/// The bytes of consecutive sectors of the same size.
pub proof fn lemma_span(image: ImageView, spec: DiskSpecification, dir: Seq<u8>, n: int)
    requires
        0 <= n,
        dir.len() >= n * spec.sector_size,
        forall|x: int|
            spec.first_sector() <= x < spec.first_sector() + n ==> #[trigger] cpm_model::sector_at(image, spec, x) == Some(piece(dir, spec.sector_size as int, x - spec.first_sector())),
    ensures
        cpm_model::span(image, spec, spec.first_sector(), spec.first_sector() + n) == dir.take(n * spec.sector_size),
    decreases n,
{
    let ss = spec.sector_size as int;
    let first = spec.first_sector();
    if n <= 0 {
        assert(n * ss == 0) by (nonlinear_arith)
            requires
                n == 0,
        ;
        assert(dir.take(0) =~= Seq::<u8>::empty());
    } else {
        assert((n - 1) * ss + ss == n * ss && ss * (n - 1) == (n - 1) * ss && 0 <= (n - 1) * ss) by (nonlinear_arith)
            requires
                n >= 1,
                ss >= 0,
        ;
        lemma_span(image, spec, dir, n - 1);
        let x = first + n - 1;
        assert(cpm_model::sector_at(image, spec, x) == Some(piece(dir, ss, n - 1)));
        assert(dir.take((n - 1) * ss) + dir.subrange(ss * (n - 1), ss * (n - 1) + ss) =~= dir.take(n * ss));
    }
}

/// More sectors only add to the end.
pub proof fn lemma_span_extends(image: ImageView, spec: DiskSpecification, from: int, a: int, b: int)
    requires
        from <= a <= b,
    ensures
        cpm_model::span(image, spec, from, a).len() <= cpm_model::span(image, spec, from, b).len(),
        cpm_model::span(image, spec, from, b).take(cpm_model::span(image, spec, from, a).len() as int)
            == cpm_model::span(image, spec, from, a),
    decreases b - a,
{
    let part = cpm_model::span(image, spec, from, a);
    let whole = cpm_model::span(image, spec, from, b);
    if a < b {
        lemma_span_extends(image, spec, from, a, b - 1);
        let most = cpm_model::span(image, spec, from, b - 1);
        assert(whole.take(part.len() as int) =~= most.take(part.len() as int));
    } else {
        assert(whole.take(part.len() as int) =~= part);
    }
}

/// Whether the directory consists of whole sectors.
pub open spec fn whole_directory(spec: DiskSpecification) -> bool {
    spec.sector_size > 0 && (spec.entries() * 32) % (spec.sector_size as int) == 0
}

/// Whether all sectors of the directory are reached.
pub open spec fn reached_directory(spec: DiskSpecification) -> bool {
    forall|x: int|
        spec.first_sector() <= x < spec.first_sector() + cpm_edit::directory_sectors(spec) ==> #[trigger] cpm_sectors::reached(spec, x)
}

/// Whether the directory does not reach beyond the disk.
pub open spec fn directory_on_disk(spec: DiskSpecification) -> bool {
    spec.first_sector() + cpm_edit::directory_sectors(spec) <= spec.last_sector()
}

/// The number of bytes of the directory that lie on the disk. Only they are read.
pub open spec fn shown_len(spec: DiskSpecification) -> int {
    if directory_on_disk(spec) {
        spec.entries() * 32
    } else if spec.last_sector() <= spec.first_sector() {
        0
    } else {
        (spec.last_sector() - spec.first_sector()) * spec.sector_size
    }
}

/// The number of directory slots that lie on the disk.
pub open spec fn shown_slots(spec: DiskSpecification) -> int {
    shown_len(spec) / 32
}

/// A directory on the disk is reached.
pub proof fn lemma_directory_reached(spec: DiskSpecification)
    requires
        directory_on_disk(spec),
    ensures
        reached_directory(spec),
{
    cpm_sectors::lemma_disk_reached(spec);
}

/// No more of the directory lies on the disk than there is.
pub proof fn lemma_shown_len(spec: DiskSpecification)
    requires
        whole_directory(spec),
    ensures
        0 <= shown_len(spec) <= spec.entries() * 32,
        0 <= shown_slots(spec) <= spec.entries(),
{
    lemma_directory_sectors(spec);
    specification::lemma_entries_bound(spec);
    let ss = spec.sector_size as int;
    let n = cpm_edit::directory_sectors(spec);
    let m = spec.last_sector() - spec.first_sector();
    if !directory_on_disk(spec) && m > 0 {
        assert(0 <= m * ss <= n * ss) by (nonlinear_arith)
            requires
                0 <= m <= n,
                ss >= 0,
        ;
    }
}

/// The entries in the slots of a directory that lie on the disk.
pub proof fn lemma_shown_entries(image: ImageView, spec: DiskSpecification, dir: Seq<u8>, include_deleted: bool)
    requires
        whole_directory(spec),
        dir.len() == spec.entries() * 32,
        cpm_model::directory_bytes(image, spec) == dir.take(shown_len(spec)),
    ensures
        cpm_model::directory(image, spec, include_deleted) == cpm_model::entries_to(dir, spec, include_deleted, shown_slots(spec)),
{
    lemma_shown_len(spec);
    lemma_entries_prefix(dir, shown_len(spec), spec, include_deleted, shown_slots(spec));
}

/// Entries are those of their slots, whatever lies behind.
proof fn lemma_entries_prefix(dir: Seq<u8>, len: int, spec: DiskSpecification, include_deleted: bool, n: int)
    requires
        0 <= len <= dir.len(),
        0 <= n <= len / 32,
    ensures
        cpm_model::entries_to(dir.take(len), spec, include_deleted, n) == cpm_model::entries_to(dir, spec, include_deleted, n),
    decreases n,
{
    if n > 0 {
        lemma_entries_prefix(dir, len, spec, include_deleted, n - 1);
        assert(dir.take(len).subrange(32 * (n - 1), 32 * n) =~= dir.subrange(32 * (n - 1), 32 * n));
    }
}

/// The size of the directory in sectors.
pub proof fn lemma_directory_sectors(spec: DiskSpecification)
    requires
        whole_directory(spec),
    ensures
        cpm_edit::directory_sectors(spec) >= 0,
        cpm_edit::directory_sectors(spec) * spec.sector_size == spec.entries() * 32,
{
    let ss = spec.sector_size as int;
    let size = spec.entries() * 32;
    specification::lemma_entries_bound(spec);
    vstd::arithmetic::div_mod::lemma_fundamental_div_mod(size, ss);
    vstd::arithmetic::div_mod::lemma_div_pos_is_pos(size, ss);
    vstd::arithmetic::mul::lemma_mul_is_commutative(ss, size / ss);
}

/// The directory, where its sectors hold the bytes `dir`.
pub proof fn lemma_directory_bytes(image: ImageView, spec: DiskSpecification, dir: Seq<u8>)
    requires
        whole_directory(spec),
        dir.len() == spec.entries() * 32,
        forall|x: int|
            spec.first_sector() <= x < spec.first_sector() + cpm_edit::directory_sectors(spec)
                ==> #[trigger] cpm_model::sector_at(image, spec, x) == Some(piece(dir, spec.sector_size as int, x - spec.first_sector())),
    ensures
        cpm_model::directory_bytes(image, spec) == dir.take(shown_len(spec)),
        directory_on_disk(spec) ==> cpm_model::directory_bytes(image, spec) == dir,
{
    lemma_directory_sectors(spec);
    lemma_shown_len(spec);
    let n = cpm_edit::directory_sectors(spec);
    let first = spec.first_sector();
    let all = cpm_model::span(image, spec, first, spec.last_sector());
    assert(dir.take(dir.len() as int) =~= dir);
    if directory_on_disk(spec) {
        lemma_span(image, spec, dir, n);
        lemma_span_extends(image, spec, first, first + n, spec.last_sector());
        if all.len() <= dir.len() {
            assert(all.take(dir.len() as int) =~= all);
        }
    } else if spec.last_sector() <= first {
        assert(dir.take(0) =~= Seq::<u8>::empty());
    } else {
        let m = spec.last_sector() - first;
        assert(m * spec.sector_size <= dir.len());
        lemma_span(image, spec, dir, m);
    }
}

/// Whether all sectors of the directory are found by their ID numbers.
pub open spec fn plain_directory(image: ImageView, spec: DiskSpecification) -> bool {
    forall|x: int|
        spec.first_sector() <= x < spec.first_sector() + cpm_edit::directory_sectors(spec) ==> #[trigger] cpm_sectors::plain(image, spec, x)
}

/// The directory that is changed is the directory that is read.
pub proof fn lemma_directory_at(image: ImageView, spec: DiskSpecification)
    requires
        plain_directory(image, spec),
        reached_directory(spec),
    ensures
        cpm_edit::directory_at(image, spec) matches Ok((addresses, dir)) ==> {
            &&& whole_directory(spec)
            &&& cpm_model::directory_bytes(image, spec) == dir.take(shown_len(spec))
            &&& directory_on_disk(spec) ==> cpm_model::directory_bytes(image, spec) == dir
            &&& addresses.len() == cpm_edit::directory_sectors(spec)
            &&& dir.len() == spec.entries() * 32
            &&& dir.len() == addresses.len() * spec.sector_size
            &&& forall|i: int| 0 <= i < addresses.len() ==> cpm_edit::address(image, spec, spec.first_sector() + i)
                == Ok::<Address, ErrorView>(#[trigger] addresses[i])
            &&& forall|x: int|
                spec.first_sector() <= x < spec.first_sector() + addresses.len() ==> #[trigger] cpm_model::sector_at(
                    image,
                    spec,
                    x,
                ) == Some(piece(dir, spec.sector_size as int, x - spec.first_sector()))
        },
{
    if let Ok((addresses, dir)) = cpm_edit::directory_at(image, spec) {
        lemma_directory_sectors(spec);
        let ss = spec.sector_size as int;
        let n = cpm_edit::directory_sectors(spec);
        let first = spec.first_sector();
        cpm_edit::lemma_addresses(image, spec, first, n);
        assert forall|x: int| first <= x < first + n implies #[trigger] cpm_model::sector_at(image, spec, x) == Some(
            piece(dir, ss, x - first),
        ) by {
            let i = x - first;
            assert(cpm_edit::address(image, spec, first + i) == Ok::<Address, ErrorView>(addresses[i]));
            assert(cpm_sectors::plain(image, spec, x));
            assert(cpm_sectors::reached(spec, x));
            cpm_sectors::lemma_address(image, spec, x);
            lemma_bytes_piece(image, spec, addresses, i, n);
        }
        lemma_directory_bytes(image, spec, dir);
    }
}

/// Sectors that lie in the same places have the same addresses.
pub proof fn lemma_same_addresses(a: ImageView, b: ImageView, spec: DiskSpecification, first: int, n: int)
    requires
        forall|x: int| #[trigger] cpm_edit::address(a, spec, x) == cpm_edit::address(b, spec, x),
    ensures
        cpm_edit::addresses_to(a, spec, first, n) == cpm_edit::addresses_to(b, spec, first, n),
    decreases n,
{
    if n > 0 {
        lemma_same_addresses(a, b, spec, first, n - 1);
    }
}

/// Bytes are the same where all their pieces are.
pub proof fn lemma_same_pieces(a: Seq<u8>, b: Seq<u8>, size: int, n: int)
    requires
        size > 0,
        a.len() == n * size,
        b.len() == n * size,
        forall|i: int| 0 <= i < n ==> #[trigger] piece(a, size, i) == piece(b, size, i),
    ensures
        a == b,
{
    assert forall|k: int| 0 <= k < a.len() implies a[k] == b[k] by {
        let i = k / size;
        let j = k % size;
        vstd::arithmetic::div_mod::lemma_fundamental_div_mod(k, size);
        assert(0 <= i < n && 0 <= size * i && size * i + size <= n * size) by (nonlinear_arith)
            requires
                0 <= k < n * size,
                k == size * i + j,
                0 <= j < size,
        ;
        assert(piece(a, size, i) == piece(b, size, i));
        assert(piece(a, size, i)[j] == a[k]);
        assert(piece(b, size, i)[j] == b[k]);
    }
    assert(a =~= b);
}

/// A piece of the bytes at a list of addresses.
proof fn lemma_bytes_piece(image: ImageView, spec: DiskSpecification, addresses: Seq<Address>, i: int, n: int)
    requires
        0 <= i < n <= addresses.len(),
        forall|k: int| 0 <= k < addresses.len() ==> cpm_edit::data_at(image, #[trigger] addresses[k]).len() == spec.sector_size,
    ensures
        cpm_edit::bytes_to(image, addresses, n).len() == n * spec.sector_size,
        cpm_edit::bytes_to(image, addresses, n).subrange(spec.sector_size * i, spec.sector_size * i + spec.sector_size)
            == cpm_edit::data_at(image, addresses[i]),
    decreases n,
{
    let ss = spec.sector_size as int;
    let all = cpm_edit::bytes_to(image, addresses, n);
    let rest = cpm_edit::bytes_to(image, addresses, n - 1);
    assert((n - 1) * ss + ss == n * ss && ss * (n - 1) == (n - 1) * ss && 0 <= ss * i) by (nonlinear_arith)
        requires
            ss >= 0,
            i >= 0,
    ;
    if n - 1 > 0 {
        lemma_bytes_piece(image, spec, addresses, if i < n - 1 { i } else { 0 }, n - 1);
    } else {
        assert((n - 1) * ss == 0) by (nonlinear_arith)
            requires
                n == 1,
        ;
    }
    assert(cpm_edit::data_at(image, addresses[n - 1]).len() == ss);
    if i < n - 1 {
        assert(ss * i + ss <= (n - 1) * ss) by (nonlinear_arith)
            requires
                0 <= i < n - 1,
                ss >= 0,
        ;
        assert(all.subrange(ss * i, ss * i + ss) =~= rest.subrange(ss * i, ss * i + ss));
    } else {
        assert(all.subrange(ss * i, ss * i + ss) =~= cpm_edit::data_at(image, addresses[i]));
    }
}

}
