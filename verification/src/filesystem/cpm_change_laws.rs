//! Laws of changes to CP/M disks, byte by byte: what a new file takes, and what a removal marks.

use crate::bytes;
use crate::error::ErrorView;
use crate::filesystem::cpm_blocks;
use crate::filesystem::cpm_content_laws;
use crate::filesystem::cpm_edit;
use crate::filesystem::cpm_entries;
use crate::filesystem::cpm_laws;
use crate::filesystem::cpm_model;
use crate::filesystem::cpm_slot_laws;
use crate::filesystem::names;
use crate::image::ImageView;
use crate::specification;
use crate::specification::DiskSpecification;
use vstd::prelude::*;

verus! {

/// The number of free slots before slot `i`: those that start with 0xE5.
pub open spec fn free_before(dir: Seq<u8>, i: int) -> int
    decreases i,
{
    if i <= 0 {
        0
    } else {
        free_before(dir, i - 1) + (if dir[32 * (i - 1)] == 0xE5 { 1int } else { 0 })
    }
}

/// The number of blocks that one slot names: as many as it has places for, and no more than
/// make up 16 KiB.
pub open spec fn blocks_each(spec: DiskSpecification) -> int {
    let n = 16384int / spec.block_bytes();
    if n < cpm_slot_laws::places(cpm_slot_laws::wide(spec)) { n } else { cpm_slot_laws::places(cpm_slot_laws::wide(spec)) }
}

/// Whether slot `i` holds extent `k` of a file of `len` bytes in the given blocks: the user number
/// and the name, the extent number in bytes 12 and 14, the number of records in byte 15 and of
/// bytes in the last in byte 13, and the numbers of its blocks.
pub open spec fn extent_in(dir: Seq<u8>, spec: DiskSpecification, i: int, user: u8, raw: Seq<u8>, len: int, blocks: Seq<int>, k: int) -> bool {
    let whole = blocks_each(spec) * spec.block_bytes();
    let size = if len - k * whole < whole { len - k * whole } else { whole };
    &&& dir[32 * i] == user
    &&& forall|j: int| 0 <= j < 11 ==> dir[32 * i + 1 + j] == #[trigger] raw[j]
    &&& dir[32 * i + 12] == k % 32
    &&& dir[32 * i + 14] == k / 32
    &&& dir[32 * i + 13] == size % 128
    &&& dir[32 * i + 15] == (size + 127) / 128
    &&& forall|j: int|
        0 <= j < cpm_slot_laws::places(cpm_slot_laws::wide(spec)) ==> #[trigger] cpm_slot_laws::block_at(
            dir,
            cpm_slot_laws::wide(spec),
            i,
            j,
        ) == (if j < blocks_each(spec) && k * blocks_each(spec) + j < blocks.len() {
            blocks[k * blocks_each(spec) + j]
        } else {
            0
        })
}

/// Whether slot `i` is the same in two directories.
pub open spec fn same_slot(a: Seq<u8>, b: Seq<u8>, i: int) -> bool {
    forall|j: int| 32 * i <= j < 32 * i + 32 ==> #[trigger] a[j] == b[j]
}

/// Whether a slot that is not free names a block.
pub open spec fn named(dir: Seq<u8>, spec: DiskSpecification, i: int, b: int) -> bool {
    dir[32 * i] <= 31 && exists|k: int|
        0 <= k < cpm_slot_laws::places(cpm_slot_laws::wide(spec)) && #[trigger] cpm_slot_laws::block_at(
            dir,
            cpm_slot_laws::wide(spec),
            i,
            k,
        ) == b
}

/// Whether a block is free: it is not block 0, not one of the directory, and no slot names it.
pub open spec fn unnamed(dir: Seq<u8>, spec: DiskSpecification, b: int) -> bool {
    &&& 1 <= b < spec.blocks()
    &&& spec.directory_blocks <= b
    &&& forall|i: int| 0 <= i < dir.len() / 32 ==> !#[trigger] named(dir, spec, i, b)
}

/// Slots are counted alike.
pub proof fn lemma_free_before(dir: Seq<u8>, i: int)
    ensures
        free_before(dir, i) == cpm_edit::free_slots(dir, i),
    decreases i,
{
    if i > 0 {
        lemma_free_before(dir, i - 1);
    }
}

/// What the numbers of a slot hold.
proof fn lemma_blocks_in(dir: Seq<u8>, w: bool, i: int, n: int, b: int)
    requires
        b != 0,
        0 <= n,
    ensures
        cpm_slot_laws::blocks_in(dir, w, i, n).contains(b) <==> exists|k: int|
            0 <= k < n && #[trigger] cpm_slot_laws::block_at(dir, w, i, k) == b,
    decreases n,
{
    let all = cpm_slot_laws::blocks_in(dir, w, i, n);
    if n > 0 {
        lemma_blocks_in(dir, w, i, n - 1, b);
        let rest = cpm_slot_laws::blocks_in(dir, w, i, n - 1);
        let last = cpm_slot_laws::block_at(dir, w, i, n - 1);
        if all.contains(b) {
            let x = choose|x: int| 0 <= x < all.len() && all[x] == b;
            if x < rest.len() {
                assert(rest[x] == b);
                let k = choose|k: int| 0 <= k < n - 1 && #[trigger] cpm_slot_laws::block_at(dir, w, i, k) == b;
                assert(cpm_slot_laws::block_at(dir, w, i, k) == b);
            }
        }
        if exists|k: int| 0 <= k < n && #[trigger] cpm_slot_laws::block_at(dir, w, i, k) == b {
            let k = choose|k: int| 0 <= k < n && #[trigger] cpm_slot_laws::block_at(dir, w, i, k) == b;
            if k < n - 1 {
                assert(rest.contains(b));
                let x = choose|x: int| 0 <= x < rest.len() && rest[x] == b;
                assert(all[x] == b);
            } else {
                assert(all[rest.len() as int] == b);
            }
        }
    }
}

/// Blocks are named alike.
pub proof fn lemma_named(dir: Seq<u8>, spec: DiskSpecification, i: int, b: int)
    requires
        0 <= i < dir.len() / 32,
        1 <= b < 65536,
    ensures
        cpm_edit::names_block(spec, dir, i, b) == named(dir, spec, i, b),
{
    cpm_slot_laws::lemma_from_slot(dir, i, false);
    if let Some(e) = cpm_model::entry_of(cpm_edit::slot(dir, i), i, false) {
        let w = cpm_slot_laws::wide(spec);
        let n = cpm_slot_laws::places(w);
        let blocks = e.blocks(spec.allocation_size);
        cpm_slot_laws::lemma_valid(dir, spec, e);
        lemma_blocks_in(dir, w, i, n, b);
        let ints = cpm_slot_laws::as_ints(blocks);
        if blocks.contains(b as u16) {
            let x = choose|x: int| 0 <= x < blocks.len() && blocks[x] == b as u16;
            assert(ints[x] == b);
        }
        if ints.contains(b) {
            let x = choose|x: int| 0 <= x < ints.len() && ints[x] == b;
            assert(blocks[x] == b as u16);
        }
    }
}

/// The free blocks of a directory.
proof fn lemma_free(dir: Seq<u8>, spec: DiskSpecification, n: int, b: int)
    requires
        1 <= b < n <= 65535,
        n <= spec.blocks(),
    ensures
        unnamed(dir, spec, b) <==> cpm_edit::free_to(spec, dir, n).contains(b as u16),
    decreases n,
{
    let all = cpm_edit::free_to(spec, dir, n);
    let rest = cpm_edit::free_to(spec, dir, n - 1);
    let slots = dir.len() as int / 32;
    if b == n - 1 {
        cpm_blocks::lemma_free_usable(spec, dir, n - 1);
        if cpm_edit::taken_to(spec, dir, slots, b) {
            if spec.directory_blocks <= b {
                let i = choose|i: int| 0 <= i < slots && #[trigger] cpm_edit::names_block(spec, dir, i, b);
                lemma_named(dir, spec, i, b);
            }
            if all.contains(b as u16) {
                let x = choose|x: int| 0 <= x < all.len() && all[x] == b as u16;
                assert(rest[x] < n - 1);
            }
        } else {
            assert forall|i: int| 0 <= i < slots implies !#[trigger] named(dir, spec, i, b) by {
                lemma_named(dir, spec, i, b);
                assert(!cpm_edit::names_block(spec, dir, i, b));
            }
            assert(all[rest.len() as int] == b as u16);
        }
    } else {
        lemma_free(dir, spec, n - 1, b);
        if rest.contains(b as u16) {
            let x = choose|x: int| 0 <= x < rest.len() && rest[x] == b as u16;
            assert(all[x] == b as u16);
        }
        if all.contains(b as u16) {
            let x = choose|x: int| 0 <= x < all.len() && all[x] == b as u16;
            if x < rest.len() {
                assert(rest[x] == b as u16);
            }
        }
    }
}

/// A new extent is entered byte by byte.
proof fn lemma_extent(dir: Seq<u8>, spec: DiskSpecification, i: int, user: u8, raw: Seq<u8>, len: int, free: Seq<u16>, k: int)
    requires
        0 <= i < dir.len() / 32,
        raw.len() == 11,
        0 <= k < 2048,
        128 <= spec.block_bytes(),
        k * cpm_edit::bytes_per_extent(spec) <= len,
        cpm_edit::slot(dir, i) == cpm_edit::extent_bytes(spec, user, raw, len, free, k),
        !cpm_slot_laws::wide(spec) ==> forall|j: int| 0 <= j < free.len() ==> #[trigger] free[j] < 256,
    ensures
        extent_in(dir, spec, i, user, raw, len, cpm_slot_laws::as_ints(free), k),
{
    let e = cpm_edit::extent_bytes(spec, user, raw, len, free, k);
    let w = cpm_slot_laws::wide(spec);
    let each = blocks_each(spec);
    let ints = cpm_slot_laws::as_ints(free);
    cpm_edit::lemma_extent_sizes(spec);
    assert(each == cpm_edit::blocks_per_extent(spec));
    assert forall|j: int| 0 <= j < 32 implies #[trigger] dir[32 * i + j] == e[j] by {
        assert(cpm_edit::slot(dir, i)[j] == dir[32 * i + j]);
    }
    assert(dir[32 * i + 0] == e[0]);
    assert forall|j: int| 0 <= j < 11 implies dir[32 * i + 1 + j] == #[trigger] raw[j] by {
        assert(dir[32 * i + (1 + j)] == e[1 + j]);
    }
    assert(k * each >= 0) by (nonlinear_arith)
        requires
            k >= 0,
            each >= 0,
    ;
    assert forall|j: int| 0 <= j < cpm_slot_laws::places(w) implies #[trigger] cpm_slot_laws::block_at(dir, w, i, j) == (if j < each
        && k * each + j < ints.len() { ints[k * each + j] } else { 0 }) by {
        let b = cpm_edit::extent_block(spec, free, k, j);
        if w {
            assert(dir[32 * i + (16 + 2 * j)] == e[16 + 2 * j]);
            assert(dir[32 * i + (17 + 2 * j)] == e[17 + 2 * j]);
            assert((16 + 2 * j - 16) / 2 == j && (17 + 2 * j - 16) / 2 == j);
        } else {
            assert(dir[32 * i + (16 + j)] == e[16 + j]);
            assert(b < 256);
        }
    }
}

/// Whether `blocks` are the lowest free blocks, as many as `len` bytes need.
pub open spec fn lowest_free(dir: Seq<u8>, spec: DiskSpecification, len: int, blocks: Seq<int>) -> bool {
    &&& (blocks.len() - 1) * spec.block_bytes() < len <= blocks.len() * spec.block_bytes()
    &&& forall|j: int| 0 <= j < blocks.len() ==> unnamed(dir, spec, #[trigger] blocks[j])
    &&& forall|j: int, k: int| 0 <= j < k < blocks.len() ==> #[trigger] blocks[j] < #[trigger] blocks[k]
    &&& forall|b: int|
        #[trigger] unnamed(dir, spec, b) && (exists|j: int| 0 <= j < blocks.len() && b < #[trigger] blocks[j]) ==> blocks.contains(
            b,
        )
}

/// Whether blocks hold data, sector by sector and one block behind the other, and 0x1A behind its
/// last byte.
pub open spec fn blocks_hold(image: ImageView, spec: DiskSpecification, blocks: Seq<int>, data: Seq<u8>) -> bool {
    let ss = spec.sector_size as int;
    let spb = spec.block_bytes() / ss;
    forall|m: int, k: int|
        0 <= m < blocks.len() * spb && 0 <= k < ss ==> #[trigger] cpm_content_laws::disk_byte(
            image,
            spec,
            spec.first_sector() + blocks[m / spb] * spb + m % spb,
            k,
        ) == (if ss * m + k < data.len() { data[ss * m + k] } else { 0x1A })
}

/// Whether the extents of a file of `len` bytes have been entered in the first free slots of a
/// directory, as many as its blocks need and at least one, and all other slots kept.
pub open spec fn slots_entered(
    dir: Seq<u8>,
    now: Seq<u8>,
    spec: DiskSpecification,
    user: u8,
    raw: Seq<u8>,
    len: int,
    blocks: Seq<int>,
    extents: int,
) -> bool {
    let whole = blocks_each(spec) * spec.block_bytes();
    &&& now.len() == dir.len()
    &&& extents >= 1
    &&& (extents - 1) * whole < (if len > 1 { len } else { 1 }) <= extents * whole
    &&& forall|i: int|
        0 <= i < dir.len() / 32 ==> #[trigger] slot_entered(dir, now, spec, user, raw, len, blocks, extents, i)
}

/// Whether slot `i` holds its extent of the file if it was one of the first free slots, and is
/// otherwise as it was.
pub open spec fn slot_entered(
    dir: Seq<u8>,
    now: Seq<u8>,
    spec: DiskSpecification,
    user: u8,
    raw: Seq<u8>,
    len: int,
    blocks: Seq<int>,
    extents: int,
    i: int,
) -> bool {
    if dir[32 * i] == 0xE5 && free_before(dir, i) < extents {
        extent_in(now, spec, i, user, raw, len, blocks, free_before(dir, i))
    } else {
        same_slot(now, dir, i)
    }
}

/// What the blocks of a new file hold.
proof fn lemma_blocks_hold(image: ImageView, spec: DiskSpecification, free: Seq<u16>, data: Seq<u8>)
    requires
        cpm_blocks::whole_blocks(spec),
        cpm_blocks::usable(spec, free),
        cpm_laws::holds_data(image, spec, free, data),
    ensures
        blocks_hold(image, spec, cpm_slot_laws::as_ints(free), data),
{
    let ss = spec.sector_size as int;
    let spb = spec.block_bytes() / ss;
    let blocks = cpm_slot_laws::as_ints(free);
    cpm_blocks::lemma_sizes(spec);
    assert forall|m: int, k: int| 0 <= m < blocks.len() * spb && 0 <= k < ss implies #[trigger] cpm_content_laws::disk_byte(
        image,
        spec,
        spec.first_sector() + blocks[m / spb] * spb + m % spb,
        k,
    ) == (if ss * m + k < data.len() { data[ss * m + k] } else { 0x1A }) by {
        assert(cpm_model::sector_at(image, spec, cpm_edit::file_sector(spec, free, m)) == Some(
            cpm_edit::file_sector_bytes(data, ss, m),
        ));
        assert(0 <= m / spb < free.len()) by {
            vstd::arithmetic::mul::lemma_mul_is_commutative(free.len() as int, spb);
            vstd::arithmetic::div_mod::lemma_multiply_divide_lt(m, spb, free.len() as int);
            vstd::arithmetic::div_mod::lemma_div_pos_is_pos(m, spb);
        }
        assert(blocks[m / spb] == free[m / spb]);
        assert(cpm_edit::file_sector(spec, free, m) == spec.first_sector() + blocks[m / spb] * spb + m % spb);
    }
}

/// What is entered in the directory.
proof fn lemma_slots_entered(dir: Seq<u8>, spec: DiskSpecification, user: u8, raw: Seq<u8>, len: int, free: Seq<u16>)
    requires
        user <= 31,
        raw.len() == 11,
        0 <= len,
        128 <= spec.block_bytes(),
        cpm_edit::extent_count(spec, len) <= 2048,
        cpm_edit::extent_count(spec, len) <= cpm_edit::free_slots(dir, dir.len() as int / 32),
        !cpm_slot_laws::wide(spec) ==> forall|j: int| 0 <= j < free.len() ==> #[trigger] free[j] < 256,
    ensures
        slots_entered(
            dir,
            cpm_edit::filled_to(spec, dir, user, raw, len, free, cpm_edit::extent_count(spec, len)),
            spec,
            user,
            raw,
            len,
            cpm_slot_laws::as_ints(free),
            cpm_edit::extent_count(spec, len),
        ),
{
    let extents = cpm_edit::extent_count(spec, len);
    let now = cpm_edit::filled_to(spec, dir, user, raw, len, free, extents);
    let whole = blocks_each(spec) * spec.block_bytes();
    let blocks = cpm_slot_laws::as_ints(free);
    cpm_edit::lemma_extent_sizes(spec);
    assert(whole == cpm_edit::bytes_per_extent(spec));
    lemma_rounded_up(if len > 1 { len } else { 1 }, whole);
    cpm_laws::lemma_extents_positive(spec, len);
    cpm_entries::lemma_filled(spec, dir, user, raw, len, free, extents);
    assert forall|i: int| 0 <= i < dir.len() / 32 implies #[trigger] slot_entered(
        dir,
        now,
        spec,
        user,
        raw,
        len,
        blocks,
        extents,
        i,
    ) by {
        let k = free_before(dir, i);
        lemma_free_before(dir, i);
        lemma_free_positive(dir, i);
        assert(cpm_edit::slot(now, i) == cpm_entries::slot_after(spec, dir, user, raw, len, free, extents, i));
        if dir[32 * i] == 0xE5 && k < extents {
            assert(k * whole <= (extents - 1) * whole) by (nonlinear_arith)
                requires
                    0 <= k <= extents - 1,
                    0 <= whole,
            ;
            if len <= 1 {
                assert(k == 0) by (nonlinear_arith)
                    requires
                        0 <= k <= extents - 1,
                        (extents - 1) * whole < 1,
                        whole >= 128,
                ;
                assert(k * whole == 0) by (nonlinear_arith)
                    requires
                        k == 0,
                ;
            }
            lemma_extent(now, spec, i, user, raw, len, free, k);
        } else {
            assert forall|j: int| 32 * i <= j < 32 * i + 32 implies #[trigger] now[j] == dir[j] by {
                assert(cpm_edit::slot(now, i)[j - 32 * i] == cpm_edit::slot(dir, i)[j - 32 * i]);
            }
        }
    }
}

/// A new file takes the lowest free blocks, as many as its bytes need. They hold its bytes one
/// block behind the other, and 0x1A behind the last byte. Its extents take the first free slots
/// in turn, as many as its blocks need and at least one; all other slots stay as they are.
pub proof fn law_import_takes_blocks_and_slots(image: ImageView, name: Seq<char>, data: Seq<u8>, after: ImageView, user: u8, raw: Seq<u8>) -> (r: (
    Seq<int>,
    int,
))
    requires
        cpm_edit::imported(image, name, data) == Ok::<ImageView, ErrorView>(after),
        cpm_laws::sound_for(image, data.len() as int),
        cpm_blocks::directory_on_disk(specification::identified(image)),
        names::cpm_key(name) == Ok::<(u8, Seq<u8>), ErrorView>((user, raw)),
    ensures
        ({
            let spec = specification::identified(image);
            let dir = cpm_model::directory_bytes(image, spec);
            let now = cpm_model::directory_bytes(after, spec);
            &&& specification::identified(after) == spec
            &&& lowest_free(dir, spec, data.len() as int, r.0)
            &&& blocks_hold(after, spec, r.0, data)
            &&& slots_entered(dir, now, spec, user, raw, data.len() as int, r.0, r.1)
        }),
{
    let spec = specification::identified(image);
    let len = data.len() as int;
    let written = cpm_laws::written(image, spec);
    let free = cpm_laws::new_blocks(image, spec, len);
    let extents = cpm_edit::extent_count(spec, len);
    let blocks = cpm_slot_laws::as_ints(free);
    cpm_laws::lemma_imported(image, name, data, after);
    let dir = cpm_model::directory_bytes(image, spec);
    let now = cpm_model::directory_bytes(after, spec);
    cpm_blocks::lemma_shown_len(spec);
    assert(written.take(written.len() as int) =~= written);
    assert(dir == written);
    let entered = cpm_laws::written(after, spec);
    cpm_laws::lemma_extents_positive(spec, len);
    cpm_entries::lemma_filled(spec, dir, user, raw, len, free, extents);
    assert(entered.take(entered.len() as int) =~= entered);
    assert(now == entered);
    lemma_rounded_up(len, spec.block_bytes());
    lemma_blocks_limit(spec);
    lemma_lowest(dir, spec, len, free);
    lemma_blocks_hold(after, spec, free, data);
    lemma_raw(name);
    cpm_laws::lemma_identified_fits(image);
    assert(!cpm_slot_laws::wide(spec) ==> forall|j: int| 0 <= j < free.len() ==> #[trigger] free[j] < 256);
    lemma_slots_entered(dir, spec, user, raw, len, free);
    (blocks, extents)
}

/// Stored names have eleven bytes.
proof fn lemma_raw(name: Seq<char>)
    ensures
        names::cpm_key(name) matches Ok((user, raw)) ==> raw.len() == 11,
{
}

proof fn lemma_free_positive(dir: Seq<u8>, i: int)
    ensures
        free_before(dir, i) >= 0,
    decreases i,
{
    if i > 0 {
        lemma_free_positive(dir, i - 1);
    }
}

/// There are at most 65535 blocks.
proof fn lemma_blocks_limit(spec: DiskSpecification)
    ensures
        spec.blocks() <= 65535,
{
}

/// Rounding up.
proof fn lemma_rounded_up(a: int, b: int)
    requires
        0 <= a,
        0 < b,
    ensures
        (bytes::div_up(a, b) - 1) * b < a <= bytes::div_up(a, b) * b,
{
    let q = (a + b - 1) / b;
    vstd::arithmetic::div_mod::lemma_fundamental_div_mod(a + b - 1, b);
    vstd::arithmetic::div_mod::lemma_mod_bound(a + b - 1, b);
    assert((q - 1) * b == q * b - b) by (nonlinear_arith);
    assert(b * q == q * b) by (nonlinear_arith);
}

/// The first free blocks are the lowest.
proof fn lemma_lowest(dir: Seq<u8>, spec: DiskSpecification, len: int, free: Seq<u16>)
    requires
        spec.blocks() <= 65535,
        0 <= cpm_edit::blocks_needed(spec, len) <= cpm_edit::free_to(spec, dir, spec.blocks()).len(),
        free == cpm_edit::free_to(spec, dir, spec.blocks()).take(cpm_edit::blocks_needed(spec, len)),
    ensures
        ({
            let blocks = cpm_slot_laws::as_ints(free);
            &&& forall|j: int| 0 <= j < blocks.len() ==> unnamed(dir, spec, #[trigger] blocks[j])
            &&& forall|j: int, k: int| 0 <= j < k < blocks.len() ==> #[trigger] blocks[j] < #[trigger] blocks[k]
            &&& forall|b: int|
                #[trigger] unnamed(dir, spec, b) && (exists|j: int| 0 <= j < blocks.len() && b < #[trigger] blocks[j])
                    ==> blocks.contains(b)
        }),
{
    let n = spec.blocks();
    let all = cpm_edit::free_to(spec, dir, n);
    let blocks = cpm_slot_laws::as_ints(free);
    cpm_blocks::lemma_free_usable(spec, dir, n);
    assert forall|j: int| 0 <= j < blocks.len() implies unnamed(dir, spec, #[trigger] blocks[j]) by {
        assert(all[j] == free[j]);
        assert(all.contains(free[j]));
        lemma_free(dir, spec, n, blocks[j]);
    }
    assert forall|j: int, k: int| 0 <= j < k < blocks.len() implies #[trigger] blocks[j] < #[trigger] blocks[k] by {
        assert(all[j] == free[j] && all[k] == free[k]);
    }
    assert forall|b: int|
        #[trigger] unnamed(dir, spec, b) && (exists|j: int| 0 <= j < blocks.len() && b < #[trigger] blocks[j]) implies blocks.contains(
        b,
    ) by {
        let j = choose|j: int| 0 <= j < blocks.len() && b < #[trigger] blocks[j];
        lemma_free(dir, spec, n, b);
        let x = choose|x: int| 0 <= x < all.len() && all[x] == b as u16;
        assert(all[j] == free[j]);
        if x > j {
            assert(all[j] < all[x]);
        }
        assert(free[x] == all[x]);
        assert(blocks[x] == b);
    }
}

/// Whether slot `i` belongs to the file with this user number and this name in eleven bytes,
/// whatever its attributes.
pub open spec fn belongs(dir: Seq<u8>, i: int, user: u8, raw: Seq<u8>) -> bool {
    dir[32 * i] == user && forall|j: int| 0 <= j < 11 ==> dir[32 * i + 1 + j] % 128 == #[trigger] raw[j]
}

/// A removal marks the slots of the file with 0xE5 in their first bytes and changes nothing else:
/// no other byte of the directory, and no sector behind it.
pub proof fn law_delete_marks_slots(image: ImageView, name: Seq<char>, after: ImageView, user: u8, raw: Seq<u8>)
    requires
        cpm_edit::deleted(image, name) == Ok::<ImageView, ErrorView>(after),
        cpm_laws::sound(image),
        cpm_blocks::directory_on_disk(specification::identified(image)),
        names::cpm_key(name) == Ok::<(u8, Seq<u8>), ErrorView>((user, raw)),
    ensures
        ({
            let spec = specification::identified(image);
            let dir = cpm_model::directory_bytes(image, spec);
            let now = cpm_model::directory_bytes(after, spec);
            &&& specification::identified(after) == spec
            &&& now.len() == dir.len()
            &&& forall|p: int|
                0 <= p < dir.len() ==> #[trigger] now[p] == (if p % 32 == 0 && belongs(dir, p / 32, user, raw) {
                    0xE5
                } else {
                    dir[p]
                })
            &&& exists|i: int| 0 <= i < dir.len() / 32 && #[trigger] belongs(dir, i, user, raw)
            &&& forall|x: int|
                spec.first_sector() + spec.entries() * 32 / (spec.sector_size as int) <= x < spec.last_sector()
                    ==> #[trigger] cpm_model::sector_at(after, spec, x) == cpm_model::sector_at(image, spec, x)
        }),
{
    let spec = specification::identified(image);
    let written = cpm_laws::written(image, spec);
    let dir = cpm_model::directory_bytes(image, spec);
    let now = cpm_model::directory_bytes(after, spec);
    cpm_laws::lemma_deleted(image, name, after);
    cpm_blocks::lemma_shown_len(spec);
    assert(written.take(written.len() as int) =~= written);
    let marked = cpm_edit::without(dir, user, raw);
    assert(marked.take(marked.len() as int) =~= marked);
    assert(dir == written);
    assert(now == marked);
    lemma_raw(name);
    assert(dir.len() % 32 == 0);
    assert forall|i: int| 0 <= i < dir.len() / 32 implies cpm_edit::matches(#[trigger] cpm_edit::slot(dir, i), user, raw) == belongs(
        dir,
        i,
        user,
        raw,
    ) by {
        lemma_belongs(dir, i, user, raw);
    }
    assert forall|p: int| 0 <= p < dir.len() implies #[trigger] now[p] == (if p % 32 == 0 && belongs(dir, p / 32, user, raw) {
        0xE5
    } else {
        dir[p]
    }) by {
        lemma_belongs(dir, p / 32, user, raw);
    }
    let i = choose|i: int| 0 <= i < dir.len() / 32 && cpm_edit::matches(#[trigger] cpm_edit::slot(dir, i), user, raw);
    assert(belongs(dir, i, user, raw));
    crate::filesystem::cpm_sectors::lemma_disk_reached(spec);
    crate::specification::lemma_sector_bounds(spec);
}

pub proof fn lemma_belongs(dir: Seq<u8>, i: int, user: u8, raw: Seq<u8>)
    requires
        0 <= i < dir.len() / 32,
        raw.len() == 11,
    ensures
        cpm_edit::matches(cpm_edit::slot(dir, i), user, raw) == belongs(dir, i, user, raw),
{
    let s = cpm_edit::slot(dir, i);
    assert(s[0] == dir[32 * i]);
    if cpm_edit::matches(s, user, raw) {
        assert forall|j: int| 0 <= j < 11 implies dir[32 * i + 1 + j] % 128 == #[trigger] raw[j] by {
            assert(s[j + 1] == dir[32 * i + 1 + j]);
        }
    }
    if belongs(dir, i, user, raw) {
        assert forall|j: int| 0 <= j < 11 implies #[trigger] s[j + 1] % 128 == raw[j] by {
            assert(s[j + 1] == dir[32 * i + 1 + j]);
        }
    }
}

}
