//! Laws of room: a disk that has room for a file accepts it, whatever else it holds.

use crate::bytes;
use crate::error::ErrorView;
use crate::filesystem::cpm_blocks;
use crate::filesystem::cpm_change_laws;
use crate::filesystem::cpm_edit;
use crate::filesystem::cpm_edit::Address;
use crate::filesystem::cpm_entries;
use crate::filesystem::cpm_laws;
use crate::filesystem::cpm_model;
use crate::filesystem::cpm_reuse_laws;
use crate::filesystem::fresh_disk_laws;
use crate::filesystem::mgt;
use crate::filesystem::mgt::MgtEntryView;
use crate::filesystem::mgt_byte_laws;
use crate::filesystem::mgt_edit;
use crate::filesystem::name_laws;
use crate::filesystem::names;
use crate::filesystem::trdos;
use crate::filesystem::trdos_byte_laws;
use crate::filesystem::trdos_edit;
use crate::filesystem::trdos_reuse_laws;
use crate::image::laws;
use crate::image::ImageView;
use crate::specification;
use crate::specification::DiskSpecification;
use vstd::prelude::*;

verus! {

/// The number of parts of `size` bytes that `len` bytes fill or begin.
proof fn lemma_parts(len: int, size: int, count: int)
    requires
        0 <= len,
        0 < size,
        size * (count - 1) < len <= size * count,
    ensures
        bytes::div_up(len, size) == count,
{
    let r = len - size * (count - 1) - 1;
    assert(size * count == size * (count - 1) + size) by (nonlinear_arith);
    assert(len + size - 1 == count * size + r) by (nonlinear_arith)
        requires
            r == len - size * (count - 1) - 1,
            size * count == size * (count - 1) + size,
    ;
    vstd::arithmetic::div_mod::lemma_fundamental_div_mod_converse(len + size - 1, size, count, r);
}

/// Names that may be stored fit.
proof fn lemma_fits(name: Seq<char>, length: int)
    requires
        1 <= name.len() <= length,
        name_laws::all_allowed(name),
    ensures
        names::fits(name, length),
{
    assert forall|i: int| 0 <= i < name.len() implies names::storable(#[trigger] name[i]) by {
        assert(name_laws::allowed(name[i]));
    }
}

/// A TR-DOS disk accepts a file of up to 255 sectors if its name is not in use, a directory slot was
/// never used, and as many sectors as it needs are free where the catalog says.
pub proof fn law_trdos_with_room_accepts(image: ImageView, base: Seq<char>, kind: char, data: Seq<u8>, slot: int, count: int)
    requires
        trdos::is_trdos(image),
        1 <= base.len() <= 8 && name_laws::all_allowed(base),
        kind == 'B' || kind == 'C' || kind == 'D' || kind == '#' || kind == 'b' || kind == 'c' || kind == 'd',
        0 <= slot < 128 && trdos_byte_laws::slot_byte(image, slot, 8) == 0,
        forall|j: int|
            0 <= j < trdos::entries(image).len() ==> (#[trigger] trdos::entries(image)[j]).deleted || !trdos_byte_laws::same_letters(
                trdos::entries(image)[j].filename,
                base,
            ),
        256 * (count - 1) < data.len() <= 256 * count && count <= 255,
        trdos_byte_laws::catalog_byte(image, 231) == 0x10,
        count <= trdos_byte_laws::catalog_byte(image, 229) + 256 * trdos_byte_laws::catalog_byte(image, 230),
        ({
            let first = 16 * trdos_byte_laws::catalog_byte(image, 226) + trdos_byte_laws::catalog_byte(image, 225);
            &&& 16 <= first
            &&& first + count <= 16 * image.spec.num_tracks * image.spec.num_sides
            &&& forall|n: int| first <= n < first + count ==> #[trigger] trdos_byte_laws::sector(image, n) is Ok
        }),
    ensures
        trdos_edit::imported(image, base + seq!['.', kind], data) is Ok,
        trdos_edit::imported(image, base, data) is Ok,
{
    let name = base + seq!['.', kind];
    let first = 16 * trdos_byte_laws::catalog_byte(image, 226) + trdos_byte_laws::catalog_byte(image, 225);
    let tracks = image.spec.num_tracks as int;
    let sides = image.spec.num_sides as int;
    assert forall|i: int| 0 <= i < base.len() implies #[trigger] base[i] != '.' by {
        assert(name_laws::allowed(base[i]));
    }
    trdos_byte_laws::law_type_stands_behind_the_dot(base, kind);
    trdos_byte_laws::law_catalog_is_read(image);
    lemma_fits(base, 8);
    lemma_parts(data.len() as int, 256, count);
    trdos_byte_laws::law_missing_files_are_not_found(image, base);
    assert(trdos::find(trdos::entries(image), base) is None) by {
        trdos_byte_laws::lemma_find_none(trdos::entries(image), base, 0);
    }
    assert(tracks * sides * 16 == 16 * tracks * sides && 16 * tracks * sides <= 16 * tracks * 256) by (nonlinear_arith)
        requires
            0 <= sides <= 256,
            0 <= tracks,
    ;
    assert forall|n: int| first <= n < first + count implies #[trigger] trdos_edit::address(image, n) is Ok by {
        trdos_byte_laws::lemma_place(image, n);
        assert(trdos_byte_laws::sector(image, n) is Ok);
    }
    trdos_byte_laws::lemma_slot(image, slot);
    assert(trdos::slot_at(image, slot)[8] == 0);
    trdos_reuse_laws::lemma_accepts(image, name, data, slot);
    trdos_reuse_laws::lemma_accepts(image, base, data, slot);
}

/// Whether an MGT file uses sector `i`: its map has the bit for it, or it lies among the sectors
/// that the file takes from its first on.
pub open spec fn uses(e: MgtEntryView, i: int) -> bool {
    let n = (i - 40) % 8;
    ||| 40 <= i < 40 + 8 * e.sector_map.len() && (e.sector_map[(i - 40) / 8] as int / (if n == 0 {
        128int
    } else if n == 1 {
        64
    } else if n == 2 {
        32
    } else if n == 3 {
        16
    } else if n == 4 {
        8
    } else if n == 5 {
        4
    } else if n == 6 {
        2
    } else {
        1
    })) % 2 == 1
    ||| e.start() <= i < e.start() + e.sectors_used
}

proof fn lemma_slot_found(image: ImageView, from: int, slot: int)
    requires
        0 <= from <= slot < 80,
        mgt_edit::slot_free(image, slot),
    ensures
        mgt_edit::slot_from(image, from) matches Some(s) && from <= s < 80 && mgt_edit::slot_free(image, s),
    decreases slot - from,
{
    if !mgt_edit::slot_free(image, from) {
        lemma_slot_found(image, from + 1, slot);
    }
}

proof fn lemma_run_found(entries: Seq<MgtEntryView>, count: int, from: int, at: int)
    requires
        from <= at < 1600,
        mgt_edit::run_at(entries, count, at),
    ensures
        mgt_edit::run_from(entries, count, from) matches Some(i) && from <= i < 1600 && mgt_edit::run_at(entries, count, i),
    decreases at - from,
{
    if !mgt_edit::run_at(entries, count, from) {
        lemma_run_found(entries, count, from + 1, at);
    }
}

/// An MGT disk accepts a file of up to 65535 bytes if its name is not in use, a directory slot is free,
/// and as many sectors as it needs are free one behind the other on one side.
pub proof fn law_mgt_with_room_accepts(image: ImageView, name: Seq<char>, data: Seq<u8>, slot: int, at: int, count: int)
    requires
        mgt::entries(image) is Ok,
        1 <= name.len() <= 10 && name_laws::all_allowed(name),
        data.len() <= 65535,
        forall|j: int|
            0 <= j < mgt::entries_to(image, 80).len() ==> !mgt_byte_laws::same_letters(
                (#[trigger] mgt::entries_to(image, 80)[j]).filename,
                name,
            ),
        0 <= slot < 80 && mgt_byte_laws::slot_there(image, slot) && mgt_byte_laws::slot_byte(image, slot, 0) % 64 == 0,
        512 * (count - 1) < data.len() <= 512 * count,
        40 <= at < 1600 && at + count <= (if at < 800 { 800int } else { 1600 }),
        forall|i: int, j: int|
            at <= i < at + count && 0 <= j < mgt::entries_to(image, 80).len() ==> !#[trigger] uses(mgt::entries_to(image, 80)[j], i),
        forall|i: int| 0 <= i < 1600 ==> #[trigger] mgt_byte_laws::sector(image, i) is Ok,
    ensures
        mgt_edit::imported(image, name, data) is Ok,
{
    let entries = mgt::entries_to(image, 80);
    lemma_fits(name, 10);
    lemma_parts(data.len() as int, 512, count);
    mgt_byte_laws::law_missing_files_are_not_found(image, name);
    mgt_byte_laws::lemma_slot(image, slot);
    assert(mgt::slot_at(image, slot).unwrap()[0] == mgt_byte_laws::slot_byte(image, slot, 0));
    lemma_slot_found(image, 0, slot);
    assert forall|k: int| at <= k < at + count implies !#[trigger] mgt_edit::taken(entries, k) by {
        assert forall|j: int| 0 <= j < entries.len() implies !mgt_edit::covers(#[trigger] entries[j], k) by {
            assert(!uses(entries[j], k));
        }
    }
    lemma_run_found(entries, count, 40, at);
    let s = mgt_edit::slot_from(image, 0).unwrap();
    let start = mgt_edit::run_from(entries, count, 40).unwrap();
    assert forall|i: int| start <= i < start + count implies #[trigger] image.read(
        mgt::sector_place(i).0,
        mgt::sector_place(i).1,
        mgt::sector_place(i).2,
    ) is Ok by {
        assert(mgt_byte_laws::sector(image, i) is Ok);
    }
    fresh_disk_laws::lemma_mgt_stored(image, start, data, count);
    let mid = mgt_edit::stored_to(image, start, data, count)->Ok_0;
    let (track, id, offset) = mgt::location(s);
    laws::lemma_same_layout_reads(image, mid, 0, track, id);
}

/// Whether every sector behind the reserved tracks can be written.
pub open spec fn all_writable(image: ImageView, spec: DiskSpecification) -> bool {
    forall|x: int| spec.first_sector() <= x < spec.last_sector() ==> #[trigger] cpm_edit::address(image, spec, x) is Ok
}

/// Sectors that are there can be written.
proof fn lemma_stored(image: ImageView, spec: DiskSpecification, free: Seq<u16>, data: Seq<u8>, n: int)
    requires
        cpm_blocks::whole_blocks(spec),
        cpm_blocks::usable(spec, free),
        all_writable(image, spec),
        0 <= n <= free.len() * cpm_model::sectors_per_block(spec),
    ensures
        cpm_edit::stored_to(image, spec, free, data, n) is Ok,
        forall|x: int| #[trigger] cpm_edit::address(cpm_edit::stored_to(image, spec, free, data, n)->Ok_0, spec, x)
            == cpm_edit::address(image, spec, x),
    decreases n,
{
    if n > 0 {
        lemma_stored(image, spec, free, data, n - 1);
        let before = cpm_edit::stored_to(image, spec, free, data, n - 1)->Ok_0;
        let x = cpm_edit::file_sector(spec, free, n - 1);
        cpm_blocks::lemma_file_sector(spec, free, n - 1);
        assert(cpm_edit::address(image, spec, x) is Ok);
        assert(cpm_edit::address(before, spec, x) == cpm_edit::address(image, spec, x));
        cpm_reuse_laws::lemma_written(before, spec, x, cpm_edit::file_sector_bytes(data, spec.sector_size as int, n - 1));
    }
}

/// There are as many free blocks as can be named.
proof fn lemma_count(dir: Seq<u8>, spec: DiskSpecification, n: int, blocks: Seq<int>)
    requires
        n <= spec.blocks() <= 65535,
        forall|j: int| 0 <= j < blocks.len() ==> cpm_change_laws::unnamed(dir, spec, #[trigger] blocks[j]) && blocks[j] < n,
        forall|j: int, k: int| 0 <= j < k < blocks.len() ==> #[trigger] blocks[j] < #[trigger] blocks[k],
    ensures
        cpm_edit::free_to(spec, dir, n).len() >= blocks.len(),
    decreases n,
{
    if blocks.len() > 0 {
        let b = blocks.last();
        assert(cpm_change_laws::unnamed(dir, spec, blocks[blocks.len() - 1]));
        if b == n - 1 {
            let rest = blocks.drop_last();
            assert forall|j: int| 0 <= j < rest.len() implies cpm_change_laws::unnamed(dir, spec, #[trigger] rest[j]) && rest[j] < n
                - 1 by {
                assert(blocks[j] < blocks[blocks.len() - 1]);
            }
            lemma_count(dir, spec, n - 1, rest);
            assert forall|i: int| 0 <= i < dir.len() / 32 implies !#[trigger] cpm_edit::names_block(spec, dir, i, b) by {
                assert(!cpm_change_laws::named(dir, spec, i, b));
                cpm_change_laws::lemma_named(dir, spec, i, b);
            }
        } else {
            assert forall|j: int| 0 <= j < blocks.len() implies cpm_change_laws::unnamed(dir, spec, #[trigger] blocks[j]) && blocks[j] < n
                - 1 by {
                if j < blocks.len() - 1 {
                    assert(blocks[j] < blocks[blocks.len() - 1]);
                }
            }
            lemma_count(dir, spec, n - 1, blocks);
        }
    }
}

/// A CP/M disk whose sectors are all there accepts a file if its name is not in use, and if as many
/// directory slots and blocks as it needs are free.
pub proof fn law_cpm_with_room_accepts(
    image: ImageView,
    user: u8,
    base: Seq<char>,
    ext: Seq<char>,
    data: Seq<u8>,
    blocks: Seq<int>,
    extents: int,
)
    requires
        user <= 31,
        1 <= base.len() <= 8 && ext.len() <= 3 && name_laws::all_allowed(base) && name_laws::all_allowed(ext),
        ({
            let spec = specification::identified(image);
            let dir = cpm_model::directory_bytes(image, spec);
            let len = data.len() as int;
            let bb = spec.block_bytes();
            let whole = cpm_change_laws::blocks_each(spec) * bb;
            &&& cpm_blocks::whole_blocks(spec)
            &&& spec.directory_blocks > 0
            &&& all_writable(image, spec)
            &&& cpm_blocks::plain_directory(image, spec)
            &&& cpm_blocks::directory_on_disk(spec)
            &&& forall|i: int, raw: Seq<u8>|
                0 <= i < dir.len() / 32 && name_laws::holds_name(raw, base, ext) ==> !#[trigger] cpm_change_laws::belongs(
                    dir,
                    i,
                    user,
                    raw,
                )
            &&& bb * (blocks.len() - 1) < len <= bb * blocks.len()
            &&& forall|j: int| 0 <= j < blocks.len() ==> cpm_change_laws::unnamed(dir, spec, #[trigger] blocks[j])
            &&& forall|j: int, k: int| 0 <= j < k < blocks.len() ==> #[trigger] blocks[j] < #[trigger] blocks[k]
            &&& whole * (extents - 1) < (if len > 1 { len } else { 1 }) <= whole * extents
            &&& extents <= 2048
            &&& extents <= cpm_change_laws::free_before(dir, dir.len() as int / 32)
        }),
    ensures
        cpm_edit::imported(image, name_laws::prefix(user as int) + name_laws::dotted(base, ext), data) is Ok,
{
    let name = name_laws::prefix(user as int) + name_laws::dotted(base, ext);
    let spec = specification::identified(image);
    let dir = cpm_model::directory_bytes(image, spec);
    let len = data.len() as int;
    let bb = spec.block_bytes();
    name_laws::law_name_is_stored(user, base, ext);
    let (u, raw) = names::cpm_key(name)->Ok_0;
    cpm_blocks::lemma_sizes(spec);
    cpm_edit::lemma_extent_sizes(spec);
    let needed = blocks.len() as int;
    lemma_parts(len, bb, needed);
    lemma_parts(if len > 1 { len } else { 1 }, cpm_edit::bytes_per_extent(spec), extents);
    specification::lemma_entries_bound(spec);
    fresh_disk_laws::lemma_addresses_there(image, spec, spec.first_sector(), cpm_edit::directory_sectors(spec));
    cpm_blocks::lemma_directory_reached(spec);
    cpm_blocks::lemma_directory_at(image, spec);
    let (addresses, d) = cpm_edit::directory_at(image, spec)->Ok_0;
    assert(d == dir);
    assert forall|i: int| 0 <= i < dir.len() / 32 implies !cpm_edit::matches(#[trigger] cpm_edit::slot(dir, i), user, raw) by {
        cpm_change_laws::lemma_belongs(dir, i, user, raw);
        assert(!cpm_change_laws::belongs(dir, i, user, raw));
    }
    cpm_change_laws::lemma_free_before(dir, dir.len() as int / 32);
    cpm_blocks::lemma_free_usable(spec, dir, spec.blocks());
    lemma_count(dir, spec, spec.blocks(), blocks);
    let free = cpm_edit::free_to(spec, dir, spec.blocks()).take(needed);
    let spb = cpm_model::sectors_per_block(spec);
    let total = free.len() * spb;
    assert(total >= 0) by (nonlinear_arith)
        requires
            total == free.len() * spb,
            spb >= 1,
    ;
    assert(cpm_blocks::usable(spec, free)) by {
        assert forall|i: int| 0 <= i < free.len() implies spec.directory_blocks <= #[trigger] free[i] < spec.blocks() && free[i] > 0 by {
            assert(free[i] == cpm_edit::free_to(spec, dir, spec.blocks())[i]);
        }
    }
    lemma_stored(image, spec, free, data, total);
    let mid = cpm_edit::stored_to(image, spec, free, data, total)->Ok_0;
    cpm_laws::lemma_extents_positive(spec, len);
    cpm_entries::lemma_filled(spec, dir, user, raw, len, free, extents);
    let entered = cpm_edit::filled_to(spec, dir, user, raw, len, free, extents);
    assert forall|i: int| 0 <= i < addresses.len() implies cpm_edit::address(mid, spec, spec.first_sector() + i) == Ok::<
        Address,
        ErrorView,
    >(#[trigger] addresses[i]) by {}
    cpm_reuse_laws::lemma_put_succeeds(mid, spec, addresses, entered, addresses.len() as int);
}

}
