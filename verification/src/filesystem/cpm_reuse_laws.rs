//! Laws of CP/M space: what a removed file took can be used again.

use crate::error::ErrorView;
use crate::filesystem::cpm_blocks;
use crate::filesystem::cpm_edit;
use crate::filesystem::cpm_edit::Address;
use crate::filesystem::cpm_entries;
use crate::filesystem::cpm_laws;
use crate::filesystem::cpm_model;
use crate::filesystem::cpm_sectors;
use crate::filesystem::names;
use crate::image::laws;
use crate::image::ImageView;
use crate::specification;
use crate::specification::DiskSpecification;
use vstd::prelude::*;

verus! {

/// Whether two directories differ only behind the marks of free slots.
spec fn alike(d: Seq<u8>, e: Seq<u8>) -> bool {
    &&& d.len() == e.len()
    &&& forall|i: int|
        0 <= i < d.len() / 32 ==> #[trigger] cpm_edit::slot(d, i) == cpm_edit::slot(e, i) || (cpm_edit::mark(d, i) == 0xE5
            && cpm_edit::mark(e, i) == 0xE5)
}

proof fn lemma_alike_marks(d: Seq<u8>, e: Seq<u8>, i: int)
    requires
        alike(d, e),
        0 <= i < d.len() / 32,
    ensures
        cpm_edit::mark(d, i) == cpm_edit::mark(e, i),
        cpm_edit::slot(d, i)[0] == cpm_edit::mark(d, i),
        cpm_edit::slot(e, i)[0] == cpm_edit::mark(e, i),
        cpm_edit::slot(d, i) == cpm_edit::slot(e, i) || cpm_edit::mark(d, i) == 0xE5,
{
    assert(cpm_edit::slot(d, i)[0] == d[32 * i]);
    assert(cpm_edit::slot(e, i)[0] == e[32 * i]);
}

proof fn lemma_alike_free_slots(d: Seq<u8>, e: Seq<u8>, n: int)
    requires
        alike(d, e),
        0 <= n <= d.len() / 32,
    ensures
        cpm_edit::free_slots(d, n) == cpm_edit::free_slots(e, n),
    decreases n,
{
    if n > 0 {
        lemma_alike_free_slots(d, e, n - 1);
        lemma_alike_marks(d, e, n - 1);
    }
}

proof fn lemma_alike_holds(d: Seq<u8>, e: Seq<u8>, user: u8, raw: Seq<u8>)
    requires
        alike(d, e),
        user <= 31,
        cpm_edit::holds(d, user, raw),
    ensures
        cpm_edit::holds(e, user, raw),
{
    let i = choose|i: int| 0 <= i < d.len() / 32 && cpm_edit::matches(#[trigger] cpm_edit::slot(d, i), user, raw);
    lemma_alike_marks(d, e, i);
    assert(cpm_edit::matches(cpm_edit::slot(e, i), user, raw));
}

proof fn lemma_alike_names(spec: DiskSpecification, d: Seq<u8>, e: Seq<u8>, i: int, b: int)
    requires
        alike(d, e),
        0 <= i < d.len() / 32,
    ensures
        cpm_edit::names_block(spec, d, i, b) == cpm_edit::names_block(spec, e, i, b),
{
    lemma_alike_marks(d, e, i);
}

proof fn lemma_alike_free(spec: DiskSpecification, d: Seq<u8>, e: Seq<u8>, n: int)
    requires
        alike(d, e),
    ensures
        cpm_edit::free_to(spec, d, n) == cpm_edit::free_to(spec, e, n),
    decreases n,
{
    if n > 1 {
        lemma_alike_free(spec, d, e, n - 1);
        let slots = d.len() as int / 32;
        let b = n - 1;
        if cpm_edit::taken_to(spec, d, slots, b) && b >= spec.directory_blocks {
            let i = choose|i: int| 0 <= i < slots && #[trigger] cpm_edit::names_block(spec, d, i, b);
            lemma_alike_names(spec, d, e, i, b);
            assert(cpm_edit::names_block(spec, e, i, b));
        }
        if cpm_edit::taken_to(spec, e, slots, b) && b >= spec.directory_blocks {
            let i = choose|i: int| 0 <= i < slots && #[trigger] cpm_edit::names_block(spec, e, i, b);
            lemma_alike_names(spec, d, e, i, b);
            assert(cpm_edit::names_block(spec, d, i, b));
        }
    }
}

/// The directory after a file has been entered and removed again.
proof fn lemma_entered_and_removed(
    spec: DiskSpecification,
    dir: Seq<u8>,
    name: Seq<char>,
    user: u8,
    raw: Seq<u8>,
    len: int,
    free: Seq<u16>,
    n: int,
)
    requires
        names::cpm_key(name) == Ok::<(u8, Seq<u8>), ErrorView>((user, raw)),
        user <= 31,
        0 <= n <= cpm_edit::free_slots(dir, dir.len() as int / 32),
        !cpm_edit::holds(dir, user, raw),
    ensures
        alike(cpm_edit::without(cpm_edit::filled_to(spec, dir, user, raw, len, free, n), user, raw), dir),
{
    let entered = cpm_edit::filled_to(spec, dir, user, raw, len, free, n);
    let removed = cpm_edit::without(entered, user, raw);
    cpm_entries::lemma_filled(spec, dir, user, raw, len, free, n);
    cpm_entries::lemma_raw_plain(name);
    assert forall|i: int| 0 <= i < removed.len() / 32 implies #[trigger] cpm_edit::slot(removed, i) == cpm_edit::slot(dir, i) || (
    cpm_edit::mark(removed, i) == 0xE5 && cpm_edit::mark(dir, i) == 0xE5) by {
        assert(cpm_edit::slot(entered, i) == cpm_entries::slot_after(spec, dir, user, raw, len, free, n, i));
        assert(!cpm_edit::matches(cpm_edit::slot(dir, i), user, raw));
        cpm_entries::lemma_slot_without(entered, user, raw, i);
        assert(cpm_edit::slot(removed, i)[0] == removed[32 * i]);
        if cpm_edit::mark(dir, i) == 0xE5 && cpm_edit::free_slots(dir, i) < n {
            let entry = cpm_edit::extent_bytes(spec, user, raw, len, free, cpm_edit::free_slots(dir, i));
            assert forall|k: int| 0 <= k < 11 implies #[trigger] entry[k + 1] % 128 == raw[k] by {
                assert(raw[k] < 128);
            }
            assert(cpm_edit::matches(cpm_edit::slot(entered, i), user, raw));
        }
    }
}

/// A sector that has an address can be written, and no sector moves.
pub proof fn lemma_written(image: ImageView, spec: DiskSpecification, x: int, data: Seq<u8>)
    requires
        spec.sector_size > 0,
        cpm_edit::address(image, spec, x) is Ok,
        data.len() == spec.sector_size,
    ensures
        ({
            let a = cpm_edit::address(image, spec, x)->Ok_0;
            image.write(a.0, a.1, a.2, data) matches Ok(after) && forall|y: int| #[trigger] cpm_edit::address(after, spec, y)
                == cpm_edit::address(image, spec, y)
        }),
{
    let a = cpm_edit::address(image, spec, x)->Ok_0;
    assert(image.read(a.0, a.1, a.2) is Ok);
    let after = image.write(a.0, a.1, a.2, data)->Ok_0;
    laws::law_write_keeps_layout(image, after, a.0, a.1, a.2, data);
    assert forall|y: int| #[trigger] cpm_edit::address(after, spec, y) == cpm_edit::address(image, spec, y) by {
        cpm_sectors::lemma_address_kept(image, after, spec, y, a, data);
    }
}

/// Sectors that can be written on one disk can be written on another whose sectors lie at the
/// same places.
pub proof fn lemma_stored_as_well(a: ImageView, b: ImageView, spec: DiskSpecification, free: Seq<u16>, data: Seq<u8>, n: int)
    requires
        spec.sector_size > 0,
        forall|x: int| #[trigger] cpm_edit::address(a, spec, x) == cpm_edit::address(b, spec, x),
        cpm_edit::stored_to(a, spec, free, data, n) is Ok,
    ensures
        cpm_edit::stored_to(b, spec, free, data, n) is Ok,
        forall|x: int| #[trigger] cpm_edit::address(cpm_edit::stored_to(a, spec, free, data, n)->Ok_0, spec, x) == cpm_edit::address(a, spec, x),
        forall|x: int| #[trigger] cpm_edit::address(cpm_edit::stored_to(b, spec, free, data, n)->Ok_0, spec, x) == cpm_edit::address(a, spec, x),
    decreases n,
{
    if n > 0 {
        lemma_stored_as_well(a, b, spec, free, data, n - 1);
        let i = cpm_edit::stored_to(a, spec, free, data, n - 1)->Ok_0;
        let j = cpm_edit::stored_to(b, spec, free, data, n - 1)->Ok_0;
        let x = cpm_edit::file_sector(spec, free, n - 1);
        assert(cpm_edit::address(i, spec, x) == cpm_edit::address(a, spec, x));
        assert(cpm_edit::address(j, spec, x) == cpm_edit::address(a, spec, x));
        let bytes = cpm_edit::file_sector_bytes(data, spec.sector_size as int, n - 1);
        lemma_written(i, spec, x, bytes);
        lemma_written(j, spec, x, bytes);
    }
}

/// A directory can be written where its sectors have addresses.
pub proof fn lemma_put_succeeds(image: ImageView, spec: DiskSpecification, addresses: Seq<Address>, dir: Seq<u8>, n: int)
    requires
        spec.sector_size > 0,
        0 <= n <= addresses.len(),
        dir.len() == addresses.len() * spec.sector_size,
        forall|i: int| 0 <= i < addresses.len() ==> cpm_edit::address(image, spec, spec.first_sector() + i)
            == Ok::<Address, ErrorView>(#[trigger] addresses[i]),
    ensures
        cpm_edit::put_to(image, addresses, dir, spec.sector_size as int, n) matches Ok(after) && forall|x: int|
            #[trigger] cpm_edit::address(after, spec, x) == cpm_edit::address(image, spec, x),
    decreases n,
{
    if n > 0 {
        let ss = spec.sector_size as int;
        lemma_put_succeeds(image, spec, addresses, dir, n - 1);
        let before = cpm_edit::put_to(image, addresses, dir, ss, n - 1)->Ok_0;
        let x = spec.first_sector() + (n - 1);
        assert(cpm_edit::address(image, spec, spec.first_sector() + (n - 1)) == Ok::<Address, ErrorView>(addresses[n - 1]));
        assert(0 <= ss * (n - 1) && ss * (n - 1) + ss <= dir.len()) by (nonlinear_arith)
            requires
                1 <= n <= addresses.len(),
                dir.len() == addresses.len() * ss,
                ss > 0,
        ;
        assert(cpm_edit::address(before, spec, x) == cpm_edit::address(image, spec, x));
        lemma_written(before, spec, x, dir.subrange(ss * (n - 1), ss * (n - 1) + ss));
    }
}

/// A file can be stored on any disk whose sectors lie at the same places and whose directory
/// leaves the same slots and blocks free.
proof fn lemma_imported_as_well(a: ImageView, b: ImageView, name: Seq<char>, data: Seq<u8>)
    requires
        cpm_edit::imported(a, name, data) is Ok,
        cpm_laws::sound(a),
        ({
            let spec = specification::identified(a);
            &&& specification::identified(b) == spec
            &&& cpm_blocks::plain_directory(b, spec)
            &&& alike(cpm_laws::written(b, spec), cpm_laws::written(a, spec))
            &&& forall|x: int| #[trigger] cpm_edit::address(b, spec, x) == cpm_edit::address(a, spec, x)
        }),
    ensures
        cpm_edit::imported(b, name, data) is Ok,
{
    let spec = specification::identified(a);
    let len = data.len() as int;
    let (user, raw) = names::cpm_key(name)->Ok_0;
    cpm_laws::lemma_user(name);
    let d = cpm_laws::written(a, spec);
    let e = cpm_laws::written(b, spec);
    cpm_blocks::lemma_same_addresses(b, a, spec, spec.first_sector(), cpm_edit::directory_sectors(spec));
    cpm_blocks::lemma_directory_at(a, spec);
    cpm_blocks::lemma_directory_at(b, spec);
    let (addresses, dir) = cpm_edit::directory_at(b, spec)->Ok_0;
    assert(dir == e);
    lemma_alike_free_slots(e, d, d.len() as int / 32);
    lemma_alike_free(spec, e, d, spec.blocks());
    if cpm_edit::holds(e, user, raw) {
        lemma_alike_holds(e, d, user, raw);
    }
    let free = cpm_edit::free_to(spec, e, spec.blocks()).take(cpm_edit::blocks_needed(spec, len));
    let total = free.len() * cpm_model::sectors_per_block(spec);
    lemma_stored_as_well(a, b, spec, free, data, total);
    let mid = cpm_edit::stored_to(b, spec, free, data, total)->Ok_0;
    let extents = cpm_edit::extent_count(spec, len);
    cpm_laws::lemma_extents_positive(spec, len);
    cpm_entries::lemma_filled(spec, e, user, raw, len, free, extents);
    let dir1 = cpm_edit::filled_to(spec, e, user, raw, len, free, extents);
    assert forall|i: int| 0 <= i < addresses.len() implies cpm_edit::address(mid, spec, spec.first_sector() + i) == Ok::<
        Address,
        ErrorView,
    >(#[trigger] addresses[i]) by {}
    lemma_put_succeeds(mid, spec, addresses, dir1, addresses.len() as int);
}

/// Directories that differ only behind the marks of free slots list the same files.
proof fn lemma_alike_entries(spec: DiskSpecification, d: Seq<u8>, e: Seq<u8>, n: int)
    requires
        alike(d, e),
        0 <= n <= d.len() / 32,
    ensures
        cpm_model::entries_to(d, spec, false, n) == cpm_model::entries_to(e, spec, false, n),
    decreases n,
{
    if n > 0 {
        lemma_alike_entries(spec, d, e, n - 1);
        lemma_alike_marks(d, e, n - 1);
        assert(d.subrange(32 * (n - 1), 32 * n) =~= cpm_edit::slot(d, n - 1));
        assert(e.subrange(32 * (n - 1), 32 * n) =~= cpm_edit::slot(e, n - 1));
    }
}

/// A file that has been stored can be removed. The directory then lists what it listed before,
/// and the space is free again: whatever could have been stored before the file can be stored
/// after its removal.
pub proof fn law_delete_frees(image: ImageView, name: Seq<char>, data: Seq<u8>, after: ImageView, other: Seq<char>, other_data: Seq<u8>)
    requires
        cpm_edit::imported(image, name, data) == Ok::<ImageView, ErrorView>(after),
        cpm_laws::sound_for(image, data.len() as int),
    ensures
        cpm_edit::deleted(after, name) is Ok,
        specification::identified(cpm_edit::deleted(after, name)->Ok_0) == specification::identified(image),
        cpm_model::directory(cpm_edit::deleted(after, name)->Ok_0, specification::identified(image), false) == cpm_model::directory(
            image,
            specification::identified(image),
            false,
        ),
        cpm_edit::imported(cpm_edit::deleted(after, name)->Ok_0, name, data) is Ok,
        cpm_edit::imported(image, other, other_data) is Ok ==> cpm_edit::imported(
            cpm_edit::deleted(after, name)->Ok_0,
            other,
            other_data,
        ) is Ok,
{
    let spec = specification::identified(image);
    let len = data.len() as int;
    let (user, raw) = names::cpm_key(name)->Ok_0;
    let d = cpm_laws::written(image, spec);
    let free = cpm_laws::new_blocks(image, spec, len);
    let extents = cpm_edit::extent_count(spec, len);
    cpm_laws::lemma_imported(image, name, data, after);
    cpm_laws::lemma_extents_positive(spec, len);
    cpm_entries::lemma_filled_holds(spec, d, name, user, raw, len, free, extents);
    cpm_blocks::lemma_same_addresses(after, image, spec, spec.first_sector(), cpm_edit::directory_sectors(spec));
    cpm_blocks::lemma_directory_at(after, spec);
    let (addresses, dir) = cpm_edit::directory_at(after, spec)->Ok_0;
    cpm_blocks::lemma_put(after, spec, addresses, cpm_edit::without(dir, user, raw), addresses.len() as int);
    let removed = cpm_edit::deleted(after, name)->Ok_0;
    cpm_laws::lemma_deleted(after, name, removed);
    lemma_entered_and_removed(spec, d, name, user, raw, len, free, extents);
    cpm_blocks::lemma_shown_len(spec);
    cpm_blocks::lemma_shown_entries(image, spec, d, false);
    cpm_blocks::lemma_shown_entries(removed, spec, cpm_laws::written(removed, spec), false);
    lemma_alike_entries(spec, cpm_laws::written(removed, spec), d, cpm_blocks::shown_slots(spec));
    lemma_imported_as_well(image, removed, name, data);
    if cpm_edit::imported(image, other, other_data) is Ok {
        lemma_imported_as_well(image, removed, other, other_data);
    }
}

}
