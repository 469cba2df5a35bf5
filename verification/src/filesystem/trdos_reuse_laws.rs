//! Laws of TR-DOS space: what a removed file took can be used again at once.

use crate::bytes;
use crate::error::ErrorView;
use crate::filesystem::names;
use crate::filesystem::trdos;
use crate::filesystem::trdos::TrdosEntryView;
use crate::filesystem::trdos_edit;
use crate::filesystem::trdos_edit::SurvivorView;
use crate::filesystem::trdos_laws;
use crate::image::laws;
use crate::image::ImageView;
use crate::text;
use vstd::prelude::*;

verus! {

/// Whether a disk has the TR-DOS sectors from `first` up to `end`.
pub open spec fn has_sectors(image: ImageView, first: int, end: int) -> bool {
    forall|n: int| first <= n < end ==> #[trigger] trdos_edit::address(image, n) is Ok
}

/// Whether a sector has an address is a matter of layout.
pub proof fn lemma_address(a: ImageView, b: ImageView, n: int)
    requires
        laws::same_layout(a, b),
    ensures
        trdos_edit::address(a, n) is Ok ==> trdos_edit::address(b, n) is Ok,
{
    let p = trdos::place(a.spec.num_tracks as int, n);
    laws::lemma_same_layout_reads(a, b, p.0, p.1, p.2);
}

/// Sectors that are there can be written.
proof fn lemma_stored(image: ImageView, first: int, data: Seq<u8>, n: int)
    requires
        has_sectors(image, first, first + n),
        0 <= n,
    ensures
        trdos_edit::stored_to(image, first, data, n) matches Ok(after) && laws::same_layout(image, after),
    decreases n,
{
    if n <= 0 {
        laws::lemma_same_layout_reflexive(image);
    } else {
        lemma_stored(image, first, data, n - 1);
        let before = trdos_edit::stored_to(image, first, data, n - 1)->Ok_0;
        let i = first + n - 1;
        assert(trdos_edit::address(image, i) is Ok);
        lemma_address(image, before, i);
        let a = trdos_edit::address(before, i)->Ok_0;
        let part = bytes::padded_part(data, 256 * (n - 1), 256);
        let after = before.write(a.0, a.1, a.2, part)->Ok_0;
        laws::law_write_keeps_layout(before, after, a.0, a.1, a.2, part);
        laws::lemma_same_layout_chain(image, before, after);
    }
}

/// A free slot is found where there is one.
proof fn lemma_slot_found(image: ImageView, from: int, slot: int)
    requires
        0 <= from <= slot < 128,
        trdos_edit::slot_free(image, slot),
    ensures
        trdos_edit::slot_from(image, from) matches Some(i) && from <= i <= slot && trdos_edit::slot_free(image, i),
    decreases slot - from,
{
    if !trdos_edit::slot_free(image, from) {
        lemma_slot_found(image, from + 1, slot);
    }
}

/// A disk accepts every file with a valid name and type that is not there yet, where the catalog
/// and the disk have room for it, a directory slot is free, and its sectors are there.
pub proof fn lemma_accepts(image: ImageView, name: Seq<char>, data: Seq<u8>, slot: int)
    requires
        trdos::is_trdos(image),
        names::fits(trdos::stem(name), 8),
        trdos_edit::kind_of(name) is Some,
        data.len() <= 65280,
        trdos::find(trdos::entries(image), trdos::stem(name)) is None,
        trdos::catalog(image) matches Some(c) && {
            let first = trdos_edit::first_free(c);
            let count = trdos_edit::sectors_needed(data.len() as int);
            &&& 16 <= first
            &&& first + count <= trdos_edit::total_sectors(image)
            &&& count <= c.free_sectors
            &&& has_sectors(image, first, first + count)
        },
        0 <= slot < 128,
        trdos_edit::slot_free(image, slot),
    ensures
        trdos_edit::imported(image, name, data) is Ok,
{
    reveal(trdos_edit::imported);
    let c = trdos::catalog(image).unwrap();
    let first = trdos_edit::first_free(c);
    let count = trdos_edit::sectors_needed(data.len() as int);
    bytes::lemma_div_up(data.len() as int, 256);
    lemma_slot_found(image, 0, slot);
    let i = trdos_edit::slot_from(image, 0).unwrap();
    lemma_stored(image, first, data, count);
    trdos_edit::lemma_stored(image, first, data, count);
    let mid = trdos_edit::stored_to(image, first, data, count)->Ok_0;
    assert(trdos::is_trdos(mid)) by {
        assert forall|k: u8| 1 <= k <= 9 implies (#[trigger] mid.read(0, 0, k) matches Ok(s) && s.len() >= 256) by {
            assert(mid.read(0, 0, k) == image.read(0, 0, k));
        }
    }
    let raw = names::padded_bytes(trdos::stem(name), 8);
    let kind = trdos_edit::kind_of(name).unwrap();
    let entry = trdos_edit::entry_bytes(raw, kind, data.len() as int, count, c);
    trdos_edit::lemma_with_slot(mid, i, 0, entry);
    let entered = trdos_edit::with_slot(mid, i, 0, entry)->Ok_0;
    trdos_edit::lemma_with_catalog(entered, first + count, true, c.free_sectors - count);
}

/// Files that are stored again take the first directory slots.
proof fn lemma_slots_taken(image: ImageView, files: Seq<SurvivorView>, n: int, after: ImageView)
    requires
        0 <= n <= files.len(),
        n <= 128,
        trdos_edit::restored_to(image, files, n) == Ok::<ImageView, ErrorView>(after),
        forall|i: int| 0 <= i < 128 ==> #[trigger] trdos_edit::slot_free(image, i),
    ensures
        forall|i: int| 0 <= i < 128 ==> #[trigger] trdos_edit::slot_free(after, i) == (i >= n),
    decreases n,
{
    if n > 0 {
        let mid = trdos_edit::restored_to(image, files, n - 1)->Ok_0;
        let file = files[n - 1];
        lemma_slots_taken(image, files, n - 1, mid);
        trdos_laws::lemma_restored_slots(mid, file, after);
        assert(trdos_edit::slot_free(mid, n - 1));
        lemma_slot_found(mid, 0, n - 1);
        let slot = trdos_edit::slot_from(mid, 0).unwrap();
        assert(slot == n - 1);
        assert forall|i: int| 0 <= i < 128 implies #[trigger] trdos_edit::slot_free(after, i) == (i >= n) by {
            if i != slot {
                assert(trdos::slot_at(after, i) == trdos::slot_at(mid, i));
                assert(trdos_edit::slot_free(mid, i) == (i >= n - 1));
            }
        }
    }
}

/// A directory has no more entries than slots.
proof fn lemma_entry_count(image: ImageView, n: int)
    requires
        0 <= n,
    ensures
        trdos::entries_to(image, n).len() <= n,
    decreases n,
{
    if n > 0 {
        lemma_entry_count(image, n - 1);
    }
}

/// Survivors are files of the disk, fewer than all entries where one is left out.
proof fn lemma_survivor_sources(image: ImageView, entries: Seq<TrdosEntryView>, base: Seq<char>, n: int)
    requires
        0 <= n <= entries.len(),
    ensures
        trdos_edit::survivors_to(image, entries, base, n) matches Ok(files) ==> {
            &&& files.len() <= n
            &&& (exists|k: int| 0 <= k < n && trdos::is_file(#[trigger] entries[k], base)) ==> files.len() < n
            &&& forall|m: int| 0 <= m < files.len() ==> exists|k: int|
                0 <= k < n && !(#[trigger] entries[k]).deleted && entries[k].filename == (#[trigger] files[m]).base
        },
    decreases n,
{
    if n > 0 {
        lemma_survivor_sources(image, entries, base, n - 1);
        if let Ok(files) = trdos_edit::survivors_to(image, entries, base, n) {
            let rest = trdos_edit::survivors_to(image, entries, base, n - 1)->Ok_0;
            if exists|k: int| 0 <= k < n && trdos::is_file(#[trigger] entries[k], base) {
                let k = choose|k: int| 0 <= k < n && trdos::is_file(#[trigger] entries[k], base);
                if k < n - 1 {
                    assert(trdos::is_file(entries[k], base));
                    assert(rest.len() < n - 1);
                }
            }
            assert forall|m: int| 0 <= m < files.len() implies exists|k: int|
                0 <= k < n && !(#[trigger] entries[k]).deleted && entries[k].filename == (#[trigger] files[m]).base by {
                if m < rest.len() {
                    assert(files[m] == rest[m]);
                    let k = choose|k: int| 0 <= k < n - 1 && !(#[trigger] entries[k]).deleted && entries[k].filename == rest[m].base;
                    assert(!entries[k].deleted);
                } else {
                    assert(!entries[n - 1].deleted);
                }
            }
        }
    }
}

/// The space of a removed file can be used again at once: the disk then accepts every file with a
/// valid name and type, be it the name of the removed file or one that is not on the disk, that
/// fits behind the remaining files. The sectors that it takes must be there. (The catalog counts
/// tracks up to 255 and free sectors up to 65535.)
pub proof fn law_delete_frees(image: ImageView, name: Seq<char>, after: ImageView, other: Seq<char>, data: Seq<u8>)
    requires
        trdos_edit::deleted(image, name) == Ok::<ImageView, ErrorView>(after),
        trdos::catalog(image) is Some,
        names::fits(trdos::stem(other), 8),
        trdos_edit::kind_of(other) is Some,
        data.len() <= 65280,
        trdos::find(trdos::entries(image), trdos::stem(other)) is None || text::same_name(trdos::stem(other), trdos::stem(name)),
        ({
            let files = trdos_laws::survivors(image, name);
            let taken = trdos_laws::sectors_of(files, files.len() as int);
            let count = trdos_edit::sectors_needed(data.len() as int);
            &&& 16 + taken < 4096
            &&& taken + count <= (trdos_edit::total_sectors(image) - 16) % 65536
            &&& has_sectors(image, 16 + taken, 16 + taken + count)
        }),
    ensures
        trdos_edit::imported(after, other, data) is Ok,
{
    let base = trdos::stem(name);
    let wanted = trdos::stem(other);
    let entries = trdos::entries(image);
    let files = trdos_laws::survivors(image, name);
    let n = files.len() as int;
    let taken = trdos_laws::sectors_of(files, n);
    let count = trdos_edit::sectors_needed(data.len() as int);
    let total = trdos_edit::total_sectors(image);
    trdos_laws::law_delete_packs(image, name, after);
    trdos_laws::lemma_emptied(image);
    let empty = trdos_edit::emptied(image)->Ok_0;
    lemma_entry_count(image, 128);
    trdos_edit::lemma_find(entries, base, 0);
    lemma_survivor_sources(image, entries, base, entries.len() as int);
    lemma_slots_taken(empty, files, n, after);
    assert(trdos_edit::slot_free(after, n));
    if n == 0 {
        assert(after == empty);
    }
    assert(total >= 16) by (nonlinear_arith)
        requires
            total == image.spec.num_tracks * image.spec.num_sides * 16,
            image.spec.num_tracks >= 1,
            image.spec.num_sides >= 1,
    ;
    assert(trdos::find(trdos::entries(after), wanted) is None) by {
        let list = trdos::entries(after);
        trdos_edit::lemma_find(list, wanted, 0);
        trdos_edit::lemma_find(entries, wanted, 0);
        trdos_laws::law_delete_then_absent(image, name, after);
        trdos_edit::lemma_find(list, base, 0);
        if let Some(f) = trdos::find(list, wanted) {
            let k = choose|k: int| 0 <= k < list.len() && #[trigger] list[k] == f && trdos::is_file(f, wanted);
            assert(trdos_laws::belongs(list[k], files, n));
            let m = choose|m: int| 0 <= m < n && text::same_name(list[k].filename, #[trigger] files[m].base);
            let j = choose|j: int| 0 <= j < entries.len() && !(#[trigger] entries[j]).deleted && entries[j].filename == files[m].base;
            assert(trdos::is_file(entries[j], wanted));
            assert(trdos::is_file(list[k], base));
        }
    }
    assert forall|i: int| 16 + taken <= i < 16 + taken + count implies #[trigger] trdos_edit::address(after, i) is Ok by {
        assert(trdos_edit::address(image, i) is Ok);
        lemma_address(image, after, i);
    }
    lemma_accepts(after, other, data, n);
}

/// What could be stored before a file is removed can be stored after it, on a disk whose sectors
/// are all there and whose catalog gives no space away that is in use.
pub proof fn law_delete_keeps_room(image: ImageView, name: Seq<char>, after: ImageView, other: Seq<char>, data: Seq<u8>)
    requires
        trdos_edit::deleted(image, name) == Ok::<ImageView, ErrorView>(after),
        trdos_edit::imported(image, other, data) is Ok,
        trdos_edit::total_sectors(image) < 65536,
        has_sectors(image, 16, trdos_edit::total_sectors(image)),
        ({
            let files = trdos_laws::survivors(image, name);
            let taken = trdos_laws::sectors_of(files, files.len() as int);
            &&& 16 + taken < 4096
            &&& 16 + taken <= trdos_edit::first_free(trdos::catalog(image).unwrap())
        }),
    ensures
        trdos_edit::imported(after, other, data) is Ok,
{
    trdos_edit::lemma_imported(image, other, data, trdos_edit::imported(image, other, data)->Ok_0);
    assert(names::fits(trdos::stem(other), 8)) by {
        reveal(trdos_edit::imported);
    }
    let files = trdos_laws::survivors(image, name);
    let taken = trdos_laws::sectors_of(files, files.len() as int);
    let count = trdos_edit::sectors_needed(data.len() as int);
    trdos_laws::lemma_sectors_grow(files, 0, files.len() as int);
    assert forall|n: int| 16 + taken <= n < 16 + taken + count implies #[trigger] trdos_edit::address(image, n) is Ok by {}
    bytes::lemma_div_up(data.len() as int, 256);
    law_delete_frees(image, name, after, other, data);
}

}
