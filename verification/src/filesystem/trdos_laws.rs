//! Laws of TR-DOS disks: what is read after files have been stored and removed.

use crate::bytes;
use crate::error::ErrorView;
use crate::filesystem::trdos;
use crate::filesystem::trdos::TrdosEntryView;
use crate::filesystem::trdos_edit;
use crate::filesystem::trdos_edit::SurvivorView;
use crate::image::laws;
use crate::image::ImageView;
use crate::text;
use vstd::prelude::*;

verus! {

/// Different sectors lie in different places.
proof fn lemma_places_differ(tracks: int, sides: int, a: int, b: int)
    requires
        0 < tracks <= 255,
        0 <= sides <= 255,
        16 <= a < tracks * sides * 16,
        16 <= b < tracks * sides * 16,
        a != b,
    ensures
        trdos::place(tracks, a) != trdos::place(tracks, b),
{
    trdos_edit::lemma_place(tracks, sides, a);
    trdos_edit::lemma_place(tracks, sides, b);
    vstd::arithmetic::div_mod::lemma_fundamental_div_mod(a / 16, tracks);
    vstd::arithmetic::div_mod::lemma_fundamental_div_mod(b / 16, tracks);
}

/// The data of sector `n`.
pub open spec fn sector(image: ImageView, n: int) -> Result<Seq<u8>, ErrorView> {
    let a = trdos::place(image.spec.num_tracks as int, n);
    image.read(a.0, a.1, a.2)
}

/// What is read after the first `n` sectors of a file have been written.
proof fn lemma_stored(image: ImageView, first: int, data: Seq<u8>, n: int)
    requires
        image.spec.num_tracks > 0,
        first >= 16,
        n >= 0,
        first + n <= trdos_edit::total_sectors(image),
    ensures
        trdos_edit::stored_to(image, first, data, n) matches Ok(after) ==> {
            &&& laws::same_layout(image, after)
            &&& forall|i: int| 16 <= i < trdos_edit::total_sectors(image) ==> #[trigger] sector(after, i) == (if first <= i < first + n {
                Ok::<Seq<u8>, ErrorView>(bytes::padded_part(data, 256 * (i - first), 256))
            } else {
                sector(image, i)
            })
        },
    decreases n,
{
    if n <= 0 {
        laws::lemma_same_layout_reflexive(image);
    } else {
        lemma_stored(image, first, data, n - 1);
        if let Ok(after) = trdos_edit::stored_to(image, first, data, n) {
            let before = trdos_edit::stored_to(image, first, data, n - 1)->Ok_0;
            let a = trdos_edit::address(before, first + n - 1)->Ok_0;
            let part = bytes::padded_part(data, 256 * (n - 1), 256);
            let tracks = image.spec.num_tracks as int;
            let sides = image.spec.num_sides as int;
            laws::law_write_keeps_layout(before, after, a.0, a.1, a.2, part);
            laws::lemma_same_layout_chain(image, before, after);
            laws::law_read_after_write(before, after, a.0, a.1, a.2, part);
            assert forall|i: int| 16 <= i < trdos_edit::total_sectors(image) implies #[trigger] sector(after, i) == (if first <= i
                < first + n {
                Ok::<Seq<u8>, ErrorView>(bytes::padded_part(data, 256 * (i - first), 256))
            } else {
                sector(image, i)
            }) by {
                if i != first + n - 1 {
                    lemma_places_differ(tracks, sides, i, first + n - 1);
                    let p = trdos::place(tracks, i);
                    laws::law_write_leaves_others(before, after, a.0, a.1, a.2, part, p.0, p.1, p.2);
                    assert(sector(before, i) == (if first <= i < first + (n - 1) {
                        Ok::<Seq<u8>, ErrorView>(bytes::padded_part(data, 256 * (i - first), 256))
                    } else {
                        sector(image, i)
                    }));
                }
            }
        }
    }
}

/// What is read behind track 0 after a file has been stored.
pub proof fn lemma_imported_sectors(image: ImageView, name: Seq<char>, data: Seq<u8>, after: ImageView)
    requires
        trdos_edit::imported(image, name, data) == Ok::<ImageView, ErrorView>(after),
    ensures
        ({
            let c = trdos::catalog(image).unwrap();
            let first = trdos_edit::first_free(c);
            let count = trdos_edit::sectors_needed(data.len() as int);
            &&& 16 <= first
            &&& 0 <= count <= 255
            &&& count <= c.free_sectors
            &&& first + count <= trdos_edit::total_sectors(image)
            &&& forall|i: int| 16 <= i < trdos_edit::total_sectors(image) ==> #[trigger] sector(after, i) == (if first <= i < first
                + count {
                Ok::<Seq<u8>, ErrorView>(bytes::padded_part(data, 256 * (i - first), 256))
            } else {
                sector(image, i)
            })
        }),
{
    let c = trdos::catalog(image).unwrap();
    let first = trdos_edit::first_free(c);
    let count = trdos_edit::sectors_needed(data.len() as int);
    bytes::lemma_div_up(data.len() as int, 256);
    trdos_edit::lemma_imported(image, name, data, after);
    lemma_stored(image, first, data, count);
    let mid = trdos_edit::stored_to(image, first, data, count)->Ok_0;
    assert forall|i: int| 16 <= i < trdos_edit::total_sectors(image) implies #[trigger] sector(after, i) == (if first <= i < first
        + count {
        Ok::<Seq<u8>, ErrorView>(bytes::padded_part(data, 256 * (i - first), 256))
    } else {
        sector(image, i)
    }) by {
        trdos_edit::lemma_place(image.spec.num_tracks as int, image.spec.num_sides as int, i);
        assert(sector(after, i) == sector(mid, i));
    }
}

/// The data of a new file.
proof fn lemma_sectors_read(image: ImageView, first: int, data: Seq<u8>, count: int, n: int)
    requires
        0 <= n <= count,
        forall|i: int| first <= i < first + count ==> #[trigger] sector(image, i) == Ok::<Seq<u8>, ErrorView>(
            bytes::padded_part(data, 256 * (i - first), 256),
        ),
    ensures
        trdos::sectors_to(image, first, n) == Ok::<Seq<u8>, ErrorView>(bytes::padded_part(data, 0, 256 * n)),
    decreases n,
{
    if n <= 0 {
        assert(bytes::padded_part(data, 0, 0) =~= Seq::<u8>::empty());
    } else {
        lemma_sectors_read(image, first, data, count, n - 1);
        let i = first + n - 1;
        assert(sector(image, i) == Ok::<Seq<u8>, ErrorView>(bytes::padded_part(data, 256 * (i - first), 256)));
        assert(bytes::padded_part(data, 0, 256 * (n - 1)) + bytes::padded_part(data, 256 * (n - 1), 256) =~= bytes::padded_part(
            data,
            0,
            256 * n,
        ));
    }
}

/// A file that has been stored is found and read back byte for byte.
pub proof fn law_import_then_read(image: ImageView, name: Seq<char>, data: Seq<u8>, after: ImageView)
    requires
        trdos_edit::imported(image, name, data) == Ok::<ImageView, ErrorView>(after),
    ensures
        trdos::is_trdos(after),
        trdos::find(trdos::entries(after), trdos::stem(name)) == Some(trdos_edit::new_entry(image, name, data)),
        trdos::content(after, trdos_edit::new_entry(image, name, data)) == Ok::<Seq<u8>, ErrorView>(data),
        trdos::file_content(after, name) == Ok::<Seq<u8>, ErrorView>(data),
{
    let c = trdos::catalog(image).unwrap();
    let first = trdos_edit::first_free(c);
    let len = data.len() as int;
    let count = trdos_edit::sectors_needed(len);
    trdos_edit::lemma_imported(image, name, data, after);
    trdos_edit::lemma_imported_found(image, name, data, after);
    lemma_imported_sectors(image, name, data, after);
    lemma_sectors_read(after, first, data, count, count);
    bytes::lemma_div_up(len, 256);
    let d = bytes::padded_part(data, 0, 256 * count);
    assert(d.take(len) =~= data);
    assert(d.len() == len ==> d =~= data);
}

/// Dots stand in the same places of names that are the same up to case.
proof fn lemma_rfind_case(a: Seq<char>, b: Seq<char>)
    requires
        text::same_name(a, b),
    ensures
        a.len() == b.len(),
        text::rfind(a, '.') == text::rfind(b, '.'),
        text::rfind(a, '.') matches Some(i) ==> 0 <= i < a.len(),
    decreases a.len(),
{
    let u = text::upper_all(a);
    let v = text::upper_all(b);
    assert(u.len() == a.len() && v.len() == b.len());
    if a.len() > 0 {
        assert(u[a.len() - 1] == v[a.len() - 1]);
        assert(text::upper_all(a.drop_last()) =~= u.drop_last());
        assert(text::upper_all(b.drop_last()) =~= v.drop_last());
        lemma_rfind_case(a.drop_last(), b.drop_last());
    }
}

/// Names that are the same up to case have stems that are.
proof fn lemma_stem_case(a: Seq<char>, b: Seq<char>)
    requires
        text::same_name(a, b),
    ensures
        text::same_name(trdos::stem(a), trdos::stem(b)),
{
    lemma_rfind_case(a, b);
    if let Some(i) = text::rfind(a, '.') {
        assert(text::upper_all(a.take(i)) =~= text::upper_all(a).take(i));
        assert(text::upper_all(b.take(i)) =~= text::upper_all(b).take(i));
    }
}

/// A name that has been stored cannot be stored again, in upper or lower case, with whatever type
/// and data.
pub proof fn law_import_keeps_existing(image: ImageView, name: Seq<char>, data: Seq<u8>, after: ImageView, again: Seq<char>, other: Seq<u8>)
    requires
        trdos_edit::imported(image, name, data) == Ok::<ImageView, ErrorView>(after),
        text::same_name(again, name) || text::same_name(trdos::stem(again), trdos::stem(name)),
    ensures
        trdos_edit::imported(after, again, other) is Err,
{
    if text::same_name(again, name) {
        lemma_stem_case(again, name);
    }
    reveal(trdos_edit::imported);
    trdos_edit::lemma_imported_found(image, name, data, after);
    let list = trdos::entries(after);
    let e = trdos_edit::new_entry(image, name, data);
    trdos_edit::lemma_find(list, trdos::stem(name), 0);
    trdos_edit::lemma_find(list, trdos::stem(again), 0);
    let k = choose|k: int| 0 <= k < list.len() && #[trigger] list[k] == e && trdos::is_file(e, trdos::stem(name));
    assert(trdos::is_file(list[k], trdos::stem(again)));
}

/// Sectors that are the same read the same.
proof fn lemma_same_sectors(a: ImageView, b: ImageView, start: int, n: int)
    requires
        a.spec == b.spec,
        forall|i: int| start <= i < start + n ==> #[trigger] sector(a, i) == sector(b, i),
    ensures
        trdos::sectors_to(a, start, n) == trdos::sectors_to(b, start, n),
    decreases n,
{
    if n > 0 {
        lemma_same_sectors(a, b, start, n - 1);
        assert(sector(a, start + n - 1) == sector(b, start + n - 1));
    }
}

/// Whether a file lies behind track 0 and before sector `end`.
pub open spec fn before(entry: TrdosEntryView, end: int) -> bool {
    16 <= entry.start() && entry.start() + entry.sectors <= end
}

/// Whether a file lies on the disk, behind track 0, and apart from the next `count` sectors of
/// the free space.
pub open spec fn apart(image: ImageView, entry: TrdosEntryView, count: int) -> bool {
    let first = trdos_edit::first_free(trdos::catalog(image).unwrap());
    let end = entry.start() + entry.sectors;
    entry.sectors > 0 ==> {
        &&& 16 <= entry.start()
        &&& end <= trdos_edit::total_sectors(image)
        &&& count == 0 || end <= first || first + count <= entry.start()
    }
}

/// Storing a file leaves every other file where it was, with its content, unless that lies in
/// what counts as free space.
pub proof fn law_import_leaves_others(image: ImageView, name: Seq<char>, data: Seq<u8>, after: ImageView, entry: TrdosEntryView)
    requires
        trdos_edit::imported(image, name, data) == Ok::<ImageView, ErrorView>(after),
        trdos::entries(image).contains(entry),
        apart(image, entry, trdos_edit::sectors_needed(data.len() as int)),
    ensures
        trdos::entries(after).contains(entry),
        trdos::content(after, entry) == trdos::content(image, entry),
{
    trdos_edit::lemma_imported(image, name, data, after);
    lemma_imported_sectors(image, name, data, after);
    let old = trdos::entries(image);
    let k = choose|k: int| 0 <= k < old.len() && old[k] == entry;
    trdos_edit::lemma_listed_entry(image, 128, k);
    let slot = trdos_edit::slot_from(image, 0).unwrap();
    assert(entry.index != slot);
    assert(trdos::slot_at(after, entry.index) == trdos::slot_at(image, entry.index));
    trdos_edit::lemma_entry_listed(after, entry.index, 128);
    lemma_same_sectors(after, image, entry.start(), entry.sectors as int);
}

/// What an emptied disk holds.
pub proof fn lemma_emptied(image: ImageView)
    requires
        trdos::is_trdos(image),
    ensures
        trdos_edit::emptied(image) matches Ok(after) && {
            &&& laws::same_layout(image, after)
            &&& trdos::is_trdos(after)
            &&& trdos::entries(after).len() == 0
            &&& trdos::catalog(image) is Some ==> (trdos::catalog(after) matches Some(c) && trdos_edit::first_free(c) == 16
                && c.file_count == 0 && c.disk_type == trdos::catalog(image).unwrap().disk_type && c.free_sectors == (
            trdos_edit::total_sectors(image) - 16) % 65536)
            &&& trdos::catalog(image) is None ==> trdos::catalog(after) is None
            &&& forall|i: int| 0 <= i < 128 ==> #[trigger] trdos_edit::slot_free(after, i)
            &&& forall|s: u8, t: u8, id: u8| (s != 0 || t != 0) ==> #[trigger] after.read(s, t, id) == image.read(s, t, id)
        },
{
    lemma_cleared(image, 8);
    let mid = trdos_edit::cleared_to(image, 8)->Ok_0;
    let total = trdos_edit::total_sectors(image);
    assert(trdos::is_trdos(mid)) by {
        assert forall|k: u8| 1 <= k <= 9 implies (#[trigger] mid.read(0, 0, k) matches Ok(s) && s.len() >= 256) by {
            assert(image.read(0, 0, k) matches Ok(s) && s.len() >= 256);
        }
    }
    trdos_edit::lemma_with_catalog(mid, 16, false, total - 16);
    let after = trdos_edit::emptied(image)->Ok_0;
    laws::lemma_same_layout_chain(image, mid, after);
    assert forall|i: int| 0 <= i < 128 implies trdos::entry_of(#[trigger] trdos::slot_at(after, i), i) is None && trdos::slot_at(
        after,
        i,
    )[8] == 0 by {
        let k = (i / 16 + 1) as u8;
        assert(mid.read(0, 0, k) == Ok::<Seq<u8>, ErrorView>(Seq::new(256, |j: int| 0u8)));
        assert(trdos::slot_at(after, i) == trdos::slot_at(mid, i));
        assert(trdos::slot_at(mid, i)[0] == 0 && trdos::slot_at(mid, i)[8] == 0);
    }
    lemma_no_entries(after, 128);
    assert(mid.read(0, 0, 9) == image.read(0, 0, 9));
    assert(image.read(0, 0, 9) matches Ok(s) && s.len() >= 256);
    let s = trdos::system_sector(image, 9);
    let b = trdos_edit::catalog_bytes(s, 16, false, total - 16);
    assert(b[225] == 0 && b[226] == 1 && b[227] == s[227] && b[228] == 0 && b[231] == s[231]);
    assert(total >= 16) by (nonlinear_arith)
        requires
            total == image.spec.num_tracks * image.spec.num_sides * 16,
            image.spec.num_tracks >= 1,
            image.spec.num_sides >= 1,
    ;
    let free = total - 16;
    assert(b[229] == free % 256 && b[230] == free / 256 % 256);
    assert(free % 256 + 256 * (free / 256 % 256) == free % 65536);
}

/// Slots that are not in use give no entries.
proof fn lemma_no_entries(image: ImageView, n: int)
    requires
        0 <= n <= 128,
        forall|i: int| 0 <= i < 128 ==> trdos::entry_of(#[trigger] trdos::slot_at(image, i), i) is None,
    ensures
        trdos::entries_to(image, n).len() == 0,
    decreases n,
{
    if n > 0 {
        lemma_no_entries(image, n - 1);
    }
}

/// What is read after the first directory sectors have been cleared.
proof fn lemma_cleared(image: ImageView, n: int)
    requires
        trdos::is_trdos(image),
        0 <= n <= 8,
    ensures
        trdos_edit::cleared_to(image, n) matches Ok(after) && {
            &&& laws::same_layout(image, after)
            &&& forall|id: u8| 1 <= id <= n ==> #[trigger] after.read(0, 0, id) == Ok::<Seq<u8>, ErrorView>(Seq::new(256, |k: int| 0u8))
            &&& forall|id: u8| id > n || id == 0 ==> #[trigger] after.read(0, 0, id) == image.read(0, 0, id)
            &&& forall|s: u8, t: u8, id: u8| (s != 0 || t != 0) ==> #[trigger] after.read(s, t, id) == image.read(s, t, id)
        },
    decreases n,
{
    if n <= 0 {
        laws::lemma_same_layout_reflexive(image);
    } else {
        lemma_cleared(image, n - 1);
        let mid = trdos_edit::cleared_to(image, n - 1)->Ok_0;
        let id = n as u8;
        let zeros = Seq::new(256, |k: int| 0u8);
        assert(image.read(0, 0, id) is Ok);
        assert(mid.read(0, 0, id) == image.read(0, 0, id));
        assert(mid.sector(0, 0, id) is Some);
        let after = mid.write(0, 0, id, zeros)->Ok_0;
        laws::law_write_keeps_layout(mid, after, 0, 0, id, zeros);
        laws::lemma_same_layout_chain(image, mid, after);
        laws::law_read_after_write(mid, after, 0, 0, id, zeros);
        assert forall|k: u8| k != id implies #[trigger] after.read(0, 0, k) == mid.read(0, 0, k) by {
            laws::law_write_leaves_others(mid, after, 0, 0, id, zeros, 0, 0, k);
        }
        assert forall|s: u8, t: u8, k: u8| (s != 0 || t != 0) implies #[trigger] after.read(s, t, k) == image.read(s, t, k) by {
            laws::law_write_leaves_others(mid, after, 0, 0, id, zeros, s, t, k);
        }
    }
}

/// The number of sectors that the first `n` files take.
pub open spec fn sectors_of(files: Seq<SurvivorView>, n: int) -> int
    decreases n,
{
    if n <= 0 {
        0
    } else {
        sectors_of(files, n - 1) + trdos_edit::sectors_needed(files[n - 1].data.len() as int)
    }
}

/// More files take no fewer sectors.
pub proof fn lemma_sectors_grow(files: Seq<SurvivorView>, m: int, n: int)
    requires
        0 <= m <= n,
    ensures
        0 <= sectors_of(files, m) <= sectors_of(files, n),
    decreases n - m, n,
{
    if m < n {
        lemma_sectors_grow(files, m, n - 1);
        bytes::lemma_div_up(files[n - 1].data.len() as int, 256);
    } else if m > 0 {
        lemma_sectors_grow(files, m - 1, m - 1);
        bytes::lemma_div_up(files[m - 1].data.len() as int, 256);
    }
}

/// Whether an entry is the only one of its name, and that of the given file.
pub open spec fn entry_of_file(image: ImageView, file: SurvivorView, e: TrdosEntryView) -> bool {
    &&& trdos::entries(image).contains(e)
    &&& trdos::is_file(e, file.base)
    &&& forall|k: int| 0 <= k < trdos::entries(image).len() && trdos::is_file(#[trigger] trdos::entries(image)[k], file.base)
        ==> trdos::entries(image)[k] == e
    &&& e.file_type == text::upper(file.kind as char) as u8
    &&& e.param1 == file.param
    &&& trdos::content(image, e) == Ok::<Seq<u8>, ErrorView>(file.data)
}

/// Whether a file is there, behind track 0 and before sector `end`.
pub open spec fn has_file(image: ImageView, file: SurvivorView, end: int) -> bool {
    exists|e: TrdosEntryView| #[trigger] entry_of_file(image, file, e) && before(e, end)
}

/// Whether an entry belongs to one of the first `n` files of a list.
pub open spec fn belongs(e: TrdosEntryView, files: Seq<SurvivorView>, n: int) -> bool {
    !e.deleted && exists|m: int| 0 <= m < n && text::same_name(e.filename, #[trigger] files[m].base)
}

/// What a disk holds after the first `n` files of a list have been stored on it: these files,
/// one behind the other from track 1 on, and nothing else. All other space counts as free.
pub open spec fn packed(image: ImageView, files: Seq<SurvivorView>, n: int) -> bool {
    &&& trdos::is_trdos(image)
    &&& forall|m: int| 0 <= m < n ==> has_file(image, #[trigger] files[m], 16 + sectors_of(files, n))
    &&& forall|k: int| 0 <= k < trdos::entries(image).len() ==> belongs(#[trigger] trdos::entries(image)[k], files, n)
    &&& n > 0 ==> trdos::catalog(image) is Some
    &&& trdos::catalog(image) matches Some(c) ==> trdos_edit::first_free(c) == 16 + sectors_of(files, n) && c.free_sectors
        + sectors_of(files, n) == (trdos_edit::total_sectors(image) - 16) % 65536
}

/// The entry of a file that is stored again.
pub open spec fn restored_entry(image: ImageView, file: SurvivorView) -> TrdosEntryView {
    TrdosEntryView {
        param1: file.param,
        ..trdos_edit::new_entry(image, trdos_edit::full_name(file.base, file.kind), file.data)
    }
}

/// The two bytes of a parameter.
pub open spec fn param_bytes(param: u16) -> Seq<u8> {
    seq![(param % 256) as u8, (param / 256) as u8]
}

/// The steps in which a file is stored again.
proof fn lemma_restored_steps(image: ImageView, file: SurvivorView, after: ImageView) -> (mid: ImageView)
    requires
        trdos_edit::restored(image, file) == Ok::<ImageView, ErrorView>(after),
    ensures
        ({
            let name = trdos_edit::full_name(file.base, file.kind);
            &&& trdos_edit::imported(image, name, file.data) == Ok::<ImageView, ErrorView>(mid)
            &&& trdos::stem(name) == file.base
            &&& trdos_edit::kind_of(name) == Some(text::upper(file.kind as char) as u8)
            &&& trdos_edit::slot_from(image, 0) matches Some(slot) && 0 <= slot < 128 && trdos_edit::with_slot(
                mid,
                slot,
                11,
                param_bytes(file.param),
            ) == Ok::<ImageView, ErrorView>(after)
        }),
{
    let name = trdos_edit::full_name(file.base, file.kind);
    let mid = trdos_edit::imported(image, name, file.data)->Ok_0;
    trdos_edit::lemma_imported(image, name, file.data, mid);
    trdos_edit::lemma_full_name(file.base, file.kind);
    trdos_edit::lemma_imported_found(image, name, file.data, mid);
    mid
}

/// The directory after a file has been stored again.
pub proof fn lemma_restored_slots(image: ImageView, file: SurvivorView, after: ImageView)
    requires
        trdos_edit::restored(image, file) == Ok::<ImageView, ErrorView>(after),
    ensures
        laws::same_layout(image, after),
        trdos::is_trdos(after),
        trdos::catalog(image) is Some,
        trdos::find(trdos::entries(image), file.base) is None,
        ({
            let slot = trdos_edit::slot_from(image, 0).unwrap();
            &&& 0 <= slot < 128
            &&& trdos_edit::slot_free(image, slot)
            &&& trdos::entry_of(trdos::slot_at(after, slot), slot) == Some(restored_entry(image, file))
            &&& forall|i: int| 0 <= i < 128 && i != slot ==> #[trigger] trdos::slot_at(after, i) == trdos::slot_at(image, i)
        }),
{
    let mid = lemma_restored_steps(image, file, after);
    let name = trdos_edit::full_name(file.base, file.kind);
    let slot = trdos_edit::slot_from(image, 0).unwrap();
    trdos_edit::lemma_imported(image, name, file.data, mid);
    trdos_edit::lemma_with_slot(mid, slot, 11, param_bytes(file.param));
    laws::lemma_same_layout_chain(image, mid, after);
    lemma_slot_len(mid, slot);
    lemma_patched_entry(trdos::slot_at(mid, slot), slot, trdos_edit::new_entry(image, name, file.data), file.param);
    assert forall|i: int| 0 <= i < 128 && i != slot implies #[trigger] trdos::slot_at(after, i) == trdos::slot_at(image, i) by {
        assert(trdos::slot_at(after, i) == trdos::slot_at(mid, i));
    }
}

/// The data of a file that is stored again, and the free space behind it.
proof fn lemma_restored_data(image: ImageView, file: SurvivorView, after: ImageView)
    requires
        trdos_edit::restored(image, file) == Ok::<ImageView, ErrorView>(after),
    ensures
        ({
            let first = trdos_edit::first_free(trdos::catalog(image).unwrap());
            let count = trdos_edit::sectors_needed(file.data.len() as int);
            let e = restored_entry(image, file);
            &&& 16 <= first
            &&& 0 <= count <= 255
            &&& first + count <= trdos_edit::total_sectors(image)
            &&& forall|i: int| 16 <= i < first ==> #[trigger] sector(after, i) == sector(image, i)
            &&& trdos::content(after, e) == Ok::<Seq<u8>, ErrorView>(file.data)
            &&& e.start() == first
            &&& e.sectors == count
            &&& e.filename == text::upper_all(file.base)
            &&& e.file_type == text::upper(file.kind as char) as u8
            &&& e.param1 == file.param
            &&& !e.deleted
            &&& first + count < 4096 ==> (trdos::catalog(after) matches Some(d) && trdos_edit::first_free(d) == first + count
                && d.free_sectors == trdos::catalog(image).unwrap().free_sectors - count)
        }),
{
    let mid = lemma_restored_steps(image, file, after);
    let name = trdos_edit::full_name(file.base, file.kind);
    let c = trdos::catalog(image).unwrap();
    let first = trdos_edit::first_free(c);
    let count = trdos_edit::sectors_needed(file.data.len() as int);
    let slot = trdos_edit::slot_from(image, 0).unwrap();
    trdos_edit::lemma_imported(image, name, file.data, mid);
    trdos_edit::lemma_with_slot(mid, slot, 11, param_bytes(file.param));
    lemma_imported_sectors(image, name, file.data, mid);
    law_import_then_read(image, name, file.data, mid);
    let new = trdos_edit::new_entry(image, name, file.data);
    assert forall|i: int| 16 <= i < trdos_edit::total_sectors(image) implies #[trigger] sector(after, i) == sector(mid, i) by {
        trdos_edit::lemma_place(image.spec.num_tracks as int, image.spec.num_sides as int, i);
    }
    lemma_same_sectors(after, mid, new.start(), new.sectors as int);
    assert(image.read(0, 0, 9) matches Ok(t) && t.len() >= 256);
    if first + count < 4096 {
        lemma_next_free(trdos::system_sector(image, 9), first + count, c.free_sectors - count);
    }
}

/// What a catalog says of the free space.
proof fn lemma_next_free(s: Seq<u8>, next: int, free: int)
    requires
        s.len() >= 256,
        trdos::catalog_of(s) is Some,
        0 <= next < 4096,
        0 <= free < 65536,
    ensures
        trdos::catalog_of(trdos_edit::catalog_bytes(s, next, true, free)) matches Some(c) && trdos_edit::first_free(c) == next
            && c.free_sectors == free,
{
    let b = trdos_edit::catalog_bytes(s, next, true, free);
    assert(b[225] == next % 16 && b[226] == next / 16 % 256 && b[231] == s[231]);
    assert(b[229] == free % 256 && b[230] == free / 256 % 256);
}

/// A parameter in an entry.
proof fn lemma_patched_entry(slot: Seq<u8>, index: int, e: TrdosEntryView, param: u16)
    requires
        slot.len() == 16,
        trdos::entry_of(slot, index) == Some(e),
    ensures
        trdos::entry_of(
            bytes::patched(slot, 11, param_bytes(param)),
            index,
        ) == Some(TrdosEntryView { param1: param, ..e }),
{
    let p = bytes::patched(slot, 11, param_bytes(param));
    assert(p.subrange(0, 8) =~= slot.subrange(0, 8));
}

/// The entries after a file has been stored again: its own, and those that were there.
proof fn lemma_restored_entries(image: ImageView, file: SurvivorView, after: ImageView)
    requires
        trdos_edit::restored(image, file) == Ok::<ImageView, ErrorView>(after),
    ensures
        trdos::entries(after).contains(restored_entry(image, file)),
        forall|k: int| 0 <= k < trdos::entries(image).len() ==> trdos::entries(after).contains(#[trigger] trdos::entries(image)[k]),
        forall|k: int| 0 <= k < trdos::entries(after).len() ==> (#[trigger] trdos::entries(after)[k]) == restored_entry(image, file)
            || trdos::entries(image).contains(trdos::entries(after)[k]),
{
    lemma_restored_slots(image, file, after);
    let slot = trdos_edit::slot_from(image, 0).unwrap();
    let e = restored_entry(image, file);
    let list = trdos::entries(after);
    let old = trdos::entries(image);
    trdos_edit::lemma_entry_listed(after, slot, 128);
    assert forall|k: int| 0 <= k < list.len() implies (#[trigger] list[k]) == e || old.contains(list[k]) by {
        trdos_edit::lemma_listed_entry(after, 128, k);
        let i = list[k].index;
        if i != slot {
            assert(trdos::slot_at(after, i) == trdos::slot_at(image, i));
            trdos_edit::lemma_entry_listed(image, i, 128);
        }
    }
    assert forall|k: int| 0 <= k < old.len() implies list.contains(#[trigger] old[k]) by {
        trdos_edit::lemma_listed_entry(image, 128, k);
        let i = old[k].index;
        assert(i != slot);
        assert(trdos::slot_at(after, i) == trdos::slot_at(image, i));
        trdos_edit::lemma_entry_listed(after, i, 128);
    }
}

/// One more file is stored behind the others.
proof fn lemma_restored(image: ImageView, files: Seq<SurvivorView>, n: int, after: ImageView)
    requires
        0 <= n < files.len(),
        packed(image, files, n),
        trdos_edit::restored(image, files[n]) == Ok::<ImageView, ErrorView>(after),
        16 + sectors_of(files, n + 1) < 4096,
    ensures
        laws::same_layout(image, after),
        packed(after, files, n + 1),
{
    let file = files[n];
    let first = trdos_edit::first_free(trdos::catalog(image).unwrap());
    let count = trdos_edit::sectors_needed(file.data.len() as int);
    let e = restored_entry(image, file);
    lemma_restored_slots(image, file, after);
    lemma_restored_data(image, file, after);
    lemma_restored_entries(image, file, after);
    let list = trdos::entries(after);
    let old = trdos::entries(image);
    trdos_edit::lemma_find(old, file.base, 0);
    text::lemma_upper_same(file.base);
    assert(sectors_of(files, n + 1) == sectors_of(files, n) + count);
    assert(entry_of_file(after, file, e)) by {
        assert forall|k: int| 0 <= k < list.len() && trdos::is_file(#[trigger] list[k], file.base) implies list[k] == e by {
            if list[k] != e {
                let j = choose|j: int| 0 <= j < old.len() && old[j] == list[k];
                assert(!trdos::is_file(old[j], file.base));
            }
        }
    }
    let end = 16 + sectors_of(files, n + 1);
    assert forall|m: int| 0 <= m < n + 1 implies has_file(after, #[trigger] files[m], end) by {
        if m == n {
            assert(entry_of_file(after, files[m], e));
        } else {
            assert(has_file(image, files[m], 16 + sectors_of(files, n)));
            let x = choose|x: TrdosEntryView| #[trigger] entry_of_file(image, files[m], x) && before(x, 16 + sectors_of(files, n));
            lemma_kept_file(image, after, files[m], file, x, e, first);
            assert(entry_of_file(after, files[m], x));
        }
    }
    assert forall|k: int| 0 <= k < list.len() implies belongs(#[trigger] list[k], files, n + 1) by {
        if list[k] == e {
            assert(text::same_name(list[k].filename, files[n].base));
        } else {
            let j = choose|j: int| 0 <= j < old.len() && old[j] == list[k];
            assert(belongs(old[j], files, n));
            let m = choose|m: int| 0 <= m < n && text::same_name(old[j].filename, #[trigger] files[m].base);
            assert(text::same_name(list[k].filename, files[m].base));
        }
    }
}

/// Directory slots have 16 bytes.
proof fn lemma_slot_len(image: ImageView, i: int)
    requires
        trdos::is_trdos(image),
        0 <= i < 128,
    ensures
        trdos::slot_at(image, i).len() == 16,
{
    let k = (i / 16 + 1) as u8;
    assert(image.read(0, 0, k) matches Ok(s) && s.len() >= 256);
}

/// A file that was there is still there, with its content.
proof fn lemma_kept_file(
    image: ImageView,
    after: ImageView,
    file: SurvivorView,
    added: SurvivorView,
    x: TrdosEntryView,
    e: TrdosEntryView,
    first: int,
)
    requires
        image.spec == after.spec,
        entry_of_file(image, file, x),
        before(x, first),
        first <= trdos_edit::total_sectors(image),
        forall|i: int| 16 <= i < first ==> #[trigger] sector(after, i) == sector(image, i),
        forall|k: int| 0 <= k < trdos::entries(image).len() ==> trdos::entries(after).contains(#[trigger] trdos::entries(image)[k]),
        forall|k: int| 0 <= k < trdos::entries(after).len() ==> (#[trigger] trdos::entries(after)[k]) == e || trdos::entries(image).contains(
            trdos::entries(after)[k],
        ),
        text::same_name(e.filename, added.base),
        forall|k: int| 0 <= k < trdos::entries(image).len() ==> !trdos::is_file(#[trigger] trdos::entries(image)[k], added.base),
    ensures
        entry_of_file(after, file, x),
{
    let old = trdos::entries(image);
    let list = trdos::entries(after);
    let i = choose|i: int| 0 <= i < old.len() && old[i] == x;
    assert(list.contains(old[i]));
    assert(!trdos::is_file(old[i], added.base));
    assert forall|k: int| 0 <= k < list.len() && trdos::is_file(#[trigger] list[k], file.base) implies list[k] == x by {
        if list[k] == e {
            assert(trdos::is_file(x, added.base));
        } else {
            let j = choose|j: int| 0 <= j < old.len() && old[j] == list[k];
            assert(trdos::is_file(old[j], file.base));
        }
    }
    lemma_same_sectors(after, image, x.start(), x.sectors as int);
}

/// The files are stored one behind the other.
proof fn lemma_restored_to(image: ImageView, files: Seq<SurvivorView>, n: int, after: ImageView)
    requires
        0 <= n <= files.len(),
        packed(image, files, 0),
        trdos_edit::restored_to(image, files, n) == Ok::<ImageView, ErrorView>(after),
        16 + sectors_of(files, n) < 4096,
    ensures
        laws::same_layout(image, after),
        packed(after, files, n),
    decreases n,
{
    if n <= 0 {
        laws::lemma_same_layout_reflexive(image);
    } else {
        let mid = trdos_edit::restored_to(image, files, n - 1)->Ok_0;
        lemma_sectors_grow(files, n - 1, n);
        lemma_restored_to(image, files, n - 1, mid);
        lemma_restored(mid, files, n - 1, after);
        laws::lemma_same_layout_chain(image, mid, after);
    }
}

/// The files that stay when a file is removed.
pub open spec fn survivors(image: ImageView, name: Seq<char>) -> Seq<SurvivorView> {
    let entries = trdos::entries(image);
    trdos_edit::survivors_to(image, entries, trdos::stem(name), entries.len() as int)->Ok_0
}

/// No survivor has the name of the file that is removed.
proof fn lemma_survivors(image: ImageView, entries: Seq<TrdosEntryView>, base: Seq<char>, n: int)
    requires
        0 <= n <= entries.len(),
    ensures
        trdos_edit::survivors_to(image, entries, base, n) matches Ok(files) ==> {
            &&& forall|m: int| 0 <= m < files.len() ==> !text::same_name((#[trigger] files[m]).base, base)
            &&& forall|k: int|
                0 <= k < n && !(#[trigger] entries[k]).deleted && !text::same_name(entries[k].filename, base) ==> exists|m: int|
                    0 <= m < files.len() && #[trigger] files[m].base == entries[k].filename && files[m].kind == entries[k].file_type
                        && files[m].param == entries[k].param1 && trdos::content(image, entries[k]) == Ok::<Seq<u8>, ErrorView>(
                        files[m].data,
                    )
        },
    decreases n,
{
    if n > 0 {
        lemma_survivors(image, entries, base, n - 1);
        if let Ok(files) = trdos_edit::survivors_to(image, entries, base, n) {
            let rest = trdos_edit::survivors_to(image, entries, base, n - 1)->Ok_0;
            assert forall|k: int| 0 <= k < n && !(#[trigger] entries[k]).deleted && !text::same_name(entries[k].filename, base) implies exists|
                m: int,
            |
                0 <= m < files.len() && #[trigger] files[m].base == entries[k].filename && files[m].kind == entries[k].file_type
                    && files[m].param == entries[k].param1 && trdos::content(image, entries[k]) == Ok::<Seq<u8>, ErrorView>(
                    files[m].data,
                ) by {
                if k < n - 1 {
                    let m = choose|m: int|
                        0 <= m < rest.len() && #[trigger] rest[m].base == entries[k].filename && rest[m].kind == entries[k].file_type
                            && rest[m].param == entries[k].param1 && trdos::content(image, entries[k]) == Ok::<Seq<u8>, ErrorView>(
                            rest[m].data,
                        );
                    assert(files[m] == rest[m]);
                    assert(files[m].base == entries[k].filename);
                } else {
                    let m = files.len() - 1;
                    assert(files[m].base == entries[k].filename);
                }
            }
        }
    }
}

/// After a file has been removed the others stand one behind the other from track 1 on, and all
/// space behind them is free to be used again. (The catalog counts tracks up to 255.)
pub proof fn law_delete_packs(image: ImageView, name: Seq<char>, after: ImageView)
    requires
        trdos_edit::deleted(image, name) == Ok::<ImageView, ErrorView>(after),
        16 + sectors_of(survivors(image, name), survivors(image, name).len() as int) < 4096,
    ensures
        packed(after, survivors(image, name), survivors(image, name).len() as int),
        laws::same_layout(image, after),
{
    lemma_emptied(image);
    let empty = trdos_edit::emptied(image)->Ok_0;
    let files = survivors(image, name);
    assert(packed(empty, files, 0));
    lemma_restored_to(empty, files, files.len() as int, after);
    laws::lemma_same_layout_chain(image, empty, after);
}

/// Only the files of the list are stored again.
proof fn lemma_restored_belong(image: ImageView, files: Seq<SurvivorView>, n: int, after: ImageView)
    requires
        0 <= n <= files.len(),
        trdos_edit::restored_to(image, files, n) == Ok::<ImageView, ErrorView>(after),
        trdos::entries(image).len() == 0,
    ensures
        forall|k: int| 0 <= k < trdos::entries(after).len() ==> belongs(#[trigger] trdos::entries(after)[k], files, n),
    decreases n,
{
    if n > 0 {
        let mid = trdos_edit::restored_to(image, files, n - 1)->Ok_0;
        let file = files[n - 1];
        lemma_restored_belong(image, files, n - 1, mid);
        let _ = lemma_restored_steps(mid, file, after);
        lemma_restored_entries(mid, file, after);
        text::lemma_upper_same(file.base);
        let list = trdos::entries(after);
        let old = trdos::entries(mid);
        assert forall|k: int| 0 <= k < list.len() implies belongs(#[trigger] list[k], files, n) by {
            if list[k] == restored_entry(mid, file) {
                assert(text::same_name(list[k].filename, files[n - 1].base));
            } else {
                let j = choose|j: int| 0 <= j < old.len() && old[j] == list[k];
                assert(belongs(old[j], files, n - 1));
                let m = choose|m: int| 0 <= m < n - 1 && text::same_name(old[j].filename, #[trigger] files[m].base);
                assert(text::same_name(list[k].filename, files[m].base));
            }
        }
    }
}

/// A file that has been removed is not found any more.
pub proof fn law_delete_then_absent(image: ImageView, name: Seq<char>, after: ImageView)
    requires
        trdos_edit::deleted(image, name) == Ok::<ImageView, ErrorView>(after),
    ensures
        trdos::find(trdos::entries(after), trdos::stem(name)) is None,
        trdos::file_content(after, name) == Err::<Seq<u8>, ErrorView>(ErrorView::FileNotFound(name)),
{
    let base = trdos::stem(name);
    let files = survivors(image, name);
    let list = trdos::entries(after);
    lemma_emptied(image);
    lemma_restored_belong(trdos_edit::emptied(image)->Ok_0, files, files.len() as int, after);
    lemma_survivors(image, trdos::entries(image), base, trdos::entries(image).len() as int);
    trdos_edit::lemma_find(list, base, 0);
    if let Some(f) = trdos::find(list, base) {
        let k = choose|k: int| 0 <= k < list.len() && #[trigger] list[k] == f && trdos::is_file(f, base);
        assert(belongs(list[k], files, files.len() as int));
        let m = choose|m: int| 0 <= m < files.len() && text::same_name(list[k].filename, #[trigger] files[m].base);
        assert(!text::same_name(files[m].base, base));
    }
}

/// Removing a file keeps every other file: it is found under its name, with its content and its
/// parameter.
pub proof fn law_delete_keeps_others(image: ImageView, name: Seq<char>, after: ImageView, k: int)
    requires
        trdos_edit::deleted(image, name) == Ok::<ImageView, ErrorView>(after),
        16 + sectors_of(survivors(image, name), survivors(image, name).len() as int) < 4096,
        0 <= k < trdos::entries(image).len(),
        !trdos::entries(image)[k].deleted,
        !text::same_name(trdos::entries(image)[k].filename, trdos::stem(name)),
    ensures
        ({
            let e = trdos::entries(image)[k];
            trdos::find(trdos::entries(after), e.filename) matches Some(f) && f.param1 == e.param1 && f.file_type == text::upper(
                e.file_type as char,
            ) as u8 && trdos::content(after, f) == trdos::content(image, e)
        }),
{
    law_delete_packs(image, name, after);
    let entries = trdos::entries(image);
    let e = entries[k];
    let files = survivors(image, name);
    lemma_survivors(image, entries, trdos::stem(name), entries.len() as int);
    let m = choose|m: int|
        0 <= m < files.len() && #[trigger] files[m].base == entries[k].filename && files[m].kind == entries[k].file_type && files[m].param
            == entries[k].param1 && trdos::content(image, entries[k]) == Ok::<Seq<u8>, ErrorView>(files[m].data);
    let end = 16 + sectors_of(files, files.len() as int);
    assert(has_file(after, files[m], end));
    let x = choose|x: TrdosEntryView| #[trigger] entry_of_file(after, files[m], x) && before(x, end);
    let list = trdos::entries(after);
    trdos_edit::lemma_find(list, e.filename, 0);
    let i = choose|i: int| 0 <= i < list.len() && list[i] == x;
    assert(trdos::is_file(list[i], e.filename));
}

}
