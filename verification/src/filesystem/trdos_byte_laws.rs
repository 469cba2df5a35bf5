//! Laws of TR-DOS disks, byte by byte.

use crate::bytes;
use crate::error::ErrorView;
use crate::filesystem::names;
use crate::filesystem::trdos;
use crate::filesystem::trdos::{TrdosCatalog, TrdosEntryView};
use crate::filesystem::trdos_edit;
use crate::filesystem::trdos_laws;
use crate::image::ImageView;
use crate::text;
use vstd::prelude::*;

verus! {

/// The sector with number `n`: sixteen on a track, all tracks of side 0 before those of side 1.
pub open spec fn sector(image: ImageView, n: int) -> Result<Seq<u8>, ErrorView> {
    let tracks = image.spec.num_tracks as int;
    image.read(((n / 16) / tracks) as u8, ((n / 16) % tracks) as u8, (n % 16 + 1) as u8)
}

/// Byte `k` of directory slot `i`; sixteen slots share a sector, from the first sector of the disk
/// on.
pub open spec fn slot_byte(image: ImageView, i: int, k: int) -> u8 {
    image.read(0, 0, (i / 16 + 1) as u8)->Ok_0[16 * (i % 16) + k]
}

/// Byte `k` of the catalog, which is sector 9 of track 0.
pub open spec fn catalog_byte(image: ImageView, k: int) -> u8 {
    image.read(0, 0, 9)->Ok_0[k]
}

/// Slots are read byte by byte.
pub proof fn lemma_slot(image: ImageView, i: int)
    requires
        0 <= i < 128,
        trdos::is_trdos(image),
    ensures
        trdos::slot_at(image, i).len() == 16,
        forall|k: int| 0 <= k < 16 ==> #[trigger] trdos::slot_at(image, i)[k] == slot_byte(image, i, k),
{
    let id = (i / 16 + 1) as u8;
    assert(image.read(0, 0, id) matches Ok(s) && s.len() >= 256);
}

/// Whether an entry is what slot `i` says: the type in byte 8, the length and the parameter in two
/// bytes each behind it (low byte first), and the number of sectors, the first sector and the first track in
/// bytes 13 to 15. A file is deleted if its name starts with the byte 1.
pub open spec fn entry_in(image: ImageView, i: int, e: TrdosEntryView) -> bool {
    &&& e.index == i
    &&& e.deleted == (slot_byte(image, i, 0) == 1)
    &&& e.file_type == slot_byte(image, i, 8)
    &&& e.length == slot_byte(image, i, 9) + 256 * slot_byte(image, i, 10)
    &&& e.param1 == slot_byte(image, i, 11) + 256 * slot_byte(image, i, 12)
    &&& e.sectors == slot_byte(image, i, 13)
    &&& e.start_sector == slot_byte(image, i, 14)
    &&& e.start_track == slot_byte(image, i, 15)
}

/// Whether the first eight bytes of a slot hold a name, padded with blanks.
pub open spec fn name_in(image: ImageView, i: int, name: Seq<char>) -> bool {
    &&& name.len() <= 8
    &&& forall|k: int|
        0 <= k < 8 ==> #[trigger] slot_byte(image, i, k) == (if k < name.len() { name[k] as int } else { 0x20 })
    &&& forall|k: int| 0 <= k < name.len() ==> '!' <= #[trigger] name[k] <= '~'
}

proof fn lemma_cut_end(s: Seq<char>, n: int)
    requires
        0 <= n <= s.len(),
        forall|k: int| 0 <= k < n ==> '!' <= #[trigger] s[k] <= '~',
        forall|k: int| n <= k < s.len() ==> #[trigger] s[k] == ' ',
    ensures
        text::trim_end(s) == s.take(n),
    decreases s.len(),
{
    if s.len() > n {
        lemma_cut_end(s.drop_last(), n);
        assert(s.drop_last().take(n) =~= s.take(n));
        assert(s.last() == ' ');
    } else {
        assert(s.take(n) =~= s);
        if n > 0 {
            assert(s.last() == s[n - 1]);
        }
    }
}

/// Every directory slot with a name and a type stands for a file, and no other does.
pub proof fn law_slots_are_files(image: ImageView, i: int, name: Seq<char>)
    requires
        0 <= i < 128,
        trdos::is_trdos(image),
    ensures
        slot_byte(image, i, 0) != 0 && slot_byte(image, i, 8) != 0 <==> exists|k: int|
            0 <= k < trdos::entries(image).len() && (#[trigger] trdos::entries(image)[k]).index == i,
        forall|k: int|
            0 <= k < trdos::entries(image).len() && (#[trigger] trdos::entries(image)[k]).index == i ==> entry_in(
                image,
                i,
                trdos::entries(image)[k],
            ) && (name_in(image, i, name) ==> trdos::entries(image)[k].filename == name),
{
    let list = trdos::entries(image);
    let s = trdos::slot_at(image, i);
    lemma_slot(image, i);
    assert(s[0] == slot_byte(image, i, 0) && s[8] == slot_byte(image, i, 8) && s[9] == slot_byte(image, i, 9) && s[10] == slot_byte(
        image,
        i,
        10,
    ) && s[11] == slot_byte(image, i, 11) && s[12] == slot_byte(image, i, 12) && s[13] == slot_byte(image, i, 13) && s[14] == slot_byte(
        image,
        i,
        14,
    ) && s[15] == slot_byte(image, i, 15));
    if s[0] != 0 && s[8] != 0 {
        trdos_edit::lemma_entry_listed(image, i, 128);
        let e = trdos::entry_of(s, i).unwrap();
        let k = choose|k: int| 0 <= k < list.len() && #[trigger] trdos::entries_to(image, 128)[k] == e;
        assert(list[k].index == i);
    }
    assert forall|k: int| 0 <= k < list.len() && (#[trigger] list[k]).index == i implies s[0] != 0 && s[8] != 0 && entry_in(
        image,
        i,
        list[k],
    ) && (name_in(image, i, name) ==> list[k].filename == name) by {
        trdos_edit::lemma_listed_entry(image, 128, k);
        if name_in(image, i, name) {
            let t = text::latin(s.subrange(0, 8));
            assert forall|m: int| 0 <= m < 8 implies #[trigger] t[m] == (if m < name.len() { name[m] } else { ' ' }) by {
                assert(s[m] == slot_byte(image, i, m));
            }
            lemma_cut_end(t, name.len() as int);
            assert(t.take(name.len() as int) =~= name);
        }
    }
}

/// The catalog of a formatted disk, which has 0x10 in byte 231, says where the free space begins
/// (sector in byte 225, track in byte 226), the type of the disk (byte 227), how many files there
/// are (byte 228) and how many sectors are free (bytes 229 and 230, low byte first).
pub proof fn law_catalog_is_read(image: ImageView)
    requires
        trdos::is_trdos(image),
    ensures
        trdos::catalog(image) is Some <==> catalog_byte(image, 231) == 0x10,
        trdos::catalog(image) matches Some(c) ==> {
            &&& c.first_free_sector == catalog_byte(image, 225)
            &&& c.first_free_track == catalog_byte(image, 226)
            &&& c.disk_type == catalog_byte(image, 227)
            &&& c.file_count == catalog_byte(image, 228)
            &&& c.free_sectors == catalog_byte(image, 229) + 256 * catalog_byte(image, 230)
        },
{
    assert(image.read(0, 0, 9u8) matches Ok(s) && s.len() >= 256);
}

/// Sectors are found by their numbers.
pub proof fn lemma_place(image: ImageView, n: int)
    requires
        0 < image.spec.num_tracks,
        0 <= n < 16 * image.spec.num_tracks * 256,
    ensures
        ({
            let a = trdos::place(image.spec.num_tracks as int, n);
            image.read(a.0, a.1, a.2) == sector(image, n)
        }),
{
    let tracks = image.spec.num_tracks as int;
    let lt = n / 16;
    assert(0 <= lt / tracks < 256) by {
        vstd::arithmetic::div_mod::lemma_div_pos_is_pos(lt, tracks);
        assert(lt < tracks * 256);
        vstd::arithmetic::div_mod::lemma_multiply_divide_lt(lt, tracks, 256);
    }
    vstd::arithmetic::div_mod::lemma_mod_bound(lt, tracks);
}

proof fn lemma_sectors(image: ImageView, start: int, n: int)
    requires
        0 <= n,
        0 <= start,
        0 < image.spec.num_tracks,
        start + n <= 16 * image.spec.num_tracks * 256,
        forall|i: int| start <= i < start + n ==> (#[trigger] sector(image, i) matches Ok(s) && s.len() == 256),
    ensures
        trdos::sectors_to(image, start, n) matches Ok(d) && d.len() == 256 * n && forall|p: int|
            0 <= p < 256 * n ==> #[trigger] d[p] == sector(image, start + p / 256)->Ok_0[p % 256],
    decreases n,
{
    if n > 0 {
        lemma_sectors(image, start, n - 1);
        lemma_place(image, start + n - 1);
        assert(sector(image, start + n - 1) is Ok);
    }
}

/// The content of a file is that of its sectors, one behind the other, up to its length.
pub proof fn law_content_is_in_sectors(image: ImageView, e: TrdosEntryView)
    requires
        0 < image.spec.num_tracks,
        16 * e.start_track + e.start_sector + e.sectors <= 16 * image.spec.num_tracks * 256,
        forall|i: int|
            16 * e.start_track + e.start_sector <= i < 16 * e.start_track + e.start_sector + e.sectors ==> (#[trigger] sector(image, i) matches Ok(
                s,
            ) && s.len() == 256),
    ensures
        trdos::content(image, e) matches Ok(data) && {
            &&& data.len() == (if e.length < 256 * e.sectors { e.length as int } else { 256 * e.sectors })
            &&& forall|p: int|
                0 <= p < data.len() ==> #[trigger] data[p] == sector(
                    image,
                    16 * e.start_track + e.start_sector + p / 256,
                )->Ok_0[p % 256]
        },
{
    lemma_sectors(image, e.start(), e.sectors as int);
}

/// A letter in upper case.
pub open spec fn capital(c: char) -> int {
    if 'a' <= c <= 'z' { c as int - 32 } else { c as int }
}

/// A name with a type is split at its last dot; a name without a dot is that of a code file. The
/// types are B, C, D and #, in either case.
pub proof fn law_type_stands_behind_the_dot(base: Seq<char>, kind: char)
    requires
        forall|i: int| 0 <= i < base.len() ==> #[trigger] base[i] != '.',
        kind != '.',
    ensures
        trdos::stem(base) == base,
        trdos_edit::kind_of(base) == Some('C' as u8),
        trdos::stem(base + seq!['.', kind]) == base,
        capital(kind) == 'B' as int || capital(kind) == 'C' as int || capital(kind) == 'D' as int || kind == '#'
            ==> trdos_edit::kind_of(base + seq!['.', kind]) == Some(capital(kind) as u8),
        !(capital(kind) == 'B' as int || capital(kind) == 'C' as int || capital(kind) == 'D' as int || kind == '#')
            ==> trdos_edit::kind_of(base + seq!['.', kind]) is None,
{
    let name = base + seq!['.', kind];
    lemma_no_dot(base);
    reveal_with_fuel(text::rfind, 3);
    assert(name.last() == kind);
    assert(name.drop_last().last() == '.');
    assert(text::rfind(name, '.') == Some(base.len() as int));
    assert(name.take(base.len() as int) =~= base);
    assert(name[base.len() as int + 1] == kind);
}

proof fn lemma_no_dot(s: Seq<char>)
    requires
        forall|i: int| 0 <= i < s.len() ==> #[trigger] s[i] != '.',
    ensures
        text::rfind(s, '.') is None,
    decreases s.len(),
{
    if s.len() > 0 {
        lemma_no_dot(s.drop_last());
    }
}

/// The first free slot has no free slot before it.
proof fn lemma_first_slot(image: ImageView, from: int, j: int)
    requires
        0 <= from <= j,
        trdos_edit::slot_from(image, from) matches Some(i) && j < i,
    ensures
        !trdos_edit::slot_free(image, j),
    decreases 128 - from,
{
    if from < 128 && !trdos_edit::slot_free(image, from) && from < j {
        lemma_first_slot(image, from + 1, j);
    }
}

/// Whether slot `s` holds the entry of a file of `len` bytes in `count` sectors.
pub open spec fn entered(image: ImageView, s: int, base: Seq<char>, kind: u8, len: int, count: int, sector: u8, track: u8) -> bool {
    &&& forall|k: int|
        0 <= k < 8 ==> #[trigger] slot_byte(image, s, k) == (if k < base.len() { capital(base[k]) } else { 0x20 })
    &&& slot_byte(image, s, 8) == kind
    &&& slot_byte(image, s, 9) + 256 * slot_byte(image, s, 10) == len
    &&& slot_byte(image, s, 11) == 0 && slot_byte(image, s, 12) == 0
    &&& slot_byte(image, s, 13) == count
    &&& slot_byte(image, s, 14) == sector
    &&& slot_byte(image, s, 15) == track
}

/// The entry of a new file, byte by byte.
proof fn lemma_entered(image: ImageView, slot: int, base: Seq<char>, kind: u8, len: int, count: int, c: TrdosCatalog)
    requires
        0 <= slot < 128,
        trdos::is_trdos(image),
        names::fits(base, 8),
        0 <= len <= 65535,
        0 <= count <= 255,
        trdos::slot_at(image, slot) == trdos_edit::entry_bytes(names::padded_bytes(base, 8), kind, len, count, c),
    ensures
        entered(image, slot, base, kind, len, count, c.first_free_sector, c.first_free_track),
{
    let raw = names::padded_bytes(base, 8);
    let entry = trdos_edit::entry_bytes(raw, kind, len, count, c);
    lemma_slot(image, slot);
    assert forall|k: int| 0 <= k < 16 implies #[trigger] slot_byte(image, slot, k) == entry[k] by {
        assert(trdos::slot_at(image, slot)[k] == slot_byte(image, slot, k));
    }
    assert forall|k: int| 0 <= k < 8 implies #[trigger] slot_byte(image, slot, k) == (if k < base.len() {
        capital(base[k])
    } else {
        0x20
    }) by {
        assert(entry[k] == raw[k]);
        if k < base.len() {
            assert(names::storable(base[k]));
        }
    }
}

/// A new file takes the first directory slot that was never used and as many sectors as its bytes
/// need, from where the catalog says that the free space begins. They hold its bytes, with
/// zeros behind the last. The catalog then counts one file more and as many sectors less, and the
/// free space begins behind the file. All other slots and sectors stay as they are.
#[verifier::rlimit(40)]
pub proof fn law_import_writes(image: ImageView, name: Seq<char>, data: Seq<u8>, after: ImageView) -> (r: (int, int, int))
    requires
        trdos_edit::imported(image, name, data) == Ok::<ImageView, ErrorView>(after),
    ensures
        ({
            let (slot, first, count) = r;
            let len = data.len() as int;
            let base = trdos::stem(name);
            &&& 0 <= slot < 128
            &&& slot_byte(image, slot, 8) == 0
            &&& forall|j: int| 0 <= j < slot ==> #[trigger] slot_byte(image, j, 8) != 0
            &&& 256 * (count - 1) < len <= 256 * count
            &&& first == 16 * catalog_byte(image, 226) + catalog_byte(image, 225)
            &&& 16 <= first && first + count <= 16 * image.spec.num_tracks * image.spec.num_sides
            &&& trdos_edit::kind_of(name) matches Some(kind) && entered(
                after,
                slot,
                base,
                kind,
                len,
                count,
                catalog_byte(image, 225),
                catalog_byte(image, 226),
            )
            &&& forall|j: int, k: int|
                0 <= j < 128 && j != slot && 0 <= k < 16 ==> #[trigger] slot_byte(after, j, k) == slot_byte(image, j, k)
            &&& catalog_byte(after, 225) == (first + count) % 16
            &&& catalog_byte(after, 226) == ((first + count) / 16) % 256
            &&& catalog_byte(after, 228) == (if catalog_byte(image, 228) < 255 { catalog_byte(image, 228) + 1 } else { 255 })
            &&& catalog_byte(after, 229) + 256 * catalog_byte(after, 230) == catalog_byte(image, 229) + 256 * catalog_byte(image, 230)
                - count
            &&& catalog_byte(after, 227) == catalog_byte(image, 227) && catalog_byte(after, 231) == catalog_byte(image, 231)
            &&& forall|i: int|
                first <= i < first + count ==> (#[trigger] sector(after, i) matches Ok(s) && s.len() == 256 && forall|k: int|
                    0 <= k < 256 ==> #[trigger] s[k] == (if 256 * (i - first) + k < len { data[256 * (i - first) + k] } else { 0 }))
            &&& forall|i: int|
                16 <= i < 16 * image.spec.num_tracks * image.spec.num_sides && !(first <= i < first + count) ==> #[trigger] sector(after, i)
                    == sector(image, i)
        }),
{
    let len = data.len() as int;
    let count = trdos_edit::sectors_needed(len);
    let slot = trdos_edit::slot_from(image, 0).unwrap();
    let c = trdos::catalog(image).unwrap();
    let first = trdos_edit::first_free(c);
    let base = trdos::stem(name);
    let tracks = image.spec.num_tracks as int;
    let sides = image.spec.num_sides as int;
    trdos_edit::lemma_imported(image, name, data, after);
    trdos_laws::lemma_imported_sectors(image, name, data, after);
    bytes::lemma_div_up(len, 256);
    law_catalog_is_read(image);
    assert(image.read(0, 0, 9u8) matches Ok(s) && s.len() >= 256);
    assert(after.read(0, 0, 9u8) matches Ok(s) && s.len() >= 256);
    assert(tracks * sides * 16 == 16 * tracks * sides && 16 * tracks * sides <= 16 * tracks * 256) by (nonlinear_arith)
        requires
            0 <= sides <= 256,
            0 <= tracks,
    ;
    lemma_slot(image, slot);
    lemma_entered(after, slot, base, trdos_edit::kind_of(name).unwrap(), len, count, c);
    assert(trdos::slot_at(image, slot)[8] == slot_byte(image, slot, 8));
    assert forall|j: int| 0 <= j < slot implies #[trigger] slot_byte(image, j, 8) != 0 by {
        lemma_first_slot(image, 0, j);
        lemma_slot(image, j);
        assert(trdos::slot_at(image, j)[8] == slot_byte(image, j, 8));
    }
    assert forall|j: int, k: int| 0 <= j < 128 && j != slot && 0 <= k < 16 implies #[trigger] slot_byte(after, j, k) == slot_byte(
        image,
        j,
        k,
    ) by {
        lemma_slot(image, j);
        lemma_slot(after, j);
        assert(trdos::slot_at(after, j) == trdos::slot_at(image, j));
        assert(trdos::slot_at(image, j)[k] == slot_byte(image, j, k));
        assert(trdos::slot_at(after, j)[k] == slot_byte(after, j, k));
    }
    assert forall|i: int| 16 <= i < 16 * tracks * sides implies #[trigger] sector(after, i) == (if first <= i < first + count {
        Ok::<Seq<u8>, ErrorView>(bytes::padded_part(data, 256 * (i - first), 256))
    } else {
        sector(image, i)
    }) by {
        lemma_place(image, i);
        lemma_place(after, i);
        assert(trdos_laws::sector(after, i) == (if first <= i < first + count {
            Ok::<Seq<u8>, ErrorView>(bytes::padded_part(data, 256 * (i - first), 256))
        } else {
            trdos_laws::sector(image, i)
        }));
    }
    (slot, first, count)
}

/// Whether two names have the same letters, whatever their case.
pub open spec fn same_letters(a: Seq<char>, b: Seq<char>) -> bool {
    a.len() == b.len() && forall|i: int| 0 <= i < a.len() ==> capital(#[trigger] a[i]) == capital(b[i])
}

proof fn lemma_same_letters(a: Seq<char>, b: Seq<char>)
    ensures
        text::same_name(a, b) == same_letters(a, b),
{
    let x = text::upper_all(a);
    let y = text::upper_all(b);
    assert(x.len() == a.len() && y.len() == b.len());
    if x == y {
        assert forall|i: int| 0 <= i < a.len() implies capital(#[trigger] a[i]) == capital(b[i]) by {
            assert(x[i] == y[i]);
        }
    }
    if same_letters(a, b) {
        assert forall|i: int| 0 <= i < a.len() implies x[i] == y[i] by {
            assert(capital(a[i]) == capital(b[i]));
        }
        assert(x =~= y);
    }
}

proof fn lemma_find(list: Seq<TrdosEntryView>, name: Seq<char>, from: int, k: int)
    requires
        0 <= from <= k < list.len(),
        !list[k].deleted && same_letters(list[k].filename, name),
        forall|j: int| from <= j < k ==> (#[trigger] list[j]).deleted || !same_letters(list[j].filename, name),
    ensures
        trdos::find_from(list, name, from) == Some(list[k]),
    decreases k - from,
{
    lemma_same_letters(list[from].filename, name);
    if from < k {
        lemma_find(list, name, from + 1, k);
    }
}

pub proof fn lemma_find_none(list: Seq<TrdosEntryView>, name: Seq<char>, from: int)
    requires
        0 <= from <= list.len(),
        forall|j: int| from <= j < list.len() ==> (#[trigger] list[j]).deleted || !same_letters(list[j].filename, name),
    ensures
        trdos::find_from(list, name, from) is None,
    decreases list.len() - from,
{
    if from < list.len() {
        lemma_same_letters(list[from].filename, name);
        lemma_find_none(list, name, from + 1);
    }
}

/// A name stands for the first file that is not deleted and whose name has the same letters,
/// whatever their case. What is read under a name is the content of that file; the type behind the
/// dot does not count.
pub proof fn law_find_gives_the_first(image: ImageView, name: Seq<char>, k: int)
    requires
        0 <= k < trdos::entries(image).len(),
        !trdos::entries(image)[k].deleted && same_letters(trdos::entries(image)[k].filename, trdos::stem(name)),
        forall|j: int|
            0 <= j < k ==> (#[trigger] trdos::entries(image)[j]).deleted || !same_letters(
                trdos::entries(image)[j].filename,
                trdos::stem(name),
            ),
    ensures
        trdos::find(trdos::entries(image), trdos::stem(name)) == Some(trdos::entries(image)[k]),
        trdos::file_content(image, name) == trdos::content(image, trdos::entries(image)[k]),
{
    lemma_find(trdos::entries(image), trdos::stem(name), 0, k);
}

/// A name that no file has, or only deleted ones, stands for none: it can be neither read nor
/// removed.
pub proof fn law_missing_files_are_not_found(image: ImageView, name: Seq<char>)
    requires
        forall|j: int|
            0 <= j < trdos::entries(image).len() ==> (#[trigger] trdos::entries(image)[j]).deleted || !same_letters(
                trdos::entries(image)[j].filename,
                trdos::stem(name),
            ),
    ensures
        trdos::file_content(image, name) == Err::<Seq<u8>, ErrorView>(ErrorView::FileNotFound(name)),
        trdos::is_trdos(image) ==> trdos_edit::deleted(image, name) == Err::<ImageView, ErrorView>(ErrorView::FileNotFound(name)),
{
    lemma_find_none(trdos::entries(image), trdos::stem(name), 0);
}

/// A disk is taken for a TR-DOS disk exactly if it has tracks and sides and the first nine sectors of its
/// first track can be read, with at least 256 bytes each.
pub proof fn law_disk_is_recognised(image: ImageView)
    ensures
        trdos::is_trdos(image) <==> {
            &&& image.spec.num_tracks >= 1
            &&& image.spec.num_sides >= 1
            &&& forall|id: u8| 1 <= id <= 9 ==> (#[trigger] image.read(0, 0, id) matches Ok(s) && s.len() >= 256)
        },
{
}

}
