//! Laws of MGT disks, byte by byte.

use crate::bytes;
use crate::error::ErrorView;
use crate::filesystem::mgt;
use crate::filesystem::mgt::MgtEntryView;
use crate::filesystem::mgt_edit;
use crate::filesystem::mgt_laws;
use crate::filesystem::names;
use crate::image::ImageView;
use crate::text;
use vstd::prelude::*;

verus! {

/// The sector with number `i`: ten on a track, side 0 before side 1.
pub open spec fn sector(image: ImageView, i: int) -> Result<Seq<u8>, ErrorView> {
    image.read((i / 800) as u8, ((i % 800) / 10) as u8, (i % 10 + 1) as u8)
}

/// Byte `k` of directory slot `i`; two slots share a sector, from the first sector of the disk on.
pub open spec fn slot_byte(image: ImageView, i: int, k: int) -> u8 {
    sector(image, i / 2)->Ok_0[256 * (i % 2) + k]
}

/// Whether directory slot `i` can be read.
pub open spec fn slot_there(image: ImageView, i: int) -> bool {
    sector(image, i / 2) matches Ok(s) && s.len() >= 256 * (i % 2) + 256
}

/// Slots are read byte by byte.
pub proof fn lemma_slot(image: ImageView, i: int)
    requires
        0 <= i < 80,
    ensures
        mgt::slot_at(image, i) is Some <==> slot_there(image, i),
        mgt::slot_at(image, i) matches Some(s) ==> s.len() == 256 && forall|k: int| 0 <= k < 256 ==> #[trigger] s[k] == slot_byte(image, i, k),
{
    assert((i / 2) / 800 == 0 && (i / 2) % 800 == i / 2);
}

/// Whether an entry is what slot `i` says: the type in byte 0, the number of sectors in bytes 11 and 12
/// (high byte first), the first track and sector in bytes 13 and 14, the sector map from
/// byte 15 on, and the length in bytes 212 and 213 (low byte first).
pub open spec fn entry_in(image: ImageView, i: int, e: MgtEntryView) -> bool {
    &&& e.index == i
    &&& e.file_type == slot_byte(image, i, 0)
    &&& e.sectors_used == 256 * slot_byte(image, i, 11) + slot_byte(image, i, 12)
    &&& e.start_track == slot_byte(image, i, 13)
    &&& e.start_sector == slot_byte(image, i, 14)
    &&& e.length == slot_byte(image, i, 212) + 256 * slot_byte(image, i, 213)
    &&& e.sector_map.len() == 195
    &&& forall|k: int| 0 <= k < 195 ==> #[trigger] e.sector_map[k] == slot_byte(image, i, 15 + k)
}

/// Whether ten bytes hold a name, padded with blanks.
pub open spec fn name_in(image: ImageView, i: int, name: Seq<char>) -> bool {
    &&& name.len() <= 10
    &&& forall|k: int|
        0 <= k < 10 ==> #[trigger] slot_byte(image, i, 1 + k) == (if k < name.len() { name[k] as int } else { 0x20 })
    &&& forall|k: int| 0 <= k < name.len() ==> '!' <= #[trigger] name[k] <= '~'
}

proof fn lemma_cut_end(s: Seq<char>, n: int)
    requires
        0 <= n <= s.len(),
        forall|k: int| 0 <= k < n ==> '!' <= #[trigger] s[k] <= '~',
        forall|k: int| n <= k < s.len() ==> #[trigger] s[k] == ' ',
    ensures
        text::trim_end(s) == s.take(n),
    decreases s.len(),
{
    if s.len() > n {
        lemma_cut_end(s.drop_last(), n);
        assert(s.drop_last().take(n) =~= s.take(n));
        assert(s.last() == ' ');
    } else {
        assert(s.take(n) =~= s);
        if n > 0 {
            assert(s.last() == s[n - 1]);
        }
    }
}

/// Every directory slot whose first byte has a file type in its low six bits stands for a file, and no
/// other does.
pub proof fn law_slots_are_files(image: ImageView, i: int, name: Seq<char>)
    requires
        0 <= i < 80,
    ensures
        slot_there(image, i) && slot_byte(image, i, 0) % 64 != 0 <==> exists|k: int|
            0 <= k < mgt::entries_to(image, 80).len() && (#[trigger] mgt::entries_to(image, 80)[k]).index == i,
        forall|k: int|
            0 <= k < mgt::entries_to(image, 80).len() && (#[trigger] mgt::entries_to(image, 80)[k]).index == i ==> entry_in(
                image,
                i,
                mgt::entries_to(image, 80)[k],
            ) && (name_in(image, i, name) ==> mgt::entries_to(image, 80)[k].filename == name),
{
    let list = mgt::entries_to(image, 80);
    lemma_slot(image, i);
    if slot_there(image, i) && slot_byte(image, i, 0) % 64 != 0 {
        let s = mgt::slot_at(image, i).unwrap();
        assert(s[0] == slot_byte(image, i, 0));
        mgt_laws::lemma_entry_listed(image, i, 80);
        let e = mgt::entry_of(s, i).unwrap();
        let k = choose|k: int| 0 <= k < list.len() && #[trigger] list[k] == e;
        assert(list[k].index == i);
    }
    assert forall|k: int| 0 <= k < list.len() && (#[trigger] list[k]).index == i implies slot_there(image, i) && slot_byte(
        image,
        i,
        0,
    ) % 64 != 0 && entry_in(image, i, list[k]) && (name_in(image, i, name) ==> list[k].filename == name) by {
        mgt_laws::lemma_listed_entry(image, 80, k);
        let s = mgt::slot_at(image, i).unwrap();
        assert(s[0] == slot_byte(image, i, 0) && s[11] == slot_byte(image, i, 11) && s[12] == slot_byte(image, i, 12) && s[13]
            == slot_byte(image, i, 13) && s[14] == slot_byte(image, i, 14) && s[212] == slot_byte(image, i, 212) && s[213]
            == slot_byte(image, i, 213));
        assert forall|m: int| 0 <= m < 195 implies #[trigger] list[k].sector_map[m] == slot_byte(image, i, 15 + m) by {
            assert(s[15 + m] == slot_byte(image, i, 15 + m));
        }
        if name_in(image, i, name) {
            let t = text::latin(s.subrange(1, 11));
            assert forall|m: int| 0 <= m < 10 implies #[trigger] t[m] == (if m < name.len() { name[m] } else { ' ' }) by {
                assert(s[1 + m] == slot_byte(image, i, 1 + m));
            }
            lemma_cut_end(t, name.len() as int);
            assert(t.take(name.len() as int) =~= name);
        }
    }
}

/// Where the first sector of a file lies: on track `t` of side 0, or on track `t - 128` of side 1,
/// where sectors count from 1.
pub open spec fn first_sector(start_track: u8, start_sector: u8) -> int {
    (if start_track < 128 { 10 * start_track } else { 800 + 10 * (start_track - 128) }) + start_sector - 1
}

proof fn lemma_sectors(image: ImageView, start: int, n: int)
    requires
        0 <= n,
        0 <= start,
        forall|i: int| start <= i < start + n ==> (#[trigger] sector(image, i) matches Ok(s) && s.len() == 512),
    ensures
        mgt::sectors_to(image, start, n) matches Ok(d) && d.len() == 512 * n && forall|p: int|
            0 <= p < 512 * n ==> #[trigger] d[p] == sector(image, start + p / 512)->Ok_0[p % 512],
    decreases n,
{
    if n > 0 {
        lemma_sectors(image, start, n - 1);
        assert(sector(image, start + n - 1) is Ok);
    }
}

/// The content of a file is that of its sectors, one behind the other, up to its length.
pub proof fn law_content_is_in_sectors(image: ImageView, e: MgtEntryView)
    requires
        e.start_sector >= 1,
        forall|i: int|
            first_sector(e.start_track, e.start_sector) <= i < first_sector(e.start_track, e.start_sector) + e.sectors_used ==> (
            #[trigger] sector(image, i) matches Ok(s) && s.len() == 512),
    ensures
        mgt::content(image, e) matches Ok(data) && {
            &&& data.len() == (if e.length < 512 * e.sectors_used { e.length as int } else { 512 * e.sectors_used })
            &&& forall|p: int|
                0 <= p < data.len() ==> #[trigger] data[p] == sector(
                    image,
                    first_sector(e.start_track, e.start_sector) + p / 512,
                )->Ok_0[p % 512]
        },
{
    assert(e.start() == first_sector(e.start_track, e.start_sector));
    lemma_sectors(image, e.start(), e.sectors_used as int);
}

/// A letter in upper case.
pub open spec fn capital(c: char) -> int {
    if 'a' <= c <= 'z' { c as int - 32 } else { c as int }
}

/// Whether the bit for sector `i` is set in the map of slot `s`: the map begins with sector 40, and
/// with the high bit of each byte.
pub open spec fn map_bit(image: ImageView, s: int, i: int) -> bool {
    let b = slot_byte(image, s, 15 + (i - 40) / 8);
    let n = (i - 40) % 8;
    (b / (if n == 0 {
        128u8
    } else if n == 1 {
        64
    } else if n == 2 {
        32
    } else if n == 3 {
        16
    } else if n == 4 {
        8
    } else if n == 5 {
        4
    } else if n == 6 {
        2
    } else {
        1
    })) % 2 == 1
}

/// Whether slot `s` holds the entry of a code file of `len` bytes in `count` sectors from `start` on.
pub open spec fn entered(image: ImageView, s: int, name: Seq<char>, len: int, count: int, start: int) -> bool {
    &&& slot_byte(image, s, 0) == 0x13
    &&& forall|k: int|
        0 <= k < 10 ==> #[trigger] slot_byte(image, s, 1 + k) == (if k < name.len() { capital(name[k]) } else { 0x20 })
    &&& 256 * slot_byte(image, s, 11) + slot_byte(image, s, 12) == count
    &&& slot_byte(image, s, 14) >= 1
    &&& first_sector(slot_byte(image, s, 13), slot_byte(image, s, 14)) == start
    &&& forall|i: int| 40 <= i < 1600 ==> #[trigger] map_bit(image, s, i) == (start <= i < start + count)
    &&& slot_byte(image, s, 211) == 3
    &&& slot_byte(image, s, 212) + 256 * slot_byte(image, s, 213) == len
}

/// The map of a new file, bit by bit.
proof fn lemma_map(from: int, to: int, m: int, n: int)
    requires
        0 <= n < 8,
    ensures
        0 <= mgt_edit::map_byte(from, to, m) < 256,
        mgt_edit::map_byte(from, to, m) / mgt_edit::weight(n) % 2 == (if from <= 8 * m + n < to { 1int } else { 0 }),
{
    assert((8 * m) % 8 == 0 && (8 * m + 1) % 8 == 1 && (8 * m + 2) % 8 == 2 && (8 * m + 3) % 8 == 3 && (8 * m + 4) % 8 == 4 && (8 * m
        + 5) % 8 == 5 && (8 * m + 6) % 8 == 6 && (8 * m + 7) % 8 == 7);
}

/// The first free slot has no free slot before it.
proof fn lemma_first_slot(image: ImageView, from: int, j: int)
    requires
        0 <= from <= j,
        mgt_edit::slot_from(image, from) matches Some(i) && j < i,
    ensures
        !mgt_edit::slot_free(image, j),
    decreases 80 - from,
{
    if from < 80 && !mgt_edit::slot_free(image, from) && from < j {
        lemma_first_slot(image, from + 1, j);
    }
}

/// The entry of a new file, byte by byte.
proof fn lemma_entered(image: ImageView, slot: int, name: Seq<char>, len: int, count: int, start: int)
    requires
        0 <= slot < 80,
        names::fits(name, 10),
        0 <= len <= 65535,
        0 <= count <= 128,
        40 <= start < 1600,
        mgt::slot_at(image, slot) == Some(mgt_edit::entry_bytes(names::padded_bytes(name, 10), len, count, start)),
    ensures
        slot_there(image, slot),
        entered(image, slot, name, len, count, start),
{
    let raw = names::padded_bytes(name, 10);
    let entry = mgt_edit::entry_bytes(raw, len, count, start);
    lemma_slot(image, slot);
    assert forall|k: int| 0 <= k < 256 implies #[trigger] slot_byte(image, slot, k) == entry[k] by {}
    assert forall|k: int| 0 <= k < 10 implies #[trigger] slot_byte(image, slot, 1 + k) == (if k < name.len() {
        capital(name[k])
    } else {
        0x20
    }) by {
        assert(entry[1 + k] == raw[k]);
        if k < name.len() {
            assert(names::storable(name[k]));
        }
    }
    assert forall|i: int| 40 <= i < 1600 implies #[trigger] map_bit(image, slot, i) == (start <= i < start + count) by {
        let m = (i - 40) / 8;
        let n = (i - 40) % 8;
        lemma_map(start - 40, start + count - 40, m, n);
        assert(slot_byte(image, slot, 15 + m) == entry[15 + m]);
        assert(8 * m + n == i - 40);
    }
}

/// A new file takes the first free directory slot and as many sectors as its bytes need, one
/// behind the other on one side of the disk; on an empty disk these are the first behind the
/// directory. They hold its bytes, with zeros behind the last. All other sectors behind the
/// directory stay as they are.
#[verifier::rlimit(40)]
pub proof fn law_import_writes(image: ImageView, name: Seq<char>, data: Seq<u8>, after: ImageView) -> (r: (int, int, int))
    requires
        mgt_edit::imported(image, name, data) == Ok::<ImageView, ErrorView>(after),
    ensures
        ({
            let (slot, start, count) = r;
            let len = data.len() as int;
            &&& 0 <= slot < 80
            &&& slot_there(image, slot) && slot_byte(image, slot, 0) % 64 == 0
            &&& forall|j: int| 0 <= j < slot && #[trigger] slot_there(image, j) ==> slot_byte(image, j, 0) % 64 != 0
            &&& 512 * (count - 1) < len <= 512 * count
            &&& 40 <= start && start + count <= 1600 && (start < 800 ==> start + count <= 800)
            &&& mgt::entries_to(image, 80).len() == 0 ==> start == 40
            &&& slot_there(after, slot)
            &&& entered(after, slot, name, len, count, start)
            &&& forall|i: int|
                start <= i < start + count ==> (#[trigger] sector(after, i) matches Ok(s) && s.len() == 512 && forall|k: int|
                    0 <= k < 512 ==> #[trigger] s[k] == (if 512 * (i - start) + k < len { data[512 * (i - start) + k] } else { 0 }))
            &&& forall|i: int|
                40 <= i < 1600 && !(start <= i < start + count) ==> #[trigger] sector(after, i) == sector(image, i)
        }),
{
    let len = data.len() as int;
    let count = mgt_edit::sectors_needed(len);
    let slot = mgt_edit::slot_from(image, 0).unwrap();
    let entries = mgt::entries_to(image, 80);
    let start = mgt_edit::run_from(entries, count, 40).unwrap();
    mgt_laws::lemma_imported(image, name, data, after);
    bytes::lemma_div_up(len, 512);
    lemma_slot(image, slot);
    lemma_entered(after, slot, name, len, count, start);
    assert(slot_byte(image, slot, 0) == mgt::slot_at(image, slot).unwrap()[0]);
    assert forall|j: int| 0 <= j < slot && #[trigger] slot_there(image, j) implies slot_byte(image, j, 0) % 64 != 0 by {
        lemma_first_slot(image, 0, j);
        lemma_slot(image, j);
        assert(mgt::slot_at(image, j).unwrap()[0] == slot_byte(image, j, 0));
    }
    if entries.len() == 0 {
        assert(mgt_edit::run_at(entries, count, 40)) by {
            assert(count <= 128);
        }
    }
    assert forall|i: int| start <= i < start + count implies (#[trigger] sector(after, i) matches Ok(s) && s.len() == 512 && forall|
        k: int,
    |
        0 <= k < 512 ==> #[trigger] s[k] == (if 512 * (i - start) + k < len { data[512 * (i - start) + k] } else { 0 })) by {
        let p = mgt::sector_place(i);
        assert(after.read(p.0, p.1, p.2) == Ok::<Seq<u8>, ErrorView>(bytes::padded_part(data, 512 * (i - start), 512)));
    }
    assert forall|i: int| 40 <= i < 1600 && !(start <= i < start + count) implies #[trigger] sector(after, i) == sector(image, i) by {
        let p = mgt::sector_place(i);
        assert(after.read(p.0, p.1, p.2) == image.read(p.0, p.1, p.2));
    }
    (slot, start, count)
}

/// A removal clears the slot of the first file with the name, and changes no other slot and no
/// sector behind the directory.
pub proof fn law_delete_clears(image: ImageView, name: Seq<char>, after: ImageView) -> (slot: int)
    requires
        mgt_edit::deleted(image, name) == Ok::<ImageView, ErrorView>(after),
    ensures
        0 <= slot < 80,
        slot_there(image, slot) && slot_byte(image, slot, 0) % 64 != 0,
        exists|k: int|
            0 <= k < mgt::entries_to(image, 80).len() && (#[trigger] mgt::entries_to(image, 80)[k]).index == slot && text::same_name(
                mgt::entries_to(image, 80)[k].filename,
                name,
            ),
        slot_there(after, slot),
        forall|k: int| 0 <= k < 256 ==> #[trigger] slot_byte(after, slot, k) == 0,
        forall|j: int, k: int|
            0 <= j < 80 && j != slot && slot_there(image, j) && 0 <= k < 256 ==> #[trigger] slot_byte(after, j, k) == slot_byte(image, j, k),
        forall|i: int| 40 <= i < 1600 ==> #[trigger] sector(after, i) == sector(image, i),
{
    let old = mgt::entries_to(image, 80);
    mgt_edit::lemma_find(old, name, 0);
    let e = mgt::find(old, name).unwrap();
    let k = choose|k: int| 0 <= k < old.len() && #[trigger] old[k] == e && text::same_name(e.filename, name);
    mgt_laws::lemma_listed_entry(image, 80, k);
    let slot = e.index;
    let zeros = Seq::new(256, |i: int| 0u8);
    mgt_laws::lemma_with_slot(image, slot, zeros, after);
    lemma_slot(image, slot);
    lemma_slot(after, slot);
    assert(mgt::slot_at(image, slot).unwrap()[0] == slot_byte(image, slot, 0));
    assert forall|k: int| 0 <= k < 256 implies #[trigger] slot_byte(after, slot, k) == 0 by {
        assert(zeros[k] == slot_byte(after, slot, k));
    }
    assert forall|j: int, k: int| 0 <= j < 80 && j != slot && slot_there(image, j) && 0 <= k < 256 implies #[trigger] slot_byte(
        after,
        j,
        k,
    ) == slot_byte(image, j, k) by {
        lemma_slot(image, j);
        lemma_slot(after, j);
        assert(mgt::slot_at(after, j) == mgt::slot_at(image, j));
        let s = mgt::slot_at(image, j).unwrap();
        assert(s[k] == slot_byte(image, j, k));
        assert(s[k] == slot_byte(after, j, k));
    }
    assert forall|i: int| 40 <= i < 1600 implies #[trigger] sector(after, i) == sector(image, i) by {
        let p = mgt::sector_place(i);
        let q = mgt::sector_place(slot / 2);
        assert(p != q) by {
            assert(q.0 == 0 && q.1 <= 3);
            if p.0 == 0 {
                assert(i < 800 && p.1 >= 4);
            }
        }
        assert(after.read(p.0, p.1, p.2) == image.read(p.0, p.1, p.2));
    }
    slot
}

/// Whether two names have the same letters, whatever their case.
pub open spec fn same_letters(a: Seq<char>, b: Seq<char>) -> bool {
    a.len() == b.len() && forall|i: int| 0 <= i < a.len() ==> capital(#[trigger] a[i]) == capital(b[i])
}

proof fn lemma_same_letters(a: Seq<char>, b: Seq<char>)
    ensures
        text::same_name(a, b) == same_letters(a, b),
{
    let x = text::upper_all(a);
    let y = text::upper_all(b);
    assert(x.len() == a.len() && y.len() == b.len());
    if x == y {
        assert forall|i: int| 0 <= i < a.len() implies capital(#[trigger] a[i]) == capital(b[i]) by {
            assert(x[i] == y[i]);
        }
    }
    if same_letters(a, b) {
        assert forall|i: int| 0 <= i < a.len() implies x[i] == y[i] by {
            assert(capital(a[i]) == capital(b[i]));
        }
        assert(x =~= y);
    }
}

proof fn lemma_find(list: Seq<MgtEntryView>, name: Seq<char>, from: int, k: int)
    requires
        0 <= from <= k < list.len(),
        same_letters(list[k].filename, name),
        forall|j: int| from <= j < k ==> !same_letters((#[trigger] list[j]).filename, name),
    ensures
        mgt::find_from(list, name, from) == Some(list[k]),
    decreases k - from,
{
    lemma_same_letters(list[from].filename, name);
    if from < k {
        lemma_find(list, name, from + 1, k);
    }
}

proof fn lemma_find_none(list: Seq<MgtEntryView>, name: Seq<char>, from: int)
    requires
        0 <= from <= list.len(),
        forall|j: int| from <= j < list.len() ==> !same_letters((#[trigger] list[j]).filename, name),
    ensures
        mgt::find_from(list, name, from) is None,
    decreases list.len() - from,
{
    if from < list.len() {
        lemma_same_letters(list[from].filename, name);
        lemma_find_none(list, name, from + 1);
    }
}

/// A name stands for the first file whose name has the same letters, whatever their case.
pub proof fn law_find_gives_the_first(list: Seq<MgtEntryView>, name: Seq<char>, k: int)
    requires
        0 <= k < list.len(),
        same_letters(list[k].filename, name),
        forall|j: int| 0 <= j < k ==> !same_letters((#[trigger] list[j]).filename, name),
    ensures
        mgt::find(list, name) == Some(list[k]),
{
    lemma_find(list, name, 0, k);
}

/// A name that no file has stands for none, and cannot be removed.
pub proof fn law_missing_files_are_not_found(image: ImageView, name: Seq<char>)
    requires
        forall|j: int|
            0 <= j < mgt::entries_to(image, 80).len() ==> !same_letters((#[trigger] mgt::entries_to(image, 80)[j]).filename, name),
    ensures
        mgt::find(mgt::entries_to(image, 80), name) is None,
        mgt::entries(image) is Ok ==> mgt_edit::deleted(image, name) == Err::<ImageView, ErrorView>(ErrorView::FileNotFound(name)),
{
    lemma_find_none(mgt::entries_to(image, 80), name, 0);
}

/// A disk is taken for an MGT disk exactly if its first sector can be read and has at least 512
/// bytes.
pub proof fn law_disk_is_recognised(image: ImageView)
    ensures
        match image.read(0, 0, 1) {
            Ok(s) => if s.len() >= 512 {
                mgt::entries(image) == Ok::<Seq<MgtEntryView>, ErrorView>(mgt::entries_to(image, 80))
            } else {
                mgt::entries(image) matches Err(ErrorView::Filesystem(_))
            },
            Err(e) => mgt::entries(image) == Err::<Seq<MgtEntryView>, ErrorView>(e),
        },
{
}

}
