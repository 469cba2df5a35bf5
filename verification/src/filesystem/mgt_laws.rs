//! Laws of MGT disks: what is read after files have been stored and removed.

use crate::bytes;
use crate::error::ErrorView;
use crate::filesystem::mgt;
use crate::filesystem::mgt::MgtEntryView;
use crate::filesystem::mgt_edit;
use crate::filesystem::names;
use crate::image::laws;
use crate::image::ImageView;
use crate::text;
use vstd::prelude::*;

verus! {

/// Different sectors lie in different places.
proof fn lemma_places_differ(a: int, b: int)
    requires
        0 <= a < 204800,
        0 <= b < 204800,
        a != b,
    ensures
        mgt::sector_place(a) != mgt::sector_place(b),
{
}

/// The directory lies in the first sectors.
proof fn lemma_location(i: int)
    requires
        0 <= i < 80,
    ensures
        ({
            let (track, id, offset) = mgt::location(i);
            &&& (0u8, track, id) == mgt::sector_place(i / 2)
            &&& offset == 0 || offset == 256
        }),
{
}

/// What is read after the first `n` sectors of a file have been written.
proof fn lemma_stored(image: ImageView, start: int, data: Seq<u8>, n: int)
    requires
        40 <= start,
        0 <= n,
        start + n <= 1600,
    ensures
        mgt_edit::stored_to(image, start, data, n) matches Ok(after) ==> {
            &&& laws::same_layout(image, after)
            &&& forall|i: int|
                0 <= i < 204800 ==> #[trigger] after.read(mgt::sector_place(i).0, mgt::sector_place(i).1, mgt::sector_place(i).2) == (if start
                    <= i < start + n {
                    Ok::<Seq<u8>, ErrorView>(bytes::padded_part(data, 512 * (i - start), 512))
                } else {
                    image.read(mgt::sector_place(i).0, mgt::sector_place(i).1, mgt::sector_place(i).2)
                })
        },
    decreases n,
{
    if n <= 0 {
        laws::lemma_same_layout_reflexive(image);
    } else {
        lemma_stored(image, start, data, n - 1);
        if let Ok(after) = mgt_edit::stored_to(image, start, data, n) {
            let before = mgt_edit::stored_to(image, start, data, n - 1)->Ok_0;
            let a = mgt::sector_place(start + n - 1);
            let part = bytes::padded_part(data, 512 * (n - 1), 512);
            laws::law_write_keeps_layout(before, after, a.0, a.1, a.2, part);
            laws::lemma_same_layout_chain(image, before, after);
            laws::law_read_after_write(before, after, a.0, a.1, a.2, part);
            assert forall|i: int| 0 <= i < 204800 implies #[trigger] after.read(
                mgt::sector_place(i).0,
                mgt::sector_place(i).1,
                mgt::sector_place(i).2,
            ) == (if start <= i < start + n {
                Ok::<Seq<u8>, ErrorView>(bytes::padded_part(data, 512 * (i - start), 512))
            } else {
                image.read(mgt::sector_place(i).0, mgt::sector_place(i).1, mgt::sector_place(i).2)
            }) by {
                if i != start + n - 1 {
                    lemma_places_differ(i, start + n - 1);
                    let p = mgt::sector_place(i);
                    laws::law_write_leaves_others(before, after, a.0, a.1, a.2, part, p.0, p.1, p.2);
                    assert(before.read(p.0, p.1, p.2) == (if start <= i < start + n - 1 {
                        Ok::<Seq<u8>, ErrorView>(bytes::padded_part(data, 512 * (i - start), 512))
                    } else {
                        image.read(p.0, p.1, p.2)
                    }));
                }
            }
        }
    }
}

/// What a change of a directory slot does.
pub proof fn lemma_with_slot(image: ImageView, index: int, entry: Seq<u8>, after: ImageView)
    requires
        0 <= index < 80,
        entry.len() == 256,
        mgt_edit::with_slot(image, index, entry) == Ok::<ImageView, ErrorView>(after),
        mgt::slot_at(image, index) is Some,
    ensures
        laws::same_layout(image, after),
        mgt::slot_at(after, index) == Some(entry),
        forall|i: int| 0 <= i < 80 && i != index ==> #[trigger] mgt::slot_at(after, i) == mgt::slot_at(image, i),
        forall|s: u8, t: u8, id: u8| (s, t, id) != mgt::sector_place(index / 2) ==> #[trigger] after.read(s, t, id) == image.read(s, t, id),
        image.read(0, 0, 1) matches Ok(d) ==> (after.read(0, 0, 1) matches Ok(e) && d.len() == e.len()),
        image.read(0, 0, 1) is Err ==> after.read(0, 0, 1) == image.read(0, 0, 1),
{
    let (track, id, offset) = mgt::location(index);
    lemma_location(index);
    let s = image.read(0, track, id)->Ok_0;
    let p = bytes::patched(s, offset, entry);
    laws::law_write_keeps_layout(image, after, 0, track, id, p);
    laws::law_read_after_write(image, after, 0, track, id, p);
    assert forall|a: u8, b: u8, c: u8| (a, b, c) != mgt::sector_place(index / 2) implies #[trigger] after.read(a, b, c) == image.read(a, b, c) by {
        laws::law_write_leaves_others(image, after, 0, track, id, p, a, b, c);
    }
    assert(p.subrange(offset, offset + 256) =~= entry);
    assert forall|i: int| 0 <= i < 80 && i != index implies #[trigger] mgt::slot_at(after, i) == mgt::slot_at(image, i) by {
        lemma_location(i);
        let (t2, id2, o2) = mgt::location(i);
        if i / 2 == index / 2 {
            assert(o2 != offset);
            if s.len() >= o2 + 256 {
                assert(p.subrange(o2, o2 + 256) =~= s.subrange(o2, o2 + 256));
            }
        } else {
            lemma_places_differ(i / 2, index / 2);
        }
    }
}

/// The entry that a new file gets.
pub open spec fn new_entry(image: ImageView, name: Seq<char>, data: Seq<u8>) -> MgtEntryView {
    let count = mgt_edit::sectors_needed(data.len() as int);
    let start = mgt_edit::run_from(mgt::entries_to(image, 80), count, 40).unwrap();
    let slot = mgt_edit::slot_from(image, 0).unwrap();
    mgt::entry_of(mgt_edit::entry_bytes(names::padded_bytes(name, 10), data.len() as int, count, start), slot).unwrap()
}

/// Where a free slot is found.
pub proof fn lemma_slot_from(image: ImageView, from: int)
    requires
        0 <= from,
    ensures
        mgt_edit::slot_from(image, from) matches Some(i) ==> from <= i < 80 && mgt_edit::slot_free(image, i),
    decreases 80 - from,
{
    if from < 80 && !mgt_edit::slot_free(image, from) {
        lemma_slot_from(image, from + 1);
    }
}

/// Where a run of free sectors is found.
pub proof fn lemma_run_from(entries: Seq<MgtEntryView>, count: int, from: int)
    requires
        0 <= from,
    ensures
        mgt_edit::run_from(entries, count, from) matches Some(i) ==> from <= i < 1600 && mgt_edit::run_at(entries, count, i),
    decreases 1600 - from,
{
    if from < 1600 && !mgt_edit::run_at(entries, count, from) {
        lemma_run_from(entries, count, from + 1);
    }
}

/// What a new file changes.
pub proof fn lemma_imported(image: ImageView, name: Seq<char>, data: Seq<u8>, after: ImageView)
    requires
        mgt_edit::imported(image, name, data) == Ok::<ImageView, ErrorView>(after),
    ensures
        laws::same_layout(image, after),
        names::fits(name, 10),
        data.len() <= 65535,
        mgt::entries(image) is Ok,
        mgt::entries(after) is Ok,
        mgt::find(mgt::entries_to(image, 80), name) is None,
        ({
            let count = mgt_edit::sectors_needed(data.len() as int);
            let slot = mgt_edit::slot_from(image, 0).unwrap();
            let start = mgt_edit::run_from(mgt::entries_to(image, 80), count, 40).unwrap();
            let entry = mgt_edit::entry_bytes(names::padded_bytes(name, 10), data.len() as int, count, start);
            &&& 0 <= slot < 80
            &&& mgt_edit::slot_free(image, slot)
            &&& 40 <= start < 1600
            &&& 0 <= count <= 128
            &&& start + count <= 1600
            &&& mgt_edit::run_at(mgt::entries_to(image, 80), count, start)
            &&& mgt::slot_at(after, slot) == Some(entry)
            &&& forall|i: int| 0 <= i < 80 && i != slot ==> #[trigger] mgt::slot_at(after, i) == mgt::slot_at(image, i)
            &&& forall|i: int|
                40 <= i < 204800 ==> #[trigger] after.read(mgt::sector_place(i).0, mgt::sector_place(i).1, mgt::sector_place(i).2) == (if start
                    <= i < start + count {
                    Ok::<Seq<u8>, ErrorView>(bytes::padded_part(data, 512 * (i - start), 512))
                } else {
                    image.read(mgt::sector_place(i).0, mgt::sector_place(i).1, mgt::sector_place(i).2)
                })
        }),
{
    let len = data.len() as int;
    let count = mgt_edit::sectors_needed(len);
    bytes::lemma_div_up(len, 512);
    let entries = mgt::entries_to(image, 80);
    let slot = mgt_edit::slot_from(image, 0).unwrap();
    let start = mgt_edit::run_from(entries, count, 40).unwrap();
    lemma_slot_from(image, 0);
    lemma_run_from(entries, count, 40);
    lemma_stored(image, start, data, count);
    let mid = mgt_edit::stored_to(image, start, data, count)->Ok_0;
    let entry = mgt_edit::entry_bytes(names::padded_bytes(name, 10), len, count, start);
    assert forall|i: int| 0 <= i < 80 implies #[trigger] mgt::slot_at(mid, i) == mgt::slot_at(image, i) by {
        lemma_location(i);
        let p = mgt::sector_place(i / 2);
        assert(mid.read(p.0, p.1, p.2) == image.read(p.0, p.1, p.2));
    }
    lemma_with_slot(mid, slot, entry, after);
    laws::lemma_same_layout_chain(image, mid, after);
    assert forall|i: int| 40 <= i < 204800 implies #[trigger] after.read(
        mgt::sector_place(i).0,
        mgt::sector_place(i).1,
        mgt::sector_place(i).2,
    ) == (if start <= i < start + count {
        Ok::<Seq<u8>, ErrorView>(bytes::padded_part(data, 512 * (i - start), 512))
    } else {
        image.read(mgt::sector_place(i).0, mgt::sector_place(i).1, mgt::sector_place(i).2)
    }) by {
        lemma_places_differ(i, slot / 2);
        let p = mgt::sector_place(i);
        assert(after.read(p.0, p.1, p.2) == mid.read(p.0, p.1, p.2));
    }
    let first = mgt::sector_place(0);
    assert(first == (0u8, 0u8, 1u8));
    assert(mid.read(first.0, first.1, first.2) == image.read(first.0, first.1, first.2));
}

/// The parts of a new entry.
proof fn lemma_new_entry(image: ImageView, name: Seq<char>, data: Seq<u8>, after: ImageView)
    requires
        mgt_edit::imported(image, name, data) == Ok::<ImageView, ErrorView>(after),
    ensures
        ({
            let count = mgt_edit::sectors_needed(data.len() as int);
            let slot = mgt_edit::slot_from(image, 0).unwrap();
            let start = mgt_edit::run_from(mgt::entries_to(image, 80), count, 40).unwrap();
            let e = new_entry(image, name, data);
            &&& mgt::entry_of(mgt::slot_at(after, slot).unwrap(), slot) == Some(e)
            &&& e.index == slot
            &&& e.filename == text::upper_all(name)
            &&& e.start() == start
            &&& e.sectors_used == count
            &&& e.length == data.len()
        }),
{
    lemma_imported(image, name, data, after);
    let count = mgt_edit::sectors_needed(data.len() as int);
    let start = mgt_edit::run_from(mgt::entries_to(image, 80), count, 40).unwrap();
    let slot = mgt_edit::slot_from(image, 0).unwrap();
    lemma_entry_parts(name, data.len() as int, count, start, slot);
}

/// What the bytes of a new entry say.
proof fn lemma_entry_parts(name: Seq<char>, len: int, count: int, start: int, slot: int)
    requires
        names::fits(name, 10),
        0 <= len <= 65535,
        0 <= count <= 128,
        40 <= start < 1600,
    ensures
        ({
            let b = mgt_edit::entry_bytes(names::padded_bytes(name, 10), len, count, start);
            mgt::entry_of(b, slot) matches Some(e) && {
                &&& e.index == slot
                &&& e.filename == text::upper_all(name)
                &&& e.start() == start
                &&& e.sectors_used == count
                &&& e.length == len
            }
        }),
{
    let b = mgt_edit::entry_bytes(names::padded_bytes(name, 10), len, count, start);
    names::lemma_padded_text(name, 10);
    assert(b.subrange(1, 11) =~= names::padded_bytes(name, 10));
    assert(b[0] == 0x13);
    assert(b[11] == count / 256 && b[12] == count % 256);
    assert(b[13] == start / 800 * 128 + start % 800 / 10);
    assert(b[14] == start % 10 + 1);
    assert(b[212] == len % 256 && b[213] == len / 256);
    let e = mgt::entry_of(b, slot).unwrap();
    assert(e.start() == start) by {
        let t = start % 800 / 10;
        assert(start % 800 == 10 * t + start % 10);
        assert(start == 800 * (start / 800) + start % 800);
        assert(start / 800 == 0 || start / 800 == 1);
        assert(0 <= t < 80);
    }
}

/// Every slot in use has its entry in the directory.
pub proof fn lemma_entry_listed(image: ImageView, i: int, n: int)
    requires
        0 <= i < n,
        mgt::slot_at(image, i) matches Some(s) && mgt::entry_of(s, i) is Some,
    ensures
        exists|k: int| 0 <= k < mgt::entries_to(image, n).len() && #[trigger] mgt::entries_to(image, n)[k] == mgt::entry_of(
            mgt::slot_at(image, i).unwrap(),
            i,
        ).unwrap(),
    decreases n,
{
    let e = mgt::entry_of(mgt::slot_at(image, i).unwrap(), i).unwrap();
    let list = mgt::entries_to(image, n);
    if i == n - 1 {
        assert(list[list.len() - 1] == e);
    } else {
        lemma_entry_listed(image, i, n - 1);
        let rest = mgt::entries_to(image, n - 1);
        let k = choose|k: int| 0 <= k < rest.len() && #[trigger] rest[k] == e;
        assert(list[k] == e);
    }
}

/// Every entry of the directory is that of its slot.
pub proof fn lemma_listed_entry(image: ImageView, n: int, k: int)
    requires
        0 <= k < mgt::entries_to(image, n).len(),
        n <= 80,
    ensures
        ({
            let e = mgt::entries_to(image, n)[k];
            0 <= e.index < n && (mgt::slot_at(image, e.index) matches Some(s) && mgt::entry_of(s, e.index) == Some(e))
        }),
    decreases n,
{
    if n > 0 {
        let rest = mgt::entries_to(image, n - 1);
        if k < rest.len() {
            lemma_listed_entry(image, n - 1, k);
            assert(mgt::entries_to(image, n)[k] == rest[k]);
        }
    }
}

/// The data of a new file.
proof fn lemma_sectors_read(image: ImageView, start: int, data: Seq<u8>, count: int, n: int)
    requires
        40 <= start,
        start + count <= 1600,
        0 <= n <= count,
        forall|i: int|
            start <= i < start + count ==> #[trigger] image.read(mgt::sector_place(i).0, mgt::sector_place(i).1, mgt::sector_place(i).2)
                == Ok::<Seq<u8>, ErrorView>(bytes::padded_part(data, 512 * (i - start), 512)),
    ensures
        mgt::sectors_to(image, start, n) == Ok::<Seq<u8>, ErrorView>(bytes::padded_part(data, 0, 512 * n)),
    decreases n,
{
    if n <= 0 {
        assert(bytes::padded_part(data, 0, 0) =~= Seq::<u8>::empty());
    } else {
        lemma_sectors_read(image, start, data, count, n - 1);
        let i = start + n - 1;
        assert(image.read(mgt::sector_place(i).0, mgt::sector_place(i).1, mgt::sector_place(i).2) == Ok::<Seq<u8>, ErrorView>(
            bytes::padded_part(data, 512 * (i - start), 512),
        ));
        assert(bytes::padded_part(data, 0, 512 * (n - 1)) + bytes::padded_part(data, 512 * (n - 1), 512) =~= bytes::padded_part(
            data,
            0,
            512 * n,
        ));
    }
}

/// What is read of a file on a disk that is opened anew.
pub open spec fn reread(image: ImageView, name: Seq<char>) -> Result<Seq<u8>, ErrorView> {
    match mgt::entries(image) {
        Err(e) => Err(e),
        Ok(entries) => match mgt::find(entries, name) {
            None => Err(ErrorView::FileNotFound(name)),
            Some(e) => mgt::content(image, e),
        },
    }
}

/// Names that are the same as a third are the same.
proof fn lemma_same_name_chain(a: Seq<char>, b: Seq<char>, c: Seq<char>)
    requires
        text::same_name(a, b),
        text::same_name(b, c),
    ensures
        text::same_name(a, c),
        text::same_name(c, a),
{
}

/// A file that has been stored is found and read back byte for byte, under its name in
/// whatever case.
pub proof fn law_import_then_read(image: ImageView, name: Seq<char>, data: Seq<u8>, after: ImageView, read_name: Seq<char>)
    requires
        mgt_edit::imported(image, name, data) == Ok::<ImageView, ErrorView>(after),
        text::same_name(read_name, name),
    ensures
        mgt::find(mgt::entries_to(after, 80), read_name) == Some(new_entry(image, name, data)),
        reread(after, read_name) == Ok::<Seq<u8>, ErrorView>(data),
{
    lemma_imported(image, name, data, after);
    lemma_new_entry(image, name, data, after);
    let len = data.len() as int;
    let count = mgt_edit::sectors_needed(len);
    let slot = mgt_edit::slot_from(image, 0).unwrap();
    let start = mgt_edit::run_from(mgt::entries_to(image, 80), count, 40).unwrap();
    let e = new_entry(image, name, data);
    let list = mgt::entries_to(after, 80);
    let old = mgt::entries_to(image, 80);
    text::lemma_upper_same(name);
    lemma_same_name_chain(read_name, name, e.filename);
    lemma_entry_listed(after, slot, 80);
    let k = choose|k: int| 0 <= k < list.len() && #[trigger] list[k] == e;
    mgt_edit::lemma_find(list, read_name, 0);
    assert(text::same_name(list[k].filename, read_name));
    let f = mgt::find(list, read_name).unwrap();
    let m = choose|m: int| 0 <= m < list.len() && #[trigger] list[m] == f && text::same_name(f.filename, read_name);
    lemma_listed_entry(after, 80, m);
    if f.index != slot {
        assert(mgt::slot_at(after, f.index) == mgt::slot_at(image, f.index));
        lemma_entry_listed(image, f.index, 80);
        let j = choose|j: int| 0 <= j < old.len() && #[trigger] old[j] == f;
        mgt_edit::lemma_find(old, name, 0);
        lemma_same_name_chain(f.filename, read_name, name);
        assert(!text::same_name(old[j].filename, name));
    }
    lemma_sectors_read(after, start, data, count, count);
    bytes::lemma_div_up(len, 512);
    let d = bytes::padded_part(data, 0, 512 * count);
    assert(d.take(len) =~= data);
    assert(d.len() == len ==> d =~= data);
}

/// A name that has been stored cannot be stored again, with whatever data.
pub proof fn law_import_keeps_existing(image: ImageView, name: Seq<char>, data: Seq<u8>, after: ImageView, again: Seq<char>, other: Seq<u8>)
    requires
        mgt_edit::imported(image, name, data) == Ok::<ImageView, ErrorView>(after),
        text::same_name(again, name),
    ensures
        mgt_edit::imported(after, again, other) is Err,
{
    law_import_then_read(image, name, data, after, again);
    lemma_imported(image, name, data, after);
}

/// Sectors that are the same read the same.
proof fn lemma_same_sectors(a: ImageView, b: ImageView, start: int, n: int)
    requires
        forall|i: int|
            start <= i < start + n ==> #[trigger] a.read(mgt::sector_place(i).0, mgt::sector_place(i).1, mgt::sector_place(i).2) == b.read(
                mgt::sector_place(i).0,
                mgt::sector_place(i).1,
                mgt::sector_place(i).2,
            ),
    ensures
        mgt::sectors_to(a, start, n) == mgt::sectors_to(b, start, n),
    decreases n,
{
    if n > 0 {
        lemma_same_sectors(a, b, start, n - 1);
        let i = start + n - 1;
        assert(a.read(mgt::sector_place(i).0, mgt::sector_place(i).1, mgt::sector_place(i).2) == b.read(
            mgt::sector_place(i).0,
            mgt::sector_place(i).1,
            mgt::sector_place(i).2,
        ));
    }
}

/// Whether a file lies behind the directory.
pub open spec fn own_sectors(entry: MgtEntryView) -> bool {
    entry.sectors_used > 0 ==> 40 <= entry.start()
}

/// Storing a file leaves every other file where it was, with its content.
pub proof fn law_import_leaves_others(image: ImageView, name: Seq<char>, data: Seq<u8>, after: ImageView, k: int)
    requires
        mgt_edit::imported(image, name, data) == Ok::<ImageView, ErrorView>(after),
        0 <= k < mgt::entries_to(image, 80).len(),
        own_sectors(mgt::entries_to(image, 80)[k]),
    ensures
        mgt::entries_to(after, 80).contains(mgt::entries_to(image, 80)[k]),
        mgt::content(after, mgt::entries_to(image, 80)[k]) == mgt::content(image, mgt::entries_to(image, 80)[k]),
{
    lemma_imported(image, name, data, after);
    let entries = mgt::entries_to(image, 80);
    let e = entries[k];
    let count = mgt_edit::sectors_needed(data.len() as int);
    let slot = mgt_edit::slot_from(image, 0).unwrap();
    let start = mgt_edit::run_from(entries, count, 40).unwrap();
    lemma_listed_entry(image, 80, k);
    assert(e.index != slot);
    assert(mgt::slot_at(after, e.index) == mgt::slot_at(image, e.index));
    lemma_entry_listed(after, e.index, 80);
    assert forall|i: int| e.start() <= i < e.start() + e.sectors_used implies #[trigger] after.read(
        mgt::sector_place(i).0,
        mgt::sector_place(i).1,
        mgt::sector_place(i).2,
    ) == image.read(mgt::sector_place(i).0, mgt::sector_place(i).1, mgt::sector_place(i).2) by {
        assert(mgt_edit::covers(entries[k], i));
        assert(mgt_edit::taken(entries, i));
    }
    lemma_same_sectors(after, image, e.start(), e.sectors_used as int);
}

/// A file that has been removed is not found any more, if no other file has its name.
pub proof fn law_delete_then_absent(image: ImageView, name: Seq<char>, after: ImageView)
    requires
        mgt_edit::deleted(image, name) == Ok::<ImageView, ErrorView>(after),
        forall|j: int, k: int|
            0 <= j < mgt::entries_to(image, 80).len() && 0 <= k < mgt::entries_to(image, 80).len() && text::same_name(
                (#[trigger] mgt::entries_to(image, 80)[j]).filename,
                name,
            ) && text::same_name((#[trigger] mgt::entries_to(image, 80)[k]).filename, name) ==> j == k,
    ensures
        mgt::find(mgt::entries_to(after, 80), name) is None,
        reread(after, name) == Err::<Seq<u8>, ErrorView>(ErrorView::FileNotFound(name)),
{
    let old = mgt::entries_to(image, 80);
    let list = mgt::entries_to(after, 80);
    mgt_edit::lemma_find(old, name, 0);
    let e = mgt::find(old, name).unwrap();
    let k = choose|k: int| 0 <= k < old.len() && #[trigger] old[k] == e && text::same_name(e.filename, name);
    lemma_listed_entry(image, 80, k);
    let zeros = Seq::new(256, |i: int| 0u8);
    lemma_with_slot(image, e.index, zeros, after);
    mgt_edit::lemma_find(list, name, 0);
    if let Some(f) = mgt::find(list, name) {
        let m = choose|m: int| 0 <= m < list.len() && #[trigger] list[m] == f && text::same_name(f.filename, name);
        lemma_listed_entry(after, 80, m);
        if f.index != e.index {
            assert(mgt::slot_at(after, f.index) == mgt::slot_at(image, f.index));
            lemma_entry_listed(image, f.index, 80);
            let j = choose|j: int| 0 <= j < old.len() && #[trigger] old[j] == f;
            assert(text::same_name(old[j].filename, name) && text::same_name(old[k].filename, name));
        }
    }
}

/// Removing a file leaves every other file where it was, with its content.
pub proof fn law_delete_leaves_others(image: ImageView, name: Seq<char>, after: ImageView, k: int)
    requires
        mgt_edit::deleted(image, name) == Ok::<ImageView, ErrorView>(after),
        0 <= k < mgt::entries_to(image, 80).len(),
        !text::same_name(mgt::entries_to(image, 80)[k].filename, name),
        own_sectors(mgt::entries_to(image, 80)[k]),
    ensures
        mgt::entries_to(after, 80).contains(mgt::entries_to(image, 80)[k]),
        mgt::content(after, mgt::entries_to(image, 80)[k]) == mgt::content(image, mgt::entries_to(image, 80)[k]),
{
    let old = mgt::entries_to(image, 80);
    mgt_edit::lemma_find(old, name, 0);
    let e = mgt::find(old, name).unwrap();
    let j = choose|j: int| 0 <= j < old.len() && #[trigger] old[j] == e && text::same_name(e.filename, name);
    lemma_listed_entry(image, 80, j);
    lemma_listed_entry(image, 80, k);
    let f = old[k];
    let zeros = Seq::new(256, |i: int| 0u8);
    lemma_with_slot(image, e.index, zeros, after);
    assert(f.index != e.index);
    assert(mgt::slot_at(after, f.index) == mgt::slot_at(image, f.index));
    lemma_entry_listed(after, f.index, 80);
    assert forall|i: int| f.start() <= i < f.start() + f.sectors_used implies #[trigger] after.read(
        mgt::sector_place(i).0,
        mgt::sector_place(i).1,
        mgt::sector_place(i).2,
    ) == image.read(mgt::sector_place(i).0, mgt::sector_place(i).1, mgt::sector_place(i).2) by {
        lemma_places_differ(i, e.index / 2);
    }
    lemma_same_sectors(after, image, f.start(), f.sectors_used as int);
}

/// The file that slot `i` of the directory stands for.
spec fn file_in(image: ImageView, i: int) -> Option<MgtEntryView> {
    match mgt::slot_at(image, i) {
        None => None,
        Some(s) => mgt::entry_of(s, i),
    }
}

/// Whether two disks have the same layout, the same files and the same free slots.
spec fn alike(a: ImageView, b: ImageView) -> bool {
    &&& laws::same_layout(a, b)
    &&& mgt::entries(a) is Ok
    &&& mgt::entries(b) is Ok
    &&& forall|i: int| 0 <= i < 80 ==> #[trigger] file_in(a, i) == file_in(b, i) && mgt_edit::slot_free(a, i) == mgt_edit::slot_free(b, i)
}

proof fn lemma_alike_entries(a: ImageView, b: ImageView, n: int)
    requires
        alike(a, b),
        0 <= n <= 80,
    ensures
        mgt::entries_to(a, n) == mgt::entries_to(b, n),
    decreases n,
{
    if n > 0 {
        lemma_alike_entries(a, b, n - 1);
        assert(file_in(a, n - 1) == file_in(b, n - 1));
    }
}

proof fn lemma_alike_slot(a: ImageView, b: ImageView, from: int)
    requires
        alike(a, b),
        0 <= from,
    ensures
        mgt_edit::slot_from(a, from) == mgt_edit::slot_from(b, from),
    decreases 80 - from,
{
    if from < 80 {
        assert(file_in(a, from) == file_in(b, from));
        lemma_alike_slot(a, b, from + 1);
    }
}

/// Sectors that can be written on one disk can be written on another of the same layout.
proof fn lemma_stored_as_well(a: ImageView, b: ImageView, start: int, data: Seq<u8>, n: int)
    requires
        laws::same_layout(a, b),
        40 <= start,
        0 <= n,
        start + n <= 1600,
        mgt_edit::stored_to(a, start, data, n) is Ok,
    ensures
        mgt_edit::stored_to(b, start, data, n) is Ok,
    decreases n,
{
    if n > 0 {
        lemma_stored_as_well(a, b, start, data, n - 1);
        lemma_stored(a, start, data, n - 1);
        lemma_stored(b, start, data, n - 1);
        let i = mgt_edit::stored_to(a, start, data, n - 1)->Ok_0;
        let j = mgt_edit::stored_to(b, start, data, n - 1)->Ok_0;
        let p = mgt::sector_place(start + n - 1);
        assert(i.read(p.0, p.1, p.2) is Ok);
        laws::lemma_same_layout_reads(a, i, p.0, p.1, p.2);
        laws::lemma_same_layout_reads(a, b, p.0, p.1, p.2);
        laws::lemma_same_layout_reads(b, j, p.0, p.1, p.2);
        assert(j.read(p.0, p.1, p.2) is Ok);
    }
}

/// A file can be stored on any disk of the same layout with the same files and free slots.
proof fn lemma_imported_as_well(a: ImageView, b: ImageView, name: Seq<char>, data: Seq<u8>)
    requires
        alike(a, b),
        mgt_edit::imported(a, name, data) is Ok,
    ensures
        mgt_edit::imported(b, name, data) is Ok,
{
    let after = mgt_edit::imported(a, name, data)->Ok_0;
    lemma_imported(a, name, data, after);
    lemma_alike_entries(a, b, 80);
    lemma_alike_slot(a, b, 0);
    let count = mgt_edit::sectors_needed(data.len() as int);
    let slot = mgt_edit::slot_from(a, 0).unwrap();
    let start = mgt_edit::run_from(mgt::entries_to(a, 80), count, 40).unwrap();
    let (track, id, offset) = mgt::location(slot);
    lemma_stored_as_well(a, b, start, data, count);
    lemma_stored(b, start, data, count);
    let mid = mgt_edit::stored_to(b, start, data, count)->Ok_0;
    assert(a.read(0, track, id) is Ok);
    laws::lemma_same_layout_reads(a, b, 0, track, id);
    laws::lemma_same_layout_reads(b, mid, 0, track, id);
    assert(mid.read(0, track, id) is Ok);
}

/// A file that has been stored can be removed, and its space is free again: whatever could have
/// been stored before it can be stored after its removal.
pub proof fn law_delete_frees(image: ImageView, name: Seq<char>, data: Seq<u8>, after: ImageView, other: Seq<char>, other_data: Seq<u8>)
    requires
        mgt_edit::imported(image, name, data) == Ok::<ImageView, ErrorView>(after),
    ensures
        mgt_edit::deleted(after, name) is Ok,
        mgt_edit::imported(mgt_edit::deleted(after, name)->Ok_0, name, data) is Ok,
        mgt_edit::imported(image, other, other_data) is Ok ==> mgt_edit::imported(
            mgt_edit::deleted(after, name)->Ok_0,
            other,
            other_data,
        ) is Ok,
{
    lemma_imported(image, name, data, after);
    lemma_new_entry(image, name, data, after);
    law_import_then_read(image, name, data, after, name);
    let slot = mgt_edit::slot_from(image, 0).unwrap();
    let zeros = Seq::new(256, |i: int| 0u8);
    let (track, id, offset) = mgt::location(slot);
    assert(after.read(0, track, id) is Ok);
    let removed = mgt_edit::deleted(after, name)->Ok_0;
    lemma_with_slot(after, slot, zeros, removed);
    laws::lemma_same_layout_chain(image, after, removed);
    assert forall|i: int| 0 <= i < 80 implies #[trigger] file_in(image, i) == file_in(removed, i) && mgt_edit::slot_free(image, i)
        == mgt_edit::slot_free(removed, i) by {
        if i != slot {
            assert(mgt::slot_at(removed, i) == mgt::slot_at(after, i));
            assert(mgt::slot_at(after, i) == mgt::slot_at(image, i));
        }
    }
    lemma_imported_as_well(image, removed, name, data);
    if mgt_edit::imported(image, other, other_data) is Ok {
        lemma_imported_as_well(image, removed, other, other_data);
    }
}

}
