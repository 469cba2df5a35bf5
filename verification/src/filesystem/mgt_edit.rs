//! Storing and removing files on MGT disks.

use crate::bytes;
use crate::error::{DskError, ErrorView};
use crate::filesystem::mgt;
use crate::filesystem::mgt::{MgtDirEntry, MgtEntryView, MgtFileSystem};
use crate::filesystem::names;
use crate::image::laws;
use crate::image::{DiskImage, ImageView};
use crate::text;
use vstd::prelude::*;

verus! {

/// The value of bit `n` of a byte, counted from the highest.
pub open spec fn weight(n: int) -> int {
    if n == 0 {
        128
    } else if n == 1 {
        64
    } else if n == 2 {
        32
    } else if n == 3 {
        16
    } else if n == 4 {
        8
    } else if n == 5 {
        4
    } else if n == 6 {
        2
    } else {
        1
    }
}

fn weight_of(n: usize) -> (w: u8)
    requires
        n < 8,
    ensures
        w == weight(n as int),
        w > 0,
{
    match n {
        0 => 128,
        1 => 64,
        2 => 32,
        3 => 16,
        4 => 8,
        5 => 4,
        6 => 2,
        _ => 1,
    }
}

/// Whether the sector map of a file has the bit for sector `i`; the map begins behind the
/// directory.
pub open spec fn mapped(entry: MgtEntryView, i: int) -> bool {
    &&& 40 <= i < 40 + 8 * entry.sector_map.len()
    &&& (entry.sector_map[(i - 40) / 8] as int) / weight((i - 40) % 8) % 2 == 1
}

/// Whether a file takes sector `i`, by its map or by where it begins and how long it is.
pub open spec fn covers(entry: MgtEntryView, i: int) -> bool {
    mapped(entry, i) || entry.start() <= i < entry.start() + entry.sectors_used
}

/// Whether sector `i` belongs to the directory or to one of the first `n` files.
pub open spec fn taken_to(entries: Seq<MgtEntryView>, n: int, i: int) -> bool {
    i < 40 || exists|k: int| 0 <= k < n && covers(#[trigger] entries[k], i)
}

/// Whether sector `i` is in use.
pub open spec fn taken(entries: Seq<MgtEntryView>, i: int) -> bool {
    taken_to(entries, entries.len() as int, i)
}

/// Whether `count` sectors from `i` on are free and on one side.
pub open spec fn run_at(entries: Seq<MgtEntryView>, count: int, i: int) -> bool {
    &&& i + count <= (if i < 800 { 800int } else { 1600 })
    &&& forall|k: int| i <= k < i + count ==> !#[trigger] taken(entries, k)
}

/// The first run of free sectors at or behind `from`.
pub open spec fn run_from(entries: Seq<MgtEntryView>, count: int, from: int) -> Option<int>
    decreases 1600 - from,
{
    if from >= 1600 {
        None
    } else if run_at(entries, count, from) {
        Some(from)
    } else {
        run_from(entries, count, from + 1)
    }
}

/// Whether a directory slot can be read and is free.
pub open spec fn slot_free(image: ImageView, i: int) -> bool {
    mgt::slot_at(image, i) matches Some(s) && s[0] % 64 == 0
}

/// The first free directory slot at or behind `from`.
pub open spec fn slot_from(image: ImageView, from: int) -> Option<int>
    decreases 80 - from,
{
    if from >= 80 {
        None
    } else if slot_free(image, from) {
        Some(from)
    } else {
        slot_from(image, from + 1)
    }
}

/// The value of map bit `k` for a file in the bits from `from` up to `to`.
pub open spec fn map_bit(from: int, to: int, k: int) -> int {
    if from <= k < to {
        weight(k % 8)
    } else {
        0
    }
}

/// Byte `m` of the sector map of a file in the bits from `from` up to `to`.
pub open spec fn map_byte(from: int, to: int, m: int) -> int {
    map_bit(from, to, 8 * m) + map_bit(from, to, 8 * m + 1) + map_bit(from, to, 8 * m + 2) + map_bit(
        from,
        to,
        8 * m + 3,
    ) + map_bit(from, to, 8 * m + 4) + map_bit(from, to, 8 * m + 5) + map_bit(from, to, 8 * m + 6) + map_bit(
        from,
        to,
        8 * m + 7,
    )
}

/// The directory entry of a code file with `len` bytes in `count` sectors from `start` on.
pub open spec fn entry_bytes(raw: Seq<u8>, len: int, count: int, start: int) -> Seq<u8> {
    Seq::new(
        256,
        |j: int|
            if j == 0 {
                0x13u8
            } else if j < 11 {
                raw[j - 1]
            } else if j == 11 {
                (count / 256) as u8
            } else if j == 12 {
                (count % 256) as u8
            } else if j == 13 {
                (start / 800 * 128 + start % 800 / 10) as u8
            } else if j == 14 {
                (start % 10 + 1) as u8
            } else if j < 210 {
                map_byte(start - 40, start + count - 40, j - 15) as u8
            } else if j == 211 {
                3u8
            } else if j == 212 {
                (len % 256) as u8
            } else if j == 213 {
                (len / 256) as u8
            } else {
                0u8
            },
    )
}

/// The image after the first `n` sectors of a file have been written.
pub open spec fn stored_to(image: ImageView, start: int, data: Seq<u8>, n: int) -> Result<ImageView, ErrorView>
    decreases n,
{
    if n <= 0 {
        Ok(image)
    } else {
        match stored_to(image, start, data, n - 1) {
            Err(e) => Err(e),
            Ok(i) => {
                let (side, track, id) = mgt::sector_place(start + n - 1);
                i.write(side, track, id, bytes::padded_part(data, 512 * (n - 1), 512))
            },
        }
    }
}

/// The image with other bytes in a directory slot.
pub open spec fn with_slot(image: ImageView, index: int, entry: Seq<u8>) -> Result<ImageView, ErrorView> {
    let (track, id, offset) = mgt::location(index);
    match image.read(0, track, id) {
        Err(e) => Err(e),
        Ok(s) => image.write(0, track, id, bytes::patched(s, offset, entry)),
    }
}

/// The number of sectors that a file takes.
pub open spec fn sectors_needed(len: int) -> int {
    bytes::div_up(len, 512)
}

/// The image with a new file, or why it cannot be stored: its name is bad, it is too long, a
/// file of this name exists, or there is no room.
pub open spec fn imported(image: ImageView, name: Seq<char>, data: Seq<u8>) -> Result<ImageView, ErrorView> {
    match names::padded(name, 10) {
        Err(e) => Err(e),
        Ok(raw) => if data.len() > 65535 {
            Err(ErrorView::Filesystem("MGT import limited to 65535 bytes"@))
        } else {
            match mgt::entries(image) {
                Err(e) => Err(e),
                Ok(entries) => if mgt::find(entries, name) is Some {
                    Err(ErrorView::Filesystem("File already exists"@))
                } else {
                    let count = sectors_needed(data.len() as int);
                    match (slot_from(image, 0), run_from(entries, count, 40)) {
                        (Some(slot), Some(start)) => match stored_to(image, start, data, count) {
                            Err(e) => Err(e),
                            Ok(i) => with_slot(i, slot, entry_bytes(raw, data.len() as int, count, start)),
                        },
                        _ => Err(ErrorView::DiskFull),
                    }
                },
            }
        },
    }
}

/// The image without a file, or why it cannot be removed.
pub open spec fn deleted(image: ImageView, name: Seq<char>) -> Result<ImageView, ErrorView> {
    match mgt::entries(image) {
        Err(e) => Err(e),
        Ok(entries) => match mgt::find(entries, name) {
            None => Err(ErrorView::FileNotFound(name)),
            Some(e) => with_slot(image, e.index, Seq::new(256, |i: int| 0u8)),
        },
    }
}

/// Marks the sectors that a file takes.
fn mark_file(used: &mut Vec<bool>, entry: &MgtDirEntry)
    requires
        old(used)@.len() == 1600,
        entry@.sector_map.len() == 195,
    ensures
        final(used)@.len() == 1600,
        forall|i: int| 0 <= i < 1600 ==> #[trigger] final(used)@[i] == (old(used)@[i] || covers(entry@, i)),
{
    let mut i: usize = 0;
    while i < 1560
        invariant
            i <= 1560,
            used@.len() == 1600,
            entry@.sector_map.len() == 195,
            forall|k: int| 0 <= k < 1600 ==> #[trigger] used@[k] == (old(used)@[k] || (mapped(entry@, k) && k < 40 + i)),
        decreases 1560 - i,
    {
        let w = weight_of(i % 8);
        if entry.sector_map[i / 8] / w % 2 == 1 {
            assert(mapped(entry@, 40 + i as int));
            used.set(40 + i, true);
        }
        i = i + 1;
    }
    let ghost marked = used@;
    let start = entry.start();
    let mut n: usize = 0;
    while n < entry.sectors_used as usize && start + n < 1600
        invariant
            n <= entry.sectors_used,
            start <= 2324,
            start == entry@.start(),
            used@.len() == 1600,
            marked.len() == 1600,
            forall|k: int| 0 <= k < 1600 ==> #[trigger] used@[k] == (marked[k] || start <= k < start + n),
        decreases entry.sectors_used - n,
    {
        used.set(start + n, true);
        n = n + 1;
    }
}

/// Finds the sectors in use.
fn used_sectors(directory: &[MgtDirEntry]) -> (used: Vec<bool>)
    requires
        forall|k: int| 0 <= k < directory@.len() ==> (#[trigger] directory@[k])@.sector_map.len() == 195,
    ensures
        used@.len() == 1600,
        forall|i: int| 0 <= i < 1600 ==> #[trigger] used@[i] == taken(mgt::mgt_views(directory@), i),
{
    let ghost entries = mgt::mgt_views(directory@);
    let mut used: Vec<bool> = vec![false; 1600];
    let mut i: usize = 0;
    while i < 40
        invariant
            i <= 40,
            used@.len() == 1600,
            forall|k: int| 0 <= k < 1600 ==> #[trigger] used@[k] == (k < i),
        decreases 40 - i,
    {
        used.set(i, true);
        i = i + 1;
    }
    let mut n: usize = 0;
    while n < directory.len()
        invariant
            n <= directory@.len(),
            entries == mgt::mgt_views(directory@),
            forall|k: int| 0 <= k < directory@.len() ==> (#[trigger] directory@[k])@.sector_map.len() == 195,
            used@.len() == 1600,
            forall|k: int| 0 <= k < 1600 ==> #[trigger] used@[k] == taken_to(entries, n as int, k),
        decreases directory@.len() - n,
    {
        let ghost before = used@;
        assert(entries[n as int] == directory@[n as int]@);
        mark_file(&mut used, &directory[n]);
        assert forall|k: int| 0 <= k < 1600 implies #[trigger] used@[k] == taken_to(entries, n + 1, k) by {
            assert(before[k] == taken_to(entries, n as int, k));
            lemma_taken_step(entries, n as int, k);
        }
        n = n + 1;
    }
    used
}

/// One more file takes its own sectors.
proof fn lemma_taken_step(entries: Seq<MgtEntryView>, n: int, i: int)
    requires
        0 <= n < entries.len(),
    ensures
        taken_to(entries, n + 1, i) == (taken_to(entries, n, i) || covers(entries[n], i)),
{
    if taken_to(entries, n + 1, i) && i >= 40 {
        let k = choose|k: int| 0 <= k < n + 1 && covers(#[trigger] entries[k], i);
        assert(k < n || k == n);
    }
    if taken_to(entries, n, i) && i >= 40 {
        let k = choose|k: int| 0 <= k < n && covers(#[trigger] entries[k], i);
        assert(0 <= k < n + 1);
    }
}

/// Whether `count` sectors from `i` on are free and on one side.
fn is_run(used: &Vec<bool>, count: usize, i: usize, entries: Ghost<Seq<MgtEntryView>>) -> (b: bool)
    requires
        used@.len() == 1600,
        i < 1600,
        count <= 128,
        forall|k: int| 0 <= k < 1600 ==> #[trigger] used@[k] == taken(entries@, k),
    ensures
        b == run_at(entries@, count as int, i as int),
{
    let boundary: usize = if i < 800 { 800 } else { 1600 };
    if i + count > boundary {
        return false;
    }
    let mut k: usize = i;
    while k < i + count
        invariant
            i <= k <= i + count <= 1600,
            used@.len() == 1600,
            forall|k: int| 0 <= k < 1600 ==> #[trigger] used@[k] == taken(entries@, k),
            forall|m: int| i <= m < k ==> !#[trigger] taken(entries@, m),
        decreases i + count - k,
    {
        if used[k] {
            assert(taken(entries@, k as int));
            return false;
        }
        k = k + 1;
    }
    true
}

/// Finds the first run of free sectors.
fn find_run(used: &Vec<bool>, count: usize, entries: Ghost<Seq<MgtEntryView>>) -> (r: Option<usize>)
    requires
        used@.len() == 1600,
        count <= 128,
        forall|k: int| 0 <= k < 1600 ==> #[trigger] used@[k] == taken(entries@, k),
    ensures
        match r {
            Some(i) => run_from(entries@, count as int, 40) == Some(i as int) && 40 <= i < 1600 && run_at(
                entries@,
                count as int,
                i as int,
            ),
            None => run_from(entries@, count as int, 40) is None,
        },
{
    let mut i: usize = 40;
    while i < 1600
        invariant
            40 <= i <= 1600,
            used@.len() == 1600,
            count <= 128,
            forall|k: int| 0 <= k < 1600 ==> #[trigger] used@[k] == taken(entries@, k),
            run_from(entries@, count as int, 40) == run_from(entries@, count as int, i as int),
        decreases 1600 - i,
    {
        if is_run(used, count, i, entries) {
            return Some(i);
        }
        i = i + 1;
    }
    None
}

/// Finds the first free directory slot.
fn find_slot(image: &DiskImage) -> (r: Option<usize>)
    ensures
        match r {
            Some(i) => i < 80 && slot_from(image@, 0) == Some(i as int),
            None => slot_from(image@, 0) is None,
        },
{
    let mut i: usize = 0;
    while i < 80
        invariant
            i <= 80,
            slot_from(image@, 0) == slot_from(image@, i as int),
        decreases 80 - i,
    {
        let (side, track, id, offset) = mgt::mgt_location(i);
        if let Ok(s) = image.read_sector(side, track, id) {
            if s.len() >= offset + 256 && s[offset] % 64 == 0 {
                return Some(i);
            }
        }
        i = i + 1;
    }
    None
}

fn bit_of(from: usize, to: usize, k: usize) -> (w: u8)
    ensures
        w == map_bit(from as int, to as int, k as int),
        w <= weight(k as int % 8),
{
    if from <= k && k < to {
        weight_of(k % 8)
    } else {
        0
    }
}

fn map_byte_of(from: usize, to: usize, m: usize) -> (b: u8)
    requires
        m < 195,
    ensures
        b == map_byte(from as int, to as int, m as int),
{
    bit_of(from, to, 8 * m) + bit_of(from, to, 8 * m + 1) + bit_of(from, to, 8 * m + 2) + bit_of(from, to, 8 * m + 3)
        + bit_of(from, to, 8 * m + 4) + bit_of(from, to, 8 * m + 5) + bit_of(from, to, 8 * m + 6) + bit_of(
        from,
        to,
        8 * m + 7,
    )
}

/// The directory entry of a code file.
fn make_entry(raw: &Vec<u8>, len: u16, count: usize, start: usize) -> (entry: Vec<u8>)
    requires
        raw@.len() == 10,
        count <= 128,
        40 <= start < 1600,
    ensures
        entry@ == entry_bytes(raw@, len as int, count as int, start as int),
{
    let mut entry: Vec<u8> = Vec::new();
    let (low, high) = bytes::split_word(len);
    let mut j: usize = 0;
    while j < 256
        invariant
            j <= 256,
            raw@.len() == 10,
            count <= 128,
            40 <= start < 1600,
            low == len % 256,
            high == len / 256,
            entry@ =~= entry_bytes(raw@, len as int, count as int, start as int).take(j as int),
        decreases 256 - j,
    {
        let b: u8 = if j == 0 {
            0x13
        } else if j < 11 {
            raw[j - 1]
        } else if j == 11 {
            (count / 256) as u8
        } else if j == 12 {
            (count % 256) as u8
        } else if j == 13 {
            (start / 800 * 128 + start % 800 / 10) as u8
        } else if j == 14 {
            (start % 10 + 1) as u8
        } else if j < 210 {
            map_byte_of(start - 40, start + count - 40, j - 15)
        } else if j == 211 {
            3
        } else if j == 212 {
            low
        } else if j == 213 {
            high
        } else {
            0
        };
        entry.push(b);
        j = j + 1;
    }
    assert(entry@ =~= entry_bytes(raw@, len as int, count as int, start as int));
    entry
}

/// Replaces the bytes of a directory slot.
fn write_slot(image: &mut DiskImage, index: usize, entry: &[u8]) -> (r: Result<(), DskError>)
    requires
        index < 80,
    ensures
        match r {
            Ok(()) => with_slot(old(image)@, index as int, entry@) == Ok::<ImageView, ErrorView>(final(image)@),
            Err(e) => with_slot(old(image)@, index as int, entry@) == Err::<ImageView, ErrorView>(e@),
        },
        laws::same_layout(old(image)@, final(image)@),
{
    proof {
        laws::lemma_same_layout_reflexive(image@);
    }
    let (side, track, id, offset) = mgt::mgt_location(index);
    let sector = match image.read_sector(side, track, id) {
        Err(e) => {
            return Err(e);
        },
        Ok(s) => bytes::patch(s, offset, entry),
    };
    image.write_sector(side, track, id, sector.as_slice())
}

/// An error while the first sectors are written is an error of the whole.
proof fn lemma_stored_stop(image: ImageView, start: int, data: Seq<u8>, i: int, n: int)
    requires
        i <= n,
        stored_to(image, start, data, i) is Err,
    ensures
        stored_to(image, start, data, n) == stored_to(image, start, data, i),
    decreases n - i,
{
    if i < n {
        lemma_stored_stop(image, start, data, i, n - 1);
    }
}

/// The files of a disk have sector maps of 195 bytes and lie in slots below 80.
pub proof fn lemma_entries(image: ImageView, n: int)
    requires
        0 <= n <= 80,
    ensures
        forall|k: int| 0 <= k < mgt::entries_to(image, n).len() ==> {
            let e = #[trigger] mgt::entries_to(image, n)[k];
            e.sector_map.len() == 195 && 0 <= e.index < n
        },
    decreases n,
{
    if n > 0 {
        lemma_entries(image, n - 1);
        let rest = mgt::entries_to(image, n - 1);
        assert forall|k: int| 0 <= k < mgt::entries_to(image, n).len() implies {
            let e = #[trigger] mgt::entries_to(image, n)[k];
            e.sector_map.len() == 195 && 0 <= e.index < n
        } by {
            if k < rest.len() {
                assert(mgt::entries_to(image, n)[k] == rest[k]);
            }
        }
    }
}

/// A file that is found is one of the files.
pub proof fn lemma_find(entries: Seq<MgtEntryView>, name: Seq<char>, from: int)
    requires
        0 <= from <= entries.len(),
    ensures
        match mgt::find_from(entries, name, from) {
            Some(e) => exists|k: int| from <= k < entries.len() && #[trigger] entries[k] == e && text::same_name(e.filename, name),
            None => forall|k: int| from <= k < entries.len() ==> !text::same_name(#[trigger] entries[k].filename, name),
        },
    decreases entries.len() - from,
{
    if from < entries.len() {
        if text::same_name(entries[from].filename, name) {
            assert(entries[from] == entries[from]);
        } else {
            lemma_find(entries, name, from + 1);
        }
    }
}

/// Stores a new file. After an error the image may be half-written, but keeps its layout.
pub fn mgt_import(image: &mut DiskImage, name: &str, data: &[u8]) -> (r: Result<(), DskError>)
    ensures
        match r {
            Ok(()) => imported(old(image)@, name@, data@) == Ok::<ImageView, ErrorView>(final(image)@),
            Err(e) => imported(old(image)@, name@, data@) == Err::<ImageView, ErrorView>(e@),
        },
        laws::same_layout(old(image)@, final(image)@),
{
    proof {
        laws::lemma_same_layout_reflexive(image@);
    }
    let raw = match names::padded_name(&text::chars_of(name), 10) {
        Ok(raw) => raw,
        Err(e) => {
            return Err(e);
        },
    };
    if data.len() > 65535 {
        return Err(DskError::filesystem("MGT import limited to 65535 bytes"));
    }
    let count = bytes::ceil_div(data.len(), 512);
    proof {
        bytes::lemma_div_up(data@.len() as int, 512);
    }
    let ghost entries = mgt::entries_to(image@, 80);
    let found = {
        let fs = match MgtFileSystem::new(image) {
            Ok(fs) => fs,
            Err(e) => {
                return Err(e);
            },
        };
        if let Some(_) = fs.find_file(name) {
            return Err(DskError::filesystem("File already exists"));
        }
        let directory = fs.directory();
        proof {
            lemma_entries(image@, 80);
            assert forall|k: int| 0 <= k < directory@.len() implies (#[trigger] directory@[k])@.sector_map.len() == 195 by {
                assert(mgt::mgt_views(directory@)[k] == directory@[k]@);
            }
        }
        let used = used_sectors(directory);
        (find_slot(image), find_run(&used, count, Ghost(entries)))
    };
    let (slot, start) = match found {
        (Some(slot), Some(start)) => (slot, start),
        _ => {
            return Err(DskError::DiskFull);
        },
    };
    let entry = make_entry(&raw, data.len() as u16, count, start);
    let ghost before = image@;
    let mut i: usize = 0;
    while i < count
        invariant
            i <= count <= 128,
            start < 1600,
            data@.len() <= 65535,
            before == old(image)@,
            stored_to(before, start as int, data@, i as int) == Ok::<ImageView, ErrorView>(image@),
            laws::same_layout(before, image@),
            imported(before, name@, data@) == (match stored_to(before, start as int, data@, count as int) {
                Err(e) => Err::<ImageView, ErrorView>(e),
                Ok(j) => with_slot(j, slot as int, entry@),
            }),
        decreases count - i,
    {
        let (side, track, id) = mgt::mgt_sector(start + i);
        let sector = bytes::take_part(data, 512 * i, 512);
        let ghost so_far = image@;
        let written = image.write_sector(side, track, id, sector.as_slice());
        proof {
            laws::lemma_same_layout_chain(before, so_far, image@);
        }
        match written {
            Ok(()) => {},
            Err(e) => {
                proof {
                    lemma_stored_stop(before, start as int, data@, i + 1, count as int);
                }
                return Err(e);
            },
        }
        i = i + 1;
    }
    let ghost mid = image@;
    let written = write_slot(image, slot, entry.as_slice());
    proof {
        laws::lemma_same_layout_chain(before, mid, image@);
    }
    written
}

/// Removes a file. After an error the image keeps its layout.
pub fn mgt_delete(image: &mut DiskImage, name: &str) -> (r: Result<(), DskError>)
    ensures
        match r {
            Ok(()) => deleted(old(image)@, name@) == Ok::<ImageView, ErrorView>(final(image)@),
            Err(e) => deleted(old(image)@, name@) == Err::<ImageView, ErrorView>(e@),
        },
        laws::same_layout(old(image)@, final(image)@),
{
    proof {
        laws::lemma_same_layout_reflexive(image@);
    }
    proof {
        lemma_entries(image@, 80);
        lemma_find(mgt::entries_to(image@, 80), name@, 0);
    }
    let index: usize = {
        let fs = match MgtFileSystem::new(image) {
            Ok(fs) => fs,
            Err(e) => {
                return Err(e);
            },
        };
        match fs.find_file(name) {
            None => {
                return Err(DskError::FileNotFound(name.to_string()));
            },
            Some(e) => e.index,
        }
    };
    let zeros: Vec<u8> = vec![0u8; 256];
    assert(zeros@ =~= Seq::new(256, |i: int| 0u8));
    write_slot(image, index, zeros.as_slice())
}

}
