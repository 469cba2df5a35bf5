//! Laws of CP/M directories, byte by byte: what the slots of a file say of it.

use crate::filesystem::cpm_edit;
use crate::filesystem::cpm_listing_laws;
use crate::filesystem::cpm_model;
use crate::filesystem::cpm_model::{EntryView, FileKey};
use crate::image::ImageView;
use crate::order;
use crate::specification::{AllocationSize, DiskSpecFormat, DiskSpecification};
use vstd::prelude::*;

verus! {

/// The number of block numbers in a slot: sixteen bytes or eight words.
pub open spec fn places(wide: bool) -> int {
    if wide { 8 } else { 16 }
}

/// Block number `k` of slot `i`.
pub open spec fn block_at(dir: Seq<u8>, wide: bool, i: int, k: int) -> int {
    if wide {
        dir[32 * i + 16 + 2 * k] + 256 * dir[32 * i + 17 + 2 * k]
    } else {
        dir[32 * i + 16 + k] as int
    }
}

/// The block numbers among the first `n` of slot `i` that are not 0.
pub open spec fn blocks_in(dir: Seq<u8>, wide: bool, i: int, n: int) -> Seq<int>
    decreases n,
{
    if n <= 0 {
        Seq::empty()
    } else if block_at(dir, wide, i, n - 1) != 0 {
        blocks_in(dir, wide, i, n - 1).push(block_at(dir, wide, i, n - 1))
    } else {
        blocks_in(dir, wide, i, n - 1)
    }
}

/// Whether a specification has wide block numbers.
pub open spec fn wide(spec: DiskSpecification) -> bool {
    spec.allocation_size == AllocationSize::Word
}

/// Whether slot `i` belongs to a file: it has a user number (or is deleted, if such files are
/// wanted), and the disk, if its blocks are known, has all the blocks that it names.
pub open spec fn in_use(dir: Seq<u8>, spec: DiskSpecification, deleted: bool, i: int) -> bool {
    &&& dir[32 * i] <= 31 || deleted && dir[32 * i] == 0xE5
    &&& spec.blocks() == 0 || {
        &&& forall|k: int| 0 <= k < places(wide(spec)) ==> #[trigger] block_at(dir, wide(spec), i, k) <= spec.blocks()
        &&& blocks_in(dir, wide(spec), i, places(wide(spec))).len() <= spec.blocks()
    }
}

/// The name in slot `i`.
pub open spec fn name_at(dir: Seq<u8>, i: int) -> Seq<char> {
    cpm_model::entry_of(cpm_edit::slot(dir, i), i, true)->Some_0.name()
}

/// The extent number in slot `i`.
pub open spec fn extent_at(dir: Seq<u8>, i: int) -> int {
    32 * dir[32 * i + 14] + dir[32 * i + 12] % 32
}

/// Whether slot `i` is one of a file.
pub open spec fn slot_of(dir: Seq<u8>, spec: DiskSpecification, deleted: bool, user: u8, name: Seq<char>, i: int) -> bool {
    0 <= i < dir.len() / 32 && in_use(dir, spec, deleted, i) && dir[32 * i] == user && name_at(dir, i) == name
}

/// Whether `slots` are all the slots of a file, in the order of their extent numbers, and those
/// with the same number in the order in which they stand.
pub open spec fn file_slots(dir: Seq<u8>, spec: DiskSpecification, deleted: bool, user: u8, name: Seq<char>, slots: Seq<int>) -> bool {
    &&& forall|a: int| 0 <= a < slots.len() ==> slot_of(dir, spec, deleted, user, name, #[trigger] slots[a])
    &&& forall|a: int, b: int|
        0 <= a < b < slots.len() ==> extent_at(dir, #[trigger] slots[a]) < extent_at(dir, #[trigger] slots[b]) || extent_at(
            dir,
            slots[a],
        ) == extent_at(dir, slots[b]) && slots[a] < slots[b]
    &&& forall|i: int| #[trigger] slot_of(dir, spec, deleted, user, name, i) ==> slots.contains(i)
}

/// The number of records in the first `n` slots of a file.
pub open spec fn records_in(dir: Seq<u8>, slots: Seq<int>, n: int) -> int
    decreases n,
{
    if n <= 0 {
        0
    } else {
        records_in(dir, slots, n - 1) + dir[32 * slots[n - 1] + 15]
    }
}

/// The number of bytes missing in the last record of a file.
pub open spec fn missing_in_last(dir: Seq<u8>, last: int) -> int {
    if dir[32 * last + 15] > 0 && dir[32 * last + 13] > 0 {
        128 - dir[32 * last + 13]
    } else {
        0
    }
}

/// The blocks of the first `n` slots of a file.
pub open spec fn blocks_of_slots(dir: Seq<u8>, wide: bool, slots: Seq<int>, n: int) -> Seq<int>
    decreases n,
{
    if n <= 0 {
        Seq::empty()
    } else {
        blocks_of_slots(dir, wide, slots, n - 1) + blocks_in(dir, wide, slots[n - 1], places(wide))
    }
}

/// The list of numbers as integers.
pub open spec fn as_ints(s: Seq<u16>) -> Seq<int> {
    Seq::new(s.len(), |i: int| s[i] as int)
}

/// What an entry has from its slot.
pub open spec fn from_slot(dir: Seq<u8>, e: EntryView) -> bool {
    let i = e.index;
    &&& 0 <= i < dir.len() / 32
    &&& e.user == dir[32 * i]
    &&& e.extent_low == dir[32 * i + 12]
    &&& e.bytes_in_last_record == dir[32 * i + 13]
    &&& e.extent_high == dir[32 * i + 14]
    &&& e.record_count == dir[32 * i + 15]
    &&& e.filename.len() == 8
    &&& e.extension.len() == 3
    &&& e.allocation.len() == 16
    &&& forall|k: int| 0 <= k < 3 ==> #[trigger] e.extension[k] == dir[32 * i + 9 + k]
    &&& forall|k: int| 0 <= k < 16 ==> #[trigger] e.allocation[k] == dir[32 * i + 16 + k]
    &&& e.name() == name_at(dir, i)
}

/// An entry is read from its slot.
pub proof fn lemma_from_slot(dir: Seq<u8>, i: int, deleted: bool)
    requires
        0 <= i < dir.len() / 32,
    ensures
        cpm_model::entry_of(cpm_edit::slot(dir, i), i, deleted) is Some <==> dir[32 * i] <= 31 || deleted && dir[32 * i]
            == 0xE5,
        cpm_model::entry_of(cpm_edit::slot(dir, i), i, deleted) matches Some(e) ==> e.index == i && from_slot(dir, e),
{
    let s = cpm_edit::slot(dir, i);
    assert(s[0] == dir[32 * i]);
}

/// The blocks that an entry names are those of its slot.
proof fn lemma_named(dir: Seq<u8>, e: EntryView, width: AllocationSize, w: bool, n: int)
    requires
        from_slot(dir, e),
        w == (width == AllocationSize::Word),
        0 <= n <= places(w),
    ensures
        e.numbers(width).len() == places(w),
        as_ints(cpm_model::kept_to(e.numbers(width), 0, 0, n)) == blocks_in(dir, w, e.index, n),
        forall|k: int| 0 <= k < places(w) ==> e.numbers(width)[k] == #[trigger] block_at(dir, w, e.index, k),
    decreases n,
{
    assert forall|k: int| 0 <= k < places(w) implies e.numbers(width)[k] == #[trigger] block_at(dir, w, e.index, k) by {
        if w {
            assert(e.allocation[2 * k] == dir[32 * e.index + 16 + 2 * k]);
            assert(e.allocation[2 * k + 1] == dir[32 * e.index + 16 + (2 * k + 1)]);
        } else {
            assert(e.allocation[k] == dir[32 * e.index + 16 + k]);
        }
    }
    if n > 0 {
        lemma_named(dir, e, width, w, n - 1);
        assert(e.numbers(width)[n - 1] == block_at(dir, w, e.index, n - 1));
    }
    assert(as_ints(cpm_model::kept_to(e.numbers(width), 0, 0, n)) =~= blocks_in(dir, w, e.index, n));
}

/// Blocks that are named exist if all numbers are small enough.
proof fn lemma_kept_small(numbers: Seq<u16>, limit: int, n: int)
    requires
        0 <= n <= numbers.len(),
        0 <= limit,
    ensures
        (forall|j: int|
            0 <= j < cpm_model::kept_to(numbers, 0, 0, n).len() ==> #[trigger] cpm_model::kept_to(numbers, 0, 0, n)[j] <= limit)
            <==> (forall|k: int| 0 <= k < n ==> #[trigger] numbers[k] <= limit),
    decreases n,
{
    if n > 0 {
        lemma_kept_small(numbers, limit, n - 1);
        let rest = cpm_model::kept_to(numbers, 0, 0, n - 1);
        let all = cpm_model::kept_to(numbers, 0, 0, n);
        if forall|j: int| 0 <= j < all.len() ==> #[trigger] all[j] <= limit {
            assert forall|j: int| 0 <= j < rest.len() implies #[trigger] rest[j] <= limit by {
                assert(all[j] == rest[j]);
            }
            assert forall|k: int| 0 <= k < n implies #[trigger] numbers[k] <= limit by {
                if k == n - 1 && numbers[k] != 0 {
                    assert(all[rest.len() as int] == numbers[k]);
                }
            }
        } else {
            let j = choose|j: int| 0 <= j < all.len() && #[trigger] all[j] > limit;
            if j < rest.len() {
                assert(rest[j] > limit);
            } else {
                assert(numbers[n - 1] > limit);
            }
        }
    }
}

/// Entries are checked as slots are.
pub proof fn lemma_valid(dir: Seq<u8>, spec: DiskSpecification, e: EntryView)
    requires
        from_slot(dir, e),
    ensures
        e.valid(spec) <==> spec.blocks() == 0 || {
            &&& forall|k: int|
                0 <= k < places(wide(spec)) ==> #[trigger] block_at(dir, wide(spec), e.index, k) <= spec.blocks()
            &&& blocks_in(dir, wide(spec), e.index, places(wide(spec))).len() <= spec.blocks()
        },
        as_ints(e.blocks(spec.allocation_size)) == blocks_in(dir, wide(spec), e.index, places(wide(spec))),
{
    let width = spec.allocation_size;
    let numbers = e.numbers(width);
    let n = places(wide(spec));
    lemma_named(dir, e, width, wide(spec), n);
    if spec.blocks() > 0 {
        lemma_kept_small(numbers, spec.blocks(), n);
        assert(as_ints(e.blocks(width)).len() == e.blocks(width).len());
        if forall|k: int| 0 <= k < n ==> #[trigger] numbers[k] <= spec.blocks() {
            assert forall|k: int| 0 <= k < n implies #[trigger] block_at(dir, wide(spec), e.index, k) <= spec.blocks() by {
                assert(numbers[k] <= spec.blocks());
            }
        } else {
            let k = choose|k: int| 0 <= k < n && #[trigger] numbers[k] > spec.blocks();
            assert(block_at(dir, wide(spec), e.index, k) > spec.blocks());
        }
    } else {
        assert(spec.blocks() == 0) by {
            lemma_blocks_positive(spec);
        }
    }
}

/// There are no fewer than no blocks.
proof fn lemma_blocks_positive(spec: DiskSpecification)
    ensures
        spec.blocks() >= 0,
{
    if spec.block_bytes() != 0 && spec.tracks() > spec.reserved_tracks {
        let a = spec.tracks() - spec.reserved_tracks;
        let b = spec.sectors_per_track as int;
        let c = spec.sector_size as int;
        let d = spec.block_bytes();
        assert(a * b * c >= 0) by (nonlinear_arith)
            requires
                a >= 0,
                b >= 0,
                c >= 0,
        ;
        vstd::arithmetic::div_mod::lemma_div_pos_is_pos(a * b * c, d);
    }
}

/// The entries of a directory: one for each slot in use, in the order of the slots.
proof fn lemma_entries(dir: Seq<u8>, spec: DiskSpecification, deleted: bool, n: int)
    requires
        0 <= n <= dir.len() / 32,
    ensures
        ({
            let entries = cpm_model::entries_to(dir, spec, deleted, n);
            &&& forall|k: int|
                0 <= k < entries.len() ==> (#[trigger] entries[k]).index < n && from_slot(dir, entries[k]) && in_use(
                    dir,
                    spec,
                    deleted,
                    entries[k].index,
                )
            &&& forall|k: int, m: int|
                0 <= k < m < entries.len() ==> (#[trigger] entries[k]).index < (#[trigger] entries[m]).index
            &&& forall|i: int|
                0 <= i < n && #[trigger] in_use(dir, spec, deleted, i) ==> exists|k: int|
                    0 <= k < entries.len() && (#[trigger] entries[k]).index == i
        }),
    decreases n,
{
    if n > 0 {
        lemma_entries(dir, spec, deleted, n - 1);
        let rest = cpm_model::entries_to(dir, spec, deleted, n - 1);
        let entries = cpm_model::entries_to(dir, spec, deleted, n);
        assert(dir.subrange(32 * (n - 1), 32 * n) =~= cpm_edit::slot(dir, n - 1));
        lemma_from_slot(dir, n - 1, deleted);
        if let Some(e) = cpm_model::entry_of(cpm_edit::slot(dir, n - 1), n - 1, deleted) {
            lemma_valid(dir, spec, e);
        }
        assert forall|i: int| 0 <= i < n && #[trigger] in_use(dir, spec, deleted, i) implies exists|k: int|
            0 <= k < entries.len() && (#[trigger] entries[k]).index == i by {
            if i < n - 1 {
                let k = choose|k: int| 0 <= k < rest.len() && (#[trigger] rest[k]).index == i;
                assert(entries[k].index == i);
            } else {
                assert(entries[rest.len() as int].index == i);
            }
        }
    }
}

/// The entries of a file among the first `n`, in the order of the directory.
proof fn lemma_selected(entries: Seq<EntryView>, key: FileKey, n: int)
    requires
        0 <= n <= entries.len(),
        forall|k: int, m: int| 0 <= k < m < entries.len() ==> (#[trigger] entries[k]).index < (#[trigger] entries[m]).index,
    ensures
        ({
            let s = cpm_model::selected_to(entries, key, n);
            &&& forall|k: int|
                0 <= k < s.len() ==> (#[trigger] s[k]).key() == key && exists|j: int| 0 <= j < n && #[trigger] entries[j] == s[k]
            &&& forall|k: int, m: int| 0 <= k < m < s.len() ==> (#[trigger] s[k]).index < (#[trigger] s[m]).index
            &&& forall|j: int|
                0 <= j < n && (#[trigger] entries[j]).key() == key ==> s.contains(entries[j])
        }),
    decreases n,
{
    if n > 0 {
        lemma_selected(entries, key, n - 1);
        let r = cpm_model::selected_to(entries, key, n - 1);
        let s = cpm_model::selected_to(entries, key, n);
        assert forall|k: int| 0 <= k < s.len() implies (#[trigger] s[k]).key() == key && exists|j: int|
            0 <= j < n && #[trigger] entries[j] == s[k] by {
            if k < r.len() {
                assert(s[k] == r[k]);
                let j = choose|j: int| 0 <= j < n - 1 && #[trigger] entries[j] == r[k];
                assert(entries[j] == s[k]);
            } else {
                assert(entries[n - 1] == s[k]);
            }
        }
        assert forall|k: int, m: int| 0 <= k < m < s.len() implies (#[trigger] s[k]).index < (#[trigger] s[m]).index by {
            assert(s[k] == r[k]);
            let j = choose|j: int| 0 <= j < n - 1 && #[trigger] entries[j] == r[k];
            if m < r.len() {
                assert(s[m] == r[m]);
            } else {
                assert(entries[j].index < entries[n - 1].index);
            }
        }
        assert forall|j: int| 0 <= j < n && (#[trigger] entries[j]).key() == key implies s.contains(entries[j]) by {
            if j < n - 1 {
                let k = choose|k: int| 0 <= k < r.len() && r[k] == entries[j];
                assert(s[k] == entries[j]);
            } else {
                assert(s[r.len() as int] == entries[j]);
            }
        }
    }
}

/// The slots of a file are those of its extents.
pub proof fn lemma_slots(dir: Seq<u8>, spec: DiskSpecification, deleted: bool, key: FileKey) -> (slots: Seq<int>)
    ensures
        file_slots(dir, spec, deleted, key.user, key.name, slots),
        ({
            let ext = cpm_model::extents(cpm_model::entries_to(dir, spec, deleted, dir.len() as int / 32), key);
            &&& slots.len() == ext.len()
            &&& forall|k: int|
                0 <= k < ext.len() ==> (#[trigger] ext[k]).index == slots[k] && from_slot(dir, ext[k])
        }),
{
    let n = dir.len() as int / 32;
    let entries = cpm_model::entries_to(dir, spec, deleted, n);
    lemma_entries(dir, spec, deleted, n);
    lemma_selected(entries, key, entries.len() as int);
    let s = cpm_model::selected_to(entries, key, entries.len() as int);
    let numbers = cpm_model::extent_numbers(s);
    let o = order::key_order(numbers);
    let ext = cpm_model::extents(entries, key);
    order::lemma_order_permutes(order::by_key(numbers), s.len() as int);
    order::lemma_key_order_sorted(numbers);
    order::lemma_key_order_stable(numbers, s.len() as int);
    let slots = Seq::new(ext.len(), |k: int| ext[k].index);
    assert forall|k: int| 0 <= k < ext.len() implies slot_of(dir, spec, deleted, key.user, key.name, #[trigger] slots[k])
        && from_slot(dir, ext[k]) && extent_at(dir, slots[k]) == numbers[o[k]] by {
        assert(ext[k] == s[o[k]]);
        let j = choose|j: int| 0 <= j < entries.len() && #[trigger] entries[j] == s[o[k]];
        assert(in_use(dir, spec, deleted, entries[j].index));
    }
    assert forall|a: int, b: int| 0 <= a < b < slots.len() implies extent_at(dir, #[trigger] slots[a]) < extent_at(
        dir,
        #[trigger] slots[b],
    ) || extent_at(dir, slots[a]) == extent_at(dir, slots[b]) && slots[a] < slots[b] by {
        assert(numbers[o[a]] <= numbers[o[b]]);
        if numbers[o[a]] == numbers[o[b]] {
            assert(o[a] < o[b]);
            assert(s[o[a]].index < s[o[b]].index);
        }
    }
    assert forall|i: int| #[trigger] slot_of(dir, spec, deleted, key.user, key.name, i) implies slots.contains(i) by {
        assert(in_use(dir, spec, deleted, i));
        let k = choose|k: int| 0 <= k < entries.len() && (#[trigger] entries[k]).index == i;
        assert(entries[k].key() == key);
        let m = choose|m: int| 0 <= m < s.len() && s[m] == entries[k];
        assert(o.contains(m));
        let a = choose|a: int| 0 <= a < o.len() && o[a] == m;
        assert(slots[a] == i);
    }
    assert forall|k: int| 0 <= k < ext.len() implies (#[trigger] ext[k]).index == slots[k] && from_slot(dir, ext[k]) by {
        assert(slot_of(dir, spec, deleted, key.user, key.name, slots[k]));
    }
    slots
}

/// The size of a file, told by its slots.
pub proof fn lemma_size(dir: Seq<u8>, ext: Seq<EntryView>, slots: Seq<int>, n: int)
    requires
        0 <= n <= ext.len() == slots.len(),
        forall|k: int| 0 <= k < ext.len() ==> (#[trigger] ext[k]).index == slots[k] && from_slot(dir, ext[k]),
    ensures
        cpm_model::size_to(ext, n) == 128 * records_in(dir, slots, n) - (if n > 0 && n == ext.len() {
            missing_in_last(dir, slots[n - 1])
        } else {
            0
        }),
    decreases n,
{
    if n > 0 {
        lemma_size(dir, ext, slots, n - 1);
        assert(from_slot(dir, ext[n - 1]));
    }
}

/// The blocks of a file, told by its slots.
pub proof fn lemma_blocks(dir: Seq<u8>, spec: DiskSpecification, ext: Seq<EntryView>, slots: Seq<int>, n: int)
    requires
        spec.format != DiskSpecFormat::Unknown,
        0 <= n <= ext.len() == slots.len(),
        forall|k: int| 0 <= k < ext.len() ==> (#[trigger] ext[k]).index == slots[k] && from_slot(dir, ext[k]),
    ensures
        as_ints(cpm_model::blocks_to(ext, spec, n)) == blocks_of_slots(dir, wide(spec), slots, n),
    decreases n,
{
    if n > 0 {
        lemma_blocks(dir, spec, ext, slots, n - 1);
        lemma_valid(dir, spec, ext[n - 1]);
    }
    assert(as_ints(cpm_model::blocks_to(ext, spec, n)) =~= blocks_of_slots(dir, wide(spec), slots, n));
}

/// A line of a listing says what the slots of its file say: the user number and the extent byte
/// are those of the first extent, the file is read-only, system or archive exactly if byte 9, 10
/// or 11 of that slot is 0x80 or more, and the size counts the records of all extents, the last
/// of them as far as it is filled.
pub proof fn law_listing_tells_slots(image: ImageView, spec: DiskSpecification, i: int) -> (slots: Seq<int>)
    requires
        0 <= i < cpm_model::listing(cpm_model::directory(image, spec, false)).len(),
    ensures
        ({
            let dir = cpm_model::directory_bytes(image, spec);
            let line = cpm_model::listing(cpm_model::directory(image, spec, false))[i];
            let first = slots[0];
            &&& slots.len() > 0
            &&& file_slots(dir, spec, false, line.user, line.name, slots)
            &&& line.extent == dir[32 * first + 12]
            &&& line.attributes.read_only == (dir[32 * first + 9] >= 0x80)
            &&& line.attributes.system == (dir[32 * first + 10] >= 0x80)
            &&& line.attributes.archive == (dir[32 * first + 11] >= 0x80)
            &&& line.size == 128 * records_in(dir, slots, slots.len() as int) - missing_in_last(dir, slots.last())
        }),
{
    let dir = cpm_model::directory_bytes(image, spec);
    let entries = cpm_model::directory(image, spec, false);
    let key = cpm_model::sorted_keys(entries)[i];
    let ext = cpm_model::extents(entries, key);
    cpm_listing_laws::lemma_line(entries, i);
    let slots = lemma_slots(dir, spec, false, key);
    lemma_size(dir, ext, slots, ext.len() as int);
    assert(from_slot(dir, ext[0]));
    assert(ext[0].extension[0] == dir[32 * slots[0] + 9 + 0]);
    assert(ext[0].extension[1] == dir[32 * slots[0] + 9 + 1]);
    assert(ext[0].extension[2] == dir[32 * slots[0] + 9 + 2]);
    slots
}

/// A line of a detailed listing says what the slots of its file say: also which slot comes first,
/// and how many blocks all its slots name. What is allocated is that many whole blocks.
pub proof fn law_extended_listing_tells_slots(image: ImageView, spec: DiskSpecification, deleted: bool, i: int) -> (slots: Seq<int>)
    requires
        0 <= i < cpm_model::extended_listing(image, spec, cpm_model::directory(image, spec, deleted)).len(),
    ensures
        ({
            let dir = cpm_model::directory_bytes(image, spec);
            let line = cpm_model::extended_listing(image, spec, cpm_model::directory(image, spec, deleted))[i];
            let first = slots[0];
            &&& slots.len() > 0
            &&& file_slots(dir, spec, deleted, line.user, line.name, slots)
            &&& line.index == first
            &&& line.attributes.read_only == (dir[32 * first + 9] >= 0x80)
            &&& line.attributes.system == (dir[32 * first + 10] >= 0x80)
            &&& line.attributes.archive == (dir[32 * first + 11] >= 0x80)
            &&& line.size == 128 * records_in(dir, slots, slots.len() as int) - missing_in_last(dir, slots.last())
            &&& spec.format != DiskSpecFormat::Unknown ==> line.blocks == blocks_of_slots(
                dir,
                wide(spec),
                slots,
                slots.len() as int,
            ).len()
            &&& line.allocated == line.blocks * spec.block_bytes()
        }),
{
    let dir = cpm_model::directory_bytes(image, spec);
    let entries = cpm_model::directory(image, spec, deleted);
    let key = cpm_model::sorted_keys(entries)[i];
    let ext = cpm_model::extents(entries, key);
    cpm_listing_laws::lemma_line(entries, i);
    let slots = lemma_slots(dir, spec, deleted, key);
    lemma_size(dir, ext, slots, ext.len() as int);
    assert(from_slot(dir, ext[0]));
    assert(ext[0].extension[0] == dir[32 * slots[0] + 9 + 0]);
    assert(ext[0].extension[1] == dir[32 * slots[0] + 9 + 1]);
    assert(ext[0].extension[2] == dir[32 * slots[0] + 9 + 2]);
    if spec.format != DiskSpecFormat::Unknown {
        lemma_blocks(dir, spec, ext, slots, ext.len() as int);
        let blocks = cpm_model::blocks_to(ext, spec, ext.len() as int);
        assert(as_ints(blocks).len() == blocks.len());
    }
    slots
}

/// Every slot in use is told of: its file has a line in the listing.
pub proof fn law_slots_are_listed(image: ImageView, spec: DiskSpecification, i: int) -> (line: int)
    requires
        0 <= i < cpm_model::directory_bytes(image, spec).len() / 32,
        in_use(cpm_model::directory_bytes(image, spec), spec, false, i),
    ensures
        ({
            let dir = cpm_model::directory_bytes(image, spec);
            let list = cpm_model::listing(cpm_model::directory(image, spec, false));
            &&& 0 <= line < list.len()
            &&& list[line].user == dir[32 * i]
            &&& list[line].name == name_at(dir, i)
        }),
{
    let dir = cpm_model::directory_bytes(image, spec);
    let entries = cpm_model::directory(image, spec, false);
    lemma_entries(dir, spec, false, dir.len() as int / 32);
    let k = choose|k: int| 0 <= k < entries.len() && (#[trigger] entries[k]).index == i;
    let key = entries[k].key();
    cpm_listing_laws::lemma_sorted_keys(entries);
    let line = choose|x: int| 0 <= x < cpm_model::sorted_keys(entries).len() && cpm_model::sorted_keys(entries)[x] == key;
    cpm_listing_laws::lemma_line(entries, line);
    assert(from_slot(dir, entries[k]));
    line
}

/// Whether `a` stands before `b` in a dictionary, or is `b`: where they first differ, `a` has the
/// smaller character, or it ends there.
pub open spec fn before_or_same(a: Seq<char>, b: Seq<char>) -> bool {
    exists|n: int|
        0 <= n <= a.len() && n <= b.len() && #[trigger] a.take(n) == b.take(n) && (n == a.len() || n < b.len() && a[n] < b[n])
}

proof fn lemma_before(a: Seq<char>, b: Seq<char>)
    requires
        order::name_le(a, b),
    ensures
        before_or_same(a, b),
    decreases a.len(),
{
    if a.len() == 0 {
        assert(a.take(0) =~= b.take(0));
    } else if a[0] != b[0] {
        assert(a.take(0) =~= b.take(0));
    } else {
        let x = a.drop_first();
        let y = b.drop_first();
        lemma_before(x, y);
        let n = choose|n: int|
            0 <= n <= x.len() && n <= y.len() && #[trigger] x.take(n) == y.take(n) && (n == x.len() || n < y.len() && x[n] < y[n]);
        assert(a.take(n + 1) =~= seq![a[0]] + x.take(n));
        assert(b.take(n + 1) =~= seq![b[0]] + y.take(n));
        assert(a.take(n + 1) == b.take(n + 1));
    }
}

/// Files are listed in alphabetical order, by the codes of the characters in their names.
pub proof fn law_listing_is_alphabetical(image: ImageView, spec: DiskSpecification, entries: Seq<EntryView>, i: int, j: int)
    requires
        0 <= i <= j < cpm_model::listing(entries).len(),
    ensures
        before_or_same(cpm_model::listing(entries)[i].name, cpm_model::listing(entries)[j].name),
        before_or_same(
            cpm_model::extended_listing(image, spec, entries)[i].name,
            cpm_model::extended_listing(image, spec, entries)[j].name,
        ),
{
    cpm_listing_laws::lemma_sorted_keys(entries);
    let keys = cpm_model::sorted_keys(entries);
    assert(order::name_le(keys[i].name, keys[j].name));
    lemma_before(keys[i].name, keys[j].name);
}

}
