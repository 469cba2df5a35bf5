//! Directory entries of a CP/M disk: what is listed after the directory has been changed.

use crate::bytes;
use crate::filesystem::cpm_blocks;
use crate::filesystem::cpm_edit;
use crate::filesystem::cpm_model;
use crate::filesystem::cpm_model::{EntryView, FileKey};
use crate::filesystem::names;
use crate::order;
use crate::specification::{AllocationSize, DiskSpecFormat, DiskSpecification};
use crate::text;
use vstd::prelude::*;

verus! {

/// Below a slot with so many free slots before it, every smaller number is reached.
proof fn lemma_rank_reached(dir: Seq<u8>, p: int, r: int) -> (i: int)
    requires
        0 <= r < cpm_edit::free_slots(dir, p),
        0 <= p,
    ensures
        0 <= i < p,
        cpm_edit::mark(dir, i) == 0xE5,
        cpm_edit::free_slots(dir, i) == r,
    decreases p,
{
    if cpm_edit::mark(dir, p - 1) == 0xE5 && cpm_edit::free_slots(dir, p - 1) == r {
        p - 1
    } else {
        lemma_rank_reached(dir, p - 1, r)
    }
}

/// Free slots are never counted down.
proof fn lemma_rank_grows(dir: Seq<u8>, a: int, b: int)
    requires
        0 <= a <= b,
    ensures
        0 <= cpm_edit::free_slots(dir, a) <= cpm_edit::free_slots(dir, b),
    decreases b - a, b,
{
    if a < b {
        lemma_rank_grows(dir, a, b - 1);
    } else if a > 0 {
        lemma_rank_grows(dir, a - 1, a - 1);
    }
}

/// What a slot of a directory holds after the extents of a file have been entered: the free
/// slots take the extents in turn.
pub open spec fn slot_after(spec: DiskSpecification, dir: Seq<u8>, user: u8, name: Seq<u8>, len: int, free: Seq<u16>, n: int, i: int) -> Seq<u8> {
    if cpm_edit::mark(dir, i) == 0xE5 && cpm_edit::free_slots(dir, i) < n {
        cpm_edit::extent_bytes(spec, user, name, len, free, cpm_edit::free_slots(dir, i))
    } else {
        cpm_edit::slot(dir, i)
    }
}

/// The slots of a directory after the extents of a file have been entered.
pub proof fn lemma_filled(spec: DiskSpecification, dir: Seq<u8>, user: u8, name: Seq<u8>, len: int, free: Seq<u16>, n: int)
    requires
        user <= 31,
        0 <= n <= cpm_edit::free_slots(dir, dir.len() as int / 32),
    ensures
        cpm_edit::filled_to(spec, dir, user, name, len, free, n).len() == dir.len(),
        cpm_edit::free_slots(cpm_edit::filled_to(spec, dir, user, name, len, free, n), dir.len() as int / 32)
            == cpm_edit::free_slots(dir, dir.len() as int / 32) - n,
        forall|i: int| 0 <= i < dir.len() / 32 ==> #[trigger] cpm_edit::slot(
            cpm_edit::filled_to(spec, dir, user, name, len, free, n),
            i,
        ) == slot_after(spec, dir, user, name, len, free, n, i),
    decreases n,
{
    let slots = dir.len() as int / 32;
    if n <= 0 {
        assert forall|i: int| 0 <= i < slots implies #[trigger] cpm_edit::slot(dir, i) == slot_after(
            spec,
            dir,
            user,
            name,
            len,
            free,
            0,
            i,
        ) by {
            lemma_rank_grows(dir, 0, i);
        }
    } else {
        lemma_filled(spec, dir, user, name, len, free, n - 1);
        let d = cpm_edit::filled_to(spec, dir, user, name, len, free, n - 1);
        let after = cpm_edit::filled_to(spec, dir, user, name, len, free, n);
        cpm_edit::lemma_free_slot(d, 0);
        let p = cpm_edit::free_slot(d, 0);
        let entry = cpm_edit::extent_bytes(spec, user, name, len, free, n - 1);
        cpm_edit::lemma_fill_slot(d, p, entry, slots);
        let r = cpm_edit::free_slots(dir, p);
        assert(cpm_edit::slot(d, p) == slot_after(spec, dir, user, name, len, free, n - 1, p));
        assert(cpm_edit::slot(d, p)[0] == cpm_edit::mark(d, p));
        assert(cpm_edit::mark(dir, p) == 0xE5 && r >= n - 1) by {
            assert(cpm_edit::slot(dir, p)[0] == cpm_edit::mark(dir, p));
            if cpm_edit::mark(dir, p) == 0xE5 && r < n - 1 {
                assert(cpm_edit::slot(d, p)[0] == user);
            }
        }
        if r > n - 1 {
            let i = lemma_rank_reached(dir, p, n - 1);
            assert(cpm_edit::slot(d, i) == slot_after(spec, dir, user, name, len, free, n - 1, i));
            assert(cpm_edit::slot(dir, i)[0] == cpm_edit::mark(dir, i));
            assert(cpm_edit::slot(d, i)[0] == cpm_edit::mark(d, i));
            assert(cpm_edit::mark(d, i) != 0xE5);
        }
        assert forall|i: int| 0 <= i < slots implies #[trigger] cpm_edit::slot(after, i) == slot_after(
            spec,
            dir,
            user,
            name,
            len,
            free,
            n,
            i,
        ) by {
            if i == p {
                assert(cpm_edit::slot(after, i) =~= entry);
            } else {
                assert(cpm_edit::slot(after, i) =~= cpm_edit::slot(d, i));
                assert(cpm_edit::slot(d, i) == slot_after(spec, dir, user, name, len, free, n - 1, i));
                if cpm_edit::mark(dir, i) == 0xE5 && cpm_edit::free_slots(dir, i) == n - 1 {
                    if i < p {
                        assert(cpm_edit::free_slots(dir, i + 1) == n);
                        lemma_rank_grows(dir, i + 1, p);
                    } else {
                        assert(cpm_edit::free_slots(dir, p + 1) == n);
                        lemma_rank_grows(dir, p + 1, i);
                    }
                }
            }
        }
    }
}

/// The name under which a file is listed: in upper case, without a dot at its end.
pub open spec fn listed_name(name: Seq<char>) -> Seq<char> {
    let (base, ext) = names::dotted(name);
    if ext.len() == 0 {
        text::upper_all(base)
    } else {
        text::upper_all(base) + "."@ + text::upper_all(ext)
    }
}

/// The file that a new name stands for.
pub open spec fn new_key(name: Seq<char>) -> FileKey {
    let (user, rest) = names::user_and_name(name)->Ok_0;
    FileKey { user, name: listed_name(rest) }
}

/// The entry of extent `k` of a new file, in slot `index`.
pub open spec fn new_entry(spec: DiskSpecification, user: u8, name: Seq<u8>, len: int, free: Seq<u16>, k: int, index: int) -> EntryView {
    cpm_model::entry_of(cpm_edit::extent_bytes(spec, user, name, len, free, k), index, false).unwrap()
}

/// The text of a padded name as it is listed.
proof fn lemma_plain_text(name: Seq<char>, length: int)
    requires
        names::fits(name, length),
    ensures
        cpm_model::plain_text(names::padded_bytes(name, length)) == text::upper_all(name),
{
    let p = names::padded_bytes(name, length);
    let t = Seq::new(p.len(), |i: int| cpm_model::plain_char(p[i]));
    assert forall|i: int| 0 <= i < p.len() implies #[trigger] t[i] == text::latin(p)[i] by {
        if i < name.len() {
            assert(names::storable(name[i]));
        }
    }
    assert(t =~= text::latin(p));
    names::lemma_padded_text(name, length);
    assert(names::storable(name[0]));
    assert(text::upper_all(name)[0] == text::upper(name[0]));
    assert(!text::is_blank(text::upper_all(name)[0]));
}

/// The text of an empty extension.
proof fn lemma_plain_blank(p: Seq<u8>)
    requires
        p == Seq::new(3, |i: int| 0x20u8),
    ensures
        cpm_model::plain_text(p).len() == 0,
{
    let t = Seq::new(p.len(), |i: int| cpm_model::plain_char(p[i]));
    reveal_with_fuel(text::trim_end, 4);
    assert(t.last() == ' ');
    assert(t.drop_last().last() == ' ');
    assert(t.drop_last().drop_last().last() == ' ');
    assert(text::trim_end(t).len() == 0);
}

/// The parts of an entry of a new file.
pub proof fn lemma_new_entry(spec: DiskSpecification, name: Seq<char>, user: u8, raw: Seq<u8>, len: int, free: Seq<u16>, k: int, index: int)
    requires
        names::cpm_key(name) == Ok::<(u8, Seq<u8>), crate::error::ErrorView>((user, raw)),
        user <= 31,
        0 <= k < 2048,
        128 <= spec.block_bytes(),
        k < cpm_edit::extent_count(spec, len),
        len >= 0,
    ensures
        cpm_model::entry_of(cpm_edit::extent_bytes(spec, user, raw, len, free, k), index, false) is Some,
        ({
            let e = new_entry(spec, user, raw, len, free, k, index);
            let size = cpm_edit::chunk_len(spec, len, k);
            &&& e.index == index
            &&& e.key() == new_key(name)
            &&& e.extent_number() == k
            &&& e.record_count == bytes::div_up(size, 128)
            &&& e.bytes_in_last_record == size % 128
            &&& 0 <= size <= cpm_edit::bytes_per_extent(spec)
            &&& e.allocation.len() == 16
        }),
{
    let e = new_entry(spec, user, raw, len, free, k, index);
    let b = cpm_edit::extent_bytes(spec, user, raw, len, free, k);
    let (u, rest) = names::user_and_name(name)->Ok_0;
    let (base, ext) = names::dotted(rest);
    assert(raw.len() == 11);
    assert(b.subrange(1, 9) =~= names::padded_bytes(base, 8));
    assert(b.subrange(9, 12) =~= names::padded_extension(ext)->Ok_0);
    lemma_plain_text(base, 8);
    if ext.len() == 0 {
        lemma_plain_blank(b.subrange(9, 12));
    } else {
        lemma_plain_text(ext, 3);
        assert(names::fits(ext, 3));
    }
    assert(e.name() == listed_name(rest));
    cpm_edit::lemma_extent_sizes(spec);
    cpm_edit::lemma_extent_fits(spec, len, k);
    let size = cpm_edit::chunk_len(spec, len, k);
    bytes::lemma_div_up(size, 128);
}

/// The size of a new entry.
pub proof fn lemma_new_size(size: int, e: EntryView)
    requires
        0 <= size <= 16384,
        e.record_count == bytes::div_up(size, 128),
        e.bytes_in_last_record == size % 128,
    ensures
        e.size_with(e.bytes_in_last_record) == size,
        size % 128 == 0 ==> e.record_count * 128 == size,
{
    bytes::lemma_div_up(size, 128);
}

/// Whether block numbers are wide enough for the blocks of the disk.
pub open spec fn wide_enough(spec: DiskSpecification) -> bool {
    spec.allocation_size == AllocationSize::Byte ==> spec.blocks() <= 256
}

/// The number of blocks in extent `k` of a file.
pub open spec fn extent_blocks(spec: DiskSpecification, free: Seq<u16>, k: int) -> int {
    let rest = free.len() - k * cpm_edit::blocks_per_extent(spec);
    if rest < cpm_edit::blocks_per_extent(spec) { rest } else { cpm_edit::blocks_per_extent(spec) }
}

/// The numbers in the allocation list of a new entry.
proof fn lemma_new_numbers(spec: DiskSpecification, user: u8, raw: Seq<u8>, len: int, free: Seq<u16>, k: int, index: int)
    requires
        user <= 31,
        wide_enough(spec),
        cpm_blocks::usable(spec, free),
        k >= 0,
        128 <= spec.block_bytes(),
    ensures
        ({
            let numbers = new_entry(spec, user, raw, len, free, k, index).numbers(spec.allocation_size);
            &&& numbers.len() == (if spec.allocation_size == AllocationSize::Byte { 16int } else { 8 })
            &&& forall|j: int| 0 <= j < numbers.len() ==> #[trigger] numbers[j] == cpm_edit::extent_block(spec, free, k, j)
        }),
{
    let e = new_entry(spec, user, raw, len, free, k, index);
    let b = cpm_edit::extent_bytes(spec, user, raw, len, free, k);
    let numbers = e.numbers(spec.allocation_size);
    cpm_edit::lemma_extent_sizes(spec);
    assert(0 <= k * cpm_edit::blocks_per_extent(spec)) by (nonlinear_arith)
        requires
            k >= 0,
            cpm_edit::blocks_per_extent(spec) >= 1,
    ;
    assert(e.allocation == b.subrange(16, 32));
    assert forall|j: int| 0 <= j < numbers.len() implies #[trigger] numbers[j] == cpm_edit::extent_block(spec, free, k, j) by {
        let x = cpm_edit::extent_block(spec, free, k, j);
        let n = k * cpm_edit::blocks_per_extent(spec) + j;
        if j < cpm_edit::blocks_per_extent(spec) && n < free.len() {
            assert(free[n] < spec.blocks());
        }
        match spec.allocation_size {
            AllocationSize::Byte => {
                assert(e.allocation[j] == b[16 + j]);
                assert(x < 256);
            },
            AllocationSize::Word => {
                assert(e.allocation[2 * j] == b[16 + 2 * j]);
                assert(e.allocation[2 * j + 1] == b[17 + 2 * j]);
                assert((16 + 2 * j) % 2 == 0 && (17 + 2 * j) % 2 == 1);
                assert((17 + 2 * j - 16) / 2 == j && (16 + 2 * j - 16) / 2 == j);
                assert(b[16 + 2 * j] == (x % 256) as u8);
                assert(b[17 + 2 * j] == (x / 256) as u8);
            },
        }
    }
}

/// Ascending block numbers are fewer than the blocks of the disk.
pub proof fn lemma_usable_count(spec: DiskSpecification, free: Seq<u16>, i: int)
    requires
        cpm_blocks::usable(spec, free),
        0 <= i < free.len(),
    ensures
        free[i] >= i + 1,
        i + 1 < spec.blocks(),
    decreases i,
{
    if i > 0 {
        lemma_usable_count(spec, free, i - 1);
        assert(free[i - 1] < free[i]);
    }
    assert(free[i] < spec.blocks());
}

/// The blocks of a new entry.
pub proof fn lemma_new_blocks(spec: DiskSpecification, user: u8, raw: Seq<u8>, len: int, free: Seq<u16>, k: int, index: int)
    requires
        user <= 31,
        wide_enough(spec),
        cpm_blocks::usable(spec, free),
        0 <= k,
        128 <= spec.block_bytes(),
        k * cpm_edit::blocks_per_extent(spec) <= free.len(),
    ensures
        ({
            let e = new_entry(spec, user, raw, len, free, k, index);
            let from = k * cpm_edit::blocks_per_extent(spec);
            &&& 0 <= from <= from + extent_blocks(spec, free, k) <= free.len()
            &&& e.file_blocks(spec) == free.subrange(from, from + extent_blocks(spec, free, k))
            &&& e.blocks(spec.allocation_size) == free.subrange(from, from + extent_blocks(spec, free, k))
            &&& e.valid(spec)
        }),
{
    let e = new_entry(spec, user, raw, len, free, k, index);
    let from = k * cpm_edit::blocks_per_extent(spec);
    let c = extent_blocks(spec, free, k);
    cpm_edit::lemma_extent_sizes(spec);
    assert(0 <= from) by (nonlinear_arith)
        requires
            from == k * cpm_edit::blocks_per_extent(spec),
            k >= 0,
            cpm_edit::blocks_per_extent(spec) >= 1,
    ;
    lemma_new_numbers(spec, user, raw, len, free, k, index);
    let numbers = e.numbers(spec.allocation_size);
    let part = free.subrange(from, from + c);
    assert forall|j: int| 0 <= j < part.len() implies #[trigger] numbers[j] == part[j] && part[j] != 0 && part[j] <= spec.blocks() by {
        assert(part[j] == free[from + j]);
    }
    lemma_kept_all(numbers, part, numbers.len() as int);
    if free.len() > 0 {
        lemma_usable_count(spec, free, free.len() - 1);
    }
    assert(e.blocks(spec.allocation_size) == part);
    if spec.format != DiskSpecFormat::Unknown {
        assert forall|j: int| 0 <= j < part.len() implies #[trigger] part[j] <= spec.blocks() by {
            assert(part[j] == free[from + j]);
        }
    } else if free.len() > 0 {
        assert(free[0] < spec.blocks());
    } else {
        lemma_kept_none(numbers, e.blocks_reached(spec), spec.room(), numbers.len() as int);
    }
}

/// A list of zeros names no blocks.
proof fn lemma_kept_none(numbers: Seq<u16>, needed: int, limit: int, n: int)
    requires
        0 <= n <= numbers.len(),
        forall|j: int| 0 <= j < numbers.len() ==> #[trigger] numbers[j] == 0,
    ensures
        cpm_model::kept_to(numbers, needed, limit, n) == Seq::<u16>::empty(),
    decreases n,
{
    if n > 0 {
        lemma_kept_none(numbers, needed, limit, n - 1);
    }
}

/// Block numbers with zeros behind them, all counted.
proof fn lemma_kept_all(numbers: Seq<u16>, part: Seq<u16>, n: int)
    requires
        0 <= n <= numbers.len(),
        part.len() <= numbers.len(),
        forall|j: int| 0 <= j < part.len() ==> #[trigger] numbers[j] == part[j] && part[j] != 0,
        forall|j: int| part.len() <= j < numbers.len() ==> #[trigger] numbers[j] == 0,
    ensures
        cpm_model::kept_to(numbers, 0, 0, n) == (if n <= part.len() { part.take(n) } else { part }),
        n == numbers.len() ==> cpm_model::kept_to(numbers, 0, 0, n) == part,
    decreases n,
{
    if n <= 0 {
        assert(part.take(0) =~= Seq::<u16>::empty());
        assert(part.len() == 0 ==> part =~= Seq::<u16>::empty());
    } else {
        lemma_kept_all(numbers, part, n - 1);
        if n <= part.len() {
            assert(part.take(n - 1).push(part[n - 1]) =~= part.take(n));
        } else if n - 1 == part.len() {
            assert(part.take(n - 1) =~= part);
        }
        if n == part.len() {
            assert(part.take(n) =~= part);
        }
    }
}

/// One more entry at the end changes nothing among the first.
proof fn lemma_selected_prefix(entries: Seq<EntryView>, e: EntryView, key: FileKey, n: int)
    requires
        0 <= n <= entries.len(),
    ensures
        cpm_model::selected_to(entries.push(e), key, n) == cpm_model::selected_to(entries, key, n),
    decreases n,
{
    if n > 0 {
        lemma_selected_prefix(entries, e, key, n - 1);
    }
}

/// The entries of a file in a list.
pub open spec fn selected(entries: Seq<EntryView>, key: FileKey) -> Seq<EntryView> {
    cpm_model::selected_to(entries, key, entries.len() as int)
}

/// One more entry belongs to its own file.
pub proof fn lemma_selected_push(entries: Seq<EntryView>, e: EntryView, key: FileKey)
    ensures
        selected(entries.push(e), key) == (if e.key() == key { selected(entries, key).push(e) } else { selected(entries, key) }),
{
    lemma_selected_prefix(entries, e, key, entries.len() as int);
}

/// What is listed of the new file, and of the others, in the first `n` slots.
pub proof fn lemma_entries_filled(
    spec: DiskSpecification,
    dir: Seq<u8>,
    after: Seq<u8>,
    name: Seq<char>,
    user: u8,
    raw: Seq<u8>,
    len: int,
    free: Seq<u16>,
    extents: int,
    n: int,
)
    requires
        names::cpm_key(name) == Ok::<(u8, Seq<u8>), crate::error::ErrorView>((user, raw)),
        user <= 31,
        wide_enough(spec),
        cpm_blocks::usable(spec, free),
        128 <= spec.block_bytes(),
        len >= 0,
        extents == cpm_edit::extent_count(spec, len),
        extents <= 2048,
        free.len() == cpm_edit::blocks_needed(spec, len),
        after.len() == dir.len(),
        forall|i: int| 0 <= i < dir.len() / 32 ==> #[trigger] cpm_edit::slot(after, i) == slot_after(spec, dir, user, raw, len, free, extents, i),
        0 <= n <= dir.len() / 32,
        selected(cpm_model::entries_to(dir, spec, false, n), new_key(name)).len() == 0,
    ensures
        ({
            let s = selected(cpm_model::entries_to(after, spec, false, n), new_key(name));
            let count = cpm_edit::free_slots(dir, n);
            &&& s.len() == (if count < extents { count } else { extents })
            &&& forall|k: int| 0 <= k < s.len() ==> #[trigger] s[k] == new_entry(spec, user, raw, len, free, k, s[k].index)
        }),
    decreases n,
{
    let es1 = cpm_model::entries_to(after, spec, false, n);
    if n > 0 {
        let old = cpm_model::entries_to(dir, spec, false, n - 1);
        let new = cpm_model::entries_to(after, spec, false, n - 1);
        let i = n - 1;
        assert(dir.subrange(32 * (n - 1), 32 * n) =~= cpm_edit::slot(dir, i));
        assert(after.subrange(32 * (n - 1), 32 * n) =~= cpm_edit::slot(after, i));
        assert(cpm_edit::slot(after, i) == slot_after(spec, dir, user, raw, len, free, extents, i));
        assert(cpm_edit::slot(dir, i)[0] == cpm_edit::mark(dir, i));
        lemma_rank_grows(dir, 0, i);
        if let Some(e) = cpm_model::entry_of(cpm_edit::slot(dir, i), i, false) {
            lemma_selected_push(old, e, new_key(name));
        }
        lemma_entries_filled(spec, dir, after, name, user, raw, len, free, extents, n - 1);
        let k = cpm_edit::free_slots(dir, i);
        if cpm_edit::mark(dir, i) == 0xE5 && k < extents {
            lemma_new_entry(spec, name, user, raw, len, free, k, i);
            lemma_blocks_start(spec, len, free, k);
            lemma_new_blocks(spec, user, raw, len, free, k, i);
            let e = new_entry(spec, user, raw, len, free, k, i);
            assert(es1 == new.push(e));
            lemma_selected_push(new, e, new_key(name));
        } else {
            assert(cpm_edit::slot(after, i) == cpm_edit::slot(dir, i));
            if let Some(e) = cpm_model::entry_of(cpm_edit::slot(dir, i), i, false) {
                if e.valid(spec) {
                    assert(es1 == new.push(e));
                    lemma_selected_push(new, e, new_key(name));
                }
            }
        }
    }
}

/// The other files in the first `n` slots are listed as before.
pub proof fn lemma_others_filled(
    spec: DiskSpecification,
    dir: Seq<u8>,
    after: Seq<u8>,
    name: Seq<char>,
    user: u8,
    raw: Seq<u8>,
    len: int,
    free: Seq<u16>,
    extents: int,
    key: FileKey,
    n: int,
)
    requires
        names::cpm_key(name) == Ok::<(u8, Seq<u8>), crate::error::ErrorView>((user, raw)),
        user <= 31,
        128 <= spec.block_bytes(),
        len >= 0,
        extents == cpm_edit::extent_count(spec, len),
        extents <= 2048,
        after.len() == dir.len(),
        forall|i: int| 0 <= i < dir.len() / 32 ==> #[trigger] cpm_edit::slot(after, i) == slot_after(spec, dir, user, raw, len, free, extents, i),
        0 <= n <= dir.len() / 32,
        key != new_key(name),
    ensures
        selected(cpm_model::entries_to(after, spec, false, n), key) == selected(cpm_model::entries_to(dir, spec, false, n), key),
    decreases n,
{
    if n > 0 {
        let old = cpm_model::entries_to(dir, spec, false, n - 1);
        let new = cpm_model::entries_to(after, spec, false, n - 1);
        let i = n - 1;
        assert(dir.subrange(32 * (n - 1), 32 * n) =~= cpm_edit::slot(dir, i));
        assert(after.subrange(32 * (n - 1), 32 * n) =~= cpm_edit::slot(after, i));
        assert(cpm_edit::slot(after, i) == slot_after(spec, dir, user, raw, len, free, extents, i));
        assert(cpm_edit::slot(dir, i)[0] == cpm_edit::mark(dir, i));
        lemma_rank_grows(dir, 0, i);
        lemma_others_filled(spec, dir, after, name, user, raw, len, free, extents, key, n - 1);
        let k = cpm_edit::free_slots(dir, i);
        if cpm_edit::mark(dir, i) == 0xE5 && k < extents {
            lemma_new_entry(spec, name, user, raw, len, free, k, i);
            lemma_selected_push(new, new_entry(spec, user, raw, len, free, k, i), key);
        } else {
            assert(cpm_edit::slot(after, i) == cpm_edit::slot(dir, i));
            if let Some(e) = cpm_model::entry_of(cpm_edit::slot(dir, i), i, false) {
                lemma_selected_push(old, e, key);
                lemma_selected_push(new, e, key);
            }
        }
    }
}

/// Every extent of a file has its blocks.
pub proof fn lemma_blocks_start(spec: DiskSpecification, len: int, free: Seq<u16>, k: int)
    requires
        128 <= spec.block_bytes(),
        len >= 0,
        0 <= k < cpm_edit::extent_count(spec, len),
        free.len() == cpm_edit::blocks_needed(spec, len),
    ensures
        0 <= k * cpm_edit::blocks_per_extent(spec) <= free.len(),
{
    cpm_edit::lemma_extent_sizes(spec);
    cpm_edit::lemma_extent_fits(spec, len, k);
    let bb = spec.block_bytes();
    let m = cpm_edit::blocks_per_extent(spec);
    bytes::lemma_div_up(len, bb);
    let needed = cpm_edit::blocks_needed(spec, len);
    assert(0 <= k * m && k * m <= needed) by (nonlinear_arith)
        requires
            k * (m * bb) <= len,
            needed * bb >= len,
            bb > 0,
            k >= 0,
            m >= 1,
    ;
}

/// The extents of a new file, in their order.
pub proof fn lemma_new_extents(spec: DiskSpecification, user: u8, raw: Seq<u8>, len: int, free: Seq<u16>, name: Seq<char>, entries: Seq<EntryView>)
    requires
        names::cpm_key(name) == Ok::<(u8, Seq<u8>), crate::error::ErrorView>((user, raw)),
        user <= 31,
        128 <= spec.block_bytes(),
        len >= 0,
        cpm_edit::extent_count(spec, len) <= 2048,
        selected(entries, new_key(name)).len() == cpm_edit::extent_count(spec, len),
        forall|k: int| 0 <= k < selected(entries, new_key(name)).len() ==> #[trigger] selected(entries, new_key(name))[k] == new_entry(
            spec,
            user,
            raw,
            len,
            free,
            k,
            selected(entries, new_key(name))[k].index,
        ),
    ensures
        cpm_model::extents(entries, new_key(name)) == selected(entries, new_key(name)),
{
    let s = selected(entries, new_key(name));
    let numbers = cpm_model::extent_numbers(s);
    assert forall|k: int| 0 <= k < s.len() implies #[trigger] numbers[k] == k by {
        assert(s[k] == new_entry(spec, user, raw, len, free, k, s[k].index));
        lemma_new_entry(spec, name, user, raw, len, free, k, s[k].index);
    }
    order::lemma_ascending_keys(numbers);
    assert(cpm_model::extents(entries, new_key(name)) =~= s);
}

/// Every entry of a directory is that of its slot.
pub proof fn lemma_entry_slot(dir: Seq<u8>, spec: DiskSpecification, n: int, k: int)
    requires
        0 <= n <= dir.len() / 32,
        0 <= k < cpm_model::entries_to(dir, spec, false, n).len(),
    ensures
        ({
            let e = cpm_model::entries_to(dir, spec, false, n)[k];
            &&& 0 <= e.index < n
            &&& cpm_model::entry_of(cpm_edit::slot(dir, e.index), e.index, false) == Some(e)
            &&& e.valid(spec)
        }),
    decreases n,
{
    if n > 0 {
        let rest = cpm_model::entries_to(dir, spec, false, n - 1);
        assert(dir.subrange(32 * (n - 1), 32 * n) =~= cpm_edit::slot(dir, n - 1));
        if k < rest.len() {
            lemma_entry_slot(dir, spec, n - 1, k);
            assert(cpm_model::entries_to(dir, spec, false, n)[k] == rest[k]);
        }
    }
}

/// The entries of a file are entries of the directory.
pub proof fn lemma_selected_listed(entries: Seq<EntryView>, key: FileKey, n: int, k: int)
    requires
        0 <= n <= entries.len(),
        0 <= k < cpm_model::selected_to(entries, key, n).len(),
    ensures
        cpm_model::selected_to(entries, key, n)[k].key() == key,
        exists|i: int| 0 <= i < n && #[trigger] entries[i] == cpm_model::selected_to(entries, key, n)[k],
    decreases n,
{
    if n > 0 {
        let s = cpm_model::selected_to(entries, key, n);
        let r = cpm_model::selected_to(entries, key, n - 1);
        if k < r.len() {
            lemma_selected_listed(entries, key, n - 1, k);
            assert(s[k] == r[k]);
        } else {
            assert(entries[n - 1] == s[k]);
        }
    }
}

/// The extents of a file are entries of the directory.
pub proof fn lemma_extents_listed(entries: Seq<EntryView>, key: FileKey, k: int)
    requires
        0 <= k < cpm_model::extents(entries, key).len(),
    ensures
        cpm_model::extents(entries, key)[k].key() == key,
        exists|i: int| 0 <= i < entries.len() && #[trigger] entries[i] == cpm_model::extents(entries, key)[k],
{
    let s = selected(entries, key);
    let o = order::key_order(cpm_model::extent_numbers(s));
    order::lemma_order_permutes(order::by_key(cpm_model::extent_numbers(s)), s.len() as int);
    lemma_selected_listed(entries, key, entries.len() as int, o[k]);
}

/// The blocks that count are blocks that the allocation list names.
pub proof fn lemma_kept_named(numbers: Seq<u16>, needed: int, limit: int, n: int, j: int)
    requires
        0 <= n <= numbers.len(),
        0 <= j < cpm_model::kept_to(numbers, needed, limit, n).len(),
    ensures
        cpm_model::kept_to(numbers, 0, 0, n).contains(cpm_model::kept_to(numbers, needed, limit, n)[j]),
    decreases n,
{
    let kept = cpm_model::kept_to(numbers, needed, limit, n);
    let all = cpm_model::kept_to(numbers, 0, 0, n);
    if n > 0 {
        let rest = cpm_model::kept_to(numbers, needed, limit, n - 1);
        let named = cpm_model::kept_to(numbers, 0, 0, n - 1);
        if j < rest.len() {
            lemma_kept_named(numbers, needed, limit, n - 1, j);
            let m = choose|m: int| 0 <= m < named.len() && named[m] == rest[j];
            assert(all[m] == kept[j]);
        } else {
            assert(all[named.len() as int] == kept[j]);
        }
    }
}

/// Slots of the same file stand for the same file, whatever their attributes.
pub proof fn lemma_matching_key(slot: Seq<u8>, index: int, name: Seq<char>, user: u8, raw: Seq<u8>)
    requires
        names::cpm_key(name) == Ok::<(u8, Seq<u8>), crate::error::ErrorView>((user, raw)),
        user <= 31,
        slot.len() == 32,
        cpm_edit::matches(slot, user, raw),
    ensures
        cpm_model::entry_of(slot, index, false) matches Some(e) && e.key() == new_key(name),
{
    let e = cpm_model::entry_of(slot, index, false).unwrap();
    let (u, rest) = names::user_and_name(name)->Ok_0;
    let (base, ext) = names::dotted(rest);
    let b = names::padded_bytes(base, 8);
    let x = names::padded_extension(ext)->Ok_0;
    assert(raw == b + x);
    assert forall|i: int| 0 <= i < 11 implies #[trigger] raw[i] < 128 by {
        if i < base.len() {
            assert(names::storable(base[i]));
        } else if 8 <= i < 8 + ext.len() {
            assert(names::storable(ext[i - 8]));
        }
    }
    assert forall|i: int| 0 <= i < 8 implies cpm_model::plain_char(#[trigger] e.filename[i]) == cpm_model::plain_char(b[i]) by {
        assert(slot[i + 1] % 128 == raw[i]);
        assert(raw[i] == b[i]);
    }
    assert forall|i: int| 0 <= i < 3 implies cpm_model::plain_char(#[trigger] e.extension[i]) == cpm_model::plain_char(x[i]) by {
        assert(slot[(i + 8) + 1] % 128 == raw[i + 8]);
        assert(raw[i + 8] == x[i]);
    }
    assert(Seq::new(8, |i: int| cpm_model::plain_char(e.filename[i])) =~= Seq::new(8, |i: int| cpm_model::plain_char(b[i])));
    assert(Seq::new(3, |i: int| cpm_model::plain_char(e.extension[i])) =~= Seq::new(3, |i: int| cpm_model::plain_char(x[i])));
    assert(cpm_model::plain_text(e.filename) == cpm_model::plain_text(b));
    assert(cpm_model::plain_text(e.extension) == cpm_model::plain_text(x));
    lemma_plain_text(base, 8);
    if ext.len() == 0 {
        lemma_plain_blank(x);
    } else {
        assert(names::fits(ext, 3));
        lemma_plain_text(ext, 3);
    }
}

/// What is listed of other files after a file has been removed.
pub proof fn lemma_others_removed(spec: DiskSpecification, dir: Seq<u8>, name: Seq<char>, user: u8, raw: Seq<u8>, key: FileKey, n: int)
    requires
        names::cpm_key(name) == Ok::<(u8, Seq<u8>), crate::error::ErrorView>((user, raw)),
        user <= 31,
        0 <= n <= dir.len() / 32,
        key != new_key(name),
    ensures
        selected(cpm_model::entries_to(cpm_edit::without(dir, user, raw), spec, false, n), key) == selected(
            cpm_model::entries_to(dir, spec, false, n),
            key,
        ),
    decreases n,
{
    let after = cpm_edit::without(dir, user, raw);
    if n > 0 {
        let i = n - 1;
        let old = cpm_model::entries_to(dir, spec, false, n - 1);
        let new = cpm_model::entries_to(after, spec, false, n - 1);
        assert(dir.subrange(32 * (n - 1), 32 * n) =~= cpm_edit::slot(dir, i));
        assert(after.subrange(32 * (n - 1), 32 * n) =~= cpm_edit::slot(after, i));
        lemma_others_removed(spec, dir, name, user, raw, key, n - 1);
        lemma_slot_without(dir, user, raw, i);
        if cpm_edit::matches(cpm_edit::slot(dir, i), user, raw) {
            lemma_matching_key(cpm_edit::slot(dir, i), i, name, user, raw);
            let e = cpm_model::entry_of(cpm_edit::slot(dir, i), i, false).unwrap();
            lemma_selected_push(old, e, key);
        } else {
            if let Some(e) = cpm_model::entry_of(cpm_edit::slot(dir, i), i, false) {
                lemma_selected_push(old, e, key);
                lemma_selected_push(new, e, key);
            }
        }
    }
}

/// A slot after a file has been removed.
pub proof fn lemma_slot_without(dir: Seq<u8>, user: u8, raw: Seq<u8>, i: int)
    requires
        0 <= i < dir.len() / 32,
    ensures
        cpm_edit::matches(cpm_edit::slot(dir, i), user, raw) ==> cpm_edit::slot(cpm_edit::without(dir, user, raw), i)[0] == 0xE5,
        !cpm_edit::matches(cpm_edit::slot(dir, i), user, raw) ==> cpm_edit::slot(cpm_edit::without(dir, user, raw), i)
            == cpm_edit::slot(dir, i),
{
    let after = cpm_edit::without(dir, user, raw);
    assert((32 * i) % 32 == 0 && (32 * i) / 32 == i);
    if !cpm_edit::matches(cpm_edit::slot(dir, i), user, raw) {
        assert forall|m: int| 32 * i <= m < 32 * i + 32 implies #[trigger] after[m] == dir[m] by {
            assert(m / 32 == i);
        }
        assert(cpm_edit::slot(after, i) =~= cpm_edit::slot(dir, i));
    }
}

/// Nothing is listed of a file that has been removed, if all its slots were found.
pub proof fn lemma_removed(spec: DiskSpecification, dir: Seq<u8>, name: Seq<char>, user: u8, raw: Seq<u8>, n: int)
    requires
        0 <= n <= dir.len() / 32,
        forall|i: int|
            0 <= i < n && (cpm_model::entry_of(#[trigger] cpm_edit::slot(dir, i), i, false) matches Some(e) && e.valid(spec)
                && e.key() == new_key(name)) ==> cpm_edit::matches(cpm_edit::slot(dir, i), user, raw),
    ensures
        selected(cpm_model::entries_to(cpm_edit::without(dir, user, raw), spec, false, n), new_key(name)).len() == 0,
    decreases n,
{
    let after = cpm_edit::without(dir, user, raw);
    if n > 0 {
        let i = n - 1;
        let new = cpm_model::entries_to(after, spec, false, n - 1);
        assert(after.subrange(32 * (n - 1), 32 * n) =~= cpm_edit::slot(after, i));
        lemma_removed(spec, dir, name, user, raw, n - 1);
        lemma_slot_without(dir, user, raw, i);
        if let Some(e) = cpm_model::entry_of(cpm_edit::slot(after, i), i, false) {
            lemma_selected_push(new, e, new_key(name));
        }
    }
}

/// Stored names consist of printable characters and blanks.
pub proof fn lemma_raw_plain(name: Seq<char>)
    requires
        names::cpm_key(name) is Ok,
    ensures
        ({
            let raw = names::cpm_key(name)->Ok_0.1;
            raw.len() == 11 && forall|i: int| 0 <= i < 11 ==> 0x20 <= #[trigger] raw[i] < 128
        }),
{
    let raw = names::cpm_key(name)->Ok_0.1;
    let (u, rest) = names::user_and_name(name)->Ok_0;
    let (base, ext) = names::dotted(rest);
    assert forall|i: int| 0 <= i < 11 implies 0x20 <= #[trigger] raw[i] < 128 by {
        if i < base.len() {
            assert(names::storable(base[i]));
        } else if 8 <= i < 8 + ext.len() {
            assert(names::storable(ext[i - 8]));
        }
    }
}

/// No free slot stands before the first.
pub proof fn lemma_first_rank(dir: Seq<u8>, p: int)
    requires
        0 <= p,
        forall|i: int| 0 <= i < p ==> #[trigger] cpm_edit::mark(dir, i) != 0xE5,
    ensures
        cpm_edit::free_slots(dir, p) == 0,
    decreases p,
{
    if p > 0 {
        lemma_first_rank(dir, p - 1);
    }
}

/// A directory holds the file that has been entered.
pub proof fn lemma_filled_holds(spec: DiskSpecification, dir: Seq<u8>, name: Seq<char>, user: u8, raw: Seq<u8>, len: int, free: Seq<u16>, n: int)
    requires
        names::cpm_key(name) == Ok::<(u8, Seq<u8>), crate::error::ErrorView>((user, raw)),
        user <= 31,
        1 <= n <= cpm_edit::free_slots(dir, dir.len() as int / 32),
    ensures
        cpm_edit::holds(cpm_edit::filled_to(spec, dir, user, raw, len, free, n), user, raw),
{
    lemma_filled(spec, dir, user, raw, len, free, n);
    let dir1 = cpm_edit::filled_to(spec, dir, user, raw, len, free, n);
    cpm_edit::lemma_free_slot(dir, 0);
    let p = cpm_edit::free_slot(dir, 0);
    lemma_first_rank(dir, p);
    let entry = cpm_edit::extent_bytes(spec, user, raw, len, free, 0);
    assert(cpm_edit::slot(dir1, p) == slot_after(spec, dir, user, raw, len, free, n, p));
    lemma_raw_plain(name);
    assert forall|i: int| 0 <= i < 11 implies #[trigger] entry[i + 1] % 128 == raw[i] by {
        assert(raw[i] < 128);
    }
    assert(cpm_edit::matches(cpm_edit::slot(dir1, p), user, raw));
}

}
