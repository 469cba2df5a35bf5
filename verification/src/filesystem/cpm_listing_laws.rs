//! Laws of CP/M listings: what is listed can be read, and what can be read is listed.

use crate::error::ErrorView;
use crate::filesystem::cpm_edit;
use crate::filesystem::cpm_entries;
use crate::filesystem::cpm_laws;
use crate::filesystem::cpm_model;
use crate::filesystem::cpm_model::{EntryView, FileKey};
use crate::filesystem::header;
use crate::image::ImageView;
use crate::order;
use crate::specification;
use crate::specification::DiskSpecification;
use crate::text;
use vstd::prelude::*;

verus! {

/// The files of a list of entries occur once each, and each has an entry.
proof fn lemma_keys(entries: Seq<EntryView>, n: int)
    requires
        0 <= n <= entries.len(),
    ensures
        cpm_model::keys_to(entries, n).no_duplicates(),
        forall|i: int| 0 <= i < cpm_model::keys_to(entries, n).len() ==> {
            let k = #[trigger] cpm_model::keys_to(entries, n)[i];
            exists|j: int| 0 <= j < n && (#[trigger] entries[j]).key() == k
        },
        forall|j: int| 0 <= j < n ==> cpm_model::keys_to(entries, n).contains((#[trigger] entries[j]).key()),
    decreases n,
{
    if n > 0 {
        lemma_keys(entries, n - 1);
        let rest = cpm_model::keys_to(entries, n - 1);
        let all = cpm_model::keys_to(entries, n);
        let k = entries[n - 1].key();
        assert forall|i: int| 0 <= i < all.len() implies exists|j: int|
            0 <= j < n && (#[trigger] entries[j]).key() == #[trigger] all[i] by {
            if i < rest.len() {
                let j = choose|j: int| 0 <= j < n - 1 && (#[trigger] entries[j]).key() == rest[i];
                assert(entries[j].key() == all[i]);
            } else {
                assert(entries[n - 1].key() == all[i]);
            }
        }
        assert forall|j: int| 0 <= j < n implies all.contains((#[trigger] entries[j]).key()) by {
            if j < n - 1 {
                let i = choose|i: int| 0 <= i < rest.len() && rest[i] == entries[j].key();
                assert(all[i] == entries[j].key());
            } else if rest.contains(k) {
                let i = choose|i: int| 0 <= i < rest.len() && rest[i] == k;
                assert(all[i] == k);
            } else {
                assert(all[rest.len() as int] == k);
            }
        }
    }
}

/// The files of a directory in the order of their names.
pub proof fn lemma_sorted_keys(entries: Seq<EntryView>)
    ensures
        cpm_model::sorted_keys(entries).no_duplicates(),
        forall|i: int| 0 <= i < cpm_model::sorted_keys(entries).len() ==> {
            let k = #[trigger] cpm_model::sorted_keys(entries)[i];
            exists|j: int| 0 <= j < entries.len() && (#[trigger] entries[j]).key() == k
        },
        forall|j: int| 0 <= j < entries.len() ==> cpm_model::sorted_keys(entries).contains((#[trigger] entries[j]).key()),
        forall|i: int, j: int|
            0 <= i <= j < cpm_model::sorted_keys(entries).len() ==> order::name_le(
                (#[trigger] cpm_model::sorted_keys(entries)[i]).name,
                (#[trigger] cpm_model::sorted_keys(entries)[j]).name,
            ),
{
    let keys = cpm_model::keys_to(entries, entries.len() as int);
    let names = cpm_model::key_names(keys);
    let o = order::name_order(names);
    let sorted = cpm_model::sorted_keys(entries);
    lemma_keys(entries, entries.len() as int);
    order::lemma_order_permutes(order::by_name(names), keys.len() as int);
    order::lemma_name_order_sorted(names);
    assert forall|i: int| 0 <= i < sorted.len() implies exists|j: int|
        0 <= j < entries.len() && (#[trigger] entries[j]).key() == #[trigger] sorted[i] by {
        assert(sorted[i] == keys[o[i]]);
    }
    assert forall|j: int| 0 <= j < entries.len() implies sorted.contains((#[trigger] entries[j]).key()) by {
        assert(keys.contains(entries[j].key()));
        let x = choose|x: int| 0 <= x < keys.len() && keys[x] == entries[j].key();
        assert(o.contains(x));
        let i = choose|i: int| 0 <= i < o.len() && o[i] == x;
        assert(sorted[i] == entries[j].key());
    }
    assert forall|i: int, j: int| 0 <= i <= j < sorted.len() implies order::name_le(
        (#[trigger] sorted[i]).name,
        (#[trigger] sorted[j]).name,
    ) by {
        assert(order::name_le(names[o[i]], names[o[j]]));
    }
}

/// A listing names its files in ascending order.
pub proof fn law_listing_ascends(entries: Seq<EntryView>)
    ensures
        forall|i: int, j: int|
            0 <= i <= j < cpm_model::listing(entries).len() ==> order::name_le(
                (#[trigger] cpm_model::listing(entries)[i]).name,
                (#[trigger] cpm_model::listing(entries)[j]).name,
            ),
{
    lemma_sorted_keys(entries);
    let keys = cpm_model::sorted_keys(entries);
    let l = cpm_model::listing(entries);
    assert forall|i: int, j: int| 0 <= i <= j < l.len() implies order::name_le(
        (#[trigger] l[i]).name,
        (#[trigger] l[j]).name,
    ) by {
        assert(order::name_le(keys[i].name, keys[j].name));
    }
}

/// The file that line `i` of a listing stands for.
pub proof fn lemma_line(entries: Seq<EntryView>, i: int)
    requires
        0 <= i < cpm_model::listing(entries).len(),
    ensures
        ({
            let e = cpm_model::listing(entries)[i];
            let k = cpm_model::sorted_keys(entries)[i];
            &&& k == (FileKey { user: e.user, name: e.name })
            &&& cpm_model::extents(entries, k).len() > 0
            &&& exists|j: int| 0 <= j < entries.len() && (#[trigger] entries[j]).key() == k
        }),
{
    lemma_sorted_keys(entries);
    let k = cpm_model::sorted_keys(entries)[i];
    let j = choose|j: int| 0 <= j < entries.len() && (#[trigger] entries[j]).key() == k;
    cpm_model::lemma_extents_exist(entries, j);
    cpm_entries::lemma_extents_listed(entries, k, 0);
}

/// A listing has one line for each file: no two lines have the same user and name.
pub proof fn law_listed_once(entries: Seq<EntryView>, i: int, j: int)
    requires
        0 <= i < cpm_model::listing(entries).len(),
        0 <= j < cpm_model::listing(entries).len(),
        i != j,
    ensures
        cpm_model::listing(entries)[i].user != cpm_model::listing(entries)[j].user || cpm_model::listing(entries)[i].name
            != cpm_model::listing(entries)[j].name,
{
    lemma_sorted_keys(entries);
    lemma_line(entries, i);
    lemma_line(entries, j);
}

/// A name that addresses a file of a given user.
pub open spec fn addressed(user: u8, name: Seq<char>) -> Seq<char> {
    text::decimal(user as int) + ":"@ + name
}

/// The decimal digits of a user number are read as that number.
proof fn lemma_user_digits(user: u8)
    requires
        user <= 31,
    ensures
        text::user_number(text::decimal(user as int)) == Some(user as int),
        text::decimal(user as int).len() > 0,
        forall|i: int| 0 <= i < text::decimal(user as int).len() ==> #[trigger] text::decimal(user as int)[i] != ':',
{
    let n = user as int;
    reveal_with_fuel(text::decimal, 2);
    reveal_with_fuel(text::number, 3);
    let d = text::decimal(n);
    if n < 10 {
        assert(d.drop_last() =~= Seq::<char>::empty());
    } else {
        assert(d.drop_last() =~= text::decimal(n / 10));
        assert(text::decimal(n / 10).drop_last() =~= Seq::<char>::empty());
    }
}

/// The first colon lies behind text without one.
proof fn lemma_first_colon(s: Seq<char>, n: int, from: int)
    requires
        0 <= from <= n < s.len(),
        s[n] == ':',
        forall|i: int| 0 <= i < n ==> #[trigger] s[i] != ':',
    ensures
        text::find_from(s, ':', from) == n,
    decreases n - from,
{
    if from < n {
        lemma_first_colon(s, n, from + 1);
    }
}

/// A name with a user number in front addresses the file of that user.
pub proof fn lemma_addressed(user: u8, name: Seq<char>)
    requires
        user <= 31,
    ensures
        cpm_model::key_of_name(addressed(user, name)) == Ok::<FileKey, ErrorView>(FileKey { user, name }),
{
    let d = text::decimal(user as int);
    let s = addressed(user, name);
    reveal_strlit(":");
    lemma_user_digits(user);
    assert forall|i: int| 0 <= i < d.len() implies #[trigger] s[i] != ':' by {
        assert(s[i] == d[i]);
    }
    lemma_first_colon(s, d.len() as int, 0);
    assert(s.take(d.len() as int) =~= d);
    assert(s.skip(d.len() as int + 1) =~= name);
}

/// Bare names address files of user 0.
pub proof fn law_bare_names(image: ImageView, spec: DiskSpecification, entries: Seq<EntryView>, name: Seq<char>, include_header: bool)
    requires
        !name.contains(':'),
    ensures
        match (
            cpm_model::file_content(image, spec, entries, name, include_header),
            cpm_model::file_content(image, spec, entries, addressed(0, name), include_header),
        ) {
            (Ok(a), Ok(b)) => a == b,
            (Err(a), Err(b)) => a == ErrorView::FileNotFound(name) && b == ErrorView::FileNotFound(addressed(0, name)),
            _ => false,
        },
{
    lemma_addressed(0, name);
    lemma_no_colon(name, 0);
}

pub proof fn lemma_no_colon(s: Seq<char>, from: int)
    requires
        0 <= from <= s.len(),
        !s.contains(':'),
    ensures
        text::find_from(s, ':', from) == s.len(),
    decreases s.len() - from,
{
    if from < s.len() {
        assert(s[from] != ':');
        lemma_no_colon(s, from + 1);
    }
}

/// Every file that is listed can be read, under its name with its user number in front. What is
/// read is no longer than the listed size.
pub proof fn law_listed_files_read(image: ImageView, spec: DiskSpecification, i: int, include_header: bool)
    requires
        0 <= i < cpm_model::listing(cpm_model::directory(image, spec, false)).len(),
    ensures
        ({
            let entries = cpm_model::directory(image, spec, false);
            let e = cpm_model::listing(entries)[i];
            cpm_model::file_content(image, spec, entries, addressed(e.user, e.name), include_header) matches Ok(data) && data.len()
                <= e.size
        }),
{
    let entries = cpm_model::directory(image, spec, false);
    let e = cpm_model::listing(entries)[i];
    let k = cpm_model::sorted_keys(entries)[i];
    lemma_line(entries, i);
    let j = choose|j: int| 0 <= j < entries.len() && (#[trigger] entries[j]).key() == k;
    lemma_users(cpm_model::directory_bytes(image, spec), spec, cpm_model::directory_bytes(image, spec).len() as int / 32);
    assert(entries[j].user <= 31);
    lemma_addressed(e.user, e.name);
    let ext = cpm_model::extents(entries, k);
    lemma_size_positive(ext, ext.len() as int);
    let raw = cpm_model::raw_file(image, spec, ext);
    assert(header::stripped(raw).len() <= raw.len());
}

/// Sizes are not negative.
pub proof fn lemma_size_positive(ext: Seq<EntryView>, n: int)
    ensures
        cpm_model::size_to(ext, n) >= 0,
    decreases n,
{
    if n > 0 {
        lemma_size_positive(ext, n - 1);
    }
}

/// Entries that are not deleted have user numbers up to 31.
pub proof fn lemma_users(data: Seq<u8>, spec: DiskSpecification, n: int)
    requires
        0 <= n <= data.len() / 32,
    ensures
        forall|i: int| 0 <= i < cpm_model::entries_to(data, spec, false, n).len() ==> (#[trigger] cpm_model::entries_to(
            data,
            spec,
            false,
            n,
        )[i]).user <= 31,
    decreases n,
{
    if n > 0 {
        lemma_users(data, spec, n - 1);
        let rest = cpm_model::entries_to(data, spec, false, n - 1);
        let all = cpm_model::entries_to(data, spec, false, n);
        assert forall|i: int| 0 <= i < all.len() implies (#[trigger] all[i]).user <= 31 by {
            if i < rest.len() {
                assert(all[i] == rest[i]);
            }
        }
    }
}

/// Every file that can be read is listed.
pub proof fn law_read_files_listed(image: ImageView, spec: DiskSpecification, name: Seq<char>, include_header: bool)
    requires
        cpm_model::file_content(image, spec, cpm_model::directory(image, spec, false), name, include_header) is Ok,
    ensures
        ({
            let l = cpm_model::listing(cpm_model::directory(image, spec, false));
            let k = cpm_model::key_of_name(name)->Ok_0;
            exists|i: int| 0 <= i < l.len() && (#[trigger] l[i]).user == k.user && l[i].name == k.name
        }),
{
    let entries = cpm_model::directory(image, spec, false);
    let k = cpm_model::key_of_name(name)->Ok_0;
    let l = cpm_model::listing(entries);
    cpm_entries::lemma_extents_listed(entries, k, 0);
    let e = cpm_model::extents(entries, k)[0];
    let j = choose|j: int| 0 <= j < entries.len() && entries[j] == e;
    lemma_sorted_keys(entries);
    assert(cpm_model::sorted_keys(entries).contains(entries[j].key()));
    let i = choose|i: int| 0 <= i < cpm_model::sorted_keys(entries).len() && cpm_model::sorted_keys(entries)[i] == k;
    lemma_line(entries, i);
    assert(l[i].user == k.user && l[i].name == k.name);
}

/// A file that has been stored is listed with its size, when the disk is opened again.
pub proof fn law_import_is_listed(image: ImageView, name: Seq<char>, data: Seq<u8>, after: ImageView, read_name: Seq<char>)
    requires
        cpm_edit::imported(image, name, data) == Ok::<ImageView, ErrorView>(after),
        cpm_laws::sound_for(image, data.len() as int),
        cpm_laws::shown_for(image, data.len() as int),
        cpm_model::key_of_name(read_name) == Ok::<FileKey, ErrorView>(cpm_entries::new_key(name)),
        cpm_laws::absent(image, read_name),
    ensures
        ({
            let l = cpm_model::listing(cpm_model::directory(after, specification::identified(after), false));
            let k = cpm_entries::new_key(name);
            exists|i: int| 0 <= i < l.len() && (#[trigger] l[i]).user == k.user && l[i].name == k.name && l[i].size == data.len()
        }),
{
    let spec = specification::identified(after);
    let entries = cpm_model::directory(after, spec, false);
    let l = cpm_model::listing(entries);
    let k = cpm_entries::new_key(name);
    cpm_laws::law_import_then_read(image, name, data, after, read_name);
    law_read_files_listed(after, spec, read_name, true);
    let i = choose|i: int| 0 <= i < l.len() && (#[trigger] l[i]).user == k.user && l[i].name == k.name;
    lemma_line(entries, i);
    assert(l[i].size == data.len());
}

/// The entries of a file that is not deleted are the same whether or not deleted entries are
/// wanted.
proof fn lemma_selected_with_deleted(data: Seq<u8>, spec: DiskSpecification, key: FileKey, n: int)
    requires
        0 <= n <= data.len() / 32,
        key.user != 0xE5,
    ensures
        ({
            let a = cpm_model::entries_to(data, spec, false, n);
            let b = cpm_model::entries_to(data, spec, true, n);
            cpm_model::selected_to(a, key, a.len() as int) == cpm_model::selected_to(b, key, b.len() as int)
        }),
    decreases n,
{
    if n > 0 {
        lemma_selected_with_deleted(data, spec, key, n - 1);
        let a = cpm_model::entries_to(data, spec, false, n - 1);
        let b = cpm_model::entries_to(data, spec, true, n - 1);
        let slot = data.subrange(32 * (n - 1), 32 * n);
        match cpm_model::entry_of(slot, n - 1, true) {
            Some(e) => {
                cpm_entries::lemma_selected_push(a, e, key);
                cpm_entries::lemma_selected_push(b, e, key);
            },
            None => {},
        }
    }
}

/// A line of one detailed listing is a line of the other, where both list the same extents.
proof fn lemma_line_listed(image: ImageView, spec: DiskSpecification, a: Seq<EntryView>, b: Seq<EntryView>, i: int)
    requires
        0 <= i < cpm_model::sorted_keys(a).len(),
        cpm_model::extents(a, cpm_model::sorted_keys(a)[i]) == cpm_model::extents(b, cpm_model::sorted_keys(a)[i]),
    ensures
        cpm_model::extended_listing(image, spec, b).contains(cpm_model::extended_listing(image, spec, a)[i]),
{
    let k = cpm_model::sorted_keys(a)[i];
    lemma_line(a, i);
    cpm_entries::lemma_extents_listed(b, k, 0);
    let e = cpm_model::extents(b, k)[0];
    let x = choose|x: int| 0 <= x < b.len() && b[x] == e;
    lemma_sorted_keys(b);
    assert(cpm_model::sorted_keys(b).contains(b[x].key()));
    let y = choose|y: int| 0 <= y < cpm_model::sorted_keys(b).len() && cpm_model::sorted_keys(b)[y] == k;
    assert(cpm_model::extended_listing(image, spec, b)[y] == cpm_model::extended_listing(image, spec, a)[i]);
}

/// A detailed listing with deleted files holds the lines of the listing without them, and all
/// others are of deleted files.
pub proof fn law_deleted_are_added(image: ImageView, spec: DiskSpecification)
    ensures
        ({
            let live = cpm_model::extended_listing(image, spec, cpm_model::directory(image, spec, false));
            let all = cpm_model::extended_listing(image, spec, cpm_model::directory(image, spec, true));
            &&& forall|i: int| 0 <= i < live.len() ==> all.contains(#[trigger] live[i]) && live[i].user != 0xE5
            &&& forall|i: int| 0 <= i < all.len() && (#[trigger] all[i]).user != 0xE5 ==> live.contains(all[i])
        }),
{
    let a = cpm_model::directory(image, spec, false);
    let b = cpm_model::directory(image, spec, true);
    let live = cpm_model::extended_listing(image, spec, a);
    let all = cpm_model::extended_listing(image, spec, b);
    let data = cpm_model::directory_bytes(image, spec);
    let n = data.len() as int / 32;
    lemma_users(data, spec, n);
    assert forall|i: int| 0 <= i < live.len() implies all.contains(#[trigger] live[i]) && live[i].user != 0xE5 by {
        let k = cpm_model::sorted_keys(a)[i];
        lemma_line(a, i);
        let j = choose|j: int| 0 <= j < a.len() && (#[trigger] a[j]).key() == k;
        assert(a[j].user <= 31);
        lemma_selected_with_deleted(data, spec, k, n);
        lemma_line_listed(image, spec, a, b, i);
    }
    assert forall|i: int| 0 <= i < all.len() && (#[trigger] all[i]).user != 0xE5 implies live.contains(all[i]) by {
        let k = cpm_model::sorted_keys(b)[i];
        lemma_line(b, i);
        lemma_selected_with_deleted(data, spec, k, n);
        lemma_line_listed(image, spec, b, a, i);
    }
}

proof fn lemma_kept_len(numbers: Seq<u16>, needed: int, limit: int, n: int)
    requires
        n >= 0,
    ensures
        cpm_model::kept_to(numbers, needed, limit, n).len() <= n,
    decreases n,
{
    if n > 0 {
        lemma_kept_len(numbers, needed, limit, n - 1);
    }
}

proof fn lemma_blocks_len(ext: Seq<EntryView>, spec: DiskSpecification, n: int)
    requires
        0 <= n <= ext.len(),
        forall|k: int| 0 <= k < ext.len() ==> (#[trigger] ext[k]).allocation.len() == 16,
    ensures
        cpm_model::blocks_to(ext, spec, n).len() <= 16 * n,
    decreases n,
{
    if n > 0 {
        lemma_blocks_len(ext, spec, n - 1);
        let e = ext[n - 1];
        let numbers = e.numbers(spec.allocation_size);
        assert(numbers.len() <= 16);
        lemma_kept_len(numbers, e.blocks_reached(spec), spec.room(), numbers.len() as int);
        lemma_kept_len(numbers, 0, 0, numbers.len() as int);
    }
}

proof fn lemma_selected_len(entries: Seq<EntryView>, key: FileKey, n: int)
    requires
        n >= 0,
    ensures
        cpm_model::selected_to(entries, key, n).len() <= n,
    decreases n,
{
    if n > 0 {
        lemma_selected_len(entries, key, n - 1);
    }
}

/// A detailed listing can be made of every disk whose directory has no room to name more bytes
/// than can be counted: sixteen blocks for each entry.
pub proof fn law_listing_can_be_made(image: ImageView, spec: DiskSpecification, include_deleted: bool)
    requires
        spec.sector_size > 0,
        16 * spec.entries() * spec.block_bytes() <= usize::MAX,
    ensures
        cpm_model::listing_fits(image, spec, cpm_model::directory(image, spec, include_deleted)),
{
    let entries = cpm_model::directory(image, spec, include_deleted);
    cpm_model::lemma_directory_len(image, spec, include_deleted);
    assert forall|i: int| 0 <= i < cpm_model::sorted_keys(entries).len() implies (#[trigger] cpm_model::extended_listing(
        image,
        spec,
        entries,
    )[i]).allocated <= usize::MAX by {
        let key = cpm_model::sorted_keys(entries)[i];
        let ext = cpm_model::extents(entries, key);
        let s = cpm_entries::selected(entries, key);
        order::lemma_order_permutes(order::by_key(cpm_model::extent_numbers(s)), s.len() as int);
        lemma_selected_len(entries, key, entries.len() as int);
        assert forall|k: int| 0 <= k < ext.len() implies (#[trigger] ext[k]).allocation.len() == 16 by {
            cpm_entries::lemma_extents_listed(entries, key, k);
        }
        lemma_blocks_len(ext, spec, ext.len() as int);
        let n = cpm_model::blocks_to(ext, spec, ext.len() as int).len() as int;
        let bb = spec.block_bytes();
        assert(n * bb <= 16 * spec.entries() * bb) by (nonlinear_arith)
            requires
                0 <= n <= 16 * spec.entries(),
                bb >= 0,
        ;
    }
}

}
