//! Laws of CP/M names: a name that is taken stays taken, in upper and in lower case.

use crate::bytes;
use crate::error::ErrorView;
use crate::filesystem::cpm_blocks;
use crate::filesystem::cpm_edit;
use crate::filesystem::cpm_edit::Address;
use crate::filesystem::cpm_entries;
use crate::filesystem::cpm_laws;
use crate::filesystem::cpm_model;
use crate::filesystem::cpm_reuse_laws;
use crate::filesystem::names;
use crate::image::laws;
use crate::image::ImageView;
use crate::specification;
use crate::text;
use vstd::prelude::*;

verus! {

/// The same characters, up to case, are found in the same places.
proof fn lemma_find_case(a: Seq<char>, b: Seq<char>, c: char, from: int)
    requires
        text::same_name(a, b),
        c == ':' || c == '.',
        0 <= from,
    ensures
        a.len() == b.len(),
        text::find_from(a, c, from) == text::find_from(b, c, from),
        from <= text::find_from(a, c, from),
    decreases a.len() - from,
{
    assert(text::upper_all(a).len() == a.len() && text::upper_all(b).len() == b.len());
    if from < a.len() {
        assert(text::upper_all(a)[from] == text::upper_all(b)[from]);
        lemma_find_case(a, b, c, from + 1);
    }
}

/// Numbers have no case.
proof fn lemma_number_case(a: Seq<char>, b: Seq<char>, limit: int)
    requires
        text::same_name(a, b),
    ensures
        text::number(a, limit) == text::number(b, limit),
    decreases a.len(),
{
    assert(text::upper_all(a).len() == a.len() && text::upper_all(b).len() == b.len());
    if a.len() > 0 {
        lemma_part_case(a, b, 0, a.len() - 1);
        assert(a.drop_last() =~= a.subrange(0, a.len() - 1));
        assert(b.drop_last() =~= b.subrange(0, a.len() - 1));
        lemma_number_case(a.drop_last(), b.drop_last(), limit);
        assert(text::upper_all(a)[a.len() - 1] == text::upper_all(b)[a.len() - 1]);
    }
}

/// Parts of names that are the same up to case are the same up to case.
proof fn lemma_part_case(a: Seq<char>, b: Seq<char>, from: int, to: int)
    requires
        text::same_name(a, b),
        0 <= from <= to <= a.len(),
    ensures
        a.len() == b.len(),
        text::same_name(a.subrange(from, to), b.subrange(from, to)),
{
    assert(text::upper_all(a).len() == a.len() && text::upper_all(b).len() == b.len());
    assert forall|i: int| 0 <= i < to - from implies text::upper_all(a.subrange(from, to))[i] == text::upper_all(b.subrange(from, to))[i] by {
        assert(text::upper_all(a)[from + i] == text::upper_all(b)[from + i]);
    }
    assert(text::upper_all(a.subrange(from, to)) =~= text::upper_all(b.subrange(from, to)));
}

/// Stored names have no case.
proof fn lemma_padded_case(a: Seq<char>, b: Seq<char>, length: int)
    requires
        text::same_name(a, b),
    ensures
        a.len() == b.len(),
        names::fits(a, length) ==> names::fits(b, length),
        names::padded_bytes(a, length) == names::padded_bytes(b, length),
{
    assert(text::upper_all(a).len() == a.len() && text::upper_all(b).len() == b.len());
    assert forall|i: int| 0 <= i < a.len() implies text::upper(#[trigger] a[i]) == text::upper(b[i]) by {
        assert(text::upper_all(a)[i] == text::upper_all(b)[i]);
    }
    if names::fits(a, length) {
        assert forall|i: int| 0 <= i < b.len() implies names::storable(#[trigger] b[i]) by {
            assert(names::storable(a[i]));
            assert(text::upper(a[i]) == text::upper(b[i]));
        }
    }
    assert(names::padded_bytes(a, length) =~= names::padded_bytes(b, length));
}

/// Names that differ in the case of letters alone stand for the same file.
pub proof fn law_names_have_no_case(name: Seq<char>, again: Seq<char>)
    requires
        text::same_name(name, again),
        names::cpm_key(name) is Ok,
    ensures
        names::cpm_key(again) == names::cpm_key(name),
{
    lemma_find_case(name, again, ':', 0);
    let n = name.len() as int;
    let (user, rest) = names::user_and_name(name)->Ok_0;
    let rest2 = match text::find(again, ':') {
        None => again,
        Some(i) => again.skip(i + 1),
    };
    if let Some(i) = text::find(name, ':') {
        let s = name.take(i);
        let t = again.take(i);
        lemma_part_case(name, again, 0, i);
        assert(s =~= name.subrange(0, i) && t =~= again.subrange(0, i));
        lemma_part_case(name, again, i + 1, n);
        assert(name.skip(i + 1) =~= name.subrange(i + 1, n) && again.skip(i + 1) =~= again.subrange(i + 1, n));
        assert(text::upper_all(s).len() == s.len());
        if s.len() > 0 {
            assert(text::upper_all(s)[0] == text::upper_all(t)[0]);
            lemma_part_case(s, t, 1, s.len() as int);
            assert(s.skip(1) =~= s.subrange(1, s.len() as int) && t.skip(1) =~= t.subrange(1, s.len() as int));
            if s[0] == '+' {
                lemma_number_case(s.skip(1), t.skip(1), 31);
            } else {
                lemma_number_case(s, t, 31);
            }
        }
    }
    assert(text::same_name(rest, rest2));
    lemma_find_case(rest, rest2, '.', 0);
    let m = rest.len() as int;
    let (base, ext) = names::dotted(rest);
    let (base2, ext2) = names::dotted(rest2);
    if let Some(i) = text::find(rest, '.') {
        lemma_part_case(rest, rest2, 0, i);
        lemma_part_case(rest, rest2, i + 1, m);
        assert(base =~= rest.subrange(0, i) && base2 =~= rest2.subrange(0, i));
        assert(ext =~= rest.subrange(i + 1, m) && ext2 =~= rest2.subrange(i + 1, m));
    }
    lemma_padded_case(base, base2, 8);
    lemma_padded_case(ext, ext2, 3);
}

/// Whether the sectors of the directory have different addresses.
pub open spec fn distinct_directory(image: ImageView) -> bool {
    cpm_edit::directory_at(image, specification::identified(image)) matches Ok((addresses, dir)) ==> addresses.no_duplicates()
}

/// What is read at different addresses after pieces have been written there.
proof fn lemma_put_reads(image: ImageView, addresses: Seq<Address>, data: Seq<u8>, size: int, n: int)
    requires
        0 <= n <= addresses.len(),
        addresses.no_duplicates(),
        cpm_edit::put_to(image, addresses, data, size, n) is Ok,
    ensures
        forall|i: int| 0 <= i < n ==> cpm_edit::data_at(
            cpm_edit::put_to(image, addresses, data, size, n)->Ok_0,
            #[trigger] addresses[i],
        ) == cpm_blocks::piece(data, size, i),
    decreases n,
{
    if n > 0 {
        lemma_put_reads(image, addresses, data, size, n - 1);
        let before = cpm_edit::put_to(image, addresses, data, size, n - 1)->Ok_0;
        let after = cpm_edit::put_to(image, addresses, data, size, n)->Ok_0;
        let a = addresses[n - 1];
        let part = cpm_blocks::piece(data, size, n - 1);
        laws::law_read_after_write(before, after, a.0, a.1, a.2, part);
        assert forall|i: int| 0 <= i < n implies cpm_edit::data_at(after, #[trigger] addresses[i]) == cpm_blocks::piece(data, size, i) by {
            let b = addresses[i];
            if i < n - 1 {
                assert(b != a);
                laws::law_write_leaves_others(before, after, a.0, a.1, a.2, part, b.0, b.1, b.2);
            }
        }
    }
}

/// Pieces at a list of addresses make up the whole.
proof fn lemma_put_bytes(image: ImageView, addresses: Seq<Address>, data: Seq<u8>, size: int, n: int)
    requires
        0 <= n <= addresses.len(),
        size >= 0,
        data.len() == addresses.len() * size,
        forall|i: int| 0 <= i < n ==> cpm_edit::data_at(image, #[trigger] addresses[i]) == cpm_blocks::piece(data, size, i),
    ensures
        cpm_edit::bytes_to(image, addresses, n) == data.take(n * size),
    decreases n,
{
    assert(0 <= n * size <= data.len()) by (nonlinear_arith)
        requires
            0 <= n <= addresses.len(),
            size >= 0,
            data.len() == addresses.len() * size,
    ;
    if n > 0 {
        lemma_put_bytes(image, addresses, data, size, n - 1);
        assert((n - 1) * size + size == n * size && size * (n - 1) == (n - 1) * size && 0 <= (n - 1) * size) by (nonlinear_arith)
            requires
                n >= 1,
                size >= 0,
        ;
        assert(cpm_edit::data_at(image, addresses[n - 1]) == cpm_blocks::piece(data, size, n - 1));
        assert(data.take((n - 1) * size) + cpm_blocks::piece(data, size, n - 1) =~= data.take(n * size));
    } else {
        assert(n * size == 0) by (nonlinear_arith)
            requires
                n == 0,
        ;
        assert(data.take(0) =~= Seq::<u8>::empty());
    }
}

/// The directory after a file has been stored, where its sectors have different addresses.
proof fn lemma_directory_after(image: ImageView, name: Seq<char>, data: Seq<u8>, after: ImageView)
    requires
        cpm_edit::imported(image, name, data) == Ok::<ImageView, ErrorView>(after),
        distinct_directory(image),
    ensures
        ({
            let spec = specification::identified(image);
            let (user, raw) = names::cpm_key(name)->Ok_0;
            cpm_edit::directory_at(after, spec) matches Ok((addresses, dir)) && cpm_edit::holds(dir, user, raw)
        }),
{
    let spec = specification::identified(image);
    let ss = spec.sector_size as int;
    let len = data.len() as int;
    let (user, raw) = names::cpm_key(name)->Ok_0;
    let (addresses, dir) = cpm_edit::directory_at(image, spec)->Ok_0;
    let first = spec.first_sector();
    let n = cpm_edit::directory_sectors(spec);
    let extents = cpm_edit::extent_count(spec, len);
    cpm_laws::lemma_user(name);
    cpm_blocks::lemma_sizes(spec);
    cpm_blocks::lemma_directory_sectors(spec);
    cpm_edit::lemma_addresses(image, spec, first, n);
    bytes::lemma_div_up(len, spec.block_bytes());
    let free = cpm_edit::free_to(spec, dir, spec.blocks()).take(cpm_edit::blocks_needed(spec, len));
    let total = free.len() * cpm_model::sectors_per_block(spec);
    cpm_reuse_laws::lemma_stored_as_well(image, image, spec, free, data, total);
    let mid = cpm_edit::stored_to(image, spec, free, data, total)->Ok_0;
    cpm_laws::lemma_extents_positive(spec, len);
    cpm_entries::lemma_filled(spec, dir, user, raw, len, free, extents);
    cpm_entries::lemma_filled_holds(spec, dir, name, user, raw, len, free, extents);
    let entered = cpm_edit::filled_to(spec, dir, user, raw, len, free, extents);
    assert forall|i: int| 0 <= i < addresses.len() implies cpm_edit::address(mid, spec, first + i) == Ok::<Address, ErrorView>(
        #[trigger] addresses[i],
    ) by {}
    cpm_reuse_laws::lemma_put_succeeds(mid, spec, addresses, entered, addresses.len() as int);
    cpm_blocks::lemma_same_addresses(after, image, spec, first, n);
    lemma_put_reads(mid, addresses, entered, ss, addresses.len() as int);
    lemma_put_bytes(after, addresses, entered, ss, addresses.len() as int);
    assert(entered.take(entered.len() as int) =~= entered);
}

/// A name that has been stored cannot be stored again, with whatever data, on a disk whose
/// directory sectors have different addresses and which is recognised as before.
pub proof fn law_import_keeps_existing(image: ImageView, name: Seq<char>, data: Seq<u8>, after: ImageView, again: Seq<char>, other: Seq<u8>)
    requires
        cpm_edit::imported(image, name, data) == Ok::<ImageView, ErrorView>(after),
        distinct_directory(image),
        specification::identified(after) == specification::identified(image),
        text::same_name(name, again) || names::cpm_key(again) == names::cpm_key(name),
    ensures
        cpm_edit::imported(after, again, other) is Err,
{
    if text::same_name(name, again) {
        law_names_have_no_case(name, again);
    }
    lemma_directory_after(image, name, data, after);
}

}
