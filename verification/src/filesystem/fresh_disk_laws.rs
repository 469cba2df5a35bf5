//! Laws of freshly formatted disks: they accept every file that fits.

use crate::bytes;
use crate::error::ErrorView;
use crate::filesystem::cpm_blocks;
use crate::filesystem::cpm_edit;
use crate::filesystem::cpm_edit::Address;
use crate::filesystem::cpm_entries;
use crate::filesystem::cpm_laws;
use crate::filesystem::cpm_model;
use crate::filesystem::cpm_reuse_laws;
use crate::filesystem::cpm_sectors;
use crate::filesystem::formatting;
use crate::filesystem::formatting_laws;
use crate::filesystem::mgt;
use crate::filesystem::mgt_edit;
use crate::filesystem::names;
use crate::filesystem::trdos;
use crate::filesystem::trdos_edit;
use crate::filesystem::trdos_reuse_laws;
use crate::image::laws;
use crate::image::track;
use crate::image::ImageView;
use crate::specification;
use crate::specification::DiskSpecification;
use vstd::prelude::*;

verus! {

/// Whether a disk has the MGT sectors from `first` up to `end`.
pub open spec fn has_mgt_sectors(image: ImageView, first: int, end: int) -> bool {
    forall|i: int|
        first <= i < end ==> #[trigger] image.read(mgt::sector_place(i).0, mgt::sector_place(i).1, mgt::sector_place(i).2) is Ok
}

/// Sectors that are there can be written.
pub proof fn lemma_mgt_stored(image: ImageView, start: int, data: Seq<u8>, n: int)
    requires
        has_mgt_sectors(image, start, start + n),
        0 <= n,
    ensures
        mgt_edit::stored_to(image, start, data, n) matches Ok(after) && laws::same_layout(image, after),
    decreases n,
{
    if n <= 0 {
        laws::lemma_same_layout_reflexive(image);
    } else {
        lemma_mgt_stored(image, start, data, n - 1);
        let before = mgt_edit::stored_to(image, start, data, n - 1)->Ok_0;
        let p = mgt::sector_place(start + n - 1);
        let part = bytes::padded_part(data, 512 * (n - 1), 512);
        assert(image.read(p.0, p.1, p.2) is Ok);
        laws::lemma_same_layout_reads(image, before, p.0, p.1, p.2);
        let after = before.write(p.0, p.1, p.2, part)->Ok_0;
        laws::law_write_keeps_layout(before, after, p.0, p.1, p.2, part);
        laws::lemma_same_layout_chain(image, before, after);
    }
}

/// A freshly formatted MGT disk accepts every file with a valid name and length, where the first
/// sector of the directory and those that the file takes are there.
pub proof fn law_mgt_format_accepts(image: ImageView, after: ImageView, name: Seq<char>, data: Seq<u8>)
    requires
        formatting::mgt_formatted(image) == Ok::<ImageView, ErrorView>(after),
        image.read(0, 0, 1) is Ok,
        has_mgt_sectors(image, 40, 40 + mgt_edit::sectors_needed(data.len() as int)),
        names::fits(name, 10),
        data.len() <= 65535,
    ensures
        mgt_edit::imported(after, name, data) is Ok,
{
    let len = data.len() as int;
    let count = mgt_edit::sectors_needed(len);
    bytes::lemma_div_up(len, 512);
    formatting_laws::law_mgt_format_empty(image, after);
    formatting_laws::law_fill_erases(image, 512, 0, after);
    assert forall|i: int| 40 <= i < 40 + count implies #[trigger] after.read(
        mgt::sector_place(i).0,
        mgt::sector_place(i).1,
        mgt::sector_place(i).2,
    ) is Ok by {
        let p = mgt::sector_place(i);
        assert(image.read(p.0, p.1, p.2) is Ok);
        laws::lemma_same_layout_reads(image, after, p.0, p.1, p.2);
    }
    let first = mgt::sector_place(0);
    assert(first == (0u8, 0u8, 1u8));
    laws::lemma_same_layout_reads(image, after, 0, 0, 1);
    assert(after.read(first.0, first.1, first.2) == Ok::<Seq<u8>, ErrorView>(formatting::filler(512, 0)));
    assert(mgt_edit::slot_free(after, 0));
    let entries = mgt::entries_to(after, 80);
    assert(mgt_edit::run_at(entries, count, 40));
    lemma_mgt_stored(after, 40, data, count);
    let mid = mgt_edit::stored_to(after, 40, data, count)->Ok_0;
    laws::lemma_same_layout_reads(after, mid, 0, 0, 1);
}

/// A freshly formatted TR-DOS disk accepts every file with a valid name and type that fits
/// behind track 0, where the sectors of the directory and those that the file takes are there.
pub proof fn law_trdos_format_accepts(image: ImageView, after: ImageView, name: Seq<char>, data: Seq<u8>)
    requires
        formatting::trdos_formatted(image) == Ok::<ImageView, ErrorView>(after),
        forall|id: u8| 1 <= id <= 8 ==> #[trigger] image.read(0, 0, id) is Ok,
        trdos_reuse_laws::has_sectors(image, 16, 16 + trdos_edit::sectors_needed(data.len() as int)),
        names::fits(trdos::stem(name), 8),
        trdos_edit::kind_of(name) is Some,
        data.len() <= 65280,
        16 + trdos_edit::sectors_needed(data.len() as int) <= trdos_edit::total_sectors(image),
    ensures
        trdos_edit::imported(after, name, data) is Ok,
{
    let tracks = image.spec.num_tracks as int;
    let sides = image.spec.num_sides as int;
    assert(1 <= tracks * sides <= 160) by (nonlinear_arith)
        requires
            1 <= tracks <= 80,
            1 <= sides <= 2,
    ;
    let count = trdos_edit::sectors_needed(data.len() as int);
    bytes::lemma_div_up(data.len() as int, 256);
    formatting_laws::law_trdos_format_empty(image, after);
    let filled = formatting::filled(image, 256, 0)->Ok_0;
    formatting_laws::law_fill_erases(image, 256, 0, filled);
    let catalog = formatting::empty_catalog(image.spec);
    laws::law_write_keeps_layout(filled, after, 0, 0, 9, catalog);
    laws::lemma_same_layout_chain(image, filled, after);
    assert forall|n: int| 16 <= n < 16 + count implies #[trigger] trdos_edit::address(after, n) is Ok by {
        assert(trdos_edit::address(image, n) is Ok);
        trdos_reuse_laws::lemma_address(image, after, n);
    }
    assert(image.read(0, 0, 1) is Ok);
    laws::lemma_same_layout_reads(image, after, 0, 0, 1);
    assert(trdos_edit::slot_free(after, 0));
    trdos_reuse_laws::lemma_accepts(after, name, data, 0);
}

/// Whether a disk has the sectors of the first `n` CP/M blocks, each of the right size.
pub open spec fn has_cpm_blocks(image: ImageView, spec: DiskSpecification, n: int) -> bool {
    forall|x: int| spec.first_sector() <= x < cpm_model::block_start(spec, n) ==> #[trigger] cpm_edit::address(image, spec, x) is Ok
}

/// Whether a disk will tell the layout that it is formatted with: by its boot record, or by its
/// sector numbers.
pub open spec fn tells_layout(image: ImageView) -> bool {
    let layout = formatting::cpm_layout(image);
    ||| formatting_laws::bootable(image) && specification::layout_of(image.spec.side_mode) == layout.side
    ||| {
        &&& image.track(0, 0) matches Some(t) && t.sectors.len() > 0 && t.by_id()[0].id.sector >= 0x41
        &&& layout == specification::identified(image)
    }
}

/// All sectors of a freshly formatted CP/M disk have one size.
proof fn lemma_cpm_uniform(image: ImageView, after: ImageView)
    requires
        formatting::cpm_formatted(image) == Ok::<ImageView, ErrorView>(after),
    ensures
        formatting_laws::uniform(after, formatting::cpm_layout(image).sector_size as int),
{
    let spec = formatting::cpm_layout(image);
    let emptied = formatting::cpm_emptied(image)->Ok_0;
    formatting_laws::lemma_emptied_layout(image, emptied);
    if image.spec.first_sector_id == 1 {
        let boot = formatting::boot_bytes(spec, image.spec.side_mode, image.spec.filler_byte);
        formatting_laws::lemma_write_uniform(emptied, after, 0, 0, 1, boot);
    }
}

/// Which sectors have addresses is a matter of layout where all have the right size.
proof fn lemma_cpm_address(a: ImageView, b: ImageView, spec: DiskSpecification, x: int)
    requires
        laws::same_layout(a, b),
        formatting_laws::uniform(b, spec.sector_size as int),
        cpm_edit::address(a, spec, x) is Ok,
    ensures
        cpm_edit::address(b, spec, x) is Ok,
{
    let spt = spec.sectors_per_track as int;
    let (side, track) = cpm_edit::write_place(spec, x / spt).unwrap();
    let s = side % 256;
    let r = track % 256;
    assert(laws::same_disk_layout(a.disks[s], b.disks[s]));
    let t = a.disks[s].tracks[r];
    let u = b.disks[s].tracks[r];
    assert(laws::same_track_layout(t, u));
    cpm_sectors::lemma_same_order(t, u);
    track::lemma_by_id_found(u, x % spt);
    let j = u.find(u.by_id()[x % spt].id.sector).unwrap();
    assert(b.disks[s].tracks[r].sectors[j].data.len() == spec.sector_size);
}

/// In a directory full of free marks, every slot and every block behind the directory is free.
proof fn lemma_all_free(spec: DiskSpecification, dir: Seq<u8>, slots: int, blocks: int)
    requires
        forall|i: int| 0 <= i < dir.len() ==> #[trigger] dir[i] == 0xE5,
        0 <= slots <= dir.len() / 32,
        spec.directory_blocks > 0,
        blocks <= 65535,
    ensures
        cpm_edit::free_slots(dir, slots) == slots,
        cpm_edit::free_to(spec, dir, blocks).len() == (if blocks > spec.directory_blocks {
            blocks - spec.directory_blocks
        } else {
            0
        }),
        forall|i: int| 0 <= i < cpm_edit::free_to(spec, dir, blocks).len() ==> #[trigger] cpm_edit::free_to(spec, dir, blocks)[i]
            == spec.directory_blocks + i,
    decreases slots, blocks,
{
    if slots > 0 {
        lemma_all_free(spec, dir, slots - 1, blocks);
    } else if blocks > 1 {
        lemma_all_free(spec, dir, slots, blocks - 1);
        let n = dir.len() as int / 32;
        assert forall|i: int| 0 <= i < n implies !#[trigger] cpm_edit::names_block(spec, dir, i, blocks - 1) by {
            assert(cpm_edit::slot(dir, i)[0] == dir[32 * i]);
        }
    }
}

/// The addresses of sectors that are all there.
pub proof fn lemma_addresses_there(image: ImageView, spec: DiskSpecification, first: int, n: int)
    requires
        forall|x: int| first <= x < first + n ==> #[trigger] cpm_edit::address(image, spec, x) is Ok,
    ensures
        cpm_edit::addresses_to(image, spec, first, n) is Ok,
    decreases n,
{
    if n > 0 {
        lemma_addresses_there(image, spec, first, n - 1);
    }
}

/// Sectors that are there can be written.
proof fn lemma_cpm_stored(image: ImageView, spec: DiskSpecification, free: Seq<u16>, data: Seq<u8>, n: int)
    requires
        cpm_blocks::whole_blocks(spec),
        cpm_blocks::usable(spec, free),
        forall|i: int| 0 <= i < free.len() ==> #[trigger] free[i] == spec.directory_blocks + i,
        has_cpm_blocks(image, spec, spec.directory_blocks + free.len()),
        0 <= n <= free.len() * cpm_model::sectors_per_block(spec),
    ensures
        cpm_edit::stored_to(image, spec, free, data, n) is Ok,
        forall|x: int| #[trigger] cpm_edit::address(cpm_edit::stored_to(image, spec, free, data, n)->Ok_0, spec, x)
            == cpm_edit::address(image, spec, x),
    decreases n,
{
    if n > 0 {
        lemma_cpm_stored(image, spec, free, data, n - 1);
        let before = cpm_edit::stored_to(image, spec, free, data, n - 1)->Ok_0;
        let x = cpm_edit::file_sector(spec, free, n - 1);
        cpm_blocks::lemma_sizes(spec);
        cpm_blocks::lemma_file_sector(spec, free, n - 1);
        let spb = cpm_model::sectors_per_block(spec);
        let k = (n - 1) / spb;
        assert((spec.directory_blocks + k) * spb + spb <= (spec.directory_blocks + free.len()) * spb) by (nonlinear_arith)
            requires
                k < free.len(),
                spb >= 1,
        ;
        assert(cpm_edit::address(image, spec, x) is Ok);
        assert(cpm_edit::address(before, spec, x) == cpm_edit::address(image, spec, x));
        cpm_reuse_laws::lemma_written(before, spec, x, cpm_edit::file_sector_bytes(data, spec.sector_size as int, n - 1));
    }
}

/// Whether the directory and the blocks of an empty disk with the given layout can take a file of
/// `len` bytes.
pub open spec fn cpm_fits(spec: DiskSpecification, len: int) -> bool {
    &&& cpm_blocks::whole_blocks(spec)
    &&& cpm_edit::extent_count(spec, len) <= 2048
    &&& cpm_edit::extent_count(spec, len) <= spec.entries()
    &&& spec.directory_blocks + cpm_edit::blocks_needed(spec, len) <= spec.blocks()
}

/// The directory of a freshly formatted CP/M disk, in the layout that the disk tells.
proof fn lemma_fresh_directory(image: ImageView, after: ImageView)
    requires
        formatting::cpm_formatted(image) == Ok::<ImageView, ErrorView>(after),
        formatting_laws::formattable(image),
        tells_layout(image),
    ensures
        laws::same_layout(image, after),
        formatting_laws::alike(formatting::cpm_layout(image), specification::identified(after)),
        ({
            let spec = specification::identified(after);
            let dir = cpm_model::directory_bytes(after, spec);
            &&& formatting_laws::uniform(after, spec.sector_size as int)
            &&& forall|i: int| 0 <= i < dir.len() ==> #[trigger] dir[i] == 0xE5
            &&& cpm_blocks::plain_directory(after, spec)
            &&& cpm_blocks::directory_on_disk(spec)
            &&& spec.directory_blocks > 0
        }),
{
    let layout = formatting::cpm_layout(image);
    let spec = specification::identified(after);
    if formatting_laws::bootable(image) && specification::layout_of(image.spec.side_mode) == layout.side {
        formatting_laws::law_boot_record_keeps_layout(image, after);
    } else {
        formatting_laws::law_numbers_keep_layout(image, after);
    }
    assert(formatting_laws::alike(layout, spec));
    formatting_laws::lemma_cpm_directory(image, after);
    formatting_laws::lemma_span_alike(after, layout, spec, spec.first_sector(), spec.last_sector());
    assert(cpm_model::directory_bytes(after, spec) == cpm_model::directory_bytes(after, layout));
    lemma_cpm_uniform(image, after);
    assert forall|x: int|
        spec.first_sector() <= x < spec.first_sector() + cpm_edit::directory_sectors(spec) implies #[trigger] cpm_sectors::plain(
        after,
        spec,
        x,
    ) by {
        assert(cpm_sectors::plain(image, layout, x));
        cpm_sectors::lemma_plain_kept(image, after, spec, x);
    }
}

/// A disk whose directory is full of free marks accepts every file that fits.
proof fn lemma_empty_accepts(image: ImageView, name: Seq<char>, data: Seq<u8>)
    requires
        names::cpm_key(name) is Ok,
        ({
            let spec = specification::identified(image);
            let dir = cpm_model::directory_bytes(image, spec);
            let len = data.len() as int;
            &&& cpm_fits(spec, len)
            &&& has_cpm_blocks(image, spec, spec.directory_blocks + cpm_edit::blocks_needed(spec, len))
            &&& forall|i: int| 0 <= i < dir.len() ==> #[trigger] dir[i] == 0xE5
            &&& cpm_blocks::plain_directory(image, spec)
            &&& cpm_blocks::directory_on_disk(spec)
            &&& spec.directory_blocks > 0
        }),
    ensures
        cpm_edit::imported(image, name, data) is Ok,
{
    let spec = specification::identified(image);
    let dir = cpm_model::directory_bytes(image, spec);
    let len = data.len() as int;
    let (user, raw) = names::cpm_key(name)->Ok_0;
    let needed = cpm_edit::blocks_needed(spec, len);
    bytes::lemma_div_up(len, spec.block_bytes());
    let taken = spec.directory_blocks + needed;
    cpm_blocks::lemma_sizes(spec);
    let spb = cpm_model::sectors_per_block(spec);
    assert(spec.directory_blocks * spb <= taken * spb) by (nonlinear_arith)
        requires
            spec.directory_blocks <= taken,
            spb >= 1,
    ;
    specification::lemma_entries_bound(spec);
    lemma_addresses_there(image, spec, spec.first_sector(), cpm_edit::directory_sectors(spec));
    cpm_blocks::lemma_directory_reached(spec);
    cpm_blocks::lemma_directory_at(image, spec);
    let (addresses, d) = cpm_edit::directory_at(image, spec)->Ok_0;
    cpm_laws::lemma_user(name);
    lemma_all_free(spec, dir, dir.len() as int / 32, spec.blocks());
    assert forall|i: int| 0 <= i < dir.len() / 32 implies !cpm_edit::matches(#[trigger] cpm_edit::slot(dir, i), user, raw) by {
        assert(cpm_edit::slot(dir, i)[0] == dir[32 * i]);
    }
    cpm_blocks::lemma_free_usable(spec, dir, spec.blocks());
    let free = cpm_edit::free_to(spec, dir, spec.blocks()).take(needed);
    let total = free.len() * spb;
    assert(total >= 0) by (nonlinear_arith)
        requires
            total == free.len() * spb,
            spb >= 1,
    ;
    lemma_cpm_stored(image, spec, free, data, total);
    let mid = cpm_edit::stored_to(image, spec, free, data, total)->Ok_0;
    let extents = cpm_edit::extent_count(spec, len);
    cpm_laws::lemma_extents_positive(spec, len);
    cpm_entries::lemma_filled(spec, dir, user, raw, len, free, extents);
    let entered = cpm_edit::filled_to(spec, dir, user, raw, len, free, extents);
    assert forall|i: int| 0 <= i < addresses.len() implies cpm_edit::address(mid, spec, spec.first_sector() + i) == Ok::<
        Address,
        ErrorView,
    >(#[trigger] addresses[i]) by {}
    cpm_reuse_laws::lemma_put_succeeds(mid, spec, addresses, entered, addresses.len() as int);
}

/// A freshly formatted CP/M disk accepts every file with a valid name that its directory and its
/// blocks can take, where the sectors of the directory and of those blocks are there.
pub proof fn law_cpm_format_accepts(image: ImageView, after: ImageView, name: Seq<char>, data: Seq<u8>)
    requires
        formatting::cpm_formatted(image) == Ok::<ImageView, ErrorView>(after),
        formatting_laws::formattable(image),
        tells_layout(image),
        names::cpm_key(name) is Ok,
        ({
            let spec = specification::identified(after);
            let len = data.len() as int;
            &&& cpm_fits(spec, len)
            &&& has_cpm_blocks(image, spec, spec.directory_blocks + cpm_edit::blocks_needed(spec, len))
        }),
    ensures
        cpm_edit::imported(after, name, data) is Ok,
{
    let spec = specification::identified(after);
    let taken = spec.directory_blocks + cpm_edit::blocks_needed(spec, data.len() as int);
    lemma_fresh_directory(image, after);
    assert forall|x: int| spec.first_sector() <= x < cpm_model::block_start(spec, taken) implies #[trigger] cpm_edit::address(
        after,
        spec,
        x,
    ) is Ok by {
        assert(cpm_edit::address(image, spec, x) is Ok);
        lemma_cpm_address(image, after, spec, x);
    }
    lemma_empty_accepts(after, name, data);
}

}
