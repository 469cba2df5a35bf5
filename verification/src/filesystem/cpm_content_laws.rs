//! Laws of CP/M files: which bytes of the disk a file is made of.

use crate::error::ErrorView;
use crate::filesystem::cpm_edit;
use crate::filesystem::cpm_listing_laws;
use crate::filesystem::cpm_model;
use crate::filesystem::cpm_model::{EntryView, FileKey};
use crate::filesystem::cpm_slot_laws;
use crate::filesystem::header;
use crate::filesystem::header::{FileHeader, HeaderType};
use crate::image::ImageView;
use crate::specification::{DiskSpecFormat, DiskSpecSide, DiskSpecification};
use crate::text;
use vstd::prelude::*;

verus! {

/// The sum of all bytes.
pub open spec fn total_of(s: Seq<u8>) -> int
    decreases s.len(),
{
    if s.len() == 0 {
        0
    } else {
        total_of(s.drop_last()) + s.last()
    }
}

/// The text and the byte that every +3DOS header starts with.
pub open spec fn plus3dos_signature() -> Seq<u8> {
    seq![0x50, 0x4C, 0x55, 0x53, 0x33, 0x44, 0x4F, 0x53, 0x1A]
}

/// Whether a file starts with the 128 bytes of a +3DOS header: the signature, and in the last byte
/// the sum of all others.
pub open spec fn starts_with_plus3dos(all: Seq<u8>) -> bool {
    all.len() >= 128 && all.take(9) == plus3dos_signature() && total_of(all.take(127)) % 256 == all[127]
}

/// Whether a file starts with the 128 bytes of an AMSDOS header: bytes 67 and 68 hold the sum of
/// the 67 bytes before them, which are not all 0.
pub open spec fn starts_with_amsdos(all: Seq<u8>) -> bool {
    all.len() >= 128 && total_of(all.take(67)) == all[67] + 256 * all[68] && total_of(all.take(67)) > 0
}

/// Sums agree.
proof fn lemma_sum(s: Seq<u8>, n: int)
    requires
        0 <= n <= s.len(),
    ensures
        total_of(s.take(n)) == header::byte_sum(s, n),
        total_of(s.take(n)) >= 0,
    decreases n,
{
    if n > 0 {
        lemma_sum(s, n - 1);
        assert(s.take(n).drop_last() =~= s.take(n - 1));
    }
}

/// Headers are recognised by their bytes.
proof fn lemma_recognised(all: Seq<u8>)
    ensures
        header::is_plus3dos(all) == starts_with_plus3dos(all),
        header::is_amsdos(all) == starts_with_amsdos(all),
{
    if all.len() >= 128 {
        lemma_sum(all, 127);
        lemma_sum(all, 67);
        let s = plus3dos_signature();
        let t = all.take(9);
        assert(t[0] == all[0] && t[1] == all[1] && t[2] == all[2] && t[3] == all[3] && t[4] == all[4] && t[5] == all[5]
            && t[6] == all[6] && t[7] == all[7] && t[8] == all[8]);
        if header::is_plus3dos(all) {
            assert(t =~= s);
        }
    }
}

/// Reading a file without its header gives all that is stored where that does not start with a
/// header, and what stands from byte 128 on where it does. Both readings fail on the same names.
pub proof fn law_header_is_left_out(image: ImageView, spec: DiskSpecification, entries: Seq<EntryView>, name: Seq<char>)
    ensures
        match (
            cpm_model::file_content(image, spec, entries, name, true),
            cpm_model::file_content(image, spec, entries, name, false),
        ) {
            (Ok(all), Ok(bare)) => if starts_with_plus3dos(all) || starts_with_amsdos(all) {
                all == all.take(128) + bare
            } else {
                bare == all
            },
            (Err(a), Err(b)) => a == b,
            _ => false,
        },
{
    if let Ok(all) = cpm_model::file_content(image, spec, entries, name, true) {
        lemma_recognised(all);
        if all.len() >= 128 {
            assert(all =~= all.take(128) + all.skip(128));
        }
    }
}

/// What a header says is read from its own bytes: of a +3DOS header the type in byte 15 and the
/// size in bytes 11 to 14, of an AMSDOS header the type in byte 18 and the size in bytes 64 to 66.
/// What looks like both is a +3DOS header, and what looks like neither says nothing.
pub proof fn law_header_is_read(all: Seq<u8>)
    ensures
        starts_with_plus3dos(all) ==> header::parsed_header(all) == (FileHeader {
            header_type: HeaderType::Plus3dos,
            header_size: 128,
            file_type: all[15],
            file_size: (all[11] + 256 * all[12] + 65536 * all[13] + 16777216 * all[14]) as u32,
        }),
        !starts_with_plus3dos(all) && starts_with_amsdos(all) ==> header::parsed_header(all) == (FileHeader {
            header_type: HeaderType::Amsdos,
            header_size: 128,
            file_type: all[18],
            file_size: (all[64] + 256 * all[65] + 65536 * all[66]) as u32,
        }),
        !starts_with_plus3dos(all) && !starts_with_amsdos(all) ==> header::parsed_header(all) == (FileHeader {
            header_type: HeaderType::Absent,
            header_size: 0,
            file_type: 0,
            file_size: 0,
        }),
{
    lemma_recognised(all);
}

/// Whether eight or three bytes hold a name, padded with blanks, whatever their high bits.
pub open spec fn padded_at(dir: Seq<u8>, at: int, length: int, name: Seq<char>) -> bool {
    &&& name.len() <= length
    &&& forall|k: int|
        0 <= k < length ==> #[trigger] dir[at + k] % 128 == (if k < name.len() { name[k] as int } else { 0x20 })
    &&& forall|k: int| 0 <= k < name.len() ==> '!' <= #[trigger] name[k] <= '~'
}

/// Blanks behind a name are cut off.
proof fn lemma_cut_end(s: Seq<char>, n: int)
    requires
        0 <= n <= s.len(),
        forall|k: int| 0 <= k < n ==> '!' <= #[trigger] s[k] <= '~',
        forall|k: int| n <= k < s.len() ==> #[trigger] s[k] == ' ',
    ensures
        text::trim(s) == s.take(n),
    decreases s.len(),
{
    if s.len() > n {
        lemma_cut_end(s.drop_last(), n);
        assert(s.drop_last().take(n) =~= s.take(n));
        assert(s.last() == ' ');
    } else {
        assert(s.take(n) =~= s);
        if n > 0 {
            assert(s.last() == s[n - 1]);
            assert(s[0] >= '!');
        }
    }
}

/// The text of a padded name.
proof fn lemma_padded(dir: Seq<u8>, at: int, length: int, name: Seq<char>, part: Seq<u8>)
    requires
        padded_at(dir, at, length, name),
        part.len() == length,
        forall|k: int| 0 <= k < length ==> #[trigger] part[k] == dir[at + k],
    ensures
        cpm_model::plain_text(part) == name,
{
    let t = Seq::new(part.len(), |i: int| cpm_model::plain_char(part[i]));
    assert forall|k: int| 0 <= k < length implies #[trigger] t[k] == (if k < name.len() { name[k] } else { ' ' }) by {
        assert(part[k] == dir[at + k]);
        if k < name.len() {
            assert('!' <= name[k] <= '~');
        }
    }
    lemma_cut_end(t, name.len() as int);
    assert(t.take(name.len() as int) =~= name);
}

/// The name in a slot is what its bytes 1 to 8 hold, and, if bytes 9 to 11 hold anything, a dot
/// and what they hold; high bits and padding do not count.
pub proof fn law_name_is_stored(dir: Seq<u8>, i: int, base: Seq<char>, ext: Seq<char>)
    requires
        0 <= i < dir.len() / 32,
        dir[32 * i] <= 31 || dir[32 * i] == 0xE5,
        padded_at(dir, 32 * i + 1, 8, base),
        padded_at(dir, 32 * i + 9, 3, ext),
    ensures
        cpm_slot_laws::name_at(dir, i) == (if ext.len() == 0 { base } else { base + seq!['.'] + ext }),
{
    let s = cpm_edit::slot(dir, i);
    let e = cpm_model::entry_of(s, i, true)->Some_0;
    assert(s[0] == dir[32 * i]);
    assert forall|k: int| 0 <= k < 8 implies #[trigger] e.filename[k] == dir[32 * i + 1 + k] by {}
    assert forall|k: int| 0 <= k < 3 implies #[trigger] e.extension[k] == dir[32 * i + 9 + k] by {}
    lemma_padded(dir, 32 * i + 1, 8, base, e.filename);
    lemma_padded(dir, 32 * i + 9, 3, ext, e.extension);
    reveal_strlit(".");
    assert("."@ =~= seq!['.']);
}

/// Logical sectors count along each track by ID number, and logical tracks as the sides of the
/// disk are used: side by side on every track, or one whole side before the other, the second
/// side running back from the last track if it is reversed.
pub proof fn law_logical_sectors(image: ImageView, spec: DiskSpecification, side: int, track: int, k: int, absolute: int)
    requires
        spec.sectors_per_track > 0,
        0 <= k < spec.sectors_per_track,
        0 <= track < spec.tracks_per_side,
        0 <= side < 2,
        absolute == k + spec.sectors_per_track * (match spec.side {
            DiskSpecSide::DoubleAlternate => 2 * track + side,
            DiskSpecSide::DoubleSuccessive => side * spec.tracks_per_side + track,
            DiskSpecSide::DoubleReverse => if side == 0 { track } else { 2 * spec.tracks_per_side - 1 - track },
            _ => track,
        }),
        spec.side == DiskSpecSide::Single ==> side == 0,
        spec.side != DiskSpecSide::Invalid,
        side < image.disks.len(),
        track < image.disks[side].tracks.len(),
        k < image.disks[side].tracks[track].by_id().len(),
    ensures
        cpm_model::sector_at(image, spec, absolute) == Some(image.disks[side].tracks[track].by_id()[k].data),
{
    let spt = spec.sectors_per_track as int;
    let tps = spec.tracks_per_side as int;
    let lt = match spec.side {
        DiskSpecSide::DoubleAlternate => 2 * track + side,
        DiskSpecSide::DoubleSuccessive => side * tps + track,
        DiskSpecSide::DoubleReverse => if side == 0 { track } else { 2 * tps - 1 - track },
        _ => track,
    };
    vstd::arithmetic::mul::lemma_mul_is_commutative(spt, lt);
    vstd::arithmetic::div_mod::lemma_fundamental_div_mod_converse(absolute, spt, lt, k);
    if spec.side == DiskSpecSide::DoubleSuccessive {
        vstd::arithmetic::mul::lemma_mul_is_commutative(side, tps);
        vstd::arithmetic::div_mod::lemma_fundamental_div_mod_converse(lt, tps, side, track);
    } else if spec.side == DiskSpecSide::DoubleReverse {
        if side == 0 {
            vstd::arithmetic::div_mod::lemma_fundamental_div_mod_converse(lt, tps, 0, track);
        } else {
            vstd::arithmetic::div_mod::lemma_fundamental_div_mod_converse(lt, tps, 1, tps - 1 - track);
        }
    }
}

/// Byte `k` of a logical sector; sectors that are missing read as zeros.
pub open spec fn disk_byte(image: ImageView, spec: DiskSpecification, absolute: int, k: int) -> u8 {
    match cpm_model::sector_at(image, spec, absolute) {
        Some(d) => d[k],
        None => 0,
    }
}

/// Whether all logical sectors that are there have the size that the specification says.
pub open spec fn even(image: ImageView, spec: DiskSpecification) -> bool {
    forall|x: int| #[trigger] cpm_model::sector_at(image, spec, x) matches Some(d) ==> d.len() == spec.sector_size
}

/// The sectors of a block, byte by byte.
proof fn lemma_sectors(image: ImageView, spec: DiskSpecification, start: int, n: int)
    requires
        n >= 0,
        spec.sector_size > 0,
        even(image, spec),
    ensures
        cpm_model::sectors_to(image, spec, start, n).len() == n * spec.sector_size,
        forall|p: int|
            0 <= p < n * spec.sector_size ==> #[trigger] cpm_model::sectors_to(image, spec, start, n)[p] == disk_byte(
                image,
                spec,
                start + p / (spec.sector_size as int),
                p % (spec.sector_size as int),
            ),
    decreases n,
{
    let ss = spec.sector_size as int;
    if n > 0 {
        lemma_sectors(image, spec, start, n - 1);
        let rest = cpm_model::sectors_to(image, spec, start, n - 1);
        let all = cpm_model::sectors_to(image, spec, start, n);
        assert(n * ss == (n - 1) * ss + ss) by (nonlinear_arith);
        assert forall|p: int| 0 <= p < n * ss implies #[trigger] all[p] == disk_byte(image, spec, start + p / ss, p % ss) by {
            if p < (n - 1) * ss {
                assert(all[p] == rest[p]);
            } else {
                let k = p - (n - 1) * ss;
                vstd::arithmetic::div_mod::lemma_fundamental_div_mod_converse(p, ss, n - 1, k);
            }
        }
    } else {
        assert(n * ss == 0) by (nonlinear_arith)
            requires
                n == 0,
        ;
    }
}

/// The blocks of a file, byte by byte.
proof fn lemma_block_data(image: ImageView, spec: DiskSpecification, blocks: Seq<u16>, n: int)
    requires
        0 <= n <= blocks.len(),
        spec.sector_size > 0,
        cpm_model::sectors_per_block(spec) > 0,
        even(image, spec),
        forall|k: int| 0 <= k < blocks.len() ==> #[trigger] blocks[k] != 0,
    ensures
        ({
            let ss = spec.sector_size as int;
            let spb = cpm_model::sectors_per_block(spec);
            let bb = spb * ss;
            &&& cpm_model::block_data_to(image, spec, blocks, n).len() == n * bb
            &&& forall|p: int|
                0 <= p < n * bb ==> #[trigger] cpm_model::block_data_to(image, spec, blocks, n)[p] == disk_byte(
                    image,
                    spec,
                    spec.first_sector() + blocks[p / bb] * spb + (p % bb) / ss,
                    (p % bb) % ss,
                )
        }),
    decreases n,
{
    let ss = spec.sector_size as int;
    let spb = cpm_model::sectors_per_block(spec);
    let bb = spb * ss;
    assert(bb > 0) by (nonlinear_arith)
        requires
            spb > 0,
            ss > 0,
            bb == spb * ss,
    ;
    if n > 0 {
        lemma_block_data(image, spec, blocks, n - 1);
        let rest = cpm_model::block_data_to(image, spec, blocks, n - 1);
        let all = cpm_model::block_data_to(image, spec, blocks, n);
        let b = blocks[n - 1];
        assert(b != 0);
        let start = cpm_model::block_start(spec, b as int);
        lemma_sectors(image, spec, start, spb);
        assert(n * bb == (n - 1) * bb + bb) by (nonlinear_arith);
        assert forall|p: int| 0 <= p < n * bb implies #[trigger] all[p] == disk_byte(
            image,
            spec,
            spec.first_sector() + blocks[p / bb] * spb + (p % bb) / ss,
            (p % bb) % ss,
        ) by {
            if p < (n - 1) * bb {
                assert(all[p] == rest[p]);
            } else {
                let k = p - (n - 1) * bb;
                vstd::arithmetic::div_mod::lemma_fundamental_div_mod_converse(p, bb, n - 1, k);
                assert(all[p] == cpm_model::sectors_to(image, spec, start, spb)[k]);
            }
        }
    } else {
        assert(n * bb == 0) by (nonlinear_arith)
            requires
                n == 0,
        ;
    }
}

/// The blocks of several lists, one behind the other.
proof fn lemma_block_data_joins(image: ImageView, spec: DiskSpecification, a: Seq<u16>, b: Seq<u16>, n: int)
    requires
        0 <= n <= b.len(),
    ensures
        cpm_model::block_data_to(image, spec, a + b, a.len() + n) == cpm_model::block_data_to(image, spec, a, a.len() as int)
            + cpm_model::block_data_to(image, spec, b, n),
    decreases n,
{
    let whole = cpm_model::block_data_to(image, spec, a, a.len() as int);
    if n > 0 {
        lemma_block_data_joins(image, spec, a, b, n - 1);
        assert((a + b)[a.len() + n - 1] == b[n - 1]);
        let rest = cpm_model::block_data_to(image, spec, b, n - 1);
        let more = cpm_model::block_data_to(image, spec, b, n);
        assert(cpm_model::block_data_to(image, spec, a + b, a.len() + n) =~= whole + more);
    } else {
        lemma_block_data_prefix(image, spec, a, b, a.len() as int);
        assert(whole + cpm_model::block_data_to(image, spec, b, n) =~= whole);
    }
}

proof fn lemma_block_data_prefix(image: ImageView, spec: DiskSpecification, a: Seq<u16>, b: Seq<u16>, n: int)
    requires
        0 <= n <= a.len(),
    ensures
        cpm_model::block_data_to(image, spec, a + b, n) == cpm_model::block_data_to(image, spec, a, n),
    decreases n,
{
    if n > 0 {
        lemma_block_data_prefix(image, spec, a, b, n - 1);
        assert((a + b)[n - 1] == a[n - 1]);
    }
}

/// The data of a file is that of all its blocks.
proof fn lemma_extent_data(image: ImageView, spec: DiskSpecification, ext: Seq<EntryView>, n: int)
    requires
        0 <= n <= ext.len(),
    ensures
        ({
            let blocks = cpm_model::blocks_to(ext, spec, n);
            cpm_model::extent_data_to(image, spec, ext, n) == cpm_model::block_data_to(image, spec, blocks, blocks.len() as int)
        }),
    decreases n,
{
    if n > 0 {
        lemma_extent_data(image, spec, ext, n - 1);
        let a = cpm_model::blocks_to(ext, spec, n - 1);
        let b = ext[n - 1].file_blocks(spec);
        lemma_block_data_joins(image, spec, a, b, b.len() as int);
    }
}

/// The blocks of a file are not 0.
proof fn lemma_blocks_named(dir: Seq<u8>, w: bool, i: int, n: int)
    ensures
        forall|k: int| 0 <= k < cpm_slot_laws::blocks_in(dir, w, i, n).len() ==> #[trigger] cpm_slot_laws::blocks_in(
            dir,
            w,
            i,
            n,
        )[k] != 0,
    decreases n,
{
    if n > 0 {
        lemma_blocks_named(dir, w, i, n - 1);
        let rest = cpm_slot_laws::blocks_in(dir, w, i, n - 1);
        let all = cpm_slot_laws::blocks_in(dir, w, i, n);
        assert forall|k: int| 0 <= k < all.len() implies #[trigger] all[k] != 0 by {
            if k < rest.len() {
                assert(all[k] == rest[k]);
            }
        }
    }
}

proof fn lemma_slot_blocks_named(dir: Seq<u8>, w: bool, slots: Seq<int>, n: int)
    ensures
        forall|k: int|
            0 <= k < cpm_slot_laws::blocks_of_slots(dir, w, slots, n).len() ==> #[trigger] cpm_slot_laws::blocks_of_slots(
                dir,
                w,
                slots,
                n,
            )[k] != 0,
    decreases n,
{
    if n > 0 {
        lemma_slot_blocks_named(dir, w, slots, n - 1);
        lemma_blocks_named(dir, w, slots[n - 1], cpm_slot_laws::places(w));
        let rest = cpm_slot_laws::blocks_of_slots(dir, w, slots, n - 1);
        let more = cpm_slot_laws::blocks_in(dir, w, slots[n - 1], cpm_slot_laws::places(w));
        let all = cpm_slot_laws::blocks_of_slots(dir, w, slots, n);
        assert forall|k: int| 0 <= k < all.len() implies #[trigger] all[k] != 0 by {
            if k < rest.len() {
                assert(all[k] == rest[k]);
            } else {
                assert(all[k] == more[k - rest.len()]);
            }
        }
    }
}

/// The content of a file is that of the blocks that its slots name, in the order of the extents,
/// up to the size that the slots tell. Block b starts with the sector that comes b whole blocks
/// behind the reserved tracks. The file is read under its name with its user number in front.
pub proof fn law_content_is_in_blocks(image: ImageView, spec: DiskSpecification, user: u8, name: Seq<char>, i: int) -> (slots: Seq<int>)
    requires
        spec.format != DiskSpecFormat::Unknown,
        0 < spec.sector_size <= spec.block_bytes(),
        even(image, spec),
        cpm_slot_laws::slot_of(cpm_model::directory_bytes(image, spec), spec, false, user, name, i),
    ensures
        ({
            let dir = cpm_model::directory_bytes(image, spec);
            let ss = spec.sector_size as int;
            let spb = spec.block_bytes() / ss;
            let bb = spb * ss;
            let n = slots.len() as int;
            let blocks = cpm_slot_laws::blocks_of_slots(dir, cpm_slot_laws::wide(spec), slots, n);
            let size = 128 * cpm_slot_laws::records_in(dir, slots, n) - cpm_slot_laws::missing_in_last(dir, slots.last());
            &&& n > 0
            &&& cpm_slot_laws::file_slots(dir, spec, false, user, name, slots)
            &&& cpm_model::file_content(
                image,
                spec,
                cpm_model::directory(image, spec, false),
                cpm_listing_laws::addressed(user, name),
                true,
            ) matches Ok(content) && {
                &&& content.len() == (if size < blocks.len() * bb { size } else { blocks.len() * bb })
                &&& forall|p: int|
                    0 <= p < content.len() ==> #[trigger] content[p] == disk_byte(
                        image,
                        spec,
                        spec.reserved_tracks * spec.sectors_per_track + blocks[p / bb] * spb + (p % bb) / ss,
                        (p % bb) % ss,
                    )
            }
        }),
{
    let dir = cpm_model::directory_bytes(image, spec);
    let entries = cpm_model::directory(image, spec, false);
    let key = FileKey { user, name };
    let w = cpm_slot_laws::wide(spec);
    let ss = spec.sector_size as int;
    let spb = spec.block_bytes() / ss;
    let bb = spb * ss;
    assert(spb > 0) by {
        vstd::arithmetic::div_mod::lemma_div_non_zero(spec.block_bytes(), ss);
    }
    assert(bb > 0) by (nonlinear_arith)
        requires
            spb > 0,
            ss > 0,
            bb == spb * ss,
    ;
    let slots = cpm_slot_laws::lemma_slots(dir, spec, false, key);
    let n = slots.len() as int;
    assert(slots.contains(i));
    let ext = cpm_model::extents(entries, key);
    let blocks = cpm_model::blocks_to(ext, spec, n);
    cpm_slot_laws::lemma_blocks(dir, spec, ext, slots, n);
    cpm_slot_laws::lemma_size(dir, ext, slots, n);
    cpm_listing_laws::lemma_size_positive(ext, n);
    lemma_slot_blocks_named(dir, w, slots, n);
    let named = cpm_slot_laws::blocks_of_slots(dir, w, slots, n);
    assert(cpm_slot_laws::as_ints(blocks).len() == blocks.len());
    assert forall|k: int| 0 <= k < blocks.len() implies #[trigger] blocks[k] != 0 && blocks[k] == named[k] by {
        assert(cpm_slot_laws::as_ints(blocks)[k] == named[k]);
    }
    lemma_extent_data(image, spec, ext, n);
    lemma_block_data(image, spec, blocks, blocks.len() as int);
    cpm_listing_laws::lemma_addressed(user, name);
    let content = cpm_model::raw_file(image, spec, ext);
    let all = cpm_model::extent_data_to(image, spec, ext, n);
    assert forall|p: int| 0 <= p < content.len() implies #[trigger] content[p] == disk_byte(
        image,
        spec,
        spec.reserved_tracks * spec.sectors_per_track + named[p / bb] * spb + (p % bb) / ss,
        (p % bb) % ss,
    ) by {
        assert(content[p] == all[p]);
        assert(0 <= p / bb < blocks.len()) by {
            vstd::arithmetic::div_mod::lemma_div_pos_is_pos(p, bb);
            vstd::arithmetic::mul::lemma_mul_is_commutative(blocks.len() as int, bb);
            vstd::arithmetic::div_mod::lemma_multiply_divide_lt(p, bb, blocks.len() as int);
        }
        assert(blocks[p / bb] == named[p / bb]);
    }
    slots
}

/// The blocks that the slots in use among the first `n` name.
pub open spec fn named_to(dir: Seq<u8>, spec: DiskSpecification, n: int) -> int
    decreases n,
{
    if n <= 0 {
        0
    } else if cpm_slot_laws::in_use(dir, spec, false, n - 1) {
        named_to(dir, spec, n - 1) + cpm_slot_laws::blocks_in(
            dir,
            cpm_slot_laws::wide(spec),
            n - 1,
            cpm_slot_laws::places(cpm_slot_laws::wide(spec)),
        ).len()
    } else {
        named_to(dir, spec, n - 1)
    }
}

proof fn lemma_used(dir: Seq<u8>, spec: DiskSpecification, n: int)
    requires
        spec.format != DiskSpecFormat::Unknown,
        0 <= n <= dir.len() / 32,
    ensures
        ({
            let entries = cpm_model::entries_to(dir, spec, false, n);
            cpm_model::used_to(entries, spec, entries.len() as int) == named_to(dir, spec, n)
        }),
    decreases n,
{
    if n > 0 {
        lemma_used(dir, spec, n - 1);
        let rest = cpm_model::entries_to(dir, spec, false, n - 1);
        assert(dir.subrange(32 * (n - 1), 32 * n) =~= cpm_edit::slot(dir, n - 1));
        cpm_slot_laws::lemma_from_slot(dir, n - 1, false);
        if let Some(e) = cpm_model::entry_of(cpm_edit::slot(dir, n - 1), n - 1, false) {
            cpm_slot_laws::lemma_valid(dir, spec, e);
            assert(cpm_slot_laws::as_ints(e.blocks(spec.allocation_size)).len() == e.blocks(spec.allocation_size).len());
            lemma_used_prefix(rest, e, spec, rest.len() as int);
        }
    }
}

proof fn lemma_used_prefix(entries: Seq<EntryView>, e: EntryView, spec: DiskSpecification, n: int)
    requires
        0 <= n <= entries.len(),
    ensures
        cpm_model::used_to(entries.push(e), spec, n) == cpm_model::used_to(entries, spec, n),
    decreases n,
{
    if n > 0 {
        lemma_used_prefix(entries, e, spec, n - 1);
    }
}

/// The free blocks are those that neither a slot in use names nor the directory fills.
pub proof fn law_free_blocks_are_unnamed(image: ImageView, spec: DiskSpecification)
    requires
        spec.format != DiskSpecFormat::Unknown,
    ensures
        ({
            let dir = cpm_model::directory_bytes(image, spec);
            let left = spec.blocks() - named_to(dir, spec, dir.len() as int / 32) - spec.directory_blocks;
            cpm_model::free_blocks(spec, cpm_model::directory(image, spec, false)) == (if left < 0 { 0 } else { left })
        }),
{
    let dir = cpm_model::directory_bytes(image, spec);
    lemma_used(dir, spec, dir.len() as int / 32);
}

/// The directory is what lies behind the reserved tracks, up to 32 bytes for each entry.
pub proof fn law_directory_bytes(image: ImageView, spec: DiskSpecification, p: int)
    requires
        spec.sector_size > 0,
        spec.first_sector() <= spec.last_sector(),
        forall|x: int|
            spec.first_sector() <= x < spec.last_sector() ==> (#[trigger] cpm_model::sector_at(image, spec, x) matches Some(d)
                && d.len() == spec.sector_size),
        0 <= p < (spec.last_sector() - spec.first_sector()) * spec.sector_size,
        p < spec.directory_blocks * spec.block_bytes() / 32 * 32,
    ensures
        p < cpm_model::directory_bytes(image, spec).len() <= spec.directory_blocks * spec.block_bytes(),
        cpm_model::directory_bytes(image, spec)[p] == disk_byte(
            image,
            spec,
            spec.reserved_tracks * spec.sectors_per_track + p / (spec.sector_size as int),
            p % (spec.sector_size as int),
        ),
{
    lemma_span_bytes(image, spec, spec.first_sector(), spec.last_sector());
}

proof fn lemma_span_bytes(image: ImageView, spec: DiskSpecification, from: int, to: int)
    requires
        from <= to,
        spec.sector_size > 0,
        forall|x: int|
            from <= x < to ==> (#[trigger] cpm_model::sector_at(image, spec, x) matches Some(d) && d.len() == spec.sector_size),
    ensures
        cpm_model::span(image, spec, from, to).len() == (to - from) * spec.sector_size,
        forall|p: int|
            0 <= p < (to - from) * spec.sector_size ==> #[trigger] cpm_model::span(image, spec, from, to)[p] == disk_byte(
                image,
                spec,
                from + p / (spec.sector_size as int),
                p % (spec.sector_size as int),
            ),
    decreases to - from,
{
    let ss = spec.sector_size as int;
    let n = to - from;
    if n > 0 {
        lemma_span_bytes(image, spec, from, to - 1);
        let rest = cpm_model::span(image, spec, from, to - 1);
        let all = cpm_model::span(image, spec, from, to);
        assert(cpm_model::sector_at(image, spec, to - 1) is Some);
        assert(n * ss == (n - 1) * ss + ss) by (nonlinear_arith);
        assert forall|p: int| 0 <= p < n * ss implies #[trigger] all[p] == disk_byte(image, spec, from + p / ss, p % ss) by {
            if p < (n - 1) * ss {
                assert(all[p] == rest[p]);
            } else {
                let k = p - (n - 1) * ss;
                vstd::arithmetic::div_mod::lemma_fundamental_div_mod_converse(p, ss, n - 1, k);
            }
        }
    } else {
        assert(n * ss == 0) by (nonlinear_arith)
            requires
                n == 0,
        ;
    }
}

/// The first block of a file.
pub open spec fn first_block(image: ImageView, spec: DiskSpecification, b: int) -> Seq<u8> {
    let ss = spec.sector_size as int;
    Seq::new(
        (spec.block_bytes() / ss * ss) as nat,
        |p: int|
            disk_byte(
                image,
                spec,
                spec.reserved_tracks * spec.sectors_per_track + b * (spec.block_bytes() / ss) + p / ss,
                p % ss,
            ),
    )
}

proof fn lemma_first_block(image: ImageView, spec: DiskSpecification, blocks: Seq<u16>)
    requires
        blocks.len() > 0,
        blocks[0] != 0,
        0 < spec.sector_size <= spec.block_bytes(),
        even(image, spec),
    ensures
        cpm_model::block_data_to(image, spec, blocks, 1) == first_block(image, spec, blocks[0] as int),
{
    let ss = spec.sector_size as int;
    let spb = spec.block_bytes() / ss;
    vstd::arithmetic::div_mod::lemma_div_non_zero(spec.block_bytes(), ss);
    let start = cpm_model::block_start(spec, blocks[0] as int);
    lemma_sectors(image, spec, start, spb);
    let s = cpm_model::sectors_to(image, spec, start, spb);
    assert(cpm_model::block_data_to(image, spec, blocks, 0) =~= Seq::<u8>::empty());
    assert(cpm_model::block_data_to(image, spec, blocks, 1) =~= s);
    assert(s =~= first_block(image, spec, blocks[0] as int));
}

/// The header in a line of a detailed listing is the one that the first block of the file starts with; a file
/// without blocks has none.
pub proof fn law_listed_header_is_in_first_block(image: ImageView, spec: DiskSpecification, deleted: bool, i: int) -> (slots: Seq<int>)
    requires
        spec.format != DiskSpecFormat::Unknown,
        0 < spec.sector_size <= spec.block_bytes(),
        even(image, spec),
        0 <= i < cpm_model::extended_listing(image, spec, cpm_model::directory(image, spec, deleted)).len(),
    ensures
        ({
            let dir = cpm_model::directory_bytes(image, spec);
            let line = cpm_model::extended_listing(image, spec, cpm_model::directory(image, spec, deleted))[i];
            let blocks = cpm_slot_laws::blocks_of_slots(dir, cpm_slot_laws::wide(spec), slots, slots.len() as int);
            &&& cpm_slot_laws::file_slots(dir, spec, deleted, line.user, line.name, slots)
            &&& blocks.len() > 0 ==> line.header == header::parsed_header(first_block(image, spec, blocks[0]))
            &&& blocks.len() == 0 ==> line.header.header_type == HeaderType::Absent && line.header.header_size == 0
                && line.header.file_type == 0 && line.header.file_size == 0
        }),
{
    let dir = cpm_model::directory_bytes(image, spec);
    let entries = cpm_model::directory(image, spec, deleted);
    let key = cpm_model::sorted_keys(entries)[i];
    let ext = cpm_model::extents(entries, key);
    let w = cpm_slot_laws::wide(spec);
    cpm_listing_laws::lemma_line(entries, i);
    let slots = cpm_slot_laws::lemma_slots(dir, spec, deleted, key);
    let n = slots.len() as int;
    cpm_slot_laws::lemma_blocks(dir, spec, ext, slots, n);
    lemma_slot_blocks_named(dir, w, slots, n);
    let blocks = cpm_model::blocks_to(ext, spec, n);
    let named = cpm_slot_laws::blocks_of_slots(dir, w, slots, n);
    assert(cpm_slot_laws::as_ints(blocks).len() == blocks.len());
    if blocks.len() > 0 {
        assert(cpm_slot_laws::as_ints(blocks)[0] == named[0]);
        assert(blocks[0] == named[0] && named[0] != 0);
        lemma_first_block(image, spec, blocks);
    }
    slots
}

/// A file without a slot in use is not found.
pub proof fn law_missing_files_are_not_found(image: ImageView, spec: DiskSpecification, user: u8, name: Seq<char>, include_header: bool)
    requires
        user <= 31,
        forall|i: int| !#[trigger] cpm_slot_laws::slot_of(cpm_model::directory_bytes(image, spec), spec, false, user, name, i),
    ensures
        ({
            let read_name = cpm_listing_laws::addressed(user, name);
            cpm_model::file_content(image, spec, cpm_model::directory(image, spec, false), read_name, include_header) == Err::<
                Seq<u8>,
                ErrorView,
            >(ErrorView::FileNotFound(read_name))
        }),
{
    let dir = cpm_model::directory_bytes(image, spec);
    let slots = cpm_slot_laws::lemma_slots(dir, spec, false, FileKey { user, name });
    cpm_listing_laws::lemma_addressed(user, name);
    if slots.len() > 0 {
        assert(cpm_slot_laws::slot_of(dir, spec, false, user, name, slots[0]));
    }
}

}
