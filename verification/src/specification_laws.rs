//! Laws of disk specifications: what the first sector of a disk tells of its layout.

use crate::format::SideMode;
use crate::image::ImageView;
use crate::specification;
use crate::specification::{AllocationSize, DiskSpecFormat, DiskSpecSide, DiskSpecification};
use vstd::prelude::*;

verus! {

/// 128, doubled `n` times.
pub open spec fn doubled(n: int) -> int
    decreases n,
{
    if n <= 0 { 128 } else { 2 * doubled(n - 1) }
}

/// Whether the first track of an image can be read for its layout.
pub open spec fn readable(image: ImageView) -> bool {
    &&& image.disks.len() > 0
    &&& 0 < image.disks[0].tracks.len() <= 255
    &&& 0 < image.disks[0].tracks[0].sectors.len() <= 255
    &&& image.disks[0].tracks[0].by_id()[0].data.len() <= 65535
}

/// Whether data starts with a boot record: what it says of sides, tracks, sectors, sizes and blocks is
/// possible.
pub open spec fn tells_layout(data: Seq<u8>) -> bool {
    &&& data.len() >= 10
    &&& data[0] <= 3 && data[1] % 128 <= 2 && data[2] > 0 && data[3] > 0 && data[4] <= 7 && data[6] <= 7 && data[7] > 0
}

/// Whether a specification has the tracks, sectors and sizes of the first track.
pub open spec fn as_found(image: ImageView, spec: DiskSpecification) -> bool {
    let t = image.disks[0].tracks[0];
    &&& spec.tracks_per_side == image.disks[0].tracks.len()
    &&& spec.sectors_per_track == t.sectors.len()
    &&& spec.sector_size == t.by_id()[0].data.len()
    &&& spec.fdc_sector_size == t.by_id()[0].id.size_code
    &&& spec.gap_read_write == 42 && spec.gap_format == 82
}

/// A disk is recognised by the sector with the lowest ID number on its first track. Numbers from 0xC1 on
/// are of Amstrad data disks, without reserved tracks, numbers from 0x41 on of system disks, with
/// two. Otherwise a boot record tells the layout. Without one, a disk with two sides of 80
/// tracks and ten sectors of 512 bytes from 1 on is an MGT disk, another with two sides has larger
/// blocks and a larger directory, and one with one side is like those of the Spectrum +3.
pub proof fn law_layout_is_recognised(image: ImageView)
    requires
        readable(image),
    ensures
        ({
            let spec = specification::identified(image);
            let first = image.disks[0].tracks[0].by_id()[0];
            let id = first.id.sector;
            let d = first.data;
            let boot = id < 0x41 && tells_layout(d);
            let two = id < 0x41 && !boot && image.disks.len() == 2;
            let mgt = two && image.disks[0].tracks.len() == 80 && image.disks[0].tracks[0].sectors.len() == 10 && d.len() == 512
                && id == 1;
            &&& !boot ==> as_found(image, spec)
            &&& id >= 0xC1 ==> spec.format == DiskSpecFormat::AmstradData && spec.reserved_tracks == 0
            &&& 0x41 <= id < 0xC1 ==> spec.format == DiskSpecFormat::AmstradSystem && spec.reserved_tracks == 2
            &&& boot ==> {
                &&& spec.format == DiskSpecFormat::BootRecord
                &&& spec.side == (if d[1] % 128 == 0 {
                    DiskSpecSide::Single
                } else if d[1] % 128 == 1 {
                    DiskSpecSide::DoubleAlternate
                } else {
                    DiskSpecSide::DoubleSuccessive
                })
                &&& spec.tracks_per_side == d[2] && spec.sectors_per_track == d[3] && spec.fdc_sector_size == d[4]
                &&& spec.sector_size == doubled(d[4] as int)
                &&& spec.reserved_tracks == d[5] && spec.block_shift == d[6] && spec.directory_blocks == d[7]
                    && spec.gap_read_write == d[8] && spec.gap_format == d[9]
            }
            &&& mgt ==> spec.format == DiskSpecFormat::MgtSamCoupe && spec.side == DiskSpecSide::DoubleSuccessive
            &&& two && !mgt ==> {
                &&& spec.format == DiskSpecFormat::Plus3
                &&& spec.reserved_tracks == 1 && spec.block_shift == 4 && spec.directory_blocks == 4
                &&& spec.side == (match image.spec.side_mode {
                    SideMode::SingleSide => DiskSpecSide::Single,
                    SideMode::Alternate => DiskSpecSide::DoubleAlternate,
                    SideMode::Successive => DiskSpecSide::DoubleSuccessive,
                })
            }
            &&& id < 0x41 && !boot && !two ==> spec.format == DiskSpecFormat::Plus3 && spec.reserved_tracks == 1
            &&& !boot && !two ==> spec.side == DiskSpecSide::Single && spec.block_shift == 3 && spec.directory_blocks == 2
            &&& spec.allocation_size == (if spec.blocks() <= 256 { AllocationSize::Byte } else { AllocationSize::Word })
        }),
{
    reveal_with_fuel(doubled, 9);
    let t = image.disks[0].tracks[0];
    assert(image.track(0, 0) == Some(t));
    crate::order::lemma_order_permutes(crate::order::by_key(t.ids()), t.ids().len() as int);
}

/// A disk has as many blocks as fit whole behind its reserved tracks, on all its sides; a block has
/// 128 bytes, doubled as often as its shift says. The directory has an entry for each 32 bytes of
/// its blocks.
pub proof fn law_blocks_fill_the_disk(spec: DiskSpecification, sides: int)
    requires
        spec.format != DiskSpecFormat::Unknown,
        spec.block_shift <= 7,
        sides == (if spec.side == DiskSpecSide::Single { 1int } else { 2 }),
        spec.side != DiskSpecSide::Invalid,
        spec.reserved_tracks < spec.tracks_per_side * sides,
    ensures
        spec.block_bytes() == doubled(spec.block_shift as int),
        ({
            let room = (spec.tracks_per_side * sides - spec.reserved_tracks) * spec.sectors_per_track * spec.sector_size;
            let bb = spec.block_bytes();
            &&& spec.blocks() <= 65535
            &&& spec.blocks() * bb <= room
            &&& spec.blocks() < 65535 ==> room < spec.blocks() * bb + bb
        }),
        spec.entries() == spec.directory_blocks * (spec.block_bytes() / 32),
{
    reveal_with_fuel(doubled, 9);
    let bb = spec.block_bytes();
    assert(spec.tracks() == spec.tracks_per_side * sides);
    let a = spec.tracks() - spec.reserved_tracks;
    let room = a * spec.sectors_per_track * spec.sector_size;
    let n = room / bb;
    vstd::arithmetic::div_mod::lemma_fundamental_div_mod(room, bb);
    vstd::arithmetic::div_mod::lemma_mod_bound(room, bb);
    assert(bb * n == n * bb) by (nonlinear_arith);
    if n > 65535 {
        assert(65535 * bb <= n * bb) by (nonlinear_arith)
            requires
                n > 65535,
                bb > 0,
        ;
    }
    let q = bb / 32;
    assert(bb == 32 * q);
    let d = spec.directory_blocks as int;
    assert(d * (32 * q) == 32 * (d * q)) by (nonlinear_arith);
    assert((32 * (d * q)) / 32 == d * q);
}

}
