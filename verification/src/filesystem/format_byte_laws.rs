//! Laws of freshly formatted disks, byte by byte.

use crate::error::ErrorView;
use crate::filesystem::cpm_edit;
use crate::filesystem::edit;
use crate::filesystem::formatting;
use crate::filesystem::formatting_laws;
use crate::filesystem::mgt_edit;
use crate::filesystem::trdos_edit;
use crate::format::{DiskImageFormat, FileSystemType, SideMode};
use crate::image::laws;
use crate::image::ImageView;
use crate::specification;
use crate::specification::{DiskSpecFormat, DiskSpecSide};
use vstd::prelude::*;

verus! {

/// Whether data has the given size and holds one byte throughout.
pub open spec fn full_of(data: Seq<u8>, size: int, b: u8) -> bool {
    data.len() == size && forall|k: int| 0 <= k < size ==> #[trigger] data[k] == b
}

/// A freshly formatted MGT disk holds zeros throughout. Such a disk has two sides of 80 tracks,
/// with ten sectors of 512 bytes that count from 1.
pub proof fn law_mgt_format_clears(image: ImageView, after: ImageView, side: u8, track: u8, id: u8)
    requires
        formatting::mgt_formatted(image) == Ok::<ImageView, ErrorView>(after),
    ensures
        image.disks.len() == 2 && image.spec.num_tracks == 80 && image.spec.sectors_per_track == 10 && image.spec.sector_size
            == 512 && image.spec.first_sector_id == 1,
        image.read(side, track, id) is Ok <==> after.read(side, track, id) is Ok,
        after.read(side, track, id) matches Ok(data) ==> full_of(data, 512, 0),
{
    formatting_laws::law_fill_erases(image, 512, 0, after);
    laws::lemma_same_layout_reads(image, after, side, track, id);
    if let Ok(data) = after.read(side, track, id) {
        assert(data == formatting::filler(512, 0));
    }
}

/// A freshly formatted TR-DOS disk holds zeros throughout, but for sector 9 of track 0: that says that free
/// space begins with the first sector of track 1 and takes all of the disk behind track 0, that
/// there are no files, and what type the disk is of (by its tracks and sides).
pub proof fn law_trdos_format_writes(image: ImageView, after: ImageView, side: u8, track: u8, id: u8)
    requires
        formatting::trdos_formatted(image) == Ok::<ImageView, ErrorView>(after),
    ensures
        image.spec.num_tracks == 40 || image.spec.num_tracks == 80,
        image.spec.num_sides == image.disks.len() && (image.disks.len() == 1 || image.disks.len() == 2),
        image.spec.sectors_per_track == 16 && image.spec.sector_size == 256 && image.spec.first_sector_id == 1,
        image.read(side, track, id) is Ok <==> after.read(side, track, id) is Ok,
        (side, track, id) != (0u8, 0u8, 9u8) && after.read(side, track, id) is Ok ==> full_of(
            after.read(side, track, id)->Ok_0,
            256,
            0,
        ),
        after.read(0, 0, 9) matches Ok(data) && {
            &&& data.len() == 256
            &&& data[225] == 0
            &&& data[226] == 1
            &&& data[227] == (if image.spec.num_tracks == 80 && image.spec.num_sides == 2 {
                0x16int
            } else if image.spec.num_tracks == 80 {
                0x17
            } else if image.spec.num_sides == 1 {
                0x18
            } else {
                0x19
            })
            &&& data[228] == 0
            &&& data[229] + 256 * data[230] == 16 * (image.spec.num_tracks * image.spec.num_sides) - 16
            &&& data[231] == 0x10
            &&& forall|k: int|
                0 <= k < 256 && !(226 <= k <= 227) && !(229 <= k <= 231) ==> #[trigger] data[k] == 0
        },
{
    let mid = formatting::filled(image, 256, 0)->Ok_0;
    let catalog = formatting::empty_catalog(image.spec);
    formatting_laws::law_fill_erases(image, 256, 0, mid);
    laws::law_read_after_write(mid, after, 0, 0, 9, catalog);
    laws::law_write_keeps_layout(mid, after, 0, 0, 9, catalog);
    laws::lemma_same_layout_chain(image, mid, after);
    laws::lemma_same_layout_reads(image, after, side, track, id);
    if (side, track, id) != (0u8, 0u8, 9u8) {
        laws::law_write_leaves_others(mid, after, 0, 0, 9, catalog, side, track, id);
        if let Ok(data) = after.read(side, track, id) {
            assert(data == formatting::filler(256, 0));
        }
    }
    let tracks = image.spec.num_tracks as int;
    let sides = image.spec.num_sides as int;
    assert(tracks * sides == 40 || tracks * sides == 80 || tracks * sides == 160) by (nonlinear_arith)
        requires
            tracks == 40 || tracks == 80,
            sides == 1 || sides == 2,
    ;
}

/// The boot record of a freshly formatted CP/M disk tells its layout in its first ten bytes, and
/// holds the filler byte behind them. Disks whose sectors do not count from 1 get none.
pub proof fn law_boot_record_tells_layout(image: ImageView, after: ImageView)
    requires
        formatting::cpm_formatted(image) == Ok::<ImageView, ErrorView>(after),
        image.spec.first_sector_id == 1,
    ensures
        after.read(0, 0, 1) matches Ok(data) && {
            let spec = formatting::cpm_layout(image);
            &&& data.len() == spec.sector_size
            &&& data.len() >= 10 ==> {
                &&& data[0] == 0
                &&& data[1] == (match image.spec.side_mode {
                    SideMode::SingleSide => 0u8,
                    SideMode::Alternate => 1u8,
                    SideMode::Successive => 2u8,
                })
                &&& data[2] == image.spec.num_tracks
                &&& data[3] == image.spec.sectors_per_track
                &&& data[4] == spec.fdc_sector_size
                &&& data[5] == spec.reserved_tracks
                &&& data[6] == spec.block_shift
                &&& data[7] == spec.directory_blocks
                &&& data[8] == spec.gap_read_write
                &&& data[9] == spec.gap_format
            }
            &&& forall|k: int| 10 <= k < data.len() ==> #[trigger] data[k] == image.spec.filler_byte
        },
{
    let spec = formatting::cpm_layout(image);
    let boot = formatting::boot_bytes(spec, image.spec.side_mode, image.spec.filler_byte);
    let mid = formatting::cpm_emptied(image)->Ok_0;
    laws::law_read_after_write(mid, after, 0, 0, 1, boot);
}

/// Every sector of a freshly formatted CP/M disk, but for its boot record, holds the filler byte
/// of the image or 0xE5 throughout.
pub proof fn law_cpm_format_fills(image: ImageView, after: ImageView, side: u8, track: u8, id: u8)
    requires
        formatting::cpm_formatted(image) == Ok::<ImageView, ErrorView>(after),
        after.read(side, track, id) is Ok,
        (side, track, id) != (0u8, 0u8, 1u8) || image.spec.first_sector_id != 1,
    ensures
        ({
            let data = after.read(side, track, id)->Ok_0;
            let size = formatting::cpm_layout(image).sector_size as int;
            full_of(data, size, image.spec.filler_byte) || full_of(data, size, 0xE5)
        }),
{
    formatting_laws::law_cpm_format_erases(image, after);
    let data = after.read(side, track, id)->Ok_0;
    assert(formatting_laws::fresh(image, side, track, id, data));
}

/// Files are stored, removed and set up on the filesystem that is asked for. Where none is, it is
/// MGT on disks that are recognised as such and in MGT images, TR-DOS in TRD images, and
/// otherwise CP/M.
pub proof fn law_filesystem_is_chosen(image: ImageView, fs: FileSystemType, name: Seq<char>, data: Seq<u8>)
    ensures
        fs == FileSystemType::Mgt || fs == FileSystemType::Auto && (specification::identified(image).format
            == DiskSpecFormat::MgtSamCoupe || image.format == DiskImageFormat::RawMgt) ==> {
            &&& edit::imported(image, fs, name, data) == mgt_edit::imported(image, name, data)
            &&& edit::deleted(image, fs, name) == mgt_edit::deleted(image, name)
            &&& formatting::formatted(image, fs) == formatting::mgt_formatted(image)
        },
        fs == FileSystemType::Trdos || fs == FileSystemType::Auto && specification::identified(image).format
            != DiskSpecFormat::MgtSamCoupe && image.format == DiskImageFormat::RawTrd ==> {
            &&& edit::imported(image, fs, name, data) == trdos_edit::imported(image, name, data)
            &&& edit::deleted(image, fs, name) == trdos_edit::deleted(image, name)
            &&& formatting::formatted(image, fs) == formatting::trdos_formatted(image)
        },
        fs == FileSystemType::Cpm || fs == FileSystemType::Auto && specification::identified(image).format
            != DiskSpecFormat::MgtSamCoupe && image.format != DiskImageFormat::RawMgt && image.format != DiskImageFormat::RawTrd
            ==> {
            &&& edit::imported(image, fs, name, data) == cpm_edit::imported(image, name, data)
            &&& edit::deleted(image, fs, name) == cpm_edit::deleted(image, name)
            &&& formatting::formatted(image, fs) == formatting::cpm_formatted(image)
        },
{
}

/// A CP/M disk with two sides and sectors that count from 1 is set up in the order of sides that the
/// image has: side by side on every track, or one side before the other.
pub proof fn law_cpm_format_keeps_side_order(image: ImageView)
    ensures
        image.disks.len() == 2 && image.spec.first_sector_id == 1 ==> formatting::cpm_layout(image).side == (
        match image.spec.side_mode {
            SideMode::SingleSide => DiskSpecSide::Single,
            SideMode::Alternate => DiskSpecSide::DoubleAlternate,
            SideMode::Successive => DiskSpecSide::DoubleSuccessive,
        }),
        image.disks.len() != 2 || image.spec.first_sector_id != 1 ==> formatting::cpm_layout(image) == specification::identified(
            image,
        ),
{
}

}
