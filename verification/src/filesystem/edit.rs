//! File-level changes to sector images. Changes are made on a copy first, so that a full disk,
//! a bad directory or a missing sector never leaves a half-written file.

use crate::error::{DskError, ErrorView};
use crate::filesystem::{cpm_edit, mgt_edit, trdos_edit};
use crate::format::FileSystemType;
use crate::image::{DiskImage, ImageView};
use crate::specification;
use vstd::prelude::*;

verus! {

/// The filesystem to work on: `Auto` stands for what the image suggests.
pub open spec fn chosen(image: ImageView, fs: FileSystemType) -> FileSystemType {
    if fs == FileSystemType::Auto {
        specification::likely_filesystem(image)
    } else {
        fs
    }
}

/// The filesystem to work on.
pub fn effective_type(image: &DiskImage, fs: FileSystemType) -> (r: FileSystemType)
    ensures
        r == chosen(image@, fs),
        r != FileSystemType::Auto,
{
    match fs {
        FileSystemType::Auto => image.default_filesystem(),
        other => other,
    }
}

/// The image with a new file, or why it cannot be stored.
pub open spec fn imported(image: ImageView, fs: FileSystemType, name: Seq<char>, data: Seq<u8>) -> Result<ImageView, ErrorView> {
    match chosen(image, fs) {
        FileSystemType::Mgt => mgt_edit::imported(image, name, data),
        FileSystemType::Trdos => trdos_edit::imported(image, name, data),
        _ => cpm_edit::imported(image, name, data),
    }
}

/// The image without a file, or why it cannot be removed.
pub open spec fn deleted(image: ImageView, fs: FileSystemType, name: Seq<char>) -> Result<ImageView, ErrorView> {
    match chosen(image, fs) {
        FileSystemType::Mgt => mgt_edit::deleted(image, name),
        FileSystemType::Trdos => trdos_edit::deleted(image, name),
        _ => cpm_edit::deleted(image, name),
    }
}

/// Stores a file. Existing names are not replaced; the old file is to be deleted first. CP/M
/// accepts `N:NAME.EXT` for user N. After an error the image is as it was.
pub fn import_file(image: &mut DiskImage, fs: FileSystemType, name: &str, data: &[u8]) -> (r: Result<(), DskError>)
    ensures
        match r {
            Ok(()) => imported(old(image)@, fs, name@, data@) == Ok::<ImageView, ErrorView>(final(image)@),
            Err(e) => {
                &&& imported(old(image)@, fs, name@, data@) == Err::<ImageView, ErrorView>(e@)
                &&& final(image)@ == old(image)@
            },
        },
{
    let mut staged = image.clone();
    let result = match effective_type(&staged, fs) {
        FileSystemType::Mgt => mgt_edit::mgt_import(&mut staged, name, data),
        FileSystemType::Trdos => trdos_edit::trdos_import(&mut staged, name, data),
        _ => cpm_edit::cpm_import(&mut staged, name, data),
    };
    match result {
        Ok(()) => {
            *image = staged;
            Ok(())
        },
        Err(e) => Err(e),
    }
}

/// Removes a file. On TR-DOS disks the other files are moved together, so that the space can be
/// used again at once. After an error the image is as it was.
pub fn delete_file(image: &mut DiskImage, fs: FileSystemType, name: &str) -> (r: Result<(), DskError>)
    ensures
        match r {
            Ok(()) => deleted(old(image)@, fs, name@) == Ok::<ImageView, ErrorView>(final(image)@),
            Err(e) => {
                &&& deleted(old(image)@, fs, name@) == Err::<ImageView, ErrorView>(e@)
                &&& final(image)@ == old(image)@
            },
        },
{
    let mut staged = image.clone();
    let result = match effective_type(&staged, fs) {
        FileSystemType::Mgt => mgt_edit::mgt_delete(&mut staged, name),
        FileSystemType::Trdos => trdos_edit::trdos_delete(&mut staged, name),
        _ => cpm_edit::cpm_delete(&mut staged, name),
    };
    match result {
        Ok(()) => {
            *image = staged;
            Ok(())
        },
        Err(e) => Err(e),
    }
}

}
