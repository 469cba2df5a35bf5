//! Filesystems on sector images.

pub mod cpm;
pub mod cpm_blocks;
pub mod cpm_change_laws;
pub mod cpm_content_laws;
pub mod cpm_edit;
pub mod cpm_entries;
pub mod cpm_existing_laws;
pub mod cpm_laws;
pub mod cpm_listing_laws;
pub mod cpm_model;
pub mod cpm_reuse_laws;
pub mod cpm_sectors;
pub mod cpm_slot_laws;
pub mod edit;
pub mod format_byte_laws;
pub mod formatting;
pub mod formatting_laws;
pub mod fresh_disk_laws;
pub mod header;
pub mod mgt;
pub mod mgt_byte_laws;
pub mod mgt_edit;
pub mod mgt_laws;
pub mod name_laws;
pub mod names;
pub mod room_laws;
pub mod trdos;
pub mod trdos_byte_laws;
pub mod trdos_edit;
pub mod trdos_laws;
pub mod trdos_reuse_laws;

use crate::error::DskError;
use crate::filesystem::header::FileHeader;
use crate::image::DiskImage;
use vstd::prelude::*;

verus! {

/// The attributes of a file.
#[derive(Clone, Copy, Debug, PartialEq, Eq, Structural)]
pub struct FileAttributes {
    pub read_only: bool,
    pub system: bool,
    pub archive: bool,
}

/// A file in a directory listing.
#[derive(Debug)]
pub struct DirEntry {
    pub name: String,
    pub user: u8,
    pub extent: u8,
    pub size: usize,
    pub attributes: FileAttributes,
}

/// The mathematical value of a `DirEntry`.
#[verifier::ext_equal]
pub struct DirEntryView {
    pub name: Seq<char>,
    pub user: u8,
    pub extent: u8,
    pub size: int,
    pub attributes: FileAttributes,
}

impl View for DirEntry {
    type V = DirEntryView;

    open spec fn view(&self) -> DirEntryView {
        DirEntryView {
            name: self.name@,
            user: self.user,
            extent: self.extent,
            size: self.size as int,
            attributes: self.attributes,
        }
    }
}

/// The values of a listing.
pub open spec fn dir_views(s: Seq<DirEntry>) -> Seq<DirEntryView> {
    Seq::new(s.len(), |i: int| s[i]@)
}

/// A file in a detailed directory listing.
#[derive(Debug)]
pub struct ExtendedDirEntry {
    pub name: String,
    pub user: u8,
    pub index: usize,
    pub blocks: usize,
    pub allocated: usize,
    pub size: usize,
    pub attributes: FileAttributes,
    pub header: FileHeader,
}

/// The mathematical value of an `ExtendedDirEntry`.
#[verifier::ext_equal]
pub struct ExtendedDirEntryView {
    pub name: Seq<char>,
    pub user: u8,
    pub index: int,
    pub blocks: int,
    pub allocated: int,
    pub size: int,
    pub attributes: FileAttributes,
    pub header: FileHeader,
}

impl View for ExtendedDirEntry {
    type V = ExtendedDirEntryView;

    open spec fn view(&self) -> ExtendedDirEntryView {
        ExtendedDirEntryView {
            name: self.name@,
            user: self.user,
            index: self.index as int,
            blocks: self.blocks as int,
            allocated: self.allocated as int,
            size: self.size as int,
            attributes: self.attributes,
            header: self.header,
        }
    }
}

/// The values of a detailed listing.
pub open spec fn extended_views(s: Seq<ExtendedDirEntry>) -> Seq<ExtendedDirEntryView> {
    Seq::new(s.len(), |i: int| s[i]@)
}

/// The state of a filesystem.
#[derive(Debug)]
pub struct FileSystemInfo {
    pub fs_type: String,
    pub total_blocks: usize,
    pub free_blocks: usize,
    pub block_size: usize,
}

/// The operations that filesystems have in common.
pub trait FileSystem {
    /// Opens the filesystem on an image.
    fn from_image(image: &DiskImage) -> Result<Self, DskError> where Self: Sized;

    /// Opens the filesystem on an image, to be changed.
    fn from_image_mut(image: &mut DiskImage) -> Result<Self, DskError> where Self: Sized;

    /// Lists the files.
    fn read_dir(&self) -> Result<Vec<DirEntry>, DskError>;

    /// Whether the filesystem is laid out so that the file with the given name can be looked up.
    spec fn readable(&self, name: Seq<char>) -> bool;

    /// The content of a file.
    fn read_file(&self, name: &str) -> Result<Vec<u8>, DskError>
        requires
            self.readable(name@),
    ;

    /// Stores a file.
    fn write_file(&mut self, name: &str, data: &[u8]) -> Result<(), DskError>;

    /// Removes a file.
    fn delete_file(&mut self, name: &str) -> Result<(), DskError>;

    /// The state of the filesystem.
    fn info(&self) -> FileSystemInfo;
}

}
