//! Errors of the library.

use vstd::prelude::*;

verus! {

/// What can go wrong when an image is read or changed.
#[derive(Debug)]
pub enum DskError {
    /// The file is not a disk image of the expected format.
    InvalidFormat(String),
    /// The image file is damaged at the given offset.
    Parse { offset: usize, message: String },
    /// No such side or track.
    InvalidTrack { side: u8, track: u8, max: u8 },
    /// No sector with this ID on the track.
    InvalidSector { side: u8, track: u8, id: u8 },
    /// The filesystem cannot do what was asked.
    Filesystem(String),
    /// No file of this name.
    FileNotFound(String),
    /// Not a name that the filesystem can store.
    InvalidFilename(String),
    /// No room for the file.
    DiskFull,
}

/// The mathematical value of a `DskError`.
#[verifier::ext_equal]
pub enum ErrorView {
    InvalidFormat(Seq<char>),
    Parse { offset: int, message: Seq<char> },
    InvalidTrack { side: u8, track: u8, max: u8 },
    InvalidSector { side: u8, track: u8, id: u8 },
    Filesystem(Seq<char>),
    FileNotFound(Seq<char>),
    InvalidFilename(Seq<char>),
    DiskFull,
}

impl View for DskError {
    type V = ErrorView;

    open spec fn view(&self) -> ErrorView {
        match self {
            DskError::InvalidFormat(m) => ErrorView::InvalidFormat(m@),
            DskError::Parse { offset, message } => ErrorView::Parse {
                offset: *offset as int,
                message: message@,
            },
            DskError::InvalidTrack { side, track, max } => ErrorView::InvalidTrack {
                side: *side,
                track: *track,
                max: *max,
            },
            DskError::InvalidSector { side, track, id } => ErrorView::InvalidSector {
                side: *side,
                track: *track,
                id: *id,
            },
            DskError::Filesystem(m) => ErrorView::Filesystem(m@),
            DskError::FileNotFound(m) => ErrorView::FileNotFound(m@),
            DskError::InvalidFilename(m) => ErrorView::InvalidFilename(m@),
            DskError::DiskFull => ErrorView::DiskFull,
        }
    }
}

impl DskError {
    /// An `InvalidFormat` error with the given message.
    pub fn invalid_format(message: &str) -> (e: DskError)
        ensures
            e@ == ErrorView::InvalidFormat(message@),
    {
        DskError::InvalidFormat(message.to_string())
    }

    /// A `Parse` error at the given offset.
    pub fn parse(offset: usize, message: &str) -> (e: DskError)
        ensures
            e@ == (ErrorView::Parse { offset: offset as int, message: message@ }),
    {
        DskError::Parse { offset, message: message.to_string() }
    }

    /// A `Filesystem` error with the given message.
    pub fn filesystem(message: &str) -> (e: DskError)
        ensures
            e@ == ErrorView::Filesystem(message@),
    {
        DskError::Filesystem(message.to_string())
    }
}

}
