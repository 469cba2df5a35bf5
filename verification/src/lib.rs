//! Disk image manager: sector images, their filesystems, and the TeleDisk reader.

pub mod bytes;
pub mod error;
pub mod filesystem;
pub mod format;
pub mod image;
pub mod io;
pub mod order;
pub mod specification;
pub mod specification_laws;
pub mod text;
