//! File headers of AMSDOS and +3DOS.

use vstd::prelude::*;

verus! {

/// The kind of a file header.
#[derive(Clone, Copy, Debug, PartialEq, Eq, Structural)]
pub enum HeaderType {
    /// No header.
    Absent,
    Amsdos,
    Plus3dos,
}

/// What a file header says.
#[derive(Clone, Copy, Debug, PartialEq, Eq, Structural)]
pub struct FileHeader {
    pub header_type: HeaderType,
    /// The number of bytes before the file data.
    pub header_size: usize,
    /// The type byte of the file.
    pub file_type: u8,
    /// The length of the file, as the header gives it.
    pub file_size: u32,
}

/// The header of a file without one.
pub open spec fn no_header() -> FileHeader {
    FileHeader { header_type: HeaderType::Absent, header_size: 0, file_type: 0, file_size: 0 }
}

/// The sum of the first `n` bytes.
pub open spec fn byte_sum(data: Seq<u8>, n: int) -> int
    decreases n,
{
    if n <= 0 {
        0
    } else {
        byte_sum(data, n - 1) + data[n - 1]
    }
}

/// Whether data starts with a +3DOS header: its signature, and a checksum over the first
/// 127 bytes.
pub open spec fn is_plus3dos(data: Seq<u8>) -> bool {
    &&& data.len() >= 128
    &&& data[0] == 0x50
    &&& data[1] == 0x4C
    &&& data[2] == 0x55
    &&& data[3] == 0x53
    &&& data[4] == 0x33
    &&& data[5] == 0x44
    &&& data[6] == 0x4F
    &&& data[7] == 0x53
    &&& data[8] == 0x1A
    &&& byte_sum(data, 127) % 256 == data[127]
}

/// Whether data starts with an AMSDOS header: a checksum over the first 67 bytes that is
/// not 0.
pub open spec fn is_amsdos(data: Seq<u8>) -> bool {
    &&& data.len() >= 128
    &&& byte_sum(data, 67) != 0
    &&& byte_sum(data, 67) == data[67] + 256 * data[68]
}

/// The header that data starts with.
pub open spec fn parsed_header(data: Seq<u8>) -> FileHeader {
    if is_plus3dos(data) {
        FileHeader {
            header_type: HeaderType::Plus3dos,
            header_size: 128,
            file_type: data[15],
            file_size: (data[11] + 256 * data[12] + 65536 * data[13] + 16777216 * data[14]) as u32,
        }
    } else if is_amsdos(data) {
        FileHeader {
            header_type: HeaderType::Amsdos,
            header_size: 128,
            file_type: data[18],
            file_size: (data[64] + 256 * data[65] + 65536 * data[66]) as u32,
        }
    } else {
        no_header()
    }
}

/// The data behind its header, if it has one.
pub open spec fn stripped(data: Seq<u8>) -> Seq<u8> {
    let size = parsed_header(data).header_size as int;
    if size > 0 && data.len() >= size { data.skip(size) } else { data }
}

fn sum_of(data: &[u8], n: usize) -> (sum: u32)
    requires
        n <= 127,
        n <= data@.len(),
    ensures
        sum == byte_sum(data@, n as int),
        sum <= 255 * n,
{
    let mut sum: u32 = 0;
    let mut i: usize = 0;
    while i < n
        invariant
            i <= n <= 127,
            n <= data@.len(),
            sum == byte_sum(data@, i as int),
            sum <= 255 * i,
        decreases n - i,
    {
        sum = sum + data[i] as u32;
        i = i + 1;
    }
    sum
}

impl FileHeader {
    /// The header of a file without one.
    pub fn none() -> (h: FileHeader)
        ensures
            h == no_header(),
    {
        FileHeader { header_type: HeaderType::Absent, header_size: 0, file_type: 0, file_size: 0 }
    }
}

/// Reads the header that data starts with, if it has one.
pub fn try_parse_header(data: &[u8]) -> (h: FileHeader)
    ensures
        h == parsed_header(data@),
{
    if data.len() < 128 {
        return FileHeader::none();
    }
    if data[0] == 0x50 && data[1] == 0x4C && data[2] == 0x55 && data[3] == 0x53 && data[4] == 0x33 && data[5] == 0x44
        && data[6] == 0x4F && data[7] == 0x53 && data[8] == 0x1A && sum_of(data, 127) % 256 == data[127] as u32 {
        return FileHeader {
            header_type: HeaderType::Plus3dos,
            header_size: 128,
            file_type: data[15],
            file_size: data[11] as u32 + 256 * data[12] as u32 + 65536 * data[13] as u32 + 16777216 * data[14] as u32,
        };
    }
    let sum = sum_of(data, 67);
    if sum != 0 && sum == data[67] as u32 + 256 * data[68] as u32 {
        return FileHeader {
            header_type: HeaderType::Amsdos,
            header_size: 128,
            file_type: data[18],
            file_size: data[64] as u32 + 256 * data[65] as u32 + 65536 * data[66] as u32,
        };
    }
    FileHeader::none()
}

}
