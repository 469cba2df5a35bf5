//! The checksum of TeleDisk files.

use vstd::prelude::*;

verus! {

/// `n` steps of polynomial division by `0xA097`.
pub open spec fn crc_shift(crc: u16, n: int) -> u16
    decreases n,
{
    if n <= 0 {
        crc
    } else {
        let c = crc_shift(crc, n - 1);
        if c & 0x8000 != 0 {
            (c << 1) ^ 0xA097
        } else {
            c << 1
        }
    }
}

/// The 16-bit checksum of `data`: a CRC with polynomial `0xA097`, high bit first,
/// starting from 0.
pub open spec fn crc_of(data: Seq<u8>) -> u16
    decreases data.len(),
{
    if data.len() == 0 {
        0
    } else {
        crc_shift(crc_of(data.drop_last()) ^ ((data.last() as u16) << 8), 8)
    }
}

/// Computes the checksum of `data`.
pub fn teledisk_crc(data: &[u8]) -> (crc: u16)
    ensures
        crc == crc_of(data@),
{
    let mut crc: u16 = 0;
    let mut i: usize = 0;
    while i < data.len()
        invariant
            i <= data@.len(),
            crc == crc_of(data@.take(i as int)),
        decreases data@.len() - i,
    {
        assert(data@.take(i + 1).drop_last() =~= data@.take(i as int));
        crc = crc ^ ((data[i] as u16) << 8);
        let ghost start = crc;
        let mut n: usize = 0;
        while n < 8
            invariant
                n <= 8,
                crc == crc_shift(start, n as int),
            decreases 8 - n,
        {
            crc = if crc & 0x8000 != 0 {
                (crc << 1) ^ 0xA097
            } else {
                crc << 1
            };
            n = n + 1;
        }
        i = i + 1;
    }
    assert(data@.take(data@.len() as int) =~= data@);
    crc
}

}
