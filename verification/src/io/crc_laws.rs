//! Laws of the checksum of TeleDisk files.

use crate::io::crc;
use vstd::prelude::*;

verus! {

/// One step of the division.
spec fn step(c: u16) -> u16 {
    if c & 0x8000 != 0 { (c << 1) ^ 0xA097 } else { c << 1 }
}

proof fn lemma_step_linear(a: u16, b: u16)
    ensures
        step(a ^ b) == step(a) ^ step(b),
{
    assert((if (a ^ b) & 0x8000 != 0 { ((a ^ b) << 1) ^ 0xA097u16 } else { (a ^ b) << 1 }) == (if a & 0x8000 != 0 {
        (a << 1) ^ 0xA097u16
    } else {
        a << 1
    }) ^ (if b & 0x8000 != 0 { (b << 1) ^ 0xA097u16 } else { b << 1 })) by (bit_vector);
}

proof fn lemma_shift_linear(a: u16, b: u16, n: int)
    ensures
        crc::crc_shift(a ^ b, n) == crc::crc_shift(a, n) ^ crc::crc_shift(b, n),
    decreases n,
{
    if n > 0 {
        lemma_shift_linear(a, b, n - 1);
        lemma_step_linear(crc::crc_shift(a, n - 1), crc::crc_shift(b, n - 1));
    }
}

/// The bytes of two messages, put together bit by bit.
pub open spec fn combined(a: Seq<u8>, b: Seq<u8>) -> Seq<u8> {
    Seq::new(a.len(), |i: int| a[i] ^ b[i])
}

/// The checksum of two messages put together bit by bit is that of their checksums: the checksum
/// of a difference tells what it changes.
pub proof fn law_checksum_is_linear(a: Seq<u8>, b: Seq<u8>)
    requires
        a.len() == b.len(),
    ensures
        crc::crc_of(combined(a, b)) == crc::crc_of(a) ^ crc::crc_of(b),
    decreases a.len(),
{
    if a.len() == 0 {
        assert(0u16 ^ 0u16 == 0u16) by (bit_vector);
    } else {
        let c = combined(a, b);
        law_checksum_is_linear(a.drop_last(), b.drop_last());
        assert(c.drop_last() =~= combined(a.drop_last(), b.drop_last()));
        let x = crc::crc_of(a.drop_last());
        let y = crc::crc_of(b.drop_last());
        let p = a.last();
        let q = b.last();
        assert(c.last() == p ^ q);
        assert((x ^ y) ^ (((p ^ q) as u16) << 8) == (x ^ ((p as u16) << 8)) ^ (y ^ ((q as u16) << 8))) by (bit_vector);
        lemma_shift_linear(x ^ ((p as u16) << 8), y ^ ((q as u16) << 8), 8);
    }
}

/// A small number is only moved up.
proof fn lemma_small(c: u16)
    requires
        c < 256,
    ensures
        crc::crc_shift(c, 8) == c << 8,
{
    reveal_with_fuel(crc::crc_shift, 9);
    assert(c < 256 ==> c & 0x8000 == 0 && (c << 1) & 0x8000 == 0 && ((c << 1) << 1) & 0x8000 == 0 && (((c << 1) << 1) << 1)
        & 0x8000 == 0 && ((((c << 1) << 1) << 1) << 1) & 0x8000 == 0 && (((((c << 1) << 1) << 1) << 1) << 1) & 0x8000 == 0
        && ((((((c << 1) << 1) << 1) << 1) << 1) << 1) & 0x8000 == 0 && (((((((c << 1) << 1) << 1) << 1) << 1) << 1) << 1)
        & 0x8000 == 0 && ((((((((c << 1) << 1) << 1) << 1) << 1) << 1) << 1) << 1) == c << 8) by (bit_vector);
}

/// A message with its own checksum behind it, high byte first, has the checksum 0.
pub proof fn law_checked_message_has_checksum_0(s: Seq<u8>)
    ensures
        crc::crc_of(s + seq![(crc::crc_of(s) / 256) as u8, (crc::crc_of(s) % 256) as u8]) == 0,
{
    let c = crc::crc_of(s);
    let hi = (c / 256) as u8;
    let lo = (c % 256) as u8;
    let all = s + seq![hi, lo];
    let mid = all.drop_last();
    assert(mid.drop_last() =~= s);
    assert(mid.last() == hi && all.last() == lo);
    let rest = c ^ ((hi as u16) << 8);
    assert(rest == lo && rest < 256) by {
        assert(c ^ ((((c / 256) as u8) as u16) << 8) == c % 256) by (bit_vector);
    }
    lemma_small(rest);
    assert(crc::crc_of(mid) == crc::crc_shift(rest, 8));
    assert((rest << 8) ^ ((lo as u16) << 8) == 0) by {
        assert(rest == lo as u16);
        let x = lo as u16;
        assert((x << 8) ^ (x << 8) == 0) by (bit_vector);
    }
    lemma_small(0);
    assert(0u16 << 8 == 0u16) by (bit_vector);
    assert(crc::crc_of(all) == crc::crc_shift(crc::crc_of(mid) ^ ((lo as u16) << 8), 8));
}

/// Leading zeros do not count, and the message of the one byte 1 has the generator 0xA097 as its
/// checksum.
pub proof fn law_checksum_has_generator(n: nat)
    ensures
        crc::crc_of(Seq::new(n, |i: int| 0u8)) == 0,
        crc::crc_of(Seq::new(n, |i: int| 0u8).push(1)) == 0xA097,
    decreases n,
{
    let z = Seq::new(n, |i: int| 0u8);
    if n > 0 {
        let m = (n - 1) as nat;
        law_checksum_has_generator(m);
        assert(z.drop_last() =~= Seq::new(m, |i: int| 0u8));
        assert(0u16 ^ ((0u8 as u16) << 8) == 0u16) by (bit_vector);
        lemma_small(0);
        assert(0u16 << 8 == 0u16) by (bit_vector);
    }
    let one = z.push(1);
    assert(one.drop_last() =~= z);
    assert(0u16 ^ ((1u8 as u16) << 8) == 0x100u16) by (bit_vector);
    assert(0x100u16 & 0x8000 == 0 && 0x100u16 << 1 == 0x200u16) by (bit_vector);
    assert(0x200u16 & 0x8000 == 0 && 0x200u16 << 1 == 0x400u16) by (bit_vector);
    assert(0x400u16 & 0x8000 == 0 && 0x400u16 << 1 == 0x800u16) by (bit_vector);
    assert(0x800u16 & 0x8000 == 0 && 0x800u16 << 1 == 0x1000u16) by (bit_vector);
    assert(0x1000u16 & 0x8000 == 0 && 0x1000u16 << 1 == 0x2000u16) by (bit_vector);
    assert(0x2000u16 & 0x8000 == 0 && 0x2000u16 << 1 == 0x4000u16) by (bit_vector);
    assert(0x4000u16 & 0x8000 == 0 && 0x4000u16 << 1 == 0x8000u16) by (bit_vector);
    assert(0x8000u16 & 0x8000 != 0 && (0x8000u16 << 1) ^ 0xA097 == 0xA097u16) by (bit_vector);
    assert(crc::crc_shift(0x100, 0) == 0x100);
    assert(crc::crc_shift(0x100, 1) == 0x200);
    assert(crc::crc_shift(0x100, 2) == 0x400);
    assert(crc::crc_shift(0x100, 3) == 0x800);
    assert(crc::crc_shift(0x100, 4) == 0x1000);
    assert(crc::crc_shift(0x100, 5) == 0x2000);
    assert(crc::crc_shift(0x100, 6) == 0x4000);
    assert(crc::crc_shift(0x100, 7) == 0x8000);
    assert(crc::crc_shift(0x100, 8) == 0xA097);
    assert(crc::crc_of(one) == crc::crc_shift(crc::crc_of(z) ^ ((1u8 as u16) << 8), 8));
}

}
