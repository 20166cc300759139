//! Bit patterns and the numbers that they stand for.
//!
//! The wire format is defined by numbers and their digits; the code puts
//! bytes together and takes them apart with shifts and masks.  The lemmas
//! here say that the two come to the same.

use vstd::prelude::*;

verus! {

/// The bytes of a run chunk, put together from bits, are the bytes of the
/// number that the run is written as.
pub(crate) proof fn lemma_run_bits(short: u8, long: u16)
    by (bit_vector)
    requires
        short < 32,
        long < 8192,
    ensures
        0x40u8 | short == 0x40 + short,
        (long >> 8) < 32,
        (0x60u8 | (long >> 8) as u8) as u16 == (0x6000 + long) as u16 / 256,
        long & 0xff == (0x6000 + long) as u16 % 256,
{
}

/// The byte of a diff 8 chunk, put together from bits, is the number that
/// the chunk is written as.
pub(crate) proof fn lemma_diff8_bits(x: u8, y: u8, z: u8)
    by (bit_vector)
    requires
        x < 4,
        y < 4,
        z < 4,
    ensures
        0x80u8 | (x << 4) | (y << 2) | z == 0x80 + 16 * x + 4 * y + z,
{
}

/// The bytes of a diff 16 chunk, put together from bits, are the bytes of
/// the number that the chunk is written as.
pub(crate) proof fn lemma_diff16_bits(x: u8, y: u8, z: u8)
    by (bit_vector)
    requires
        x < 32,
        y < 16,
        z < 16,
    ensures
        (0xc0u8 | x) as u16 == (0xc000 + 256 * (x as u16) + 16 * (y as u16) + (z as u16)) as u16
            / 256,
        ((y << 4) | z) as u16 == (0xc000 + 256 * (x as u16) + 16 * (y as u16) + (z as u16)) as u16
            % 256,
{
}

/// The bytes of a diff 24 chunk, put together from bits, are the bytes of
/// the number that the chunk is written as.
pub(crate) proof fn lemma_diff24_bits(x: u8, y: u8, z: u8, w: u8)
    by (bit_vector)
    requires
        x < 32,
        y < 32,
        z < 32,
        w < 32,
    ensures
        (0xe0u8 | (x >> 1)) as u32 == (0xe0_0000 + 0x8000 * (x as u32) + 0x400 * (y as u32) + 0x20
            * (z as u32) + (w as u32)) as u32 / 0x1_0000,
        ((x << 7) | (y << 2) | (z >> 3)) as u32 == (0xe0_0000 + 0x8000 * (x as u32) + 0x400 * (
        y as u32) + 0x20 * (z as u32) + (w as u32)) as u32 / 256 % 256,
        ((z << 5) | w) as u32 == (0xe0_0000 + 0x8000 * (x as u32) + 0x400 * (y as u32) + 0x20 * (
        z as u32) + (w as u32)) as u32 % 256,
{
}

/// The mask byte of a color chunk, put together from bits, is the number
/// that it is written as.
pub(crate) proof fn lemma_mask_bits(r: u8, g: u8, b: u8, a: u8)
    by (bit_vector)
    requires
        r == 0 || r == 8,
        g == 0 || g == 4,
        b == 0 || b == 2,
        a == 0 || a == 1,
    ensures
        0xf0u8 | r | g | b | a == 0xf0 + r + g + b + a,
{
}

/// The leading bits of a byte tell the range that it lies in, and the
/// bits behind those of a short run its length.
pub(crate) proof fn lemma_leading_bits(b: u8)
    by (bit_vector)
    ensures
        b & 0xc0 == 0x00 <==> b < 0x40,
        b & 0xe0 == 0x40 <==> 0x40 <= b < 0x60,
        b & 0xe0 == 0x60 <==> 0x60 <= b < 0x80,
        b & 0xc0 == 0x80 <==> 0x80 <= b < 0xc0,
        b & 0xe0 == 0xc0 <==> 0xc0 <= b < 0xe0,
        b & 0xf0 == 0xe0 <==> 0xe0 <= b < 0xf0,
        0x40 <= b < 0x60 ==> b & 0x1f == b - 0x40,
{
}

/// The bits of a long run are the digits of the number that it is read as.
pub(crate) proof fn lemma_long_run_read(b1: u8, b2: u8)
    by (bit_vector)
    requires
        0x60 <= b1 < 0x80,
    ensures
        (((b1 & 0x1f) as u16) << 8) | b2 as u16 == 256 * b1 + b2 - 0x6000,
        (((b1 & 0x1f) as u16) << 8) | b2 as u16 <= 0x1fff,
{
}

/// The bits of a diff 8 chunk are the digits of the number that it is read as.
pub(crate) proof fn lemma_diff8_read(b1: u8)
    by (bit_vector)
    requires
        0x80 <= b1 < 0xc0,
    ensures
        (b1 >> 4) & 0x03 == (b1 - 0x80) as u8 / 16,
        (b1 >> 2) & 0x03 == (b1 - 0x80) as u8 / 4 % 4,
        b1 & 0x03 == (b1 - 0x80) as u8 % 4,
{
}

/// The bits of a diff 16 chunk are the digits of the number that it is read as.
pub(crate) proof fn lemma_diff16_read(b1: u8, b2: u8)
    by (bit_vector)
    requires
        0xc0 <= b1 < 0xe0,
    ensures
        (b1 & 0x1f) as u16 == (256 * b1 + b2 - 0xc000) as u16 / 256,
        (b2 >> 4) as u16 == (256 * b1 + b2 - 0xc000) as u16 / 16 % 16,
        (b2 & 0x0f) as u16 == (256 * b1 + b2 - 0xc000) as u16 % 16,
{
}

/// The bits of a diff 24 chunk are the digits of the number that it is read as.
pub(crate) proof fn lemma_diff24_read(b1: u8, b2: u8, b3: u8)
    by (bit_vector)
    requires
        0xe0 <= b1 < 0xf0,
    ensures
        (((b1 & 0x0f) << 1) | (b2 >> 7)) as u32 == (0x1_0000 * b1 + 256 * b2 + b3 - 0xe0_0000) as u32
            / 0x8000,
        ((b2 & 0x7c) >> 2) as u32 == (0x1_0000 * b1 + 256 * b2 + b3 - 0xe0_0000) as u32 / 0x400
            % 32,
        (((b2 & 0x03) << 3) | (b3 >> 5)) as u32 == (0x1_0000 * b1 + 256 * b2 + b3 - 0xe0_0000) as u32
            / 0x20 % 32,
        (b3 & 0x1f) as u32 == (0x1_0000 * b1 + 256 * b2 + b3 - 0xe0_0000) as u32 % 32,
{
}

/// The low bits of the mask byte of a color chunk are the digits of the
/// number that it is read as.
pub(crate) proof fn lemma_mask_read(b1: u8)
    by (bit_vector)
    requires
        0xf0 <= b1,
    ensures
        b1 & 8 != 0 <==> (b1 - 0xf0) as u8 / 8 == 1,
        b1 & 4 != 0 <==> (b1 - 0xf0) as u8 / 4 % 2 == 1,
        b1 & 2 != 0 <==> (b1 - 0xf0) as u8 / 2 % 2 == 1,
        b1 & 1 != 0 <==> (b1 - 0xf0) as u8 % 2 == 1,
{
}

/// Four five-bit fields behind the leading bits `1110` can be read back
/// from the three bytes that they are packed into.
pub(crate) proof fn lemma_pack24(x: u32, y: u32, z: u32, w: u32)
    by (bit_vector)
    requires
        x < 32,
        y < 32,
        z < 32,
        w < 32,
    ensures
        ({
            let v: u32 = (0xe0_0000 + 0x8000 * x + 0x400 * y + 0x20 * z + w) as u32;
            let b1: u32 = v / 0x1_0000;
            let b2: u32 = v / 256 % 256;
            let b3: u32 = v % 256;
            let u: u32 = (0x1_0000 * b1 + 256 * b2 + b3 - 0xe0_0000) as u32;
            &&& 0xe0 <= b1 < 0xf0
            &&& 0x1_0000 * b1 + 256 * b2 + b3 >= 0xe0_0000
            &&& u / 0x8000 == x
            &&& u / 0x400 % 32 == y
            &&& u / 0x20 % 32 == z
            &&& u % 32 == w
        }),
{
}

} // verus!
