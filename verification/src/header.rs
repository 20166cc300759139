//! The twelve-byte header in front of every stream.
//!
//! | offset | size | field                                   |
//! |-------:|-----:|-----------------------------------------|
//! | 0      | 4    | the magic bytes `qoif`                  |
//! | 4      | 2    | width, big-endian                       |
//! | 6      | 2    | height, big-endian                      |
//! | 8      | 4    | bytes after the header, big-endian      |

use vstd::prelude::*;

verus! {

/// Length of the header in bytes.
pub const HEADER_SIZE: usize = 12;

/// The fields of a header.
#[derive(Copy, Clone, Debug, PartialEq, Eq, Structural)]
pub struct Header {
    pub width: u16,
    pub height: u16,
    /// Number of bytes that follow the header, padding included.
    pub size: u32,
}

/// The four bytes that open every stream: `qoif` in ASCII.
pub open spec fn magic() -> Seq<u8> {
    seq![0x71u8, 0x6fu8, 0x69u8, 0x66u8]
}

/// The zero bytes that close every stream.
pub open spec fn padding() -> Seq<u8> {
    seq![0u8, 0u8, 0u8, 0u8]
}

/// The two bytes of `x`, most significant first.
pub open spec fn be16(x: u16) -> Seq<u8> {
    seq![(x / 256) as u8, (x % 256) as u8]
}

/// The four bytes of `x`, most significant first.
pub open spec fn be32(x: u32) -> Seq<u8> {
    seq![
        (x / 0x100_0000) as u8,
        (x / 0x1_0000 % 256) as u8,
        (x / 256 % 256) as u8,
        (x % 256) as u8,
    ]
}

/// The number that two bytes spell, most significant first.
pub open spec fn from_be16(hi: u8, lo: u8) -> u16 {
    (hi * 256 + lo) as u16
}

/// The number that four bytes spell, most significant first.
pub open spec fn from_be32(b0: u8, b1: u8, b2: u8, b3: u8) -> u32 {
    (b0 * 0x100_0000 + b1 * 0x1_0000 + b2 * 256 + b3) as u32
}

impl Header {
    /// The header on the wire.
    pub open spec fn bytes(self) -> Seq<u8> {
        magic() + be16(self.width) + be16(self.height) + be32(self.size)
    }

    /// The header that a stream starts with, if it is long enough and opens
    /// with the magic bytes.
    pub open spec fn parse(data: Seq<u8>) -> Option<Header> {
        if data.len() >= 12 && data.take(4) == magic() {
            Some(
                Header {
                    width: from_be16(data[4], data[5]),
                    height: from_be16(data[6], data[7]),
                    size: from_be32(data[8], data[9], data[10], data[11]),
                },
            )
        } else {
            None
        }
    }

    /// Appends the header to `out`.
    pub fn write(&self, out: &mut Vec<u8>)
        ensures
            final(out)@ == old(out)@ + self.bytes(),
    {
        // q, o, i, f
        out.push(0x71);
        out.push(0x6f);
        out.push(0x69);
        out.push(0x66);
        out.push((self.width / 256) as u8);
        out.push((self.width % 256) as u8);
        out.push((self.height / 256) as u8);
        out.push((self.height % 256) as u8);
        out.push((self.size / 0x100_0000) as u8);
        out.push((self.size / 0x1_0000 % 256) as u8);
        out.push((self.size / 256 % 256) as u8);
        out.push((self.size % 256) as u8);
        assert(out@ =~= old(out)@ + self.bytes());
    }

    /// Reads the header at the start of `data`.
    pub fn read(data: &[u8]) -> (r: Option<Header>)
        ensures
            r == Header::parse(data@),
    {
        if data.len() < HEADER_SIZE {
            return None;
        }
        if data[0] != 0x71 || data[1] != 0x6f || data[2] != 0x69 || data[3] != 0x66 {
            assert(data@.take(4)[0] == data@[0]);
            assert(data@.take(4)[1] == data@[1]);
            assert(data@.take(4)[2] == data@[2]);
            assert(data@.take(4)[3] == data@[3]);
            return None;
        }
        assert(data@.take(4) =~= magic());
        let width: u16 = (data[4] as u16) * 256 + data[5] as u16;
        let height: u16 = (data[6] as u16) * 256 + data[7] as u16;
        let size: u32 = (data[8] as u32) * 0x100_0000 + (data[9] as u32) * 0x1_0000 + (data[10] as u32)
            * 256 + data[11] as u32;
        Some(Header { width, height, size })
    }
}

/// A header that was written can be read back, whatever follows it.
pub proof fn lemma_header_round_trip(h: Header, rest: Seq<u8>)
    ensures
        Header::parse(h.bytes() + rest) == Some(h),
        h.bytes().len() == 12,
{
    let data = h.bytes() + rest;
    assert(data.take(4) =~= magic());
    let w = h.width;
    assert(from_be16((w / 256) as u8, (w % 256) as u8) == w);
    let t = h.height;
    assert(from_be16((t / 256) as u8, (t % 256) as u8) == t);
    let s = h.size;
    assert(from_be32(
        (s / 0x100_0000) as u8,
        (s / 0x1_0000 % 256) as u8,
        (s / 256 % 256) as u8,
        (s % 256) as u8,
    ) == s);
}

} // verus!
