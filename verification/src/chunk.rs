//! The chunks that make up the body of a stream, and their wire format.
//!
//! A chunk is a big-endian number of one to three bytes whose leading bits
//! tell its kind, or a mask byte followed by literal samples:
//!
//! | kind     | leading bits | bytes | fields after the leading bits        |
//! |----------|--------------|-------|--------------------------------------|
//! | index    | `00`         | 1     | slot (6 bits)                        |
//! | short run| `010`        | 1     | length - 1 (5 bits)                  |
//! | long run | `011`        | 2     | length - 33 (13 bits)                |
//! | diff 8   | `10`         | 1     | dr + 1, dg + 1, db + 1 (2 bits each) |
//! | diff 16  | `110`        | 2     | dr + 15 (5), dg + 7 (4), db + 7 (4)  |
//! | diff 24  | `1110`       | 3     | dr, dg, db, da, each + 15 (5 bits)   |
//! | color    | `1111`       | 1..5  | mask r, g, b, a, then one byte for each set bit |

use crate::bits::{
    lemma_diff16_bits, lemma_diff16_read, lemma_diff24_bits, lemma_diff24_read, lemma_diff8_bits,
    lemma_diff8_read, lemma_leading_bits, lemma_long_run_read, lemma_mask_bits, lemma_mask_read,
    lemma_pack24, lemma_run_bits,
};
use crate::pixel::Rgba;
use vstd::prelude::*;

verus! {

/// Longest run that one chunk can hold.
pub const MAX_RUN: u16 = 8224;

/// Longest run that a short run chunk can hold.
pub const MAX_SHORT_RUN: u16 = 32;

/// Leading bits `00`: an index chunk.
pub const INDEX: u8 = 0x00;

/// Leading bits `010`: a short run.
pub const RUN_8: u8 = 0x40;

/// Leading bits `011`: a long run.
pub const RUN_16: u8 = 0x60;

/// Leading bits `10`: a diff 8 chunk.
pub const DIFF_8: u8 = 0x80;

/// Leading bits `110`: a diff 16 chunk.
pub const DIFF_16: u8 = 0xc0;

/// Leading bits `1110`: a diff 24 chunk.
pub const DIFF_24: u8 = 0xe0;

/// Leading bits `1111`: a color chunk.
pub const COLOR: u8 = 0xf0;

/// The two leading bits of a byte.
pub const MASK_2: u8 = 0xc0;

/// The three leading bits of a byte.
pub const MASK_3: u8 = 0xe0;

/// The four leading bits of a byte.
pub const MASK_4: u8 = 0xf0;

/// One chunk of a stream.
#[derive(Copy, Clone, Debug, PartialEq, Eq)]
pub enum Chunk {
    /// The pixel is the one in this slot of the color table.
    Index { slot: u8 },
    /// The previous pixel, `len` times.
    Run { len: u16 },
    /// Small differences to the previous pixel in red, green and blue.
    Diff8 { dr: i8, dg: i8, db: i8 },
    /// Medium differences to the previous pixel in red, green and blue.
    Diff16 { dr: i8, dg: i8, db: i8 },
    /// Medium differences to the previous pixel in all four channels.
    Diff24 { dr: i8, dg: i8, db: i8, da: i8 },
    /// New values for some channels; the others stay as they were.
    Color { r: Option<u8>, g: Option<u8>, b: Option<u8>, a: Option<u8> },
}

/// Whether a difference fits the two-bit field of a diff 8 chunk.
pub open spec fn fits2(d: int) -> bool {
    -1 <= d <= 2
}

/// Whether a difference fits a four-bit field of a diff 16 chunk.
pub open spec fn fits4(d: int) -> bool {
    -7 <= d <= 8
}

/// Whether a difference fits a five-bit field.
pub open spec fn fits5(d: int) -> bool {
    -15 <= d <= 16
}

/// 1 if the channel is present, else 0.
pub open spec fn present(c: Option<u8>) -> int {
    if c is Some {
        1
    } else {
        0
    }
}

/// The literal byte of a channel that is present, else nothing.
pub open spec fn literal(c: Option<u8>) -> Seq<u8> {
    match c {
        Some(v) => seq![v],
        None => Seq::empty(),
    }
}

/// `x + d` on 8 bits, wrapping around.
pub open spec fn wrap_add(x: u8, d: int) -> u8 {
    ((x + d) % 256) as u8
}

/// The length in bytes of the chunk that starts with the byte `b1`.
pub open spec fn parse_len(b1: u8) -> int {
    if b1 < RUN_16 {
        1
    } else if b1 < DIFF_8 {
        2
    } else if b1 < DIFF_16 {
        1
    } else if b1 < DIFF_24 {
        2
    } else if b1 < COLOR {
        3
    } else {
        let m = b1 - COLOR;
        1 + m / 8 + m / 4 % 2 + m / 2 % 2 + m % 2
    }
}

/// The long run that the bytes `b1` and `b2` spell.
pub open spec fn long_run_of(b1: u8, b2: u8) -> Chunk {
    let v = 256 * (b1 - RUN_16) + b2;
    Chunk::Run { len: (v + 33) as u16 }
}

/// The diff 8 chunk that the byte `b1` spells.
pub open spec fn diff8_of(b1: u8) -> Chunk {
    let v = b1 - DIFF_8;
    Chunk::Diff8 { dr: (v / 16 - 1) as i8, dg: (v / 4 % 4 - 1) as i8, db: (v % 4 - 1) as i8 }
}

/// The diff 16 chunk that the bytes `b1` and `b2` spell.
pub open spec fn diff16_of(b1: u8, b2: u8) -> Chunk {
    let v = 256 * (b1 - DIFF_16) + b2;
    Chunk::Diff16 {
        dr: (v / 256 - 15) as i8,
        dg: (v / 16 % 16 - 7) as i8,
        db: (v % 16 - 7) as i8,
    }
}

/// The diff 24 chunk that the bytes `b1`, `b2` and `b3` spell.
pub open spec fn diff24_of(b1: u8, b2: u8, b3: u8) -> Chunk {
    let v = 0x1_0000 * (b1 - DIFF_24) + 256 * b2 + b3;
    Chunk::Diff24 {
        dr: (v / 0x8000 - 15) as i8,
        dg: (v / 0x400 % 32 - 15) as i8,
        db: (v / 0x20 % 32 - 15) as i8,
        da: (v % 32 - 15) as i8,
    }
}

/// The color chunk whose mask byte stands at `pos` in `s`.
pub open spec fn color_of(s: Seq<u8>, pos: int) -> Chunk {
    let m = s[pos] - COLOR;
    let nr = m / 8;
    let ng = m / 4 % 2;
    let nb = m / 2 % 2;
    let na = m % 2;
    Chunk::Color {
        r: if nr == 1 {
            Some(s[pos + 1])
        } else {
            None
        },
        g: if ng == 1 {
            Some(s[pos + 1 + nr])
        } else {
            None
        },
        b: if nb == 1 {
            Some(s[pos + 1 + nr + ng])
        } else {
            None
        },
        a: if na == 1 {
            Some(s[pos + 1 + nr + ng + nb])
        } else {
            None
        },
    }
}

impl Chunk {
    /// Whether the fields are within what the wire format can hold.
    pub open spec fn wf(self) -> bool {
        match self {
            Chunk::Index { slot } => slot < 64,
            Chunk::Run { len } => 1 <= len <= MAX_RUN,
            Chunk::Diff8 { dr, dg, db } => fits2(dr as int) && fits2(dg as int) && fits2(db as int),
            Chunk::Diff16 { dr, dg, db } => fits5(dr as int) && fits4(dg as int) && fits4(
                db as int,
            ),
            Chunk::Diff24 { dr, dg, db, da } => fits5(dr as int) && fits5(dg as int) && fits5(
                db as int,
            ) && fits5(da as int),
            Chunk::Color { .. } => true,
        }
    }

    /// The chunk on the wire.
    pub open spec fn bytes(self) -> Seq<u8> {
        match self {
            Chunk::Index { slot } => seq![slot],
            Chunk::Run { len } => if len <= MAX_SHORT_RUN {
                seq![(RUN_8 + (len - 1)) as u8]
            } else {
                let v = 256 * RUN_16 + (len - 33);
                seq![(v / 256) as u8, (v % 256) as u8]
            },
            Chunk::Diff8 { dr, dg, db } => seq![
                (DIFF_8 + 16 * (dr + 1) + 4 * (dg + 1) + (db + 1)) as u8,
            ],
            Chunk::Diff16 { dr, dg, db } => {
                let v = 256 * DIFF_16 + 256 * (dr + 15) + 16 * (dg + 7) + (db + 7);
                seq![(v / 256) as u8, (v % 256) as u8]
            },
            Chunk::Diff24 { dr, dg, db, da } => {
                let v = 0x1_0000 * DIFF_24 + 0x8000 * (dr + 15) + 0x400 * (dg + 15) + 0x20 * (db
                    + 15) + (da + 15);
                seq![(v / 0x1_0000) as u8, (v / 256 % 256) as u8, (v % 256) as u8]
            },
            Chunk::Color { r, g, b, a } => seq![
                (COLOR + 8 * present(r) + 4 * present(g) + 2 * present(b) + present(a)) as u8,
            ] + literal(r) + literal(g) + literal(b) + literal(a),
        }
    }

    /// The chunk that starts at `pos` in `s` and its length in bytes, or
    /// `None` where `s` ends before the chunk does.  Every byte opens a
    /// chunk of some kind, so there is no other way to fail.
    pub open spec fn parse(s: Seq<u8>, pos: int) -> Option<(Chunk, int)> {
        if !(0 <= pos < s.len()) {
            None
        } else {
            let b1 = s[pos];
            let len = parse_len(b1);
            if pos + len > s.len() {
                None
            } else if b1 < RUN_8 {
                Some((Chunk::Index { slot: b1 }, len))
            } else if b1 < RUN_16 {
                Some((Chunk::Run { len: (b1 - RUN_8 + 1) as u16 }, len))
            } else if b1 < DIFF_8 {
                Some((long_run_of(b1, s[pos + 1]), len))
            } else if b1 < DIFF_16 {
                Some((diff8_of(b1), len))
            } else if b1 < DIFF_24 {
                Some((diff16_of(b1, s[pos + 1]), len))
            } else if b1 < COLOR {
                Some((diff24_of(b1, s[pos + 1], s[pos + 2]), len))
            } else {
                Some((color_of(s, pos), len))
            }
        }
    }

    /// The pixel that the chunk stands for, given the pixel before it and
    /// the color table.
    pub open spec fn spec_apply(self, px: Rgba, index: Seq<Rgba>) -> Rgba {
        match self {
            Chunk::Index { slot } => index[slot as int],
            Chunk::Run { .. } => px,
            Chunk::Diff8 { dr, dg, db } => Rgba {
                r: wrap_add(px.r, dr as int),
                g: wrap_add(px.g, dg as int),
                b: wrap_add(px.b, db as int),
                a: px.a,
            },
            Chunk::Diff16 { dr, dg, db } => Rgba {
                r: wrap_add(px.r, dr as int),
                g: wrap_add(px.g, dg as int),
                b: wrap_add(px.b, db as int),
                a: px.a,
            },
            Chunk::Diff24 { dr, dg, db, da } => Rgba {
                r: wrap_add(px.r, dr as int),
                g: wrap_add(px.g, dg as int),
                b: wrap_add(px.b, db as int),
                a: wrap_add(px.a, da as int),
            },
            Chunk::Color { r, g, b, a } => Rgba {
                r: if let Some(v) = r { v } else { px.r },
                g: if let Some(v) = g { v } else { px.g },
                b: if let Some(v) = b { v } else { px.b },
                a: if let Some(v) = a { v } else { px.a },
            },
        }
    }

    /// How many repeats of the pixel follow the pixel that the chunk stands for.
    pub open spec fn repeats(self) -> nat {
        match self {
            Chunk::Run { len } => (len - 1) as nat,
            _ => 0,
        }
    }

    /// The chunk that tells `px` by its difference to `prev`: the shortest
    /// diff chunk that holds the differences, else a color chunk with the
    /// channels that changed.
    pub open spec fn spec_between(prev: Rgba, px: Rgba) -> Chunk {
        let dr = px.r - prev.r;
        let dg = px.g - prev.g;
        let db = px.b - prev.b;
        let da = px.a - prev.a;
        if da == 0 && fits2(dr) && fits2(dg) && fits2(db) {
            Chunk::Diff8 { dr: dr as i8, dg: dg as i8, db: db as i8 }
        } else if da == 0 && fits5(dr) && fits4(dg) && fits4(db) {
            Chunk::Diff16 { dr: dr as i8, dg: dg as i8, db: db as i8 }
        } else if fits5(dr) && fits5(dg) && fits5(db) && fits5(da) {
            Chunk::Diff24 { dr: dr as i8, dg: dg as i8, db: db as i8, da: da as i8 }
        } else {
            Chunk::Color {
                r: if dr != 0 { Some(px.r) } else { None },
                g: if dg != 0 { Some(px.g) } else { None },
                b: if db != 0 { Some(px.b) } else { None },
                a: if da != 0 { Some(px.a) } else { None },
            }
        }
    }

    /// Appends the chunk to `out`.
    pub fn write(&self, out: &mut Vec<u8>)
        requires
            self.wf(),
        ensures
            final(out)@ == old(out)@ + self.bytes(),
    {
        match *self {
            Chunk::Index { slot } => {
                out.push(slot);
            },
            Chunk::Run { len } => {
                if len <= MAX_SHORT_RUN {
                    let v: u8 = (len - 1) as u8;
                    proof {
                        lemma_run_bits(v, 0);
                    }
                    out.push(RUN_8 | v);
                } else {
                    let v: u16 = len - (MAX_SHORT_RUN + 1);
                    proof {
                        lemma_run_bits(0, v);
                    }
                    out.push(RUN_16 | (v >> 8) as u8);
                    out.push((v & 0xff) as u8);
                }
            },
            Chunk::Diff8 { dr, dg, db } => {
                let x: u8 = (dr + 1) as u8;
                let y: u8 = (dg + 1) as u8;
                let z: u8 = (db + 1) as u8;
                proof {
                    lemma_diff8_bits(x, y, z);
                }
                out.push(DIFF_8 | (x << 4) | (y << 2) | z);
            },
            Chunk::Diff16 { dr, dg, db } => {
                let x: u8 = (dr + 15) as u8;
                let y: u8 = (dg + 7) as u8;
                let z: u8 = (db + 7) as u8;
                proof {
                    lemma_diff16_bits(x, y, z);
                }
                out.push(DIFF_16 | x);
                out.push((y << 4) | z);
            },
            Chunk::Diff24 { dr, dg, db, da } => {
                let x: u8 = (dr + 15) as u8;
                let y: u8 = (dg + 15) as u8;
                let z: u8 = (db + 15) as u8;
                let w: u8 = (da + 15) as u8;
                proof {
                    lemma_diff24_bits(x, y, z, w);
                }
                out.push(DIFF_24 | (x >> 1));
                out.push((x << 7) | (y << 2) | (z >> 3));
                out.push((z << 5) | w);
            },
            Chunk::Color { r, g, b, a } => {
                let mr: u8 = if r.is_some() { 8 } else { 0 };
                let mg: u8 = if g.is_some() { 4 } else { 0 };
                let mb: u8 = if b.is_some() { 2 } else { 0 };
                let ma: u8 = if a.is_some() { 1 } else { 0 };
                proof {
                    lemma_mask_bits(mr, mg, mb, ma);
                }
                out.push(COLOR | mr | mg | mb | ma);
                if let Some(v) = r {
                    out.push(v);
                }
                if let Some(v) = g {
                    out.push(v);
                }
                if let Some(v) = b {
                    out.push(v);
                }
                if let Some(v) = a {
                    out.push(v);
                }
            },
        }
        assert(out@ =~= old(out)@ + self.bytes());
    }

    /// Reads the chunk that starts at `pos` in `data`.  Returns the chunk
    /// and the position behind it, or `None` where `data` ends before the
    /// chunk does.
    pub fn read(data: &[u8], pos: usize) -> (r: Option<(Chunk, usize)>)
        ensures
            match Chunk::parse(data@, pos as int) {
                Some((c, len)) => r matches Some((chunk, next)) && chunk == c && next == pos + len
                    && next <= data@.len() && c.wf(),
                None => r is None,
            },
    {
        let end: usize = data.len();
        if pos >= end {
            return None;
        }
        let b1: u8 = data[pos];
        proof {
            lemma_leading_bits(b1);
        }
        if b1 & MASK_2 == INDEX {
            Some((Chunk::Index { slot: b1 }, pos + 1))
        } else if b1 & MASK_3 == RUN_8 {
            Some((Chunk::Run { len: (b1 & 0x1f) as u16 + 1 }, pos + 1))
        } else if b1 & MASK_3 == RUN_16 {
            if end - pos < 2 {
                return None;
            }
            let b2: u8 = data[pos + 1];
            proof {
                lemma_long_run_read(b1, b2);
            }
            Some((Chunk::Run { len: ((((b1 & 0x1f) as u16) << 8) | b2 as u16) + (MAX_SHORT_RUN + 1) }, pos + 2))
        } else if b1 & MASK_2 == DIFF_8 {
            proof {
                lemma_diff8_read(b1);
            }
            Some(
                (
                    Chunk::Diff8 {
                        dr: ((b1 >> 4) & 0x03) as i8 - 1,
                        dg: ((b1 >> 2) & 0x03) as i8 - 1,
                        db: (b1 & 0x03) as i8 - 1,
                    },
                    pos + 1,
                ),
            )
        } else if b1 & MASK_3 == DIFF_16 {
            if end - pos < 2 {
                return None;
            }
            let b2: u8 = data[pos + 1];
            proof {
                lemma_diff16_read(b1, b2);
            }
            Some(
                (
                    Chunk::Diff16 {
                        dr: (b1 & 0x1f) as i8 - 15,
                        dg: (b2 >> 4) as i8 - 7,
                        db: (b2 & 0x0f) as i8 - 7,
                    },
                    pos + 2,
                ),
            )
        } else if b1 & MASK_4 == DIFF_24 {
            if end - pos < 3 {
                return None;
            }
            let b2: u8 = data[pos + 1];
            let b3: u8 = data[pos + 2];
            proof {
                lemma_diff24_read(b1, b2, b3);
            }
            Some(
                (
                    Chunk::Diff24 {
                        dr: (((b1 & 0x0f) << 1) | (b2 >> 7)) as i8 - 15,
                        dg: ((b2 & 0x7c) >> 2) as i8 - 15,
                        db: (((b2 & 0x03) << 3) | (b3 >> 5)) as i8 - 15,
                        da: (b3 & 0x1f) as i8 - 15,
                    },
                    pos + 3,
                ),
            )
        } else {
            Chunk::read_color(data, pos)
        }
    }

    /// Reads the color chunk whose mask byte stands at `pos` in `data`.
    fn read_color(data: &[u8], pos: usize) -> (r: Option<(Chunk, usize)>)
        requires
            pos < data@.len(),
            data@[pos as int] >= COLOR,
        ensures
            match Chunk::parse(data@, pos as int) {
                Some((c, len)) => r matches Some((chunk, next)) && chunk == c && next == pos + len
                    && next <= data@.len() && c.wf(),
                None => r is None,
            },
    {
        let end: usize = data.len();
        let b1: u8 = data[pos];
        proof {
            lemma_mask_read(b1);
        }
        let mut at: usize = pos + 1;
        let mut r: Option<u8> = None;
        let mut g: Option<u8> = None;
        let mut b: Option<u8> = None;
        let mut a: Option<u8> = None;
        if b1 & 8 != 0 {
            if at >= end {
                return None;
            }
            r = Some(data[at]);
            at = at + 1;
        }
        if b1 & 4 != 0 {
            if at >= end {
                return None;
            }
            g = Some(data[at]);
            at = at + 1;
        }
        if b1 & 2 != 0 {
            if at >= end {
                return None;
            }
            b = Some(data[at]);
            at = at + 1;
        }
        if b1 & 1 != 0 {
            if at >= end {
                return None;
            }
            a = Some(data[at]);
            at = at + 1;
        }
        Some((Chunk::Color { r, g, b, a }, at))
    }

    /// The pixel that the chunk stands for, given the pixel before it and
    /// the color table.
    pub fn apply(&self, px: Rgba, index: &[Rgba; 64]) -> (out: Rgba)
        requires
            self.wf(),
        ensures
            out == self.spec_apply(px, index@),
    {
        match *self {
            Chunk::Index { slot } => index[slot as usize],
            Chunk::Run { .. } => px,
            Chunk::Diff8 { dr, dg, db } => Rgba {
                r: add_wrapping(px.r, dr),
                g: add_wrapping(px.g, dg),
                b: add_wrapping(px.b, db),
                a: px.a,
            },
            Chunk::Diff16 { dr, dg, db } => Rgba {
                r: add_wrapping(px.r, dr),
                g: add_wrapping(px.g, dg),
                b: add_wrapping(px.b, db),
                a: px.a,
            },
            Chunk::Diff24 { dr, dg, db, da } => Rgba {
                r: add_wrapping(px.r, dr),
                g: add_wrapping(px.g, dg),
                b: add_wrapping(px.b, db),
                a: add_wrapping(px.a, da),
            },
            Chunk::Color { r, g, b, a } => Rgba {
                r: if let Some(v) = r { v } else { px.r },
                g: if let Some(v) = g { v } else { px.g },
                b: if let Some(v) = b { v } else { px.b },
                a: if let Some(v) = a { v } else { px.a },
            },
        }
    }

    /// The chunk that tells `px` by its difference to `prev`.
    pub fn between(prev: Rgba, px: Rgba) -> (c: Chunk)
        ensures
            c == Chunk::spec_between(prev, px),
            c.wf(),
    {
        let dr: i16 = px.r as i16 - prev.r as i16;
        let dg: i16 = px.g as i16 - prev.g as i16;
        let db: i16 = px.b as i16 - prev.b as i16;
        let da: i16 = px.a as i16 - prev.a as i16;
        if da == 0 && -1 <= dr && dr <= 2 && -1 <= dg && dg <= 2 && -1 <= db && db <= 2 {
            Chunk::Diff8 { dr: dr as i8, dg: dg as i8, db: db as i8 }
        } else if da == 0 && -15 <= dr && dr <= 16 && -7 <= dg && dg <= 8 && -7 <= db && db <= 8 {
            Chunk::Diff16 { dr: dr as i8, dg: dg as i8, db: db as i8 }
        } else if -15 <= dr && dr <= 16 && -15 <= dg && dg <= 16 && -15 <= db && db <= 16 && -15
            <= da && da <= 16 {
            Chunk::Diff24 { dr: dr as i8, dg: dg as i8, db: db as i8, da: da as i8 }
        } else {
            Chunk::Color {
                r: if dr != 0 { Some(px.r) } else { None },
                g: if dg != 0 { Some(px.g) } else { None },
                b: if db != 0 { Some(px.b) } else { None },
                a: if da != 0 { Some(px.a) } else { None },
            }
        }
    }
}

/// `x + d` on 8 bits, wrapping around.
fn add_wrapping(x: u8, d: i8) -> (r: u8)
    ensures
        r == wrap_add(x, d as int),
{
    x.wrapping_add_signed(d)
}

/// A well-formed chunk takes between one and five bytes; a run takes at most
/// two, and a chunk that leaves alpha alone at most four.
pub proof fn lemma_chunk_len(c: Chunk)
    ensures
        1 <= c.bytes().len() <= 5,
        c is Run ==> c.bytes().len() <= 2,
        c is Index ==> c.bytes().len() == 1,
        c is Diff8 || c is Diff16 || c is Diff24 ==> c.bytes().len() <= 3,
        c matches Chunk::Color { a, .. } ==> a is None ==> c.bytes().len() <= 4,
{
}

/// The fields of a long run can be read back from its two bytes.
proof fn lemma_long_run_fields(len: u16)
    requires
        33 <= len <= 8224,
    ensures
        ({
            let v = 0x6000 + (len - 33);
            let b1 = (v / 256) as u8;
            let b2 = (v % 256) as u8;
            0x60 <= b1 < 0x80 && long_run_of(b1, b2) == (Chunk::Run { len })
        }),
{
}

/// The fields of a diff 8 chunk can be read back from its byte.
proof fn lemma_diff8_fields(dr: i8, dg: i8, db: i8)
    requires
        fits2(dr as int),
        fits2(dg as int),
        fits2(db as int),
    ensures
        ({
            let b1 = (0x80 + 16 * (dr + 1) + 4 * (dg + 1) + (db + 1)) as u8;
            0x80 <= b1 < 0xc0 && diff8_of(b1) == (Chunk::Diff8 { dr, dg, db })
        }),
{
}

/// The fields of a diff 16 chunk can be read back from its two bytes.
proof fn lemma_diff16_fields(dr: i8, dg: i8, db: i8)
    requires
        fits5(dr as int),
        fits4(dg as int),
        fits4(db as int),
    ensures
        ({
            let v = 0xc000 + 256 * (dr + 15) + 16 * (dg + 7) + (db + 7);
            let b1 = (v / 256) as u8;
            let b2 = (v % 256) as u8;
            0xc0 <= b1 < 0xe0 && diff16_of(b1, b2) == (Chunk::Diff16 { dr, dg, db })
        }),
{
}

/// The fields of a diff 24 chunk can be read back from its three bytes.
proof fn lemma_diff24_fields(dr: i8, dg: i8, db: i8, da: i8)
    requires
        fits5(dr as int),
        fits5(dg as int),
        fits5(db as int),
        fits5(da as int),
    ensures
        ({
            let v = 0xe0_0000 + 0x8000 * (dr + 15) + 0x400 * (dg + 15) + 0x20 * (db + 15) + (da
                + 15);
            let b1 = (v / 0x1_0000) as u8;
            let b2 = (v / 256 % 256) as u8;
            let b3 = (v % 256) as u8;
            0xe0 <= b1 < 0xf0 && diff24_of(b1, b2, b3) == (Chunk::Diff24 { dr, dg, db, da })
        }),
{
    let x = (dr + 15) as u32;
    let y = (dg + 15) as u32;
    let z = (db + 15) as u32;
    let w = (da + 15) as u32;
    lemma_pack24(x, y, z, w);
}

/// The channels of a color chunk can be read back from its bytes.
proof fn lemma_color_fields(r: Option<u8>, g: Option<u8>, b: Option<u8>, a: Option<u8>, s: Seq<u8>, pos: int)
    requires
        0 <= pos,
        pos + (Chunk::Color { r, g, b, a }).bytes().len() <= s.len(),
        s.subrange(pos, pos + (Chunk::Color { r, g, b, a }).bytes().len()) == (Chunk::Color {
            r,
            g,
            b,
            a,
        }).bytes(),
    ensures
        s[pos] >= 0xf0,
        parse_len(s[pos]) == (Chunk::Color { r, g, b, a }).bytes().len(),
        color_of(s, pos) == (Chunk::Color { r, g, b, a }),
{
    let c = Chunk::Color { r, g, b, a };
    let w = c.bytes();
    let n = w.len() as int;
    let nr = present(r);
    let ng = present(g);
    let nb = present(b);
    let na = present(a);
    assert(n == 1 + nr + ng + nb + na);
    assert forall|t: int| 0 <= t < n implies s[pos + t] == w[t] by {
        assert(s.subrange(pos, pos + n)[t] == s[pos + t]);
    }
    assert(s[pos] == w[0]);
    let m = s[pos] - 0xf0;
    assert(m == 8 * nr + 4 * ng + 2 * nb + na);
    assert(m / 8 == nr);
    assert(m / 4 % 2 == ng);
    assert(m / 2 % 2 == nb);
    assert(m % 2 == na);
    if r is Some {
        assert(s[pos + 1] == w[1]);
    }
    if g is Some {
        assert(s[pos + 1 + nr] == w[1 + nr]);
    }
    if b is Some {
        assert(s[pos + 1 + nr + ng] == w[1 + nr + ng]);
    }
    if a is Some {
        assert(s[pos + 1 + nr + ng + nb] == w[1 + nr + ng + nb]);
    }
}

/// Reading finds a well-formed chunk where its bytes were written, whatever
/// stands before and after them.
pub proof fn lemma_parse_bytes(c: Chunk, s: Seq<u8>, pos: int)
    requires
        c.wf(),
        0 <= pos,
        pos + c.bytes().len() <= s.len(),
        s.subrange(pos, pos + c.bytes().len()) == c.bytes(),
    ensures
        Chunk::parse(s, pos) == Some((c, c.bytes().len() as int)),
{
    let w = c.bytes();
    let n = w.len() as int;
    lemma_chunk_len(c);
    assert forall|t: int| 0 <= t < n implies s[pos + t] == w[t] by {
        assert(s.subrange(pos, pos + n)[t] == s[pos + t]);
    }
    assert(s[pos] == w[0]);
    match c {
        Chunk::Index { slot } => {},
        Chunk::Run { len } => {
            if len > 32 {
                assert(s[pos + 1] == w[1]);
                lemma_long_run_fields(len);
            }
        },
        Chunk::Diff8 { dr, dg, db } => {
            lemma_diff8_fields(dr, dg, db);
        },
        Chunk::Diff16 { dr, dg, db } => {
            assert(s[pos + 1] == w[1]);
            lemma_diff16_fields(dr, dg, db);
        },
        Chunk::Diff24 { dr, dg, db, da } => {
            assert(s[pos + 1] == w[1]);
            assert(s[pos + 2] == w[2]);
            lemma_diff24_fields(dr, dg, db, da);
        },
        Chunk::Color { r, g, b, a } => {
            lemma_color_fields(r, g, b, a, s, pos);
        },
    }
}

/// Adding the difference between two samples to the first gives the second.
proof fn lemma_wrap_add_difference(x: u8, y: u8)
    ensures
        wrap_add(x, y - x) == y,
{
}

/// The chunk between two pixels is well-formed, is neither a run nor an
/// index chunk, and stands for the second pixel when applied to the first.
/// Where alpha stays, it takes at most four bytes.
pub proof fn lemma_between(prev: Rgba, px: Rgba, index: Seq<Rgba>)
    ensures
        Chunk::spec_between(prev, px).wf(),
        Chunk::spec_between(prev, px).spec_apply(prev, index) == px,
        Chunk::spec_between(prev, px).repeats() == 0,
        !(Chunk::spec_between(prev, px) is Index),
        1 <= Chunk::spec_between(prev, px).bytes().len() <= 5,
        prev.a == px.a ==> Chunk::spec_between(prev, px).bytes().len() <= 4,
{
    let c = Chunk::spec_between(prev, px);
    lemma_chunk_len(c);
    lemma_wrap_add_difference(prev.r, px.r);
    lemma_wrap_add_difference(prev.g, px.g);
    lemma_wrap_add_difference(prev.b, px.b);
    lemma_wrap_add_difference(prev.a, px.a);
    let dr = px.r - prev.r;
    let dg = px.g - prev.g;
    let db = px.b - prev.b;
    let da = px.a - prev.a;
    match c {
        Chunk::Diff8 { dr: cr, dg: cg, db: cb } => {
            assert(cr == dr && cg == dg && cb == db && da == 0);
        },
        Chunk::Diff16 { dr: cr, dg: cg, db: cb } => {
            assert(cr == dr && cg == dg && cb == db && da == 0);
        },
        Chunk::Diff24 { dr: cr, dg: cg, db: cb, da: ca } => {
            assert(cr == dr && cg == dg && cb == db && ca == da);
        },
        _ => {},
    }
}

} // verus!
