//! Pixels, the color hash, and the correspondence between raw sample
//! buffers and pixel sequences.

use vstd::prelude::*;

verus! {

/// One pixel: four 8-bit channels.
#[derive(Copy, Clone, Debug, PartialEq, Eq, Structural)]
pub struct Rgba {
    pub r: u8,
    pub g: u8,
    pub b: u8,
    pub a: u8,
}

impl Rgba {
    /// The color hash as a mathematical value: the exclusive or of the four channels.
    pub open spec fn spec_hash(&self) -> u8 {
        self.r ^ self.g ^ self.b ^ self.a
    }

    /// The slot of the color table that this pixel is filed under.
    pub open spec fn slot(&self) -> int {
        self.spec_hash() as int % 64
    }

    /// The color hash: the exclusive or of the four channels.
    #[verifier::when_used_as_spec(spec_hash)]
    pub fn hash(&self) -> (h: u8)
        ensures
            h == self.r ^ self.g ^ self.b ^ self.a,
    {
        self.r ^ self.g ^ self.b ^ self.a
    }
}

impl Default for Rgba {
    /// The blank pixel that fills a fresh color table.
    fn default() -> (p: Rgba)
        ensures
            p == blank_pixel(),
    {
        Rgba { r: 0, g: 0, b: 0, a: 0 }
    }
}

/// The predictor before the first pixel: opaque black.
pub open spec fn start_pixel() -> Rgba {
    Rgba { r: 0, g: 0, b: 0, a: 255 }
}

/// The pixel in every slot of a fresh color table: transparent black.
pub open spec fn blank_pixel() -> Rgba {
    Rgba { r: 0, g: 0, b: 0, a: 0 }
}

/// A fresh color table.
pub open spec fn blank_index() -> Seq<Rgba> {
    Seq::new(64, |i: int| blank_pixel())
}

/// Pixel number `i` of a raw buffer with `channels` samples per pixel.
/// A three-channel pixel is opaque.
pub open spec fn pixel_at(raw: Seq<u8>, channels: int, i: int) -> Rgba {
    if channels == 4 {
        Rgba { r: raw[4 * i], g: raw[4 * i + 1], b: raw[4 * i + 2], a: raw[4 * i + 3] }
    } else {
        Rgba { r: raw[3 * i], g: raw[3 * i + 1], b: raw[3 * i + 2], a: 255 }
    }
}

/// The first `n` pixels of a raw buffer.
pub open spec fn pixels_of(raw: Seq<u8>, channels: int, n: nat) -> Seq<Rgba> {
    Seq::new(n, |i: int| pixel_at(raw, channels, i))
}

/// Sample number `k` (0 = red, 1 = green, 2 = blue, 3 = alpha) of a pixel.
pub open spec fn sample(p: Rgba, k: int) -> u8 {
    if k == 0 {
        p.r
    } else if k == 1 {
        p.g
    } else if k == 2 {
        p.b
    } else {
        p.a
    }
}

/// The raw buffer that holds `pixels` with `channels` samples each.
/// With three channels the alpha samples are left out.
pub open spec fn samples_of(pixels: Seq<Rgba>, channels: int) -> Seq<u8> {
    if channels == 4 {
        Seq::new(4 * pixels.len(), |k: int| sample(pixels[k / 4], k % 4))
    } else {
        Seq::new(3 * pixels.len(), |k: int| sample(pixels[k / 3], k % 3))
    }
}

/// The samples of a pixel as they stand in a buffer with `channels` channels.
pub open spec fn pixel_samples(px: Rgba, channels: int) -> Seq<u8> {
    if channels == 4 {
        seq![px.r, px.g, px.b, px.a]
    } else {
        seq![px.r, px.g, px.b]
    }
}

/// The blank pixel is filed under slot 0 and the start pixel under slot 63.
pub proof fn lemma_known_slots()
    ensures
        blank_pixel().slot() == 0,
        start_pixel().slot() == 63,
{
    assert(0u8 ^ 0u8 ^ 0u8 ^ 0u8 == 0u8) by (bit_vector);
    assert(0u8 ^ 0u8 ^ 0u8 ^ 255u8 == 255u8) by (bit_vector);
}

/// Every pixel is filed under one of the 64 slots.
pub proof fn lemma_slot_range(p: Rgba)
    ensures
        0 <= p.slot() < 64,
{
}

/// Reading the pixels of a buffer and writing their samples out again
/// gives the part of the buffer that was read.
pub proof fn lemma_samples_of_pixels(raw: Seq<u8>, channels: int, n: nat)
    requires
        channels == 3 || channels == 4,
        raw.len() >= n * channels,
    ensures
        samples_of(pixels_of(raw, channels, n), channels) == raw.take(n * channels),
{
    let got = samples_of(pixels_of(raw, channels, n), channels);
    let want = raw.take(n * channels);
    assert(got.len() == want.len());
    assert forall|k: int| 0 <= k < got.len() implies got[k] == want[k] by {
        if channels == 4 {
            assert(k == 4 * (k / 4) + k % 4);
        } else {
            assert(k == 3 * (k / 3) + k % 3);
        }
    }
    assert(got =~= want);
}

/// The samples of a sequence of pixels with one more pixel at its end.
pub proof fn lemma_samples_push(pixels: Seq<Rgba>, px: Rgba, channels: int)
    requires
        channels == 3 || channels == 4,
    ensures
        samples_of(pixels.push(px), channels) == samples_of(pixels, channels) + pixel_samples(
            px,
            channels,
        ),
{
    let got = samples_of(pixels.push(px), channels);
    let want = samples_of(pixels, channels) + pixel_samples(px, channels);
    assert(got.len() == want.len());
    assert forall|k: int| 0 <= k < got.len() implies got[k] == want[k] by {
        if channels == 4 {
            assert(k == 4 * (k / 4) + k % 4);
        } else {
            assert(k == 3 * (k / 3) + k % 3);
        }
    }
    assert(got =~= want);
}

} // verus!
