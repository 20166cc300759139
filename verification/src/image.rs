//! The image type that the codec takes and gives.

use vstd::prelude::*;

verus! {

/// A raster image: `width * height` pixels, row by row from the top, each
/// pixel with its samples in the order red, green, blue and, where the
/// image has four channels, alpha.
#[derive(Debug, PartialEq, Eq)]
pub struct Image {
    pub pixels: Box<[u8]>,
    pub width: u16,
    pub height: u16,
}

/// An image as a mathematical value.
pub struct ImageView {
    pub pixels: Seq<u8>,
    pub width: u16,
    pub height: u16,
}

impl View for Image {
    type V = ImageView;

    open spec fn view(&self) -> ImageView {
        ImageView { pixels: self.pixels@, width: self.width, height: self.height }
    }
}

impl ImageView {
    /// The number of pixels.
    pub open spec fn pixel_count(self) -> nat {
        (self.width * self.height) as nat
    }
}

/// The number of pixels of an image and the number of samples in its buffer.
pub(crate) fn sample_counts(width: u16, height: u16, channels: u32) -> (r: (u64, u64))
    requires
        channels == 3 || channels == 4,
    ensures
        r.0 == width * height,
        r.1 == width * height * channels,
        r.0 <= 0xffff * 0xffff,
{
    assert(0 <= width * height <= 0xffff * 0xffff) by (nonlinear_arith);
    let count: u64 = width as u64 * height as u64;
    let samples: u64 = if channels == 3 {
        count * 3
    } else {
        count * 4
    };
    (count, samples)
}

/// `Vec::into_boxed_slice` of the standard library: the boxed slice holds
/// the elements of the vector, in the same order.
#[verifier::external_body]
pub(crate) fn into_boxed(v: Vec<u8>) -> (b: Box<[u8]>)
    ensures
        b@ == v@,
{
    v.into_boxed_slice()
}

} // verus!
