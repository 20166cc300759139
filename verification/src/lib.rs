//! A lossless codec for raster images with three or four 8-bit channels.
//!
//! [`encode`] turns the pixels of an [`Image`] into a byte stream: a
//! twelve-byte [`header`], a sequence of [`chunk`]s, and four zero bytes.
//! [`decode`] turns such a stream back into an image.  Each chunk tells a
//! pixel by its place in a table of 64 recently seen colors, by its
//! difference to the pixel before it, or by new values for some of its
//! channels; or it tells that the pixel before it repeats up to 8224 times.
//!
//! What the two functions return is stated in terms of two state machines,
//! the models in [`encoder`] and [`decoder`].  The module [`laws`] proves
//! what holds of them together: decoding an encoded image gives the image
//! back, every stream is framed, no stream is longer than its bound, and
//! encoding is a function of its input.  The module [`lockstep`] holds the
//! invariant that keeps the decoder in step with the encoder.

mod bits;
pub mod chunk;
pub mod decoder;
pub mod encoder;
pub mod error;
pub mod header;
pub mod image;
pub mod laws;
pub mod lockstep;
pub mod pixel;

pub use decoder::decode;
pub use encoder::encode;
pub use error::Error;
pub use image::Image;
pub use pixel::Rgba;
