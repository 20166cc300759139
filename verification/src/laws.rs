//! What holds of the codec as a whole: the frame around every stream, the
//! bound on its length, that encoding is a function of its input, and that
//! decoding an encoded image gives the image back.

use crate::decoder::{dec_pixels, dec_state, decode, spec_decode, stream_header};
use crate::encoder::{
    enc_bytes, encode, encoded_body, lemma_enc_bytes_bound, lemma_run_history, opaque_if_rgb,
    spec_encode,
};
use crate::error::Error;
use crate::header::{be16, be32, lemma_header_round_trip, magic, padding, Header};
use crate::image::{Image, ImageView};
use crate::lockstep::{agree, lemma_agree};
use crate::pixel::{lemma_samples_of_pixels, pixels_of, Rgba};
use vstd::prelude::*;

verus! {

/// After every pixel the decoder of the chunks written for a sequence of
/// pixels holds the pixel that the encoder held, and a table that agrees
/// with the encoder's, whatever follows the chunks.
pub proof fn lemma_states_agree(pixels: Seq<Rgba>, rest: Seq<u8>, j: nat)
    requires
        j <= pixels.len(),
    ensures
        agree(pixels, enc_bytes(pixels, pixels.len()) + rest, j),
{
    let n = pixels.len();
    let chunks = enc_bytes(pixels, n);
    let body = chunks + rest;
    assert(body.take(chunks.len() as int) =~= chunks);
    lemma_run_history(pixels, n);
    lemma_agree(pixels, body, j, n);
}

/// Decoding the chunks written for a sequence of pixels gives the pixels
/// back, whatever follows the chunks.
pub proof fn lemma_chunks_round_trip(pixels: Seq<Rgba>, rest: Seq<u8>)
    ensures
        dec_state(enc_bytes(pixels, pixels.len()) + rest, pixels.len()) is Some,
        dec_pixels(enc_bytes(pixels, pixels.len()) + rest, pixels.len()) == pixels,
{
    let n = pixels.len();
    let body = enc_bytes(pixels, n) + rest;
    lemma_states_agree(pixels, rest, n);
    assert forall|i: int| 0 <= i < n implies dec_pixels(body, n)[i] == pixels[i] by {
        lemma_states_agree(pixels, rest, (i + 1) as nat);
        lemma_run_history(pixels, (i + 1) as nat);
    }
    assert(dec_pixels(body, n) =~= pixels);
}

/// Whether `stream` has the frame of a stream for an image of the given
/// dimensions: it opens with the magic bytes and the dimensions, its size
/// field holds the number of bytes behind the header (modulo 2^32, which is
/// that number itself wherever it fits 32 bits), and it closes with four
/// zero bytes.
pub open spec fn framed(stream: Seq<u8>, width: u16, height: u16) -> bool {
    &&& stream.len() >= 16
    &&& stream.subrange(0, 4) == magic()
    &&& stream.subrange(4, 6) == be16(width)
    &&& stream.subrange(6, 8) == be16(height)
    &&& stream.subrange(8, 12) == be32(((stream.len() - 12) % 0x1_0000_0000) as u32)
    &&& stream.subrange(stream.len() - 4, stream.len() as int) == padding()
}

/// Every stream has the frame for its image.
pub proof fn lemma_framing(img: ImageView, channels: u32)
    requires
        spec_encode(img, channels) is Ok,
    ensures
        framed(spec_encode(img, channels).unwrap(), img.width, img.height),
{
    let stream = spec_encode(img, channels).unwrap();
    let body = encoded_body(pixels_of(img.pixels, channels as int, img.pixel_count()));
    let header = Header {
        width: img.width,
        height: img.height,
        size: (body.len() % 0x1_0000_0000) as u32,
    };
    assert(stream == header.bytes() + body);
    assert(header.bytes().len() == 12);
    assert(stream.subrange(0, 4) =~= magic());
    assert(stream.subrange(4, 6) =~= be16(img.width));
    assert(stream.subrange(6, 8) =~= be16(img.height));
    assert(stream.subrange(8, 12) =~= be32(header.size));
    assert(stream.subrange(stream.len() - 4, stream.len() as int) =~= padding());
}

/// No stream is longer than `channels + 1` bytes for each pixel and
/// 16 bytes for the header and the padding.
pub proof fn lemma_encoded_len(img: ImageView, channels: u32)
    requires
        spec_encode(img, channels) is Ok,
    ensures
        spec_encode(img, channels).unwrap().len() <= img.width * img.height * (channels + 1) + 16,
{
    let n = img.pixel_count();
    let pixels = pixels_of(img.pixels, channels as int, n);
    let chunks = enc_bytes(pixels, n);
    assert(opaque_if_rgb(pixels, channels as int));
    lemma_enc_bytes_bound(pixels, channels as int, n);
    lemma_run_history(pixels, n);
    assert(chunks.len() <= (channels + 1) * n);
    assert((channels + 1) * n == n * (channels + 1)) by (nonlinear_arith);
    let stream = spec_encode(img, channels).unwrap();
    assert(stream.len() == 12 + chunks.len() + 4);
}

/// Decoding an encoded image gives back the dimensions and the samples that
/// were encoded, with three channels as with four.
///
/// This holds of every image whose stream fits its size field, that is,
/// whose stream has at most 2^32 - 1 bytes behind the header.
pub proof fn lemma_round_trip(img: ImageView, channels: u32)
    requires
        spec_encode(img, channels) matches Ok(stream) && stream.len() - 12 <= u32::MAX,
    ensures
        spec_decode(spec_encode(img, channels).unwrap(), channels) == Ok::<ImageView, Error>(
            ImageView {
                pixels: img.pixels.take(img.pixel_count() * channels),
                width: img.width,
                height: img.height,
            },
        ),
{
    let n = img.pixel_count();
    let stream = spec_encode(img, channels).unwrap();
    let pixels = pixels_of(img.pixels, channels as int, n);
    let body = encoded_body(pixels);
    let header = Header {
        width: img.width,
        height: img.height,
        size: (body.len() % 0x1_0000_0000) as u32,
    };
    lemma_header_round_trip(header, body);
    assert(stream.len() == 12 + body.len());
    assert(stream_header(stream, channels) == Some(header));
    assert(stream.skip(12) =~= body);
    lemma_chunks_round_trip(pixels, padding());
    lemma_samples_of_pixels(img.pixels, channels as int, n);
    assert(n * channels == img.pixel_count() * channels);
}

/// What [`decode`] returns for what [`encode`] returned: the image that was
/// encoded, with its dimensions and with the samples that were encoded.
///
/// This holds of every stream that fits its size field.
pub proof fn lemma_decode_encoded(
    img: Image,
    channels: u32,
    stream: Box<[u8]>,
    data: &[u8],
    back: Result<Image, Error>,
)
    requires
        call_ensures(encode, (img, channels), Ok::<Box<[u8]>, Error>(stream)),
        stream@.len() - 12 <= u32::MAX,
        data@ == stream@,
        call_ensures(decode, (data, channels), back),
    ensures
        back matches Ok(out) && out.width == img.width && out.height == img.height
            && out.pixels@ == img.pixels@.take(img.width * img.height * channels),
{
    lemma_round_trip(img@, channels);
}

/// Encoding is a function of the image and the channel count: whatever two
/// calls of [`encode`] on equal images with the same channel count return,
/// they return the same.
pub proof fn lemma_encode_deterministic(
    first: Image,
    second: Image,
    channels: u32,
    a: Result<Box<[u8]>, Error>,
    b: Result<Box<[u8]>, Error>,
)
    requires
        first@ == second@,
        call_ensures(encode, (first, channels), a),
        call_ensures(encode, (second, channels), b),
    ensures
        match (a, b) {
            (Ok(x), Ok(y)) => x@ == y@,
            (Err(e), Err(f)) => e == f,
            _ => false,
        },
{
}

} // verus!
