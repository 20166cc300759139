//! The decoder: a state machine over the chunks of a stream.
//!
//! The machine remembers the current pixel, a table of 64 recently seen
//! colors, the number of repeats that the last run chunk still owes, and
//! its position in the stream.  For every pixel of the image it either
//! repeats the current pixel or reads one chunk; then it files the pixel
//! in the table.

use crate::chunk::{Chunk, MAX_RUN};
use crate::error::Error;
use crate::header::{Header, HEADER_SIZE};
use crate::image::{into_boxed, sample_counts, Image, ImageView};
use crate::pixel::{
    blank_index, lemma_samples_push, lemma_slot_range, pixel_samples, samples_of, start_pixel, Rgba,
};
use vstd::prelude::*;
use vstd::slice::slice_subrange;

verus! {

/// What the decoder remembers between two pixels.
pub struct DecState {
    /// The pixel that was decoded last.
    pub px: Rgba,
    /// The table of recently seen colors, 64 slots.
    pub index: Seq<Rgba>,
    /// The number of repeats of `px` that are still to come.
    pub run: nat,
    /// The position of the next chunk in the body of the stream.
    pub pos: int,
}

impl DecState {
    /// The state before the first pixel.
    pub open spec fn start() -> DecState {
        DecState { px: start_pixel(), index: blank_index(), run: 0, pos: 0 }
    }

    /// Whether the state is one that the decoder can be in.
    pub open spec fn wf(self) -> bool {
        self.index.len() == 64 && self.run < MAX_RUN && 0 <= self.pos
    }

    /// The state after the next pixel, or `None` where `body` ends before
    /// the chunk that tells the pixel does.  Every pixel is filed in the
    /// table, repeats too.
    pub open spec fn step(self, body: Seq<u8>) -> Option<DecState> {
        if self.run > 0 {
            Some(
                DecState {
                    px: self.px,
                    index: self.index.update(self.px.slot(), self.px),
                    run: (self.run - 1) as nat,
                    pos: self.pos,
                },
            )
        } else {
            match Chunk::parse(body, self.pos) {
                Some((chunk, len)) => {
                    let px = chunk.spec_apply(self.px, self.index);
                    Some(
                        DecState {
                            px,
                            index: self.index.update(px.slot(), px),
                            run: chunk.repeats(),
                            pos: self.pos + len,
                        },
                    )
                },
                None => None,
            }
        }
    }
}

/// The state of the decoder after `i` pixels, or `None` where `body` ends
/// before the chunks for `i` pixels do.
pub open spec fn dec_state(body: Seq<u8>, i: nat) -> Option<DecState>
    decreases i,
{
    if i == 0 {
        Some(DecState::start())
    } else {
        match dec_state(body, (i - 1) as nat) {
            Some(s) => s.step(body),
            None => None,
        }
    }
}

/// The first `n` pixels that `body` tells.  Meant for `n` with
/// `dec_state(body, n)` not `None`.
pub open spec fn dec_pixels(body: Seq<u8>, n: nat) -> Seq<Rgba> {
    Seq::new(n, |i: int| dec_state(body, (i + 1) as nat).unwrap().px)
}

/// The header of a stream that can be decoded with `channels` channels:
/// it is there, no dimension is zero, the channel count is 3 or 4, and
/// the size field holds the number of bytes behind the header.
pub open spec fn stream_header(data: Seq<u8>, channels: u32) -> Option<Header> {
    match Header::parse(data) {
        Some(h) => if h.width > 0 && h.height > 0 && (channels == 3 || channels == 4) && h.size
            + 12 == data.len() {
            Some(h)
        } else {
            None
        },
        None => None,
    }
}

/// Whether a stream with a good header ends before the chunks for all
/// its pixels do.
pub open spec fn ends_early(data: Seq<u8>, channels: u32) -> bool {
    stream_header(data, channels) matches Some(h) && dec_state(
        data.skip(12),
        (h.width * h.height) as nat,
    ) is None
}

/// The image that a stream tells, or the reason why it tells none.
///
/// All that follows the header is read as chunks, as far as the pixels of
/// the image need it; what follows the last chunk is not looked at.
pub open spec fn spec_decode(data: Seq<u8>, channels: u32) -> Result<ImageView, Error> {
    match stream_header(data, channels) {
        None => Err(Error::InvalidArgument),
        Some(h) => if ends_early(data, channels) {
            Err(Error::Truncated)
        } else {
            Ok(
                ImageView {
                    pixels: samples_of(
                        dec_pixels(data.skip(12), (h.width * h.height) as nat),
                        channels as int,
                    ),
                    width: h.width,
                    height: h.height,
                },
            )
        },
    }
}

/// Once the stream has ended too early it stays so.
pub proof fn lemma_truncated_stays(body: Seq<u8>, i: nat, j: nat)
    requires
        i <= j,
        dec_state(body, i) is None,
    ensures
        dec_state(body, j) is None,
    decreases j,
{
    if i < j {
        lemma_truncated_stays(body, i, (j - 1) as nat);
    }
}

/// A decoder that reads a run chunk of length `m` gives its pixel `m` times:
/// after `t` of them it still owes `m - t` repeats and stands behind the chunk.
pub(crate) proof fn lemma_dec_run(body: Seq<u8>, a: nat, m: nat, len: int, t: nat)
    requires
        dec_state(body, a) matches Some(d) && d.run == 0 && d.index.len() == 64 && Chunk::parse(
            body,
            d.pos,
        ) == Some((Chunk::Run { len: m as u16 }, len)),
        1 <= t <= m <= 8224,
    ensures
        ({
            let d = dec_state(body, a).unwrap();
            dec_state(body, a + t) == Some(
                DecState {
                    px: d.px,
                    index: d.index.update(d.px.slot(), d.px),
                    run: (m - t) as nat,
                    pos: d.pos + len,
                },
            )
        }),
    decreases t,
{
    let d = dec_state(body, a).unwrap();
    lemma_slot_range(d.px);
    if t == 1 {
        assert(dec_state(body, a + 1) == d.step(body));
    } else {
        lemma_dec_run(body, a, m, len, (t - 1) as nat);
        let s = dec_state(body, (a + t - 1) as nat).unwrap();
        assert(dec_state(body, a + t) == s.step(body));
        assert(s.index.update(s.px.slot(), s.px) =~= s.index);
    }
}

/// The pixels that a body tells, one pixel further.
proof fn lemma_dec_pixels_push(body: Seq<u8>, i: nat)
    requires
        dec_state(body, i + 1) is Some,
    ensures
        dec_pixels(body, i + 1) == dec_pixels(body, i).push(dec_state(body, i + 1).unwrap().px),
{
    assert(dec_pixels(body, i + 1) =~= dec_pixels(body, i).push(
        dec_state(body, i + 1).unwrap().px,
    ));
}

/// The decoder's state in memory.
struct Decoder {
    px: Rgba,
    index: [Rgba; 64],
    run: u16,
    pos: usize,
}

impl View for Decoder {
    type V = DecState;

    closed spec fn view(&self) -> DecState {
        DecState { px: self.px, index: self.index@, run: self.run as nat, pos: self.pos as int }
    }
}

impl Decoder {
    /// A decoder before the first pixel.
    fn new() -> (d: Decoder)
        ensures
            d@ == DecState::start(),
    {
        let d = Decoder {
            px: Rgba { r: 0, g: 0, b: 0, a: 255 },
            index: [Rgba::default(); 64],
            run: 0,
            pos: 0,
        };
        assert(d.index@ =~= blank_index());
        d
    }

    /// Decodes the next pixel from `body`, or returns `None` where `body`
    /// ends before the chunk that tells it does.
    fn next(&mut self, body: &[u8]) -> (r: Option<Rgba>)
        requires
            old(self)@.wf(),
        ensures
            match old(self)@.step(body@) {
                Some(s) => final(self)@ == s && r == Some(s.px) && s.wf(),
                None => r is None,
            },
    {
        if self.run > 0 {
            self.run = self.run - 1;
        } else {
            match Chunk::read(body, self.pos) {
                Some((chunk, next)) => {
                    self.px = chunk.apply(self.px, &self.index);
                    if let Chunk::Run { len } = chunk {
                        self.run = len - 1;
                    }
                    self.pos = next;
                },
                None => {
                    return None;
                },
            }
        }
        proof {
            lemma_slot_range(self.px);
        }
        self.index[(self.px.hash() % 64) as usize] = self.px;
        proof {
            let s = old(self)@.step(body@).unwrap();
            assert(self@.index =~= s.index);
        }
        Some(self.px)
    }
}

/// Appends the samples of `px` to `out`.
fn push_samples(out: &mut Vec<u8>, px: Rgba, channels: u32)
    requires
        channels == 3 || channels == 4,
    ensures
        final(out)@ == old(out)@ + pixel_samples(px, channels as int),
{
    out.push(px.r);
    out.push(px.g);
    out.push(px.b);
    if channels == 4 {
        out.push(px.a);
    }
    assert(out@ =~= old(out)@ + pixel_samples(px, channels as int));
}

/// Decodes a stream into an image with 3 or 4 channels.  With 3 channels
/// the alpha that the stream tells is dropped.
///
/// Fails with [`Error::InvalidArgument`] where the stream is shorter than a
/// header, does not open with the magic bytes, gives a dimension as zero or
/// a size other than the number of bytes behind the header, or where the
/// channel count is neither 3 nor 4; else with [`Error::Truncated`] where
/// the stream ends before the chunks for all pixels do.
pub fn decode(data: &[u8], channels: u32) -> (res: Result<Image, Error>)
    ensures
        match spec_decode(data@, channels) {
            Ok(image) => res matches Ok(out) && out@ == image,
            Err(e) => res matches Err(f) && f == e,
        },
        stream_header(data@, channels) is None <==> (res matches Err(e) && e
            == Error::InvalidArgument),
        ends_early(data@, channels) <==> (res matches Err(e) && e == Error::Truncated),
        res matches Ok(out) ==> out.width > 0 && out.height > 0 && out.pixels@.len() == out.width
            * out.height * channels,
{
    let header = match Header::read(data) {
        Some(h) => h,
        None => {
            return Err(Error::InvalidArgument);
        },
    };
    if channels < 3 || channels > 4 || header.width == 0 || header.height == 0 || header.size as u64
        + 12 != data.len() as u64 {
        return Err(Error::InvalidArgument);
    }
    let (count, samples): (u64, u64) = sample_counts(header.width, header.height, channels);
    let body = slice_subrange(data, HEADER_SIZE, data.len());
    assert(body@ == data@.skip(12));
    let mut pixels: Vec<u8> = if samples <= usize::MAX as u64 {
        Vec::with_capacity(samples as usize)
    } else {
        Vec::new()
    };
    let mut dec = Decoder::new();
    let mut done: u64 = 0;
    while done < count
        invariant
            stream_header(data@, channels) == Some(header),
            body@ == data@.skip(12),
            count == header.width * header.height,
            channels == 3 || channels == 4,
            done <= count,
            dec_state(body@, done as nat) == Some(dec@),
            dec@.wf(),
            pixels@ == samples_of(dec_pixels(body@, done as nat), channels as int),
        decreases count - done,
    {
        let px = match dec.next(body) {
            Some(px) => px,
            None => {
                proof {
                    lemma_truncated_stays(body@, (done + 1) as nat, count as nat);
                }
                return Err(Error::Truncated);
            },
        };
        push_samples(&mut pixels, px, channels);
        proof {
            lemma_dec_pixels_push(body@, done as nat);
            lemma_samples_push(dec_pixels(body@, done as nat), px, channels as int);
        }
        done = done + 1;
    }
    Ok(Image { pixels: into_boxed(pixels), width: header.width, height: header.height })
}

} // verus!
