//! The encoder: a state machine over the pixels of an image.
//!
//! The machine remembers the previous pixel, a table of 64 recently seen
//! colors and the length of the run of repeats that it has not written
//! yet.  For every pixel it writes nothing (the run goes on), a run chunk
//! (the run ends), and, where the pixel differs from the previous one, a
//! chunk that tells the pixel.

use crate::chunk::{lemma_between, lemma_chunk_len, Chunk, MAX_RUN};
use crate::error::Error;
use crate::header::{padding, Header, HEADER_SIZE};
use crate::image::{into_boxed, sample_counts, Image, ImageView};
use crate::laws::{framed, lemma_encoded_len, lemma_framing};
use crate::pixel::{blank_index, lemma_slot_range, pixels_of, start_pixel, Rgba};
use vstd::prelude::*;

verus! {

/// What the encoder remembers between two pixels.
pub struct EncState {
    /// The pixel before the next one.
    pub prev: Rgba,
    /// The table of recently seen colors, 64 slots.
    pub index: Seq<Rgba>,
    /// The number of repeats of `prev` that no chunk has told yet.
    pub run: nat,
}

impl EncState {
    /// The state before the first pixel.
    pub open spec fn start() -> EncState {
        EncState { prev: start_pixel(), index: blank_index(), run: 0 }
    }

    /// Whether the state is one that the encoder can be in.
    pub open spec fn wf(self) -> bool {
        self.index.len() == 64 && self.run < MAX_RUN
    }

    /// The length of the run once `px` has been looked at.
    pub open spec fn run_with(self, px: Rgba) -> nat {
        if px == self.prev {
            self.run + 1
        } else {
            self.run
        }
    }

    /// Whether the run ends at `px`: it is as long as a chunk can hold,
    /// `px` breaks it, or `px` is the last pixel of the image.
    pub open spec fn flushes(self, px: Rgba, last: bool) -> bool {
        self.run_with(px) > 0 && (self.run_with(px) == MAX_RUN || px != self.prev || last)
    }

    /// The chunk that tells a pixel `px` that differs from the previous
    /// one: its slot where the table holds it, else the chunk between the
    /// two pixels.
    pub open spec fn pixel_chunk(self, px: Rgba) -> Chunk {
        if self.index[px.slot()] == px {
            Chunk::Index { slot: px.slot() as u8 }
        } else {
            Chunk::spec_between(self.prev, px)
        }
    }

    /// The run chunk that the encoder writes at `px`: the run that ends
    /// there, or nothing.
    pub open spec fn run_bytes(self, px: Rgba, last: bool) -> Seq<u8> {
        if self.flushes(px, last) {
            (Chunk::Run { len: self.run_with(px) as u16 }).bytes()
        } else {
            Seq::empty()
        }
    }

    /// The chunk that the encoder writes to tell `px`, or nothing where
    /// `px` repeats the previous pixel.
    pub open spec fn pixel_bytes(self, px: Rgba) -> Seq<u8> {
        if px != self.prev {
            self.pixel_chunk(px).bytes()
        } else {
            Seq::empty()
        }
    }

    /// The bytes that the encoder writes for `px`: first the run that
    /// ends there, then the chunk that tells `px`.
    pub open spec fn step_bytes(self, px: Rgba, last: bool) -> Seq<u8> {
        self.run_bytes(px, last) + self.pixel_bytes(px)
    }

    /// The state after `px`.  The table changes only where a pixel is told
    /// by a diff or color chunk.
    pub open spec fn step(self, px: Rgba, last: bool) -> EncState {
        EncState {
            prev: px,
            index: if px != self.prev && self.index[px.slot()] != px {
                self.index.update(px.slot(), px)
            } else {
                self.index
            },
            run: if self.flushes(px, last) {
                0
            } else {
                self.run_with(px)
            },
        }
    }
}

/// The state of the encoder after the first `i` of `pixels`.
pub open spec fn enc_state(pixels: Seq<Rgba>, i: nat) -> EncState
    decreases i,
{
    if i == 0 {
        EncState::start()
    } else {
        enc_state(pixels, (i - 1) as nat).step(pixels[i - 1], i == pixels.len())
    }
}

/// The chunks that the encoder has written after the first `i` of `pixels`.
pub open spec fn enc_bytes(pixels: Seq<Rgba>, i: nat) -> Seq<u8>
    decreases i,
{
    if i == 0 {
        Seq::empty()
    } else {
        enc_bytes(pixels, (i - 1) as nat) + enc_state(pixels, (i - 1) as nat).step_bytes(
            pixels[i - 1],
            i == pixels.len(),
        )
    }
}

/// Everything behind the header of the stream for `pixels`: the chunks and the padding.
pub open spec fn encoded_body(pixels: Seq<Rgba>) -> Seq<u8> {
    enc_bytes(pixels, pixels.len()) + padding()
}

/// The stream for an image, or the reason why it has none.
///
/// The size field holds the length of the body modulo 2^32.
pub open spec fn spec_encode(img: ImageView, channels: u32) -> Result<Seq<u8>, Error> {
    if img.width == 0 || img.height == 0 || !(channels == 3 || channels == 4) || img.pixels.len()
        < img.pixel_count() * channels {
        Err(Error::InvalidArgument)
    } else {
        let body = encoded_body(pixels_of(img.pixels, channels as int, img.pixel_count()));
        let header = Header {
            width: img.width,
            height: img.height,
            size: (body.len() % 0x1_0000_0000) as u32,
        };
        Ok(header.bytes() + body)
    }
}

/// Where the encoder stands in the middle of a run of `k` repeats, it stood
/// in the same state, but for the run, `k` pixels earlier, has written
/// nothing since, and the `k` pixels since are the previous pixel.  No run
/// is left open at the end of the image.
pub(crate) proof fn lemma_run_history(pixels: Seq<Rgba>, j: nat)
    requires
        j <= pixels.len(),
    ensures
        ({
            let e = enc_state(pixels, j);
            let k = e.run;
            let before = enc_state(pixels, (j - k) as nat);
            &&& e.wf()
            &&& k <= j
            &&& j == pixels.len() ==> k == 0
            &&& j > 0 ==> e.prev == pixels[j - 1]
            &&& before.run == 0
            &&& before.prev == e.prev
            &&& before.index == e.index
            &&& enc_bytes(pixels, (j - k) as nat) == enc_bytes(pixels, j)
            &&& forall|t: int| j - k <= t < j ==> pixels[t] == e.prev
        }),
    decreases j,
{
    if j > 0 {
        let e1 = enc_state(pixels, (j - 1) as nat);
        let px = pixels[j - 1];
        let last = j == pixels.len();
        lemma_run_history(pixels, (j - 1) as nat);
        lemma_slot_range(px);
        let e = e1.step(px, last);
        assert(e == enc_state(pixels, j));
        if !e1.flushes(px, last) && px == e1.prev {
            assert(e1.step_bytes(px, last) =~= Seq::<u8>::empty());
            assert(enc_bytes(pixels, j) =~= enc_bytes(pixels, (j - 1) as nat));
        }
    }
}

/// While a run is open the encoder only counts: `t` pixels before it stood
/// in the same state with a run shorter by `t`.
pub(crate) proof fn lemma_run_interior(pixels: Seq<Rgba>, j: nat, t: nat)
    requires
        j <= pixels.len(),
        t <= enc_state(pixels, j).run,
    ensures
        t <= j,
        enc_state(pixels, (j - t) as nat).run == enc_state(pixels, j).run - t,
        enc_state(pixels, (j - t) as nat).prev == enc_state(pixels, j).prev,
        enc_state(pixels, (j - t) as nat).index == enc_state(pixels, j).index,
    decreases t,
{
    lemma_run_history(pixels, j);
    if t > 0 {
        let e1 = enc_state(pixels, (j - 1) as nat);
        let px = pixels[j - 1];
        let last = j == pixels.len();
        lemma_run_history(pixels, (j - 1) as nat);
        assert(enc_state(pixels, j) == e1.step(px, last));
        assert(px == e1.prev);
        lemma_run_interior(pixels, (j - 1) as nat, (t - 1) as nat);
    }
}

/// The encoder only ever appends: what it has written after `i` pixels
/// opens what it has written after `j >= i` pixels.
pub(crate) proof fn lemma_enc_bytes_prefix(pixels: Seq<Rgba>, i: nat, j: nat)
    requires
        i <= j,
    ensures
        enc_bytes(pixels, i).len() <= enc_bytes(pixels, j).len(),
        enc_bytes(pixels, j).take(enc_bytes(pixels, i).len() as int) == enc_bytes(pixels, i),
    decreases j,
{
    if i < j {
        lemma_enc_bytes_prefix(pixels, i, (j - 1) as nat);
        assert(enc_bytes(pixels, j).take(enc_bytes(pixels, i).len() as int) =~= enc_bytes(
            pixels,
            (j - 1) as nat,
        ).take(enc_bytes(pixels, i).len() as int));
    } else {
        assert(enc_bytes(pixels, j).take(enc_bytes(pixels, i).len() as int) =~= enc_bytes(
            pixels,
            i,
        ));
    }
}

/// Whether no pixel has an alpha other than 255 where the image has three channels.
pub open spec fn opaque_if_rgb(pixels: Seq<Rgba>, channels: int) -> bool {
    channels == 3 ==> forall|t: int| 0 <= t < pixels.len() ==> (#[trigger] pixels[t]).a == 255
}

/// The chunks for `i` pixels, of which the last `run` are a run that is
/// still open, take at most `channels + 1` bytes for each of the others.
pub(crate) proof fn lemma_enc_bytes_bound(pixels: Seq<Rgba>, channels: int, i: nat)
    requires
        i <= pixels.len(),
        channels == 3 || channels == 4,
        opaque_if_rgb(pixels, channels),
    ensures
        enc_bytes(pixels, i).len() <= (channels + 1) * (i - enc_state(pixels, i).run),
        channels == 3 ==> enc_state(pixels, i).prev.a == 255,
    decreases i,
{
    if i > 0 {
        let e1 = enc_state(pixels, (i - 1) as nat);
        let px = pixels[i - 1];
        let last = i == pixels.len();
        lemma_enc_bytes_bound(pixels, channels, (i - 1) as nat);
        lemma_run_history(pixels, (i - 1) as nat);
        let run = e1.run_bytes(px, last);
        let pixel = e1.pixel_bytes(px);
        assert(run.len() <= 2) by {
            if e1.flushes(px, last) {
                lemma_chunk_len(Chunk::Run { len: e1.run_with(px) as u16 });
            }
        }
        assert(pixel.len() <= channels + 1) by {
            if px != e1.prev {
                lemma_chunk_len(e1.pixel_chunk(px));
                lemma_between(e1.prev, px, e1.index);
            }
        }
        assert(e1.run > 0 && px != e1.prev ==> e1.flushes(px, last));
    }
}

/// The encoder's state in memory.
struct Encoder {
    prev: Rgba,
    index: [Rgba; 64],
    run: u16,
}

impl View for Encoder {
    type V = EncState;

    closed spec fn view(&self) -> EncState {
        EncState { prev: self.prev, index: self.index@, run: self.run as nat }
    }
}

impl Encoder {
    /// An encoder before the first pixel.
    fn new() -> (e: Encoder)
        ensures
            e@ == EncState::start(),
    {
        let e = Encoder {
            prev: Rgba { r: 0, g: 0, b: 0, a: 255 },
            index: [Rgba::default(); 64],
            run: 0,
        };
        assert(e.index@ =~= blank_index());
        e
    }

    /// Takes the next pixel and appends to `out` what has to be written for it.
    fn push(&mut self, px: Rgba, last: bool, out: &mut Vec<u8>)
        requires
            old(self)@.wf(),
        ensures
            final(self)@ == old(self)@.step(px, last),
            final(self)@.wf(),
            final(out)@ == old(out)@ + old(self)@.step_bytes(px, last),
    {
        let ghost before = self@;
        let ghost out0 = out@;
        let same = px == self.prev;
        if same {
            self.run = self.run + 1;
        }
        if self.run > 0 && (self.run == MAX_RUN || !same || last) {
            let chunk = Chunk::Run { len: self.run };
            chunk.write(out);
            self.run = 0;
        }
        if !same {
            proof {
                lemma_slot_range(px);
            }
            let slot: u8 = px.hash() % 64;
            if self.index[slot as usize] == px {
                let chunk = Chunk::Index { slot };
                chunk.write(out);
            } else {
                self.index[slot as usize] = px;
                let chunk = Chunk::between(self.prev, px);
                chunk.write(out);
            }
        }
        self.prev = px;
        assert(out@ =~= out0 + before.step_bytes(px, last));
        assert(self@.index =~= before.step(px, last).index);
    }
}

/// Appends to `out` the chunks for the first `count` pixels of `raw`.
fn encode_pixels(raw: &[u8], count: u64, channels: u32, out: &mut Vec<u8>)
    requires
        channels == 3 || channels == 4,
        count * channels <= raw@.len(),
    ensures
        final(out)@ == old(out)@ + enc_bytes(
            pixels_of(raw@, channels as int, count as nat),
            count as nat,
        ),
{
    let ghost pixels = pixels_of(raw@, channels as int, count as nat);
    let ghost out0 = out@;
    let step: usize = channels as usize;
    let mut enc = Encoder::new();
    let mut done: u64 = 0;
    let mut at: usize = 0;
    while done < count
        invariant
            channels == 3 || channels == 4,
            step == channels,
            count * channels <= raw@.len(),
            pixels == pixels_of(raw@, channels as int, count as nat),
            done <= count,
            at == done * channels,
            enc@ == enc_state(pixels, done as nat),
            enc@.wf(),
            out@ == out0 + enc_bytes(pixels, done as nat),
        decreases count - done,
    {
        assert(at + channels <= raw@.len()) by (nonlinear_arith)
            requires
                at == done * channels,
                done < count,
                count * channels <= raw@.len(),
                channels > 0,
        ;
        let px = Rgba {
            r: raw[at],
            g: raw[at + 1],
            b: raw[at + 2],
            a: if channels == 4 {
                raw[at + 3]
            } else {
                255
            },
        };
        assert(px == pixels[done as int]);
        let ghost before = enc@;
        enc.push(px, done + 1 == count, out);
        assert(at + step == (done + 1) * channels) by (nonlinear_arith)
            requires
                at == done * channels,
                step == channels,
        ;
        at = at + step;
        done = done + 1;
        assert(out@ == out0 + enc_bytes(pixels, done as nat)) by {
            assert(enc_bytes(pixels, done as nat) == enc_bytes(pixels, (done - 1) as nat)
                + before.step_bytes(px, done == count));
            assert(out@ =~= out0 + enc_bytes(pixels, done as nat));
        }
    }
}

/// Closes a stream that so far holds a header for `width` and `height` and
/// the chunks: appends the padding and writes the length of all that
/// follows the header into the size field.
fn seal(out: &mut Vec<u8>, width: u16, height: u16)
    requires
        old(out)@.len() >= 12,
        old(out)@.take(12) == (Header { width, height, size: 0 }).bytes(),
    ensures
        final(out)@ == (Header {
            width,
            height,
            size: ((old(out)@.len() - 12 + 4) % 0x1_0000_0000) as u32,
        }).bytes() + (old(out)@.skip(12) + padding()),
{
    let ghost first = Header { width, height, size: 0 };
    let ghost chunks = out@.skip(12);
    assert(out@ =~= first.bytes() + chunks);
    out.push(0);
    out.push(0);
    out.push(0);
    out.push(0);
    assert(out@ =~= first.bytes() + (chunks + padding()));
    let size: u32 = ((out.len() - HEADER_SIZE) as u64 % 0x1_0000_0000) as u32;
    out[8] = (size / 0x100_0000) as u8;
    out[9] = (size / 0x1_0000 % 256) as u8;
    out[10] = (size / 256 % 256) as u8;
    out[11] = (size % 256) as u8;
    let ghost header = Header { width, height, size };
    assert(out@ =~= header.bytes() + (chunks + padding()));
}

/// Encodes an image with 3 or 4 channels as a stream: header, chunks, padding.
///
/// Fails with [`Error::InvalidArgument`] where a dimension is zero, the
/// channel count is neither 3 nor 4, or the buffer holds fewer than
/// `width * height * channels` samples; samples beyond that number are not
/// looked at.
pub fn encode(img: Image, channels: u32) -> (res: Result<Box<[u8]>, Error>)
    ensures
        match spec_encode(img@, channels) {
            Ok(stream) => res matches Ok(out) && out@ == stream,
            Err(e) => res matches Err(f) && f == e,
        },
        res is Ok <==> img.width > 0 && img.height > 0 && (channels == 3 || channels == 4)
            && img.pixels@.len() >= img.width * img.height * channels,
        res matches Err(e) ==> e == Error::InvalidArgument,
        res matches Ok(out) ==> framed(out@, img.width, img.height),
        res matches Ok(out) ==> out@.len() <= img.width * img.height * (channels + 1) + 16,
{
    if img.width == 0 || img.height == 0 || channels < 3 || channels > 4 {
        return Err(Error::InvalidArgument);
    }
    let (count, samples): (u64, u64) = sample_counts(img.width, img.height, channels);
    if (img.pixels.len() as u64) < samples {
        return Err(Error::InvalidArgument);
    }
    proof {
        lemma_framing(img@, channels);
        lemma_encoded_len(img@, channels);
    }
    let bound: u64 = samples + count + 16;
    let mut out: Vec<u8> = if bound <= usize::MAX as u64 {
        Vec::with_capacity(bound as usize)
    } else {
        Vec::new()
    };
    let first = Header { width: img.width, height: img.height, size: 0 };
    first.write(&mut out);
    assert(out@ =~= first.bytes());
    encode_pixels(&img.pixels, count, channels, &mut out);
    assert(out@.take(12) =~= first.bytes());
    assert(out@.skip(12) =~= enc_bytes(
        pixels_of(img.pixels@, channels as int, count as nat),
        count as nat,
    ));
    seal(&mut out, img.width, img.height);
    Ok(into_boxed(out))
}

} // verus!
