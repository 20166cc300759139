//! How the decoder keeps in step with the encoder.
//!
//! The encoder holds a run back until it ends, while the decoder reads the
//! run chunk at the first repeat and counts down.  The two therefore stand
//! at the same place in the stream only where no run is open, and it is
//! there that their states are compared: same pixel, same position, and
//! tables that agree but for one slot.  The slot is that of the start
//! pixel: when an image opens with the start pixel, the decoder files it
//! while the encoder, which only files pixels that it tells by a diff or
//! color chunk, leaves the slot blank.  The encoder never points at a blank
//! slot but for the blank pixel, which lives elsewhere, so the decoder
//! still finds every pixel that an index chunk names.

use crate::chunk::{lemma_between, lemma_parse_bytes, Chunk};
use crate::decoder::{dec_state, lemma_dec_run, DecState};
use crate::encoder::{
    enc_bytes, enc_state, lemma_enc_bytes_prefix, lemma_run_history, lemma_run_interior, EncState,
};
use crate::pixel::{blank_pixel, lemma_known_slots, lemma_slot_range, start_pixel, Rgba};
use vstd::prelude::*;

verus! {

/// Whether the decoder's table holds what the encoder's table holds, but
/// for the slot of the start pixel: the decoder files the start pixel there
/// when an image opens with it, while the encoder still has the slot blank.
pub open spec fn tables_agree(enc: Seq<Rgba>, dec: Seq<Rgba>) -> bool {
    &&& enc.len() == 64
    &&& dec.len() == 64
    &&& forall|s: int|
        0 <= s < 64 ==> #[trigger] dec[s] == enc[s] || (s == start_pixel().slot() && enc[s]
            == blank_pixel() && dec[s] == start_pixel())
}

/// Whether the encoder's table holds the previous pixel in its slot, or the
/// previous pixel is the start pixel and its slot is still blank.
pub open spec fn prev_filed(e: EncState) -> bool {
    e.index[e.prev.slot()] == e.prev || (e.prev == start_pixel() && e.index[e.prev.slot()]
        == blank_pixel())
}

/// Whether a decoder in state `d` stands where an encoder in state `e`
/// that has no run open and has written `len` bytes stands.
pub open spec fn in_step(e: EncState, d: DecState, len: int) -> bool {
    &&& d.run == 0
    &&& d.pos == len
    &&& d.px == e.prev
    &&& tables_agree(e.index, d.index)
    &&& prev_filed(e)
}

/// Whether after `j` pixels the decoder of `body` holds the pixel that the
/// encoder of `pixels` holds, and a table that agrees with the encoder's.
pub open spec fn agree(pixels: Seq<Rgba>, body: Seq<u8>, j: nat) -> bool {
    dec_state(body, j) matches Some(d) && d.px == enc_state(pixels, j).prev && tables_agree(
        enc_state(pixels, j).index,
        d.index,
    )
}

/// Whether `bytes` stand in `body` from position `at` on.
pub open spec fn holds(body: Seq<u8>, at: int, bytes: Seq<u8>) -> bool {
    0 <= at && at + bytes.len() <= body.len() && body.subrange(at, at + bytes.len()) == bytes
}

/// Whether `body` opens with all the chunks that the encoder writes for `pixels`.
pub open spec fn holds_chunks(body: Seq<u8>, pixels: Seq<Rgba>) -> bool {
    holds(body, 0, enc_bytes(pixels, pixels.len()))
}

/// Where two runs of bytes stand in a body one behind the other, each of
/// them stands there.
proof fn lemma_holds_both(body: Seq<u8>, at: int, first: Seq<u8>, second: Seq<u8>)
    requires
        holds(body, at, first + second),
    ensures
        holds(body, at, first),
        holds(body, at + first.len(), second),
{
    let both = first + second;
    assert forall|t: int| 0 <= t < first.len() implies body.subrange(at, at + first.len())[t]
        == first[t] by {
        assert(body.subrange(at, at + both.len())[t] == both[t]);
    }
    assert(body.subrange(at, at + first.len()) =~= first);
    assert forall|t: int| 0 <= t < second.len() implies body.subrange(
        at + first.len(),
        at + first.len() + second.len(),
    )[t] == second[t] by {
        assert(body.subrange(at, at + both.len())[first.len() + t] == both[first.len() + t]);
    }
    assert(body.subrange(at + first.len(), at + first.len() + second.len()) =~= second);
}

/// What the encoder wrote for pixel `i` stands in the body where the
/// encoder stood before that pixel: first the run, then the chunk for the pixel.
proof fn lemma_step_in_body(pixels: Seq<Rgba>, body: Seq<u8>, i: nat)
    requires
        1 <= i <= pixels.len(),
        holds_chunks(body, pixels),
    ensures
        ({
            let from = enc_bytes(pixels, (i - 1) as nat).len() as int;
            let e = enc_state(pixels, (i - 1) as nat);
            let run = e.run_bytes(pixels[i - 1], i == pixels.len());
            let pixel = e.pixel_bytes(pixels[i - 1]);
            &&& enc_bytes(pixels, i).len() == from + run.len() + pixel.len()
            &&& holds(body, from, run)
            &&& holds(body, from + run.len(), pixel)
        }),
{
    let all = enc_bytes(pixels, pixels.len());
    let upto = enc_bytes(pixels, i);
    let from = enc_bytes(pixels, (i - 1) as nat).len() as int;
    let e = enc_state(pixels, (i - 1) as nat);
    let written = e.step_bytes(pixels[i - 1], i == pixels.len());
    lemma_enc_bytes_prefix(pixels, i, pixels.len());
    assert(upto == enc_bytes(pixels, (i - 1) as nat) + written);
    assert forall|t: int| 0 <= t < written.len() implies body.subrange(
        from,
        from + written.len(),
    )[t] == written[t] by {
        assert(body[from + t] == body.subrange(0, all.len() as int)[from + t]);
        assert(all[from + t] == all.take(upto.len() as int)[from + t]);
        assert(upto[from + t] == written[t]);
    }
    assert(body.subrange(from, from + written.len()) =~= written);
    lemma_holds_both(body, from, e.run_bytes(pixels[i - 1], i == pixels.len()), e.pixel_bytes(pixels[i - 1]));
}

/// Filing the previous pixel in the decoder's table keeps the tables in agreement.
proof fn lemma_file_prev(e: EncState, dec: Seq<Rgba>)
    requires
        tables_agree(e.index, dec),
        prev_filed(e),
    ensures
        tables_agree(e.index, dec.update(e.prev.slot(), e.prev)),
{
    lemma_slot_range(e.prev);
    let after = dec.update(e.prev.slot(), e.prev);
    assert forall|s: int| 0 <= s < 64 implies #[trigger] after[s] == e.index[s] || (s
        == start_pixel().slot() && e.index[s] == blank_pixel() && after[s] == start_pixel()) by {
        if s != e.prev.slot() {
            assert(after[s] == dec[s]);
        }
    }
}

/// A decoder that stands in step with the encoder where a run of `m`
/// repeats begins, and finds the chunk for the run there, holds after `t`
/// of the repeats the same pixel, a table that agrees with the encoder's
/// table at the start of the run, and owes `m - t` repeats.
proof fn lemma_replay(e: EncState, body: Seq<u8>, a: nat, m: nat, t: nat)
    requires
        1 <= t <= m <= 8224,
        dec_state(body, a) matches Some(d) && d.run == 0 && d.px == e.prev && tables_agree(
            e.index,
            d.index,
        ) && holds(body, d.pos, (Chunk::Run { len: m as u16 }).bytes()),
        prev_filed(e),
    ensures
        dec_state(body, a + t) matches Some(n) && n.px == e.prev && n.run == m - t && n.pos
            == dec_state(body, a).unwrap().pos + (Chunk::Run { len: m as u16 }).bytes().len()
            && tables_agree(e.index, n.index),
{
    let d = dec_state(body, a).unwrap();
    let run = Chunk::Run { len: m as u16 };
    lemma_parse_bytes(run, body, d.pos);
    lemma_file_prev(e, d.index);
    lemma_dec_run(body, a, m, run.bytes().len() as int, t);
}

/// A decoder that holds the encoder's previous pixel and a table that
/// agrees with the encoder's, and finds the chunk that the encoder writes
/// for a pixel that differs from the previous one, decodes the pixel
/// and stands in step with the encoder.
proof fn lemma_dec_pixel(e: EncState, d: DecState, px: Rgba, last: bool, body: Seq<u8>)
    requires
        e.wf(),
        px != e.prev,
        d.run == 0,
        d.px == e.prev,
        tables_agree(e.index, d.index),
        holds(body, d.pos, e.pixel_chunk(px).bytes()),
    ensures
        d.step(body) matches Some(n) && in_step(
            e.step(px, last),
            n,
            d.pos + e.pixel_chunk(px).bytes().len(),
        ),
{
    let c = e.pixel_chunk(px);
    lemma_slot_range(px);
    lemma_known_slots();
    lemma_between(e.prev, px, d.index);
    lemma_parse_bytes(c, body, d.pos);
    let n = d.step(body).unwrap();
    assert(c.spec_apply(d.px, d.index) == px) by {
        if e.index[px.slot()] == px {
            assert(d.index[px.slot()] == px);
        }
    }
    let after = e.step(px, last);
    assert(tables_agree(after.index, n.index)) by {
        assert forall|s: int| 0 <= s < 64 implies #[trigger] n.index[s] == after.index[s] || (s
            == start_pixel().slot() && after.index[s] == blank_pixel() && n.index[s]
            == start_pixel()) by {
            if s != px.slot() {
                assert(n.index[s] == d.index[s]);
                assert(after.index[s] == e.index[s]);
            }
        }
    }
}

/// Where the encoder has no run open after `i` pixels, the decoder of a
/// body that opens with the encoder's chunks stands in step with it.
pub proof fn lemma_in_step(pixels: Seq<Rgba>, body: Seq<u8>, i: nat)
    requires
        i <= pixels.len(),
        holds_chunks(body, pixels),
        enc_state(pixels, i).run == 0,
    ensures
        dec_state(body, i) matches Some(d) && in_step(
            enc_state(pixels, i),
            d,
            enc_bytes(pixels, i).len() as int,
        ),
    decreases i,
{
    if i == 0 {
        lemma_known_slots();
    } else {
        let e1 = enc_state(pixels, (i - 1) as nat);
        let px = pixels[i - 1];
        let last = i == pixels.len();
        let k = e1.run;
        let a = (i - 1 - k) as nat;
        // the state where the run that is open before `px` began
        lemma_run_history(pixels, (i - 1) as nat);
        lemma_in_step(pixels, body, a);
        lemma_step_in_body(pixels, body, i);
        let e0 = enc_state(pixels, a);
        assert(enc_state(pixels, i) == e1.step(px, last));
        if px == e1.prev {
            // the run goes on to `px` and ends there
            lemma_replay(e0, body, a, k + 1, k + 1);
            assert(a + (k + 1) == i);
        } else {
            // the run, if any, ends before `px`, and a chunk tells `px`
            if k > 0 {
                lemma_replay(e0, body, a, k, k);
                assert(a + k == i - 1);
            }
            let d1 = dec_state(body, (i - 1) as nat).unwrap();
            lemma_dec_pixel(e1, d1, px, last, body);
            assert(dec_state(body, i) == d1.step(body));
        }
    }
}

/// After each of the first `i` pixels, where the encoder has no run open
/// after `i`, the decoder of a body that opens with the encoder's chunks
/// agrees with the encoder.
pub proof fn lemma_agree(pixels: Seq<Rgba>, body: Seq<u8>, j: nat, i: nat)
    requires
        j <= i <= pixels.len(),
        holds_chunks(body, pixels),
        enc_state(pixels, i).run == 0,
    ensures
        agree(pixels, body, j),
    decreases i,
{
    if j == i {
        lemma_in_step(pixels, body, i);
    } else {
        let e1 = enc_state(pixels, (i - 1) as nat);
        let px = pixels[i - 1];
        let last = i == pixels.len();
        let k = e1.run;
        let a = (i - 1 - k) as nat;
        lemma_run_history(pixels, (i - 1) as nat);
        if j <= a {
            lemma_agree(pixels, body, j, a);
        } else {
            // `j` lies in the run that is open before pixel `i`
            let t = (j - a) as nat;
            let e0 = enc_state(pixels, a);
            lemma_in_step(pixels, body, a);
            lemma_step_in_body(pixels, body, i);
            lemma_run_interior(pixels, (i - 1) as nat, (i - 1 - j) as nat);
            assert(enc_state(pixels, j).prev == e0.prev);
            assert(enc_state(pixels, j).index == e0.index);
            assert(e1.flushes(px, last));
            if px == e1.prev {
                lemma_replay(e0, body, a, k + 1, t);
            } else {
                lemma_replay(e0, body, a, k, t);
            }
            assert(a + t == j);
        }
    }
}

} // verus!
