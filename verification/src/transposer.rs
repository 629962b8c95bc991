//! Changing the playback rate of a stream, which changes tempo and pitch
//! together.
//!
//! The transposer reads the input at a cursor that stands between two frames
//! and sends out, for each output frame, the straight-line mix of the frame
//! before the cursor and the frame behind it. After each output frame the
//! cursor moves on by the step, which is the number of input frames that pass
//! for one output frame.

use vstd::prelude::*;
use crate::arith::{lemma_take_frames, min_int};
use crate::fifo::{silence, SampleFifo};
use crate::overlap::{blend, blend_sample, lemma_blend_between};
use crate::ratio::Ratio;
use crate::stretch::{MAX_CHANNELS, MAX_TEMPO_TERM};

verus! {

/// What a transposer is set to.
#[derive(Clone, Copy, Debug, PartialEq, Eq, Structural)]
pub struct TransposeParams {
    /// Samples in a frame.
    pub channels: usize,
    /// Input frames passed for each output frame.
    pub step: Ratio,
}

impl TransposeParams {
    /// There is a channel and the step is positive.
    pub open spec fn wf(self) -> bool {
        &&& 1 <= self.channels <= MAX_CHANNELS
        &&& 1 <= self.step.num <= MAX_TEMPO_TERM
        &&& 1 <= self.step.den <= MAX_TEMPO_TERM
    }

    /// Samples in a frame.
    pub open spec fn ch(self) -> int {
        self.channels as int
    }

    /// Whether the parameters are in order.
    pub fn is_valid(&self) -> (r: bool)
        ensures
            r == self.wf(),
    {
        1 <= self.channels && self.channels <= MAX_CHANNELS && 1 <= self.step.num && self.step.num
            <= MAX_TEMPO_TERM && 1 <= self.step.den && self.step.den <= MAX_TEMPO_TERM
    }
}

/// The state of a transposer together with the queues on both sides of it.
#[verifier::ext_equal]
pub struct TransposeModel {
    /// The frame of the input before the cursor, counted from the head.
    pub index: int,
    /// How far the cursor stands behind that frame, in parts of which
    /// `step.den` make the way to the next frame.
    pub frac: int,
    /// The samples that wait in the input queue.
    pub input: Seq<i16>,
    /// The samples sent out.
    pub output: Seq<i16>,
}

/// What holds of a model between the steps.
pub open spec fn cursor_ok(p: TransposeParams, m: TransposeModel) -> bool {
    &&& 0 <= m.index
    &&& 0 <= m.frac < p.step.den
    &&& m.input.len() % (p.channels as nat) == 0
}

/// Frames in the input queue.
pub open spec fn waiting_frames(p: TransposeParams, m: TransposeModel) -> int {
    (m.input.len() as int) / p.ch()
}

/// Whether the input holds both frames between which the cursor stands.
pub open spec fn can_emit(p: TransposeParams, m: TransposeModel) -> bool {
    (m.index + 2) * p.ch() <= m.input.len()
}

/// The frame at the cursor: for each channel the mix of the sample before
/// the cursor and the sample behind it.
pub open spec fn cursor_frame(p: TransposeParams, m: TransposeModel) -> Seq<i16> {
    Seq::new(
        p.channels as nat,
        |c: int|
            blend(
                m.input[m.index * p.ch() + c] as int,
                m.input[(m.index + 1) * p.ch() + c] as int,
                m.frac,
                p.step.den as int,
            ) as i16,
    )
}

/// Sending out the frame at the cursor and moving the cursor on by the step.
pub open spec fn emit(p: TransposeParams, m: TransposeModel) -> TransposeModel {
    let t = m.frac + p.step.num;
    TransposeModel {
        index: m.index + t / (p.step.den as int),
        frac: t % (p.step.den as int),
        input: m.input,
        output: m.output + cursor_frame(p, m),
    }
}

/// Frames of the input that the cursor has not reached yet.
pub open spec fn frames_ahead(p: TransposeParams, m: TransposeModel) -> int {
    if m.index < waiting_frames(p, m) {
        waiting_frames(p, m) - m.index
    } else {
        0
    }
}

/// Sending out frames for as long as the input holds both neighbours of the
/// cursor.
pub open spec fn emit_all(p: TransposeParams, m: TransposeModel) -> TransposeModel
    decreases frames_ahead(p, m), p.step.den - m.frac,
{
    if p.wf() && cursor_ok(p, m) && can_emit(p, m) {
        proof {
            lemma_emit(p, m);
        }
        emit_all(p, emit(p, m))
    } else {
        m
    }
}

/// Dropping the frames of the input that the cursor has passed.
pub open spec fn drop_passed(p: TransposeParams, m: TransposeModel) -> TransposeModel {
    let d = min_int(m.index, waiting_frames(p, m));
    TransposeModel { index: m.index - d, input: m.input.skip(d * p.ch()), ..m }
}

/// All that the transposer does with what waits in its input.
pub open spec fn transposed(p: TransposeParams, m: TransposeModel) -> TransposeModel {
    drop_passed(p, emit_all(p, m))
}

/// A transposer with its cursor on the head of the input, between empty
/// queues.
pub open spec fn at_rest() -> TransposeModel {
    TransposeModel { index: 0, frac: 0, input: Seq::empty(), output: Seq::empty() }
}

/// The end of a stream. One frame of silence is put behind the input, so
/// that the last frame of the stream has a neighbour and what lies between
/// the two can be sent out.
pub open spec fn flushed(p: TransposeParams, m: TransposeModel) -> TransposeModel {
    let r = emit_all(p, TransposeModel { input: m.input + silence(p.channels as nat), ..m });
    TransposeModel { output: r.output, ..at_rest() }
}

/// What a change of parameters leaves of the state: the cursor goes back to
/// the frame before it.
pub open spec fn retuned(m: TransposeModel) -> TransposeModel {
    TransposeModel { frac: 0, ..m }
}

/// The place of the cursor, in parts of a frame from the head of the input.
pub open spec fn cursor(p: TransposeParams, m: TransposeModel) -> int {
    m.index * p.step.den + m.frac
}

/// Sending out a frame moves the cursor on by exactly the step, keeps the
/// model in order, and brings the work nearer to its end.
pub proof fn lemma_emit(p: TransposeParams, m: TransposeModel)
    requires
        p.wf(),
        cursor_ok(p, m),
        can_emit(p, m),
    ensures
        cursor_ok(p, emit(p, m)),
        cursor(p, emit(p, m)) == cursor(p, m) + p.step.num,
        emit(p, m).index >= m.index,
        emit(p, m).index - m.index <= p.step.num,
        emit(p, m).index > m.index || emit(p, m).frac > m.frac,
        emit(p, m).output.len() == m.output.len() + p.channels,
        m.index + 2 <= waiting_frames(p, m),
        0 <= (m.index + 2) * p.ch(),
        (m.index + 1) * p.ch() == m.index * p.ch() + p.ch(),
        (m.index + 2) * p.ch() == m.index * p.ch() + 2 * p.ch(),
        0 <= m.index * p.ch(),
{
    let d = p.step.den as int;
    let t = m.frac + p.step.num;
    let ch = p.ch();
    vstd::arithmetic::div_mod::lemma_fundamental_div_mod(t, d);
    vstd::arithmetic::div_mod::lemma_mod_bound(t, d);
    let q = t / d;
    assert(0 <= q <= p.step.num && (q == 0 ==> t % d > m.frac)) by (nonlinear_arith)
        requires
            t == d * q + t % d,
            0 <= t % d < d,
            d >= 1,
            t == m.frac + p.step.num,
            0 <= m.frac < d,
            p.step.num >= 1,
    {
        if q < 0 {
            assert(d * q <= -d);
        }
        if q > p.step.num {
            assert(d * q >= d * (p.step.num + 1));
            assert(d * (p.step.num + 1) == d * p.step.num + d);
            assert(d * p.step.num >= p.step.num);
        }
    }
    assert((m.index + q) * d + t % d == m.index * d + m.frac + p.step.num) by (nonlinear_arith)
        requires
            t == d * q + t % d,
            t == m.frac + p.step.num,
    ;
    let frames = waiting_frames(p, m);
    lemma_take_frames(m.input.len() as int, ch, frames);
    assert(m.index + 2 <= frames) by (nonlinear_arith)
        requires
            (m.index + 2) * ch <= m.input.len(),
            frames * ch == m.input.len(),
            ch >= 1,
    {
        if m.index + 2 > frames {
            assert((m.index + 2) * ch >= (frames + 1) * ch);
            assert((frames + 1) * ch == frames * ch + ch);
        }
    }
    assert((m.index + 1) * ch == m.index * ch + ch) by (nonlinear_arith);
    assert((m.index + 2) * ch == m.index * ch + 2 * ch) by (nonlinear_arith);
    assert(0 <= m.index * ch) by (nonlinear_arith)
        requires
            0 <= m.index,
            ch >= 1,
    ;
}

/// Dropping what the cursor has passed keeps the model in order and leaves
/// the cursor where it stood in the stream.
pub proof fn lemma_drop_passed(p: TransposeParams, m: TransposeModel)
    requires
        p.wf(),
        cursor_ok(p, m),
    ensures
        cursor_ok(p, drop_passed(p, m)),
        drop_passed(p, m).index == 0 || drop_passed(p, m).input.len() == 0,
        0 <= min_int(m.index, waiting_frames(p, m)) * p.ch() <= m.input.len(),
        drop_passed(p, m).output == m.output,
        drop_passed(p, m).frac == m.frac,
{
    let frames = waiting_frames(p, m);
    let d = min_int(m.index, frames);
    vstd::arithmetic::div_mod::lemma_div_pos_is_pos(m.input.len() as int, p.ch());
    lemma_take_frames(m.input.len() as int, p.ch(), d);
    lemma_take_frames(m.input.len() as int, p.ch(), frames);
}

/// Sending out frames keeps the model in order, and what is sent out is
/// whole frames.
pub proof fn lemma_emit_all_ok(p: TransposeParams, m: TransposeModel)
    requires
        p.wf(),
        cursor_ok(p, m),
        m.output.len() % (p.channels as nat) == 0,
    ensures
        cursor_ok(p, emit_all(p, m)),
        emit_all(p, m).input == m.input,
        emit_all(p, m).output.len() % (p.channels as nat) == 0,
        !can_emit(p, emit_all(p, m)),
    decreases frames_ahead(p, m), p.step.den - m.frac,
{
    if can_emit(p, m) {
        lemma_emit(p, m);
        crate::arith::lemma_add_frames(m.output.len() as int, p.ch(), p.ch());
        lemma_emit_all_ok(p, emit(p, m));
    }
}

/// The state of a transposer.
#[derive(Debug)]
pub struct RateTransposer {
    params: TransposeParams,
    index: u128,
    frac: u64,
}

impl RateTransposer {
    /// What the transposer is set to.
    pub closed spec fn params(&self) -> TransposeParams {
        self.params
    }

    /// The transposer's state, with the queues on both sides of it.
    pub closed spec fn model(&self, input: Seq<i16>, output: Seq<i16>) -> TransposeModel {
        TransposeModel { index: self.index as int, frac: self.frac as int, input, output }
    }

    /// The parameters are in order and the cursor fits them.
    pub closed spec fn wf(&self) -> bool {
        &&& self.params.wf()
        &&& self.frac < self.params.step.den
        &&& self.index <= MAX_TEMPO_TERM
    }

    /// The model of a transposer is made of its cursor and the two queues,
    /// and is in order where the transposer and the input queue are.
    pub proof fn lemma_model(&self, input: Seq<i16>, output: Seq<i16>)
        ensures
            self.model(input, output).input == input,
            self.model(input, output).output == output,
            self.model(input, output) == (TransposeModel {
                input,
                output,
                ..self.model(Seq::empty(), Seq::empty())
            }),
            self.wf() ==> self.params().wf(),
            self.wf() && input.len() % (self.params().channels as nat) == 0 ==> cursor_ok(
                self.params(),
                self.model(input, output),
            ),
    {
    }

    /// A transposer with its cursor on the first frame of a stream; none
    /// where the parameters are not in order.
    pub fn new(params: TransposeParams) -> (r: Option<RateTransposer>)
        ensures
            r is Some <==> params.wf(),
            r matches Some(t) ==> t.wf() && t.params() == params && t.model(
                Seq::empty(),
                Seq::empty(),
            ) == at_rest(),
    {
        if params.is_valid() {
            Some(RateTransposer::with_params(params))
        } else {
            None
        }
    }

    /// A transposer with its cursor on the first frame of a stream, for
    /// parameters that are in order.
    pub fn with_params(params: TransposeParams) -> (t: RateTransposer)
        requires
            params.wf(),
        ensures
            t.wf(),
            t.params() == params,
            t.model(Seq::empty(), Seq::empty()) == at_rest(),
    {
        RateTransposer { params, index: 0, frac: 0 }
    }

    /// What the transposer is set to.
    pub fn get_params(&self) -> (r: TransposeParams)
        ensures
            r == self.params(),
    {
        self.params
    }

    /// Whether the cursor stands on the head of the input.
    pub fn is_at_head(&self) -> (r: bool)
        ensures
            r <==> (self.model(Seq::empty(), Seq::empty()).index == 0 && self.model(
                Seq::empty(),
                Seq::empty(),
            ).frac == 0),
    {
        self.index == 0 && self.frac == 0
    }

    /// Puts the cursor back on the head of the input.
    pub fn clear(&mut self)
        requires
            old(self).wf(),
        ensures
            final(self).wf(),
            final(self).params() == old(self).params(),
            final(self).model(Seq::empty(), Seq::empty()) == at_rest(),
    {
        self.index = 0;
        self.frac = 0;
    }

    /// Sets the transposer to other parameters. Parameters that are not in
    /// order are refused, and the transposer stays as it was.
    pub fn set_params(&mut self, params: TransposeParams) -> (ok: bool)
        requires
            old(self).wf(),
        ensures
            final(self).wf(),
            ok == params.wf(),
            ok ==> final(self).params() == params && final(self).model(
                Seq::empty(),
                Seq::empty(),
            ) == retuned(old(self).model(Seq::empty(), Seq::empty())),
            !ok ==> *final(self) == *old(self),
    {
        if !params.is_valid() {
            return false;
        }
        self.params = params;
        self.frac = 0;
        true
    }

    /// Ends the stream: sends out what lies between the last frame of the
    /// input and silence behind it. Afterwards the input is empty and the
    /// cursor stands on its head.
    pub fn flush(&mut self, input: &mut SampleFifo, output: &mut SampleFifo)
        requires
            old(self).wf(),
            old(input).wf(),
            old(output).wf(),
            old(input).channel_count() == old(self).params().channels,
            old(output).channel_count() == old(self).params().channels,
        ensures
            final(self).wf(),
            final(self).params() == old(self).params(),
            final(input).wf(),
            final(output).wf(),
            final(input).channel_count() == old(input).channel_count(),
            final(output).channel_count() == old(output).channel_count(),
            final(self).model(final(input)@, final(output)@) == flushed(
                old(self).params(),
                old(self).model(old(input)@, old(output)@),
            ),
    {
        let ghost p = self.params;
        let ghost start = self.model(input@, output@);
        input.put_silence(1);
        let ghost padded = self.model(input@, output@);
        proof {
            assert(1 * p.channels == p.channels) by (nonlinear_arith);
            assert(padded =~= (TransposeModel {
                input: start.input + silence(p.channels as nat),
                ..start
            }));
            lemma_emit_all_ok(p, padded);
            lemma_drop_passed(p, emit_all(p, padded));
        }
        let _ = self.process(input, output);
        input.clear();
        self.clear();
        assert(self.model(input@, output@) =~= flushed(p, start));
    }

    /// Sends out every frame for which the input holds both neighbours of the
    /// cursor, and drops the input frames that the cursor has passed. Returns
    /// the number of frames sent out; where the input runs out it stops, and
    /// goes on from there when more has come.
    pub fn process(&mut self, input: &mut SampleFifo, output: &mut SampleFifo) -> (n: usize)
        requires
            old(self).wf(),
            old(input).wf(),
            old(output).wf(),
            old(input).channel_count() == old(self).params().channels,
            old(output).channel_count() == old(self).params().channels,
        ensures
            final(self).wf(),
            final(self).params() == old(self).params(),
            final(input).wf(),
            final(output).wf(),
            final(input).channel_count() == old(input).channel_count(),
            final(output).channel_count() == old(output).channel_count(),
            final(self).model(final(input)@, final(output)@) == transposed(
                old(self).params(),
                old(self).model(old(input)@, old(output)@),
            ),
            n * old(self).params().channels == final(output)@.len() - old(output)@.len(),
    {
        let ghost p = self.params;
        let ghost start = self.model(input@, output@);
        let ch: usize = self.params.channels;
        let num: u64 = self.params.step.num;
        let den: u64 = self.params.step.den;
        let frames: usize = input.available();
        let src = input.contents();
        let limit: usize = src.len();
        let mut out: Vec<i16> = Vec::new();
        proof {
            lemma_take_frames(input@.len() as int, ch as int, frames as int);
        }
        while self.index + 1 < frames as u128
            invariant
                self.params == p,
                self.frac < den,
                p.wf(),
                ch == p.channels,
                num == p.step.num,
                den == p.step.den,
                src@ == input@,
                limit == src@.len(),
                input.wf(),
                input.channel_count() == p.channels,
                frames == input.frames(),
                frames * ch == input@.len(),
                frames == waiting_frames(p, self.model(input@, output@ + out@)),
                self.index <= frames + MAX_TEMPO_TERM,
                out@.len() % (ch as nat) == 0,
                emit_all(p, self.model(input@, output@ + out@)) == emit_all(p, start),
            decreases frames_ahead(p, self.model(input@, output@ + out@)), den - self.frac,
        {
            let ghost before = self.model(input@, output@ + out@);
            proof {
                assert((self.index + 2) * ch <= frames * ch) by (nonlinear_arith)
                    requires
                        self.index + 2 <= frames,
                        ch >= 1,
                ;
                lemma_emit(p, before);
            }
            let i: usize = self.index as usize;
            proof {
                assert(i * ch == before.index * p.ch());
            }
            let base: usize = i * ch;
            let ghost sent = out@;
            let mut c: usize = 0;
            while c < ch
                invariant
                    c <= ch,
                    ch == p.channels,
                    1 <= den <= MAX_TEMPO_TERM,
                    den == p.step.den,
                    self.frac < den,
                    base == before.index * p.ch(),
                    base + ch == (before.index + 1) * p.ch(),
                    base + 2 * ch <= limit,
                    limit == src@.len(),
                    src@ == before.input,
                    before.frac == self.frac,
                    out@ == sent + cursor_frame(p, before).take(c as int),
                decreases ch - c,
            {
                let v: i16 = blend_sample(src[base + c], src[base + ch + c], self.frac, den);
                proof {
                    lemma_blend_between(
                        src@[base + c] as int,
                        src@[base + ch + c] as int,
                        self.frac as int,
                        den as int,
                    );
                }
                out.push(v);
                c += 1;
                assert(out@ =~= sent + cursor_frame(p, before).take(c as int));
            }
            assert(out@ =~= sent + cursor_frame(p, before));
            let t: u64 = self.frac + num;
            self.index = self.index + (t / den) as u128;
            self.frac = t % den;
            proof {
                crate::arith::lemma_add_frames(sent.len() as int, ch as int, ch as int);
                assert(self.model(input@, output@ + out@) =~= emit(p, before));
            }
        }
        proof {
            self.lemma_model(input@, output@ + out@);
            let m = self.model(input@, output@ + out@);
            if cursor_ok(p, m) && can_emit(p, m) {
                lemma_emit(p, m);
            }
            lemma_drop_passed(p, m);
        }
        let ok = output.put(out.as_slice());
        assert(ok);
        let sent: usize = out.len() / ch;
        proof {
            lemma_take_frames(out@.len() as int, ch as int, sent as int);
        }
        let want: usize = if self.index > frames as u128 {
            frames
        } else {
            self.index as usize
        };
        let d: usize = input.discard(want);
        self.index = self.index - d as u128;
        assert(self.model(input@, output@) =~= transposed(p, start));
        sent
    }
}

} // verus!
