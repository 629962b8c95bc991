//! Changing the tempo of a stream without changing its pitch.
//!
//! The stretcher cuts the input into sequences and joins them again, each a
//! little earlier or later than it stood in the input. It looks for the place
//! in a window at the head of the input where the new sequence matches the end
//! of the sound sent out so far, cross-fades the two over the overlap, sends
//! the rest of the sequence out as it is, keeps what follows the sequence in
//! the input, as long as the overlap, back for the next join, and then moves
//! on in the input by the tempo times the length of the sequence.

use vstd::prelude::*;
use crate::arith::{lemma_take_frames, min_int};
use crate::correlation::{
    best_offset,
    lemma_best_offset_is_peak,
    seek_best_offset,
    MAX_OVERLAP_SAMPLES,
};
use crate::fifo::{silence, SampleFifo};
use crate::overlap::{blend_sample, crossfade, lemma_blend_between};
use crate::ratio::Ratio;

verus! {

/// The largest channel count.
pub const MAX_CHANNELS: usize = 16;

/// The largest length of a sequence or of a seek window, in frames.
pub const MAX_FRAMES: usize = 1048576;

/// The largest distance between two places that the search tries.
pub const MAX_STRIDE: usize = 16;

/// The largest term of the tempo at which a stretcher runs.
pub const MAX_TEMPO_TERM: u64 = 1099511627776;

/// What a stretcher is set to: the lengths in frames and the tempo.
#[derive(Clone, Copy, Debug, PartialEq, Eq, Structural)]
pub struct StretchParams {
    /// Samples in a frame.
    pub channels: usize,
    /// Length of a sequence.
    pub sequence: usize,
    /// Number of places at the head of the input where a sequence may start.
    pub window: usize,
    /// Length over which two sequences are cross-faded.
    pub overlap: usize,
    /// Distance in frames from one place that the search tries to the next.
    pub stride: usize,
    /// Input frames passed for each output frame.
    pub tempo: Ratio,
}

impl StretchParams {
    /// The lengths fit together: the overlap is shorter than the sequence, and
    /// the seek window is at least as long as the overlap. The tempo is
    /// positive.
    pub open spec fn wf(self) -> bool {
        &&& 1 <= self.channels <= MAX_CHANNELS
        &&& 1 <= self.overlap
        &&& self.overlap * self.channels <= MAX_OVERLAP_SAMPLES
        &&& self.overlap < self.sequence <= MAX_FRAMES
        &&& self.overlap <= self.window <= MAX_FRAMES
        &&& 1 <= self.stride <= MAX_STRIDE
        &&& 1 <= self.tempo.num <= MAX_TEMPO_TERM
        &&& 1 <= self.tempo.den <= MAX_TEMPO_TERM
    }

    /// Samples in a frame.
    pub open spec fn ch(self) -> int {
        self.channels as int
    }

    /// Samples in an overlap.
    pub open spec fn overlap_samples(self) -> int {
        self.overlap * self.channels
    }

    /// Samples in a sequence.
    pub open spec fn sequence_samples(self) -> int {
        self.sequence * self.channels
    }

    /// Samples from one place that the search tries to the next.
    pub open spec fn stride_samples(self) -> int {
        self.stride * self.channels
    }

    /// The number of the last place that the search tries; the first is
    /// number zero.
    pub open spec fn last_place(self) -> int {
        (self.window - 1) / (self.stride as int)
    }

    /// Frames sent out for each sequence: the sequence, its first overlap
    /// cross-faded with what was kept back.
    pub open spec fn hop_out(self) -> int {
        self.sequence as int
    }

    /// Frames that must stand at the head of the input before a sequence can
    /// be taken: a sequence at the last place of the window, and behind it
    /// the overlap that is kept back for the next join.
    pub open spec fn need(self) -> int {
        self.sequence + self.overlap + self.window - 1
    }

    /// The carry of the last move plus the length of this move, in parts of a
    /// frame of which `tempo.den` make a whole.
    pub open spec fn hop_total(self, acc: int) -> int {
        acc + self.tempo.num * self.hop_out()
    }

    /// Whole frames by which the input moves on after a sequence.
    pub open spec fn skip(self, acc: int) -> int {
        self.hop_total(acc) / (self.tempo.den as int)
    }

    /// What the move leaves over for the next one.
    pub open spec fn next_acc(self, acc: int) -> int {
        self.hop_total(acc) % (self.tempo.den as int)
    }

    /// Whether the parameters fit together.
    pub fn is_valid(&self) -> (r: bool)
        ensures
            r == self.wf(),
    {
        if !(1 <= self.channels && self.channels <= MAX_CHANNELS) {
            return false;
        }
        if !(1 <= self.overlap && self.overlap <= MAX_OVERLAP_SAMPLES) {
            proof {
                if self.overlap > MAX_OVERLAP_SAMPLES {
                    assert(self.overlap * self.channels >= self.overlap) by (nonlinear_arith)
                        requires
                            self.channels >= 1,
                    ;
                }
            }
            return false;
        }
        proof {
            assert(self.overlap * self.channels <= 4096 * 16) by (nonlinear_arith)
                requires
                    self.overlap <= 4096,
                    self.channels <= 16,
            ;
        }
        self.overlap * self.channels <= MAX_OVERLAP_SAMPLES && self.overlap < self.sequence
            && self.sequence <= MAX_FRAMES
            && self.overlap <= self.window && self.window <= MAX_FRAMES && 1 <= self.stride
            && self.stride <= MAX_STRIDE && 1 <= self.tempo.num
            && self.tempo.num <= MAX_TEMPO_TERM && 1 <= self.tempo.den && self.tempo.den
            <= MAX_TEMPO_TERM
    }
}

/// The state of a stretcher together with the queues on both sides of it.
#[verifier::ext_equal]
pub struct StretchModel {
    /// A first sequence has been sent out, so `mid` holds what followed it.
    pub started: bool,
    /// What the last move left over, in parts of a frame.
    pub acc: int,
    /// Frames that the input still has to move on before the next sequence.
    pub pending: int,
    /// What followed the last sequence in the input, as long as the overlap:
    /// the start of the next sequence is cross-faded with it.
    pub mid: Seq<i16>,
    /// The samples that wait in the input queue.
    pub input: Seq<i16>,
    /// The samples sent out.
    pub output: Seq<i16>,
}

/// What holds of a model between the steps.
pub open spec fn model_ok(p: StretchParams, m: StretchModel) -> bool {
    &&& 0 <= m.acc < p.tempo.den
    &&& 0 <= m.pending
    &&& m.input.len() % (p.channels as nat) == 0
    &&& (m.started ==> m.mid.len() == p.overlap_samples())
    &&& (!m.started ==> m.mid.len() == 0)
}

/// Frames in the input queue.
pub open spec fn input_frames(p: StretchParams, m: StretchModel) -> int {
    (m.input.len() as int) / p.ch()
}

/// Moving on in the input as far as it reaches.
pub open spec fn settle(p: StretchParams, m: StretchModel) -> StretchModel {
    let d = min_int(m.pending, input_frames(p, m));
    StretchModel { pending: m.pending - d, input: m.input.skip(d * p.ch()), ..m }
}

/// Whether a sequence can be taken: the input has moved on as far as it had
/// to, and holds a sequence at every place of the window.
pub open spec fn can_advance(p: StretchParams, m: StretchModel) -> bool {
    m.pending == 0 && m.input.len() >= p.need() * p.ch()
}

/// The number of the place at which the next sequence starts: of the places
/// that the search tries, the one where the input matches the overlap kept
/// back best.
pub open spec fn join_place(p: StretchParams, m: StretchModel) -> nat {
    best_offset(
        m.mid,
        m.input,
        p.stride_samples() as nat,
        p.overlap_samples() as nat,
        p.last_place() as nat,
    )
}

/// The frame in the window at which the next sequence starts. The first
/// sequence of a stream starts at the head.
pub open spec fn join_offset(p: StretchParams, m: StretchModel) -> nat {
    if m.started {
        join_place(p, m) * (p.stride as nat)
    } else {
        0
    }
}

/// What is sent out for the start of the sequence: the cross-fade of what was
/// kept back with the sequence's first overlap; for the first sequence of a
/// stream, its first overlap as it is.
pub open spec fn join_head(p: StretchParams, m: StretchModel) -> Seq<i16> {
    let at = join_offset(p, m) * p.ch();
    if m.started {
        crossfade(m.mid, m.input, at, p.channels as nat, p.overlap as nat)
    } else {
        m.input.subrange(0, p.overlap_samples())
    }
}

/// What is sent out after the start of the sequence, as it is: the sequence
/// behind its first overlap.
pub open spec fn join_body(p: StretchParams, m: StretchModel) -> Seq<i16> {
    let at = join_offset(p, m) * p.ch();
    m.input.subrange(at + p.overlap_samples(), at + p.sequence_samples())
}

/// What follows the sequence in the input, as long as the overlap: it is kept
/// back for the next join.
pub open spec fn join_tail(p: StretchParams, m: StretchModel) -> Seq<i16> {
    let at = join_offset(p, m) * p.ch();
    m.input.subrange(at + p.sequence_samples(), at + p.sequence_samples() + p.overlap_samples())
}

/// Taking one sequence: it is joined to the output, what follows it is kept
/// back, and the input is left to move on by the tempo times the length of
/// the sequence.
pub open spec fn advance(p: StretchParams, m: StretchModel) -> StretchModel {
    StretchModel {
        started: true,
        acc: p.next_acc(m.acc),
        pending: p.skip(m.acc),
        mid: join_tail(p, m),
        input: m.input,
        output: m.output + join_head(p, m) + join_body(p, m),
    }
}

/// Taking sequences for as long as the input holds enough.
pub open spec fn run(p: StretchParams, m: StretchModel) -> StretchModel
    decreases m.input.len(), p.tempo.den - m.acc,
{
    if p.wf() && model_ok(p, m) && can_advance(p, m) {
        proof {
            lemma_progress(p, m);
        }
        run(p, settle(p, advance(p, m)))
    } else {
        m
    }
}

/// All that the stretcher does with what waits in its input.
pub open spec fn processed(p: StretchParams, m: StretchModel) -> StretchModel {
    run(p, settle(p, m))
}

/// A stretcher at the start of a stream, between empty queues.
pub open spec fn fresh() -> StretchModel {
    StretchModel {
        started: false,
        acc: 0,
        pending: 0,
        mid: Seq::empty(),
        input: Seq::empty(),
        output: Seq::empty(),
    }
}

/// The silence that is put behind the input at the end of a stream, in
/// frames: one frame less than a sequence needs at every place of the
/// window, so that a sequence is taken for as long as a frame of the stream
/// stands at its head, and none after that.
pub open spec fn flush_pad(p: StretchParams) -> int {
    p.need() - 1
}

/// The end of a stream. Silence is put behind the input, only as much as
/// the last sequences need to be taken, and the sequences are sent out. The
/// overlap kept back behind the last of them is dropped with the rest of the
/// state: it would have been joined to a sequence that does not come. A
/// stretcher that holds nothing of a stream sends out nothing.
pub open spec fn flushed(p: StretchParams, m: StretchModel) -> StretchModel {
    let r = processed(
        p,
        StretchModel { input: m.input + silence((flush_pad(p) * p.ch()) as nat), ..m },
    );
    StretchModel { output: r.output, ..fresh() }
}

/// What a change of parameters leaves of the state. The carry of the moves is
/// dropped. Where the channel count or the overlap changes, the overlap kept
/// back no longer fits and is dropped with the rest of the state.
pub open spec fn retuned(old_p: StretchParams, new_p: StretchParams, m: StretchModel) -> StretchModel {
    if old_p.channels == new_p.channels && old_p.overlap == new_p.overlap {
        StretchModel { acc: 0, ..m }
    } else {
        StretchModel { input: m.input, output: m.output, ..fresh() }
    }
}

/// Facts about the lengths that the steps rest on.
pub proof fn lemma_lengths(p: StretchParams)
    requires
        p.wf(),
    ensures
        1 <= p.overlap_samples() <= MAX_OVERLAP_SAMPLES,
        p.overlap_samples() == p.overlap * p.ch(),
        p.overlap_samples() + p.ch() <= p.sequence_samples() <= MAX_FRAMES * MAX_CHANNELS,
        p.need() * p.ch() == p.sequence_samples() + p.overlap_samples() + (p.window - 1) * p.ch(),
        0 <= (p.window - 1) * p.ch() <= MAX_FRAMES * MAX_CHANNELS,
        1 <= p.hop_out() <= MAX_FRAMES,
        p.hop_out() * p.ch() == p.sequence_samples(),
        p.need() >= 2,
        p.need() * p.ch() >= 2,
        p.overlap_samples() % p.ch() == 0,
        p.sequence_samples() % p.ch() == 0,
        p.overlap <= MAX_OVERLAP_SAMPLES,
        (p.sequence_samples() - p.overlap_samples()) % p.ch() == 0,
        1 <= p.stride_samples() <= MAX_STRIDE * MAX_CHANNELS,
        0 <= p.last_place() <= p.window - 1,
        0 <= p.last_place() * p.stride <= p.window - 1,
        0 <= p.last_place() * p.stride_samples() <= (p.window - 1) * p.ch(),
{
    let ch = p.ch();
    let l = p.overlap as int;
    let s = p.sequence as int;
    let w = p.window as int;
    assert(1 <= l * ch) by (nonlinear_arith)
        requires
            l >= 1,
            ch >= 1,
    ;
    assert(l * ch + ch <= s * ch) by (nonlinear_arith)
        requires
            l + 1 <= s,
            ch >= 1,
    ;
    assert(s * ch <= 1048576 * 16) by (nonlinear_arith)
        requires
            0 <= s <= 1048576,
            1 <= ch <= 16,
    ;
    assert(0 <= (w - 1) * ch <= 1048576 * 16) by (nonlinear_arith)
        requires
            1 <= w <= 1048576,
            1 <= ch <= 16,
    ;
    assert((s + l + w - 1) * ch == s * ch + l * ch + (w - 1) * ch) by (nonlinear_arith);
    assert((s + l + w - 1) * ch >= 2) by (nonlinear_arith)
        requires
            s + l + w - 1 >= 2,
            ch >= 1,
    ;
    crate::arith::lemma_frames_to_samples(l, l, ch);
    crate::arith::lemma_frames_to_samples(s, s, ch);
    crate::arith::lemma_frames_to_samples(s - l, s - l, ch);
    assert((s - l) * ch == s * ch - l * ch) by (nonlinear_arith);
    assert(l <= l * ch) by (nonlinear_arith)
        requires
            l >= 1,
            ch >= 1,
    ;
    let st = p.stride as int;
    assert(1 <= st * ch <= 16 * 16) by (nonlinear_arith)
        requires
            1 <= st <= 16,
            1 <= ch <= 16,
    ;
    let k = (w - 1) / st;
    vstd::arithmetic::div_mod::lemma_fundamental_div_mod(w - 1, st);
    vstd::arithmetic::div_mod::lemma_mod_bound(w - 1, st);
    assert(0 <= k && k * st <= w - 1 && k <= w - 1 && 0 <= k * st) by (nonlinear_arith)
        requires
            w - 1 == st * k + (w - 1) % st,
            0 <= (w - 1) % st < st,
            st >= 1,
            w - 1 >= 0,
    {
        if k < 0 {
            assert(st * k <= -st);
        }
        if k >= 0 {
            assert(st * k >= k);
        }
    }
    assert(0 <= k * (st * ch) <= (w - 1) * ch) by (nonlinear_arith)
        requires
            0 <= k * st <= w - 1,
            ch >= 1,
    {
        assert(k * (st * ch) == (k * st) * ch);
    }
}

/// A move passes a whole number of frames and carries the rest: nothing of
/// the tempo is lost from one sequence to the next.
pub proof fn lemma_skip(p: StretchParams, acc: int)
    requires
        p.wf(),
        0 <= acc < p.tempo.den,
    ensures
        p.skip(acc) * p.tempo.den + p.next_acc(acc) == acc + p.tempo.num * p.hop_out(),
        0 <= p.next_acc(acc) < p.tempo.den,
        0 <= p.skip(acc) <= 1152921504606846976 + 1099511627776,
        p.hop_total(acc) <= 1152921504606846976 + 1099511627776,
        p.skip(acc) == 0 ==> p.next_acc(acc) > acc,
{
    let d = p.tempo.den as int;
    let t = p.hop_total(acc);
    lemma_lengths(p);
    assert(1 <= p.tempo.num * p.hop_out() <= 1099511627776 * 1048576) by (nonlinear_arith)
        requires
            1 <= p.tempo.num <= 1099511627776,
            1 <= p.hop_out() <= 1048576,
    ;
    vstd::arithmetic::div_mod::lemma_fundamental_div_mod(t, d);
    vstd::arithmetic::div_mod::lemma_mod_bound(t, d);
    let q = t / d;
    assert(q * d == d * q) by (nonlinear_arith);
    assert(0 <= q <= t) by (nonlinear_arith)
        requires
            t == d * q + t % d,
            0 <= t % d < d,
            d >= 1,
            t >= 0,
    {
        if q < 0 {
            assert(d * q <= -d);
        }
        if q > t {
            assert(d * q >= q);
        }
    }
}

/// Every sequence taken brings the work nearer to its end: either the input
/// gets shorter, or the carry grows towards a whole frame.
pub proof fn lemma_progress(p: StretchParams, m: StretchModel)
    requires
        p.wf(),
        model_ok(p, m),
        can_advance(p, m),
    ensures
        model_ok(p, settle(p, advance(p, m))),
        settle(p, advance(p, m)).input.len() < m.input.len() || (settle(
            p,
            advance(p, m),
        ).input.len() == m.input.len() && m.acc < settle(p, advance(p, m)).acc),
        settle(p, advance(p, m)).pending == 0 || settle(p, advance(p, m)).input.len() == 0,
{
    lemma_lengths(p);
    lemma_skip(p, m.acc);
    let a = advance(p, m);
    lemma_join_bounds(p, m);
    lemma_settle(p, a);
    let frames = input_frames(p, a);
    lemma_take_frames(m.input.len() as int, p.ch(), frames);
    assert(frames >= p.need()) by (nonlinear_arith)
        requires
            frames * p.ch() == m.input.len(),
            m.input.len() >= p.need() * p.ch(),
            p.ch() >= 1,
    {
        if frames < p.need() {
            assert(frames * p.ch() <= (p.need() - 1) * p.ch());
            assert((p.need() - 1) * p.ch() == p.need() * p.ch() - p.ch());
        }
    }
    let d = min_int(a.pending, frames);
    if a.pending >= 1 {
        assert(d * p.ch() >= 1) by (nonlinear_arith)
            requires
                d >= 1,
                p.ch() >= 1,
        ;
    } else {
        assert(d * p.ch() == 0) by (nonlinear_arith)
            requires
                d == 0,
        ;
        assert(settle(p, a).input =~= m.input);
    }
}

/// Where the sequence lies in the input: the places that a step reads are
/// all inside what `can_advance` asks for.
pub proof fn lemma_join_bounds(p: StretchParams, m: StretchModel)
    requires
        p.wf(),
        model_ok(p, m),
        can_advance(p, m),
    ensures
        join_offset(p, m) < p.window,
        join_place(p, m) <= p.last_place(),
        m.started ==> join_offset(p, m) * p.ch() == join_place(p, m) * p.stride_samples(),
        0 <= join_offset(p, m) * p.ch() <= (p.window - 1) * p.ch(),
        join_offset(p, m) * p.ch() + p.sequence_samples() + p.overlap_samples() <= m.input.len(),
        join_head(p, m).len() == p.overlap_samples(),
        join_body(p, m).len() == p.sequence_samples() - p.overlap_samples(),
        join_tail(p, m).len() == p.overlap_samples(),
{
    lemma_lengths(p);
    lemma_best_offset_is_peak(
        m.mid,
        m.input,
        p.stride_samples() as nat,
        p.overlap_samples() as nat,
        p.last_place() as nat,
    );
    let j = join_place(p, m) as int;
    let st = p.stride as int;
    assert(0 <= j * st <= p.last_place() * st) by (nonlinear_arith)
        requires
            0 <= j <= p.last_place(),
            st >= 1,
    ;
    let o = join_offset(p, m) as int;
    assert(0 <= o * p.ch() <= (p.window - 1) * p.ch()) by (nonlinear_arith)
        requires
            0 <= o <= p.window - 1,
            p.ch() >= 1,
    ;
    assert((j * st) * p.ch() == j * (st * p.ch())) by (nonlinear_arith);
}

/// Moving on in the input keeps the model in order and leaves whole frames.
pub proof fn lemma_settle(p: StretchParams, m: StretchModel)
    requires
        p.wf(),
        model_ok(p, m),
    ensures
        model_ok(p, settle(p, m)),
        settle(p, m).pending == 0 || settle(p, m).input.len() == 0,
        settle(p, m).input.len() == m.input.len() - min_int(m.pending, input_frames(p, m)) * p.ch(),
        0 <= min_int(m.pending, input_frames(p, m)) * p.ch() <= m.input.len(),
        settle(p, m).output == m.output,
        settle(p, m).started == m.started,
        settle(p, m).mid == m.mid,
        settle(p, m).acc == m.acc,
{
    let frames = input_frames(p, m);
    let d = min_int(m.pending, frames);
    vstd::arithmetic::div_mod::lemma_div_pos_is_pos(m.input.len() as int, p.ch());
    lemma_take_frames(m.input.len() as int, p.ch(), d);
    lemma_take_frames(m.input.len() as int, p.ch(), frames);
}

/// Taking sequences keeps the model in order, and so does all that the
/// stretcher does with its input. What it sends out is whole frames.
pub proof fn lemma_run_ok(p: StretchParams, m: StretchModel)
    requires
        p.wf(),
        model_ok(p, m),
        m.output.len() % (p.channels as nat) == 0,
    ensures
        model_ok(p, run(p, m)),
        run(p, m).output.len() % (p.channels as nat) == 0,
        !can_advance(p, run(p, m)),
    decreases m.input.len(), p.tempo.den - m.acc,
{
    if can_advance(p, m) {
        lemma_progress(p, m);
        lemma_join_bounds(p, m);
        lemma_lengths(p);
        let a = advance(p, m);
        crate::arith::lemma_add_frames(
            m.output.len() as int,
            p.overlap_samples(),
            p.ch(),
        );
        crate::arith::lemma_add_frames(
            m.output.len() + p.overlap_samples(),
            p.sequence_samples() - p.overlap_samples(),
            p.ch(),
        );
        lemma_settle(p, a);
        lemma_run_ok(p, settle(p, a));
    }
}

/// All that the stretcher does with its input keeps the model in order.
pub proof fn lemma_processed_ok(p: StretchParams, m: StretchModel)
    requires
        p.wf(),
        model_ok(p, m),
        m.output.len() % (p.channels as nat) == 0,
    ensures
        model_ok(p, processed(p, m)),
        processed(p, m).output.len() % (p.channels as nat) == 0,
        !can_advance(p, processed(p, m)),
{
    lemma_settle(p, m);
    lemma_run_ok(p, settle(p, m));
}

/// The state of a stretcher.
#[derive(Debug)]
pub struct TimeStretcher {
    params: StretchParams,
    started: bool,
    acc: u64,
    pending: u64,
    mid: Vec<i16>,
}

/// Appends the samples of `src` from `from` up to `to` to `dst`.
pub fn copy_range(dst: &mut Vec<i16>, src: &[i16], from: usize, to: usize)
    requires
        from <= to <= src@.len(),
    ensures
        final(dst)@ == old(dst)@ + src@.subrange(from as int, to as int),
{
    let mut i: usize = from;
    while i < to
        invariant
            from <= i <= to <= src@.len(),
            dst@ == old(dst)@ + src@.subrange(from as int, i as int),
        decreases to - i,
    {
        dst.push(src[i]);
        i += 1;
        assert(dst@ =~= old(dst)@ + src@.subrange(from as int, i as int));
    }
    assert(dst@ =~= old(dst)@ + src@.subrange(from as int, to as int));
}

impl TimeStretcher {
    /// What the stretcher is set to.
    pub closed spec fn params(&self) -> StretchParams {
        self.params
    }

    /// The stretcher's state, with the queues on both sides of it.
    pub closed spec fn model(&self, input: Seq<i16>, output: Seq<i16>) -> StretchModel {
        StretchModel {
            started: self.started,
            acc: self.acc as int,
            pending: self.pending as int,
            mid: self.mid@,
            input,
            output,
        }
    }

    /// The parameters fit together and the state fits the parameters.
    pub closed spec fn wf(&self) -> bool {
        &&& self.params.wf()
        &&& self.acc < self.params.tempo.den
        &&& (self.started ==> self.mid@.len() == self.params.overlap_samples())
        &&& (!self.started ==> self.mid@.len() == 0)
    }

    /// The model of a stretcher is made of its state and the two queues, and
    /// is in order where the stretcher and the input queue are.
    pub proof fn lemma_model(&self, input: Seq<i16>, output: Seq<i16>)
        ensures
            self.model(input, output).input == input,
            self.model(input, output).output == output,
            self.model(input, output) == (StretchModel {
                input,
                output,
                ..self.model(Seq::empty(), Seq::empty())
            }),
            self.wf() ==> self.params().wf(),
            self.wf() && input.len() % (self.params().channels as nat) == 0 ==> model_ok(
                self.params(),
                self.model(input, output),
            ),
    {
    }

    /// A stretcher at the start of a stream; none where the parameters do not
    /// fit together.
    pub fn new(params: StretchParams) -> (r: Option<TimeStretcher>)
        ensures
            r is Some <==> params.wf(),
            r matches Some(s) ==> s.wf() && s.params() == params && s.model(
                Seq::empty(),
                Seq::empty(),
            ) == fresh(),
    {
        if params.is_valid() {
            Some(TimeStretcher::with_params(params))
        } else {
            None
        }
    }

    /// A stretcher at the start of a stream, for parameters that fit
    /// together.
    pub fn with_params(params: StretchParams) -> (s: TimeStretcher)
        requires
            params.wf(),
        ensures
            s.wf(),
            s.params() == params,
            s.model(Seq::empty(), Seq::empty()) == fresh(),
    {
        TimeStretcher { params, started: false, acc: 0, pending: 0, mid: Vec::new() }
    }

    /// What the stretcher is set to.
    pub fn get_params(&self) -> (r: StretchParams)
        ensures
            r == self.params(),
    {
        self.params
    }

    /// Whether a sequence of a stream has been sent out and its last overlap
    /// is kept back.
    pub fn is_started(&self) -> (r: bool)
        ensures
            r == self.model(Seq::empty(), Seq::empty()).started,
    {
        self.started
    }

    /// Forgets the stream: the next sequence is the first of a new one.
    pub fn clear(&mut self)
        requires
            old(self).wf(),
        ensures
            final(self).wf(),
            final(self).params() == old(self).params(),
            final(self).model(Seq::empty(), Seq::empty()) == fresh(),
    {
        self.started = false;
        self.acc = 0;
        self.pending = 0;
        self.mid.clear();
    }

    /// Sets the stretcher to other parameters. Parameters that do not fit
    /// together are refused, and the stretcher stays as it was.
    pub fn set_params(&mut self, params: StretchParams) -> (ok: bool)
        requires
            old(self).wf(),
        ensures
            final(self).wf(),
            ok == params.wf(),
            ok ==> final(self).params() == params && final(self).model(
                Seq::empty(),
                Seq::empty(),
            ) == retuned(old(self).params(), params, old(self).model(Seq::empty(), Seq::empty())),
            !ok ==> *final(self) == *old(self),
    {
        if !params.is_valid() {
            return false;
        }
        if !(self.params.channels == params.channels && self.params.overlap == params.overlap) {
            self.started = false;
            self.pending = 0;
            self.mid.clear();
        }
        self.acc = 0;
        self.params = params;
        assert(self.model(Seq::empty(), Seq::empty()) =~= retuned(
            old(self).params(),
            params,
            old(self).model(Seq::empty(), Seq::empty()),
        ));
        true
    }

    /// Moves on in the input as far as it reaches.
    fn settle_input(&mut self, input: &mut SampleFifo, Ghost(out): Ghost<Seq<i16>>)
        requires
            old(self).wf(),
            old(input).wf(),
            old(input).channel_count() == old(self).params().channels,
        ensures
            final(self).wf(),
            final(self).params() == old(self).params(),
            final(input).wf(),
            final(input).channel_count() == old(input).channel_count(),
            final(self).model(final(input)@, out) == settle(
                old(self).params(),
                old(self).model(old(input)@, out),
            ),
    {
        proof {
            lemma_settle(self.params, self.model(input@, out));
        }
        let have: usize = input.available();
        let want: usize = if self.pending > have as u64 {
            have
        } else {
            self.pending as usize
        };
        let d: usize = input.discard(want);
        self.pending = self.pending - d as u64;
        assert(self.model(input@, out) =~= settle(
            old(self).params(),
            old(self).model(old(input)@, out),
        ));
    }

    /// Whether a sequence can be taken from the input.
    fn ready(&self, input: &SampleFifo) -> (r: bool)
        requires
            self.wf(),
            input.wf(),
            input.channel_count() == self.params().channels,
        ensures
            r == can_advance(self.params(), self.model(input@, Seq::empty())),
    {
        proof {
            lemma_lengths(self.params);
        }
        let need: usize = (self.params.sequence + self.params.overlap + self.params.window - 1)
            * self.params.channels;
        self.pending == 0 && input.len() >= need
    }

    /// Takes one sequence from the head of the input and joins it to the
    /// output. The input queue is left as it is.
    fn advance_input(&mut self, input: &SampleFifo, output: &mut SampleFifo)
        requires
            old(self).wf(),
            input.wf(),
            old(output).wf(),
            input.channel_count() == old(self).params().channels,
            old(output).channel_count() == old(self).params().channels,
            can_advance(old(self).params(), old(self).model(input@, old(output)@)),
        ensures
            final(self).wf(),
            final(self).params() == old(self).params(),
            final(output).wf(),
            final(output).channel_count() == old(output).channel_count(),
            final(self).model(input@, final(output)@) == advance(
                old(self).params(),
                old(self).model(input@, old(output)@),
            ),
    {
        let ghost p = self.params;
        let ghost m = self.model(input@, output@);
        proof {
            lemma_lengths(p);
            lemma_join_bounds(p, m);
            lemma_skip(p, m.acc);
        }
        let ch: usize = self.params.channels;
        let l: usize = self.params.overlap;
        let n: usize = l * ch;
        let sn: usize = self.params.sequence * ch;
        let src = input.contents();
        let limit: usize = src.len();
        let mut out: Vec<i16> = Vec::new();
        let mut at: usize = 0;
        if self.started {
            let pitch: usize = self.params.stride * ch;
            let places: usize = (self.params.window - 1) / self.params.stride + 1;
            let j: usize = seek_best_offset(self.mid.as_slice(), src, pitch, n, places);
            proof {
                assert(j * pitch <= p.last_place() * p.stride_samples()) by (nonlinear_arith)
                    requires
                        0 <= j <= p.last_place(),
                        pitch == p.stride_samples(),
                        pitch >= 1,
                ;
            }
            at = j * pitch;
            let mut t: usize = 0;
            while t < n
                invariant
                    t <= n,
                    n == l * ch,
                    ch >= 1,
                    1 <= l <= 4096,
                    n == self.mid@.len(),
                    at + n <= limit,
                    limit == src@.len(),
                    out@ == crossfade(self.mid@, src@, at as int, ch as nat, l as nat).take(
                        t as int,
                    ),
                decreases n - t,
            {
                let i: usize = t / ch;
                proof {
                    vstd::arithmetic::div_mod::lemma_fundamental_div_mod(t as int, ch as int);
                    vstd::arithmetic::div_mod::lemma_mod_bound(t as int, ch as int);
                    assert(i < l) by (nonlinear_arith)
                        requires
                            t < l * ch,
                            t == ch * i + (t as int) % (ch as int),
                            0 <= (t as int) % (ch as int),
                            ch >= 1,
                    {
                        if i >= l {
                            assert(ch * i >= ch * l);
                        }
                    }
                    lemma_blend_between(
                        self.mid@[t as int] as int,
                        src@[at + t] as int,
                        i as int,
                        l as int,
                    );
                }
                let v: i16 = blend_sample(self.mid[t], src[at + t], i as u64, l as u64);
                out.push(v);
                t += 1;
                assert(out@ =~= crossfade(self.mid@, src@, at as int, ch as nat, l as nat).take(
                    t as int,
                ));
            }
            assert(out@ =~= join_head(p, m));
        } else {
            copy_range(&mut out, src, 0, n);
            assert(0nat * (ch as int) == 0) by (nonlinear_arith);
            assert(out@ =~= join_head(p, m));
        }
        copy_range(&mut out, src, at + n, at + sn);
        let mut tail: Vec<i16> = Vec::new();
        copy_range(&mut tail, src, at + sn, at + sn + n);
        proof {
            assert(out@ =~= join_head(p, m) + join_body(p, m));
            assert(tail@ =~= join_tail(p, m));
            crate::arith::lemma_add_frames(n as int, sn - n, ch as int);
        }
        self.mid = tail;
        self.started = true;
        let total: u64 = self.acc + self.params.tempo.num * (self.params.sequence as u64);
        self.pending = total / self.params.tempo.den;
        self.acc = total % self.params.tempo.den;
        let ok = output.put(out.as_slice());
        assert(ok);
        assert(self.model(input@, output@) =~= advance(p, m));
    }

    /// Takes from the input every sequence that it holds and joins them to
    /// the output. What is left in the input is less than the next sequence
    /// needs: it waits there until more has come. Returns the number of frames
    /// sent out.
    pub fn process(&mut self, input: &mut SampleFifo, output: &mut SampleFifo) -> (n: usize)
        requires
            old(self).wf(),
            old(input).wf(),
            old(output).wf(),
            old(input).channel_count() == old(self).params().channels,
            old(output).channel_count() == old(self).params().channels,
        ensures
            final(self).wf(),
            final(self).params() == old(self).params(),
            final(input).wf(),
            final(output).wf(),
            final(input).channel_count() == old(input).channel_count(),
            final(output).channel_count() == old(output).channel_count(),
            final(self).model(final(input)@, final(output)@) == processed(
                old(self).params(),
                old(self).model(old(input)@, old(output)@),
            ),
            n * old(self).params().channels == final(output)@.len() - old(output)@.len(),
    {
        let ghost p = self.params;
        let ghost start = self.model(input@, output@);
        let held: usize = output.available();
        self.settle_input(input, Ghost(output@));
        while self.ready(input)
            invariant
                output@.len() >= old(output)@.len(),
                self.wf(),
                self.params() == p,
                p == old(self).params(),
                input.wf(),
                output.wf(),
                input.channel_count() == p.channels,
                output.channel_count() == p.channels,
                input.channel_count() == old(input).channel_count(),
                output.channel_count() == old(output).channel_count(),
                run(p, self.model(input@, output@)) == processed(p, start),
            decreases input@.len(), p.tempo.den - self.model(input@, output@).acc,
        {
            let ghost before = self.model(input@, output@);
            proof {
                self.lemma_model(input@, output@);
                self.lemma_model(input@, Seq::empty());
                lemma_progress(p, before);
            }
            self.advance_input(input, output);
            proof {
                self.lemma_model(input@, output@);
                assert(output@.len() >= before.output.len());
            }
            self.settle_input(input, Ghost(output@));
        }
        proof {
            self.lemma_model(input@, output@);
            self.lemma_model(input@, Seq::empty());
        }
        let now: usize = output.available();
        proof {
            let ch = p.ch();
            assert(now * ch - held * ch == (now - held) * ch) by (nonlinear_arith);
            assert(now >= held) by (nonlinear_arith)
                requires
                    now * ch >= held * ch,
                    ch >= 1,
            {
                if now < held {
                    assert(now * ch <= (held - 1) * ch);
                    assert((held - 1) * ch == held * ch - ch);
                }
            }
        }
        now - held
    }

    /// Ends the stream: sends out the sequences that the input still holds
    /// a frame of, with silence where the last of them has no input left.
    /// Afterwards the input is empty and the stretcher stands at the start
    /// of a new stream.
    pub fn flush(&mut self, input: &mut SampleFifo, output: &mut SampleFifo)
        requires
            old(self).wf(),
            old(input).wf(),
            old(output).wf(),
            old(input).channel_count() == old(self).params().channels,
            old(output).channel_count() == old(self).params().channels,
        ensures
            final(self).wf(),
            final(self).params() == old(self).params(),
            final(input).wf(),
            final(output).wf(),
            final(input).channel_count() == old(input).channel_count(),
            final(output).channel_count() == old(output).channel_count(),
            final(self).model(final(input)@, final(output)@) == flushed(
                old(self).params(),
                old(self).model(old(input)@, old(output)@),
            ),
    {
        let ghost p = self.params;
        let ghost start = self.model(input@, output@);
        proof {
            lemma_lengths(p);
        }
        let pad: usize = self.params.sequence + self.params.overlap + self.params.window - 2;
        input.put_silence(pad);
        let ghost padded = self.model(input@, output@);
        assert(padded =~= (StretchModel {
            input: start.input + silence((flush_pad(p) * p.ch()) as nat),
            ..start
        }));
        let _ = self.process(input, output);
        assert(self.params == p);
        input.clear();
        self.clear();
        assert(self.model(input@, output@) =~= flushed(p, start));
    }
}

} // verus!
