//! What holds of the time stretcher whatever the stream.

use vstd::prelude::*;
use crate::arith::{lemma_add_frames, lemma_take_frames, min_int};
use crate::correlation::lemma_best_offset_local;
use crate::correlation_lemmas::lemma_self_match_wins;
use crate::fifo::silence;
use crate::overlap::{crossfade, lemma_blend_between};
use crate::stretch::{
    advance,
    can_advance,
    flush_pad,
    flushed,
    fresh,
    input_frames,
    join_body,
    join_head,
    join_offset,
    join_place,
    join_tail,
    lemma_join_bounds,
    lemma_lengths,
    lemma_progress,
    lemma_settle,
    lemma_skip,
    model_ok,
    processed,
    run,
    settle,
    StretchModel,
    StretchParams,
};

verus! {

/// The model with `b` put behind its input.
pub open spec fn extended(m: StretchModel, b: Seq<i16>) -> StretchModel {
    StretchModel { input: m.input + b, ..m }
}

/// The model with `y` put before its output.
pub open spec fn prefixed(m: StretchModel, y: Seq<i16>) -> StretchModel {
    StretchModel { output: y + m.output, ..m }
}

/// The input has moved on as far as it had to, or as far as it reaches.
pub open spec fn settled(m: StretchModel) -> bool {
    m.pending == 0 || m.input.len() == 0
}

/// Moving on in an input that has moved on changes nothing.
pub proof fn lemma_settle_settled(p: StretchParams, m: StretchModel)
    requires
        p.wf(),
        model_ok(p, m),
        settled(m),
    ensures
        settle(p, m) == m,
{
    let d = min_int(m.pending, input_frames(p, m));
    vstd::arithmetic::div_mod::lemma_div_pos_is_pos(m.input.len() as int, p.ch());
    if m.input.len() == 0 {
        assert(input_frames(p, m) == 0);
    }
    assert(d == 0);
    assert(d * p.ch() == 0) by (nonlinear_arith)
        requires
            d == 0,
    ;
    assert(m.input.skip(0) =~= m.input);
    assert(settle(p, m) =~= m);
}

/// Taking sequences leaves the input moved on, if it was.
pub proof fn lemma_run_settled(p: StretchParams, m: StretchModel)
    requires
        p.wf(),
        model_ok(p, m),
        settled(m),
    ensures
        settled(run(p, m)),
    decreases m.input.len(), p.tempo.den - m.acc,
{
    if can_advance(p, m) {
        lemma_progress(p, m);
        lemma_run_settled(p, settle(p, advance(p, m)));
    }
}

/// The stretcher has nothing to do: the input has moved on and holds no
/// sequence.
pub open spec fn done(p: StretchParams, m: StretchModel) -> bool {
    settled(m) && !can_advance(p, m)
}

/// A stretcher that has nothing to do does nothing.
pub proof fn lemma_done_stays(p: StretchParams, m: StretchModel)
    requires
        p.wf(),
        model_ok(p, m),
        done(p, m),
    ensures
        processed(p, m) == m,
{
    lemma_settle_settled(p, m);
}

/// When the stretcher has processed its input it has nothing to do.
pub proof fn lemma_processed_done(p: StretchParams, m: StretchModel)
    requires
        p.wf(),
        model_ok(p, m),
    ensures
        model_ok(p, processed(p, m)),
        done(p, processed(p, m)),
{
    lemma_settle(p, m);
    lemma_run_settled(p, settle(p, m));
    lemma_run_model(p, settle(p, m));
}

/// Taking sequences keeps the model in order and ends where no sequence can
/// be taken.
pub proof fn lemma_run_model(p: StretchParams, m: StretchModel)
    requires
        p.wf(),
        model_ok(p, m),
    ensures
        model_ok(p, run(p, m)),
        !can_advance(p, run(p, m)),
    decreases m.input.len(), p.tempo.den - m.acc,
{
    if can_advance(p, m) {
        lemma_progress(p, m);
        lemma_run_model(p, settle(p, advance(p, m)));
    }
}

/// The stretcher is done when it is done: to process what has been processed
/// changes nothing. Asking again, with no new input, brings no new output.
pub proof fn lemma_processed_twice(p: StretchParams, m: StretchModel)
    requires
        p.wf(),
        model_ok(p, m),
    ensures
        processed(p, processed(p, m)) == processed(p, m),
{
    lemma_processed_done(p, m);
    lemma_done_stays(p, processed(p, m));
}

/// The stretcher only ever appends to its output, and what it appends and
/// what it keeps do not depend on what the output holds already.
pub proof fn lemma_run_appends(p: StretchParams, m: StretchModel, y: Seq<i16>)
    requires
        p.wf(),
        model_ok(p, m),
    ensures
        run(p, prefixed(m, y)) == prefixed(run(p, m), y),
    decreases m.input.len(), p.tempo.den - m.acc,
{
    let my = prefixed(m, y);
    if can_advance(p, m) {
        lemma_progress(p, m);
        let next = settle(p, advance(p, m));
        let nexty = settle(p, advance(p, my));
        assert(join_place(p, my) == join_place(p, m));
        assert(join_head(p, my) == join_head(p, m));
        assert(join_body(p, my) == join_body(p, m));
        assert(join_tail(p, my) == join_tail(p, m));
        assert(advance(p, my).output =~= y + advance(p, m).output);
        assert(nexty =~= prefixed(next, y));
        lemma_run_appends(p, next, y);
    } else {
        assert(!can_advance(p, my));
    }
}

/// The stretcher only ever appends to its output, and what it appends and
/// what it keeps do not depend on what the output holds already.
pub proof fn lemma_processed_appends(p: StretchParams, m: StretchModel, y: Seq<i16>)
    requires
        p.wf(),
        model_ok(p, m),
    ensures
        processed(p, prefixed(m, y)) == prefixed(processed(p, m), y),
{
    lemma_settle(p, m);
    assert(settle(p, prefixed(m, y)) =~= prefixed(settle(p, m), y));
    lemma_run_appends(p, settle(p, m), y);
}

/// To move on in the input, take more input in and move on again is to take
/// the input in and move on once.
pub proof fn lemma_settle_extended(p: StretchParams, m: StretchModel, b: Seq<i16>)
    requires
        p.wf(),
        model_ok(p, m),
        b.len() % (p.channels as nat) == 0,
    ensures
        settle(p, extended(settle(p, m), b)) == settle(p, extended(m, b)),
        model_ok(p, extended(m, b)),
{
    let ch = p.ch();
    let f = input_frames(p, m);
    let fb = (b.len() as int) / ch;
    lemma_add_frames(m.input.len() as int, b.len() as int, ch);
    lemma_take_frames(m.input.len() as int, ch, f);
    lemma_take_frames(b.len() as int, ch, fb);
    vstd::arithmetic::div_mod::lemma_div_pos_is_pos(m.input.len() as int, ch);
    vstd::arithmetic::div_mod::lemma_div_pos_is_pos(b.len() as int, ch);
    lemma_settle(p, m);
    let s1 = settle(p, m);
    let d1 = min_int(m.pending, f);
    lemma_take_frames(m.input.len() as int, ch, d1);
    let e1 = extended(s1, b);
    lemma_add_frames(s1.input.len() as int, b.len() as int, ch);
    let f1 = input_frames(p, e1);
    assert(f1 == f - d1 + fb);
    let d2 = min_int(s1.pending, f1);
    let d = min_int(m.pending, f + fb);
    assert(d == d1 + d2);
    assert((d1 + d2) * ch == d1 * ch + d2 * ch) by (nonlinear_arith);
    assert(0 <= d2 * ch) by (nonlinear_arith)
        requires
            0 <= d2,
            ch >= 1,
    ;
    if d2 > 0 {
        assert(d1 == f);
        assert(s1.input.len() == 0);
    } else {
        assert(d2 * ch == 0) by (nonlinear_arith)
            requires
                d2 == 0,
        ;
    }
    lemma_take_frames((m.input.len() + b.len()) as int, ch, d);
    assert((s1.input + b).skip(d2 * ch) =~= (m.input + b).skip(d * ch));
    assert(settle(p, e1) =~= settle(p, extended(m, b)));
}

/// A sequence is taken from the head of the input: what stands behind the
/// frames that a step needs does not change the step.
pub proof fn lemma_advance_local(p: StretchParams, m: StretchModel, b: Seq<i16>)
    requires
        p.wf(),
        model_ok(p, m),
        can_advance(p, m),
    ensures
        can_advance(p, extended(m, b)),
        advance(p, extended(m, b)) == extended(advance(p, m), b),
{
    let e = extended(m, b);
    lemma_lengths(p);
    lemma_join_bounds(p, m);
    let n = p.overlap_samples();
    lemma_best_offset_local(
        m.mid,
        m.mid,
        m.input,
        e.input,
        p.stride_samples() as nat,
        n as nat,
        p.last_place() as nat,
    );
    assert(join_place(p, e) == join_place(p, m));
    assert(join_offset(p, e) == join_offset(p, m));
    let at = join_offset(p, m) * p.ch();
    if m.started {
        assert(crossfade(m.mid, e.input, at, p.channels as nat, p.overlap as nat) =~= crossfade(
            m.mid,
            m.input,
            at,
            p.channels as nat,
            p.overlap as nat,
        ));
    } else {
        assert(e.input.subrange(0, n) =~= m.input.subrange(0, n));
    }
    assert(join_head(p, e) == join_head(p, m));
    assert(join_body(p, e) =~= join_body(p, m));
    assert(join_tail(p, e) =~= join_tail(p, m));
    assert(advance(p, e) =~= extended(advance(p, m), b));
}

/// No reordering, nothing twice, nothing lost: to process the input, take
/// more input in and process again gives the same as to take all the input in
/// and process once. How the stream is cut into blocks does not show in what
/// comes out.
pub proof fn lemma_processed_in_pieces(p: StretchParams, m: StretchModel, b: Seq<i16>)
    requires
        p.wf(),
        model_ok(p, m),
        b.len() % (p.channels as nat) == 0,
    ensures
        processed(p, extended(processed(p, m), b)) == processed(p, extended(m, b)),
    decreases settle(p, m).input.len(), p.tempo.den - m.acc,
{
    lemma_settle(p, m);
    lemma_settle_extended(p, m, b);
    let m0 = settle(p, m);
    if can_advance(p, m0) {
        lemma_progress(p, m0);
        lemma_advance_local(p, m0, b);
        let a = advance(p, m0);
        // The settled model has no frames left to pass, so more input leaves
        // it settled.
        lemma_settle_extended(p, m0, b);
        assert(settled(extended(m0, b)));
        lemma_settle_settled(p, extended(m0, b));
        assert(settle(p, extended(m, b)) == extended(m0, b));
        // On the one side, a sequence is taken and the rest is processed.
        assert(processed(p, extended(m, b)) == processed(p, extended(a, b)));
        assert(processed(p, m) == processed(p, a));
        // On the other, the same holds of what is left after the sequence.
        lemma_join_bounds(p, m0);
        lemma_settle(p, a);
        lemma_processed_in_pieces(p, a, b);
    } else {
        assert(processed(p, m) == m0);
    }
}

/// The number of sequences that the stretcher takes from the input as it
/// stands.
pub open spec fn sequences(p: StretchParams, m: StretchModel) -> nat
    decreases m.input.len(), p.tempo.den - m.acc,
{
    if p.wf() && model_ok(p, m) && can_advance(p, m) {
        proof {
            lemma_progress(p, m);
        }
        1 + sequences(p, settle(p, advance(p, m)))
    } else {
        0
    }
}

/// How far the stretcher has come in the stream that goes in, but for the
/// frames that wait in the input: the frames that it still has to pass and
/// the carry, in parts of a frame of which `tempo.den` make a whole.
pub open spec fn lead(p: StretchParams, m: StretchModel) -> int {
    (m.pending - input_frames(p, m)) * p.tempo.den + m.acc
}

/// The tempo holds exactly: for each sequence the stretcher sends out the
/// sequence less its overlap, and moves on in the input by the tempo times as
/// many frames. What the whole frames of a move leave over is carried to the
/// next, so the moves never drift from the tempo by a frame.
pub proof fn lemma_tempo_holds(p: StretchParams, m: StretchModel)
    requires
        p.wf(),
        model_ok(p, m),
    ensures
        run(p, m).output.len() == m.output.len() + sequences(p, m) * (p.hop_out() * p.ch()),
        lead(p, run(p, m)) == lead(p, m) + sequences(p, m) * (p.tempo.num * p.hop_out()),
        0 <= run(p, m).acc < p.tempo.den,
    decreases m.input.len(), p.tempo.den - m.acc,
{
    if can_advance(p, m) {
        lemma_progress(p, m);
        lemma_lengths(p);
        lemma_join_bounds(p, m);
        lemma_skip(p, m.acc);
        let a = advance(p, m);
        lemma_settle(p, a);
        let s = settle(p, a);
        lemma_tempo_holds(p, s);
        let k = sequences(p, s) as int;
        let r = run(p, s);
        let ch = p.ch();
        let den = p.tempo.den as int;
        let hop = p.tempo.num * p.hop_out();
        let out = p.hop_out() * ch;
        assert((k + 1) * out == k * out + out) by (nonlinear_arith);
        assert((k + 1) * hop == k * hop + hop) by (nonlinear_arith);
        // One sequence: the overlap and what lies between the overlaps.
        assert(a.output.len() == m.output.len() + out);
        // One move: the frames dropped and those still to pass are the skip.
        let d = min_int(a.pending, input_frames(p, a));
        lemma_take_frames(m.input.len() as int, ch, d);
        assert(input_frames(p, s) == input_frames(p, m) - d);
        assert(s.pending == p.skip(m.acc) - d);

        let fm = input_frames(p, m);
        let fr = input_frames(p, r);
        let fs = input_frames(p, s);
        assert((r.pending - fr) * den + r.acc == (m.pending - fm) * den + m.acc + (k + 1) * hop)
            by (nonlinear_arith)
            requires
                (r.pending - fr) * den + r.acc == (s.pending - fs) * den + s.acc + k * hop,
                fs == fm - d,
                s.pending == p.skip(m.acc) - d,
                m.pending == 0,
                s.acc == p.next_acc(m.acc),
                p.skip(m.acc) * den + p.next_acc(m.acc) == m.acc + hop,
                (k + 1) * hop == k * hop + hop,
        ;
    } else {
        assert(sequences(p, m) * (p.hop_out() * p.ch()) == 0) by (nonlinear_arith)
            requires
                sequences(p, m) == 0,
        ;
        assert(sequences(p, m) * (p.tempo.num * p.hop_out()) == 0) by (nonlinear_arith)
            requires
                sequences(p, m) == 0,
        ;
    }
}

/// Once a sequence has been sent out, the stretcher keeps an overlap back
/// until the stream is ended.
pub proof fn lemma_started_stays(p: StretchParams, s: StretchModel)
    requires
        p.wf(),
        model_ok(p, s),
    ensures
        s.started ==> processed(p, s).started,
{
    lemma_settle(p, s);
    lemma_run_started(p, settle(p, s));
}

/// Taking sequences leaves the stretcher started, if it was.
pub proof fn lemma_run_started(p: StretchParams, s: StretchModel)
    requires
        p.wf(),
        model_ok(p, s),
    ensures
        s.started ==> run(p, s).started,
    decreases s.input.len(), p.tempo.den - s.acc,
{
    if can_advance(p, s) {
        lemma_progress(p, s);
        lemma_run_started(
            p,
            settle(p, advance(p, s)),
        );
    }
}

/// The stretcher stands in step with the stream: it has no frames to pass
/// and no carry, and the overlap that it keeps back is what stands at the
/// head of the input.
pub open spec fn in_step(p: StretchParams, m: StretchModel) -> bool {
    &&& m.pending == 0
    &&& m.acc == 0
    &&& (m.started ==> m.input.len() >= p.overlap_samples() && m.mid == m.input.take(
        p.overlap_samples(),
    ))
}

/// A cross-fade of a sound with itself is that sound.
pub proof fn lemma_crossfade_same(p: StretchParams, mid: Seq<i16>, input: Seq<i16>)
    requires
        p.wf(),
        input.len() >= p.overlap_samples(),
        mid == input.take(p.overlap_samples()),
    ensures
        crossfade(mid, input, 0, p.channels as nat, p.overlap as nat) == input.take(
            p.overlap_samples(),
        ),
{
    lemma_lengths(p);
    let ch = p.ch();
    let l = p.overlap as int;
    let n = p.overlap_samples();
    let x = crossfade(mid, input, 0, p.channels as nat, p.overlap as nat);
    assert(x.len() == n);
    assert forall|t: int| 0 <= t < n implies x[t] == input[t] by {
        vstd::arithmetic::div_mod::lemma_fundamental_div_mod(t, ch);
        vstd::arithmetic::div_mod::lemma_mod_bound(t, ch);
        let i = t / ch;
        assert(0 <= i < l) by (nonlinear_arith)
            requires
                0 <= t < l * ch,
                t == ch * i + t % ch,
                0 <= t % ch < ch,
                ch >= 1,
        {
            if i < 0 {
                assert(ch * i <= -ch);
            }
            if i >= l {
                assert(ch * i >= ch * l);
            }
        }
        assert(mid[t] == input[t]);
        lemma_blend_between(input[t] as int, input[t] as int, i, l);
    }
    assert(x =~= input.take(n));
}

/// In step with the stream and at a tempo of one, a sequence joins the sound
/// sent out where it stood in the input, and the stretcher stays in step.
pub proof fn lemma_unit_step(p: StretchParams, m: StretchModel)
    requires
        p.wf(),
        p.tempo.is_unity(),
        model_ok(p, m),
        in_step(p, m),
        can_advance(p, m),
    ensures
        settle(p, advance(p, m)).output == m.output + m.input.take(p.hop_out() * p.ch()),
        settle(p, advance(p, m)).input == m.input.skip(p.hop_out() * p.ch()),
        in_step(p, settle(p, advance(p, m))),
        settle(p, advance(p, m)).started,
        0 < p.hop_out() * p.ch() <= m.input.len(),
{
    lemma_lengths(p);
    lemma_join_bounds(p, m);
    lemma_progress(p, m);
    let ch = p.ch();
    let n = p.overlap_samples();
    let sn = p.sequence_samples();
    let hop = p.hop_out();
    if m.started {
        lemma_self_match_wins(
            m.mid,
            m.input,
            p.stride_samples() as nat,
            n as nat,
            p.last_place() as nat,
        );
        assert(join_place(p, m) == 0);
        assert(0nat * (p.stride as nat) == 0) by (nonlinear_arith);
        lemma_crossfade_same(p, m.mid, m.input);
    }
    assert(join_offset(p, m) == 0);
    assert(join_offset(p, m) * ch == 0) by (nonlinear_arith)
        requires
            join_offset(p, m) == 0,
    ;
    assert(join_head(p, m) =~= m.input.take(n));
    let a = advance(p, m);
    assert(join_head(p, m) + join_body(p, m) =~= m.input.take(sn));
    assert(a.output =~= m.output + m.input.take(hop * ch));
    // At a tempo of one the input moves on by what was sent out.
    let den = p.tempo.den as int;
    assert(p.hop_total(0) == den * hop) by (nonlinear_arith)
        requires
            p.hop_total(0) == 0 + p.tempo.num * hop,
            p.tempo.num == den,
    ;
    vstd::arithmetic::div_mod::lemma_fundamental_div_mod_converse(den * hop, den, hop, 0);
    assert(a.pending == hop);
    assert(a.acc == 0);
    lemma_settle(p, a);
    let frames = input_frames(p, a);
    lemma_take_frames(m.input.len() as int, ch, frames);
    assert(frames >= p.need()) by (nonlinear_arith)
        requires
            frames * ch == m.input.len(),
            m.input.len() >= p.need() * ch,
            ch >= 1,
    {
        if frames < p.need() {
            assert(frames * ch <= (p.need() - 1) * ch);
            assert((p.need() - 1) * ch == p.need() * ch - ch);
        }
    }
    assert(min_int(a.pending, frames) == hop);
    let s = settle(p, a);
    assert(s.input == m.input.skip(hop * ch));
    assert(s.mid =~= s.input.take(n));
}

/// At a tempo of one the search for the best join changes nothing: in step
/// with the stream, the stretcher hands the input on as it is, sample for
/// sample, for as many whole sequences as the input holds, and stays in step.
pub proof fn lemma_unit_tempo(p: StretchParams, m: StretchModel)
    requires
        p.wf(),
        p.tempo.is_unity(),
        model_ok(p, m),
        in_step(p, m),
    ensures
        sequences(p, m) * (p.hop_out() * p.ch()) <= m.input.len(),
        run(p, m).output == m.output + m.input.take(sequences(p, m) * (p.hop_out() * p.ch())),
        run(p, m).input == m.input.skip(sequences(p, m) * (p.hop_out() * p.ch())),
        in_step(p, run(p, m)),
        can_advance(p, m) ==> run(p, m).started,
    decreases m.input.len(), p.tempo.den - m.acc,
{
    let out = p.hop_out() * p.ch();
    if can_advance(p, m) {
        lemma_progress(p, m);
        lemma_unit_step(p, m);
        let s = settle(p, advance(p, m));
        lemma_unit_tempo(p, s);
        lemma_run_started(p, s);
        let k = sequences(p, s) as int;
        assert((k + 1) * out == out + k * out) by (nonlinear_arith);
        assert(0 <= k * out) by (nonlinear_arith)
            requires
                0 <= k,
                0 < out,
        ;
        assert(m.input.take(out) + m.input.skip(out).take(k * out) =~= m.input.take(
            out + k * out,
        ));
        assert(m.input.skip(out).skip(k * out) =~= m.input.skip(out + k * out));
        assert(run(p, m).output =~= m.output + m.input.take((k + 1) * out));
    } else {
        assert(sequences(p, m) * out == 0) by (nonlinear_arith)
            requires
                sequences(p, m) == 0,
        ;
        assert(m.input.take(0) =~= Seq::<i16>::empty());
        assert(m.output + m.input.take(0) =~= m.output);
        assert(m.input.skip(0) =~= m.input);
    }
}

/// At a tempo of one, to end a stream with which the stretcher is in step
/// adds nothing to it but silence at its end, and of that less than a
/// sequence.
pub proof fn lemma_unit_tempo_flush(p: StretchParams, m: StretchModel)
    requires
        p.wf(),
        p.tempo.is_unity(),
        model_ok(p, m),
        in_step(p, m),
    ensures
        flushed(p, m).output.len() >= m.output.len() + m.input.len(),
        flushed(p, m).output.len() < m.output.len() + m.input.len() + p.sequence * p.ch(),
        flushed(p, m).output == m.output + m.input + silence(
            (flushed(p, m).output.len() - m.output.len() - m.input.len()) as nat,
        ),
{
    lemma_lengths(p);
    let ch = p.ch();
    let pad = (flush_pad(p) * ch) as nat;
    let padded = StretchModel { input: m.input + silence(pad), ..m };
    lemma_frames_whole(flush_pad(p), ch);
    lemma_add_frames(m.input.len() as int, pad as int, ch);
    assert(model_ok(p, padded));
    assert(in_step(p, padded)) by {
        if m.started {
            assert(padded.input.take(p.overlap_samples()) =~= m.input.take(p.overlap_samples()));
        }
    }
    lemma_settle_settled(p, padded);
    lemma_unit_tempo(p, padded);
    lemma_run_model(p, padded);
    let r = run(p, padded);
    let k = sequences(p, padded) * (p.hop_out() * ch);
    let u = m.input.len() as int;
    assert(r.input.len() == padded.input.len() - k);
    // The run ends where less than a sequence at every place is left, so it
    // has taken in all of the stream.
    let fr = input_frames(p, r);
    lemma_take_frames(r.input.len() as int, ch, fr);
    let fu = u / ch;
    lemma_take_frames(u, ch, fu);
    let fk = sequences(p, padded) * p.hop_out();
    assert(k == fk * ch) by (nonlinear_arith)
        requires
            k == sequences(p, padded) * (p.hop_out() * ch),
            fk == sequences(p, padded) * p.hop_out(),
    ;
    assert(fr == fu + flush_pad(p) - fk) by (nonlinear_arith)
        requires
            fr * ch == fu * ch + flush_pad(p) * ch - fk * ch,
            ch >= 1,
    ;
    assert(fr < p.need()) by (nonlinear_arith)
        requires
            fr * ch == r.input.len(),
            r.input.len() < p.need() * ch,
            ch >= 1,
    ;
    assert(fk >= fu);
    assert(k >= u) by (nonlinear_arith)
        requires
            k == fk * ch,
            u == fu * ch,
            fk >= fu,
            ch >= 1,
    ;
    assert(r.output =~= m.output + padded.input.take(k));
    assert(padded.input.take(k) =~= m.input + silence((k - u) as nat));
    assert(flushed(p, m).output =~= m.output + m.input + silence((k - u) as nat));
    // And it ends less than a sequence behind the end of the stream.
    if can_advance(p, padded) {
        lemma_run_shortfall(p, padded);
        let den = p.tempo.den as int;
        assert(p.need() - fr <= p.sequence) by (nonlinear_arith)
            requires
                (p.need() - fr) * den + r.acc < den + den * p.sequence,
                r.acc >= 0,
                den >= 1,
        {
            if p.need() - fr >= p.sequence + 1 {
                assert((p.need() - fr) * den >= (p.sequence + 1) * den);
            }
        }
        assert(k - u < p.sequence * ch) by (nonlinear_arith)
            requires
                k == fk * ch,
                u == fu * ch,
                fk - fu <= p.sequence - 1,
                ch >= 1,
        {
            assert((fk - fu) * ch <= (p.sequence - 1) * ch);
        }
    } else {
        assert(sequences(p, padded) == 0);
        assert(k == 0) by (nonlinear_arith)
            requires
                k == sequences(p, padded) * (p.hop_out() * ch),
                sequences(p, padded) == 0,
        ;
        assert(0 < p.sequence * ch) by (nonlinear_arith)
            requires
                p.sequence >= 1,
                ch >= 1,
        ;
    }
}

/// Whole frames are whole frames.
proof fn lemma_frames_whole(f: int, ch: int)
    requires
        f >= 0,
        ch >= 1,
    ensures
        (f * ch) % ch == 0,
        f * ch >= 0,
{
    crate::arith::lemma_frames_to_samples(f, f, ch);
}

/// How far short of a sequence at every place of the window the input is,
/// with the frames that it still has to pass, in parts of a frame.
pub open spec fn shortfall(p: StretchParams, m: StretchModel) -> int {
    (p.need() - input_frames(p, m) + m.pending) * p.tempo.den
}

/// Where the stretcher stops it is short of the next sequence by less than
/// the last move and a frame, the carry counted in.
pub proof fn lemma_run_shortfall(p: StretchParams, m: StretchModel)
    requires
        p.wf(),
        model_ok(p, m),
        can_advance(p, m),
    ensures
        shortfall(p, run(p, m)) + run(p, m).acc < p.tempo.den + p.tempo.num * p.hop_out(),
        0 <= run(p, m).acc,
    decreases m.input.len(), p.tempo.den - m.acc,
{
    lemma_progress(p, m);
    lemma_lengths(p);
    lemma_skip(p, m.acc);
    let a = advance(p, m);
    lemma_settle(p, a);
    let s = settle(p, a);
    if can_advance(p, s) {
        lemma_run_shortfall(p, s);
    } else {
        let ch = p.ch();
        let den = p.tempo.den as int;
        let fm = input_frames(p, m);
        let d = min_int(a.pending, fm);
        lemma_take_frames(m.input.len() as int, ch, fm);
        lemma_take_frames(m.input.len() as int, ch, d);
        assert(fm >= p.need()) by (nonlinear_arith)
            requires
                fm * ch == m.input.len(),
                m.input.len() >= p.need() * ch,
                ch >= 1,
        {
            if fm < p.need() {
                assert(fm * ch <= (p.need() - 1) * ch);
                assert((p.need() - 1) * ch == p.need() * ch - ch);
            }
        }
        assert(input_frames(p, s) == fm - d);
        assert(s.pending == p.skip(m.acc) - d);
        assert(shortfall(p, s) <= p.skip(m.acc) * den) by (nonlinear_arith)
            requires
                shortfall(p, s) == (p.need() - (fm - d) + (p.skip(m.acc) - d)) * den,
                fm >= p.need(),
                den >= 1,
        {
            assert((p.need() - fm + p.skip(m.acc)) * den <= p.skip(m.acc) * den);
        }
        assert(s.acc == p.next_acc(m.acc));
        assert(run(p, s) == s);
    }
}

/// What the end of a stream brings: whole sequences behind what was sent
/// out before, and in frames, times the tempo, less than the frames that
/// waited in the input and the tempo times one sequence. So the end of a
/// stream adds the frames that are owed for the input and less than one
/// sequence more; with nothing in the input, it adds nothing.
pub proof fn lemma_flush_adds(p: StretchParams, m: StretchModel)
    requires
        p.wf(),
        model_ok(p, m),
    ensures
        flushed(p, m).output.len() >= m.output.len(),
        flushed(p, m).output.subrange(0, m.output.len() as int) == m.output,
        (flushed(p, m).output.len() - m.output.len()) % p.ch() == 0,
        ((flushed(p, m).output.len() - m.output.len()) / p.ch()) * p.tempo.num < input_frames(
            p,
            m,
        ) * p.tempo.den + p.sequence * p.tempo.num,
        m.input.len() == 0 ==> flushed(p, m).output == m.output,
        flushed(p, m).input.len() == 0,
        !flushed(p, m).started,
{
    lemma_lengths(p);
    let ch = p.ch();
    let num = p.tempo.num as int;
    let den = p.tempo.den as int;
    let hop = p.hop_out();
    let pad = (flush_pad(p) * ch) as nat;
    let padded = StretchModel { input: m.input + silence(pad), ..m };
    lemma_frames_whole(flush_pad(p), ch);
    lemma_add_frames(m.input.len() as int, pad as int, ch);
    assert(model_ok(p, padded));
    lemma_settle(p, padded);
    let s = settle(p, padded);
    lemma_tempo_holds(p, s);
    lemma_run_model(p, s);
    let r = run(p, s);
    let k = sequences(p, s) as int;
    let u = input_frames(p, m);
    vstd::arithmetic::div_mod::lemma_div_pos_is_pos(m.input.len() as int, ch);
    lemma_take_frames(m.input.len() as int, ch, u);
    let fp = input_frames(p, padded);
    assert(fp == u + flush_pad(p)) by {
        crate::arith::lemma_frames_to_samples(flush_pad(p), flush_pad(p), ch);
        assert(padded.input.len() == (u + flush_pad(p)) * ch) by (nonlinear_arith)
            requires
                padded.input.len() == u * ch + flush_pad(p) * ch,
        ;
        crate::arith::lemma_frames_to_samples(u + flush_pad(p), u + flush_pad(p), ch);
    }
    let d = min_int(padded.pending, fp);
    lemma_take_frames(padded.input.len() as int, ch, d);
    let fs = input_frames(p, s);
    assert(fs == fp - d);
    assert(s.pending == m.pending - d);
    let fr = input_frames(p, r);
    // What is sent out is whole sequences.
    let added = r.output.len() - m.output.len();
    assert(added == (k * hop) * ch) by (nonlinear_arith)
        requires
            added == k * (hop * ch),
    ;
    assert(0 <= k * hop) by (nonlinear_arith)
        requires
            0 <= k,
            0 <= hop,
    ;
    crate::arith::lemma_frames_to_samples(k * hop, k * hop, ch);
    assert(added / ch == k * hop);
    assert(r.output.subrange(0, m.output.len() as int) == m.output) by {
        let bare = StretchModel { output: Seq::empty(), ..s };
        assert(prefixed(bare, m.output) =~= s);
        lemma_run_appends(p, bare, m.output);
        assert(r.output =~= m.output + run(p, bare).output);
        assert((m.output + run(p, bare).output).subrange(0, m.output.len() as int) =~= m.output);
    }
    if can_advance(p, s) {
        lemma_run_shortfall(p, s);
        // What went in, by the tempo.
        assert((r.pending - fr) * den + r.acc == (s.pending - fs) * den + s.acc + k * (num * hop));
        assert((k * hop) * num < u * den + p.sequence * num) by (nonlinear_arith)
            requires
                (r.pending - fr) * den + r.acc == (s.pending - fs) * den + s.acc + k * (num
                    * hop),
                (p.need() - fr + r.pending) * den + r.acc < den + num * hop,
                fs == u + p.need() - 1 - d,
                s.pending == m.pending - d,
                m.pending >= 0,
                s.acc >= 0,
                den >= 1,
                hop == p.sequence,
        {
            assert((r.pending - fr) * den == (p.need() - fr + r.pending) * den - p.need() * den);
            assert((s.pending - fs) * den == (m.pending - u - p.need() + 1) * den);
            assert((m.pending - u - p.need() + 1) * den == m.pending * den - u * den - p.need()
                * den + den);
            assert(m.pending * den >= 0);
            assert(k * (num * hop) == (k * hop) * num);
        }
    } else {
        assert(k == 0);
        assert(k * hop == 0);
        assert(0 <= u * den) by (nonlinear_arith)
            requires
                0 <= u,
                den >= 1,
        ;
        assert(0 < p.sequence * num) by (nonlinear_arith)
            requires
                p.sequence >= 1,
                num >= 1,
        ;
    }
    if m.input.len() == 0 {
        // Less than a sequence needs at any place: none is taken.
        assert(padded.input.len() == flush_pad(p) * ch);
        assert(s.input.len() <= padded.input.len());
        assert(flush_pad(p) * ch < p.need() * ch) by (nonlinear_arith)
            requires
                flush_pad(p) == p.need() - 1,
                ch >= 1,
        ;
        assert(!can_advance(p, s));
        assert(r == s);
    }
}

/// The length of a stream that has gone through the stretcher, from its
/// start to its end, is its length over the tempo and less than a sequence
/// more: with `n` frames in and `out` frames out, `out` times the tempo is
/// at least `n` and less than `n` plus the tempo times a sequence.
pub proof fn lemma_duration(p: StretchParams, x: Seq<i16>)
    requires
        p.wf(),
        x.len() % (p.channels as nat) == 0,
    ensures
        flushed(p, extended(fresh(), x)).output.len() % (p.channels as nat) == 0,
        (flushed(p, extended(fresh(), x)).output.len() / (p.channels as nat)) * p.tempo.num >= (
        x.len() / (p.channels as nat)) * p.tempo.den,
        (flushed(p, extended(fresh(), x)).output.len() / (p.channels as nat)) * p.tempo.num < (
        x.len() / (p.channels as nat)) * p.tempo.den + p.sequence * p.tempo.num,
{
    lemma_lengths(p);
    let ch = p.ch();
    let m = extended(fresh(), x);
    assert(m.input =~= x);
    vstd::arithmetic::div_mod::lemma_small_mod(0, ch as nat);
    assert(model_ok(p, m));
    lemma_flush_adds(p, m);
    let num = p.tempo.num as int;
    let den = p.tempo.den as int;
    let hop = p.hop_out();
    let pad = (flush_pad(p) * ch) as nat;
    let padded = StretchModel { input: m.input + silence(pad), ..m };
    lemma_frames_whole(flush_pad(p), ch);
    lemma_add_frames(x.len() as int, pad as int, ch);
    assert(model_ok(p, padded));
    lemma_settle_settled(p, padded);
    lemma_tempo_holds(p, padded);
    lemma_run_model(p, padded);
    lemma_run_settled(p, padded);
    let r = run(p, padded);
    let k = sequences(p, padded) as int;
    let n = (x.len() as int) / ch;
    vstd::arithmetic::div_mod::lemma_div_pos_is_pos(x.len() as int, ch);
    lemma_take_frames(x.len() as int, ch, n);
    let fp = input_frames(p, padded);
    assert(fp == n + flush_pad(p)) by {
        assert(padded.input.len() == (n + flush_pad(p)) * ch) by (nonlinear_arith)
            requires
                padded.input.len() == n * ch + flush_pad(p) * ch,
        ;
        crate::arith::lemma_frames_to_samples(n + flush_pad(p), n + flush_pad(p), ch);
    }
    let fr = input_frames(p, r);
    vstd::arithmetic::div_mod::lemma_div_pos_is_pos(r.input.len() as int, ch);
    lemma_take_frames(r.input.len() as int, ch, fr);
    // The run ends short of a sequence at every place of the window.
    assert(fr < p.need()) by (nonlinear_arith)
        requires
            r.pending != 0 ==> r.input.len() == 0,
            r.pending == 0 ==> r.input.len() < p.need() * ch,
            fr * ch == r.input.len(),
            p.need() >= 2,
            ch >= 1,
            fr >= 0,
    {
        if r.pending != 0 {
            assert(fr * ch == 0);
            if fr > 0 {
                assert(fr * ch >= ch);
            }
        } else if fr >= p.need() {
            assert(fr * ch >= p.need() * ch);
        }
    }
    let total = r.output.len() as int;
    assert(total == (k * hop) * ch) by (nonlinear_arith)
        requires
            total == k * (hop * ch),
    ;
    assert(0 <= k * hop) by (nonlinear_arith)
        requires
            0 <= k,
            0 <= hop,
    ;
    crate::arith::lemma_frames_to_samples(k * hop, k * hop, ch);
    let out = k * hop;
    assert(flushed(p, m).output.len() == total);
    assert(total / ch == out);
    assert(out * num >= n * den) by (nonlinear_arith)
        requires
            (r.pending - fr) * den + r.acc == (0 - fp) * den + k * (num * hop),
            fp == n + p.need() - 1,
            out == k * hop,
            fr < p.need(),
            r.pending >= 0,
            r.acc >= 0,
            den >= 1,
    {
        assert(out * num == (n + p.need() - 1 - fr + r.pending) * den + r.acc);
        assert((n + p.need() - 1 - fr + r.pending) * den == n * den + (p.need() - 1 - fr
            + r.pending) * den);
        assert((p.need() - 1 - fr + r.pending) * den >= 0);
    }
}

/// What is ready of a stream before its end: with `n` frames in and `out`
/// frames out, `out` times the tempo is less than `n` plus the tempo times a
/// sequence, and more than the frames that went in less those that a
/// sequence needs at every place of the window. The stretcher runs ahead of
/// the tempo by less than a sequence and lags behind it by less than what
/// it has to see before it takes one.
pub proof fn lemma_processed_duration(p: StretchParams, x: Seq<i16>)
    requires
        p.wf(),
        x.len() % (p.channels as nat) == 0,
    ensures
        processed(p, extended(fresh(), x)).output.len() % (p.channels as nat) == 0,
        (processed(p, extended(fresh(), x)).output.len() / (p.channels as nat)) * p.tempo.num < (
        x.len() / (p.channels as nat)) * p.tempo.den + p.sequence * p.tempo.num,
        (processed(p, extended(fresh(), x)).output.len() / (p.channels as nat)) * p.tempo.num > (
        x.len() / (p.channels as nat) - p.need()) * p.tempo.den,
{
    lemma_lengths(p);
    let ch = p.ch();
    let num = p.tempo.num as int;
    let den = p.tempo.den as int;
    let hop = p.hop_out();
    let m = extended(fresh(), x);
    assert(m.input =~= x);
    assert(model_ok(p, m));
    lemma_settle_settled(p, m);
    lemma_tempo_holds(p, m);
    lemma_run_model(p, m);
    lemma_run_settled(p, m);
    let r = run(p, m);
    let k = sequences(p, m) as int;
    let n = (x.len() as int) / ch;
    vstd::arithmetic::div_mod::lemma_div_pos_is_pos(x.len() as int, ch);
    lemma_take_frames(x.len() as int, ch, n);
    let fr = input_frames(p, r);
    vstd::arithmetic::div_mod::lemma_div_pos_is_pos(r.input.len() as int, ch);
    lemma_take_frames(r.input.len() as int, ch, fr);
    assert(fr < p.need()) by (nonlinear_arith)
        requires
            r.pending != 0 ==> r.input.len() == 0,
            r.pending == 0 ==> r.input.len() < p.need() * ch,
            fr * ch == r.input.len(),
            p.need() >= 2,
            ch >= 1,
            fr >= 0,
    {
        if r.pending != 0 {
            assert(fr * ch == 0);
            if fr > 0 {
                assert(fr * ch >= ch);
            }
        } else if fr >= p.need() {
            assert(fr * ch >= p.need() * ch);
        }
    }
    let total = r.output.len() as int;
    assert(total == (k * hop) * ch) by (nonlinear_arith)
        requires
            total == k * (hop * ch),
    ;
    assert(0 <= k * hop) by (nonlinear_arith)
        requires
            0 <= k,
            0 <= hop,
    ;
    crate::arith::lemma_frames_to_samples(k * hop, k * hop, ch);
    let out = k * hop;
    assert(total / ch == out);
    assert((r.pending - fr) * den + r.acc == (0 - n) * den + k * (num * hop));
    assert(out * num > (n - p.need()) * den) by (nonlinear_arith)
        requires
            (r.pending - fr) * den + r.acc == (0 - n) * den + k * (num * hop),
            out == k * hop,
            fr < p.need(),
            r.pending >= 0,
            r.acc >= 0,
            den >= 1,
    {
        assert(out * num == (n - fr + r.pending) * den + r.acc);
        assert((n - fr + r.pending) * den == (n - p.need()) * den + (p.need() - fr + r.pending)
            * den);
        assert((p.need() - fr + r.pending) * den >= den);
    }
    if can_advance(p, m) {
        lemma_run_shortfall(p, m);
        assert(out * num < n * den + p.sequence * num) by (nonlinear_arith)
            requires
                (r.pending - fr) * den + r.acc == (0 - n) * den + k * (num * hop),
                (p.need() - fr + r.pending) * den + r.acc < den + num * hop,
                out == k * hop,
                hop == p.sequence,
                p.need() >= 1,
                den >= 1,
        {
            assert((p.need() - fr + r.pending) * den == (r.pending - fr) * den + p.need() * den);
            assert(p.need() * den >= den);
            assert(k * (num * hop) == (k * hop) * num);
        }
    } else {
        assert(k == 0);
        assert(out == 0 && out * num == 0) by (nonlinear_arith)
            requires
                out == k * hop,
                k == 0,
        ;
        assert(0 <= n * den) by (nonlinear_arith)
            requires
                0 <= n,
                den >= 1,
        ;
        assert(0 < p.sequence * num) by (nonlinear_arith)
            requires
                p.sequence >= 1,
                num >= 1,
        ;
    }
}

} // verus!
