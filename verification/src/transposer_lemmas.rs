//! What holds of the rate transposer whatever the stream.

use vstd::prelude::*;
use crate::arith::{lemma_add_frames, lemma_take_frames, min_int};
use crate::transposer::{
    can_emit,
    cursor,
    cursor_frame,
    cursor_ok,
    drop_passed,
    emit,
    emit_all,
    frames_ahead,
    lemma_drop_passed,
    lemma_emit,
    transposed,
    waiting_frames,
    TransposeModel,
    TransposeParams,
};

verus! {

/// The model with `b` put behind its input.
pub open spec fn extended(m: TransposeModel, b: Seq<i16>) -> TransposeModel {
    TransposeModel { input: m.input + b, ..m }
}

/// The model with `y` put before its output.
pub open spec fn prefixed(m: TransposeModel, y: Seq<i16>) -> TransposeModel {
    TransposeModel { output: y + m.output, ..m }
}

/// The model with the first `d` frames of its input dropped, and the cursor
/// counted from the new head.
pub open spec fn shifted(p: TransposeParams, m: TransposeModel, d: int) -> TransposeModel {
    TransposeModel { index: m.index - d, input: m.input.skip(d * p.ch()), ..m }
}

/// The transposer only ever appends to its output, and what it appends and
/// where it leaves the cursor do not depend on what the output holds already.
pub proof fn lemma_emit_all_appends(p: TransposeParams, m: TransposeModel, y: Seq<i16>)
    requires
        p.wf(),
        cursor_ok(p, m),
    ensures
        emit_all(p, prefixed(m, y)) == prefixed(emit_all(p, m), y),
    decreases frames_ahead(p, m), p.step.den - m.frac,
{
    let my = prefixed(m, y);
    if can_emit(p, m) {
        lemma_emit(p, m);
        assert(cursor_frame(p, my) == cursor_frame(p, m));
        assert(emit(p, my) =~= prefixed(emit(p, m), y));
        lemma_emit_all_appends(p, emit(p, m), y);
    }
}

/// The transposer only ever appends to its output, and what it appends and
/// what it keeps do not depend on what the output holds already.
pub proof fn lemma_transposed_appends(p: TransposeParams, m: TransposeModel, y: Seq<i16>)
    requires
        p.wf(),
        cursor_ok(p, m),
    ensures
        transposed(p, prefixed(m, y)) == prefixed(transposed(p, m), y),
{
    lemma_emit_all_appends(p, m, y);
    assert(drop_passed(p, prefixed(emit_all(p, m), y)) =~= prefixed(
        drop_passed(p, emit_all(p, m)),
        y,
    ));
}

/// Counting the cursor from a new head does not move it in the stream: the
/// frame at the cursor and whether it can be sent out stay the same.
pub proof fn lemma_shifted(p: TransposeParams, m: TransposeModel, d: int)
    requires
        p.wf(),
        cursor_ok(p, m),
        0 <= d <= m.index,
        d <= waiting_frames(p, m),
    ensures
        cursor_ok(p, shifted(p, m, d)),
        can_emit(p, shifted(p, m, d)) == can_emit(p, m),
        waiting_frames(p, shifted(p, m, d)) == waiting_frames(p, m) - d,
        can_emit(p, m) ==> cursor_frame(p, shifted(p, m, d)) == cursor_frame(p, m),
        can_emit(p, m) ==> emit(p, shifted(p, m, d)) == shifted(p, emit(p, m), d),
        0 <= d * p.ch() <= m.input.len(),
{
    let ch = p.ch();
    let s = shifted(p, m, d);
    lemma_take_frames(m.input.len() as int, ch, d);
    assert((m.index - d + 2) * ch == (m.index + 2) * ch - d * ch) by (nonlinear_arith);
    assert((m.index - d) * ch == m.index * ch - d * ch) by (nonlinear_arith);
    assert((m.index - d + 1) * ch == (m.index + 1) * ch - d * ch) by (nonlinear_arith);
    if can_emit(p, m) {
        lemma_emit(p, m);
        assert(cursor_frame(p, s) =~= cursor_frame(p, m));
        assert(emit(p, s) =~= shifted(p, emit(p, m), d));
    }
}

/// Sending out frames and counting the cursor from a new head can be done in
/// either order.
pub proof fn lemma_emit_all_shifted(p: TransposeParams, m: TransposeModel, d: int)
    requires
        p.wf(),
        cursor_ok(p, m),
        0 <= d <= m.index,
        d <= waiting_frames(p, m),
    ensures
        emit_all(p, shifted(p, m, d)) == shifted(p, emit_all(p, m), d),
        emit_all(p, m).index >= m.index,
    decreases frames_ahead(p, m), p.step.den - m.frac,
{
    lemma_shifted(p, m, d);
    if can_emit(p, m) {
        lemma_emit(p, m);
        lemma_emit_all_shifted(p, emit(p, m), d);
    }
}

/// To drop some of the frames that the cursor has passed and then the rest
/// is to drop them all at once.
pub proof fn lemma_drop_shifted(p: TransposeParams, m: TransposeModel, d: int)
    requires
        p.wf(),
        cursor_ok(p, m),
        0 <= d <= m.index,
        d <= waiting_frames(p, m),
    ensures
        drop_passed(p, shifted(p, m, d)) == drop_passed(p, m),
{
    let ch = p.ch();
    lemma_shifted(p, m, d);
    let s = shifted(p, m, d);
    let f = waiting_frames(p, m);
    let d2 = min_int(s.index, f - d);
    let all = min_int(m.index, f);
    assert(all == d + d2);
    assert((d + d2) * ch == d * ch + d2 * ch) by (nonlinear_arith);
    assert(0 <= d2 * ch) by (nonlinear_arith)
        requires
            0 <= d2,
            ch >= 1,
    ;
    lemma_take_frames(m.input.len() as int, ch, all);
    assert(m.input.skip(d * ch).skip(d2 * ch) =~= m.input.skip(all * ch));
    assert(drop_passed(p, s) =~= drop_passed(p, m));
}

/// The transposer has nothing to do: it cannot send out a frame, and no frame
/// that the cursor has passed waits in the input.
pub open spec fn done(p: TransposeParams, m: TransposeModel) -> bool {
    !can_emit(p, m) && (m.index == 0 || m.input.len() == 0)
}

/// A transposer that has nothing to do does nothing.
pub proof fn lemma_done_stays(p: TransposeParams, m: TransposeModel)
    requires
        p.wf(),
        cursor_ok(p, m),
        done(p, m),
    ensures
        transposed(p, m) == m,
{
    assert(emit_all(p, m) == m);
    let d = min_int(m.index, waiting_frames(p, m));
    vstd::arithmetic::div_mod::lemma_div_pos_is_pos(m.input.len() as int, p.ch());
    if m.input.len() == 0 {
        assert(waiting_frames(p, m) == 0);
    }
    assert(d == 0);
    assert(d * p.ch() == 0) by (nonlinear_arith)
        requires
            d == 0,
    ;
    assert(m.input.skip(0) =~= m.input);
    assert(drop_passed(p, m) =~= m);
}

/// Sending out frames keeps the model in order and ends where no frame can
/// be sent.
pub proof fn lemma_emit_all_model(p: TransposeParams, m: TransposeModel)
    requires
        p.wf(),
        cursor_ok(p, m),
    ensures
        cursor_ok(p, emit_all(p, m)),
        emit_all(p, m).input == m.input,
        !can_emit(p, emit_all(p, m)),
    decreases frames_ahead(p, m), p.step.den - m.frac,
{
    if can_emit(p, m) {
        lemma_emit(p, m);
        lemma_emit_all_model(p, emit(p, m));
    }
}

/// When the transposer has processed its input it has nothing to do.
pub proof fn lemma_transposed_done(p: TransposeParams, m: TransposeModel)
    requires
        p.wf(),
        cursor_ok(p, m),
    ensures
        cursor_ok(p, transposed(p, m)),
        done(p, transposed(p, m)),
{
    let e = emit_all(p, m);
    lemma_emit_all_model(p, m);
    lemma_drop_passed(p, e);
    let d = min_int(e.index, waiting_frames(p, e));
    vstd::arithmetic::div_mod::lemma_div_pos_is_pos(e.input.len() as int, p.ch());
    lemma_shifted(p, e, d);
    assert(transposed(p, m) == shifted(p, e, d));
}

/// The transposer is done when it is done: to process what has been
/// processed changes nothing. Asking again, with no new input, brings no new
/// output.
pub proof fn lemma_transposed_twice(p: TransposeParams, m: TransposeModel)
    requires
        p.wf(),
        cursor_ok(p, m),
    ensures
        transposed(p, transposed(p, m)) == transposed(p, m),
{
    lemma_transposed_done(p, m);
    lemma_done_stays(p, transposed(p, m));
}

/// A frame is made of the two frames at the cursor: what stands behind them
/// in the input does not change it.
pub proof fn lemma_emit_local(p: TransposeParams, m: TransposeModel, b: Seq<i16>)
    requires
        p.wf(),
        cursor_ok(p, m),
        can_emit(p, m),
        b.len() % (p.channels as nat) == 0,
    ensures
        cursor_ok(p, extended(m, b)),
        can_emit(p, extended(m, b)),
        emit(p, extended(m, b)) == extended(emit(p, m), b),
{
    lemma_emit(p, m);
    lemma_add_frames(m.input.len() as int, b.len() as int, p.ch());
    assert(cursor_frame(p, extended(m, b)) =~= cursor_frame(p, m));
    assert(emit(p, extended(m, b)) =~= extended(emit(p, m), b));
}

/// To send out what can be sent, take more input in and go on sending is to
/// take the input in first.
pub proof fn lemma_emit_all_extended(p: TransposeParams, m: TransposeModel, b: Seq<i16>)
    requires
        p.wf(),
        cursor_ok(p, m),
        b.len() % (p.channels as nat) == 0,
    ensures
        emit_all(p, extended(emit_all(p, m), b)) == emit_all(p, extended(m, b)),
    decreases frames_ahead(p, m), p.step.den - m.frac,
{
    if can_emit(p, m) {
        lemma_emit(p, m);
        lemma_emit_local(p, m, b);
        lemma_emit_all_extended(p, emit(p, m), b);
    }
}

/// No reordering, nothing twice, nothing lost: to process the input, take
/// more input in and process again gives the same as to take all the input in
/// and process once. How the stream is cut into blocks does not show in what
/// comes out.
pub proof fn lemma_transposed_in_pieces(p: TransposeParams, m: TransposeModel, b: Seq<i16>)
    requires
        p.wf(),
        cursor_ok(p, m),
        b.len() % (p.channels as nat) == 0,
    ensures
        transposed(p, extended(transposed(p, m), b)) == transposed(p, extended(m, b)),
{
    let ch = p.ch();
    let e = emit_all(p, m);
    lemma_emit_all_model(p, m);
    lemma_drop_passed(p, e);
    let d = min_int(e.index, waiting_frames(p, e));
    vstd::arithmetic::div_mod::lemma_div_pos_is_pos(e.input.len() as int, ch);
    lemma_shifted(p, e, d);
    let t = transposed(p, m);
    assert(t == shifted(p, e, d));
    // More input behind the shifted model is the shifted model of more input.
    let eb = extended(e, b);
    lemma_add_frames(e.input.len() as int, b.len() as int, ch);
    vstd::arithmetic::div_mod::lemma_div_pos_is_pos(b.len() as int, ch);
    assert(extended(t, b) =~= shifted(p, eb, d));
    assert(cursor_ok(p, eb));
    assert(waiting_frames(p, eb) >= d);
    lemma_emit_all_shifted(p, eb, d);
    let x = emit_all(p, eb);
    lemma_emit_all_model(p, eb);
    assert(waiting_frames(p, x) == waiting_frames(p, eb));
    lemma_drop_shifted(p, x, d);
    lemma_emit_all_extended(p, m, b);
}

/// The number of frames that the transposer sends out for the input as it
/// stands.
pub open spec fn frames_out(p: TransposeParams, m: TransposeModel) -> nat
    decreases frames_ahead(p, m), p.step.den - m.frac,
{
    if p.wf() && cursor_ok(p, m) && can_emit(p, m) {
        proof {
            lemma_emit(p, m);
        }
        1 + frames_out(p, emit(p, m))
    } else {
        0
    }
}

/// The frame of the input at the place `at`, counted in parts of a frame from
/// the head: the mix of the frame before the place and the frame behind it,
/// each weighed by how near the place is to it.
pub open spec fn frame_at(p: TransposeParams, input: Seq<i16>, at: int) -> Seq<i16> {
    cursor_frame(
        p,
        TransposeModel {
            index: at / (p.step.den as int),
            frac: at % (p.step.den as int),
            input,
            output: Seq::empty(),
        },
    )
}

/// The step holds exactly: for each frame sent out the cursor moves on by the
/// step, and the frame number `j` of what is sent out is the frame of the
/// input at `j` steps behind the place where the cursor stood.
pub proof fn lemma_step_holds(p: TransposeParams, m: TransposeModel, j: nat)
    requires
        p.wf(),
        cursor_ok(p, m),
    ensures
        emit_all(p, m).output.len() == m.output.len() + frames_out(p, m) * p.ch(),
        cursor(p, emit_all(p, m)) == cursor(p, m) + frames_out(p, m) * p.step.num,
        j < frames_out(p, m) ==> emit_all(p, m).output.subrange(
            m.output.len() + j * p.ch(),
            m.output.len() + j * p.ch() + p.ch(),
        ) == frame_at(p, m.input, cursor(p, m) + j * p.step.num),
        m.output.len() <= emit_all(p, m).output.len(),
        emit_all(p, m).output.subrange(0, m.output.len() as int) == m.output,
    decreases frames_ahead(p, m), p.step.den - m.frac,
{
    let ch = p.ch();
    let den = p.step.den as int;
    if can_emit(p, m) {
        lemma_emit(p, m);
        let e = emit(p, m);
        let k = frames_out(p, e) as int;
        assert((k + 1) * ch == k * ch + ch) by (nonlinear_arith);
        assert((k + 1) * p.step.num == k * p.step.num + p.step.num) by (nonlinear_arith);
        assert(0 <= k * ch) by (nonlinear_arith)
            requires
                0 <= k,
                ch >= 1,
        ;
        let r = emit_all(p, m);
        if j == 0 {
            lemma_step_holds(p, e, 0);
            assert(0 * ch == 0) by (nonlinear_arith);
            assert(0 * p.step.num == 0) by (nonlinear_arith);
            // The first frame sent out is the frame at the cursor.
            assert(r.output.subrange(0, e.output.len() as int) == e.output);
            assert(r.output.subrange(m.output.len() as int, m.output.len() + ch)
                =~= e.output.subrange(m.output.len() as int, m.output.len() + ch));
            assert(e.output.subrange(m.output.len() as int, m.output.len() + ch) =~= cursor_frame(
                p,
                m,
            ));
            assert(cursor(p, m) == den * m.index + m.frac) by (nonlinear_arith)
                requires
                    cursor(p, m) == m.index * den + m.frac,
            ;
            vstd::arithmetic::div_mod::lemma_fundamental_div_mod_converse(
                cursor(p, m),
                den,
                m.index,
                m.frac,
            );
            assert(frame_at(p, m.input, cursor(p, m)) =~= cursor_frame(p, m));
            assert(r.output.subrange(0, m.output.len() as int) =~= m.output);
        } else {
            lemma_step_holds(p, e, (j - 1) as nat);
            assert(j * ch == (j - 1) * ch + ch) by (nonlinear_arith);
            assert(j * p.step.num == (j - 1) * p.step.num + p.step.num) by (nonlinear_arith);
            assert(0 <= (j - 1) * ch) by (nonlinear_arith)
                requires
                    j >= 1,
                    ch >= 1,
            ;
            assert(r.output.subrange(0, m.output.len() as int) =~= m.output) by {
                assert(r.output.subrange(0, e.output.len() as int) == e.output);
                assert forall|i: int| 0 <= i < m.output.len() implies r.output[i] == m.output[i] by {
                    assert(r.output.subrange(0, e.output.len() as int)[i] == e.output[i]);
                }
            }
        }
    } else {
        assert(frames_out(p, m) * ch == 0) by (nonlinear_arith)
            requires
                frames_out(p, m) == 0,
        ;
        assert(frames_out(p, m) * p.step.num == 0) by (nonlinear_arith)
            requires
                frames_out(p, m) == 0,
        ;
        assert(m.output.subrange(0, m.output.len() as int) =~= m.output);
    }
}

/// A frame is sent out for each step of the cursor at which both neighbours
/// stand in the input, and for no other: the step number `j` sends a frame
/// out if and only if the frame behind the place `j` steps on is there.
pub proof fn lemma_frames_out(p: TransposeParams, m: TransposeModel, j: nat)
    requires
        p.wf(),
        cursor_ok(p, m),
    ensures
        j < frames_out(p, m) <==> (cursor(p, m) + j * p.step.num) / (p.step.den as int) + 2
            <= waiting_frames(p, m),
    decreases frames_ahead(p, m), p.step.den - m.frac, j,
{
    let den = p.step.den as int;
    let num = p.step.num as int;
    let ch = p.ch();
    let frames = waiting_frames(p, m);
    lemma_take_frames(m.input.len() as int, ch, frames);
    vstd::arithmetic::div_mod::lemma_div_pos_is_pos(m.input.len() as int, ch);
    assert(cursor(p, m) == den * m.index + m.frac) by (nonlinear_arith)
        requires
            cursor(p, m) == m.index * den + m.frac,
    ;
    vstd::arithmetic::div_mod::lemma_fundamental_div_mod_converse(
        cursor(p, m),
        den,
        m.index,
        m.frac,
    );
    // Whether a frame can be sent is whether the frame behind the cursor is
    // in the input.
    assert(can_emit(p, m) <==> m.index + 2 <= frames) by (nonlinear_arith)
        requires
            can_emit(p, m) <==> (m.index + 2) * ch <= m.input.len(),
            frames * ch == m.input.len(),
            ch >= 1,
    {
        if m.index + 2 <= frames {
            assert((m.index + 2) * ch <= frames * ch);
        } else {
            assert((m.index + 2) * ch >= (frames + 1) * ch);
            assert((frames + 1) * ch == frames * ch + ch);
        }
    }
    if j == 0 {
        assert(j * num == 0) by (nonlinear_arith)
            requires
                j == 0,
        ;
    } else if can_emit(p, m) {
        lemma_emit(p, m);
        lemma_frames_out(p, emit(p, m), (j - 1) as nat);
        assert(j * num == (j - 1) * num + num) by (nonlinear_arith);
    } else {
        // The cursor only moves on: a frame that cannot be sent now cannot
        // be sent later.
        assert(0 <= j * num) by (nonlinear_arith)
            requires
                0 <= j,
                0 <= num,
        ;
        vstd::arithmetic::div_mod::lemma_div_is_ordered(cursor(p, m), cursor(p, m) + j * num, den);
    }
}

/// The frames from the cursor up to the last but one, which are those that
/// have a neighbour behind them.
pub open spec fn frames_with_neighbour(p: TransposeParams, m: TransposeModel) -> Seq<i16> {
    if m.index + 1 < waiting_frames(p, m) {
        m.input.subrange(m.index * p.ch(), (waiting_frames(p, m) - 1) * p.ch())
    } else {
        Seq::empty()
    }
}

/// At a step of one, with the cursor on a frame, nothing is mixed: the
/// transposer hands the frames on as they are, each as soon as the frame
/// behind it has come.
pub proof fn lemma_unit_step(p: TransposeParams, m: TransposeModel)
    requires
        p.wf(),
        p.step.is_unity(),
        cursor_ok(p, m),
        m.frac == 0,
    ensures
        emit_all(p, m).output == m.output + frames_with_neighbour(p, m),
        emit_all(p, m).frac == 0,
        emit_all(p, m).input == m.input,
        m.index + 1 < waiting_frames(p, m) ==> emit_all(p, m).index == waiting_frames(p, m) - 1,
        m.index + 1 >= waiting_frames(p, m) ==> emit_all(p, m).index == m.index,
    decreases frames_ahead(p, m), p.step.den - m.frac,
{
    let ch = p.ch();
    let den = p.step.den as int;
    let frames = waiting_frames(p, m);
    lemma_take_frames(m.input.len() as int, ch, frames);
    vstd::arithmetic::div_mod::lemma_div_pos_is_pos(m.input.len() as int, ch);
    assert(can_emit(p, m) <==> m.index + 2 <= frames) by (nonlinear_arith)
        requires
            can_emit(p, m) <==> (m.index + 2) * ch <= m.input.len(),
            frames * ch == m.input.len(),
            ch >= 1,
    {
        if m.index + 2 <= frames {
            assert((m.index + 2) * ch <= frames * ch);
        } else {
            assert((m.index + 2) * ch >= (frames + 1) * ch);
            assert((frames + 1) * ch == frames * ch + ch);
        }
    }
    if can_emit(p, m) {
        lemma_emit(p, m);
        let e = emit(p, m);
        // A step of one moves the cursor to the next frame.
        vstd::arithmetic::div_mod::lemma_fundamental_div_mod_converse(den, den, 1, 0);
        assert(e.index == m.index + 1);
        assert(e.frac == 0);
        // With the cursor on a frame, the frame at the cursor is that frame.
        let f = cursor_frame(p, m);
        assert forall|c: int| 0 <= c < ch implies f[c] == m.input[m.index * ch + c] by {
            crate::overlap::lemma_blend_between(
                m.input[m.index * ch + c] as int,
                m.input[(m.index + 1) * ch + c] as int,
                0,
                den,
            );
        }
        assert(f =~= m.input.subrange(m.index * ch, (m.index + 1) * ch));
        lemma_unit_step(p, e);
        assert((frames - 1) * ch == frames * ch - ch) by (nonlinear_arith);
        assert((m.index + 1) * ch <= (frames - 1) * ch) by (nonlinear_arith)
            requires
                m.index + 1 <= frames - 1,
                ch >= 1,
        ;
        assert(m.output + frames_with_neighbour(p, m) =~= m.output + f + frames_with_neighbour(
            p,
            e,
        ));
    } else {
        assert(m.output + frames_with_neighbour(p, m) =~= m.output);
    }
}

/// At a step of one, a stream that goes through the transposer from its
/// start to its end comes out as it went in, sample for sample.
pub proof fn lemma_unit_step_flush(p: TransposeParams, x: Seq<i16>, y: Seq<i16>)
    requires
        p.wf(),
        p.step.is_unity(),
        x.len() % (p.channels as nat) == 0,
    ensures
        crate::transposer::flushed(
            p,
            TransposeModel { index: 0, frac: 0, input: x, output: y },
        ).output == y + x,
{
    let ch = p.ch();
    let m = TransposeModel { index: 0, frac: 0, input: x, output: y };
    let padded = TransposeModel { input: x + crate::fifo::silence(p.channels as nat), ..m };
    vstd::arithmetic::div_mod::lemma_mod_self_0(ch);
    lemma_add_frames(x.len() as int, ch, ch);
    lemma_unit_step(p, padded);
    let frames = waiting_frames(p, padded);
    lemma_take_frames(padded.input.len() as int, ch, frames);
    vstd::arithmetic::div_mod::lemma_div_pos_is_pos(x.len() as int, ch);
    lemma_take_frames(x.len() as int, ch, (x.len() as int) / ch);
    assert(frames * ch == x.len() + ch);
    assert((frames - 1) * ch == frames * ch - ch) by (nonlinear_arith);
    assert(0 * ch == 0) by (nonlinear_arith);
    if 1 < frames {
        assert(frames_with_neighbour(p, padded) =~= x);
    } else {
        assert(frames * ch >= ch) by (nonlinear_arith)
            requires
                frames * ch == x.len() + ch,
                ch >= 1,
        ;
        assert(frames >= 1) by (nonlinear_arith)
            requires
                frames * ch >= ch,
                ch >= 1,
                frames >= 0,
        {
            if frames == 0 {
                assert(frames * ch == 0);
            }
        }
        assert(x.len() == 0);
        assert(frames_with_neighbour(p, padded) =~= x);
    }
    assert(y + frames_with_neighbour(p, padded) =~= y + x);
}

/// What the end of a stream brings: whole frames behind what was sent out
/// before, and of them, times the step, less than the frames that waited in
/// the input and one step. With nothing in the input, it adds nothing.
pub proof fn lemma_flush_adds(p: TransposeParams, m: TransposeModel)
    requires
        p.wf(),
        cursor_ok(p, m),
    ensures
        crate::transposer::flushed(p, m).output.len() >= m.output.len(),
        crate::transposer::flushed(p, m).output.subrange(0, m.output.len() as int) == m.output,
        (crate::transposer::flushed(p, m).output.len() - m.output.len()) % p.ch() == 0,
        ((crate::transposer::flushed(p, m).output.len() - m.output.len()) / p.ch()) * p.step.num
            < waiting_frames(p, m) * p.step.den + p.step.num,
        crate::transposer::flushed(p, m).input.len() == 0,
{
    let ch = p.ch();
    let num = p.step.num as int;
    let den = p.step.den as int;
    let padded = TransposeModel { input: m.input + crate::fifo::silence(p.channels as nat), ..m };
    vstd::arithmetic::div_mod::lemma_mod_self_0(ch);
    lemma_add_frames(m.input.len() as int, ch, ch);
    assert(cursor_ok(p, padded));
    let u = waiting_frames(p, m);
    vstd::arithmetic::div_mod::lemma_div_pos_is_pos(m.input.len() as int, ch);
    lemma_take_frames(m.input.len() as int, ch, u);
    assert(padded.input.len() == (u + 1) * ch) by (nonlinear_arith)
        requires
            padded.input.len() == u * ch + ch,
    ;
    crate::arith::lemma_frames_to_samples(u + 1, u + 1, ch);
    assert(waiting_frames(p, padded) == u + 1);
    let t = frames_out(p, padded) as int;
    lemma_step_holds(p, padded, 0);
    let added = emit_all(p, padded).output.len() - m.output.len();
    crate::arith::lemma_frames_to_samples(t, t, ch);
    assert(added / ch == t);
    if t >= 1 {
        lemma_frames_out(p, padded, (t - 1) as nat);
        let at = cursor(p, padded) + (t - 1) * num;
        assert(at / den <= u - 1);
        vstd::arithmetic::div_mod::lemma_fundamental_div_mod(at, den);
        vstd::arithmetic::div_mod::lemma_mod_bound(at, den);
        assert(at < u * den) by (nonlinear_arith)
            requires
                at == den * (at / den) + at % den,
                at % den < den,
                at / den <= u - 1,
                den >= 1,
        {
            assert(den * (at / den) <= den * (u - 1));
        }
        assert(0 <= cursor(p, padded)) by (nonlinear_arith)
            requires
                cursor(p, padded) == padded.index * den + padded.frac,
                0 <= padded.index,
                0 <= padded.frac,
                den >= 1,
        ;
        assert(t * num < u * den + num) by (nonlinear_arith)
            requires
                cursor(p, padded) + (t - 1) * num < u * den,
                0 <= cursor(p, padded),
        ;
    } else {
        assert(t * num == 0) by (nonlinear_arith)
            requires
                t == 0,
        ;
        assert(0 <= u * den) by (nonlinear_arith)
            requires
                0 <= u,
                den >= 1,
        ;
    }
}

} // verus!
