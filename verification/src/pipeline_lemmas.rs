//! What holds of the pipeline whatever the stream.

use vstd::prelude::*;
use crate::controls::lemma_controls;
use crate::pipeline::{
    empty_pipeline,
    fed,
    first,
    first_flush,
    first_stage,
    flushed,
    pipeline_ok,
    processed,
    rate_active,
    ready_frames,
    second,
    second_flush,
    second_stage,
    taken,
    tempo_active,
    PipelineModel,
};
use crate::stretch::StretchModel;
use crate::transposer::TransposeModel;

verus! {

/// The pipeline with other samples in its output.
pub open spec fn with_output(m: PipelineModel, o: Seq<i16>) -> PipelineModel {
    PipelineModel { output: o, ..m }
}

/// Both stages have nothing to do.
pub open spec fn idle(m: PipelineModel) -> bool {
    &&& (rate_active(m) ==> m.rate_engaged && crate::transposer_lemmas::done(
        m.controls.transpose_params(),
        first(m),
    ))
    &&& (!rate_active(m) ==> m.input.len() == 0)
    &&& (tempo_active(m) ==> crate::stretch_lemmas::done(m.controls.stretch_params(), second(m)))
    &&& (!tempo_active(m) ==> m.between.len() == 0)
}

/// The first stage keeps the pipeline in order and leaves nothing for itself
/// to do.
pub proof fn lemma_first_stage(m: PipelineModel)
    requires
        pipeline_ok(m),
    ensures
        pipeline_ok(first_stage(m)),
        first_stage(m).controls == m.controls,
        first_stage(m).output == m.output,
        first_stage(m).drained == m.drained,
        second(first_stage(m)) == crate::stretch_lemmas::extended(
            second(m),
            first_stage(m).between.skip(m.between.len() as int),
        ),
        m.between.len() <= first_stage(m).between.len(),
        first_stage(m).between.take(m.between.len() as int) == m.between,
        rate_active(first_stage(m)) == rate_active(m),
        rate_active(m) ==> first_stage(m).rate_engaged && crate::transposer_lemmas::done(
            m.controls.transpose_params(),
            first(first_stage(m)),
        ),
        !rate_active(m) ==> first_stage(m).input.len() == 0,
{
    let c = m.controls;
    lemma_controls(c);
    let tp = c.transpose_params();
    let r = first_stage(m);
    if rate_active(m) {
        let t = crate::transposer::transposed(tp, first(m));
        crate::transposer_lemmas::lemma_transposed_done(tp, first(m));
        crate::transposer::lemma_emit_all_ok(tp, first(m));
        crate::transposer::lemma_drop_passed(tp, crate::transposer::emit_all(tp, first(m)));
        crate::transposer_lemmas::lemma_step_holds(tp, first(m), 0);
        assert(first(r) =~= t);
        assert(r.between.take(m.between.len() as int) =~= m.between);
        assert(second(r) =~= crate::stretch_lemmas::extended(
            second(m),
            r.between.skip(m.between.len() as int),
        ));
    } else {
        crate::arith::lemma_add_frames(
            m.between.len() as int,
            m.input.len() as int,
            c.frame_channels(),
        );
        vstd::arithmetic::div_mod::lemma_small_mod(0, c.frame_channels() as nat);
        assert(r.input.len() == 0);
        assert(r.between.take(m.between.len() as int) =~= m.between);
        assert(r.between.skip(m.between.len() as int) =~= m.input);
        assert(second(r) =~= crate::stretch_lemmas::extended(
            second(m),
            r.between.skip(m.between.len() as int),
        ));
    }
}

/// The second stage keeps the pipeline in order and leaves nothing for itself
/// to do.
pub proof fn lemma_second_stage(m: PipelineModel)
    requires
        pipeline_ok(m),
    ensures
        pipeline_ok(second_stage(m)),
        second_stage(m).controls == m.controls,
        first(second_stage(m)).input == first(m).input,
        first(second_stage(m)).index == first(m).index,
        first(second_stage(m)).frac == first(m).frac,
        second_stage(m).rate_engaged == m.rate_engaged,
        second_stage(m).drained == m.drained,
        tempo_active(second_stage(m)) == tempo_active(m),
        rate_active(second_stage(m)) == rate_active(m),
        tempo_active(m) ==> crate::stretch_lemmas::done(
            m.controls.stretch_params(),
            second(second_stage(m)),
        ),
        !tempo_active(m) ==> second_stage(m).between.len() == 0,
{
    let c = m.controls;
    lemma_controls(c);
    let sp = c.stretch_params();
    let r = second_stage(m);
    if tempo_active(m) {
        crate::stretch_lemmas::lemma_processed_done(sp, second(m));
        crate::stretch::lemma_processed_ok(sp, second(m));
        crate::stretch_lemmas::lemma_started_stays(sp, second(m));
        assert(second(r) =~= crate::stretch::processed(sp, second(m)));
    } else {
        crate::arith::lemma_add_frames(
            m.output.len() as int,
            m.between.len() as int,
            c.frame_channels(),
        );
        vstd::arithmetic::div_mod::lemma_small_mod(0, c.frame_channels() as nat);
        assert(r.between.len() == 0);
    }
}

/// Processing keeps the pipeline in order and leaves both stages with
/// nothing to do.
pub proof fn lemma_processed_ok(m: PipelineModel)
    requires
        pipeline_ok(m),
    ensures
        pipeline_ok(processed(m)),
        processed(m).controls == m.controls,
        processed(m).drained == m.drained,
        idle(processed(m)),
{
    lemma_first_stage(m);
    lemma_second_stage(first_stage(m));
    let a = first_stage(m);
    let r = second_stage(a);
    assert(first(r).input == first(a).input);
    if rate_active(m) {
        let tp = m.controls.transpose_params();
        // Whether a transposer has something to do does not rest on what it
        // has sent out.
        assert(crate::transposer::can_emit(tp, first(r)) == crate::transposer::can_emit(
            tp,
            first(a),
        ));
    }
}

/// A pipeline whose stages have nothing to do does nothing when asked to
/// process.
pub proof fn lemma_idle_stays(m: PipelineModel)
    requires
        pipeline_ok(m),
        idle(m),
    ensures
        processed(m) == m,
{
    let c = m.controls;
    lemma_controls(c);
    if rate_active(m) {
        crate::transposer_lemmas::lemma_done_stays(c.transpose_params(), first(m));
    } else {
        assert(m.between + m.input =~= m.between);
    }
    assert(first_stage(m) =~= m);
    if tempo_active(m) {
        crate::stretch_lemmas::lemma_done_stays(c.stretch_params(), second(m));
    } else {
        assert(m.output + m.between =~= m.output);
    }
    assert(second_stage(m) =~= m);
}

/// Asking again, with no new input, brings no new output: to process what has
/// been processed changes nothing.
pub proof fn lemma_processed_twice(m: PipelineModel)
    requires
        pipeline_ok(m),
    ensures
        processed(processed(m)) == processed(m),
{
    lemma_processed_ok(m);
    lemma_idle_stays(processed(m));
}

/// Whether the stages have something to do does not rest on what is ready in
/// the output, and to take from the output leaves the pipeline in order.
pub proof fn lemma_taken_ok(m: PipelineModel, n: int)
    requires
        pipeline_ok(m),
        0 <= n <= m.output.len(),
        n % m.controls.frame_channels() == 0,
    ensures
        pipeline_ok(taken(m, n)),
        idle(m) ==> idle(taken(m, n)),
{
    lemma_controls(m.controls);
    let ch = m.controls.frame_channels();
    vstd::arithmetic::div_mod::lemma_fundamental_div_mod(n, ch);
    vstd::arithmetic::div_mod::lemma_div_pos_is_pos(n, ch);
    vstd::arithmetic::div_mod::lemma_fundamental_div_mod(m.output.len() as int, ch);
    let q = n / ch;
    let total = (m.output.len() as int) / ch;
    assert(q <= total) by (nonlinear_arith)
        requires
            n == ch * q,
            m.output.len() == ch * total,
            n <= m.output.len(),
            ch >= 1,
    {
        if q > total {
            assert(ch * q >= ch * (total + 1));
            assert(ch * (total + 1) == ch * total + ch);
        }
    }
    assert(q * ch == n) by (nonlinear_arith)
        requires
            n == ch * q,
    ;
    crate::arith::lemma_take_frames(m.output.len() as int, ch, q);
}

/// Starvation: once everything that was ready has been received, asking
/// again without putting anything in hands out nothing. A pipeline that has
/// been processed stays as it is when samples are taken from its output and
/// it is asked to process again.
pub proof fn lemma_starved(m: PipelineModel, n: int)
    requires
        pipeline_ok(m),
        0 <= n <= processed(m).output.len(),
        n % m.controls.frame_channels() == 0,
    ensures
        processed(taken(processed(m), n)) == taken(processed(m), n),
        n == processed(m).output.len() ==> ready_frames(processed(taken(processed(m), n))) == 0,
{
    lemma_processed_ok(m);
    lemma_taken_ok(processed(m), n);
    lemma_idle_stays(taken(processed(m), n));
    if n == processed(m).output.len() {
        assert(taken(processed(m), n).output.len() == 0);
    }
}

/// Pass-through: with the tempo, the pitch and the rate all at one, a
/// pipeline that has not been at work on the stream hands the samples on as
/// they are. Every sample put in comes out, in its place, and nothing else.
pub proof fn lemma_pass_through(m: PipelineModel, x: Seq<i16>)
    requires
        m.controls.tempo.is_unity(),
        m.controls.pitch.is_unity(),
        m.controls.rate.is_unity(),
        m.controls.wf(),
        !m.rate_engaged,
        !m.started,
    ensures
        processed(fed(m, x)).output == m.output + m.between + m.input + x,
        processed(fed(m, x)).input.len() == 0,
        processed(fed(m, x)).between.len() == 0,
        flushed(processed(fed(m, x))).output == processed(fed(m, x)).output,
        flushed(fed(m, x)).output == m.output + m.between + m.input + x,
        !rate_active(m),
        !tempo_active(m),
{
    let c = m.controls;
    assert(c.transpose_step().is_unity()) by {
        crate::ratio::lemma_term_product(c.rate.num as int, c.pitch.num as int);
        crate::ratio::lemma_term_product(c.rate.den as int, c.pitch.den as int);
        assert(c.rate.num * c.pitch.num == c.rate.den * c.pitch.den) by (nonlinear_arith)
            requires
                c.rate.num == c.rate.den,
                c.pitch.num == c.pitch.den,
        ;
    }
    assert(c.stretch_tempo().is_unity()) by {
        crate::ratio::lemma_term_product(c.tempo.num as int, c.pitch.den as int);
        crate::ratio::lemma_term_product(c.tempo.den as int, c.pitch.num as int);
        assert(c.tempo.num * c.pitch.den == c.tempo.den * c.pitch.num) by (nonlinear_arith)
            requires
                c.tempo.num == c.tempo.den,
                c.pitch.num == c.pitch.den,
        ;
    }
    let f = fed(m, x);
    let a = first_stage(f);
    assert(a.between =~= m.between + m.input + x);
    let r = second_stage(a);
    assert(r.output =~= m.output + m.between + m.input + x);
    let g = first_flush(r);
    assert(g.between =~= Seq::<i16>::empty());
    assert(second_flush(g).output =~= r.output);
    let h = first_flush(f);
    assert(h.between =~= m.between + m.input + x);
    assert(second_flush(h).output =~= m.output + m.between + m.input + x);
}

/// The pipeline with `y` put before the samples between its stages.
pub open spec fn between_prefixed(m: PipelineModel, y: Seq<i16>) -> PipelineModel {
    PipelineModel { between: y + m.between, ..m }
}

/// The pipeline with `x` put behind the samples between its stages.
pub open spec fn between_extended(m: PipelineModel, x: Seq<i16>) -> PipelineModel {
    PipelineModel { between: m.between + x, ..m }
}

/// The pipeline with `y` put before the samples in its output.
pub open spec fn output_prefixed(m: PipelineModel, y: Seq<i16>) -> PipelineModel {
    PipelineModel { output: y + m.output, ..m }
}

/// The first stage only ever appends to what lies between the stages, and
/// what it appends does not depend on what lies there already.
pub proof fn lemma_first_stage_appends(m: PipelineModel, y: Seq<i16>)
    requires
        pipeline_ok(m),
    ensures
        first_stage(between_prefixed(m, y)) == between_prefixed(first_stage(m), y),
{
    let c = m.controls;
    lemma_controls(c);
    let my = between_prefixed(m, y);
    if rate_active(m) {
        let tp = c.transpose_params();
        assert(first(my) =~= crate::transposer_lemmas::prefixed(first(m), y));
        crate::transposer_lemmas::lemma_transposed_appends(tp, first(m), y);
        assert(first_stage(my) =~= between_prefixed(first_stage(m), y));
    } else {
        assert((y + m.between) + m.input =~= y + (m.between + m.input));
        assert(first_stage(my) =~= between_prefixed(first_stage(m), y));
    }
}

/// The second stage only ever appends to the output, and what it appends
/// does not depend on what the output holds already.
pub proof fn lemma_second_stage_appends(m: PipelineModel, y: Seq<i16>)
    requires
        pipeline_ok(m),
    ensures
        second_stage(output_prefixed(m, y)) == output_prefixed(second_stage(m), y),
{
    let c = m.controls;
    lemma_controls(c);
    let my = output_prefixed(m, y);
    if tempo_active(m) {
        let sp = c.stretch_params();
        assert(second(my) =~= crate::stretch_lemmas::prefixed(second(m), y));
        crate::stretch_lemmas::lemma_processed_appends(sp, second(m), y);
        assert(second_stage(my) =~= output_prefixed(second_stage(m), y));
    } else {
        assert((y + m.output) + m.between =~= y + (m.output + m.between));
        assert(second_stage(my) =~= output_prefixed(second_stage(m), y));
    }
}

/// The pipeline only ever appends to its output, and what it appends does not
/// depend on what the output holds already: samples that are ready stay as
/// they are, in their place, until they are received.
pub proof fn lemma_processed_appends(m: PipelineModel, y: Seq<i16>)
    requires
        pipeline_ok(m),
    ensures
        processed(output_prefixed(m, y)) == output_prefixed(processed(m), y),
{
    lemma_first_stage(m);
    assert(first_stage(output_prefixed(m, y)) =~= output_prefixed(first_stage(m), y));
    lemma_second_stage_appends(first_stage(m), y);
}

/// The first stage does not care how its input is cut: to take the input
/// through, put more in and take that through is to put all in first.
pub proof fn lemma_first_stage_in_pieces(m: PipelineModel, b: Seq<i16>)
    requires
        pipeline_ok(m),
        b.len() % (m.controls.frame_channels() as nat) == 0,
    ensures
        first_stage(fed(first_stage(m), b)) == first_stage(fed(m, b)),
{
    let c = m.controls;
    lemma_controls(c);
    lemma_first_stage(m);
    let a = first_stage(m);
    if rate_active(m) {
        let tp = c.transpose_params();
        let t = crate::transposer::transposed(tp, first(m));
        assert(first(fed(a, b)) =~= crate::transposer_lemmas::extended(t, b));
        assert(first(fed(m, b)) =~= crate::transposer_lemmas::extended(first(m), b));
        crate::transposer_lemmas::lemma_transposed_in_pieces(tp, first(m), b);
        assert(first_stage(fed(a, b)) =~= first_stage(fed(m, b)));
    } else {
        assert(a.input =~= Seq::<i16>::empty());
        assert((m.between + m.input) + (a.input + b) =~= m.between + (m.input + b));
        assert(first_stage(fed(a, b)) =~= first_stage(fed(m, b)));
    }
}

/// The second stage does not care how its input is cut: to take what lies
/// between the stages through, put more there and take that through is to
/// put all there first.
pub proof fn lemma_second_stage_in_pieces(m: PipelineModel, x: Seq<i16>)
    requires
        pipeline_ok(m),
        x.len() % (m.controls.frame_channels() as nat) == 0,
    ensures
        second_stage(between_extended(second_stage(m), x)) == second_stage(
            between_extended(m, x),
        ),
{
    let c = m.controls;
    lemma_controls(c);
    lemma_second_stage(m);
    let a = second_stage(m);
    if tempo_active(m) {
        let sp = c.stretch_params();
        let s = crate::stretch::processed(sp, second(m));
        assert(second(between_extended(a, x)) =~= crate::stretch_lemmas::extended(s, x));
        assert(second(between_extended(m, x)) =~= crate::stretch_lemmas::extended(second(m), x));
        crate::stretch_lemmas::lemma_processed_in_pieces(sp, second(m), x);
        assert(second_stage(between_extended(a, x)) =~= second_stage(between_extended(m, x)));
    } else {
        assert(a.between =~= Seq::<i16>::empty());
        assert((m.output + m.between) + (a.between + x) =~= m.output + (m.between + x));
        assert(second_stage(between_extended(a, x)) =~= second_stage(between_extended(m, x)));
    }
}

/// The pipeline does not care how its input is cut: to process what was put
/// in, put more in and process again is to put all in first and process once.
pub proof fn lemma_processed_in_pieces(m: PipelineModel, b: Seq<i16>)
    requires
        pipeline_ok(m),
        b.len() % (m.controls.frame_channels() as nat) == 0,
    ensures
        processed(fed(processed(m), b)) == processed(fed(m, b)),
{
    let c = m.controls;
    lemma_controls(c);
    lemma_first_stage(m);
    let a = first_stage(m);
    lemma_second_stage(a);
    let p = second_stage(a);
    // What the first stage makes of the new input, seen apart from what lies
    // between the stages already.
    let base = PipelineModel { between: Seq::empty(), ..fed(a, b) };
    vstd::arithmetic::div_mod::lemma_small_mod(0, c.frame_channels() as nat);
    crate::arith::lemma_add_frames(a.input.len() as int, b.len() as int, c.frame_channels());
    assert(base.between.len() == 0);
    assert(pipeline_ok(base));
    lemma_first_stage(base);
    let x2 = first_stage(base).between;
    assert(between_prefixed(base, a.between) =~= fed(a, b));
    lemma_first_stage_appends(base, a.between);
    // The same first stage, with what the second stage has left between the
    // stages.
    let basep = PipelineModel {
        started: p.started,
        acc: p.acc,
        pending: p.pending,
        mid: p.mid,
        output: p.output,
        ..base
    };
    assert(pipeline_ok(basep));
    lemma_first_stage(basep);
    assert(first_stage(basep).between =~= x2) by {
        lemma_first_stage_same(base, basep);
    }
    assert(between_prefixed(basep, p.between) =~= fed(p, b));
    lemma_first_stage_appends(basep, p.between);
    lemma_first_stage_in_pieces(m, b);
    let r1 = first_stage(fed(m, b));
    let l1 = first_stage(fed(p, b));
    assert(r1 == first_stage(fed(a, b)));
    assert(r1.between =~= a.between + x2);
    assert(l1.between =~= p.between + x2);
    // The second stage, from the state in which the first call left it.
    let mm = PipelineModel { between: a.between, ..r1 };
    assert(pipeline_ok(mm)) by {
        crate::arith::lemma_add_frames(
            m.input.len() as int,
            b.len() as int,
            c.frame_channels(),
        );
        lemma_first_stage(fed(m, b));
    }
    lemma_second_stage(mm);
    lemma_second_stage_same(a, mm);
    assert(between_extended(mm, x2) =~= r1);
    lemma_first_stage_same(base, basep);
    assert(between_extended(second_stage(mm), x2) =~= l1);
    lemma_second_stage_in_pieces(mm, x2);
}

/// What the first stage does rests on the input, the transposer and the
/// settings alone.
pub proof fn lemma_first_stage_same(m1: PipelineModel, m2: PipelineModel)
    requires
        m1.controls == m2.controls,
        m1.input == m2.input,
        m1.rate_engaged == m2.rate_engaged,
        m1.index == m2.index,
        m1.frac == m2.frac,
        m1.between == m2.between,
    ensures
        first_stage(m1).input == first_stage(m2).input,
        first_stage(m1).rate_engaged == first_stage(m2).rate_engaged,
        first_stage(m1).index == first_stage(m2).index,
        first_stage(m1).frac == first_stage(m2).frac,
        first_stage(m1).between == first_stage(m2).between,
        first_stage(m2).started == m2.started,
        first_stage(m2).acc == m2.acc,
        first_stage(m2).pending == m2.pending,
        first_stage(m2).mid == m2.mid,
        first_stage(m2).output == m2.output,
        first_stage(m2).drained == m2.drained,
        first_stage(m2).controls == m2.controls,
{
    assert(first(m1) == first(m2));
}

/// What the second stage does rests on what lies between the stages, the
/// stretcher, the output and the settings alone.
pub proof fn lemma_second_stage_same(m1: PipelineModel, m2: PipelineModel)
    requires
        m1.controls == m2.controls,
        m1.between == m2.between,
        m1.started == m2.started,
        m1.acc == m2.acc,
        m1.pending == m2.pending,
        m1.mid == m2.mid,
        m1.output == m2.output,
    ensures
        second_stage(m1).between == second_stage(m2).between,
        second_stage(m1).started == second_stage(m2).started,
        second_stage(m1).acc == second_stage(m2).acc,
        second_stage(m1).pending == second_stage(m2).pending,
        second_stage(m1).mid == second_stage(m2).mid,
        second_stage(m1).output == second_stage(m2).output,
        second_stage(m2).input == m2.input,
        second_stage(m2).rate_engaged == m2.rate_engaged,
        second_stage(m2).index == m2.index,
        second_stage(m2).frac == m2.frac,
        second_stage(m2).drained == m2.drained,
        second_stage(m2).controls == m2.controls,
{
    assert(second(m1) == second(m2));
}

/// First in, first out, nothing twice and nothing lost: put the samples `a`
/// in, receive `n` of what is ready, put the samples `b` in and process
/// again. What was received, followed by what is ready then, is what would be
/// ready had `a` and `b` been put in at once, and the pipeline is left as it
/// would be then. The samples come out in the order in which they went in,
/// however the stream is cut into blocks and whenever its output is read.
pub proof fn lemma_first_in_first_out(m: PipelineModel, a: Seq<i16>, b: Seq<i16>, n: int)
    requires
        pipeline_ok(m),
        a.len() % (m.controls.frame_channels() as nat) == 0,
        b.len() % (m.controls.frame_channels() as nat) == 0,
        0 <= n <= processed(fed(m, a)).output.len(),
        n % m.controls.frame_channels() == 0,
    ensures
        processed(fed(m, a)).output.take(n) + processed(
            fed(taken(processed(fed(m, a)), n), b),
        ).output == processed(fed(m, a + b)).output,
        with_output(
            processed(fed(taken(processed(fed(m, a)), n), b)),
            processed(fed(m, a + b)).output,
        ) == processed(fed(m, a + b)),
{
    let c = m.controls;
    lemma_controls(c);
    crate::arith::lemma_add_frames(m.input.len() as int, a.len() as int, c.frame_channels());
    let fa = fed(m, a);
    assert(pipeline_ok(fa));
    lemma_processed_ok(fa);
    let once = processed(fa);
    lemma_processed_in_pieces(fa, b);
    assert(fed(fa, b) =~= fed(m, a + b));
    let all = processed(fed(m, a + b));
    assert(processed(fed(once, b)) == all);
    // Taking from the output before more is put in does not change what the
    // stages make of it.
    let q = taken(once, n);
    lemma_taken_ok(once, n);
    let fq = fed(q, b);
    crate::arith::lemma_add_frames(q.input.len() as int, b.len() as int, c.frame_channels());
    assert(pipeline_ok(fq));
    let head = once.output.take(n);
    assert(output_prefixed(fq, head) =~= fed(once, b)) by {
        assert(head + once.output.skip(n) =~= once.output);
    }
    lemma_processed_appends(fq, head);
    let twice = processed(fq);
    assert(all == output_prefixed(twice, head));
    assert(with_output(twice, all.output) =~= all);
}

/// The tempo sets the length of the stream: with the pitch and the rate at
/// one and a tempo that is not, a stream of `n` frames that goes through the
/// pipeline from its start to its end comes out as `out` frames, where `out`
/// times the tempo is at least `n` and less than `n` plus the tempo times a
/// sequence. In the long run a frame comes out for each tempo's worth of
/// frames that goes in, the ratio that the pipeline names for frames out to
/// frames in.
pub proof fn lemma_tempo_duration(c: crate::controls::Controls, x: Seq<i16>)
    requires
        c.wf(),
        c.pitch == (crate::ratio::Ratio { num: 1, den: 1 }),
        c.rate == (crate::ratio::Ratio { num: 1, den: 1 }),
        !c.tempo.is_unity(),
        x.len() % (c.frame_channels() as nat) == 0,
    ensures
        flushed(fed(empty_pipeline(c), x)).output.len() % (c.frame_channels() as nat) == 0,
        (x.len() / (c.frame_channels() as nat)) * c.tempo.den <= (flushed(
            fed(empty_pipeline(c), x),
        ).output.len() / (c.frame_channels() as nat)) * c.tempo.num,
        (flushed(fed(empty_pipeline(c), x)).output.len() / (c.frame_channels() as nat))
            * c.tempo.num < (x.len() / (c.frame_channels() as nat)) * c.tempo.den
            + c.sequence_frames() * c.tempo.num,
        c.output_per_input().num == c.tempo.den,
        c.output_per_input().den == c.tempo.num,
        flushed(fed(empty_pipeline(c), x)).input.len() == 0,
        flushed(fed(empty_pipeline(c), x)).between.len() == 0,
        flushed(fed(empty_pipeline(c), x)).drained,
{
    lemma_controls(c);
    let sp = c.stretch_params();
    let m = fed(empty_pipeline(c), x);
    assert(c.tempo.num * 1 == c.tempo.num && c.tempo.den * 1 == c.tempo.den);
    assert(sp.tempo == c.tempo);
    assert(c.transpose_step().is_unity());
    assert(!rate_active(m));
    assert(tempo_active(m));
    let h = first_flush(m);
    assert(h.between =~= x);
    assert(second(h) =~= crate::stretch_lemmas::extended(crate::stretch::fresh(), x));
    crate::stretch_lemmas::lemma_duration(sp, x);
}

/// What is ready of a stream before its end, which is what `generate_audio`
/// hands out for a stream put into a new pipeline: with the pitch and the
/// rate at one and a tempo that is not, `n` frames in and `out` frames
/// ready, `out` times the tempo is less than `n` plus the tempo times a
/// sequence, and more than `n` less the frames that the stretcher has to see
/// before it takes a sequence. The longer the stream, the nearer the two
/// come to the ratio that the pipeline names.
pub proof fn lemma_ready_duration(c: crate::controls::Controls, x: Seq<i16>)
    requires
        c.wf(),
        c.pitch == (crate::ratio::Ratio { num: 1, den: 1 }),
        c.rate == (crate::ratio::Ratio { num: 1, den: 1 }),
        !c.tempo.is_unity(),
        x.len() % (c.frame_channels() as nat) == 0,
    ensures
        processed(fed(empty_pipeline(c), x)).output.len() % (c.frame_channels() as nat) == 0,
        (processed(fed(empty_pipeline(c), x)).output.len() / (c.frame_channels() as nat))
            * c.tempo.num < (x.len() / (c.frame_channels() as nat)) * c.tempo.den
            + c.sequence_frames() * c.tempo.num,
        (processed(fed(empty_pipeline(c), x)).output.len() / (c.frame_channels() as nat))
            * c.tempo.num > (x.len() / (c.frame_channels() as nat) - c.stretch_params().need())
            * c.tempo.den,
{
    lemma_controls(c);
    let sp = c.stretch_params();
    let m = fed(empty_pipeline(c), x);
    assert(c.tempo.num * 1 == c.tempo.num && c.tempo.den * 1 == c.tempo.den);
    assert(sp.tempo == c.tempo);
    assert(c.transpose_step().is_unity());
    assert(!rate_active(m));
    assert(tempo_active(m));
    let a = crate::pipeline::first_stage(m);
    assert(a.between =~= x);
    assert(second(a) =~= crate::stretch_lemmas::extended(crate::stretch::fresh(), x));
    crate::stretch_lemmas::lemma_processed_duration(sp, x);
}

/// A pipeline that holds nothing is in order, whatever it is set to.
pub proof fn lemma_empty_ok(c: crate::controls::Controls)
    requires
        c.wf(),
    ensures
        pipeline_ok(empty_pipeline(c)),
{
    lemma_controls(c);
    vstd::arithmetic::div_mod::lemma_small_mod(0, c.frame_channels() as nat);
}

/// To put whole frames in keeps the pipeline in order.
pub proof fn lemma_fed_ok(m: PipelineModel, x: Seq<i16>)
    requires
        pipeline_ok(m),
        x.len() % (m.controls.frame_channels() as nat) == 0,
    ensures
        pipeline_ok(fed(m, x)),
{
    lemma_controls(m.controls);
    crate::arith::lemma_add_frames(
        m.input.len() as int,
        x.len() as int,
        m.controls.frame_channels(),
    );
}

/// To set the pipeline to other values that are in order keeps it in order.
pub proof fn lemma_reconfigured_ok(m: PipelineModel, c: crate::controls::Controls)
    requires
        pipeline_ok(m),
        c.wf(),
    ensures
        pipeline_ok(crate::pipeline::reconfigured(m, c)),
{
    lemma_controls(c);
    lemma_controls(m.controls);
    if c.frame_channels() != m.controls.frame_channels() {
        lemma_empty_ok(c);
    } else {
        crate::stretch::lemma_lengths(c.stretch_params());
    }
}

/// The end of a stream leaves the pipeline in order.
pub proof fn lemma_flushed_ok(m: PipelineModel)
    requires
        pipeline_ok(m),
    ensures
        pipeline_ok(flushed(m)),
{
    let c = m.controls;
    lemma_controls(c);
    let tp = c.transpose_params();
    let sp = c.stretch_params();
    let ch = c.frame_channels();
    vstd::arithmetic::div_mod::lemma_small_mod(0, ch as nat);
    let h = first_flush(m);
    if rate_active(m) {
        let padded = TransposeModel {
            input: first(m).input + crate::fifo::silence(tp.channels as nat),
            ..first(m)
        };
        vstd::arithmetic::div_mod::lemma_mod_self_0(ch);
        crate::arith::lemma_add_frames(m.input.len() as int, ch, ch);
        crate::transposer::lemma_emit_all_ok(tp, padded);
    } else {
        crate::arith::lemma_add_frames(m.between.len() as int, m.input.len() as int, ch);
    }
    assert(h.between.len() % (ch as nat) == 0);
    assert(h.input.len() == 0);
    let g = second_flush(h);
    if tempo_active(h) {
        crate::stretch_lemmas::lemma_flush_adds(sp, second(h));
        crate::arith::lemma_add_frames(
            h.output.len() as int,
            g.output.len() - h.output.len(),
            ch,
        );
    } else {
        crate::arith::lemma_add_frames(m.output.len() as int, h.between.len() as int, ch);
    }
    assert(g.output.len() % (ch as nat) == 0);
    assert(g.between.len() == 0);
}

/// The end of a stream leaves nothing inside the pipeline but what is ready
/// in the output, and to end a stream that has been ended adds nothing.
pub proof fn lemma_flush_twice(m: PipelineModel)
    requires
        m.controls.wf(),
    ensures
        flushed(m).input.len() == 0,
        flushed(m).between.len() == 0,
        !flushed(m).started,
        !flushed(m).rate_engaged,
        flushed(m).drained,
        flushed(m).controls == m.controls,
        flushed(flushed(m)) == flushed(m),
{
    let c = m.controls;
    lemma_controls(c);
    let tp = c.transpose_params();
    let f = flushed(m);
    assert(f.input =~= Seq::<i16>::empty());
    assert(f.between =~= Seq::<i16>::empty());
    let g = first_flush(f);
    if rate_active(f) {
        let padded = TransposeModel {
            input: first(f).input + crate::fifo::silence(tp.channels as nat),
            ..first(f)
        };
        assert(padded.input.len() == tp.channels);
        assert((padded.index + 2) * tp.ch() == 2 * tp.ch()) by (nonlinear_arith)
            requires
                padded.index == 0,
        ;
        assert(!crate::transposer::can_emit(tp, padded));
        assert(crate::transposer::emit_all(tp, padded) == padded);
    } else {
        assert(f.between + f.input =~= f.between);
    }
    assert(g =~= f);
    if tempo_active(g) {
        vstd::arithmetic::div_mod::lemma_small_mod(0, c.frame_channels() as nat);
        crate::stretch_lemmas::lemma_flush_adds(c.stretch_params(), second(g));
    } else {
        assert(g.output + g.between =~= g.output);
    }
    assert(second_flush(g) =~= g);
}

/// What the end of a stream brings to the output, for every pipeline in
/// order: the frames that are owed for what waits inside, and less than one
/// sequence more.
///
/// The first stage sends on the frames of the input: as they are where the
/// transposer is not at work, else so many that their number times the step
/// is less than the frames of the input and one step. The second stage
/// sends out what then stands between the stages: as it is where the
/// stretcher is not at work, else so many frames that their number times the
/// stretcher's tempo is less than the frames between the stages and the
/// tempo times one sequence. What was ready before stays at the head of the
/// output, and a pipeline that holds nothing inside adds nothing.
pub proof fn lemma_flush_adds(m: PipelineModel)
    requires
        pipeline_ok(m),
    ensures
        flushed(m).output.len() >= m.output.len(),
        flushed(m).output.subrange(0, m.output.len() as int) == m.output,
        (flushed(m).output.len() - m.output.len()) % m.controls.frame_channels() == 0,
        first_flush(m).between.len() >= m.between.len(),
        (first_flush(m).between.len() - m.between.len()) % m.controls.frame_channels() == 0,
        rate_active(m) ==> ((first_flush(m).between.len() - m.between.len())
            / m.controls.frame_channels()) * m.controls.transpose_step().num < ((
        m.input.len() as int) / m.controls.frame_channels())
            * m.controls.transpose_step().den + m.controls.transpose_step().num,
        !rate_active(m) ==> first_flush(m).between.len() == m.between.len() + m.input.len(),
        tempo_active(m) ==> ((flushed(m).output.len() - m.output.len())
            / m.controls.frame_channels()) * m.controls.stretch_tempo().num < ((first_flush(
            m,
        ).between.len() as int) / m.controls.frame_channels())
            * m.controls.stretch_tempo().den + m.controls.sequence_frames()
            * m.controls.stretch_tempo().num,
        !tempo_active(m) ==> flushed(m).output.len() == m.output.len() + first_flush(
            m,
        ).between.len(),
        m.input.len() == 0 && m.between.len() == 0 ==> flushed(m).output == m.output,
{
    let c = m.controls;
    lemma_controls(c);
    let tp = c.transpose_params();
    let sp = c.stretch_params();
    let ch = c.frame_channels();
    let h = first_flush(m);
    if rate_active(m) {
        crate::transposer_lemmas::lemma_flush_adds(tp, first(m));
        if m.input.len() == 0 {
            let t = (h.between.len() - m.between.len()) / ch;
            crate::arith::lemma_take_frames(h.between.len() - m.between.len(), ch, t);
            vstd::arithmetic::div_mod::lemma_div_pos_is_pos(
                h.between.len() - m.between.len(),
                ch,
            );
            assert(t == 0) by (nonlinear_arith)
                requires
                    t * tp.step.num < 0 * tp.step.den + tp.step.num,
                    t >= 0,
                    tp.step.num >= 1,
            {
                if t >= 1 {
                    assert(t * tp.step.num >= tp.step.num);
                }
            }
            assert(h.between =~= m.between);
        }
    } else {
        assert(h.between.len() == m.between.len() + m.input.len());
        crate::arith::lemma_add_frames(0, m.input.len() as int, ch);
        if m.input.len() == 0 {
            assert(h.between =~= m.between);
        }
    }
    lemma_flushed_ok(m);
    assert(h.output == m.output);
    assert(h.between.len() % (ch as nat) == 0) by {
        crate::arith::lemma_add_frames(
            m.between.len() as int,
            h.between.len() - m.between.len(),
            ch,
        );
    }
    assert(tempo_active(h) == tempo_active(m));
    let f = flushed(m);
    if tempo_active(m) {
        assert(crate::stretch::model_ok(sp, second(h)));
        crate::stretch_lemmas::lemma_flush_adds(sp, second(h));
        assert(f.output == crate::stretch::flushed(sp, second(h)).output);
    } else {
        assert(f.output == h.output + h.between);
        assert(f.output.subrange(0, m.output.len() as int) =~= m.output);
        if h.between.len() == 0 {
            assert(f.output =~= m.output);
        }
    }
}

/// The silence that the first stage puts behind its input at the end of a
/// stream: one frame where the transposer is at work, else none.
pub open spec fn first_pad(m: PipelineModel) -> Seq<i16> {
    if rate_active(m) {
        crate::fifo::silence(m.controls.transpose_params().channels as nat)
    } else {
        Seq::empty()
    }
}

/// The silence that the second stage puts behind what lies between the
/// stages at the end of a stream: what the last sequences need where the
/// stretcher is at work, else none.
pub open spec fn second_pad(m: PipelineModel) -> Seq<i16> {
    if tempo_active(m) {
        crate::fifo::silence(
            (crate::stretch::flush_pad(m.controls.stretch_params())
                * m.controls.stretch_params().ch()) as nat,
        )
    } else {
        Seq::empty()
    }
}

/// The pipeline after the silence of the end of a stream has been put
/// behind its input and gone through the first stage, and the silence of
/// the second stage has been put behind what then lies between the stages.
pub open spec fn padded(m: PipelineModel) -> PipelineModel {
    between_extended(first_stage(fed(m, first_pad(m))), second_pad(m))
}

/// The silence of the end of a stream is whole frames, and the pipeline
/// stays in order as it goes in.
pub proof fn lemma_padded_ok(m: PipelineModel)
    requires
        pipeline_ok(m),
    ensures
        first_pad(m).len() % (m.controls.frame_channels() as nat) == 0,
        second_pad(m).len() % (m.controls.frame_channels() as nat) == 0,
        pipeline_ok(fed(m, first_pad(m))),
        pipeline_ok(first_stage(fed(m, first_pad(m)))),
        pipeline_ok(padded(m)),
        padded(m).controls == m.controls,
{
    let c = m.controls;
    lemma_controls(c);
    let ch = c.frame_channels();
    let sp = c.stretch_params();
    crate::stretch::lemma_lengths(sp);
    vstd::arithmetic::div_mod::lemma_small_mod(0, ch as nat);
    vstd::arithmetic::div_mod::lemma_mod_self_0(ch);
    crate::arith::lemma_frames_to_samples(
        crate::stretch::flush_pad(sp),
        crate::stretch::flush_pad(sp),
        ch,
    );
    lemma_fed_ok(m, first_pad(m));
    let f = fed(m, first_pad(m));
    lemma_first_stage(f);
    let a = first_stage(f);
    crate::arith::lemma_add_frames(a.between.len() as int, second_pad(m).len() as int, ch);
}

/// The end of a stream is no step of its own: what it brings to the output
/// is what the two stages make of the stream once the silence of the end
/// stands behind it.
pub proof fn lemma_flushed_output(m: PipelineModel)
    requires
        pipeline_ok(m),
    ensures
        first_flush(m).between == first_stage(fed(m, first_pad(m))).between,
        flushed(m).output == second_stage(padded(m)).output,
{
    let c = m.controls;
    lemma_controls(c);
    let tp = c.transpose_params();
    let sp = c.stretch_params();
    let f = fed(m, first_pad(m));
    let x = first_stage(f);
    let h = first_flush(m);
    assert(rate_active(f) == rate_active(m));
    if rate_active(m) {
        let end = TransposeModel {
            input: first(m).input + crate::fifo::silence(tp.channels as nat),
            ..first(m)
        };
        assert(first(f) =~= end);
    } else {
        assert(m.input + first_pad(m) =~= m.input);
    }
    assert(h.between =~= x.between);
    assert(tempo_active(x) == tempo_active(m));
    assert(tempo_active(h) == tempo_active(m));
    let y = padded(m);
    if tempo_active(m) {
        let end = StretchModel {
            input: second(h).input + crate::fifo::silence(
                (crate::stretch::flush_pad(sp) * sp.ch()) as nat,
            ),
            ..second(h)
        };
        assert(second(y) =~= end);
    } else {
        assert(y.between =~= h.between);
    }
}

/// To receive what is ready before the stream is ended changes nothing in
/// what the end brings: what was received and what is ready after the end
/// are together what the end would have made ready.
pub proof fn lemma_flush_after_take(m: PipelineModel, n: int)
    requires
        pipeline_ok(m),
        0 <= n <= m.output.len(),
        n % m.controls.frame_channels() == 0,
    ensures
        m.output.take(n) + flushed(taken(m, n)).output == flushed(m).output,
{
    let c = m.controls;
    lemma_controls(c);
    lemma_taken_ok(m, n);
    let t = taken(m, n);
    let head = m.output.take(n);
    assert(head + t.output =~= m.output);
    lemma_flushed_output(m);
    lemma_flushed_output(t);
    lemma_padded_ok(t);
    assert(first_pad(t) == first_pad(m));
    assert(second_pad(t) == second_pad(m));
    let ft = fed(t, first_pad(t));
    lemma_first_stage(ft);
    assert(fed(m, first_pad(m)) =~= output_prefixed(ft, head));
    assert(first_stage(output_prefixed(ft, head)) =~= output_prefixed(first_stage(ft), head));
    assert(padded(m) =~= output_prefixed(padded(t), head));
    lemma_second_stage_appends(padded(t), head);
}

/// To process what waits before the stream is ended changes nothing in what
/// the end brings to the output.
pub proof fn lemma_flush_after_process(m: PipelineModel)
    requires
        pipeline_ok(m),
    ensures
        flushed(processed(m)).output == flushed(m).output,
{
    let c = m.controls;
    lemma_controls(c);
    let ch = c.frame_channels();
    lemma_first_stage(m);
    let a = first_stage(m);
    lemma_second_stage(a);
    let p = second_stage(a);
    assert(p == processed(m));
    lemma_processed_ok(m);
    lemma_flushed_output(m);
    lemma_flushed_output(p);
    lemma_padded_ok(m);
    lemma_padded_ok(p);
    let lead_pad = first_pad(m);
    let tail_pad = second_pad(m);
    assert(first_pad(p) == lead_pad);
    assert(second_pad(p) == tail_pad);
    // The first stage makes the same of the silence whether or not it has
    // taken the input before it through.
    lemma_first_stage_in_pieces(m, lead_pad);
    let f = first_stage(fed(m, lead_pad));
    assert(first_stage(fed(a, lead_pad)) == f);
    // What it appends does not depend on what lies between the stages.
    let bare_a = PipelineModel { between: Seq::empty(), ..fed(a, lead_pad) };
    let bare_p = PipelineModel { between: Seq::empty(), ..fed(p, lead_pad) };
    vstd::arithmetic::div_mod::lemma_small_mod(0, ch as nat);
    lemma_fed_ok(a, lead_pad);
    lemma_fed_ok(p, lead_pad);
    assert(pipeline_ok(bare_a));
    assert(pipeline_ok(bare_p));
    assert(between_prefixed(bare_a, a.between) =~= fed(a, lead_pad));
    assert(between_prefixed(bare_p, p.between) =~= fed(p, lead_pad));
    lemma_first_stage_appends(bare_a, a.between);
    lemma_first_stage_appends(bare_p, p.between);
    lemma_first_stage_same(bare_p, bare_a);
    lemma_first_stage_same(bare_a, bare_p);
    lemma_first_stage(bare_a);
    let more = first_stage(bare_a).between;
    assert(first_stage(bare_p).between == more);
    assert(f.between =~= a.between + more);
    let g = first_stage(fed(p, lead_pad));
    assert(g.between =~= p.between + more);
    // The second stage makes the same of what then lies between the stages
    // whether or not it has taken what lay there before through.
    let x = more + tail_pad;
    crate::arith::lemma_add_frames(more.len() as int, tail_pad.len() as int, ch);
    lemma_second_stage_in_pieces(a, x);
    assert((a.between + more) + tail_pad =~= a.between + x);
    assert((p.between + more) + tail_pad =~= p.between + x);
    lemma_first_stage(fed(m, lead_pad));
    lemma_first_stage(fed(p, lead_pad));
    lemma_second_stage_same(padded(m), between_extended(a, x));
    lemma_second_stage_same(padded(p), between_extended(p, x));
}

/// First in, first out, to the end of the stream: put the samples `a` in,
/// receive `n` of what is ready, put the samples `b` in and end the stream.
/// What was received, followed by what is ready then, is what would be ready
/// had `a` and `b` been put in at once and the stream been ended. Whatever
/// holds of the length of a stream that is put in and ended at once holds
/// of one that is put in and received piece by piece.
pub proof fn lemma_first_in_first_out_to_the_end(
    m: PipelineModel,
    a: Seq<i16>,
    b: Seq<i16>,
    n: int,
)
    requires
        pipeline_ok(m),
        a.len() % (m.controls.frame_channels() as nat) == 0,
        b.len() % (m.controls.frame_channels() as nat) == 0,
        0 <= n <= processed(fed(m, a)).output.len(),
        n % m.controls.frame_channels() == 0,
    ensures
        processed(fed(m, a)).output.take(n) + flushed(
            fed(taken(processed(fed(m, a)), n), b),
        ).output == flushed(fed(m, a + b)).output,
{
    let c = m.controls;
    lemma_controls(c);
    let ch = c.frame_channels();
    lemma_fed_ok(m, a);
    lemma_processed_ok(fed(m, a));
    let once = processed(fed(m, a));
    let head = once.output.take(n);
    lemma_taken_ok(once, n);
    let q = taken(once, n);
    lemma_fed_ok(q, b);
    let fq = fed(q, b);
    crate::arith::lemma_add_frames(a.len() as int, b.len() as int, ch);
    lemma_fed_ok(m, a + b);
    let whole = fed(m, a + b);
    let all = processed(whole);
    lemma_processed_ok(whole);
    lemma_first_in_first_out(m, a, b, n);
    lemma_processed_ok(fq);
    let twice = processed(fq);
    assert(head + twice.output == all.output);
    assert(all.output.take(n) =~= head);
    assert(all.output.skip(n) =~= twice.output);
    assert(taken(all, n) =~= twice);
    lemma_flush_after_process(fq);
    lemma_flush_after_process(whole);
    lemma_flush_after_take(all, n);
}

/// The tempo sets the length of the stream however it is put in and
/// received: put the samples `a` into a new pipeline, receive `n` of what is
/// ready, put the samples `b` in and end the stream. With the pitch and the
/// rate at one and a tempo that is not, the frames received and the frames
/// ready after the end are together `out` frames, where `out` times the
/// tempo is at least the frames put in and less than those plus the tempo
/// times a sequence.
pub proof fn lemma_tempo_duration_in_pieces(
    c: crate::controls::Controls,
    a: Seq<i16>,
    b: Seq<i16>,
    n: int,
)
    requires
        c.wf(),
        c.pitch == (crate::ratio::Ratio { num: 1, den: 1 }),
        c.rate == (crate::ratio::Ratio { num: 1, den: 1 }),
        !c.tempo.is_unity(),
        a.len() % (c.frame_channels() as nat) == 0,
        b.len() % (c.frame_channels() as nat) == 0,
        0 <= n <= processed(fed(empty_pipeline(c), a)).output.len(),
        n % c.frame_channels() == 0,
    ensures
        (n + flushed(
            fed(taken(processed(fed(empty_pipeline(c), a)), n), b),
        ).output.len()) % c.frame_channels() == 0,
        (((a.len() + b.len()) as int) / c.frame_channels()) * c.tempo.den <= ((n + flushed(
            fed(taken(processed(fed(empty_pipeline(c), a)), n), b),
        ).output.len()) / c.frame_channels()) * c.tempo.num,
        ((n + flushed(fed(taken(processed(fed(empty_pipeline(c), a)), n), b)).output.len())
            / c.frame_channels()) * c.tempo.num < (((a.len() + b.len()) as int)
            / c.frame_channels()) * c.tempo.den + c.sequence_frames() * c.tempo.num,
{
    lemma_controls(c);
    lemma_empty_ok(c);
    let m = empty_pipeline(c);
    lemma_first_in_first_out_to_the_end(m, a, b, n);
    crate::arith::lemma_add_frames(a.len() as int, b.len() as int, c.frame_channels());
    lemma_tempo_duration(c, a + b);
    let head = processed(fed(m, a)).output.take(n);
    let tail = flushed(fed(taken(processed(fed(m, a)), n), b)).output;
    assert((head + tail).len() == n + tail.len());
}

/// Which stages a stream goes through. A rate alone goes through the
/// transposer alone, a tempo alone through the stretcher alone. A pitch is no
/// path of its own: it goes through the transposer as a rate of the same
/// ratio and through the stretcher as a tempo of the inverse ratio, which
/// takes back the change of speed. With all three at one, the stream goes
/// through neither.
pub proof fn lemma_routing(c: crate::controls::Controls)
    requires
        c.wf(),
    ensures
        c.tempo.is_unity() && c.pitch.is_unity() && !c.rate.is_unity() ==> rate_active(
            empty_pipeline(c),
        ) && !tempo_active(empty_pipeline(c)),
        c.rate.is_unity() && c.pitch.is_unity() && !c.tempo.is_unity() ==> !rate_active(
            empty_pipeline(c),
        ) && tempo_active(empty_pipeline(c)),
        c.rate.is_unity() && c.tempo.is_unity() && !c.pitch.is_unity() ==> rate_active(
            empty_pipeline(c),
        ) && tempo_active(empty_pipeline(c)),
        c.rate.is_unity() && c.tempo.is_unity() && c.pitch.is_unity() ==> !rate_active(
            empty_pipeline(c),
        ) && !tempo_active(empty_pipeline(c)),
        c.rate.num == 1 && c.rate.den == 1 ==> c.transpose_step() == c.pitch,
        c.tempo.num == 1 && c.tempo.den == 1 ==> c.stretch_tempo().num == c.pitch.den
            && c.stretch_tempo().den == c.pitch.num,
        c.transpose_step().num * c.stretch_tempo().num * (c.tempo.den * c.rate.den)
            == c.transpose_step().den * c.stretch_tempo().den * (c.tempo.num * c.rate.num),
{
    let t = c.tempo;
    let q = c.pitch;
    let r = c.rate;
    crate::ratio::lemma_term_product(t.num as int, q.den as int);
    crate::ratio::lemma_term_product(t.den as int, q.num as int);
    crate::ratio::lemma_term_product(r.num as int, q.num as int);
    crate::ratio::lemma_term_product(r.den as int, q.den as int);
    let sn = r.num * q.num;
    let sd = r.den * q.den;
    let tn = t.num * q.den;
    let td = t.den * q.num;
    assert(r.num == 1 ==> sn == q.num) by (nonlinear_arith)
        requires
            sn == r.num * q.num,
    ;
    assert(r.den == 1 ==> sd == q.den) by (nonlinear_arith)
        requires
            sd == r.den * q.den,
    ;
    assert(t.num == 1 ==> tn == q.den) by (nonlinear_arith)
        requires
            tn == t.num * q.den,
    ;
    assert(t.den == 1 ==> td == q.num) by (nonlinear_arith)
        requires
            td == t.den * q.num,
    ;
    // A product of a ratio that is one with another is one only where the
    // other is.
    assert(q.num == q.den ==> (sn == sd <==> r.num == r.den)) by (nonlinear_arith)
        requires
            sn == r.num * q.num,
            sd == r.den * q.den,
            q.num >= 1,
    ;
    assert(r.num == r.den ==> (sn == sd <==> q.num == q.den)) by (nonlinear_arith)
        requires
            sn == r.num * q.num,
            sd == r.den * q.den,
            r.num >= 1,
    ;
    assert(q.num == q.den ==> (tn == td <==> t.num == t.den)) by (nonlinear_arith)
        requires
            tn == t.num * q.den,
            td == t.den * q.num,
            q.num >= 1,
    ;
    assert(t.num == t.den ==> (tn == td <==> q.num == q.den)) by (nonlinear_arith)
        requires
            tn == t.num * q.den,
            td == t.den * q.num,
            t.num >= 1,
    ;
    // The pitch falls out of the product of the two stages.
    assert(sn * tn * (t.den * r.den) == sd * td * (t.num * r.num)) by (nonlinear_arith)
        requires
            sn == r.num * q.num,
            sd == r.den * q.den,
            tn == t.num * q.den,
            td == t.den * q.num,
    ;
}

} // verus!
