//! What a pipeline is and does, stated over plain values.
//!
//! A pipeline is an input queue, a rate transposer, a queue between the two
//! stages, a time stretcher and an output queue. Samples go through it in
//! that order and in the order in which they came. A stage whose ratio is one
//! and which holds nothing of the stream hands the samples on as they are.

use vstd::prelude::*;
use crate::controls::Controls;
use crate::stretch::StretchModel;
use crate::transposer::TransposeModel;

verus! {

/// The state of a pipeline.
#[verifier::ext_equal]
pub struct PipelineModel {
    /// What the pipeline is set to.
    pub controls: Controls,
    /// The samples put in and not yet taken by the first stage.
    pub input: Seq<i16>,
    /// The transposer has been at work on this stream.
    pub rate_engaged: bool,
    /// The transposer's cursor: the frame before it.
    pub index: int,
    /// The transposer's cursor: how far it stands behind that frame.
    pub frac: int,
    /// The samples between the first stage and the second.
    pub between: Seq<i16>,
    /// The stretcher has sent out a sequence of this stream.
    pub started: bool,
    /// The stretcher's carry.
    pub acc: int,
    /// Frames that the stretcher still has to pass.
    pub pending: int,
    /// The overlap that the stretcher keeps back.
    pub mid: Seq<i16>,
    /// The samples that are ready to be received.
    pub output: Seq<i16>,
    /// The stream has been ended and nothing put in since.
    pub drained: bool,
}

/// A pipeline set to `controls` that holds nothing.
pub open spec fn empty_pipeline(controls: Controls) -> PipelineModel {
    PipelineModel {
        controls,
        input: Seq::empty(),
        rate_engaged: false,
        index: 0,
        frac: 0,
        between: Seq::empty(),
        started: false,
        acc: 0,
        pending: 0,
        mid: Seq::empty(),
        output: Seq::empty(),
        drained: false,
    }
}

/// The transposer of a pipeline with the queues on both sides of it.
pub open spec fn first(m: PipelineModel) -> TransposeModel {
    TransposeModel { index: m.index, frac: m.frac, input: m.input, output: m.between }
}

/// The stretcher of a pipeline with the queues on both sides of it.
pub open spec fn second(m: PipelineModel) -> StretchModel {
    StretchModel {
        started: m.started,
        acc: m.acc,
        pending: m.pending,
        mid: m.mid,
        input: m.between,
        output: m.output,
    }
}

/// The pipeline with its transposer and the queues on both sides of it
/// replaced.
pub open spec fn with_first(m: PipelineModel, t: TransposeModel) -> PipelineModel {
    PipelineModel { input: t.input, index: t.index, frac: t.frac, between: t.output, ..m }
}

/// The pipeline with its stretcher and the queues on both sides of it
/// replaced.
pub open spec fn with_second(m: PipelineModel, s: StretchModel) -> PipelineModel {
    PipelineModel {
        between: s.input,
        started: s.started,
        acc: s.acc,
        pending: s.pending,
        mid: s.mid,
        output: s.output,
        ..m
    }
}

/// Whether the samples go through the transposer: the rate times the pitch
/// is not one, or the transposer has been at work on this stream.
pub open spec fn rate_active(m: PipelineModel) -> bool {
    !m.controls.transpose_step().is_unity() || m.rate_engaged
}

/// Whether the samples go through the stretcher: the tempo over the pitch is
/// not one, or the stretcher keeps an overlap of this stream back.
pub open spec fn tempo_active(m: PipelineModel) -> bool {
    !m.controls.stretch_tempo().is_unity() || m.started
}

/// The first stage: from the input to the queue between the stages.
pub open spec fn first_stage(m: PipelineModel) -> PipelineModel {
    if rate_active(m) {
        PipelineModel {
            rate_engaged: true,
            ..with_first(
                m,
                crate::transposer::transposed(m.controls.transpose_params(), first(m)),
            )
        }
    } else {
        PipelineModel { input: Seq::empty(), between: m.between + m.input, ..m }
    }
}

/// The second stage: from the queue between the stages to the output.
pub open spec fn second_stage(m: PipelineModel) -> PipelineModel {
    if tempo_active(m) {
        with_second(m, crate::stretch::processed(m.controls.stretch_params(), second(m)))
    } else {
        PipelineModel { between: Seq::empty(), output: m.output + m.between, ..m }
    }
}

/// All that the pipeline does with the samples that it holds.
pub open spec fn processed(m: PipelineModel) -> PipelineModel {
    second_stage(first_stage(m))
}

/// The end of the stream in the first stage.
pub open spec fn first_flush(m: PipelineModel) -> PipelineModel {
    if rate_active(m) {
        PipelineModel {
            rate_engaged: false,
            ..with_first(m, crate::transposer::flushed(m.controls.transpose_params(), first(m)))
        }
    } else {
        PipelineModel { input: Seq::empty(), between: m.between + m.input, ..m }
    }
}

/// The end of the stream in the second stage.
pub open spec fn second_flush(m: PipelineModel) -> PipelineModel {
    if tempo_active(m) {
        with_second(m, crate::stretch::flushed(m.controls.stretch_params(), second(m)))
    } else {
        PipelineModel { between: Seq::empty(), output: m.output + m.between, ..m }
    }
}

/// The end of the stream: every sample that the pipeline holds is brought to
/// the output, with silence put behind it where a stage needs more input to
/// finish, and the stream is marked as drained.
pub open spec fn flushed(m: PipelineModel) -> PipelineModel {
    PipelineModel { drained: true, ..second_flush(first_flush(m)) }
}

/// Samples put in at the tail of the input.
pub open spec fn fed(m: PipelineModel, samples: Seq<i16>) -> PipelineModel {
    PipelineModel { input: m.input + samples, drained: false, ..m }
}

/// The first `n` samples taken from the output.
pub open spec fn taken(m: PipelineModel, n: int) -> PipelineModel {
    PipelineModel { output: m.output.skip(n), ..m }
}

/// Everything dropped but the settings.
pub open spec fn cleared(m: PipelineModel) -> PipelineModel {
    empty_pipeline(m.controls)
}

/// The pipeline set to other values. Where the number of samples in a frame
/// changes, what the pipeline holds no longer fits and is dropped. Else the
/// samples stay, the transposer's cursor goes back to the frame before it,
/// and the stretcher drops its carry, and its overlap too where the length
/// of the overlap changes.
pub open spec fn reconfigured(m: PipelineModel, c: Controls) -> PipelineModel {
    if c.frame_channels() != m.controls.frame_channels() {
        PipelineModel { drained: m.drained, ..empty_pipeline(c) }
    } else {
        let s = crate::stretch::retuned(m.controls.stretch_params(), c.stretch_params(), second(m));
        PipelineModel {
            controls: c,
            frac: 0,
            started: s.started,
            acc: s.acc,
            pending: s.pending,
            mid: s.mid,
            ..m
        }
    }
}

/// Frames that are ready to be received.
pub open spec fn ready_frames(m: PipelineModel) -> int {
    (m.output.len() as int) / m.controls.frame_channels()
}

/// What holds of the state of every pipeline.
pub open spec fn pipeline_ok(m: PipelineModel) -> bool {
    &&& m.controls.wf()
    &&& m.input.len() % (m.controls.frame_channels() as nat) == 0
    &&& m.between.len() % (m.controls.frame_channels() as nat) == 0
    &&& m.output.len() % (m.controls.frame_channels() as nat) == 0
    &&& crate::transposer::cursor_ok(m.controls.transpose_params(), first(m))
    &&& crate::stretch::model_ok(m.controls.stretch_params(), second(m))
}

} // verus!
