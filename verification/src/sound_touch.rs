//! The pipeline that changes the tempo, the pitch and the playback rate of a
//! stream of samples.
//!
//! Samples are put in at one end and received at the other, first in, first
//! out. The pipeline works when samples are asked of it: it takes what waits
//! in its input through the rate transposer and the time stretcher, as far as
//! the two can go, and hands out what is ready. What cannot be finished yet
//! stays inside until more samples come or the stream is ended with `flush`.

use vstd::prelude::*;
use crate::arith::min_int;
use crate::controls::{Controls, MAX_SAMPLE_RATE, MAX_WINDOW_MS};
use crate::error::Error;
use crate::fifo::SampleFifo;
use crate::pipeline::{
    cleared,
    empty_pipeline,
    fed,
    first,
    first_flush,
    first_stage,
    flushed,
    pipeline_ok,
    processed,
    ready_frames,
    reconfigured,
    second,
    second_flush,
    second_stage,
    taken,
    PipelineModel,
};
use crate::pitch::{octave_ratio, ratio_of_octaves, ratio_of_semitones, semitone_ratio};
use crate::ratio::Ratio;
use crate::stretch::{copy_range, lemma_lengths, TimeStretcher, MAX_CHANNELS};
use crate::transposer::RateTransposer;

verus! {

/// The number that tells the versions of this library apart.
pub const VERSION_ID: u32 = 100;

/// The settings that steer how the pipeline works.
#[derive(Clone, Copy, Debug, PartialEq, Eq, Structural)]
pub enum Setting {
    /// Whether an anti-alias filter is asked for (0 = no). The rate
    /// transposer of this library mixes neighbouring frames and has no filter
    /// of its own: the value is kept and read back, and changes nothing in
    /// the sound.
    UseAaFilter,
    /// Length of the anti-alias filter in taps (8 .. 128); kept and read
    /// back like `UseAaFilter`.
    AaFilterLength,
    /// Whether the search for the best join tries fewer places (0 = no),
    /// which is quicker and may sound a little worse.
    UseQuickseek,
    /// Length of a sequence in milliseconds: how long the pieces are into
    /// which the time stretcher cuts the sound.
    SequenceMs,
    /// Length of the seek window in milliseconds: how far the time stretcher
    /// may look for the best place to join two sequences.
    SeekwindowMs,
    /// Length of the overlap in milliseconds: over how long two sequences
    /// are cross-faded where they are joined.
    OverlapMs,
    /// Read only: about how many input frames make the pipeline send out
    /// another batch, once it has started.
    NominalInputSequence,
    /// Read only: about how many frames the pipeline sends out in a batch.
    NominalOutputSequence,
    /// Read only: about how many input frames the pipeline takes in before
    /// the first batch comes out.
    InitialLatency,
}

impl Setting {
    /// The number of the setting.
    pub open spec fn code_of(self) -> int {
        match self {
            Setting::UseAaFilter => 0,
            Setting::AaFilterLength => 1,
            Setting::UseQuickseek => 2,
            Setting::SequenceMs => 3,
            Setting::SeekwindowMs => 4,
            Setting::OverlapMs => 5,
            Setting::NominalInputSequence => 6,
            Setting::NominalOutputSequence => 7,
            Setting::InitialLatency => 8,
        }
    }

    /// Whether the setting follows from the others and cannot be written.
    pub open spec fn read_only(self) -> bool {
        self.code_of() >= 6
    }

    /// The number of the setting.
    pub fn code(self) -> (r: u8)
        ensures
            r == self.code_of(),
    {
        match self {
            Setting::UseAaFilter => 0,
            Setting::AaFilterLength => 1,
            Setting::UseQuickseek => 2,
            Setting::SequenceMs => 3,
            Setting::SeekwindowMs => 4,
            Setting::OverlapMs => 5,
            Setting::NominalInputSequence => 6,
            Setting::NominalOutputSequence => 7,
            Setting::InitialLatency => 8,
        }
    }

    /// The setting with the number `code`; none above eight.
    pub fn from_code(code: u8) -> (r: Option<Setting>)
        ensures
            r is None <==> code > 8,
            r matches Some(s) ==> s.code_of() == code,
    {
        match code {
            0 => Some(Setting::UseAaFilter),
            1 => Some(Setting::AaFilterLength),
            2 => Some(Setting::UseQuickseek),
            3 => Some(Setting::SequenceMs),
            4 => Some(Setting::SeekwindowMs),
            5 => Some(Setting::OverlapMs),
            6 => Some(Setting::NominalInputSequence),
            7 => Some(Setting::NominalOutputSequence),
            8 => Some(Setting::InitialLatency),
            _ => None,
        }
    }
}

/// Whether `value` lies in the range of the setting. The read-only settings
/// take no value.
pub open spec fn setting_accepts(setting: Setting, value: int) -> bool {
    match setting {
        Setting::UseAaFilter => true,
        Setting::AaFilterLength => 8 <= value <= 128,
        Setting::UseQuickseek => true,
        Setting::SequenceMs => 1 <= value <= MAX_WINDOW_MS,
        Setting::SeekwindowMs => 1 <= value <= MAX_WINDOW_MS,
        Setting::OverlapMs => 1 <= value <= MAX_WINDOW_MS,
        Setting::NominalInputSequence => false,
        Setting::NominalOutputSequence => false,
        Setting::InitialLatency => false,
    }
}

/// The controls with one setting changed to a value of its range.
pub open spec fn with_setting(c: Controls, setting: Setting, value: int) -> Controls {
    match setting {
        Setting::UseAaFilter => Controls { use_aa_filter: value != 0, ..c },
        Setting::AaFilterLength => Controls { aa_filter_length: value as u32, ..c },
        Setting::UseQuickseek => Controls { use_quickseek: value != 0, ..c },
        Setting::SequenceMs => Controls { sequence_ms: value as u32, ..c },
        Setting::SeekwindowMs => Controls { seekwindow_ms: value as u32, ..c },
        Setting::OverlapMs => Controls { overlap_ms: value as u32, ..c },
        Setting::NominalInputSequence => c,
        Setting::NominalOutputSequence => c,
        Setting::InitialLatency => c,
    }
}

/// Input frames for one batch of output: the frames of a sequence, times
/// the tempo and the rate, rounded down.
pub open spec fn nominal_input(c: Controls) -> int {
    c.stretch_params().hop_out() * (c.tempo.num * c.rate.num) / (c.tempo.den * c.rate.den)
}

/// Input frames before the first batch of output: the frames that the
/// stretcher needs before it takes a sequence, times the step of the
/// transposer, rounded down.
pub open spec fn initial_latency(c: Controls) -> int {
    c.stretch_params().need() * (c.rate.num * c.pitch.num) / (c.rate.den * c.pitch.den)
}

/// The value of a setting. The values that follow from the others are cut
/// off at the largest value of the result's type.
pub open spec fn setting_value(c: Controls, setting: Setting) -> int {
    match setting {
        Setting::UseAaFilter => if c.use_aa_filter {
            1
        } else {
            0
        },
        Setting::AaFilterLength => c.aa_filter_length as int,
        Setting::UseQuickseek => if c.use_quickseek {
            1
        } else {
            0
        },
        Setting::SequenceMs => c.sequence_ms as int,
        Setting::SeekwindowMs => c.seekwindow_ms as int,
        Setting::OverlapMs => c.overlap_ms as int,
        Setting::NominalInputSequence => min_int(nominal_input(c), i32::MAX as int),
        Setting::NominalOutputSequence => c.stretch_params().hop_out(),
        Setting::InitialLatency => min_int(initial_latency(c), i32::MAX as int),
    }
}

/// The samples of `samples` that make whole frames for the pipeline.
pub open spec fn whole_frames(m: PipelineModel, samples: Seq<i16>) -> Seq<i16> {
    samples.take(
        ((samples.len() as int) / m.controls.frame_channels()) * m.controls.frame_channels(),
    )
}

/// The pipeline for tempo, pitch and rate.
#[derive(Debug)]
pub struct SoundTouch {
    controls: Controls,
    input: SampleFifo,
    between: SampleFifo,
    output: SampleFifo,
    transposer: RateTransposer,
    stretcher: TimeStretcher,
    rate_engaged: bool,
    drained: bool,
}

impl SoundTouch {
    /// The state of the pipeline as plain values.
    pub closed spec fn model(&self) -> PipelineModel {
        let t = self.transposer.model(Seq::empty(), Seq::empty());
        let s = self.stretcher.model(Seq::empty(), Seq::empty());
        PipelineModel {
            controls: self.controls,
            input: self.input@,
            rate_engaged: self.rate_engaged,
            index: t.index,
            frac: t.frac,
            between: self.between@,
            started: s.started,
            acc: s.acc,
            pending: s.pending,
            mid: s.mid,
            output: self.output@,
            drained: self.drained,
        }
    }

    /// The parts of the pipeline are in order and fit its settings.
    pub closed spec fn wf(&self) -> bool {
        &&& self.controls.wf()
        &&& self.input.wf()
        &&& self.between.wf()
        &&& self.output.wf()
        &&& self.input.channel_count() == self.controls.frame_channels()
        &&& self.between.channel_count() == self.controls.frame_channels()
        &&& self.output.channel_count() == self.controls.frame_channels()
        &&& self.transposer.wf()
        &&& self.transposer.params() == self.controls.transpose_params()
        &&& self.stretcher.wf()
        &&& self.stretcher.params() == self.controls.stretch_params()
    }

    /// The state of a pipeline that is in order is in order.
    pub proof fn lemma_wf(&self)
        requires
            self.wf(),
        ensures
            pipeline_ok(self.model()),
    {
        self.transposer.lemma_model(Seq::empty(), Seq::empty());
        self.transposer.lemma_model(self.input@, self.between@);
        self.stretcher.lemma_model(Seq::empty(), Seq::empty());
        self.stretcher.lemma_model(self.between@, self.output@);
    }

    /// A pipeline on which nothing has been set and that holds nothing.
    pub fn new() -> (r: SoundTouch)
        ensures
            r.wf(),
            r.model() == empty_pipeline(Controls::initial()),
    {
        let controls = Controls::new();
        let sp = controls.derive_stretch();
        let tp = controls.derive_transpose();
        let r = SoundTouch {
            controls,
            input: SampleFifo::with_channels(1),
            between: SampleFifo::with_channels(1),
            output: SampleFifo::with_channels(1),
            transposer: RateTransposer::with_params(tp),
            stretcher: TimeStretcher::with_params(sp),
            rate_engaged: false,
            drained: false,
        };
        assert(r.model() =~= empty_pipeline(Controls::initial()));
        r
    }

    /// Takes what waits in the input through the first stage.
    fn run_first(&mut self)
        requires
            old(self).wf(),
        ensures
            final(self).wf(),
            final(self).model() == first_stage(old(self).model()),
    {
        proof {
            self.transposer.lemma_model(Seq::empty(), Seq::empty());
            self.transposer.lemma_model(self.input@, self.between@);
        }
        if !self.transposer.get_params().step.is_one() || self.rate_engaged {
            let _ = self.transposer.process(&mut self.input, &mut self.between);
            self.rate_engaged = true;
            proof {
                self.transposer.lemma_model(Seq::empty(), Seq::empty());
                self.transposer.lemma_model(self.input@, self.between@);
            }
        } else {
            let src = self.input.contents();
            let ok = self.between.put(src);
            assert(ok);
            self.input.clear();
        }
        assert(self.model() =~= first_stage(old(self).model()));
    }

    /// Takes what waits between the stages through the second stage.
    fn run_second(&mut self)
        requires
            old(self).wf(),
        ensures
            final(self).wf(),
            final(self).model() == second_stage(old(self).model()),
    {
        proof {
            self.stretcher.lemma_model(Seq::empty(), Seq::empty());
            self.stretcher.lemma_model(self.between@, self.output@);
        }
        if !self.stretcher.get_params().tempo.is_one() || self.stretcher.is_started() {
            let _ = self.stretcher.process(&mut self.between, &mut self.output);
            proof {
                self.stretcher.lemma_model(Seq::empty(), Seq::empty());
                self.stretcher.lemma_model(self.between@, self.output@);
            }
        } else {
            let src = self.between.contents();
            let ok = self.output.put(src);
            assert(ok);
            self.between.clear();
        }
        assert(self.model() =~= second_stage(old(self).model()));
    }

    /// Takes the samples that the pipeline holds as far as they can go.
    fn process(&mut self)
        requires
            old(self).wf(),
        ensures
            final(self).wf(),
            final(self).model() == processed(old(self).model()),
    {
        self.run_first();
        self.run_second();
    }

    /// Puts the first `num_samples` frames of `samples` into the pipeline.
    ///
    /// The call is refused, and the pipeline stays as it was, until both the
    /// channel count and the sample rate are set, and where `samples` holds
    /// fewer frames than `num_samples`.
    pub fn put_samples(&mut self, samples: &[i16], num_samples: usize) -> (r: Result<(), Error>)
        requires
            old(self).wf(),
        ensures
            final(self).wf(),
            !old(self).model().controls.configured() ==> r == Err::<(), Error>(
                Error::NotConfigured,
            ),
            old(self).model().controls.configured() && num_samples * old(
                self,
            ).model().controls.frame_channels() > samples@.len() ==> r == Err::<(), Error>(
                Error::ShortBuffer,
            ),
            old(self).model().controls.configured() && num_samples * old(
                self,
            ).model().controls.frame_channels() <= samples@.len() ==> r is Ok,
            r is Ok ==> final(self).model() == fed(
                old(self).model(),
                samples@.take(num_samples * old(self).model().controls.frame_channels()),
            ),
            r is Err ==> final(self).model() == old(self).model(),
    {
        if self.controls.channels == 0 || self.controls.sample_rate == 0 {
            return Err(Error::NotConfigured);
        }
        if !self.input.put_frames(samples, num_samples) {
            return Err(Error::ShortBuffer);
        }
        self.drained = false;
        assert(self.model() =~= fed(
            old(self).model(),
            samples@.take(num_samples * old(self).model().controls.frame_channels()),
        ));
        Ok(())
    }

    /// Takes the samples that the pipeline holds as far as they can go, then
    /// copies up to `max_samples` frames of what is ready into `samples` and
    /// removes them from the pipeline. Returns the number of frames copied.
    ///
    /// Fewer frames are handed out where fewer are ready or `samples` has room
    /// for fewer; the call never waits. What lies in `samples` behind the
    /// frames copied stays untouched.
    pub fn receive_samples(&mut self, samples: &mut [i16], max_samples: usize) -> (n: usize)
        requires
            old(self).wf(),
        ensures
            final(self).wf(),
            n == min_int(
                min_int(max_samples as int, ready_frames(processed(old(self).model()))),
                (old(samples)@.len() as int) / old(self).model().controls.frame_channels(),
            ),
            n <= max_samples,
            n <= ready_frames(processed(old(self).model())),
            n * old(self).model().controls.frame_channels() <= old(samples)@.len(),
            final(samples)@ == processed(old(self).model()).output.take(
                n * old(self).model().controls.frame_channels(),
            ) + old(samples)@.skip(n * old(self).model().controls.frame_channels()),
            final(self).model() == taken(
                processed(old(self).model()),
                n * old(self).model().controls.frame_channels(),
            ),
    {
        self.process();
        let n: usize = self.output.receive(samples, max_samples);
        assert(self.model() =~= taken(
            processed(old(self).model()),
            n * old(self).model().controls.frame_channels(),
        ));
        n
    }

    /// Takes the samples that the pipeline holds as far as they can go, then
    /// removes up to `max_samples` frames of what is ready without copying
    /// them anywhere. Returns the number of frames removed.
    pub fn receive_samples_no_in(&mut self, max_samples: usize) -> (n: usize)
        requires
            old(self).wf(),
        ensures
            final(self).wf(),
            n == min_int(max_samples as int, ready_frames(processed(old(self).model()))),
            n <= max_samples,
            n <= ready_frames(processed(old(self).model())),
            final(self).model() == taken(
                processed(old(self).model()),
                n * old(self).model().controls.frame_channels(),
            ),
    {
        self.process();
        let n: usize = self.output.discard(max_samples);
        assert(self.model() =~= taken(
            processed(old(self).model()),
            n * old(self).model().controls.frame_channels(),
        ));
        n
    }

    /// Drops every sample that the pipeline holds and the state of both
    /// stages. The settings stay.
    pub fn clear(&mut self)
        requires
            old(self).wf(),
        ensures
            final(self).wf(),
            final(self).model() == cleared(old(self).model()),
    {
        self.input.clear();
        self.between.clear();
        self.output.clear();
        self.transposer.clear();
        self.stretcher.clear();
        self.rate_engaged = false;
        self.drained = false;
        assert(self.model() =~= cleared(old(self).model()));
    }

    /// Ends the stream: brings every sample that the pipeline holds to the
    /// output, with silence behind it only where a stage needs more input to
    /// finish its last sequence, and marks the stream as drained.
    ///
    /// This is meant for the end of a stream: behind the frames that are owed
    /// for what waits inside it may add silence that was not put in, less
    /// than one sequence of it. A pipeline that holds nothing inside adds
    /// nothing.
    pub fn flush(&mut self)
        requires
            old(self).wf(),
        ensures
            final(self).wf(),
            final(self).model() == flushed(old(self).model()),
    {
        proof {
            self.transposer.lemma_model(Seq::empty(), Seq::empty());
            self.transposer.lemma_model(self.input@, self.between@);
        }
        if !self.transposer.get_params().step.is_one() || self.rate_engaged {
            self.transposer.flush(&mut self.input, &mut self.between);
            self.rate_engaged = false;
            proof {
                self.transposer.lemma_model(Seq::empty(), Seq::empty());
                self.transposer.lemma_model(self.input@, self.between@);
            }
        } else {
            let src = self.input.contents();
            let ok = self.between.put(src);
            assert(ok);
            self.input.clear();
        }
        assert(self.model() =~= first_flush(old(self).model()));
        let ghost half = self.model();
        proof {
            self.stretcher.lemma_model(Seq::empty(), Seq::empty());
            self.stretcher.lemma_model(self.between@, self.output@);
        }
        if !self.stretcher.get_params().tempo.is_one() || self.stretcher.is_started() {
            self.stretcher.flush(&mut self.between, &mut self.output);
            proof {
                self.stretcher.lemma_model(Seq::empty(), Seq::empty());
                self.stretcher.lemma_model(self.between@, self.output@);
            }
        } else {
            let src = self.between.contents();
            let ok = self.output.put(src);
            assert(ok);
            self.between.clear();
        }
        assert(self.model() =~= second_flush(half));
        self.drained = true;
        assert(self.model() =~= flushed(old(self).model()));
    }

    /// Sets the pipeline to other values, which are in order.
    fn apply(&mut self, c: Controls)
        requires
            old(self).wf(),
            c.wf(),
        ensures
            final(self).wf(),
            final(self).model() == reconfigured(old(self).model(), c),
    {
        let now: usize = self.controls.queue_channels();
        let then: usize = c.queue_channels();
        let sp = c.derive_stretch();
        let tp = c.derive_transpose();
        proof {
            self.transposer.lemma_model(Seq::empty(), Seq::empty());
            self.stretcher.lemma_model(Seq::empty(), Seq::empty());
        }
        if now != then {
            self.input = SampleFifo::with_channels(then);
            self.between = SampleFifo::with_channels(then);
            self.output = SampleFifo::with_channels(then);
            self.transposer = RateTransposer::with_params(tp);
            self.stretcher = TimeStretcher::with_params(sp);
            self.rate_engaged = false;
        } else {
            let done = self.transposer.set_params(tp);
            let kept = self.stretcher.set_params(sp);
            assert(done && kept);
        }
        self.controls = c;
        assert(self.model() =~= reconfigured(old(self).model(), c));
    }

    /// What the pipeline is set to.
    pub fn controls(&self) -> (r: Controls)
        requires
            self.wf(),
        ensures
            r == self.model().controls,
            r.wf(),
    {
        self.controls
    }

    /// Sets the number of channels: 1 is mono, 2 is stereo, 16 is the most.
    ///
    /// A number outside that range is refused. Where the number changes,
    /// the samples that the pipeline holds are dropped.
    pub fn set_channels(&mut self, num_channels: u32) -> (r: Result<(), Error>)
        requires
            old(self).wf(),
        ensures
            final(self).wf(),
            r is Ok <==> 1 <= num_channels <= MAX_CHANNELS,
            r is Ok ==> final(self).model() == reconfigured(
                old(self).model(),
                (Controls { channels: num_channels, ..old(self).model().controls }),
            ),
            r is Err ==> r == Err::<(), Error>(Error::OutOfRange) && final(self).model() == old(
                self,
            ).model(),
    {
        if num_channels == 0 || num_channels > MAX_CHANNELS as u32 {
            return Err(Error::OutOfRange);
        }
        let mut c = self.controls;
        c.channels = num_channels;
        self.apply(c);
        Ok(())
    }

    /// Sets the sample rate in frames per second, from 1 to `MAX_SAMPLE_RATE`.
    ///
    /// A rate outside that range is refused.
    pub fn set_sample_rate(&mut self, sample_rate: u32) -> (r: Result<(), Error>)
        requires
            old(self).wf(),
        ensures
            final(self).wf(),
            r is Ok <==> 1 <= sample_rate <= MAX_SAMPLE_RATE,
            r is Ok ==> final(self).model() == reconfigured(
                old(self).model(),
                (Controls { sample_rate, ..old(self).model().controls }),
            ),
            r is Err ==> r == Err::<(), Error>(Error::OutOfRange) && final(self).model() == old(
                self,
            ).model(),
    {
        if sample_rate == 0 || sample_rate > MAX_SAMPLE_RATE {
            return Err(Error::OutOfRange);
        }
        let mut c = self.controls;
        c.sample_rate = sample_rate;
        self.apply(c);
        Ok(())
    }

    /// Sets the tempo: the speed of the sound, with its pitch left as it is.
    /// `1/1` is the tempo of the input, smaller is slower, larger is faster.
    ///
    /// A ratio whose terms do not lie between one and `MAX_TERM` is refused.
    pub fn set_tempo(&mut self, tempo: Ratio) -> (r: Result<(), Error>)
        requires
            old(self).wf(),
        ensures
            final(self).wf(),
            r is Ok <==> tempo.wf(),
            r is Ok ==> final(self).model() == reconfigured(
                old(self).model(),
                (Controls { tempo, ..old(self).model().controls }),
            ),
            r is Err ==> r == Err::<(), Error>(Error::OutOfRange) && final(self).model() == old(
                self,
            ).model(),
    {
        if Ratio::new(tempo.num, tempo.den).is_none() {
            return Err(Error::OutOfRange);
        }
        let mut c = self.controls;
        c.tempo = tempo;
        self.apply(c);
        Ok(())
    }

    /// Sets the pitch, with the speed of the sound left as it is. `1/1` is
    /// the pitch of the input, smaller is lower, larger is higher.
    ///
    /// A ratio whose terms do not lie between one and `MAX_TERM` is refused.
    pub fn set_pitch(&mut self, pitch: Ratio) -> (r: Result<(), Error>)
        requires
            old(self).wf(),
        ensures
            final(self).wf(),
            r is Ok <==> pitch.wf(),
            r is Ok ==> final(self).model() == reconfigured(
                old(self).model(),
                (Controls { pitch, ..old(self).model().controls }),
            ),
            r is Err ==> r == Err::<(), Error>(Error::OutOfRange) && final(self).model() == old(
                self,
            ).model(),
    {
        if Ratio::new(pitch.num, pitch.den).is_none() {
            return Err(Error::OutOfRange);
        }
        let mut c = self.controls;
        c.pitch = pitch;
        self.apply(c);
        Ok(())
    }

    /// Sets the rate: speed and pitch together, as when a record turns
    /// faster. `1/1` is the rate of the input, smaller is slower, larger faster.
    ///
    /// A ratio whose terms do not lie between one and `MAX_TERM` is refused.
    pub fn set_rate(&mut self, rate: Ratio) -> (r: Result<(), Error>)
        requires
            old(self).wf(),
        ensures
            final(self).wf(),
            r is Ok <==> rate.wf(),
            r is Ok ==> final(self).model() == reconfigured(
                old(self).model(),
                (Controls { rate, ..old(self).model().controls }),
            ),
            r is Err ==> r == Err::<(), Error>(Error::OutOfRange) && final(self).model() == old(
                self,
            ).model(),
    {
        if Ratio::new(rate.num, rate.den).is_none() {
            return Err(Error::OutOfRange);
        }
        let mut c = self.controls;
        c.rate = rate;
        self.apply(c);
        Ok(())
    }

    /// Sets the tempo as a change in per cent of the input's tempo: `-50`
    /// is half as fast, `100` twice as fast.
    ///
    /// A change of minus a hundred per cent or less is refused.
    pub fn set_tempo_change(&mut self, new_tempo: i32) -> (r: Result<(), Error>)
        requires
            old(self).wf(),
        ensures
            final(self).wf(),
            r is Ok <==> -100 < new_tempo <= 1048476,
            r is Ok ==> final(self).model() == reconfigured(
                old(self).model(),
                (Controls {
                    tempo: Ratio { num: (100 + new_tempo) as u64, den: 100 },
                    ..old(self).model().controls
                }),
            ),
            r is Err ==> r == Err::<(), Error>(Error::OutOfRange) && final(self).model() == old(
                self,
            ).model(),
    {
        match Ratio::from_percent(new_tempo) {
            Some(tempo) => {
                let mut c = self.controls;
                c.tempo = tempo;
                self.apply(c);
                Ok(())
            },
            None => Err(Error::OutOfRange),
        }
    }

    /// Sets the rate as a change in per cent of the input's rate: `-50` is
    /// half as fast, `100` twice as fast.
    ///
    /// A change of minus a hundred per cent or less is refused.
    pub fn set_rate_change(&mut self, new_rate: i32) -> (r: Result<(), Error>)
        requires
            old(self).wf(),
        ensures
            final(self).wf(),
            r is Ok <==> -100 < new_rate <= 1048476,
            r is Ok ==> final(self).model() == reconfigured(
                old(self).model(),
                (Controls {
                    rate: Ratio { num: (100 + new_rate) as u64, den: 100 },
                    ..old(self).model().controls
                }),
            ),
            r is Err ==> r == Err::<(), Error>(Error::OutOfRange) && final(self).model() == old(
                self,
            ).model(),
    {
        match Ratio::from_percent(new_rate) {
            Some(rate) => {
                let mut c = self.controls;
                c.rate = rate;
                self.apply(c);
                Ok(())
            },
            None => Err(Error::OutOfRange),
        }
    }

    /// Sets the pitch as a change in semitones, from `-12`, an octave down,
    /// to `12`, an octave up.
    ///
    /// A change outside that range is refused.
    pub fn set_pitch_semitones(&mut self, pitch_semitones: i32) -> (r: Result<(), Error>)
        requires
            old(self).wf(),
        ensures
            final(self).wf(),
            r is Ok <==> -12 <= pitch_semitones <= 12,
            r is Ok ==> final(self).model() == reconfigured(
                old(self).model(),
                (Controls {
                    pitch: semitone_ratio(pitch_semitones as int),
                    ..old(self).model().controls
                }),
            ),
            r is Err ==> r == Err::<(), Error>(Error::OutOfRange) && final(self).model() == old(
                self,
            ).model(),
    {
        match ratio_of_semitones(pitch_semitones) {
            Some(pitch) => {
                let mut c = self.controls;
                c.pitch = pitch;
                self.apply(c);
                Ok(())
            },
            None => Err(Error::OutOfRange),
        }
    }

    /// Sets the pitch as a change in octaves, in thousandths of an octave:
    /// `-1000` is an octave down, `1000` an octave up.
    ///
    /// A change outside that range is refused.
    pub fn set_pitch_octaves(&mut self, pitch_octaves: i32) -> (r: Result<(), Error>)
        requires
            old(self).wf(),
        ensures
            final(self).wf(),
            r is Ok <==> -1000 <= pitch_octaves <= 1000,
            r is Ok ==> final(self).model() == reconfigured(
                old(self).model(),
                (Controls {
                    pitch: octave_ratio(pitch_octaves as int),
                    ..old(self).model().controls
                }),
            ),
            r is Err ==> r == Err::<(), Error>(Error::OutOfRange) && final(self).model() == old(
                self,
            ).model(),
    {
        match ratio_of_octaves(pitch_octaves) {
            Some(pitch) => {
                let mut c = self.controls;
                c.pitch = pitch;
                self.apply(c);
                Ok(())
            },
            None => Err(Error::OutOfRange),
        }
    }

    /// Changes a setting.
    ///
    /// A setting that can only be read, and a value outside the range of the
    /// setting, are refused.
    pub fn set_setting(&mut self, setting: Setting, value: i32) -> (r: Result<(), Error>)
        requires
            old(self).wf(),
        ensures
            final(self).wf(),
            setting.read_only() ==> r == Err::<(), Error>(Error::ReadOnly),
            !setting.read_only() && !setting_accepts(setting, value as int) ==> r == Err::<
                (),
                Error,
            >(Error::OutOfRange),
            setting_accepts(setting, value as int) ==> r is Ok,
            r is Ok ==> final(self).model() == reconfigured(
                old(self).model(),
                with_setting(old(self).model().controls, setting, value as int),
            ),
            r is Err ==> final(self).model() == old(self).model(),
    {
        let mut c = self.controls;
        match setting {
            Setting::UseAaFilter => {
                c.use_aa_filter = value != 0;
            },
            Setting::AaFilterLength => {
                if value < 8 || value > 128 {
                    return Err(Error::OutOfRange);
                }
                c.aa_filter_length = value as u32;
            },
            Setting::UseQuickseek => {
                c.use_quickseek = value != 0;
            },
            Setting::SequenceMs => {
                if value < 1 || value > MAX_WINDOW_MS as i32 {
                    return Err(Error::OutOfRange);
                }
                c.sequence_ms = value as u32;
            },
            Setting::SeekwindowMs => {
                if value < 1 || value > MAX_WINDOW_MS as i32 {
                    return Err(Error::OutOfRange);
                }
                c.seekwindow_ms = value as u32;
            },
            Setting::OverlapMs => {
                if value < 1 || value > MAX_WINDOW_MS as i32 {
                    return Err(Error::OutOfRange);
                }
                c.overlap_ms = value as u32;
            },
            Setting::NominalInputSequence => {
                return Err(Error::ReadOnly);
            },
            Setting::NominalOutputSequence => {
                return Err(Error::ReadOnly);
            },
            Setting::InitialLatency => {
                return Err(Error::ReadOnly);
            },
        }
        self.apply(c);
        Ok(())
    }

    /// Reads a setting.
    pub fn get_setting(&self, setting: Setting) -> (r: i32)
        requires
            self.wf(),
        ensures
            r == setting_value(self.model().controls, setting),
    {
        let c = self.controls;
        match setting {
            Setting::UseAaFilter => if c.use_aa_filter {
                1
            } else {
                0
            },
            Setting::AaFilterLength => c.aa_filter_length as i32,
            Setting::UseQuickseek => if c.use_quickseek {
                1
            } else {
                0
            },
            Setting::SequenceMs => c.sequence_ms as i32,
            Setting::SeekwindowMs => c.seekwindow_ms as i32,
            Setting::OverlapMs => c.overlap_ms as i32,
            Setting::NominalInputSequence => {
                let sp = c.derive_stretch();
                proof {
                    lemma_lengths(sp);
                    crate::ratio::lemma_term_product(c.tempo.num as int, c.rate.num as int);
                    crate::ratio::lemma_term_product(c.tempo.den as int, c.rate.den as int);
                }
                let hop: u64 = sp.sequence as u64;
                let up: u64 = c.tempo.num * c.rate.num;
                let down: u64 = c.tempo.den * c.rate.den;
                proof {
                    assert(0 <= hop * up <= 1048576 * 1099511627776) by (nonlinear_arith)
                        requires
                            0 <= hop <= 1048576,
                            0 <= up <= 1099511627776,
                    ;
                }
                let v: u64 = hop * up / down;
                if v > i32::MAX as u64 {
                    i32::MAX
                } else {
                    v as i32
                }
            },
            Setting::NominalOutputSequence => {
                let sp = c.derive_stretch();
                proof {
                    lemma_lengths(sp);
                }
                sp.sequence as i32
            },
            Setting::InitialLatency => {
                let sp = c.derive_stretch();
                proof {
                    lemma_lengths(sp);
                    crate::ratio::lemma_term_product(c.rate.num as int, c.pitch.num as int);
                    crate::ratio::lemma_term_product(c.rate.den as int, c.pitch.den as int);
                }
                let need: u64 = (sp.sequence + sp.overlap + sp.window - 1) as u64;
                let up: u64 = c.rate.num * c.pitch.num;
                let down: u64 = c.rate.den * c.pitch.den;
                proof {
                    assert(0 <= need * up <= 3145728 * 1099511627776) by (nonlinear_arith)
                        requires
                            0 <= need <= 3145728,
                            0 <= up <= 1099511627776,
                    ;
                }
                let v: u64 = need * up / down;
                if v > i32::MAX as u64 {
                    i32::MAX
                } else {
                    v as i32
                }
            },
        }
    }

    /// The number of channels; zero until it is set.
    pub fn num_channels(&self) -> (r: u32)
        ensures
            r == self.model().controls.channels,
    {
        self.controls.channels
    }

    /// Whether the stream has been ended with `flush` and nothing put in
    /// since.
    pub fn is_drained(&self) -> (r: bool)
        ensures
            r == self.model().drained,
    {
        self.drained
    }

    /// The number of frames that wait inside the pipeline for more input:
    /// those that the first stage has not taken yet, and those between the
    /// stages. Where the sum does not fit the result's type, its largest
    /// value is returned.
    pub fn num_unprocessed_samples(&self) -> (r: usize)
        requires
            self.wf(),
        ensures
            r == min_int(
                ((self.model().input.len() + self.model().between.len()) as int)
                    / self.model().controls.frame_channels(),
                usize::MAX as int,
            ),
    {
        let a: usize = self.input.available();
        let b: usize = self.between.available();
        proof {
            crate::arith::lemma_add_frames(
                self.input@.len() as int,
                self.between@.len() as int,
                self.controls.frame_channels(),
            );
        }
        if a > usize::MAX - b {
            usize::MAX
        } else {
            a + b
        }
    }

    /// Frames that come out for each frame that goes in, over a whole stream
    /// that is processed with the settings as they are: one over the tempo
    /// times the rate.
    pub fn get_input_output_sample_ratio(&mut self) -> (r: Ratio)
        requires
            old(self).wf(),
        ensures
            final(self).wf(),
            final(self).model() == old(self).model(),
            r == old(self).model().controls.output_per_input(),
            r.positive(),
            r.num * (old(self).model().controls.tempo.num * old(self).model().controls.rate.num)
                == r.den * (old(self).model().controls.tempo.den * old(
                self,
            ).model().controls.rate.den),
    {
        let c = self.controls;
        proof {
            crate::ratio::lemma_term_product(c.tempo.num as int, c.rate.num as int);
            crate::ratio::lemma_term_product(c.tempo.den as int, c.rate.den as int);
            let a = c.tempo.den * c.rate.den;
            let b = c.tempo.num * c.rate.num;
            assert(a * b == b * a) by (nonlinear_arith);
        }
        Ratio { num: c.tempo.den * c.rate.den, den: c.tempo.num * c.rate.num }
    }

    /// The number that tells the versions of this library apart.
    pub fn get_version_id() -> (r: u32)
        ensures
            r == VERSION_ID,
    {
        VERSION_ID
    }

    /// The version of this library in words.
    pub fn get_version_string() -> (r: &'static str)
        ensures
            r@ == "0.1.0"@,
    {
        "0.1.0"
    }

    /// Takes the samples that the pipeline holds as far as they can go and
    /// says whether no frame is ready: 1 if none is, else 0.
    pub fn is_empty(&mut self) -> (r: i32)
        requires
            old(self).wf(),
        ensures
            final(self).wf(),
            final(self).model() == processed(old(self).model()),
            r == if final(self).model().output.len() == 0 {
                1int
            } else {
                0int
            },
    {
        self.process();
        if self.output.is_empty() {
            1
        } else {
            0
        }
    }

    /// Takes the samples that the pipeline holds as far as they can go and
    /// returns the number of frames that are ready to be received. Where the
    /// number does not fit the result's type, its largest value is returned.
    pub fn num_samples(&mut self) -> (r: i32)
        requires
            old(self).wf(),
        ensures
            final(self).wf(),
            final(self).model() == processed(old(self).model()),
            r == min_int(ready_frames(final(self).model()), i32::MAX as int),
    {
        self.process();
        let n: usize = self.output.available();
        if n > i32::MAX as usize {
            i32::MAX
        } else {
            n as i32
        }
    }

    /// Puts the whole frames of `samples` into the pipeline, takes them as
    /// far as they can go, returns every sample that is ready, and then ends
    /// the stream as `flush` does. What the end of the stream brings to the
    /// output stays in the pipeline.
    ///
    /// The call is refused, and the pipeline stays as it was, until both the
    /// channel count and the sample rate are set.
    pub fn generate_audio(&mut self, samples: &[i16]) -> (r: Result<Vec<i16>, Error>)
        requires
            old(self).wf(),
        ensures
            final(self).wf(),
            r is Ok <==> old(self).model().controls.configured(),
            r matches Ok(v) ==> v@ == processed(
                fed(old(self).model(), whole_frames(old(self).model(), samples@)),
            ).output && final(self).model() == flushed(
                taken(
                    processed(fed(old(self).model(), whole_frames(old(self).model(), samples@))),
                    v@.len() as int,
                ),
            ),
            r is Err ==> r == Err::<Vec<i16>, Error>(Error::NotConfigured) && final(self).model()
                == old(self).model(),
    {
        if self.controls.channels == 0 || self.controls.sample_rate == 0 {
            return Err(Error::NotConfigured);
        }
        let ch: usize = self.controls.queue_channels();
        let frames: usize = samples.len() / ch;
        proof {
            vstd::arithmetic::div_mod::lemma_fundamental_div_mod(
                samples@.len() as int,
                ch as int,
            );
            vstd::arithmetic::div_mod::lemma_mod_bound(samples@.len() as int, ch as int);
            assert(frames * ch == ch * frames) by (nonlinear_arith);
        }
        let put = self.put_samples(samples, frames);
        assert(put is Ok);
        self.process();
        let ghost ready = self.model();
        let mut out: Vec<i16> = Vec::new();
        let src = self.output.contents();
        copy_range(&mut out, src, 0, src.len());
        assert(out@ =~= ready.output);
        self.output.clear();
        assert(self.model() =~= taken(ready, out@.len() as int));
        self.flush();
        Ok(out)
    }
}

impl Default for SoundTouch {
    /// A pipeline on which nothing has been set and that holds nothing.
    fn default() -> (r: SoundTouch)
        ensures
            r.wf(),
            r.model() == empty_pipeline(Controls::initial()),
    {
        SoundTouch::new()
    }
}

} // verus!
