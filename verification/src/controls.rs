//! The values that a pipeline is set to, and what follows from them for the
//! rate transposer and the time stretcher.
//!
//! Pitch is no control of its own in the processing: a pitch of `p` is a rate
//! of `p`, which raises pitch and speed together, with a tempo of `1 / p`,
//! which takes the speed back.

use vstd::prelude::*;
use crate::arith::{max_int, min_int};
use crate::correlation::MAX_OVERLAP_SAMPLES;
use crate::ratio::{lemma_term_product, Ratio};
use crate::stretch::{StretchParams, MAX_CHANNELS};
use crate::transposer::TransposeParams;

verus! {

/// The highest sample rate, in frames per second.
pub const MAX_SAMPLE_RATE: u32 = 1000000;

/// The longest sequence, seek window or overlap, in milliseconds.
pub const MAX_WINDOW_MS: u32 = 1000;

/// The length of a sequence unless it is set, in milliseconds.
pub const DEFAULT_SEQUENCE_MS: u32 = 40;

/// The length of the seek window unless it is set, in milliseconds.
pub const DEFAULT_SEEKWINDOW_MS: u32 = 15;

/// The length of the overlap unless it is set, in milliseconds.
pub const DEFAULT_OVERLAP_MS: u32 = 8;

/// The length of the anti-alias filter unless it is set, in taps.
pub const DEFAULT_AA_FILTER_LENGTH: u32 = 32;

/// The distance between the places that a quick search tries, in frames.
pub const QUICKSEEK_STRIDE: usize = 4;

/// The values that a pipeline is set to.
#[derive(Clone, Copy, Debug, PartialEq, Eq, Structural)]
pub struct Controls {
    /// Samples in a frame; zero until it is set.
    pub channels: u32,
    /// Frames per second; zero until it is set.
    pub sample_rate: u32,
    /// Speed without a change of pitch.
    pub tempo: Ratio,
    /// Pitch without a change of speed.
    pub pitch: Ratio,
    /// Speed and pitch together.
    pub rate: Ratio,
    /// Whether the anti-alias filter is asked for.
    pub use_aa_filter: bool,
    /// Length of the anti-alias filter in taps.
    pub aa_filter_length: u32,
    /// Whether the search for the best join tries only every fourth place.
    pub use_quickseek: bool,
    /// Length of a sequence in milliseconds.
    pub sequence_ms: u32,
    /// Length of the seek window in milliseconds.
    pub seekwindow_ms: u32,
    /// Length of the overlap in milliseconds.
    pub overlap_ms: u32,
}

impl Controls {
    /// Every value lies in the range that its control supports.
    pub open spec fn wf(self) -> bool {
        &&& self.channels <= MAX_CHANNELS
        &&& self.sample_rate <= MAX_SAMPLE_RATE
        &&& self.tempo.wf()
        &&& self.pitch.wf()
        &&& self.rate.wf()
        &&& 8 <= self.aa_filter_length <= 128
        &&& 1 <= self.sequence_ms <= MAX_WINDOW_MS
        &&& 1 <= self.seekwindow_ms <= MAX_WINDOW_MS
        &&& 1 <= self.overlap_ms <= MAX_WINDOW_MS
    }

    /// The values of a pipeline on which nothing has been set.
    pub open spec fn initial() -> Controls {
        Controls {
            channels: 0,
            sample_rate: 0,
            tempo: Ratio { num: 1, den: 1 },
            pitch: Ratio { num: 1, den: 1 },
            rate: Ratio { num: 1, den: 1 },
            use_aa_filter: true,
            aa_filter_length: DEFAULT_AA_FILTER_LENGTH,
            use_quickseek: false,
            sequence_ms: DEFAULT_SEQUENCE_MS,
            seekwindow_ms: DEFAULT_SEEKWINDOW_MS,
            overlap_ms: DEFAULT_OVERLAP_MS,
        }
    }

    /// Both the channel count and the sample rate have been set.
    pub open spec fn configured(self) -> bool {
        self.channels >= 1 && self.sample_rate >= 1
    }

    /// Samples in a frame of the queues: the channel count, and one until it
    /// is set.
    pub open spec fn frame_channels(self) -> int {
        if self.channels == 0 {
            1
        } else {
            self.channels as int
        }
    }

    /// Frames in `ms` milliseconds, rounded down.
    pub open spec fn frames_in(self, ms: int) -> int {
        ms * self.sample_rate / 1000
    }

    /// Frames in the overlap: at least one, and no more than the search can
    /// hold as a reference.
    pub open spec fn overlap_frames(self) -> int {
        max_int(
            1,
            min_int(
                self.frames_in(self.overlap_ms as int),
                MAX_OVERLAP_SAMPLES as int / self.frame_channels(),
            ),
        )
    }

    /// Frames in a sequence: at least one more than in the overlap.
    pub open spec fn sequence_frames(self) -> int {
        max_int(self.frames_in(self.sequence_ms as int), self.overlap_frames() + 1)
    }

    /// Frames in the seek window: at least one overlap.
    pub open spec fn window_frames(self) -> int {
        max_int(self.frames_in(self.seekwindow_ms as int), self.overlap_frames())
    }

    /// Distance between the places that the search tries.
    pub open spec fn stride(self) -> int {
        if self.use_quickseek {
            QUICKSEEK_STRIDE as int
        } else {
            1
        }
    }

    /// The tempo at which the stretcher runs: the tempo, with the speed that
    /// the pitch adds to the rate taken back.
    pub open spec fn stretch_tempo(self) -> Ratio {
        self.tempo.over(self.pitch)
    }

    /// The step at which the transposer runs: the rate, raised by the pitch.
    pub open spec fn transpose_step(self) -> Ratio {
        self.rate.times(self.pitch)
    }

    /// What the stretcher is set to.
    pub open spec fn stretch_params(self) -> StretchParams {
        StretchParams {
            channels: self.frame_channels() as usize,
            sequence: self.sequence_frames() as usize,
            window: self.window_frames() as usize,
            overlap: self.overlap_frames() as usize,
            stride: self.stride() as usize,
            tempo: self.stretch_tempo(),
        }
    }

    /// What the transposer is set to.
    pub open spec fn transpose_params(self) -> TransposeParams {
        TransposeParams { channels: self.frame_channels() as usize, step: self.transpose_step() }
    }

    /// Frames that come out for each frame that goes in, in the long run:
    /// one over the tempo times the rate. The pitch does not change the length
    /// of a stream.
    pub open spec fn output_per_input(self) -> Ratio {
        Ratio {
            num: (self.tempo.den * self.rate.den) as u64,
            den: (self.tempo.num * self.rate.num) as u64,
        }
    }

    /// The values of a pipeline on which nothing has been set.
    pub fn new() -> (r: Controls)
        ensures
            r == Controls::initial(),
            r.wf(),
    {
        Controls {
            channels: 0,
            sample_rate: 0,
            tempo: Ratio { num: 1, den: 1 },
            pitch: Ratio { num: 1, den: 1 },
            rate: Ratio { num: 1, den: 1 },
            use_aa_filter: true,
            aa_filter_length: DEFAULT_AA_FILTER_LENGTH,
            use_quickseek: false,
            sequence_ms: DEFAULT_SEQUENCE_MS,
            seekwindow_ms: DEFAULT_SEEKWINDOW_MS,
            overlap_ms: DEFAULT_OVERLAP_MS,
        }
    }

    /// Whether every value lies in the range that its control supports.
    pub fn is_valid(&self) -> (r: bool)
        ensures
            r == self.wf(),
    {
        self.channels <= MAX_CHANNELS as u32 && self.sample_rate <= MAX_SAMPLE_RATE
            && Ratio::new(self.tempo.num, self.tempo.den).is_some() && Ratio::new(
            self.pitch.num,
            self.pitch.den,
        ).is_some() && Ratio::new(self.rate.num, self.rate.den).is_some() && 8
            <= self.aa_filter_length && self.aa_filter_length <= 128 && 1 <= self.sequence_ms
            && self.sequence_ms <= MAX_WINDOW_MS && 1 <= self.seekwindow_ms && self.seekwindow_ms
            <= MAX_WINDOW_MS && 1 <= self.overlap_ms && self.overlap_ms <= MAX_WINDOW_MS
    }

    /// Samples in a frame of the queues.
    pub fn queue_channels(&self) -> (r: usize)
        requires
            self.wf(),
        ensures
            r == self.frame_channels(),
            1 <= r <= MAX_CHANNELS,
    {
        if self.channels == 0 {
            1
        } else {
            self.channels as usize
        }
    }

    /// Frames in `ms` milliseconds, rounded down.
    pub fn frames_for(&self, ms: u32) -> (r: usize)
        requires
            self.wf(),
            ms <= MAX_WINDOW_MS,
        ensures
            r == self.frames_in(ms as int),
            r <= 1000000,
    {
        proof {
            assert(0 <= (ms as int) * (self.sample_rate as int) <= 1000 * 1000000)
                by (nonlinear_arith)
                requires
                    0 <= ms <= 1000,
                    0 <= self.sample_rate <= 1000000,
            ;
        }
        let prod: u64 = (ms as u64) * (self.sample_rate as u64);
        (prod / 1000) as usize
    }

    /// What the stretcher is set to.
    pub fn derive_stretch(&self) -> (r: StretchParams)
        requires
            self.wf(),
        ensures
            r == self.stretch_params(),
            r.wf(),
    {
        let ch: usize = self.queue_channels();
        let cap: usize = MAX_OVERLAP_SAMPLES / ch;
        let mut overlap: usize = self.frames_for(self.overlap_ms);
        if overlap > cap {
            overlap = cap;
        }
        if overlap < 1 {
            overlap = 1;
        }
        let mut sequence: usize = self.frames_for(self.sequence_ms);
        if sequence < overlap + 1 {
            sequence = overlap + 1;
        }
        let mut window: usize = self.frames_for(self.seekwindow_ms);
        if window < overlap {
            window = overlap;
        }
        let stride: usize = if self.use_quickseek {
            QUICKSEEK_STRIDE
        } else {
            1
        };
        let tempo = self.tempo.quotient(&self.pitch);
        proof {
            let c = ch as int;
            vstd::arithmetic::div_mod::lemma_fundamental_div_mod(4096, c);
            vstd::arithmetic::div_mod::lemma_mod_bound(4096, c);
            assert(1 <= cap <= 4096 && cap * c <= 4096) by (nonlinear_arith)
                requires
                    4096 == c * cap + 4096int % c,
                    0 <= 4096int % c < c,
                    1 <= c <= 16,
                    cap >= 0,
            {
                if cap == 0 {
                    assert(c * cap == 0);
                }
                if cap > 4096 {
                    assert(c * cap >= cap);
                }
            }
            assert(overlap * c <= cap * c) by (nonlinear_arith)
                requires
                    overlap <= cap,
                    c >= 1,
            ;
        }
        StretchParams { channels: ch, sequence, window, overlap, stride, tempo }
    }

    /// What the transposer is set to.
    pub fn derive_transpose(&self) -> (r: TransposeParams)
        requires
            self.wf(),
        ensures
            r == self.transpose_params(),
            r.wf(),
    {
        let ch: usize = self.queue_channels();
        let step = self.rate.product(&self.pitch);
        TransposeParams { channels: ch, step }
    }
}

/// Controls that are in order set both stages to parameters that are in
/// order, for frames of the same number of channels.
pub proof fn lemma_controls(c: Controls)
    requires
        c.wf(),
    ensures
        c.stretch_params().wf(),
        c.transpose_params().wf(),
        c.stretch_params().channels == c.frame_channels(),
        c.transpose_params().channels == c.frame_channels(),
        1 <= c.frame_channels() <= MAX_CHANNELS,
        c.stretch_params().tempo == c.stretch_tempo(),
        c.transpose_params().step == c.transpose_step(),
        c.stretch_params().sequence == c.sequence_frames(),
        c.stretch_params().window == c.window_frames(),
        c.stretch_params().overlap == c.overlap_frames(),
{
    let ch = c.frame_channels();
    let cap = 4096int / ch;
    vstd::arithmetic::div_mod::lemma_fundamental_div_mod(4096, ch);
    vstd::arithmetic::div_mod::lemma_mod_bound(4096, ch);
    assert(1 <= cap <= 4096 && cap * ch <= 4096) by (nonlinear_arith)
        requires
            4096 == ch * cap + 4096int % ch,
            0 <= 4096int % ch < ch,
            1 <= ch <= 16,
    {
        if cap <= 0 {
            assert(ch * cap <= 0);
        }
        if cap > 4096 {
            assert(ch * cap >= cap);
        }
    }
    let l = c.overlap_frames();
    assert(1 <= l <= cap);
    assert(l * ch <= cap * ch) by (nonlinear_arith)
        requires
            0 <= l <= cap,
            ch >= 1,
    ;
    lemma_frames_in(c, c.overlap_ms as int);
    lemma_frames_in(c, c.sequence_ms as int);
    lemma_frames_in(c, c.seekwindow_ms as int);
    lemma_term_product(c.tempo.num as int, c.pitch.den as int);
    lemma_term_product(c.tempo.den as int, c.pitch.num as int);
    lemma_term_product(c.rate.num as int, c.pitch.num as int);
    lemma_term_product(c.rate.den as int, c.pitch.den as int);
}

/// A time of up to a second holds no more frames than the sample rate.
pub proof fn lemma_frames_in(c: Controls, ms: int)
    requires
        c.wf(),
        0 <= ms <= MAX_WINDOW_MS,
    ensures
        0 <= c.frames_in(ms) <= 1000000,
{
    assert(0 <= ms * c.sample_rate <= 1000 * 1000000) by (nonlinear_arith)
        requires
            0 <= ms <= 1000,
            0 <= c.sample_rate <= 1000000,
    ;
}

} // verus!
