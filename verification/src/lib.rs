//! Tempo, pitch and playback-rate processing of a stream of audio samples,
//! and detection of its beats per minute.
//!
//! The library works on interleaved 16-bit samples and on exact ratios of
//! whole numbers; nothing in it is floating point.
//!
//! - [`SoundTouch`] is the pipeline: samples are put in, taken through a rate
//!   transposer and a time stretcher, and received, first in, first out.
//! - [`BPMDetect`] listens to a stream and reads its beats per minute off the
//!   correlation of the stream's envelope with itself.
//!
//! The parts of the two are modules of their own: the sample queue
//! ([`fifo`]), the two stages ([`transposer`], [`stretch`]) with the search
//! for the best join ([`correlation`]) and the cross-fade ([`overlap`]), the
//! settings ([`controls`], [`ratio`], [`pitch`]), and the steps of the
//! detector ([`decimate`], [`envelope`], [`xcorr`]). What the pipeline and
//! the detector do is stated over plain values in [`pipeline`] and
//! [`bpm_detect`]; what holds of them for every stream is proved in the
//! modules whose names end in `_lemmas`.

pub mod arith;
pub mod bpm_detect;
pub mod bpm_lemmas;
pub mod controls;
pub mod correlation;
pub mod correlation_lemmas;
pub mod decimate;
pub mod envelope;
pub mod error;
pub mod fifo;
pub mod overlap;
pub mod pipeline;
pub mod pipeline_lemmas;
pub mod pitch;
pub mod ratio;
pub mod sound_touch;
pub mod stretch;
pub mod stretch_lemmas;
pub mod transposer;
pub mod transposer_lemmas;
pub mod xcorr;

pub use crate::bpm_detect::{BPMDetect, Beat};
pub use crate::controls::Controls;
pub use crate::error::Error;
pub use crate::fifo::SampleFifo;
pub use crate::ratio::Ratio;
pub use crate::sound_touch::{Setting, SoundTouch};
