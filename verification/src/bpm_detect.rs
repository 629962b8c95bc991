//! Detection of the beats per minute of a stream of samples.
//!
//! The detector works on the stream as it comes. Of the stream itself it
//! keeps nothing; what it keeps is the stream's envelope, some five hundred
//! samples for a second of sound.
//! - The samples are decimated to about 500 per second.
//! - The decimated samples are turned into an envelope, of which only the
//!   marked peaks are left. The envelope grows as the stream is heard.
//! - The envelope is correlated with itself for each lag between the period
//!   of the fastest beat looked for and that of the slowest, inside a window
//!   twice as long as the longest lag, and the sums are kept and added to as
//!   the stream goes on.
//! - The beats per minute are read off the lag at which the sums are highest,
//!   the first among equals, with the parabola through that sum and its
//!   neighbours for the place between the lags. Nothing else is looked at.
//! - The peaks of the envelope are the beats. They are kept in the order of
//!   the stream.

use vstd::prelude::*;
use vstd::slice::slice_subrange;
use crate::arith::min_int;
use crate::decimate::{block_after, decimated, min_frames, BlockState, Decimator};
use crate::envelope::{
    env_after,
    env_ok,
    env_start,
    enveloped,
    lemma_enveloped_len,
    EnvState,
    EnvelopeFollower,
};
use crate::error::Error;
use crate::xcorr::{accumulated, debiased, sums_ok, tempo_of, usable, Correlogram, MAX_LAGS};

verus! {

/// The sample rate to which the stream is decimated, in samples per second.
pub const TARGET_RATE: u32 = 500;

/// The slowest beat looked for, in beats per minute.
pub const MIN_BPM: u32 = 45;

/// The fastest beat looked for, in beats per minute.
pub const MAX_BPM: u32 = 250;

/// The largest channel count.
pub const MAX_BPM_CHANNELS: u32 = 16;

/// The highest sample rate, in frames per second.
pub const MAX_BPM_RATE: u32 = 1000000;

/// A beat: where it is, in frames of the stream from its start, and how
/// strong it is, as the height of the envelope's peak.
#[derive(Clone, Copy, Debug, PartialEq, Eq, Structural)]
pub struct Beat {
    pub position: u64,
    pub strength: i16,
}

/// Frames in a block of the decimation: as many as bring the stream down to
/// about `TARGET_RATE`, and one at least.
pub open spec fn block_frames(rate: int) -> int {
    if rate / (TARGET_RATE as int) >= 1 {
        rate / (TARGET_RATE as int)
    } else {
        1
    }
}

/// The number of lags: the period of the slowest beat looked for, in
/// decimated samples, but no more than `MAX_LAGS`.
pub open spec fn lag_count(rate: int) -> int {
    min_int((60 * rate) / (block_frames(rate) * MIN_BPM), MAX_LAGS as int)
}

/// The first lag that is used: the period of the fastest beat looked for, in
/// decimated samples, but no more than the number of lags.
pub open spec fn lag_start(rate: int) -> int {
    min_int((60 * rate) / (block_frames(rate) * MAX_BPM), lag_count(rate))
}

/// What the search for the peaks of the envelope remembers.
pub struct ScanState {
    /// The envelope two samples back.
    pub prev: int,
    /// The envelope at the last sample.
    pub cur: int,
    /// The number of samples of the envelope seen, cut off at the largest
    /// value of its type.
    pub index: int,
}

/// The search before the first sample of a stream.
pub open spec fn scan_start() -> ScanState {
    ScanState { prev: 0, cur: 0, index: 0 }
}

/// Whether the last sample is a peak, now that the sample `e` behind it is
/// known: it lies above the sample before it, not below the sample behind
/// it, and above nothing.
pub open spec fn peak_here(st: ScanState, e: i16) -> bool {
    st.cur > st.prev && st.cur >= e && st.cur > 0
}

/// The beat at the last sample: its place in frames of the stream, cut off at
/// the largest value of its type, and the height of the envelope there.
pub open spec fn beat_here(st: ScanState, by: int) -> Beat {
    Beat {
        position: min_int((st.index - 1) * by, u64::MAX as int) as u64,
        strength: st.cur as i16,
    }
}

/// The search after the sample `e`.
pub open spec fn scan_next(st: ScanState, e: i16) -> ScanState {
    ScanState { prev: st.cur, cur: e as int, index: min_int(st.index + 1, u64::MAX as int) }
}

/// The search after the `n` samples of `es` from `from` on.
pub open spec fn scan_after(st: ScanState, es: Seq<i16>, from: int, n: nat) -> ScanState
    decreases n,
{
    if n == 0 {
        st
    } else {
        scan_next(scan_after(st, es, from, (n - 1) as nat), es[from + n - 1])
    }
}

/// The beats found in the `n` samples of `es` from `from` on, in order.
pub open spec fn beats_found(st: ScanState, by: int, es: Seq<i16>, from: int, n: nat) -> Seq<Beat>
    decreases n,
{
    if n == 0 {
        Seq::empty()
    } else {
        let before = scan_after(st, es, from, (n - 1) as nat);
        let found = beats_found(st, by, es, from, (n - 1) as nat);
        if peak_here(before, es[from + n - 1]) {
            found.push(beat_here(before, by))
        } else {
            found
        }
    }
}

/// The beats stand in the order of the stream: none lies before the one
/// found before it, and each lies in a block of the stream that the search
/// has passed, so none lies outside the stream.
pub open spec fn beats_in_order(beats: Seq<Beat>, st: ScanState, by: int) -> bool {
    &&& forall|i: int, j: int|
        0 <= i <= j < beats.len() ==> beats[i].position <= beats[j].position
    &&& forall|i: int| 0 <= i < beats.len() ==> beats[i].position <= (st.index - 1) * by
}

/// What holds of a search.
pub open spec fn scan_ok(st: ScanState) -> bool {
    &&& -32768 <= st.prev <= 32767
    &&& -32768 <= st.cur <= 32767
    &&& 0 <= st.index <= u64::MAX
    &&& (st.cur > 0 ==> st.index >= 1)
}

/// A sample keeps the search in order.
pub proof fn lemma_scan_after(st: ScanState, es: Seq<i16>, from: int, n: nat)
    requires
        scan_ok(st),
    ensures
        scan_ok(scan_after(st, es, from, n)),
    decreases n,
{
    if n > 0 {
        lemma_scan_after(st, es, from, (n - 1) as nat);
    }
}

/// The search finds the beats in the order of the stream, and none
/// further on than it has come.
pub proof fn lemma_beats_in_order(
    beats: Seq<Beat>,
    st: ScanState,
    by: int,
    es: Seq<i16>,
    from: int,
    n: nat,
)
    requires
        scan_ok(st),
        1 <= by,
        beats_in_order(beats, st, by),
    ensures
        beats_in_order(
            beats + beats_found(st, by, es, from, n),
            scan_after(st, es, from, n),
            by,
        ),
        st.index <= scan_after(st, es, from, n).index,
    decreases n,
{
    if n == 0 {
        assert(beats + beats_found(st, by, es, from, n) =~= beats);
    } else {
        lemma_beats_in_order(beats, st, by, es, from, (n - 1) as nat);
        lemma_scan_after(st, es, from, (n - 1) as nat);
        let before = scan_after(st, es, from, (n - 1) as nat);
        let after = scan_after(st, es, from, n);
        let so_far = beats + beats_found(st, by, es, from, (n - 1) as nat);
        let all = beats + beats_found(st, by, es, from, n);
        assert(before.index <= after.index);
        assert((before.index - 1) * by <= (after.index - 1) * by) by (nonlinear_arith)
            requires
                before.index <= after.index,
                by >= 1,
        ;
        if peak_here(before, es[from + n - 1]) {
            let b = beat_here(before, by);
            assert(all =~= so_far.push(b));
            assert(0 <= (before.index - 1) * by) by (nonlinear_arith)
                requires
                    before.index >= 1,
                    by >= 1,
            ;
            assert(b.position == min_int((before.index - 1) * by, u64::MAX as int));
            assert forall|i: int, j: int| 0 <= i <= j < all.len() implies all[i].position
                <= all[j].position by {
                if j == so_far.len() {
                    if i < j {
                        assert(so_far[i].position <= (before.index - 1) * by);
                    }
                } else {
                    assert(so_far[i].position <= so_far[j].position);
                }
            }
            assert forall|i: int| 0 <= i < all.len() implies all[i].position <= (after.index - 1)
                * by by {
                if i < so_far.len() {
                    assert(so_far[i].position <= (before.index - 1) * by);
                }
            }
        } else {
            assert(all =~= so_far);
            assert forall|i: int| 0 <= i < all.len() implies all[i].position <= (after.index - 1)
                * by by {
                assert(so_far[i].position <= (before.index - 1) * by);
            }
        }
    }
}

/// Silence has no beats, and a search that has seen nothing but silence
/// finds none behind it.
pub proof fn lemma_scan_silence(st: ScanState, by: int, es: Seq<i16>, from: int, n: nat)
    requires
        st.cur <= 0,
        forall|i: int| from <= i < from + n ==> es[i] == 0,
    ensures
        scan_after(st, es, from, n).cur <= 0,
        beats_found(st, by, es, from, n).len() == 0,
    decreases n,
{
    if n > 0 {
        lemma_scan_silence(st, by, es, from, (n - 1) as nat);
    }
}

/// The state of a detector.
#[verifier::ext_equal]
pub struct BpmModel {
    /// Samples in a frame.
    pub channels: int,
    /// Frames per second.
    pub sample_rate: int,
    /// The block of the decimation that is being filled.
    pub block: BlockState,
    /// What the envelope follower remembers.
    pub env: EnvState,
    /// What the search for the beats remembers.
    pub scan: ScanState,
    /// The envelope of the stream so far. It grows as the stream is heard and
    /// never gets shorter.
    pub envelope: Seq<i16>,
    /// The number of samples at the head of the envelope that have been
    /// searched for beats.
    pub scanned: int,
    /// The number of samples at the head of the envelope that have been
    /// correlated with their partners.
    pub correlated: int,
    /// The sums of the correlation, one for each lag.
    pub xcorr: Seq<u64>,
    /// The beats found so far.
    pub beats: Seq<Beat>,
}

/// A detector before the first sample of a stream.
pub open spec fn bpm_start(channels: int, sample_rate: int) -> BpmModel {
    BpmModel {
        channels,
        sample_rate,
        block: BlockState { sum: 0, count: 0 },
        env: env_start(),
        scan: scan_start(),
        envelope: Seq::empty(),
        scanned: 0,
        correlated: 0,
        xcorr: Seq::new(lag_count(sample_rate) as nat, |i: int| 0u64),
        beats: Seq::empty(),
    }
}

/// What holds of the state of every detector.
pub open spec fn bpm_ok(m: BpmModel) -> bool {
    &&& 1 <= m.channels <= MAX_BPM_CHANNELS
    &&& 1 <= m.sample_rate <= MAX_BPM_RATE
    &&& crate::decimate::block_ok(m.block, block_frames(m.sample_rate), m.channels)
    &&& env_ok(m.env)
    &&& scan_ok(m.scan)
    &&& 0 <= m.scanned <= m.envelope.len()
    &&& 0 <= m.correlated <= m.envelope.len()
    &&& m.xcorr.len() == lag_count(m.sample_rate)
    &&& sums_ok(m.xcorr, lag_start(m.sample_rate))
    &&& beats_in_order(m.beats, m.scan, block_frames(m.sample_rate))
}

/// The detector after the first `frames` frames of `src` have been
/// decimated; what comes out is handed to the caller and not kept.
pub open spec fn after_decimate(m: BpmModel, src: Seq<i16>, frames: int) -> BpmModel {
    BpmModel {
        block: block_after(
            m.block,
            block_frames(m.sample_rate),
            m.channels,
            src,
            min_frames(frames, src.len() as int, m.channels) as nat,
        ),
        ..m
    }
}

/// What the decimation of the first `frames` frames of `src` hands out.
pub open spec fn decimate_output(m: BpmModel, src: Seq<i16>, frames: int) -> Seq<i16> {
    decimated(
        m.block,
        block_frames(m.sample_rate),
        m.channels,
        src,
        min_frames(frames, src.len() as int, m.channels) as nat,
    )
}

/// The detector after the envelope of `samples` has been taken.
pub open spec fn after_envelope(m: BpmModel, samples: Seq<i16>) -> BpmModel {
    BpmModel { env: env_after(m.env, samples, samples.len()), ..m }
}

/// The number of samples of the envelope that a search for beats takes: as
/// many as asked for, but no more than have not been searched.
pub open spec fn scan_count(m: BpmModel, n: int) -> int {
    min_int(n, m.envelope.len() - m.scanned)
}

/// The detector after up to `n` more samples of its envelope have been
/// searched for beats.
pub open spec fn after_scan(m: BpmModel, n: int) -> BpmModel {
    let k = scan_count(m, n) as nat;
    BpmModel {
        scan: scan_after(m.scan, m.envelope, m.scanned, k),
        scanned: m.scanned + k,
        beats: m.beats + beats_found(
            m.scan,
            block_frames(m.sample_rate),
            m.envelope,
            m.scanned,
            k,
        ),
        ..m
    }
}

/// The part of the envelope that has not been correlated yet.
pub open spec fn uncorrelated(m: BpmModel) -> Seq<i16> {
    m.envelope.skip(m.correlated)
}

/// The number of samples that a correlation takes: as many as asked for, but
/// only samples that have not been correlated and have a partner at every
/// lag.
pub open spec fn xcorr_count(m: BpmModel, n: int) -> int {
    usable(uncorrelated(m).len() as int, m.xcorr.len() as int, n)
}

/// The detector after up to `n` more samples of its envelope have been
/// correlated with their partners. The envelope stays as it is.
pub open spec fn after_xcorr(m: BpmModel, n: int) -> BpmModel {
    BpmModel {
        xcorr: accumulated(
            m.xcorr,
            lag_start(m.sample_rate),
            uncorrelated(m),
            xcorr_count(m, n) as nat,
        ),
        correlated: m.correlated + xcorr_count(m, n),
        ..m
    }
}

/// The detector with the smallest of its sums taken off each.
pub open spec fn after_remove_bias(m: BpmModel) -> BpmModel {
    BpmModel { xcorr: debiased(m.xcorr, lag_start(m.sample_rate)), ..m }
}

/// The number of samples that have not been correlated and have a partner at
/// every lag: all of that part of the envelope but as many as there are lags.
pub open spec fn excess(m: BpmModel) -> int {
    if uncorrelated(m).len() > m.xcorr.len() {
        uncorrelated(m).len() - m.xcorr.len()
    } else {
        0
    }
}

/// The detector after the envelope `env` has been put behind its envelope.
pub open spec fn extended(m: BpmModel, env: Seq<i16>) -> BpmModel {
    BpmModel { envelope: m.envelope + env, ..m }
}

/// The detector after it has heard the whole frames of `samples`: they are
/// decimated, the envelope of what comes out is put behind the envelope so
/// far and searched for beats, and the part of the envelope that has a
/// partner at every lag is correlated.
pub open spec fn heard(m: BpmModel, samples: Seq<i16>) -> BpmModel {
    let frames = (samples.len() as int) / m.channels;
    let dec = decimate_output(m, samples, frames);
    let m1 = after_envelope(after_decimate(m, samples, frames), dec);
    let env = enveloped(m.env, dec, dec.len());
    let m2 = extended(m1, env);
    let m3 = after_scan(m2, m2.envelope.len() as int);
    after_xcorr(m3, excess(m3))
}

/// The beats per minute, in thousandths, that the detector shows.
pub open spec fn bpm_reading(m: BpmModel) -> int {
    tempo_of(
        debiased(m.xcorr, lag_start(m.sample_rate)),
        lag_start(m.sample_rate),
        m.sample_rate,
        block_frames(m.sample_rate),
    )
}

/// Beats-per-minute detection for a stream of samples.
///
/// Put the stream in with `input_samples`, in blocks of any size, and read
/// the result with `get_bpm` once all of it is in.
#[derive(Debug)]
pub struct BPMDetect {
    channels: u32,
    sample_rate: u32,
    decimator: Decimator,
    follower: EnvelopeFollower,
    prev_env: i16,
    cur_env: i16,
    index: u64,
    envelope: Vec<i16>,
    scanned: usize,
    correlated: usize,
    correlogram: Correlogram,
    beats: Vec<Beat>,
}

/// Frames in a block of the decimation.
fn block_size(rate: u32) -> (r: u32)
    requires
        1 <= rate <= MAX_BPM_RATE,
    ensures
        r == block_frames(rate as int),
        1 <= r <= 2000,
{
    let by: u32 = rate / TARGET_RATE;
    if by >= 1 {
        by
    } else {
        1
    }
}

/// The number of lags.
fn count_lags(rate: u32) -> (r: usize)
    requires
        1 <= rate <= MAX_BPM_RATE,
    ensures
        r == lag_count(rate as int),
        r <= MAX_LAGS,
{
    let by: u64 = block_size(rate) as u64;
    let slow: u64 = MIN_BPM as u64;
    proof {
        assert(by * slow == by * 45) by (nonlinear_arith)
            requires
                slow == 45,
        ;
    }
    let n: u64 = (60 * (rate as u64)) / (by * slow);
    if n > MAX_LAGS as u64 {
        MAX_LAGS
    } else {
        n as usize
    }
}

/// The first lag that is used.
fn first_lag(rate: u32) -> (r: usize)
    requires
        1 <= rate <= MAX_BPM_RATE,
    ensures
        r == lag_start(rate as int),
        r <= lag_count(rate as int),
{
    let by: u64 = block_size(rate) as u64;
    let lags: usize = count_lags(rate);
    let fast: u64 = MAX_BPM as u64;
    proof {
        assert(by * fast == by * 250) by (nonlinear_arith)
            requires
                fast == 250,
        ;
    }
    let n: u64 = (60 * (rate as u64)) / (by * fast);
    if n > lags as u64 {
        lags
    } else {
        n as usize
    }
}

impl BPMDetect {
    /// The state of the detector as plain values.
    pub closed spec fn model(&self) -> BpmModel {
        BpmModel {
            channels: self.channels as int,
            sample_rate: self.sample_rate as int,
            block: self.decimator.state(),
            env: self.follower.state(),
            scan: ScanState {
                prev: self.prev_env as int,
                cur: self.cur_env as int,
                index: self.index as int,
            },
            envelope: self.envelope@,
            scanned: self.scanned as int,
            correlated: self.correlated as int,
            xcorr: self.correlogram@,
            beats: self.beats@,
        }
    }

    /// The parts of the detector are in order and fit its settings.
    pub closed spec fn wf(&self) -> bool {
        &&& 1 <= self.channels <= MAX_BPM_CHANNELS
        &&& 1 <= self.sample_rate <= MAX_BPM_RATE
        &&& self.decimator.wf()
        &&& self.decimator.block() == block_frames(self.sample_rate as int)
        &&& self.decimator.ch() == self.channels
        &&& self.follower.wf()
        &&& self.correlogram.wf()
        &&& self.correlogram.first_lag() == lag_start(self.sample_rate as int)
        &&& self.correlogram@.len() == lag_count(self.sample_rate as int)
        &&& self.scanned <= self.envelope@.len()
        &&& self.correlated <= self.envelope@.len()
        &&& (self.cur_env > 0 ==> self.index >= 1)
        &&& beats_in_order(
            self.beats@,
            ScanState {
                prev: self.prev_env as int,
                cur: self.cur_env as int,
                index: self.index as int,
            },
            block_frames(self.sample_rate as int),
        )
    }

    /// The state of a detector that is in order is in order.
    pub proof fn lemma_wf(&self)
        requires
            self.wf(),
        ensures
            bpm_ok(self.model()),
    {
    }

    /// A detector for a stream of `sample_rate` frames per second, each of
    /// `num_channels` samples.
    ///
    /// A channel count that is not between 1 and 16, and a sample rate that is
    /// not between 1 and `MAX_BPM_RATE`, are refused.
    pub fn new(num_channels: u32, sample_rate: u32) -> (r: Result<BPMDetect, Error>)
        ensures
            r is Ok <==> (1 <= num_channels <= MAX_BPM_CHANNELS && 1 <= sample_rate
                <= MAX_BPM_RATE),
            r matches Ok(d) ==> d.wf() && d.model() == bpm_start(
                num_channels as int,
                sample_rate as int,
            ),
            r matches Err(e) ==> e == Error::OutOfRange,
    {
        if num_channels == 0 || num_channels > MAX_BPM_CHANNELS || sample_rate == 0 || sample_rate
            > MAX_BPM_RATE {
            return Err(Error::OutOfRange);
        }
        let by: u32 = block_size(sample_rate);
        let lags: usize = count_lags(sample_rate);
        let start: usize = first_lag(sample_rate);
        let decimator = Decimator::with_block(by, num_channels);
        let correlogram = Correlogram::with_lags(start, lags);
        let d = BPMDetect {
            channels: num_channels,
            sample_rate,
            decimator,
            follower: EnvelopeFollower::new(),
            prev_env: 0,
            cur_env: 0,
            index: 0,
            envelope: Vec::new(),
            scanned: 0,
            correlated: 0,
            correlogram,
            beats: Vec::new(),
        };
        assert(d.model().xcorr =~= bpm_start(num_channels as int, sample_rate as int).xcorr);
        assert(d.model() =~= bpm_start(num_channels as int, sample_rate as int));
        Ok(d)
    }

    /// Samples in a frame.
    pub fn num_channels(&self) -> (r: u32)
        ensures
            r == self.model().channels,
    {
        self.channels
    }

    /// Frames per second.
    pub fn sample_rate(&self) -> (r: u32)
        ensures
            r == self.model().sample_rate,
    {
        self.sample_rate
    }

    /// Decimates the first `numsamples` frames of `src` to about 500 per
    /// second and appends what comes out to `dest`. Returns the number of
    /// samples appended.
    ///
    /// Where `src` holds fewer frames, the frames that it holds are taken.
    pub fn decimate(&mut self, dest: &mut Vec<i16>, src: &[i16], numsamples: usize) -> (n: usize)
        requires
            old(self).wf(),
        ensures
            final(self).wf(),
            final(self).model() == after_decimate(old(self).model(), src@, numsamples as int),
            final(dest)@ == old(dest)@ + decimate_output(
                old(self).model(),
                src@,
                numsamples as int,
            ),
            n == decimate_output(old(self).model(), src@, numsamples as int).len(),
    {
        let n: usize = self.decimator.decimate(dest, src, numsamples);
        assert(self.model() =~= after_decimate(old(self).model(), src@, numsamples as int));
        n
    }

    /// Turns the decimated samples in `samples` into their envelope, in
    /// place.
    pub fn calc_envelope(&mut self, samples: &mut [i16])
        requires
            old(self).wf(),
        ensures
            final(self).wf(),
            final(self).model() == after_envelope(old(self).model(), old(samples)@),
            final(samples)@ == enveloped(
                old(self).model().env,
                old(samples)@,
                old(samples)@.len(),
            ),
    {
        self.follower.calc_envelope(samples);
        assert(self.model() =~= after_envelope(old(self).model(), old(samples)@));
    }

    /// Searches up to `process_samples` more samples of the envelope kept for
    /// beats and notes the beats found.
    pub fn update_beat_pos(&mut self, process_samples: usize)
        requires
            old(self).wf(),
        ensures
            final(self).wf(),
            final(self).model() == after_scan(old(self).model(), process_samples as int),
    {
        let ghost m = self.model();
        let ghost by = block_frames(self.sample_rate as int);
        let rest: usize = self.envelope.len() - self.scanned;
        let k: usize = if process_samples < rest {
            process_samples
        } else {
            rest
        };
        let from: usize = self.scanned;
        let block: u64 = block_size(self.sample_rate) as u64;
        let mut i: usize = 0;
        while i < k
            invariant
                i <= k,
                from + k <= self.envelope@.len(),
                from + k <= usize::MAX,
                self.envelope@ == m.envelope,
                from == m.scanned,
                block == by,
                1 <= block <= 2000,
                scan_ok(m.scan),
                (ScanState {
                    prev: self.prev_env as int,
                    cur: self.cur_env as int,
                    index: self.index as int,
                }) == scan_after(m.scan, m.envelope, from as int, i as nat),
                self.beats@ == m.beats + beats_found(
                    m.scan,
                    by,
                    m.envelope,
                    from as int,
                    i as nat,
                ),
                self.cur_env > 0 ==> self.index >= 1,
                self.channels == old(self).channels,
                self.sample_rate == old(self).sample_rate,
                self.decimator == old(self).decimator,
                self.follower == old(self).follower,
                self.correlogram == old(self).correlogram,
                self.scanned == old(self).scanned,
                self.correlated == old(self).correlated,
            decreases k - i,
        {
            let e: i16 = self.envelope[from + i];
            if self.cur_env > self.prev_env && self.cur_env >= e && self.cur_env > 0 {
                proof {
                    let idx = self.index as int;
                    assert(0 <= (idx - 1) * block <= 18446744073709551615 * 2000)
                        by (nonlinear_arith)
                        requires
                            1 <= idx <= 18446744073709551615,
                            1 <= block <= 2000,
                    ;
                }
                let at: u128 = ((self.index - 1) as u128) * (block as u128);
                let position: u64 = if at > u64::MAX as u128 {
                    u64::MAX
                } else {
                    at as u64
                };
                self.beats.push(Beat { position, strength: self.cur_env });
            }
            self.prev_env = self.cur_env;
            self.cur_env = e;
            if self.index < u64::MAX {
                self.index = self.index + 1;
            }
            i += 1;
            proof {
                assert(self.beats@ =~= m.beats + beats_found(
                    m.scan,
                    by,
                    m.envelope,
                    from as int,
                    i as nat,
                ));
            }
        }
        self.scanned = from + k;
        proof {
            lemma_beats_in_order(m.beats, m.scan, by, m.envelope, from as int, k as nat);
        }
        assert(self.model() =~= after_scan(m, process_samples as int));
    }

    /// Correlates up to `process_samples` more samples of the envelope with
    /// their partners at each lag, and adds the sums to those kept. Only
    /// samples that have a partner at every lag are taken, and none is
    /// dropped from the envelope.
    pub fn update_x_corr(&mut self, process_samples: usize)
        requires
            old(self).wf(),
        ensures
            final(self).wf(),
            final(self).model() == after_xcorr(old(self).model(), process_samples as int),
    {
        let len: usize = self.envelope.len();
        let rest = slice_subrange(self.envelope.as_slice(), self.correlated, len);
        assert(rest@ =~= uncorrelated(self.model()));
        let k: usize = self.correlogram.update(rest, process_samples);
        self.correlated = self.correlated + k;
        assert(self.model() =~= after_xcorr(old(self).model(), process_samples as int));
    }

    /// Forgets the stream: the detector is as it was before the first sample.
    pub fn reset(&mut self)
        requires
            old(self).wf(),
        ensures
            final(self).wf(),
            final(self).model() == bpm_start(
                old(self).model().channels,
                old(self).model().sample_rate,
            ),
    {
        self.decimator.clear();
        self.follower.clear();
        self.prev_env = 0;
        self.cur_env = 0;
        self.index = 0;
        self.envelope.clear();
        self.scanned = 0;
        self.correlated = 0;
        self.correlogram.clear();
        self.beats.clear();
        assert(self.model().xcorr =~= bpm_start(
            self.channels as int,
            self.sample_rate as int,
        ).xcorr);
        assert(self.model() =~= bpm_start(self.channels as int, self.sample_rate as int));
    }

    /// The envelope of the stream so far.
    pub fn envelope(&self) -> (r: &[i16])
        ensures
            r@ == self.model().envelope,
    {
        self.envelope.as_slice()
    }

    /// Takes the smallest of the sums of the correlation off each of them.
    pub fn remove_bias(&mut self)
        requires
            old(self).wf(),
        ensures
            final(self).wf(),
            final(self).model() == after_remove_bias(old(self).model()),
    {
        self.correlogram.remove_bias();
        assert(self.model() =~= after_remove_bias(old(self).model()));
    }

    /// Takes in a block of the stream: the whole frames of `samples`.
    pub fn input_samples(&mut self, samples: &[i16])
        requires
            old(self).wf(),
        ensures
            final(self).wf(),
            final(self).model() == heard(old(self).model(), samples@),
    {
        let ghost m = self.model();
        let frames: usize = samples.len() / (self.channels as usize);
        let mut dec: Vec<i16> = Vec::new();
        let made: usize = self.decimate(&mut dec, samples, frames);
        let ghost raw = dec@;
        assert(raw =~= decimate_output(m, samples@, frames as int));
        self.calc_envelope(dec.as_mut_slice());
        let ghost m1 = self.model();
        let ghost env = dec@;
        proof {
            lemma_enveloped_len(m.env, raw, raw.len());
            assert(m1 =~= after_envelope(after_decimate(m, samples@, frames as int), raw));
        }
        let mut i: usize = 0;
        while i < dec.len()
            invariant
                i <= dec@.len(),
                dec@ == env,
                self.wf(),
                self.model() == extended(m1, env.take(i as int)),
            decreases dec@.len() - i,
        {
            self.envelope.push(dec[i]);
            i += 1;
            assert(self.model() =~= extended(m1, env.take(i as int)));
        }
        assert(env.take(env.len() as int) =~= env);
        let ghost m2 = self.model();
        let all: usize = self.envelope.len();
        self.update_beat_pos(all);
        let ghost m3 = self.model();
        let lags: usize = self.correlogram.lags();
        let open: usize = all - self.correlated;
        let n: usize = if open > lags {
            open - lags
        } else {
            0
        };
        assert(n == excess(m3));
        self.update_x_corr(n);
    }

    /// Reads the beats per minute off what has been heard of the stream, in
    /// thousandths of a beat per minute; zero where no beat shows.
    ///
    /// The reading is taken at the lag at which the sums are highest, so it
    /// is nothing or lies within half a lag of the range of the beats looked
    /// for.
    pub fn get_bpm(&mut self) -> (r: u32)
        requires
            old(self).wf(),
        ensures
            final(self).wf(),
            final(self).model() == after_remove_bias(old(self).model()),
            r == bpm_reading(old(self).model()),
            r == 0 || (min_int(
                crate::xcorr::tempo_of_lag(
                    2 * (lag_count(old(self).model().sample_rate) - 1) + 1,
                    old(self).model().sample_rate,
                    block_frames(old(self).model().sample_rate),
                ),
                u32::MAX as int,
            ) <= r <= crate::xcorr::tempo_of_lag(
                2 * crate::arith::max_int(lag_start(old(self).model().sample_rate), 1) - 1,
                old(self).model().sample_rate,
                block_frames(old(self).model().sample_rate),
            )),
    {
        self.remove_bias();
        let by: u32 = block_size(self.sample_rate);
        proof {
            crate::xcorr::lemma_tempo_of_bounds(
                self.correlogram@,
                self.correlogram.first_lag(),
                self.sample_rate as int,
                by as int,
            );
        }
        self.correlogram.tempo(self.sample_rate, by)
    }

    /// The number of beats found so far, whatever `max_num` is. Where it
    /// does not fit the result's type, its largest value is returned.
    pub fn query_size(&mut self, max_num: i32) -> (r: i32)
        requires
            old(self).wf(),
        ensures
            final(self).wf(),
            final(self).model() == old(self).model(),
            r == min_int(old(self).model().beats.len() as int, i32::MAX as int),
    {
        let n: usize = self.beats.len();
        if n > i32::MAX as usize {
            i32::MAX
        } else {
            n as i32
        }
    }

    /// Copies the places of the first beats found into `pos` and their
    /// strengths into `values`, as many as there are, but no more than
    /// `max_num` and no more than either has room for. Returns the number of
    /// beats copied.
    ///
    /// Weak beats are handed out with the strong: the caller may leave out
    /// those whose strength is low. What lies in `pos` and `values` behind the
    /// beats copied stays untouched.
    pub fn get_beats(&mut self, pos: &mut [u64], values: &mut [i16], max_num: i32) -> (r: i32)
        requires
            old(self).wf(),
        ensures
            final(self).wf(),
            final(self).model() == old(self).model(),
            r == beats_copied(
                old(self).model().beats.len() as int,
                old(pos)@.len() as int,
                old(values)@.len() as int,
                max_num as int,
            ),
            final(pos)@.len() == old(pos)@.len(),
            final(values)@.len() == old(values)@.len(),
            forall|i: int|
                0 <= i < r ==> final(pos)@[i] == old(self).model().beats[i].position,
            forall|i: int|
                0 <= i < r ==> final(values)@[i] == old(self).model().beats[i].strength,
            forall|i: int| r <= i < old(pos)@.len() ==> final(pos)@[i] == old(pos)@[i],
            forall|i: int| r <= i < old(values)@.len() ==> final(values)@[i] == old(values)@[i],
    {
        let mut n: usize = self.beats.len();
        if pos.len() < n {
            n = pos.len();
        }
        if values.len() < n {
            n = values.len();
        }
        if max_num <= 0 {
            n = 0;
        } else if (max_num as usize) < n {
            n = max_num as usize;
        }
        let mut i: usize = 0;
        while i < n
            invariant
                i <= n,
                n <= self.beats@.len(),
                n <= pos@.len(),
                n <= values@.len(),
                pos@.len() == old(pos)@.len(),
                values@.len() == old(values)@.len(),
                *self == *old(self),
                forall|j: int|
                    0 <= j < i ==> pos@[j] == self.beats@[j].position && values@[j]
                        == self.beats@[j].strength,
                forall|j: int| i <= j < pos@.len() ==> pos@[j] == old(pos)@[j],
                forall|j: int| i <= j < values@.len() ==> values@[j] == old(values)@[j],
            decreases n - i,
        {
            let b: Beat = self.beats[i];
            pos[i] = b.position;
            values[i] = b.strength;
            i += 1;
        }
        n as i32
    }

    /// The beats found so far, in the order in which they came.
    pub fn beats(&self) -> (r: Vec<Beat>)
        ensures
            r@ == self.model().beats,
    {
        let mut out: Vec<Beat> = Vec::new();
        let mut i: usize = 0;
        while i < self.beats.len()
            invariant
                i <= self.beats@.len(),
                out@ == self.beats@.take(i as int),
            decreases self.beats@.len() - i,
        {
            out.push(self.beats[i]);
            i += 1;
            assert(out@ =~= self.beats@.take(i as int));
        }
        assert(self.beats@.take(self.beats@.len() as int) =~= self.beats@);
        out
    }
}

/// The number of beats that are copied: as many as there are, but no more
/// than asked for and no more than either of the two places has room for.
pub open spec fn beats_copied(found: int, room_pos: int, room_values: int, max_num: int) -> int {
    if max_num <= 0 {
        0
    } else {
        min_int(min_int(min_int(found, room_pos), room_values), max_num)
    }
}

impl Default for BPMDetect {
    /// A detector for a stereo stream of 44100 frames per second.
    fn default() -> (r: BPMDetect)
        ensures
            r.wf(),
            r.model() == bpm_start(2, 44100),
    {
        let by: u32 = block_size(44100);
        let lags: usize = count_lags(44100);
        let start: usize = first_lag(44100);
        let d = BPMDetect {
            channels: 2,
            sample_rate: 44100,
            decimator: Decimator::with_block(by, 2),
            follower: EnvelopeFollower::new(),
            prev_env: 0,
            cur_env: 0,
            index: 0,
            envelope: Vec::new(),
            scanned: 0,
            correlated: 0,
            correlogram: Correlogram::with_lags(start, lags),
            beats: Vec::new(),
        };
        assert(d.model().xcorr =~= bpm_start(2, 44100).xcorr);
        assert(d.model() =~= bpm_start(2, 44100));
        d
    }
}

} // verus!
