//! What holds of the beat detector whatever the stream.

use vstd::prelude::*;
use crate::arith::lemma_take_frames;
use crate::bpm_detect::{
    after_decimate,
    after_envelope,
    after_scan,
    after_xcorr,
    beats_found,
    block_frames,
    bpm_ok,
    bpm_reading,
    bpm_start,
    decimate_output,
    excess,
    extended,
    heard,
    lag_start,
    lemma_scan_after,
    lemma_scan_silence,
    scan_after,
    scan_count,
    uncorrelated,
    xcorr_count,
    Beat,
    BpmModel,
    ScanState,
};
use crate::decimate::{
    block_after,
    decimated,
    frame_sum,
    lemma_block_after,
    lemma_decimated_silence,
    min_frames,
    BlockState,
};
use crate::envelope::{
    env_after,
    env_silent,
    enveloped,
    lemma_enveloped_len,
    lemma_enveloped_silence,
    EnvState,
};
use crate::xcorr::{
    accumulated,
    capped,
    lag_sum,
    lemma_lag_sum_silence,
    lemma_tempo_of_silence,
    sums_ok,
    XCORR_CAP,
};

verus! {

/// Whether the detector has heard nothing but silence.
pub open spec fn bpm_silent(m: BpmModel) -> bool {
    &&& m.block.sum == 0
    &&& env_silent(m.env)
    &&& m.scan.cur <= 0
    &&& (forall|i: int| 0 <= i < m.envelope.len() ==> m.envelope[i] == 0)
    &&& (forall|i: int| 0 <= i < m.xcorr.len() ==> m.xcorr[i] == 0)
    &&& m.beats.len() == 0
}

/// The steps of `heard` keep the state of the detector in order, and leave
/// all of the envelope searched for beats.
pub proof fn lemma_heard_ok(m: BpmModel, samples: Seq<i16>)
    requires
        bpm_ok(m),
    ensures
        bpm_ok(heard(m, samples)),
        heard(m, samples).scanned == heard(m, samples).envelope.len(),
        heard(m, samples).channels == m.channels,
        heard(m, samples).sample_rate == m.sample_rate,
{
    let frames = (samples.len() as int) / m.channels;
    let by = block_frames(m.sample_rate);
    let k = min_frames(frames, samples.len() as int, m.channels) as nat;
    lemma_block_after(m.block, by, m.channels, samples, k);
    let dec = decimate_output(m, samples, frames);
    lemma_enveloped_len(m.env, dec, dec.len());
    let m1 = after_envelope(after_decimate(m, samples, frames), dec);
    let env = enveloped(m.env, dec, dec.len());
    let m2 = extended(m1, env);
    lemma_scan_after(
        m2.scan,
        m2.envelope,
        m2.scanned,
        scan_count(m2, m2.envelope.len() as int) as nat,
    );
    crate::bpm_detect::lemma_beats_in_order(
        m2.beats,
        m2.scan,
        by,
        m2.envelope,
        m2.scanned,
        scan_count(m2, m2.envelope.len() as int) as nat,
    );
    let m3 = after_scan(m2, m2.envelope.len() as int);
    lemma_accumulated_ok(
        m3.xcorr,
        lag_start(m.sample_rate),
        uncorrelated(m3),
        xcorr_count(m3, excess(m3)) as nat,
    );
}

/// The beats per minute that a detector shows are nothing, or lie within
/// half a lag of the tempi of its longest lag and its first: no reading
/// falls outside the range of the beats looked for by more than that.
pub proof fn lemma_reading_bounds(m: BpmModel)
    requires
        bpm_ok(m),
    ensures
        bpm_reading(m) == 0 || (crate::arith::min_int(
            crate::xcorr::tempo_of_lag(
                2 * (crate::bpm_detect::lag_count(m.sample_rate) - 1) + 1,
                m.sample_rate,
                block_frames(m.sample_rate),
            ),
            u32::MAX as int,
        ) <= bpm_reading(m) <= crate::xcorr::tempo_of_lag(
            2 * crate::arith::max_int(lag_start(m.sample_rate), 1) - 1,
            m.sample_rate,
            block_frames(m.sample_rate),
        )),
        0 <= bpm_reading(m) <= u32::MAX,
{
    let start = lag_start(m.sample_rate);
    let d = crate::xcorr::debiased(m.xcorr, start);
    crate::xcorr::lemma_floor_of(m.xcorr, start, m.xcorr.len() as int);
    assert forall|i: int| 0 <= i < d.len() implies #[trigger] d[i] <= XCORR_CAP by {
        assert(m.xcorr[i] <= XCORR_CAP);
    }
    assert(sums_ok(d, start));
    crate::xcorr::lemma_tempo_of_bounds(d, start, m.sample_rate, block_frames(m.sample_rate));
}

/// Adding to the sums keeps them in order.
pub proof fn lemma_accumulated_ok(xc: Seq<u64>, start: int, buf: Seq<i16>, n: nat)
    requires
        sums_ok(xc, start),
    ensures
        sums_ok(accumulated(xc, start, buf, n), start),
        accumulated(xc, start, buf, n).len() == xc.len(),
{
    assert forall|i: int| 0 <= i < xc.len() implies #[trigger] accumulated(xc, start, buf, n)[i]
        <= XCORR_CAP by {
        assert(xc[i] <= XCORR_CAP);
    }
}

/// A detector that has heard nothing but silence and hears more of it has
/// still heard nothing but silence.
pub proof fn lemma_silence_stays(m: BpmModel, samples: Seq<i16>)
    requires
        bpm_ok(m),
        bpm_silent(m),
        forall|i: int| 0 <= i < samples.len() ==> samples[i] == 0,
    ensures
        bpm_silent(heard(m, samples)),
{
    let frames = (samples.len() as int) / m.channels;
    let by = block_frames(m.sample_rate);
    let k = min_frames(frames, samples.len() as int, m.channels) as nat;
    vstd::arithmetic::div_mod::lemma_fundamental_div_mod(samples.len() as int, m.channels);
    vstd::arithmetic::div_mod::lemma_mod_bound(samples.len() as int, m.channels);
    assert(k * m.channels <= samples.len()) by (nonlinear_arith)
        requires
            k <= frames,
            frames >= 0,
            samples.len() == m.channels * frames + (samples.len() as int) % m.channels,
            0 <= (samples.len() as int) % m.channels,
            m.channels >= 1,
    {
        assert(k * m.channels <= frames * m.channels);
    }
    lemma_decimated_silence(m.block, by, m.channels, samples, k);
    lemma_block_after(m.block, by, m.channels, samples, k);
    let dec = decimate_output(m, samples, frames);
    lemma_enveloped_silence(m.env, dec, dec.len());
    let m1 = after_envelope(after_decimate(m, samples, frames), dec);
    let env = enveloped(m.env, dec, dec.len());
    let m2 = extended(m1, env);
    let all = scan_count(m2, m2.envelope.len() as int) as nat;
    lemma_scan_silence(m2.scan, by, m2.envelope, m2.scanned, all);
    let m3 = after_scan(m2, m2.envelope.len() as int);
    let n = xcorr_count(m3, excess(m3)) as nat;
    let rest = uncorrelated(m3);
    let m4 = after_xcorr(m3, excess(m3));
    assert forall|i: int| 0 <= i < m4.xcorr.len() implies m4.xcorr[i] == 0 by {
        assert forall|t: int| 0 <= t < n implies rest[t] == 0 by {
            assert(rest[t] == m3.envelope[m3.correlated + t]);
        }
        lemma_lag_sum_silence(rest, i, n);
        assert(m3.xcorr[i] == 0);
    }
}

/// A detector that has heard nothing but silence shows no beat: what it
/// reads as beats per minute is zero.
pub proof fn lemma_silence_reads_zero(m: BpmModel)
    requires
        bpm_ok(m),
        bpm_silent(m),
    ensures
        bpm_reading(m) == 0,
{
    lemma_tempo_of_silence(
        m.xcorr,
        lag_start(m.sample_rate),
        m.sample_rate,
        block_frames(m.sample_rate),
    );
}

/// A detector that has heard nothing has heard nothing but silence.
pub proof fn lemma_start_silent(channels: int, sample_rate: int)
    requires
        1 <= channels <= 16,
        1 <= sample_rate <= 1000000,
    ensures
        bpm_silent(bpm_start(channels, sample_rate)),
        steady(bpm_start(channels, sample_rate)),
{
    assert(0 * channels == 0) by (nonlinear_arith);
    let by = block_frames(sample_rate);
    assert(by >= 1);
    assert(0 <= (60 * sample_rate) / (by * 45)) by {
        assert(by * 45 >= 1);
        vstd::arithmetic::div_mod::lemma_div_pos_is_pos(60 * sample_rate, by * 45);
    }
    assert(0 <= (60 * sample_rate) / (by * 250)) by {
        assert(by * 250 >= 1);
        vstd::arithmetic::div_mod::lemma_div_pos_is_pos(60 * sample_rate, by * 250);
    }
}

/// The sum of a frame reads that frame alone.
pub proof fn lemma_frame_sum_local(a: Seq<i16>, b: Seq<i16>, ch: int, fa: int, fb: int, k: nat)
    requires
        0 <= fa * ch,
        fa * ch + k <= a.len(),
        0 <= fb * ch,
        fb * ch + k <= b.len(),
        a.subrange(fa * ch, fa * ch + k) == b.subrange(fb * ch, fb * ch + k),
    ensures
        frame_sum(a, ch, fa, k) == frame_sum(b, ch, fb, k),
    decreases k,
{
    if k > 0 {
        let sa = a.subrange(fa * ch, fa * ch + k);
        let sb = b.subrange(fb * ch, fb * ch + k);
        assert(sa[k - 1] == sb[k - 1]);
        assert(a.subrange(fa * ch, fa * ch + k - 1) =~= sa.take(k - 1));
        assert(b.subrange(fb * ch, fb * ch + k - 1) =~= sb.take(k - 1));
        lemma_frame_sum_local(a, b, ch, fa, fb, (k - 1) as nat);
    }
}

/// The decimation of the first frames of a stream does not rest on what
/// comes behind them.
pub proof fn lemma_decimated_local(
    start: BlockState,
    by: int,
    ch: int,
    a: Seq<i16>,
    b: Seq<i16>,
    n: nat,
)
    requires
        ch >= 1,
        n * ch <= a.len(),
    ensures
        block_after(start, by, ch, a + b, n) == block_after(start, by, ch, a, n),
        decimated(start, by, ch, a + b, n) == decimated(start, by, ch, a, n),
    decreases n,
{
    if n > 0 {
        assert((n - 1) * ch + ch == n * ch) by (nonlinear_arith);
        assert(0 <= (n - 1) * ch) by (nonlinear_arith)
            requires
                n >= 1,
                ch >= 1,
        ;
        lemma_decimated_local(start, by, ch, a, b, (n - 1) as nat);
        assert((a + b).subrange((n - 1) * ch, (n - 1) * ch + ch) =~= a.subrange(
            (n - 1) * ch,
            (n - 1) * ch + ch,
        ));
        lemma_frame_sum_local(a + b, a, ch, n - 1, n - 1, ch as nat);
    }
}

/// The decimation does not care how the stream is cut: a stream of two parts,
/// of which the first is whole frames, is decimated as the first part and
/// then, from where that left the block, the second.
pub proof fn lemma_decimated_in_pieces(
    start: BlockState,
    by: int,
    ch: int,
    a: Seq<i16>,
    b: Seq<i16>,
    na: nat,
    nb: nat,
)
    requires
        ch >= 1,
        na * ch == a.len(),
        nb * ch <= b.len(),
    ensures
        block_after(start, by, ch, a + b, na + nb) == block_after(
            block_after(start, by, ch, a, na),
            by,
            ch,
            b,
            nb,
        ),
        decimated(start, by, ch, a + b, na + nb) == decimated(start, by, ch, a, na) + decimated(
            block_after(start, by, ch, a, na),
            by,
            ch,
            b,
            nb,
        ),
    decreases nb,
{
    let mid = block_after(start, by, ch, a, na);
    if nb == 0 {
        lemma_decimated_local(start, by, ch, a, b, na);
        assert(decimated(start, by, ch, a, na) + Seq::<i16>::empty() =~= decimated(
            start,
            by,
            ch,
            a,
            na,
        ));
    } else {
        assert((nb - 1) * ch + ch == nb * ch) by (nonlinear_arith);
        assert(0 <= (nb - 1) * ch) by (nonlinear_arith)
            requires
                nb >= 1,
                ch >= 1,
        ;
        lemma_decimated_in_pieces(start, by, ch, a, b, na, (nb - 1) as nat);
        assert((na + nb - 1) * ch == na * ch + (nb - 1) * ch) by (nonlinear_arith);
        assert((a + b).subrange((na + nb - 1) * ch, (na + nb - 1) * ch + ch) =~= b.subrange(
            (nb - 1) * ch,
            (nb - 1) * ch + ch,
        ));
        lemma_frame_sum_local(a + b, b, ch, na + nb - 1, nb - 1, ch as nat);
        let d1 = decimated(start, by, ch, a, na);
        let d2 = decimated(mid, by, ch, b, (nb - 1) as nat);
        let before = block_after(mid, by, ch, b, (nb - 1) as nat);
        if before.count + 1 >= by {
            let v = ((before.sum + frame_sum(b, ch, nb - 1, ch as nat)) / (by * ch)) as i16;
            assert((d1 + d2).push(v) =~= d1 + d2.push(v));
        }
    }
}

/// The envelope does not care how the stream is cut.
pub proof fn lemma_enveloped_in_pieces(st: EnvState, x: Seq<i16>, y: Seq<i16>, n: nat)
    requires
        n <= y.len(),
    ensures
        env_after(st, x + y, x.len() + n) == env_after(env_after(st, x, x.len()), y, n),
        enveloped(st, x + y, x.len() + n) == enveloped(st, x, x.len()) + enveloped(
            env_after(st, x, x.len()),
            y,
            n,
        ),
    decreases n,
{
    if n == 0 {
        lemma_enveloped_local(st, x, y, x.len());
        assert(enveloped(st, x, x.len()) + Seq::<i16>::empty() =~= enveloped(st, x, x.len()));
    } else {
        lemma_enveloped_in_pieces(st, x, y, (n - 1) as nat);
        let e1 = enveloped(st, x, x.len());
        let mid = env_after(st, x, x.len());
        let e2 = enveloped(mid, y, (n - 1) as nat);
        let v = crate::envelope::env_value(env_after(mid, y, (n - 1) as nat), y[n - 1]) as i16;
        assert((x + y)[x.len() + n - 1] == y[n - 1]);
        assert((e1 + e2).push(v) =~= e1 + e2.push(v));
    }
}

/// The envelope of the first samples of a stream does not rest on what comes
/// behind them.
pub proof fn lemma_enveloped_local(st: EnvState, x: Seq<i16>, y: Seq<i16>, n: nat)
    requires
        n <= x.len(),
    ensures
        env_after(st, x + y, n) == env_after(st, x, n),
        enveloped(st, x + y, n) == enveloped(st, x, n),
    decreases n,
{
    if n > 0 {
        lemma_enveloped_local(st, x, y, (n - 1) as nat);
        assert((x + y)[n - 1] == x[n - 1]);
    }
}

/// The search for beats reads the samples that it is given and no others.
pub proof fn lemma_scan_local(
    st: ScanState,
    by: int,
    e1: Seq<i16>,
    from1: int,
    e2: Seq<i16>,
    from2: int,
    n: nat,
)
    requires
        0 <= from1,
        from1 + n <= e1.len(),
        0 <= from2,
        from2 + n <= e2.len(),
        e1.subrange(from1, from1 + n) == e2.subrange(from2, from2 + n),
    ensures
        scan_after(st, e1, from1, n) == scan_after(st, e2, from2, n),
        beats_found(st, by, e1, from1, n) == beats_found(st, by, e2, from2, n),
    decreases n,
{
    if n > 0 {
        let s1 = e1.subrange(from1, from1 + n);
        let s2 = e2.subrange(from2, from2 + n);
        assert(s1[n - 1] == s2[n - 1]);
        assert(e1.subrange(from1, from1 + n - 1) =~= s1.take(n - 1));
        assert(e2.subrange(from2, from2 + n - 1) =~= s2.take(n - 1));
        lemma_scan_local(st, by, e1, from1, e2, from2, (n - 1) as nat);
    }
}

/// The search for beats does not care how the stream is cut.
pub proof fn lemma_scan_in_pieces(st: ScanState, by: int, es: Seq<i16>, from: int, n1: nat, n2: nat)
    ensures
        scan_after(st, es, from, n1 + n2) == scan_after(
            scan_after(st, es, from, n1),
            es,
            from + n1,
            n2,
        ),
        beats_found(st, by, es, from, n1 + n2) == beats_found(st, by, es, from, n1) + beats_found(
            scan_after(st, es, from, n1),
            by,
            es,
            from + n1,
            n2,
        ),
    decreases n2,
{
    let mid = scan_after(st, es, from, n1);
    let b1 = beats_found(st, by, es, from, n1);
    if n2 == 0 {
        assert(b1 + Seq::<Beat>::empty() =~= b1);
    } else {
        lemma_scan_in_pieces(st, by, es, from, n1, (n2 - 1) as nat);
        let b2 = beats_found(mid, by, es, from + n1, (n2 - 1) as nat);
        let before = scan_after(mid, es, from + n1, (n2 - 1) as nat);
        let beat = crate::bpm_detect::beat_here(before, by);
        assert((b1 + b2).push(beat) =~= b1 + b2.push(beat));
    }
}

/// The sums of a correlation read the buffer as far as the last partner.
pub proof fn lemma_lag_sum_local(b1: Seq<i16>, b2: Seq<i16>, lag: int, n: nat)
    requires
        lag >= 0,
        forall|i: int| 0 <= i < n + lag ==> b1[i] == b2[i],
    ensures
        lag_sum(b1, lag, n) == lag_sum(b2, lag, n),
    decreases n,
{
    if n > 0 {
        lemma_lag_sum_local(b1, b2, lag, (n - 1) as nat);
    }
}

/// The sum over the first samples and the sum over those behind them make
/// the sum over all.
pub proof fn lemma_lag_sum_in_pieces(buf: Seq<i16>, lag: int, n1: nat, n2: nat)
    requires
        lag >= 0,
        n1 + n2 + lag <= buf.len(),
    ensures
        lag_sum(buf, lag, n1 + n2) == lag_sum(buf, lag, n1) + lag_sum(buf.skip(n1 as int), lag, n2),
    decreases n2,
{
    if n2 > 0 {
        lemma_lag_sum_in_pieces(buf, lag, n1, (n2 - 1) as nat);
        let s = buf.skip(n1 as int);
        assert(s[n2 - 1] == buf[n1 + n2 - 1]);
        assert(s[n2 - 1 + lag] == buf[n1 + n2 - 1 + lag]);
    }
}

/// The sum of products of samples that are not below nothing is not below
/// nothing.
pub proof fn lemma_lag_sum_positive(buf: Seq<i16>, lag: int, n: nat)
    requires
        lag >= 0,
        n + lag <= buf.len(),
        forall|i: int| 0 <= i < buf.len() ==> buf[i] >= 0,
    ensures
        lag_sum(buf, lag, n) >= 0,
    decreases n,
{
    if n > 0 {
        lemma_lag_sum_positive(buf, lag, (n - 1) as nat);
        let x = buf[n - 1] as int;
        let y = buf[n - 1 + lag] as int;
        assert(x * y >= 0) by (nonlinear_arith)
            requires
                x >= 0,
                y >= 0,
        ;
    }
}

/// A sum that is cut off and added to and cut off again is the sum of all,
/// cut off once.
pub proof fn lemma_capped_twice(x: int, s1: int, s2: int)
    requires
        0 <= x,
        0 <= s1,
        0 <= s2,
    ensures
        capped(capped(x + s1) + s2) == capped(x + s1 + s2),
{
}

/// The detector stands between two blocks of a stream: all of the envelope
/// has been searched for beats, and none of it lies below nothing.
pub open spec fn steady(m: BpmModel) -> bool {
    &&& bpm_ok(m)
    &&& m.scanned == m.envelope.len()
    &&& (forall|i: int| 0 <= i < m.envelope.len() ==> m.envelope[i] >= 0)
}

/// The envelope that a block adds to the envelope of the stream.
pub open spec fn new_envelope(m: BpmModel, x: Seq<i16>) -> Seq<i16> {
    let dec = decimate_output(m, x, (x.len() as int) / m.channels);
    enveloped(m.env, dec, dec.len())
}

/// The number of samples at the head of a buffer that have a partner at
/// every lag: all but as many as there are lags.
pub open spec fn surplus(len: int, lags: int) -> int {
    if len > lags {
        len - lags
    } else {
        0
    }
}

/// The envelope only grows: what a block leaves of the envelope is the
/// envelope before it, followed by the envelope of the block. The beats
/// found before stay as they are, and the marks of what has been searched and
/// correlated never move back.
pub proof fn lemma_envelope_grows(m: BpmModel, x: Seq<i16>)
    requires
        bpm_ok(m),
    ensures
        heard(m, x).envelope == m.envelope + new_envelope(m, x),
        heard(m, x).envelope.len() >= m.envelope.len(),
        heard(m, x).envelope.take(m.envelope.len() as int) == m.envelope,
        heard(m, x).beats.len() >= m.beats.len(),
        heard(m, x).beats.take(m.beats.len() as int) == m.beats,
        heard(m, x).scanned >= m.scanned,
        heard(m, x).correlated >= m.correlated,
{
    lemma_heard_ok(m, x);
    let h = heard(m, x);
    assert(h.envelope.take(m.envelope.len() as int) =~= m.envelope);
    assert(h.beats.take(m.beats.len() as int) =~= m.beats);
}

/// A new detector stands between two blocks, and so does every detector
/// after a block.
pub proof fn lemma_steady(m: BpmModel, samples: Seq<i16>)
    requires
        steady(m),
    ensures
        steady(heard(m, samples)),
{
    lemma_heard_ok(m, samples);
    let frames = (samples.len() as int) / m.channels;
    let dec = decimate_output(m, samples, frames);
    lemma_enveloped_len(m.env, dec, dec.len());
    let env = enveloped(m.env, dec, dec.len());
    let h = heard(m, samples);
    assert(h.envelope == m.envelope + env);
    assert forall|i: int| 0 <= i < h.envelope.len() implies h.envelope[i] >= 0 by {
        if i >= m.envelope.len() {
            assert(h.envelope[i] == env[i - m.envelope.len()]);
        }
    }
}

/// What a block leaves of the detector, part by part.
pub proof fn lemma_heard_parts(m: BpmModel, x: Seq<i16>)
    requires
        steady(m),
    ensures
        heard(m, x).channels == m.channels,
        heard(m, x).sample_rate == m.sample_rate,
        heard(m, x).block == block_after(
            m.block,
            block_frames(m.sample_rate),
            m.channels,
            x,
            ((x.len() as int) / m.channels) as nat,
        ),
        heard(m, x).env == env_after(
            m.env,
            decimate_output(m, x, (x.len() as int) / m.channels),
            decimate_output(m, x, (x.len() as int) / m.channels).len(),
        ),
        heard(m, x).envelope == m.envelope + new_envelope(m, x),
        heard(m, x).scan == scan_after(
            m.scan,
            m.envelope + new_envelope(m, x),
            m.envelope.len() as int,
            new_envelope(m, x).len(),
        ),
        heard(m, x).beats == m.beats + beats_found(
            m.scan,
            block_frames(m.sample_rate),
            m.envelope + new_envelope(m, x),
            m.envelope.len() as int,
            new_envelope(m, x).len(),
        ),
        heard(m, x).xcorr == accumulated(
            m.xcorr,
            lag_start(m.sample_rate),
            (m.envelope + new_envelope(m, x)).skip(m.correlated),
            surplus(
                (m.envelope + new_envelope(m, x)).skip(m.correlated).len() as int,
                m.xcorr.len() as int,
            ) as nat,
        ),
        heard(m, x).correlated == m.correlated + surplus(
            (m.envelope + new_envelope(m, x)).skip(m.correlated).len() as int,
            m.xcorr.len() as int,
        ),
        heard(m, x).scanned == heard(m, x).envelope.len(),
        heard(m, x).xcorr.len() == m.xcorr.len(),
        0 <= (x.len() as int) / m.channels,
{
    lemma_heard_ok(m, x);
    vstd::arithmetic::div_mod::lemma_div_pos_is_pos(x.len() as int, m.channels);
}

/// The correlation does not care how the envelope is cut: to correlate what
/// of a buffer has a partner at every lag, put more envelope behind the rest
/// and do the same again is to put the envelope behind it first.
pub proof fn lemma_accumulated_in_pieces(
    xc: Seq<u64>,
    start: int,
    buf_a: Seq<i16>,
    env_b: Seq<i16>,
)
    requires
        sums_ok(xc, start),
        forall|i: int| 0 <= i < buf_a.len() ==> buf_a[i] >= 0,
        forall|i: int| 0 <= i < env_b.len() ==> env_b[i] >= 0,
    ensures
        surplus((buf_a + env_b).len() as int, xc.len() as int) == surplus(
            buf_a.len() as int,
            xc.len() as int,
        ) + surplus(
            (buf_a.skip(surplus(buf_a.len() as int, xc.len() as int)) + env_b).len() as int,
            xc.len() as int,
        ),
        accumulated(
            xc,
            start,
            buf_a + env_b,
            surplus((buf_a + env_b).len() as int, xc.len() as int) as nat,
        ) == accumulated(
            accumulated(
                xc,
                start,
                buf_a,
                surplus(buf_a.len() as int, xc.len() as int) as nat,
            ),
            start,
            buf_a.skip(surplus(buf_a.len() as int, xc.len() as int)) + env_b,
            surplus(
                (buf_a.skip(surplus(buf_a.len() as int, xc.len() as int)) + env_b).len() as int,
                xc.len() as int,
            ) as nat,
        ),
{
    let lags = xc.len() as int;
    let n1 = surplus(buf_a.len() as int, lags);
    let buf_b = buf_a.skip(n1) + env_b;
    let n2 = surplus(buf_b.len() as int, lags);
    let buf_c = buf_a + env_b;
    let n = surplus(buf_c.len() as int, lags);
    assert(n == n1 + n2);
    assert(buf_c.skip(n1) =~= buf_b);
    let xc_a = accumulated(xc, start, buf_a, n1 as nat);
    let left = accumulated(xc, start, buf_c, n as nat);
    let right = accumulated(xc_a, start, buf_b, n2 as nat);
    assert forall|i: int| 0 <= i < buf_b.len() implies buf_b[i] >= 0 by {
        if i >= buf_a.len() - n1 {
            assert(buf_b[i] == env_b[i - (buf_a.len() - n1)]);
        } else {
            assert(buf_b[i] == buf_a[i + n1]);
        }
    }
    assert forall|lag: int| 0 <= lag < lags implies left[lag] == right[lag] by {
        if lag >= start {
            assert(xc[lag] <= XCORR_CAP);
            let s1 = lag_sum(buf_a, lag, n1 as nat);
            let s2 = lag_sum(buf_b, lag, n2 as nat);
            if n1 > 0 {
                lemma_lag_sum_positive(buf_a, lag, n1 as nat);
                lemma_lag_sum_local(buf_c, buf_a, lag, n1 as nat);
            }
            if n2 > 0 {
                lemma_lag_sum_positive(buf_b, lag, n2 as nat);
            }
            if n > 0 {
                lemma_lag_sum_in_pieces(buf_c, lag, n1 as nat, n2 as nat);
            }
            assert(lag_sum(buf_c, lag, n as nat) == s1 + s2);
            let w = crate::xcorr::windows_with(lags, lag);
            assert(w * (s1 + s2) == w * s1 + w * s2 && w * s1 >= 0 && w * s2 >= 0)
                by (nonlinear_arith)
                requires
                    w >= 1,
                    s1 >= 0,
                    s2 >= 0,
            ;
            lemma_capped_twice(xc[lag] as int, w * s1, w * s2);
        }
    }
    assert(left =~= right);
}

/// The search for beats does not care how the envelope is cut.
pub proof fn lemma_beats_in_pieces(
    st: ScanState,
    by: int,
    old_env: Seq<i16>,
    env_a: Seq<i16>,
    env_b: Seq<i16>,
)
    ensures
        scan_after(
            st,
            old_env + (env_a + env_b),
            old_env.len() as int,
            env_a.len() + env_b.len(),
        ) == scan_after(
            scan_after(st, old_env + env_a, old_env.len() as int, env_a.len()),
            (old_env + env_a) + env_b,
            (old_env.len() + env_a.len()) as int,
            env_b.len(),
        ),
        beats_found(
            st,
            by,
            old_env + (env_a + env_b),
            old_env.len() as int,
            env_a.len() + env_b.len(),
        ) == beats_found(st, by, old_env + env_a, old_env.len() as int, env_a.len())
            + beats_found(
            scan_after(st, old_env + env_a, old_env.len() as int, env_a.len()),
            by,
            (old_env + env_a) + env_b,
            (old_env.len() + env_a.len()) as int,
            env_b.len(),
        ),
{
    let base = old_env.len() as int;
    let buf_a = old_env + env_a;
    let buf_c = old_env + (env_a + env_b);
    assert(buf_c =~= buf_a + env_b);
    lemma_scan_in_pieces(st, by, buf_c, base, env_a.len(), env_b.len());
    assert(buf_c.subrange(base, base + env_a.len()) =~= buf_a.subrange(
        base,
        base + env_a.len(),
    ));
    lemma_scan_local(st, by, buf_c, base, buf_a, base, env_a.len());
}

/// The frames of two blocks, of which the first is whole frames, are the
/// frames of the two as one.
pub proof fn lemma_frames_in_pieces(a: Seq<i16>, b: Seq<i16>, ch: int)
    requires
        ch >= 1,
        a.len() % (ch as nat) == 0,
    ensures
        ((a + b).len() as int) / ch == (a.len() as int) / ch + (b.len() as int) / ch,
        ((a.len() as int) / ch) * ch == a.len(),
        ((b.len() as int) / ch) * ch <= b.len(),
        0 <= (a.len() as int) / ch,
        0 <= (b.len() as int) / ch,
{
    let na = (a.len() as int) / ch;
    let nb = (b.len() as int) / ch;
    lemma_take_frames(a.len() as int, ch, na);
    vstd::arithmetic::div_mod::lemma_div_pos_is_pos(a.len() as int, ch);
    vstd::arithmetic::div_mod::lemma_div_pos_is_pos(b.len() as int, ch);
    vstd::arithmetic::div_mod::lemma_fundamental_div_mod(b.len() as int, ch);
    vstd::arithmetic::div_mod::lemma_mod_bound(b.len() as int, ch);
    assert(nb * ch <= b.len()) by (nonlinear_arith)
        requires
            b.len() == ch * nb + (b.len() as int) % ch,
            0 <= (b.len() as int) % ch,
    ;
    assert((a + b).len() == ch * (na + nb) + (b.len() as int) % ch) by (nonlinear_arith)
        requires
            (a + b).len() == a.len() + b.len(),
            a.len() == na * ch,
            b.len() == ch * nb + (b.len() as int) % ch,
    ;
    vstd::arithmetic::div_mod::lemma_fundamental_div_mod_converse(
        (a + b).len() as int,
        ch,
        na + nb,
        (b.len() as int) % ch,
    );
}

/// The envelope that two blocks add is the envelope that the two add as one.
pub proof fn lemma_envelope_in_pieces(m: BpmModel, a: Seq<i16>, b: Seq<i16>)
    requires
        steady(m),
        a.len() % (m.channels as nat) == 0,
    ensures
        new_envelope(m, a + b) == new_envelope(m, a) + new_envelope(heard(m, a), b),
        heard(heard(m, a), b).block == heard(m, a + b).block,
        heard(heard(m, a), b).env == heard(m, a + b).env,
        forall|i: int| 0 <= i < new_envelope(m, a).len() ==> new_envelope(m, a)[i] >= 0,
        forall|i: int|
            0 <= i < new_envelope(heard(m, a), b).len() ==> new_envelope(heard(m, a), b)[i] >= 0,
{
    let ch = m.channels;
    let by = block_frames(m.sample_rate);
    lemma_frames_in_pieces(a, b, ch);
    let na = (a.len() as int) / ch;
    let nb = (b.len() as int) / ch;
    lemma_steady(m, a);
    lemma_heard_parts(m, a);
    let h1 = heard(m, a);
    lemma_heard_parts(h1, b);
    lemma_heard_parts(m, a + b);
    let dec_a = decimated(m.block, by, ch, a, na as nat);
    let blk_a = block_after(m.block, by, ch, a, na as nat);
    let dec_b = decimated(blk_a, by, ch, b, nb as nat);
    lemma_decimated_in_pieces(m.block, by, ch, a, b, na as nat, nb as nat);
    lemma_enveloped_in_pieces(m.env, dec_a, dec_b, dec_b.len());
    lemma_enveloped_len(m.env, dec_a, dec_a.len());
    lemma_enveloped_len(h1.env, dec_b, dec_b.len());
    assert(decimate_output(m, a, na) == dec_a);
    assert(decimate_output(h1, b, nb) == dec_b);
    assert(decimate_output(m, a + b, na + nb) == dec_a + dec_b);
}

/// The detector does not care how the stream is cut: to hear a block of whole
/// frames and then another is to hear the two as one. The envelope, the beats
/// found, the sums of the correlation and with them the beats per minute are
/// those of the stream, not of its blocks.
pub proof fn lemma_heard_in_pieces(m: BpmModel, a: Seq<i16>, b: Seq<i16>)
    requires
        steady(m),
        a.len() % (m.channels as nat) == 0,
    ensures
        heard(heard(m, a), b) == heard(m, a + b),
{
    let by = block_frames(m.sample_rate);
    let ws = lag_start(m.sample_rate);
    lemma_steady(m, a);
    let h1 = heard(m, a);
    lemma_heard_parts(m, a);
    lemma_heard_parts(h1, b);
    lemma_heard_parts(m, a + b);
    lemma_envelope_in_pieces(m, a, b);
    let env_a = new_envelope(m, a);
    let env_b = new_envelope(h1, b);
    let all_a = m.envelope + env_a;
    let buf_a = all_a.skip(m.correlated);
    let n1 = surplus(buf_a.len() as int, m.xcorr.len() as int);
    assert(m.envelope + (env_a + env_b) =~= all_a + env_b);
    assert forall|i: int| 0 <= i < buf_a.len() implies buf_a[i] >= 0 by {
        let t = i + m.correlated;
        assert(buf_a[i] == all_a[t]);
        if t >= m.envelope.len() {
            assert(all_a[t] == env_a[t - m.envelope.len()]);
        }
    }
    lemma_accumulated_in_pieces(m.xcorr, ws, buf_a, env_b);
    assert((all_a + env_b).skip(m.correlated) =~= buf_a + env_b);
    assert((all_a + env_b).skip(m.correlated + n1) =~= buf_a.skip(n1) + env_b);
    lemma_beats_in_pieces(m.scan, by, m.envelope, env_a, env_b);
    let left = heard(h1, b);
    let right = heard(m, a + b);
    assert(left.envelope =~= right.envelope);
    assert(left.beats =~= right.beats);
    assert(left.xcorr =~= right.xcorr);
    assert(left =~= right);
}

/// Whether the envelope comes back every `period` samples: each sample is
/// the sample one period before it.
#[verifier::opaque]
pub open spec fn comes_back(buf: Seq<i16>, period: int) -> bool {
    forall|i: int| 0 <= i && i + period < buf.len() ==> buf[i + period] == #[trigger] buf[i]
}

/// An envelope that comes back every `period` samples resembles itself at
/// every multiple of the period as much as at the period itself: the sums
/// of the products are the same.
pub proof fn lemma_lag_sum_of_multiple(buf: Seq<i16>, period: int, k: int, n: nat)
    requires
        1 <= period,
        1 <= k,
        n + k * period <= buf.len(),
        comes_back(buf, period),
    ensures
        lag_sum(buf, k * period, n) == lag_sum(buf, period, n),
    decreases n,
{
    assert(period <= k * period) by (nonlinear_arith)
        requires
            1 <= period,
            1 <= k,
    ;
    if n > 0 {
        lemma_lag_sum_of_multiple(buf, period, k, (n - 1) as nat);
        lemma_comes_back(buf, period, k, n - 1);
        lemma_comes_back(buf, period, 1, n - 1);
        assert(1 * period == period);
    }
}

/// In an envelope that comes back every `period` samples, the sample `k`
/// periods on is the sample itself.
proof fn lemma_comes_back(buf: Seq<i16>, period: int, k: int, i: int)
    requires
        1 <= period,
        0 <= k,
        0 <= i,
        i + k * period < buf.len(),
        comes_back(buf, period),
    ensures
        buf[i + k * period] == buf[i],
    decreases k,
{
    if k == 0 {
        assert(k * period == 0) by (nonlinear_arith)
            requires
                k == 0,
        ;
    } else {
        assert(k * period == (k - 1) * period + period) by (nonlinear_arith);
        assert(0 <= (k - 1) * period) by (nonlinear_arith)
            requires
                1 <= k,
                1 <= period,
        ;
        lemma_comes_back(buf, period, k - 1, i);
        let j = i + (k - 1) * period;
        reveal(comes_back);
        assert(buf[j + period] == buf[j]);
    }
}

/// A beat shows at its period and at every multiple of it, and highest at
/// the period itself: of an envelope that comes back every `period`
/// samples, the sum kept for the period is no lower than the sum kept for
/// any multiple of it, and higher where it is neither nothing nor cut off.
pub proof fn lemma_period_beats_multiples(
    start: int,
    lags: nat,
    buf: Seq<i16>,
    period: int,
    k: int,
    n: nat,
)
    requires
        0 <= start <= period,
        1 <= period,
        2 <= k,
        k * period < lags,
        n + lags <= buf.len(),
        forall|i: int| 0 <= i < buf.len() ==> buf[i] >= 0,
        comes_back(buf, period),
    ensures
        accumulated(Seq::new(lags, |i: int| 0u64), start, buf, n)[k * period] <= accumulated(
            Seq::new(lags, |i: int| 0u64),
            start,
            buf,
            n,
        )[period],
        0 < accumulated(Seq::new(lags, |i: int| 0u64), start, buf, n)[period] < XCORR_CAP
            ==> accumulated(Seq::new(lags, |i: int| 0u64), start, buf, n)[k * period]
            < accumulated(Seq::new(lags, |i: int| 0u64), start, buf, n)[period],
{
    let zero = Seq::new(lags, |i: int| 0u64);
    let far = k * period;
    assert(period < far) by (nonlinear_arith)
        requires
            1 <= period,
            2 <= k,
            far == k * period,
    ;
    lemma_lag_sum_of_multiple(buf, period, k, n);
    lemma_lag_sum_positive(buf, period, n);
    let s = lag_sum(buf, period, n);
    let near_w = crate::xcorr::windows_with(lags as int, period);
    let far_w = crate::xcorr::windows_with(lags as int, far);
    assert(far_w * s <= near_w * s) by (nonlinear_arith)
        requires
            far_w <= near_w,
            s >= 0,
    ;
    assert(s > 0 ==> far_w * s < near_w * s) by (nonlinear_arith)
        requires
            far_w < near_w,
    ;
    assert(0 <= far_w * s) by (nonlinear_arith)
        requires
            far_w >= 0,
            s >= 0,
    ;
    assert(s == 0 ==> near_w * s == 0) by (nonlinear_arith);
}

/// The search counts no more samples than it has seen.
pub proof fn lemma_scan_index(st: ScanState, es: Seq<i16>, from: int, n: nat)
    requires
        0 <= st.index,
    ensures
        scan_after(st, es, from, n).index <= st.index + n,
    decreases n,
{
    if n > 0 {
        lemma_scan_index(st, es, from, (n - 1) as nat);
    }
}

/// The beats of a stream lie inside it and in its order: of a stream heard
/// from its start, every beat stands at a frame of the stream, and none
/// before the beat found before it.
pub proof fn lemma_beats_inside(channels: int, sample_rate: int, x: Seq<i16>)
    requires
        1 <= channels <= 16,
        1 <= sample_rate <= 1000000,
    ensures
        forall|i: int|
            0 <= i < heard(bpm_start(channels, sample_rate), x).beats.len() ==> (#[trigger] heard(
                bpm_start(channels, sample_rate),
                x,
            ).beats[i]).position < (x.len() as int) / channels,
        forall|i: int, j: int|
            0 <= i <= j < heard(bpm_start(channels, sample_rate), x).beats.len() ==> heard(
                bpm_start(channels, sample_rate),
                x,
            ).beats[i].position <= heard(bpm_start(channels, sample_rate), x).beats[j].position,
{
    let m = bpm_start(channels, sample_rate);
    lemma_start_silent(channels, sample_rate);
    lemma_heard_ok(m, x);
    lemma_heard_parts(m, x);
    let h = heard(m, x);
    let by = block_frames(sample_rate);
    let frames = (x.len() as int) / channels;
    vstd::arithmetic::div_mod::lemma_div_pos_is_pos(x.len() as int, channels);
    let dec = decimate_output(m, x, frames);
    crate::decimate::lemma_decimated_len(m.block, by, channels, x, frames as nat);
    lemma_enveloped_len(m.env, dec, dec.len());
    let env = new_envelope(m, x);
    assert(env.len() == frames / by);
    assert(m.envelope + env =~= env);
    lemma_scan_index(m.scan, m.envelope + env, 0, env.len());
    assert(h.scan.index <= frames / by);
    vstd::arithmetic::div_mod::lemma_fundamental_div_mod(frames, by);
    vstd::arithmetic::div_mod::lemma_mod_bound(frames, by);
    assert((h.scan.index - 1) * by < frames) by (nonlinear_arith)
        requires
            h.scan.index <= frames / by,
            frames == by * (frames / by) + frames % by,
            0 <= frames % by,
            by >= 1,
    {
        assert((h.scan.index - 1) * by <= (frames / by - 1) * by);
        assert((frames / by - 1) * by == by * (frames / by) - by);
    }
    assert forall|i: int| 0 <= i < h.beats.len() implies (#[trigger] h.beats[i]).position
        < frames by {
        assert(h.beats[i].position <= (h.scan.index - 1) * by);
    }
}

} // verus!
