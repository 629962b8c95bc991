//! The correlation of an envelope with itself, kept for each lag of a range,
//! and the tempo that is read off it.
//!
//! A beat that comes back every so many samples makes the envelope resemble
//! itself that many samples later: the sum of the products of each sample
//! with the sample one lag later is high at the lag of the beat's period.
//!
//! The correlation is short-term: it is taken inside a window twice as long
//! as the longest lag, and added up over every place of the window along the
//! envelope. A pair of samples that stand a lag apart lies in as many windows
//! as the window is longer than the lag, so the product of a pair counts the
//! less the longer the lag. A beat shows at its period and at every multiple
//! of it; the sum is highest at the period itself.

use vstd::prelude::*;
use crate::arith::min_int;

verus! {

/// The largest sum that is kept for a lag.
pub const XCORR_CAP: u64 = 1152921504606846976;

/// The largest number of lags.
pub const MAX_LAGS: usize = 4096;

/// The sum of `buf[i] * buf[i + lag]` over the first `n` indices `i`.
pub open spec fn lag_sum(buf: Seq<i16>, lag: int, n: nat) -> int
    decreases n,
{
    if n == 0 {
        0
    } else {
        lag_sum(buf, lag, (n - 1) as nat) + buf[n - 1] * buf[n - 1 + lag]
    }
}

/// A sum as it is kept: not below nothing and not above `XCORR_CAP`.
pub open spec fn capped(v: int) -> int {
    if v < 0 {
        0
    } else if v > XCORR_CAP {
        XCORR_CAP as int
    } else {
        v
    }
}

/// The number of samples at the head of a buffer of `len` samples that have a
/// partner at every one of `lags` lags, of which `n` at most are taken.
pub open spec fn usable(len: int, lags: int, n: int) -> int {
    if len >= lags {
        min_int(n, len - lags)
    } else {
        0
    }
}

/// The number of windows that hold both a sample and its partner at `lag`,
/// where there are `lags` lags and a window is twice as long.
pub open spec fn windows_with(lags: int, lag: int) -> int {
    2 * lags - lag
}

/// The sums after the first `n` samples of `buf` have been correlated with
/// their partners at each lag from `start` on: each product is added once
/// for every window that holds both partners.
pub open spec fn accumulated(xc: Seq<u64>, start: int, buf: Seq<i16>, n: nat) -> Seq<u64> {
    Seq::new(
        xc.len(),
        |lag: int|
            if lag >= start {
                capped(xc[lag] + windows_with(xc.len() as int, lag) * lag_sum(buf, lag, n)) as u64
            } else {
                xc[lag]
            },
    )
}

/// The smallest of the sums for the lags from `lo` up to `hi`; `XCORR_CAP`
/// where there is none.
pub open spec fn floor_of(xc: Seq<u64>, lo: int, hi: int) -> int
    decreases hi - lo,
{
    if hi <= lo {
        XCORR_CAP as int
    } else {
        min_int(floor_of(xc, lo, hi - 1), xc[hi - 1] as int)
    }
}

/// The sums with their smallest taken off each: a sum that rests on
/// every lag alike says nothing of a beat.
pub open spec fn debiased(xc: Seq<u64>, start: int) -> Seq<u64> {
    Seq::new(
        xc.len(),
        |lag: int|
            if lag >= start {
                (xc[lag] - floor_of(xc, start, xc.len() as int)) as u64
            } else {
                xc[lag]
            },
    )
}

/// The lag from `lo` to `hi` with the highest sum; among equals, the first.
pub open spec fn peak_upto(xs: Seq<u64>, lo: int, hi: int) -> int
    decreases hi - lo,
{
    if hi <= lo {
        lo
    } else {
        let b = peak_upto(xs, lo, hi - 1);
        if xs[hi] > xs[b] {
            hi
        } else {
            b
        }
    }
}

/// The sum before the peak at `p`; the peak's own where there is none.
pub open spec fn before_peak(xs: Seq<u64>, start: int, p: int) -> int {
    if p - 1 >= start {
        xs[p - 1] as int
    } else {
        xs[p] as int
    }
}

/// The sum behind the peak at `p`; the peak's own where there is none.
pub open spec fn behind_peak(xs: Seq<u64>, p: int) -> int {
    if p + 1 < xs.len() {
        xs[p + 1] as int
    } else {
        xs[p] as int
    }
}

/// How sharply the sums bend at the peak at `p`.
pub open spec fn bend(xs: Seq<u64>, start: int, p: int) -> int {
    2 * xs[p] - before_peak(xs, start, p) - behind_peak(xs, p)
}

/// The beats per minute, in thousandths, of a beat whose period is the lag
/// of the peak at `p`. The place of the peak between the lags is taken from
/// the parabola through the peak and its two neighbours; a stream of `rate`
/// frames per second decimated by `by` has `rate / by` lags per second.
pub open spec fn tempo_at(xs: Seq<u64>, start: int, p: int, rate: int, by: int) -> int {
    let e = bend(xs, start, p);
    let slope = behind_peak(xs, p) - before_peak(xs, start, p);
    if e > 0 && 2 * p * e + slope > 0 {
        (60000 * rate * (2 * e)) / (by * (2 * p * e + slope))
    } else {
        (60000 * rate) / (by * p)
    }
}

/// The beats per minute, in thousandths, that the sums show: the tempo at
/// the highest of the sums for the lags from `start` on, the first among
/// equals, and zero where the sums show no beat at all.
pub open spec fn tempo_of(xc: Seq<u64>, start: int, rate: int, by: int) -> int {
    if start < xc.len() {
        let p = peak_upto(xc, start, xc.len() - 1);
        if xc[p] == 0 || p == 0 {
            0
        } else {
            min_int(tempo_at(xc, start, p, rate, by), u32::MAX as int)
        }
    } else {
        0
    }
}

/// The beats per minute, in thousandths, of a beat whose period is `twice`
/// half lags.
pub open spec fn tempo_of_lag(twice: int, rate: int, by: int) -> int {
    (120000 * rate) / (by * twice)
}

/// What holds of the sums: there are no more than `MAX_LAGS` and none is
/// above `XCORR_CAP`.
pub open spec fn sums_ok(xc: Seq<u64>, start: int) -> bool {
    &&& 0 <= start <= xc.len() <= MAX_LAGS
    &&& forall|i: int| 0 <= i < xc.len() ==> #[trigger] xc[i] <= XCORR_CAP
}

/// A sum over `n` products lies within `n` times the largest product.
pub proof fn lemma_lag_sum_bounds(buf: Seq<i16>, lag: int, n: nat)
    ensures
        -1073741824 * n <= lag_sum(buf, lag, n) <= 1073741824 * n,
    decreases n,
{
    if n > 0 {
        lemma_lag_sum_bounds(buf, lag, (n - 1) as nat);
        crate::correlation::lemma_sample_product(buf[n - 1], buf[n - 1 + lag]);
    }
}

/// The sum over silence is nothing.
pub proof fn lemma_lag_sum_silence(buf: Seq<i16>, lag: int, n: nat)
    requires
        forall|i: int| 0 <= i < n ==> buf[i] == 0,
    ensures
        lag_sum(buf, lag, n) == 0,
    decreases n,
{
    if n > 0 {
        lemma_lag_sum_silence(buf, lag, (n - 1) as nat);
        assert(buf[n - 1] * buf[n - 1 + lag] == 0) by (nonlinear_arith)
            requires
                buf[n - 1] == 0,
        ;
    }
}

/// The smallest sum is one of the sums, or `XCORR_CAP` where there is none,
/// and no sum in the range lies below it.
pub proof fn lemma_floor_of(xc: Seq<u64>, lo: int, hi: int)
    requires
        0 <= lo,
        hi <= xc.len(),
        forall|i: int| 0 <= i < xc.len() ==> #[trigger] xc[i] <= XCORR_CAP,
    ensures
        0 <= floor_of(xc, lo, hi) <= XCORR_CAP,
        forall|i: int| lo <= i < hi ==> floor_of(xc, lo, hi) <= #[trigger] xc[i],
    decreases hi - lo,
{
    if hi > lo {
        lemma_floor_of(xc, lo, hi - 1);
    }
}

/// The peak lies in the range, no sum in the range is higher, and every sum
/// before it is lower.
pub proof fn lemma_peak_upto(xs: Seq<u64>, lo: int, hi: int)
    requires
        lo <= hi,
    ensures
        lo <= peak_upto(xs, lo, hi) <= hi,
        forall|i: int| lo <= i <= hi ==> #[trigger] xs[i] <= xs[peak_upto(xs, lo, hi)],
        forall|i: int| lo <= i < peak_upto(xs, lo, hi) ==> #[trigger] xs[i] < xs[peak_upto(xs, lo, hi)],
    decreases hi - lo,
{
    if hi > lo {
        lemma_peak_upto(xs, lo, hi - 1);
    }
}

/// The tempo of a longer lag is no higher.
pub proof fn lemma_tempo_of_lag(a: int, b: int, rate: int, by: int)
    requires
        1 <= a <= b,
        1 <= rate,
        1 <= by,
    ensures
        tempo_of_lag(b, rate, by) <= tempo_of_lag(a, rate, by),
        0 <= tempo_of_lag(b, rate, by),
{
    assert(1 <= by * a <= by * b) by (nonlinear_arith)
        requires
            1 <= a <= b,
            1 <= by,
    ;
    vstd::arithmetic::div_mod::lemma_div_is_ordered_by_denominator(120000 * rate, by * a, by * b);
    vstd::arithmetic::div_mod::lemma_div_pos_is_pos(120000 * rate, by * b);
}

/// The tempo read at the highest of the sums lies within half a lag of the
/// peak's own: the parabola through the peak and its neighbours has its top
/// no further than that from the peak.
pub proof fn lemma_tempo_at_peak(xs: Seq<u64>, start: int, p: int, rate: int, by: int)
    requires
        0 <= start <= p < xs.len(),
        1 <= p,
        1 <= rate,
        1 <= by,
        before_peak(xs, start, p) <= xs[p],
        behind_peak(xs, p) <= xs[p],
    ensures
        tempo_of_lag(2 * p + 1, rate, by) <= tempo_at(xs, start, p, rate, by) <= tempo_of_lag(
            2 * p - 1,
            rate,
            by,
        ),
{
    let e = bend(xs, start, p);
    let slope = behind_peak(xs, p) - before_peak(xs, start, p);
    let top = 60000 * rate;
    assert(-e <= slope <= e);
    if e > 0 {
        let inner = 2 * p * e + slope;
        assert((2 * p - 1) * e <= inner <= (2 * p + 1) * e) by (nonlinear_arith)
            requires
                inner == 2 * p * e + slope,
                -e <= slope <= e,
        ;
        assert((2 * p - 1) * e >= 1) by (nonlinear_arith)
            requires
                p >= 1,
                e >= 1,
        ;
        let low = by * ((2 * p - 1) * e);
        let mid = by * inner;
        let high = by * ((2 * p + 1) * e);
        assert(1 <= low <= mid <= high) by (nonlinear_arith)
            requires
                low == by * ((2 * p - 1) * e),
                mid == by * inner,
                high == by * ((2 * p + 1) * e),
                1 <= (2 * p - 1) * e <= inner <= (2 * p + 1) * e,
                by >= 1,
        ;
        assert(0 <= top * (2 * e)) by (nonlinear_arith)
            requires
                top >= 0,
                e >= 0,
        ;
        vstd::arithmetic::div_mod::lemma_div_is_ordered_by_denominator(top * (2 * e), low, mid);
        vstd::arithmetic::div_mod::lemma_div_is_ordered_by_denominator(top * (2 * e), mid, high);
        // The bend falls out of the tempo of the lags half a lag away.
        assert(1 <= by * (2 * p - 1) && 1 <= by * (2 * p + 1)) by (nonlinear_arith)
            requires
                p >= 1,
                by >= 1,
        ;
        vstd::arithmetic::div_mod::lemma_div_multiples_vanish_quotient(
            e,
            120000 * rate,
            by * (2 * p - 1),
        );
        vstd::arithmetic::div_mod::lemma_div_multiples_vanish_quotient(
            e,
            120000 * rate,
            by * (2 * p + 1),
        );
        assert(e * (120000 * rate) == top * (2 * e)) by (nonlinear_arith)
            requires
                top == 60000 * rate,
        ;
        assert(e * (by * (2 * p - 1)) == low) by (nonlinear_arith)
            requires
                low == by * ((2 * p - 1) * e),
        ;
        assert(e * (by * (2 * p + 1)) == high) by (nonlinear_arith)
            requires
                high == by * ((2 * p + 1) * e),
        ;
    } else {
        assert(1 <= by * p) by (nonlinear_arith)
            requires
                p >= 1,
                by >= 1,
        ;
        vstd::arithmetic::div_mod::lemma_div_multiples_vanish_quotient(2, top, by * p);
        assert(2 * (by * p) == by * (2 * p)) by (nonlinear_arith);
        assert(tempo_at(xs, start, p, rate, by) == tempo_of_lag(2 * p, rate, by));
        lemma_tempo_of_lag(2 * p - 1, 2 * p, rate, by);
        lemma_tempo_of_lag(2 * p, 2 * p + 1, rate, by);
    }
}

/// The beats per minute that the sums show are nothing, or lie within half a
/// lag of the tempi of the first lag and the last: no lower than the tempo
/// half a lag behind the last lag, and no higher than the tempo half a lag
/// before the first.
pub proof fn lemma_tempo_of_bounds(xc: Seq<u64>, start: int, rate: int, by: int)
    requires
        sums_ok(xc, start),
        1 <= rate,
        1 <= by,
    ensures
        tempo_of(xc, start, rate, by) == 0 || (min_int(
            tempo_of_lag(2 * (xc.len() - 1) + 1, rate, by),
            u32::MAX as int,
        ) <= tempo_of(xc, start, rate, by) <= tempo_of_lag(
            2 * crate::arith::max_int(start, 1) - 1,
            rate,
            by,
        )),
        0 <= tempo_of(xc, start, rate, by) <= u32::MAX,
{
    if start < xc.len() {
        let last = xc.len() - 1;
        let p = peak_upto(xc, start, last);
        lemma_peak_upto(xc, start, last);
        if xc[p] != 0 && p != 0 {
            assert(before_peak(xc, start, p) <= xc[p]) by {
                if p - 1 >= start {
                    assert(xc[p - 1] <= xc[p]);
                }
            }
            assert(behind_peak(xc, p) <= xc[p]) by {
                if p + 1 < xc.len() {
                    assert(xc[p + 1] <= xc[p]);
                }
            }
            lemma_tempo_at_peak(xc, start, p, rate, by);
            let first = crate::arith::max_int(start, 1);
            lemma_tempo_of_lag(2 * first - 1, 2 * p - 1, rate, by);
            lemma_tempo_of_lag(2 * p + 1, 2 * last + 1, rate, by);
        }
    }
}

/// Sums that are all nothing show no beat: the tempo read off them is zero.
pub proof fn lemma_tempo_of_silence(xc: Seq<u64>, start: int, rate: int, by: int)
    requires
        sums_ok(xc, start),
        forall|i: int| 0 <= i < xc.len() ==> xc[i] == 0,
    ensures
        tempo_of(xc, start, rate, by) == 0,
        tempo_of(debiased(xc, start), start, rate, by) == 0,
{
    let d = debiased(xc, start);
    lemma_floor_of(xc, start, xc.len() as int);
    assert forall|i: int| 0 <= i < d.len() implies d[i] == 0 by {
        assert(xc[i] == 0);
    }
    lemma_all_zero(xc, start, rate, by);
    assert(sums_ok(d, start));
    lemma_all_zero(d, start, rate, by);
}

/// Sums that are all nothing show no beat.
proof fn lemma_all_zero(xc: Seq<u64>, start: int, rate: int, by: int)
    requires
        sums_ok(xc, start),
        forall|i: int| 0 <= i < xc.len() ==> xc[i] == 0,
    ensures
        tempo_of(xc, start, rate, by) == 0,
{
    if start < xc.len() {
        let p = peak_upto(xc, start, xc.len() - 1);
        lemma_peak_upto(xc, start, xc.len() - 1);
        assert(xc[p] == 0);
    }
}

/// The sums of a correlation, one for each lag below a length; only the lags
/// from a start on are used.
#[derive(Debug)]
pub struct Correlogram {
    xcorr: Vec<u64>,
    start: usize,
}

impl View for Correlogram {
    type V = Seq<u64>;

    closed spec fn view(&self) -> Seq<u64> {
        self.xcorr@
    }
}

impl Correlogram {
    /// The first lag that is used.
    pub closed spec fn first_lag(&self) -> int {
        self.start as int
    }

    /// The sums are in order.
    pub open spec fn wf(&self) -> bool {
        sums_ok(self@, self.first_lag())
    }

    /// Sums of nothing for the lags below `lags`, of which those from `start`
    /// on are used; none where `start` lies above `lags` or `lags` above
    /// `MAX_LAGS`.
    pub fn new(start: usize, lags: usize) -> (r: Option<Correlogram>)
        ensures
            r is Some <==> start <= lags <= MAX_LAGS,
            r matches Some(c) ==> c.wf() && c.first_lag() == start && c@.len() == lags && (
            forall|i: int| 0 <= i < lags ==> c@[i] == 0),
    {
        if start > lags || lags > MAX_LAGS {
            return None;
        }
        Some(Correlogram::with_lags(start, lags))
    }

    /// Sums of nothing for the lags below `lags`, of which those from `start`
    /// on are used.
    pub fn with_lags(start: usize, lags: usize) -> (c: Correlogram)
        requires
            start <= lags <= MAX_LAGS,
        ensures
            c.wf(),
            c.first_lag() == start,
            c@.len() == lags,
            forall|i: int| 0 <= i < lags ==> c@[i] == 0,
    {
        let mut xcorr: Vec<u64> = Vec::new();
        let mut i: usize = 0;
        while i < lags
            invariant
                i <= lags,
                xcorr@.len() == i,
                forall|j: int| 0 <= j < i ==> xcorr@[j] == 0,
            decreases lags - i,
        {
            xcorr.push(0);
            i += 1;
        }
        Correlogram { xcorr, start }
    }

    /// The number of lags.
    pub fn lags(&self) -> (r: usize)
        ensures
            r == self@.len(),
    {
        self.xcorr.len()
    }

    /// The first lag that is used.
    pub fn start(&self) -> (r: usize)
        ensures
            r == self.first_lag(),
    {
        self.start
    }

    /// The sums, one for each lag.
    pub fn sums(&self) -> (r: &[u64])
        ensures
            r@ == self@,
    {
        self.xcorr.as_slice()
    }

    /// Sets every sum to nothing.
    pub fn clear(&mut self)
        requires
            old(self).wf(),
        ensures
            final(self).wf(),
            final(self).first_lag() == old(self).first_lag(),
            final(self)@.len() == old(self)@.len(),
            forall|i: int| 0 <= i < final(self)@.len() ==> final(self)@[i] == 0,
    {
        let n: usize = self.xcorr.len();
        let mut i: usize = 0;
        while i < n
            invariant
                i <= n,
                n == self.xcorr@.len(),
                self.start == old(self).start,
                self.start <= n <= MAX_LAGS,
                forall|j: int| 0 <= j < i ==> self.xcorr@[j] == 0,
                forall|j: int| 0 <= j < n ==> #[trigger] self.xcorr@[j] <= XCORR_CAP,
            decreases n - i,
        {
            self.xcorr[i] = 0;
            i += 1;
        }
    }

    /// Correlates up to `n` samples at the head of `buf` with their partners
    /// at each lag that is used, and adds the sums to those kept, each
    /// product once for every window that holds both partners. Only samples
    /// that have a partner in `buf` at every lag are taken. Returns the
    /// number of samples taken.
    pub fn update(&mut self, buf: &[i16], n: usize) -> (taken: usize)
        requires
            old(self).wf(),
        ensures
            final(self).wf(),
            final(self).first_lag() == old(self).first_lag(),
            taken == usable(buf@.len() as int, old(self)@.len() as int, n as int),
            taken <= buf@.len(),
            final(self)@ == accumulated(
                old(self)@,
                old(self).first_lag(),
                buf@,
                usable(buf@.len() as int, old(self)@.len() as int, n as int) as nat,
            ),
    {
        let lags: usize = self.xcorr.len();
        let len: usize = buf.len();
        let take: usize = if len >= lags {
            if n < len - lags {
                n
            } else {
                len - lags
            }
        } else {
            0
        };
        let ghost before = self.xcorr@;
        let ghost start = self.start as int;
        let mut lag: usize = self.start;
        while lag < lags
            invariant
                self.start <= lag <= lags,
                start == self.start,
                self.start == old(self).start,
                lags == self.xcorr@.len(),
                lags == before.len(),
                lags <= MAX_LAGS,
                before == old(self)@,
                len == buf@.len(),
                take == usable(len as int, lags as int, n as int),
                take == 0 || take + lags <= len,
                forall|j: int| 0 <= j < lags ==> #[trigger] before[j] <= XCORR_CAP,
                forall|j: int| 0 <= j < lags ==> #[trigger] self.xcorr@[j] <= XCORR_CAP,
                forall|j: int|
                    0 <= j < lag ==> self.xcorr@[j] == accumulated(before, start, buf@, take as nat)[j],
                forall|j: int| lag <= j < lags ==> self.xcorr@[j] == before[j],
            decreases lags - lag,
        {
            let mut total: i128 = 0;
            let mut i: usize = 0;
            while i < take
                invariant
                    i <= take,
                    take == 0 || take + lags <= len,
                    lag < lags,
                    len == buf@.len(),
                    total == lag_sum(buf@, lag as int, i as nat),
                decreases take - i,
            {
                proof {
                    lemma_lag_sum_bounds(buf@, lag as int, i as nat);
                    crate::correlation::lemma_sample_product(buf@[i as int], buf@[i + lag]);
                }
                let x: i128 = buf[i] as i128;
                let y: i128 = buf[i + lag] as i128;
                total = total + x * y;
                i += 1;
            }
            proof {
                lemma_lag_sum_bounds(buf@, lag as int, take as nat);
                assert(before[lag as int] <= XCORR_CAP);
            }
            let windows: i128 = (2 * lags - lag) as i128;
            proof {
                assert(-8192 * (1073741824 * 18446744073709551615) <= windows * total <= 8192 * (
                1073741824 * 18446744073709551615)) by (nonlinear_arith)
                    requires
                        1 <= windows <= 8192,
                        -1073741824 * 18446744073709551615 <= total <= 1073741824
                            * 18446744073709551615,
                ;
            }
            let sum: i128 = self.xcorr[lag] as i128 + windows * total;
            let kept: u64 = if sum < 0 {
                0
            } else if sum > XCORR_CAP as i128 {
                XCORR_CAP
            } else {
                sum as u64
            };
            self.xcorr[lag] = kept;
            lag += 1;
        }
        assert(self@ =~= accumulated(before, start, buf@, take as nat));
        take
    }

    /// Takes the smallest of the sums off each of them.
    pub fn remove_bias(&mut self)
        requires
            old(self).wf(),
        ensures
            final(self).wf(),
            final(self).first_lag() == old(self).first_lag(),
            final(self)@ == debiased(old(self)@, old(self).first_lag()),
    {
        let lags: usize = self.xcorr.len();
        let ghost before = self.xcorr@;
        let ghost start = self.start as int;
        let mut low: u64 = XCORR_CAP;
        let mut i: usize = self.start;
        while i < lags
            invariant
                self.start <= i <= lags,
                lags == self.xcorr@.len(),
                self.xcorr@ == before,
                low == floor_of(before, self.start as int, i as int),
            decreases lags - i,
        {
            if self.xcorr[i] < low {
                low = self.xcorr[i];
            }
            i += 1;
        }
        proof {
            lemma_floor_of(before, start, lags as int);
        }
        let mut j: usize = self.start;
        while j < lags
            invariant
                self.start <= j <= lags,
                start == self.start,
                self.start == old(self).start,
                lags == self.xcorr@.len(),
                lags == before.len(),
                lags <= MAX_LAGS,
                low == floor_of(before, start, lags as int),
                forall|k: int| 0 <= k < lags ==> #[trigger] before[k] <= XCORR_CAP,
                forall|k: int| start <= k < lags ==> low <= #[trigger] before[k],
                forall|k: int| 0 <= k < j ==> self.xcorr@[k] == debiased(before, start)[k],
                forall|k: int| j <= k < lags ==> self.xcorr@[k] == before[k],
            decreases lags - j,
        {
            let v: u64 = self.xcorr[j];
            assert(low <= before[j as int]);
            self.xcorr[j] = v - low;
            j += 1;
        }
        assert(self@ =~= debiased(before, start));
        assert forall|k: int| 0 <= k < self@.len() implies #[trigger] self@[k] <= XCORR_CAP by {
            assert(before[k] <= XCORR_CAP);
        }
    }

    /// The beats per minute, in thousandths, that the sums show for a stream
    /// of `rate` frames per second decimated by `by`; zero where the sums
    /// show no beat.
    pub fn tempo(&self, rate: u32, by: u32) -> (r: u32)
        requires
            self.wf(),
            1 <= rate <= 1000000,
            1 <= by <= 1000000,
        ensures
            r == tempo_of(self@, self.first_lag(), rate as int, by as int),
    {
        let lags: usize = self.xcorr.len();
        if self.start >= lags {
            return 0;
        }
        let p: usize = find_peak(&self.xcorr, self.start, lags - 1);
        if self.xcorr[p] == 0 || p == 0 {
            return 0;
        }
        read_tempo(&self.xcorr, self.start, p, rate, by)
    }
}

/// The lag from `lo` to `hi` with the highest sum; among equals, the first.
pub fn find_peak(xs: &Vec<u64>, lo: usize, hi: usize) -> (p: usize)
    requires
        lo <= hi < xs@.len(),
    ensures
        p == peak_upto(xs@, lo as int, hi as int),
        lo <= p <= hi,
{
    let mut best: usize = lo;
    let mut i: usize = lo;
    while i < hi
        invariant
            lo <= best <= i <= hi < xs@.len(),
            best == peak_upto(xs@, lo as int, i as int),
        decreases hi - i,
    {
        i += 1;
        if xs[i] > xs[best] {
            best = i;
        }
    }
    best
}

/// The beats per minute, in thousandths, of a beat whose period is the lag
/// of the peak at `p`.
pub fn read_tempo(xs: &Vec<u64>, start: usize, p: usize, rate: u32, by: u32) -> (r: u32)
    requires
        start <= p < xs@.len(),
        1 <= p,
        xs@.len() <= MAX_LAGS,
        1 <= rate <= 1000000,
        1 <= by <= 1000000,
        forall|i: int| 0 <= i < xs@.len() ==> #[trigger] xs@[i] <= XCORR_CAP,
    ensures
        r == min_int(tempo_at(xs@, start as int, p as int, rate as int, by as int), u32::MAX as int),
{
    assert(xs@[p as int] <= XCORR_CAP);
    let y0: i128 = xs[p] as i128;
    let ym: i128 = if p - 1 >= start {
        assert(xs@[p - 1] <= XCORR_CAP);
        xs[p - 1] as i128
    } else {
        y0
    };
    let yp: i128 = if p + 1 < xs.len() {
        assert(xs@[p + 1] <= XCORR_CAP);
        xs[p + 1] as i128
    } else {
        y0
    };
    let e: i128 = 2 * y0 - ym - yp;
    let slope: i128 = yp - ym;
    let top: i128 = 60000 * (rate as i128);
    let pp: i128 = p as i128;
    let bb: i128 = by as i128;
    proof {
        assert(-2 * 5764607523034234880 <= e <= 2 * 5764607523034234880);
        assert(0 <= pp * e <= 4096 * (2 * 5764607523034234880) || e <= 0) by (nonlinear_arith)
            requires
                1 <= pp <= 4096,
                e <= 2 * 5764607523034234880,
        ;
        assert(1 <= bb * pp <= 1000000 * 4096) by (nonlinear_arith)
            requires
                1 <= bb <= 1000000,
                1 <= pp <= 4096,
        ;
    }
    let mut value: i128 = top / (bb * pp);
    if e > 0 {
        let inner: i128 = 2 * (pp * e) + slope;
        if inner > 0 {
            proof {
                assert(0 < top * (2 * e) <= 60000000000 * (4 * 5764607523034234880))
                    by (nonlinear_arith)
                    requires
                        0 < top <= 60000000000,
                        0 < e <= 2 * 5764607523034234880,
                ;
                assert(0 < bb * inner <= 1000000 * (4096 * (4 * 5764607523034234880) + 5
                    * 1152921504606846976)) by (nonlinear_arith)
                    requires
                        1 <= bb <= 1000000,
                        0 < inner <= 4096 * (4 * 5764607523034234880) + 5 * 1152921504606846976,
                ;
                assert(2 * pp * e == 2 * (pp * e)) by (nonlinear_arith);
            }
            value = (top * (2 * e)) / (bb * inner);
        }
    }
    proof {
        assert(2 * (p as int) * (e as int) == 2 * (pp * e)) by (nonlinear_arith)
            requires
                pp == p,
        ;
    }
    if value > u32::MAX as i128 {
        u32::MAX
    } else {
        value as u32
    }
}

} // verus!
