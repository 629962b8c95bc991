//! The cross-fade that joins two stretches of sound.
//!
//! Over the length of the overlap the weight of the old sound falls from one
//! to nothing while the weight of the new sound rises by as much, so the two
//! weights add up to one at every frame.

use vstd::prelude::*;
use crate::arith::{max_int, min_int};

verus! {

/// The largest number of parts into which the way from one sample to the
/// other is divided.
pub const MAX_BLEND_PARTS: u64 = 1099511627776;

/// The mix of an old sample `a` and a new sample `b` at part `i` of the `n`
/// parts of the way from the one to the other: `a` weighs `n - i` parts of
/// `n`, `b` weighs `i` parts. The quotient is rounded down.
pub open spec fn blend(a: int, b: int, i: int, n: int) -> int {
    (a * (n - i) + b * i) / n
}

/// The cross-fade of `prev` into the samples of `input` from `off` on, over
/// `frames` frames of `ch` samples.
pub open spec fn crossfade(prev: Seq<i16>, input: Seq<i16>, off: int, ch: nat, frames: nat) -> Seq<
    i16,
> {
    Seq::new(
        frames * ch,
        |t: int|
            blend(prev[t] as int, input[off + t] as int, t / (ch as int), frames as int) as i16,
    )
}

/// A mix lies between the two samples it is made of. Where they are equal it
/// is that sample, and at the first frame it is the old sample.
pub proof fn lemma_blend_between(a: int, b: int, i: int, n: int)
    requires
        n >= 1,
        0 <= i < n,
    ensures
        min_int(a, b) <= blend(a, b, i, n) <= max_int(a, b),
        a == b ==> blend(a, b, i, n) == a,
        i == 0 ==> blend(a, b, i, n) == a,
{
    let lo = min_int(a, b);
    let hi = max_int(a, b);
    let s = a * (n - i) + b * i;
    assert(lo * n <= s <= hi * n) by (nonlinear_arith)
        requires
            lo <= a <= hi,
            lo <= b <= hi,
            0 <= i < n,
            s == a * (n - i) + b * i,
    {
        assert(lo * (n - i) <= a * (n - i) <= hi * (n - i));
        assert(lo * i <= b * i <= hi * i);
        assert(lo * (n - i) + lo * i == lo * n);
        assert(hi * (n - i) + hi * i == hi * n);
    }
    lemma_floor_between(s, n, lo, hi);
    if i == 0 {
        assert(s == n * a) by (nonlinear_arith)
            requires
                s == a * (n - i) + b * i,
                i == 0,
        ;
        vstd::arithmetic::div_mod::lemma_fundamental_div_mod_converse(s, n, a, 0);
    }
}

/// A number between `lo * n` and `hi * n`, divided by `n` and rounded down,
/// lies between `lo` and `hi`.
pub proof fn lemma_floor_between(s: int, n: int, lo: int, hi: int)
    requires
        n >= 1,
        lo * n <= s <= hi * n,
    ensures
        lo <= s / n <= hi,
{
    let q = s / n;
    vstd::arithmetic::div_mod::lemma_fundamental_div_mod(s, n);
    vstd::arithmetic::div_mod::lemma_mod_bound(s, n);
    assert(lo <= q <= hi) by (nonlinear_arith)
        requires
            n >= 1,
            lo * n <= s <= hi * n,
            s == n * q + s % n,
            0 <= s % n < n,
    {
        if q < lo {
            assert(n * q <= n * (lo - 1));
        }
        if q > hi {
            assert(n * q >= n * (hi + 1));
        }
    }
}

/// The mix of two samples at part `i` of `n`.
pub fn blend_sample(a: i16, b: i16, i: u64, n: u64) -> (r: i16)
    requires
        1 <= n <= MAX_BLEND_PARTS,
        i < n,
    ensures
        r == blend(a as int, b as int, i as int, n as int),
{
    let wa: i64 = (n - i) as i64;
    let wb: i64 = i as i64;
    let nn: i64 = n as i64;
    proof {
        assert(-32768 * 1099511627776 <= (a as int) * (wa as int) <= 32768 * 1099511627776)
            by (nonlinear_arith)
            requires
                -32768 <= a <= 32767,
                0 <= wa <= 1099511627776,
        ;
        assert(-32768 * 1099511627776 <= (b as int) * (wb as int) <= 32768 * 1099511627776)
            by (nonlinear_arith)
            requires
                -32768 <= b <= 32767,
                0 <= wb <= 1099511627776,
        ;
        assert(32768 * (nn as int) <= 32768 * 1099511627776) by (nonlinear_arith)
            requires
                nn <= 1099511627776,
        ;
    }
    let s: i64 = (a as i64) * wa + (b as i64) * wb;
    proof {
        lemma_blend_between(a as int, b as int, i as int, n as int);
        assert(-32768 * (nn as int) <= s) by (nonlinear_arith)
            requires
                -32768 <= a,
                -32768 <= b,
                0 <= wa,
                0 <= wb,
                wa + wb == nn,
                s == a * wa + b * wb,
        {
            assert(-32768 * wa <= a * wa);
            assert(-32768 * wb <= b * wb);
        }
    }
    // Lifted above zero, so that the machine's division rounds down as the
    // definition does.
    let lifted: u64 = (s + 32768 * nn) as u64;
    let q: u64 = lifted / n;
    proof {
        let sn = s as int;
        let m = n as int;
        assert(32768 * m == m * 32768) by (nonlinear_arith);
        vstd::arithmetic::div_mod::lemma_fundamental_div_mod(sn, m);
        vstd::arithmetic::div_mod::lemma_mod_bound(sn, m);
        let k = sn / m;
        assert(sn + 32768 * m == m * (k + 32768) + sn % m) by (nonlinear_arith)
            requires
                sn == m * k + sn % m,
        ;
        vstd::arithmetic::div_mod::lemma_fundamental_div_mod_converse(
            sn + 32768 * m,
            m,
            k + 32768,
            sn % m,
        );
        assert(q == k + 32768);
    }
    (q as i64 - 32768) as i16
}

} // verus!
