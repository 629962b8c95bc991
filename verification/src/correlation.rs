//! The search for the place at which a new sequence joins the sound that came
//! before it.
//!
//! A candidate is a stretch of the input that starts a whole number of frames
//! behind the head. It is scored by its correlation with a reference (the end
//! of the sound sent out so far), divided by the square root of its own
//! energy, so that a loud candidate has no advantage over a soft one of the
//! same shape. Scores are compared exactly, in whole numbers.

use vstd::prelude::*;

verus! {

/// The largest number of samples that a reference holds.
pub const MAX_OVERLAP_SAMPLES: usize = 4096;

/// The sum of `a[i] * b[off + i]` over the first `n` indices `i`.
pub open spec fn corr_sum(a: Seq<i16>, b: Seq<i16>, off: int, n: nat) -> int
    decreases n,
{
    if n == 0 {
        0
    } else {
        corr_sum(a, b, off, (n - 1) as nat) + a[n - 1] * b[off + n - 1]
    }
}

/// The sum of the squares of the `n` samples of `b` from `off` on.
pub open spec fn energy_sum(b: Seq<i16>, off: int, n: nat) -> int
    decreases n,
{
    if n == 0 {
        0
    } else {
        energy_sum(b, off, (n - 1) as nat) + b[off + n - 1] * b[off + n - 1]
    }
}

/// The square of a correlation, with the correlation's sign.
pub open spec fn score_num(c: int) -> int {
    if c >= 0 {
        c * c
    } else {
        -(c * c)
    }
}

/// An energy as a divisor: silence, which has none, counts as one.
pub open spec fn score_den(e: int) -> int {
    if e <= 0 {
        1
    } else {
        e
    }
}

/// A candidate with correlation `c1` and energy `e1` scores strictly lower
/// than one with `c2` and `e2`: `c1 / sqrt(e1) < c2 / sqrt(e2)`, stated
/// without roots or fractions.
pub open spec fn scores_below(c1: int, e1: int, c2: int, e2: int) -> bool {
    score_num(c1) * score_den(e2) < score_num(c2) * score_den(e1)
}

/// The correlation of the reference with the candidate `o` frames behind the
/// head of `input`.
pub open spec fn corr_at(refr: Seq<i16>, input: Seq<i16>, ch: nat, n: nat, o: nat) -> int {
    corr_sum(refr, input, (o * ch) as int, n)
}

/// The energy of the candidate `o` frames behind the head of `input`.
pub open spec fn energy_at(input: Seq<i16>, ch: nat, n: nat, o: nat) -> int {
    energy_sum(input, (o * ch) as int, n)
}

/// The candidate among the offsets `0..=k` with the highest score; among
/// equals, the one nearest to the head.
pub open spec fn best_offset(refr: Seq<i16>, input: Seq<i16>, ch: nat, n: nat, k: nat) -> nat
    decreases k,
{
    if k == 0 {
        0
    } else {
        let b = best_offset(refr, input, ch, n, (k - 1) as nat);
        if scores_below(
            corr_at(refr, input, ch, n, b),
            energy_at(input, ch, n, b),
            corr_at(refr, input, ch, n, k),
            energy_at(input, ch, n, k),
        ) {
            k
        } else {
            b
        }
    }
}

/// A product of two samples lies between minus and plus two to the thirtieth.
pub proof fn lemma_sample_product(x: i16, y: i16)
    ensures
        -1073741824 <= x * y <= 1073741824,
        0 <= x * x,
{
    assert(-1073741824 <= x * y <= 1073741824) by (nonlinear_arith)
        requires
            -32768 <= x <= 32767,
            -32768 <= y <= 32767,
    ;
    assert(0 <= x * x) by (nonlinear_arith);
}

/// Sums over `n` samples stay within `n` times the largest product.
pub proof fn lemma_sum_bounds(a: Seq<i16>, b: Seq<i16>, off: int, n: nat)
    ensures
        -1073741824 * n <= corr_sum(a, b, off, n) <= 1073741824 * n,
        0 <= energy_sum(b, off, n) <= 1073741824 * n,
    decreases n,
{
    if n > 0 {
        lemma_sum_bounds(a, b, off, (n - 1) as nat);
        lemma_sample_product(a[n - 1], b[off + n - 1]);
        lemma_sample_product(b[off + n - 1], b[off + n - 1]);
    }
}

/// The sums read `b` only from `off` up to `off + n`, and `a` only below `n`.
pub proof fn lemma_sums_local(
    a1: Seq<i16>,
    a2: Seq<i16>,
    b1: Seq<i16>,
    b2: Seq<i16>,
    off: int,
    n: nat,
)
    requires
        forall|i: int| 0 <= i < n ==> a1[i] == a2[i],
        forall|i: int| off <= i < off + n ==> b1[i] == b2[i],
    ensures
        corr_sum(a1, b1, off, n) == corr_sum(a2, b2, off, n),
        energy_sum(b1, off, n) == energy_sum(b2, off, n),
    decreases n,
{
    if n > 0 {
        lemma_sums_local(a1, a2, b1, b2, off, (n - 1) as nat);
    }
}

/// Scores are ordered like the fractions they are: what is not above a score
/// that lies below a third, lies below the third.
pub proof fn lemma_scores_chain(c1: int, e1: int, c2: int, e2: int, c3: int, e3: int)
    requires
        !scores_below(c2, e2, c1, e1),
        scores_below(c2, e2, c3, e3),
    ensures
        scores_below(c1, e1, c3, e3),
{
    let na = score_num(c1);
    let nb = score_num(c2);
    let nc = score_num(c3);
    let da = score_den(e1);
    let db = score_den(e2);
    let dc = score_den(e3);
    assert(na * dc < nc * da) by (nonlinear_arith)
        requires
            da >= 1,
            db >= 1,
            dc >= 1,
            na * db <= nb * da,
            nb * dc < nc * db,
    {
        assert((na * db) * dc <= (nb * da) * dc);
        assert((nb * dc) * da < (nc * db) * da);
        assert((na * dc) * db < (nc * da) * db);
    }
}

/// What `best_offset` finds is a peak of the score over the offsets `0..=k`:
/// no offset there scores higher, and every offset before it scores strictly
/// lower. Among offsets of equal score the search keeps the first, the one
/// that displaces the sequence least.
pub proof fn lemma_best_offset_is_peak(refr: Seq<i16>, input: Seq<i16>, ch: nat, n: nat, k: nat)
    ensures
        best_offset(refr, input, ch, n, k) <= k,
        forall|o: nat|
            o <= k ==> !scores_below(
                corr_at(refr, input, ch, n, best_offset(refr, input, ch, n, k)),
                energy_at(input, ch, n, best_offset(refr, input, ch, n, k)),
                #[trigger] corr_at(refr, input, ch, n, o),
                energy_at(input, ch, n, o),
            ),
        forall|o: nat|
            o < best_offset(refr, input, ch, n, k) ==> scores_below(
                #[trigger] corr_at(refr, input, ch, n, o),
                energy_at(input, ch, n, o),
                corr_at(refr, input, ch, n, best_offset(refr, input, ch, n, k)),
                energy_at(input, ch, n, best_offset(refr, input, ch, n, k)),
            ),
    decreases k,
{
    if k > 0 {
        let b = best_offset(refr, input, ch, n, (k - 1) as nat);
        lemma_best_offset_is_peak(refr, input, ch, n, (k - 1) as nat);
        let cb = corr_at(refr, input, ch, n, b);
        let eb = energy_at(input, ch, n, b);
        let ck = corr_at(refr, input, ch, n, k);
        let ek = energy_at(input, ch, n, k);
        if scores_below(cb, eb, ck, ek) {
            assert forall|o: nat| o <= k implies !scores_below(
                ck,
                ek,
                #[trigger] corr_at(refr, input, ch, n, o),
                energy_at(input, ch, n, o),
            ) by {
                if o < k {
                    let co = corr_at(refr, input, ch, n, o);
                    let eo = energy_at(input, ch, n, o);
                    lemma_scores_chain(co, eo, cb, eb, ck, ek);
                }
            }
            assert forall|o: nat| o < k implies scores_below(
                #[trigger] corr_at(refr, input, ch, n, o),
                energy_at(input, ch, n, o),
                ck,
                ek,
            ) by {
                let co = corr_at(refr, input, ch, n, o);
                let eo = energy_at(input, ch, n, o);
                lemma_scores_chain(co, eo, cb, eb, ck, ek);
            }
        }
    }
}

/// The search reads the reference below `n` and the input below
/// `k * ch + n`: two inputs that agree there give the same offset.
pub proof fn lemma_best_offset_local(
    r1: Seq<i16>,
    r2: Seq<i16>,
    in1: Seq<i16>,
    in2: Seq<i16>,
    ch: nat,
    n: nat,
    k: nat,
)
    requires
        forall|i: int| 0 <= i < n ==> r1[i] == r2[i],
        forall|i: int| 0 <= i < k * ch + n ==> in1[i] == in2[i],
    ensures
        best_offset(r1, in1, ch, n, k) == best_offset(r2, in2, ch, n, k),
        forall|o: nat|
            o <= k ==> #[trigger] corr_at(r1, in1, ch, n, o) == corr_at(r2, in2, ch, n, o)
                && energy_at(in1, ch, n, o) == energy_at(in2, ch, n, o),
    decreases k,
{
    assert forall|o: nat| o <= k implies #[trigger] corr_at(r1, in1, ch, n, o) == corr_at(
        r2,
        in2,
        ch,
        n,
        o,
    ) && energy_at(in1, ch, n, o) == energy_at(in2, ch, n, o) by {
        assert(o * ch <= k * ch) by (nonlinear_arith)
            requires
                o <= k,
        ;
        lemma_sums_local(r1, r2, in1, in2, (o * ch) as int, n);
    }
    if k > 0 {
        assert((k - 1) * ch <= k * ch) by (nonlinear_arith);
        lemma_best_offset_local(r1, r2, in1, in2, ch, n, (k - 1) as nat);
        lemma_best_offset_is_peak(r1, in1, ch, n, (k - 1) as nat);
        let b = best_offset(r1, in1, ch, n, (k - 1) as nat);
        assert(corr_at(r1, in1, ch, n, b) == corr_at(r2, in2, ch, n, b));
        assert(corr_at(r1, in1, ch, n, k) == corr_at(r2, in2, ch, n, k));
    }
}

/// The correlation of `a` with `b` from `off` on, and the energy of that part
/// of `b`, over `n` samples.
pub fn correlate(a: &[i16], b: &[i16], off: usize, n: usize) -> (r: (i64, i64))
    requires
        n <= a@.len(),
        off + n <= b@.len(),
        n <= MAX_OVERLAP_SAMPLES,
    ensures
        r.0 == corr_sum(a@, b@, off as int, n as nat),
        r.1 == energy_sum(b@, off as int, n as nat),
{
    let mut c: i64 = 0;
    let mut e: i64 = 0;
    let mut i: usize = 0;
    let limit: usize = b.len();
    while i < n
        invariant
            i <= n,
            n <= a@.len(),
            off + n <= limit,
            limit == b@.len(),
            n <= MAX_OVERLAP_SAMPLES,
            c == corr_sum(a@, b@, off as int, i as nat),
            e == energy_sum(b@, off as int, i as nat),
        decreases n - i,
    {
        let x: i64 = a[i] as i64;
        let y: i64 = b[off + i] as i64;
        proof {
            lemma_sum_bounds(a@, b@, off as int, i as nat);
            lemma_sample_product(a[i as int], b[off + i]);
            lemma_sample_product(b[off + i], b[off + i]);
        }
        c = c + x * y;
        e = e + y * y;
        i += 1;
    }
    (c, e)
}

/// Whether the first candidate scores strictly lower than the second.
pub fn is_below(c1: i64, e1: i64, c2: i64, e2: i64) -> (r: bool)
    requires
        -4398046511104 <= c1 <= 4398046511104,
        -4398046511104 <= c2 <= 4398046511104,
        0 <= e1 <= 4398046511104,
        0 <= e2 <= 4398046511104,
    ensures
        r == scores_below(c1 as int, e1 as int, c2 as int, e2 as int),
{
    let w1: i128 = c1 as i128;
    let w2: i128 = c2 as i128;
    let d1: i128 = if e1 == 0 {
        1
    } else {
        e1 as i128
    };
    let d2: i128 = if e2 == 0 {
        1
    } else {
        e2 as i128
    };
    proof {
        lemma_square_bound(c1 as int);
        lemma_square_bound(c2 as int);
        lemma_product_bound(score_num(c1 as int), d2 as int);
        lemma_product_bound(score_num(c2 as int), d1 as int);
    }
    let s1: i128 = w1 * w1;
    let s2: i128 = w2 * w2;
    let left: i128 = if c1 >= 0 {
        s1
    } else {
        -s1
    };
    let right: i128 = if c2 >= 0 {
        s2
    } else {
        -s2
    };
    left * d2 < right * d1
}

/// The square of a correlation fits in 85 bits.
proof fn lemma_square_bound(c: int)
    requires
        -4398046511104 <= c <= 4398046511104,
    ensures
        0 <= c * c <= 19342813113834066795298816,
        -19342813113834066795298816 <= score_num(c) <= 19342813113834066795298816,
{
    assert(0 <= c * c <= 4398046511104 * 4398046511104) by (nonlinear_arith)
        requires
            -4398046511104 <= c <= 4398046511104,
    ;
}

/// A signed square times an energy fits in 127 bits.
proof fn lemma_product_bound(p: int, d: int)
    requires
        -19342813113834066795298816 <= p <= 19342813113834066795298816,
        1 <= d <= 4398046511104,
    ensures
        -85070591730234615865843651857942052864 <= p * d
            <= 85070591730234615865843651857942052864,
{
    assert(-19342813113834066795298816 * 4398046511104 <= p * d <= 19342813113834066795298816
        * 4398046511104) by (nonlinear_arith)
        requires
            -19342813113834066795298816 <= p <= 19342813113834066795298816,
            1 <= d <= 4398046511104,
    ;
}

/// Finds, among the first `window` frame offsets into `input`, the candidate
/// that matches the reference best.
pub fn seek_best_offset(refr: &[i16], input: &[i16], ch: usize, n: usize, window: usize) -> (r:
    usize)
    requires
        ch >= 1,
        window >= 1,
        n == refr@.len(),
        n <= MAX_OVERLAP_SAMPLES,
        (window - 1) * ch + n <= input@.len(),
    ensures
        r == best_offset(refr@, input@, ch as nat, n as nat, (window - 1) as nat),
        r < window,
{
    let limit: usize = input.len();
    let first = correlate(refr, input, 0, n);
    let mut best: usize = 0;
    let mut bc: i64 = first.0;
    let mut be: i64 = first.1;
    let mut o: usize = 1;
    proof {
        lemma_sum_bounds(refr@, input@, 0, n as nat);
        assert(0nat * (ch as nat) == 0) by (nonlinear_arith);
    }
    while o < window
        invariant
            1 <= o <= window,
            ch >= 1,
            n == refr@.len(),
            n <= MAX_OVERLAP_SAMPLES,
            (window - 1) * ch + n <= limit,
            limit == input@.len(),
            best < o,
            best == best_offset(refr@, input@, ch as nat, n as nat, (o - 1) as nat),
            bc == corr_at(refr@, input@, ch as nat, n as nat, best as nat),
            be == energy_at(input@, ch as nat, n as nat, best as nat),
            -4398046511104 <= bc <= 4398046511104,
            0 <= be <= 4398046511104,
        decreases window - o,
    {
        proof {
            assert(o * ch <= (window - 1) * ch) by (nonlinear_arith)
                requires
                    o <= window - 1,
                    ch >= 0,
            ;
            lemma_sum_bounds(refr@, input@, (o * ch) as int, n as nat);
        }
        let cand = correlate(refr, input, o * ch, n);
        if is_below(bc, be, cand.0, cand.1) {
            best = o;
            bc = cand.0;
            be = cand.1;
        }
        o += 1;
    }
    best
}

} // verus!
