//! What holds of the search for the best join whatever the sound.

use vstd::prelude::*;
use crate::correlation::{
    best_offset,
    corr_at,
    corr_sum,
    energy_at,
    energy_sum,
    score_den,
    score_num,
    scores_below,
};

verus! {

/// The square of a correlation is no more than the product of the two
/// energies.
pub proof fn lemma_correlation_bound(a: Seq<i16>, b: Seq<i16>, off: int, n: nat)
    ensures
        corr_sum(a, b, off, n) * corr_sum(a, b, off, n) <= energy_sum(a, 0, n) * energy_sum(
            b,
            off,
            n,
        ),
        0 <= energy_sum(a, 0, n),
        0 <= energy_sum(b, off, n),
    decreases n,
{
    if n > 0 {
        lemma_correlation_bound(a, b, off, (n - 1) as nat);
        let c = corr_sum(a, b, off, (n - 1) as nat);
        let ea = energy_sum(a, 0, (n - 1) as nat);
        let eb = energy_sum(b, off, (n - 1) as nat);
        let x = a[n - 1] as int;
        let y = b[off + n - 1] as int;
        lemma_bound_step(c, ea, eb, x, y);
    } else {
        assert(0int * 0int <= 0int * 0int);
    }
}

/// One more pair of samples keeps the bound.
proof fn lemma_bound_step(c: int, ea: int, eb: int, x: int, y: int)
    requires
        c * c <= ea * eb,
        0 <= ea,
        0 <= eb,
    ensures
        (c + x * y) * (c + x * y) <= (ea + x * x) * (eb + y * y),
        0 <= ea + x * x,
        0 <= eb + y * y,
{
    let u = ea * (y * y) + eb * (x * x);
    let v = 2 * (c * (x * y));
    assert(0 <= x * x) by (nonlinear_arith);
    assert(0 <= y * y) by (nonlinear_arith);
    assert(0 <= u) by (nonlinear_arith)
        requires
            0 <= ea,
            0 <= eb,
            0 <= x * x,
            0 <= y * y,
            u == ea * (y * y) + eb * (x * x),
    ;
    // The square of `v` is four times `c * c` times the squares of both
    // samples, and that is no more than the square of `u`.
    let xx = x * x;
    let yy = y * y;
    assert(v * v == 4 * ((c * c) * (xx * yy))) by (nonlinear_arith)
        requires
            v == 2 * (c * (x * y)),
            xx == x * x,
            yy == y * y,
    ;
    assert((c * c) * (xx * yy) <= (ea * eb) * (xx * yy)) by (nonlinear_arith)
        requires
            c * c <= ea * eb,
            0 <= xx,
            0 <= yy,
    {
        assert(0 <= xx * yy);
    }
    assert(u * u - 4 * ((ea * eb) * (xx * yy)) == (ea * yy - eb * xx) * (ea * yy - eb * xx))
        by (nonlinear_arith)
        requires
            u == ea * yy + eb * xx,
    ;
    assert(0 <= (ea * yy - eb * xx) * (ea * yy - eb * xx)) by (nonlinear_arith);
    assert(v * v <= u * u);
    assert(v <= u) by (nonlinear_arith)
        requires
            v * v <= u * u,
            0 <= u,
    {
        if v > u {
            assert(v * v > u * u);
        }
    }
    assert((c + x * y) * (c + x * y) == c * c + v + xx * yy) by (nonlinear_arith)
        requires
            v == 2 * (c * (x * y)),
            xx == x * x,
            yy == y * y,
    ;
    assert((ea + xx) * (eb + yy) == ea * eb + u + xx * yy) by (nonlinear_arith)
        requires
            u == ea * yy + eb * xx,
    ;
}

/// The correlation of a sound with itself is its energy.
pub proof fn lemma_self_correlation(a: Seq<i16>, b: Seq<i16>, n: nat)
    requires
        forall|i: int| 0 <= i < n ==> a[i] == b[i],
    ensures
        corr_sum(a, b, 0, n) == energy_sum(b, 0, n),
        energy_sum(a, 0, n) == energy_sum(b, 0, n),
    decreases n,
{
    if n > 0 {
        lemma_self_correlation(a, b, (n - 1) as nat);
    }
}

/// Nothing scores higher than the reference itself: a candidate that is the
/// reference, sample for sample, is not below any other.
pub proof fn lemma_self_score(a: int, c: int, b: int)
    requires
        0 <= a,
        0 <= b,
        c * c <= a * b,
    ensures
        !scores_below(a, a, c, b),
{
    let left = score_num(a) * score_den(b);
    let right = score_num(c) * score_den(a);
    assert(0 <= a * a) by (nonlinear_arith);
    assert(0 <= c * c) by (nonlinear_arith);
    if a == 0 {
        assert(a * b == 0) by (nonlinear_arith)
            requires
                a == 0,
        ;
        assert(c == 0) by (nonlinear_arith)
            requires
                c * c <= 0,
        ;
        assert(score_num(c) == 0);
        assert(right == 0) by (nonlinear_arith)
            requires
                right == score_num(c) * score_den(a),
                score_num(c) == 0,
        ;
        assert(0 <= left) by (nonlinear_arith)
            requires
                left == score_num(a) * score_den(b),
                0 <= score_num(a),
                1 <= score_den(b),
        ;
    } else if c <= 0 {
        assert(right <= 0) by (nonlinear_arith)
            requires
                right == score_num(c) * score_den(a),
                score_num(c) <= 0,
                1 <= score_den(a),
        ;
        assert(0 <= left) by (nonlinear_arith)
            requires
                left == score_num(a) * score_den(b),
                0 <= score_num(a),
                1 <= score_den(b),
        ;
    } else {
        // A positive correlation needs energy on both sides.
        assert(c * c > 0) by (nonlinear_arith)
            requires
                c > 0,
        ;
        assert(b > 0) by (nonlinear_arith)
            requires
                c * c <= a * b,
                c * c > 0,
                a > 0,
                b >= 0,
        ;
        assert(left == (a * a) * b);
        assert(right == (c * c) * a);
        assert((c * c) * a <= (a * b) * a) by (nonlinear_arith)
            requires
                c * c <= a * b,
                a > 0,
        ;
        assert((a * b) * a == (a * a) * b) by (nonlinear_arith);
    }
}

/// Where the input goes on as the reference ends, the search stays at the
/// head: no place in the window matches better than the reference itself,
/// and among places that match as well, the first is kept.
pub proof fn lemma_self_match_wins(refr: Seq<i16>, input: Seq<i16>, ch: nat, n: nat, k: nat)
    requires
        forall|i: int| 0 <= i < n ==> refr[i] == input[i],
    ensures
        best_offset(refr, input, ch, n, k) == 0,
    decreases k,
{
    if k > 0 {
        lemma_self_match_wins(refr, input, ch, n, (k - 1) as nat);
        assert(0nat * ch == 0) by (nonlinear_arith);
        lemma_self_correlation(refr, input, n);
        let a = energy_sum(input, 0, n);
        assert(corr_at(refr, input, ch, n, 0) == a);
        assert(energy_at(input, ch, n, 0) == a);
        lemma_correlation_bound(refr, input, (k * ch) as int, n);
        lemma_self_score(a, corr_at(refr, input, ch, n, k), energy_at(input, ch, n, k));
    }
}

} // verus!
