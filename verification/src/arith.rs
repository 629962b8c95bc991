//! Small arithmetic facts about frame counts and rounding that the other
//! modules share.

use vstd::prelude::*;

verus! {

/// The smaller of two integers.
pub open spec fn min_int(a: int, b: int) -> int {
    if a <= b {
        a
    } else {
        b
    }
}

/// The larger of two integers.
pub open spec fn max_int(a: int, b: int) -> int {
    if a >= b {
        a
    } else {
        b
    }
}

/// A buffer of `len` samples that holds whole frames of `ch` samples can give
/// up `n` of its `len / ch` frames, and what is left is again whole frames.
pub proof fn lemma_take_frames(len: int, ch: int, n: int)
    requires
        ch >= 1,
        len >= 0,
        len % ch == 0,
        0 <= n <= len / ch,
    ensures
        0 <= n * ch <= len,
        (len - n * ch) % ch == 0,
        (len - n * ch) / ch == len / ch - n,
        (n * ch) % ch == 0,
        (n * ch) / ch == n,
        (len / ch) * ch == len,
{
    let q = len / ch;
    assert(len == ch * q) by {
        vstd::arithmetic::div_mod::lemma_fundamental_div_mod(len, ch);
    }
    assert(q * ch == len) by (nonlinear_arith)
        requires
            len == ch * q,
    ;
    assert(0 <= n * ch <= q * ch) by (nonlinear_arith)
        requires
            0 <= n <= q,
            ch >= 1,
    ;
    assert(q * ch == ch * q) by (nonlinear_arith);
    assert(len - n * ch == ch * (q - n)) by (nonlinear_arith)
        requires
            len == ch * q,
    ;
    vstd::arithmetic::div_mod::lemma_fundamental_div_mod_converse(len - n * ch, ch, q - n, 0);
    assert(n * ch == ch * n) by (nonlinear_arith);
    vstd::arithmetic::div_mod::lemma_fundamental_div_mod_converse(n * ch, ch, n, 0);
}

/// Adding whole frames to whole frames gives whole frames, and the frame
/// counts add up.
pub proof fn lemma_add_frames(a: int, b: int, ch: int)
    requires
        ch >= 1,
        a >= 0,
        b >= 0,
        a % ch == 0,
        b % ch == 0,
    ensures
        (a + b) % ch == 0,
        (a + b) / ch == a / ch + b / ch,
{
    let qa = a / ch;
    let qb = b / ch;
    vstd::arithmetic::div_mod::lemma_fundamental_div_mod(a, ch);
    vstd::arithmetic::div_mod::lemma_fundamental_div_mod(b, ch);
    assert(a + b == ch * (qa + qb)) by (nonlinear_arith)
        requires
            a == ch * qa,
            b == ch * qb,
    ;
    vstd::arithmetic::div_mod::lemma_fundamental_div_mod_converse(a + b, ch, qa + qb, 0);
}

/// `n` frames of `ch` samples are `n * ch` samples, which is a whole number of
/// frames again; the product grows with `n`.
pub proof fn lemma_frames_to_samples(n: int, m: int, ch: int)
    requires
        ch >= 1,
        0 <= n <= m,
    ensures
        0 <= n * ch <= m * ch,
        (n * ch) % ch == 0,
        (n * ch) / ch == n,
        n <= n * ch,
{
    assert(0 <= n * ch <= m * ch) by (nonlinear_arith)
        requires
            0 <= n <= m,
            ch >= 1,
    ;
    assert(n <= n * ch) by (nonlinear_arith)
        requires
            0 <= n,
            ch >= 1,
    ;
    assert(n * ch == ch * n) by (nonlinear_arith);
    vstd::arithmetic::div_mod::lemma_fundamental_div_mod_converse(n * ch, ch, n, 0);
}

} // verus!
