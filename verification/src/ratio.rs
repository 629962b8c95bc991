//! Exact positive ratios, the form in which tempo, pitch and rate are given.
//!
//! A ratio is a numerator over a denominator. `3/2` is one and a half times the
//! input; `1/1` leaves the stream as it is.

use vstd::prelude::*;

verus! {

/// The largest numerator or denominator of a ratio that a control accepts.
pub const MAX_TERM: u64 = 1048576;

/// A ratio of two whole numbers.
#[derive(Clone, Copy, Debug, PartialEq, Eq, Structural)]
pub struct Ratio {
    pub num: u64,
    pub den: u64,
}

impl Ratio {
    /// Both terms are at least one: the ratio is a positive number.
    pub open spec fn positive(self) -> bool {
        self.num >= 1 && self.den >= 1
    }

    /// The ratio is positive and small enough to be set as a control value.
    pub open spec fn wf(self) -> bool {
        1 <= self.num <= MAX_TERM && 1 <= self.den <= MAX_TERM
    }

    /// The two ratios stand for the same number.
    pub open spec fn same(self, other: Ratio) -> bool {
        self.num * other.den == other.num * self.den
    }

    /// The ratio stands for the number one.
    pub open spec fn is_unity(self) -> bool {
        self.num == self.den
    }

    /// `num / den`, where both lie between one and `MAX_TERM`.
    pub fn new(num: u64, den: u64) -> (r: Option<Ratio>)
        ensures
            r is Some <==> (1 <= num <= MAX_TERM && 1 <= den <= MAX_TERM),
            r matches Some(q) ==> q.num == num && q.den == den && q.wf(),
    {
        if 1 <= num && num <= MAX_TERM && 1 <= den && den <= MAX_TERM {
            Some(Ratio { num, den })
        } else {
            None
        }
    }

    /// The ratio `1/1`.
    pub fn one() -> (r: Ratio)
        ensures
            r.num == 1,
            r.den == 1,
            r.wf(),
            r.is_unity(),
    {
        Ratio { num: 1, den: 1 }
    }

    /// Whether the ratio stands for the number one.
    pub fn is_one(&self) -> (r: bool)
        ensures
            r <==> self.is_unity(),
    {
        self.num == self.den
    }

    /// The ratio that a change of `percent` per cent makes: `(100 + percent) / 100`.
    ///
    /// There is none where the change takes away the whole or more,
    /// or leads past `MAX_TERM`.
    pub fn from_percent(percent: i32) -> (r: Option<Ratio>)
        ensures
            r is Some <==> -100 < percent <= MAX_TERM - 100,
            r matches Some(q) ==> q.num == 100 + percent && q.den == 100 && q.wf(),
    {
        if percent > -100 && percent <= 1048476 {
            let num: i32 = 100 + percent;
            Some(Ratio { num: num as u64, den: 100 })
        } else {
            None
        }
    }

    /// The product of two ratios, term by term.
    pub open spec fn times(self, other: Ratio) -> Ratio {
        Ratio { num: (self.num * other.num) as u64, den: (self.den * other.den) as u64 }
    }

    /// The quotient of two ratios, term by term.
    pub open spec fn over(self, other: Ratio) -> Ratio {
        Ratio { num: (self.num * other.den) as u64, den: (self.den * other.num) as u64 }
    }

    /// The product of two control values.
    pub fn product(&self, other: &Ratio) -> (r: Ratio)
        requires
            self.wf(),
            other.wf(),
        ensures
            r == self.times(*other),
            r.num == self.num * other.num,
            r.den == self.den * other.den,
            r.positive(),
            r.num <= MAX_TERM * MAX_TERM,
            r.den <= MAX_TERM * MAX_TERM,
    {
        proof {
            lemma_term_product(self.num as int, other.num as int);
            lemma_term_product(self.den as int, other.den as int);
        }
        Ratio { num: self.num * other.num, den: self.den * other.den }
    }

    /// The quotient of two control values.
    pub fn quotient(&self, other: &Ratio) -> (r: Ratio)
        requires
            self.wf(),
            other.wf(),
        ensures
            r == self.over(*other),
            r.num == self.num * other.den,
            r.den == self.den * other.num,
            r.positive(),
            r.num <= MAX_TERM * MAX_TERM,
            r.den <= MAX_TERM * MAX_TERM,
    {
        proof {
            lemma_term_product(self.num as int, other.den as int);
            lemma_term_product(self.den as int, other.num as int);
        }
        Ratio { num: self.num * other.den, den: self.den * other.num }
    }
}

/// The product of two terms of control values is positive and fits in 64 bits.
pub proof fn lemma_term_product(a: int, b: int)
    requires
        1 <= a <= MAX_TERM,
        1 <= b <= MAX_TERM,
    ensures
        1 <= a * b <= MAX_TERM * MAX_TERM,
        MAX_TERM * MAX_TERM == 1099511627776,
        a * b <= u64::MAX,
{
    assert(1 <= a * b <= 1048576 * 1048576) by (nonlinear_arith)
        requires
            1 <= a <= 1048576,
            1 <= b <= 1048576,
    ;
}

} // verus!
