//! Fixed-point numbers with 18 decimals.
use crate::wide::{mul_div, spec_abs, spec_mul_div};
use vstd::prelude::*;

verus! {

/// One unit in fixed point: 10^18.
pub const SCALE: i128 = 1_000_000_000_000_000_000;

/// Number of Taylor terms after which `Fixed::exp` stops.
pub const EXP_MAX_TERMS: i128 = 256;

/// A fixed-point number: the real value is `self.0 / SCALE`.
#[derive(Copy, Clone, Debug, PartialEq, Eq, Structural)]
pub struct Fixed(pub i128);

/// The fixed-point product `a * b / SCALE`, rounded toward zero, when it fits.
pub open spec fn spec_fixed_mul(a: i128, b: i128) -> Option<i128> {
    spec_mul_div(a as int, b as int, SCALE as int)
}

/// The Taylor series of e^x from term `k` on, in fixed point: each term is the
/// previous one times `x / (k + 1)`, rounded toward zero; the sum stops at the
/// first zero term or after `EXP_MAX_TERMS` terms, and fails when a term or
/// the sum does not fit in an `i128`.
pub open spec fn exp_terms(x: i128, k: nat, term: i128, acc: i128) -> Option<i128>
    decreases EXP_MAX_TERMS - k,
{
    if k >= EXP_MAX_TERMS {
        Some(acc)
    } else {
        match spec_mul_div(term as int, x as int, SCALE * (k + 1)) {
            None => None,
            Some(t) => if t == 0 {
                Some(acc)
            } else if acc + t > i128::MAX || acc + t < i128::MIN {
                None
            } else {
                exp_terms(x, k + 1, t, (acc + t) as i128)
            },
        }
    }
}

/// e^x in fixed point, by its Taylor series from 1.
pub open spec fn spec_fixed_exp(x: i128) -> Option<i128> {
    exp_terms(x, 0, SCALE, SCALE)
}

impl Fixed {
    /// The fixed-point number 1.
    pub fn one() -> (r: Fixed)
        ensures
            r.0 == SCALE,
    {
        Fixed(SCALE)
    }

    /// The fixed-point number for the integer `value`, when it fits.
    pub fn from_int(value: i128) -> (r: Option<Fixed>)
        ensures
            r == (if i128::MIN <= value * SCALE <= i128::MAX {
                Some(Fixed((value * SCALE) as i128))
            } else {
                None
            }),
    {
        match value.checked_mul(SCALE) {
            Some(v) => Some(Fixed(v)),
            None => None,
        }
    }

    /// Fixed-point product, rounded toward zero; `None` when it does not fit.
    pub fn mul(self, other: Fixed) -> (r: Option<Fixed>)
        requires
            self.0 != i128::MIN,
            other.0 != i128::MIN,
        ensures
            r == (match spec_fixed_mul(self.0, other.0) {
                Some(v) => Some(Fixed(v)),
                None => None,
            }),
    {
        match mul_div(self.0, other.0, SCALE) {
            Some(v) => Some(Fixed(v)),
            None => None,
        }
    }

    /// Fixed-point difference; `None` when it does not fit.
    pub fn sub(self, other: Fixed) -> (r: Option<Fixed>)
        ensures
            r == (if i128::MIN <= self.0 - other.0 <= i128::MAX {
                Some(Fixed((self.0 - other.0) as i128))
            } else {
                None
            }),
    {
        match self.0.checked_sub(other.0) {
            Some(v) => Some(Fixed(v)),
            None => None,
        }
    }

    /// e^self in fixed point (see `spec_fixed_exp`); `None` when a term or
    /// the sum does not fit.
    pub fn exp(self) -> (r: Option<Fixed>)
        requires
            self.0 != i128::MIN,
        ensures
            r == (match spec_fixed_exp(self.0) {
                Some(v) => Some(Fixed(v)),
                None => None,
            }),
    {
        let x = self.0;
        let mut term: i128 = SCALE;
        let mut acc: i128 = SCALE;
        let mut k: i128 = 0;
        while k < EXP_MAX_TERMS
            invariant
                0 <= k <= EXP_MAX_TERMS,
                x == self.0,
                x != i128::MIN,
                term != i128::MIN,
                spec_fixed_exp(x) == exp_terms(x, k as nat, term, acc),
            decreases EXP_MAX_TERMS - k,
        {
            match mul_div(term, x, SCALE * (k + 1)) {
                None => {
                    return None;
                },
                Some(t) => {
                    if t == 0 {
                        return Some(Fixed(acc));
                    }
                    match acc.checked_add(t) {
                        None => {
                            return None;
                        },
                        Some(s) => {
                            acc = s;
                            term = t;
                        },
                    }
                },
            }
            k = k + 1;
        }
        Some(Fixed(acc))
    }
}

/// For non-negative operands, the fixed-point product is non-negative, and it
/// is at least `a` when `b` is at least one.
pub proof fn lemma_fixed_mul_nonneg(a: i128, b: i128)
    requires
        a >= 0,
        b >= 0,
    ensures
        spec_fixed_mul(a, b) matches Some(v) ==> v >= 0,
        spec_fixed_mul(a, b) matches Some(v) ==> (b >= SCALE ==> v >= a),
        spec_fixed_mul(a, b) matches Some(v) ==> (b <= SCALE ==> v <= a),
        b <= SCALE ==> spec_fixed_mul(a, b) is Some,
        b >= SCALE ==> (spec_fixed_mul(a, b) is Some ==> a <= spec_fixed_mul(a, b)->0),
{
    let p = a as int * b as int;
    assert(p >= 0) by (nonlinear_arith)
        requires a >= 0, b >= 0, p == a as int * b as int;
    vstd::arithmetic::div_mod::lemma_div_pos_is_pos(p, SCALE as int);
    if b >= SCALE {
        assert(a as int * SCALE <= p) by (nonlinear_arith)
            requires b >= SCALE, a >= 0, p == a as int * b as int;
        vstd::arithmetic::div_mod::lemma_div_is_ordered(a as int * SCALE, p, SCALE as int);
        vstd::arithmetic::div_mod::lemma_div_by_multiple(a as int, SCALE as int);
    }
    if b <= SCALE {
        assert(p <= a as int * SCALE) by (nonlinear_arith)
            requires b <= SCALE, a >= 0, p == a as int * b as int;
        vstd::arithmetic::div_mod::lemma_div_is_ordered(p, a as int * SCALE, SCALE as int);
        vstd::arithmetic::div_mod::lemma_div_by_multiple(a as int, SCALE as int);
    }
}

proof fn lemma_exp_terms_ge(x: i128, k: nat, term: i128, acc: i128)
    requires
        x >= 0,
        term >= 0,
    ensures
        exp_terms(x, k, term, acc) matches Some(v) ==> v >= acc,
    decreases EXP_MAX_TERMS - k,
{
    if k < EXP_MAX_TERMS {
        let d = SCALE * (k + 1);
        match spec_mul_div(term as int, x as int, d) {
            None => {},
            Some(t) => {
                let p = term as int * x as int;
                assert(p >= 0) by (nonlinear_arith)
                    requires term >= 0, x >= 0, p == term as int * x as int;
                vstd::arithmetic::div_mod::lemma_div_pos_is_pos(p, d);
                if t != 0 && !(acc + t > i128::MAX || acc + t < i128::MIN) {
                    lemma_exp_terms_ge(x, k + 1, t, (acc + t) as i128);
                }
            },
        }
    }
}

/// e^x is at least one for non-negative x, whenever it is defined.
pub proof fn lemma_fixed_exp_ge_one(x: i128)
    requires
        x >= 0,
    ensures
        spec_fixed_exp(x) matches Some(v) ==> v >= SCALE,
{
    lemma_exp_terms_ge(x, 0, SCALE, SCALE);
}

}
