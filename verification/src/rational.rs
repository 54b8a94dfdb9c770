use vstd::arithmetic::div_mod::{lemma_fundamental_div_mod, lemma_mod_multiples_basic};
use vstd::arithmetic::mul::{
    lemma_mul_is_commutative, lemma_mul_nonzero, lemma_mul_strictly_positive,
    lemma_mul_unary_negation,
};
use vstd::prelude::*;

use crate::digits::{dec_digits_of, push_decimal_digits};
use crate::errors::EvalError;

verus! {

/// Mathematical model of an exact rational value: a numerator and a
/// denominator, not necessarily in lowest terms.
pub struct SpecRat {
    pub num: int,
    pub den: int,
}

/// Whether an exact value fits the symmetric 128-bit range used by the
/// executable representation. The most negative `i128` is excluded so that
/// negation never overflows.
pub open spec fn fits(x: int) -> bool {
    -(i128::MAX as int) <= x && x <= i128::MAX as int
}

/// Well-formedness of a rational value: both components in range and a
/// strictly positive denominator.
pub open spec fn wf_rat(r: SpecRat) -> bool {
    fits(r.num) && 1 <= r.den && r.den <= i128::MAX as int
}

/// Exact sum `a + b`, or an overflow error when some intermediate product
/// or the final numerator falls outside the representable range.
pub open spec fn rat_add(a: SpecRat, b: SpecRat) -> Result<SpecRat, EvalError> {
    let n1 = a.num * b.den;
    let n2 = b.num * a.den;
    let d = a.den * b.den;
    if fits(n1) && fits(n2) && fits(n1 + n2) && fits(d) {
        Ok(SpecRat { num: n1 + n2, den: d })
    } else {
        Err(EvalError::Overflow)
    }
}

/// Exact difference `a - b`, with the same overflow discipline as `rat_add`.
pub open spec fn rat_sub(a: SpecRat, b: SpecRat) -> Result<SpecRat, EvalError> {
    let n1 = a.num * b.den;
    let n2 = b.num * a.den;
    let d = a.den * b.den;
    if fits(n1) && fits(n2) && fits(n1 - n2) && fits(d) {
        Ok(SpecRat { num: n1 - n2, den: d })
    } else {
        Err(EvalError::Overflow)
    }
}

/// Exact product `a * b`, with the same overflow discipline as `rat_add`.
pub open spec fn rat_mul(a: SpecRat, b: SpecRat) -> Result<SpecRat, EvalError> {
    let n = a.num * b.num;
    let d = a.den * b.den;
    if fits(n) && fits(d) {
        Ok(SpecRat { num: n, den: d })
    } else {
        Err(EvalError::Overflow)
    }
}

/// Exact quotient `a / b`. Division by an exactly zero value fails with
/// `DivisionByZero`; the sign is normalized into the numerator so that the
/// denominator stays positive.
pub open spec fn rat_div(a: SpecRat, b: SpecRat) -> Result<SpecRat, EvalError> {
    if b.num == 0 {
        Err(EvalError::DivisionByZero)
    } else {
        let n = a.num * b.den;
        let d = a.den * b.num;
        if fits(n) && fits(d) {
            if d < 0 {
                Ok(SpecRat { num: -n, den: -d })
            } else {
                Ok(SpecRat { num: n, den: d })
            }
        } else {
            Err(EvalError::Overflow)
        }
    }
}

/// An exact rational value: `num / den`, with `den` strictly positive.
/// The pair is not reduced to lowest terms; equality of values is equality
/// after cross-multiplication.
#[derive(Clone, Copy, Debug)]
pub struct Rational {
    num: i128,
    den: i128,
}

impl View for Rational {
    type V = SpecRat;

    closed spec fn view(&self) -> SpecRat {
        SpecRat { num: self.num as int, den: self.den as int }
    }
}

/// How an executable result relates to its mathematical counterpart: the
/// same error, or a well-formed value with the same components.
pub open spec fn rat_result_matches(
    r: Result<Rational, EvalError>,
    m: Result<SpecRat, EvalError>,
) -> bool {
    match (r, m) {
        (Ok(a), Ok(b)) => a@ == b && a.wf(),
        (Err(e1), Err(e2)) => e1 == e2,
        _ => false,
    }
}

impl Rational {
    pub open spec fn wf(&self) -> bool {
        wf_rat(self@)
    }

    /// The whole number `n`, as the rational `n / 1`.
    pub fn from_int(n: i128) -> (r: Rational)
        requires
            -i128::MAX <= n,
        ensures
            r@ == (SpecRat { num: n as int, den: 1 }),
            r.wf(),
    {
        Rational { num: n, den: 1 }
    }

    pub fn num(&self) -> (n: i128)
        ensures
            n as int == self@.num,
    {
        self.num
    }

    pub fn den(&self) -> (d: i128)
        ensures
            d as int == self@.den,
    {
        self.den
    }

    /// Exact addition, failing only on 128-bit overflow.
    pub fn try_add(&self, other: &Rational) -> (res: Result<Rational, EvalError>)
        requires
            self.wf(),
            other.wf(),
        ensures
            rat_result_matches(res, rat_add(self@, other@)),
    {
        let n1 = match self.num.checked_mul(other.den) {
            Some(v) => v,
            None => {
                return Err(EvalError::Overflow);
            },
        };
        if n1 == i128::MIN {
            return Err(EvalError::Overflow);
        }
        let n2 = match other.num.checked_mul(self.den) {
            Some(v) => v,
            None => {
                return Err(EvalError::Overflow);
            },
        };
        if n2 == i128::MIN {
            return Err(EvalError::Overflow);
        }
        let n = match n1.checked_add(n2) {
            Some(v) => v,
            None => {
                return Err(EvalError::Overflow);
            },
        };
        if n == i128::MIN {
            return Err(EvalError::Overflow);
        }
        let d = match self.den.checked_mul(other.den) {
            Some(v) => v,
            None => {
                return Err(EvalError::Overflow);
            },
        };
        proof {
            lemma_mul_strictly_positive(self.den as int, other.den as int);
        }
        Ok(Rational { num: n, den: d })
    }

    /// Exact subtraction, failing only on 128-bit overflow.
    pub fn try_sub(&self, other: &Rational) -> (res: Result<Rational, EvalError>)
        requires
            self.wf(),
            other.wf(),
        ensures
            rat_result_matches(res, rat_sub(self@, other@)),
    {
        let n1 = match self.num.checked_mul(other.den) {
            Some(v) => v,
            None => {
                return Err(EvalError::Overflow);
            },
        };
        if n1 == i128::MIN {
            return Err(EvalError::Overflow);
        }
        let n2 = match other.num.checked_mul(self.den) {
            Some(v) => v,
            None => {
                return Err(EvalError::Overflow);
            },
        };
        if n2 == i128::MIN {
            return Err(EvalError::Overflow);
        }
        let n = match n1.checked_sub(n2) {
            Some(v) => v,
            None => {
                return Err(EvalError::Overflow);
            },
        };
        if n == i128::MIN {
            return Err(EvalError::Overflow);
        }
        let d = match self.den.checked_mul(other.den) {
            Some(v) => v,
            None => {
                return Err(EvalError::Overflow);
            },
        };
        proof {
            lemma_mul_strictly_positive(self.den as int, other.den as int);
        }
        Ok(Rational { num: n, den: d })
    }

    /// Exact multiplication, failing only on 128-bit overflow.
    pub fn try_mul(&self, other: &Rational) -> (res: Result<Rational, EvalError>)
        requires
            self.wf(),
            other.wf(),
        ensures
            rat_result_matches(res, rat_mul(self@, other@)),
    {
        let n = match self.num.checked_mul(other.num) {
            Some(v) => v,
            None => {
                return Err(EvalError::Overflow);
            },
        };
        if n == i128::MIN {
            return Err(EvalError::Overflow);
        }
        let d = match self.den.checked_mul(other.den) {
            Some(v) => v,
            None => {
                return Err(EvalError::Overflow);
            },
        };
        proof {
            lemma_mul_strictly_positive(self.den as int, other.den as int);
        }
        Ok(Rational { num: n, den: d })
    }

    /// Exact division. Fails with `DivisionByZero` when `other` is exactly
    /// zero, and with `Overflow` on 128-bit overflow.
    pub fn try_div(&self, other: &Rational) -> (res: Result<Rational, EvalError>)
        requires
            self.wf(),
            other.wf(),
        ensures
            rat_result_matches(res, rat_div(self@, other@)),
    {
        if other.num == 0 {
            return Err(EvalError::DivisionByZero);
        }
        let n = match self.num.checked_mul(other.den) {
            Some(v) => v,
            None => {
                return Err(EvalError::Overflow);
            },
        };
        if n == i128::MIN {
            return Err(EvalError::Overflow);
        }
        let d = match self.den.checked_mul(other.num) {
            Some(v) => v,
            None => {
                return Err(EvalError::Overflow);
            },
        };
        if d == i128::MIN {
            return Err(EvalError::Overflow);
        }
        proof {
            lemma_mul_nonzero(self.den as int, other.num as int);
        }
        if d < 0 {
            Ok(Rational { num: -n, den: -d })
        } else {
            Ok(Rational { num: n, den: d })
        }
    }

    /// Whether the value is a whole number: the denominator divides the
    /// numerator exactly.
    pub fn is_integer(&self) -> (b: bool)
        requires
            self.wf(),
        ensures
            b == (self@.num % self@.den == 0),
    {
        let m: u128 = if self.num < 0 {
            (-self.num) as u128
        } else {
            self.num as u128
        };
        let d: u128 = self.den as u128;
        proof {
            if self.num < 0 {
                lemma_neg_divides(m as int, self.den as int);
            }
        }
        m % d == 0
    }

    /// The decimal digit string of a non-negative whole-number value.
    pub fn integer_digits(&self) -> (v: Vec<char>)
        requires
            self.wf(),
            0 <= self@.num,
            self@.num % self@.den == 0,
        ensures
            v@ == dec_digits_of(self@.num / self@.den),
    {
        let q: u128 = (self.num as u128) / (self.den as u128);
        let mut v: Vec<char> = Vec::new();
        push_decimal_digits(q, &mut v);
        v
    }
}

/// A positive integer divides a value exactly when it divides its negation.
proof fn lemma_neg_divides(x: int, d: int)
    requires
        0 < d,
    ensures
        (x % d == 0) <==> ((-x) % d == 0),
{
    lemma_fundamental_div_mod(x, d);
    lemma_fundamental_div_mod(-x, d);
    if x % d == 0 {
        assert(x == d * (x / d));
        lemma_mul_is_commutative(d, x / d);
        lemma_mul_unary_negation(x / d, d);
        assert(-x == (-(x / d)) * d);
        lemma_mod_multiples_basic(-(x / d), d);
    }
    if (-x) % d == 0 {
        assert(-x == d * ((-x) / d));
        lemma_mul_is_commutative(d, (-x) / d);
        lemma_mul_unary_negation((-x) / d, d);
        assert(x == (-((-x) / d)) * d);
        lemma_mod_multiples_basic(-((-x) / d), d);
    }
}

/// A well-formed sum is again well-formed.
pub proof fn lemma_rat_add_wf(a: SpecRat, b: SpecRat)
    requires
        wf_rat(a),
        wf_rat(b),
    ensures
        rat_add(a, b) matches Ok(r) ==> wf_rat(r),
{
    lemma_mul_strictly_positive(a.den, b.den);
}

/// A well-formed difference is again well-formed.
pub proof fn lemma_rat_sub_wf(a: SpecRat, b: SpecRat)
    requires
        wf_rat(a),
        wf_rat(b),
    ensures
        rat_sub(a, b) matches Ok(r) ==> wf_rat(r),
{
    lemma_mul_strictly_positive(a.den, b.den);
}

/// A well-formed product is again well-formed.
pub proof fn lemma_rat_mul_wf(a: SpecRat, b: SpecRat)
    requires
        wf_rat(a),
        wf_rat(b),
    ensures
        rat_mul(a, b) matches Ok(r) ==> wf_rat(r),
{
    lemma_mul_strictly_positive(a.den, b.den);
}

/// A well-formed quotient is again well-formed.
pub proof fn lemma_rat_div_wf(a: SpecRat, b: SpecRat)
    requires
        wf_rat(a),
        wf_rat(b),
    ensures
        rat_div(a, b) matches Ok(r) ==> wf_rat(r),
{
    if b.num != 0 {
        lemma_mul_nonzero(a.den, b.num);
    }
}

} // verus!
