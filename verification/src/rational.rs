//! Exact rational amounts.
//!
//! Every amount of money is a fraction `numer / denom` with a positive
//! denominator. The arithmetic itself is done by `num`'s `Ratio<i64>`, whose
//! results are always in lowest terms; an operation whose intermediate values
//! do not fit in 64 bits reports an overflow instead of a result.
use vstd::prelude::*;

verus! {

/// Greatest common divisor (Euclid).
pub open spec fn gcd(a: nat, b: nat) -> nat
    decreases b,
{
    if b == 0 {
        a
    } else {
        gcd(b, a % b)
    }
}

pub open spec fn abs(n: int) -> nat {
    if n < 0 {
        (-n) as nat
    } else {
        n as nat
    }
}

/// The fraction `n / d` (with `d > 0`) in lowest terms.
pub open spec fn normalize(n: int, d: int) -> (int, int) {
    let g = gcd(abs(n), d as nat) as int;
    (n / g, d / g)
}

/// Sum of two fractions, in lowest terms.
pub open spec fn rat_add(a: (int, int), b: (int, int)) -> (int, int) {
    normalize(a.0 * b.1 + b.0 * a.1, a.1 * b.1)
}

/// Product of two fractions, in lowest terms.
pub open spec fn rat_mul(a: (int, int), b: (int, int)) -> (int, int) {
    normalize(a.0 * b.0, a.1 * b.1)
}

/// Quotient of two fractions (`b` not zero), in lowest terms with a positive denominator.
pub open spec fn rat_div(a: (int, int), b: (int, int)) -> (int, int) {
    if b.0 < 0 {
        normalize(-(a.0 * b.1), -(a.1 * b.0))
    } else {
        normalize(a.0 * b.1, a.1 * b.0)
    }
}

pub open spec fn rat_neg(a: (int, int)) -> (int, int) {
    (-a.0, a.1)
}

/// Two fractions denote the same number.
pub open spec fn rat_eq(a: (int, int), b: (int, int)) -> bool {
    a.0 * b.1 == b.0 * a.1
}

/// Bound under which `Ratio<i64>` arithmetic cannot overflow.
pub open spec fn small(a: (int, int)) -> bool {
    -0x8000_0000 < a.0 < 0x8000_0000 && 0 < a.1 < 0x8000_0000
}

/// The greatest common divisor of two numbers, not both zero, is positive.
pub proof fn lemma_gcd_pos(a: nat, b: nat)
    requires
        a > 0 || b > 0,
    ensures
        gcd(a, b) > 0,
    decreases b,
{
    if b > 0 {
        lemma_gcd_pos(b, a % b);
    }
}

/// Reducing a fraction never moves its numerator away from zero.
pub proof fn lemma_normalize_numer_bound(n: int, d: int)
    requires
        d > 0,
    ensures
        n >= 0 ==> 0 <= normalize(n, d).0 <= n,
        n < 0 ==> n <= normalize(n, d).0 < 0,
{
    lemma_gcd_pos(abs(n), d as nat);
    let g = gcd(abs(n), d as nat) as int;
    if n >= 0 {
        assert(0 <= n / g <= n) by (nonlinear_arith)
            requires
                n >= 0,
                g >= 1,
        ;
    } else {
        assert(n <= n / g < 0) by (nonlinear_arith)
            requires
                n < 0,
                g >= 1,
        ;
    }
}

/// Builds `n / d` with `num::rational::Ratio::<i64>::new`, which reduces the
/// fraction to lowest terms with a positive denominator. The contract claims
/// that the result is `normalize(n, d)`, the unique reduced form.
#[verifier::external_body]
fn ratio_new(n: i64, d: i64) -> (res: (i64, i64))
    requires
        d > 0,
    ensures
        (res.0 as int, res.1 as int) == normalize(n as int, d as int),
        res.1 > 0,
{
    num::rational::Ratio::new(n, d).into_raw()
}

/// Whether `CheckedAdd::checked_add` on `Ratio<i64>` succeeds for the
/// fractions `a` and `b`: none of the products and the sum that it computes
/// in `i64` overflows.
pub uninterp spec fn ratio_add_ok(a: (int, int), b: (int, int)) -> bool;

/// Whether `CheckedMul::checked_mul` on `Ratio<i64>` succeeds for the
/// fractions `a` and `b`: none of the products that it computes in `i64`
/// overflows.
pub uninterp spec fn ratio_mul_ok(a: (int, int), b: (int, int)) -> bool;

/// Whether `CheckedDiv::checked_div` on `Ratio<i64>` succeeds for the
/// fractions `a` and `b`: `b` is not zero and none of the products and
/// negations that it computes in `i64` overflows.
pub uninterp spec fn ratio_div_ok(a: (int, int), b: (int, int)) -> bool;

/// `Rational::checked_add` succeeds: the `i64` sum is computed and its
/// numerator is not `i64::MIN`.
pub open spec fn add_fits(a: (int, int), b: (int, int)) -> bool {
    ratio_add_ok(a, b) && rat_add(a, b).0 != i64::MIN
}

/// `Rational::checked_mul` succeeds.
pub open spec fn mul_fits(a: (int, int), b: (int, int)) -> bool {
    ratio_mul_ok(a, b) && rat_mul(a, b).0 != i64::MIN
}

/// `Rational::checked_div` succeeds.
pub open spec fn div_fits(a: (int, int), b: (int, int)) -> bool {
    ratio_div_ok(a, b) && rat_div(a, b).0 != i64::MIN
}

/// Adds with `num::traits::CheckedAdd::checked_add` on `Ratio<i64>`. The
/// contract claims that a `Some` result is the reduced sum, that it comes
/// exactly when `ratio_add_ok` holds (the name of the source's overflow
/// checks), and that the call succeeds for operands within `small`.
#[verifier::external_body]
fn ratio_checked_add(a: (i64, i64), b: (i64, i64)) -> (res: Option<(i64, i64)>)
    requires
        a.1 > 0,
        b.1 > 0,
    ensures
        res matches Some(r) ==> (r.0 as int, r.1 as int) == rat_add((a.0 as int, a.1 as int), (b.0 as int, b.1 as int))
            && r.1 > 0,
        (res is Some) == ratio_add_ok((a.0 as int, a.1 as int), (b.0 as int, b.1 as int)),
        small((a.0 as int, a.1 as int)) && small((b.0 as int, b.1 as int)) ==> res is Some,
{
    let x = num::rational::Ratio::new_raw(a.0, a.1);
    let y = num::rational::Ratio::new_raw(b.0, b.1);
    match num::traits::CheckedAdd::checked_add(&x, &y) {
        Some(r) => Some(r.into_raw()),
        None => None,
    }
}

/// Multiplies with `num::traits::CheckedMul::checked_mul` on `Ratio<i64>`.
/// The contract claims that a `Some` result is the reduced product, that it
/// comes exactly when `ratio_mul_ok` holds (the name of the source's overflow
/// checks), and that the call succeeds for operands within `small`.
#[verifier::external_body]
fn ratio_checked_mul(a: (i64, i64), b: (i64, i64)) -> (res: Option<(i64, i64)>)
    requires
        a.1 > 0,
        b.1 > 0,
    ensures
        res matches Some(r) ==> (r.0 as int, r.1 as int) == rat_mul((a.0 as int, a.1 as int), (b.0 as int, b.1 as int))
            && r.1 > 0,
        (res is Some) == ratio_mul_ok((a.0 as int, a.1 as int), (b.0 as int, b.1 as int)),
        small((a.0 as int, a.1 as int)) && small((b.0 as int, b.1 as int)) ==> res is Some,
{
    let x = num::rational::Ratio::new_raw(a.0, a.1);
    let y = num::rational::Ratio::new_raw(b.0, b.1);
    match num::traits::CheckedMul::checked_mul(&x, &y) {
        Some(r) => Some(r.into_raw()),
        None => None,
    }
}

/// Divides with `num::traits::CheckedDiv::checked_div` on `Ratio<i64>`.
/// Numerators of `i64::MIN` are left out: the greatest common divisor that
/// the source takes overflows on them. The source returns `None` for a zero
/// divisor; the contract claims that a
/// `Some` result is the reduced quotient, that it comes exactly when
/// `ratio_div_ok` holds (the name of the source's checks), and that the call
/// succeeds for a non-zero divisor when both operands are within `small`.
#[verifier::external_body]
fn ratio_checked_div(a: (i64, i64), b: (i64, i64)) -> (res: Option<(i64, i64)>)
    requires
        a.1 > 0,
        b.1 > 0,
        a.0 > i64::MIN,
        b.0 > i64::MIN,
    ensures
        b.0 == 0 ==> res is None,
        (res is Some) == ratio_div_ok((a.0 as int, a.1 as int), (b.0 as int, b.1 as int)),
        res matches Some(r) ==> (r.0 as int, r.1 as int) == rat_div((a.0 as int, a.1 as int), (b.0 as int, b.1 as int))
            && r.1 > 0,
        b.0 != 0 && small((a.0 as int, a.1 as int)) && small((b.0 as int, b.1 as int)) ==> res is Some,
{
    let x = num::rational::Ratio::new_raw(a.0, a.1);
    let y = num::rational::Ratio::new_raw(b.0, b.1);
    match num::traits::CheckedDiv::checked_div(&x, &y) {
        Some(r) => Some(r.into_raw()),
        None => None,
    }
}

/// An exact rational number with a positive denominator.
#[derive(Clone, Copy, Debug)]
pub struct Rational {
    numer: i64,
    denom: i64,
}

impl Rational {
    /// The denominator is positive and the numerator can be negated.
    #[verifier::type_invariant]
    pub closed spec fn wf(self) -> bool {
        self.denom > 0 && self.numer > i64::MIN
    }

    /// A valid fraction has a positive denominator.
    pub proof fn lemma_wf_view(self)
        requires
            self.wf(),
        ensures
            self.view().1 > 0,
            self.view().0 > i64::MIN,
    {
    }

    /// The fraction as a pair of integers.
    pub closed spec fn view(self) -> (int, int) {
        (self.numer as int, self.denom as int)
    }

    /// `n / d` in lowest terms; `None` where the reduced numerator is `i64::MIN`.
    pub fn new(n: i64, d: i64) -> (res: Option<Rational>)
        requires
            d > 0,
        ensures
            res matches Some(r) ==> r.view() == normalize(n as int, d as int),
            res is None <==> normalize(n as int, d as int).0 == i64::MIN,
    {
        let (a, b) = ratio_new(n, d);
        if a == i64::MIN {
            None
        } else {
            Some(Rational { numer: a, denom: b })
        }
    }

    /// The integer `n`.
    pub fn from_integer(n: i64) -> (res: Rational)
        requires
            n > i64::MIN,
        ensures
            res.view() == (n as int, 1int),
    {
        Rational { numer: n, denom: 1 }
    }

    pub fn zero() -> (res: Rational)
        ensures
            res.view() == (0int, 1int),
    {
        Rational { numer: 0, denom: 1 }
    }

    /// The numerator and the denominator, which is positive.
    pub fn parts(&self) -> (res: (i64, i64))
        ensures
            res.0 == self.view().0,
            res.1 == self.view().1,
            res.1 > 0,
            res.0 > i64::MIN,
    {
        proof {
            use_type_invariant(self);
        }
        (self.numer, self.denom)
    }

    pub fn numer(&self) -> (res: i64)
        ensures
            res == self.view().0,
    {
        self.numer
    }

    pub fn denom(&self) -> (res: i64)
        ensures
            res == self.view().1,
    {
        self.denom
    }

    pub fn is_zero(&self) -> (res: bool)
        ensures
            res == (self.view().0 == 0),
    {
        self.numer == 0
    }

    pub fn is_positive(&self) -> (res: bool)
        ensures
            res == (self.view().0 > 0),
    {
        self.numer > 0
    }

    pub fn is_negative(&self) -> (res: bool)
        ensures
            res == (self.view().0 < 0),
    {
        self.numer < 0
    }

    pub fn neg(&self) -> (res: Rational)
        ensures
            res.view() == rat_neg(self.view()),
    {
        proof {
            use_type_invariant(self);
        }
        Rational { numer: -self.numer, denom: self.denom }
    }

    /// Whether the two fractions denote the same number.
    pub fn same_value(&self, other: &Rational) -> (res: bool)
        ensures
            res == rat_eq(self.view(), other.view()),
    {
        proof {
            use_type_invariant(self);
            use_type_invariant(other);
        }
        let a: i128 = self.numer as i128;
        let b: i128 = other.denom as i128;
        let c: i128 = other.numer as i128;
        let d: i128 = self.denom as i128;
        assert(-0x4000_0000_0000_0000_0000_0000_0000_0000 <= a * b <= 0x4000_0000_0000_0000_0000_0000_0000_0000) by (nonlinear_arith)
            requires
                -0x8000_0000_0000_0000 <= a <= 0x8000_0000_0000_0000,
                0 < b <= 0x8000_0000_0000_0000,
        {
        }
        assert(-0x4000_0000_0000_0000_0000_0000_0000_0000 <= c * d <= 0x4000_0000_0000_0000_0000_0000_0000_0000) by (nonlinear_arith)
            requires
                -0x8000_0000_0000_0000 <= c <= 0x8000_0000_0000_0000,
                0 < d <= 0x8000_0000_0000_0000,
        {
        }
        let l: i128 = a * b;
        let r: i128 = c * d;
        l == r
    }

    /// Sum; `None` on overflow.
    pub fn checked_add(&self, other: &Rational) -> (res: Option<Rational>)
        ensures
            res matches Some(r) ==> r.view() == rat_add(self.view(), other.view()),
            (res is Some) == add_fits(self.view(), other.view()),
            small(self.view()) && small(other.view()) && small(rat_add(self.view(), other.view()))
                ==> res is Some,
    {
        proof {
            use_type_invariant(self);
            use_type_invariant(other);
        }
        match ratio_checked_add((self.numer, self.denom), (other.numer, other.denom)) {
            Some((a, b)) => {
                if a == i64::MIN {
                    None
                } else {
                    Some(Rational { numer: a, denom: b })
                }
            },
            None => None,
        }
    }

    /// Difference; `None` on overflow.
    pub fn checked_sub(&self, other: &Rational) -> (res: Option<Rational>)
        ensures
            res matches Some(r) ==> r.view() == rat_add(self.view(), rat_neg(other.view())),
            (res is Some) == add_fits(self.view(), rat_neg(other.view())),
            small(self.view()) && small(other.view()) && small(rat_add(self.view(), rat_neg(other.view())))
                ==> res is Some,
    {
        let n = other.neg();
        self.checked_add(&n)
    }

    /// Product; `None` on overflow.
    pub fn checked_mul(&self, other: &Rational) -> (res: Option<Rational>)
        ensures
            res matches Some(r) ==> r.view() == rat_mul(self.view(), other.view()),
            (res is Some) == mul_fits(self.view(), other.view()),
            small(self.view()) && small(other.view()) && small(rat_mul(self.view(), other.view()))
                ==> res is Some,
    {
        proof {
            use_type_invariant(self);
            use_type_invariant(other);
        }
        match ratio_checked_mul((self.numer, self.denom), (other.numer, other.denom)) {
            Some((a, b)) => {
                if a == i64::MIN {
                    None
                } else {
                    Some(Rational { numer: a, denom: b })
                }
            },
            None => None,
        }
    }

    /// Quotient; `None` when `other` is zero or on overflow.
    pub fn checked_div(&self, other: &Rational) -> (res: Option<Rational>)
        ensures
            other.view().0 == 0 ==> res is None,
            res matches Some(r) ==> r.view() == rat_div(self.view(), other.view()),
            (res is Some) == div_fits(self.view(), other.view()),
            other.view().0 != 0 && small(self.view()) && small(other.view()) && small(
                rat_div(self.view(), other.view()),
            ) ==> res is Some,
    {
        proof {
            use_type_invariant(self);
            use_type_invariant(other);
        }
        match ratio_checked_div((self.numer, self.denom), (other.numer, other.denom)) {
            Some((a, b)) => {
                if a == i64::MIN {
                    None
                } else {
                    Some(Rational { numer: a, denom: b })
                }
            },
            None => None,
        }
    }
}

} // verus!
