//! Exact rational values with signed 64-bit numerator and denominator.
//!
//! A `Rational` is well formed when its denominator is positive. Two
//! rationals are equal in value when they cross-multiply to the same
//! product; no canonical (reduced) form is required for that test.
//! Arithmetic is exact and is carried out by `num_rational`'s checked
//! operations: a result that does not fit in 64 bits is reported as `None`,
//! never wrapped and never a panic.

use vstd::prelude::*;

verus! {

use vstd::arithmetic::mul::{lemma_mul_is_distributive_add_other_way, lemma_mul_is_distributive_sub_other_way};

/// An exact fraction. Arithmetic is exact; operations whose result would
/// not fit in 64 bits report `None` instead of wrapping or panicking.
#[derive(Clone, Copy, Debug)]
pub struct Rational {
    pub numer: i64,
    pub denom: i64,
}

/// Value equality of two exact fractions, by cross-multiplication.
pub open spec fn val_eq(x: (int, int), y: (int, int)) -> bool {
    x.0 * y.1 == y.0 * x.1
}

/// The exact sum of two fractions.
pub open spec fn val_add(x: (int, int), y: (int, int)) -> (int, int) {
    (x.0 * y.1 + y.0 * x.1, x.1 * y.1)
}

/// The exact difference of two fractions.
pub open spec fn val_sub(x: (int, int), y: (int, int)) -> (int, int) {
    (x.0 * y.1 - y.0 * x.1, x.1 * y.1)
}

/// The exact product of two fractions.
pub open spec fn val_mul(x: (int, int), y: (int, int)) -> (int, int) {
    (x.0 * y.0, x.1 * y.1)
}

/// The exact quotient of two fractions.
pub open spec fn val_div(x: (int, int), y: (int, int)) -> (int, int) {
    (x.0 * y.1, x.1 * y.0)
}

/// The fraction denoting zero.
pub open spec fn val_zero() -> (int, int) {
    (0int, 1int)
}

/// The rational with the given exact numerator and denominator.
pub open spec fn rat_of(p: (int, int)) -> Rational {
    Rational { numer: p.0 as i64, denom: p.1 as i64 }
}

/// The exact fraction an optional rational carries, if any.
pub open spec fn opt_v(r: Option<Rational>) -> Option<(int, int)> {
    match r {
        Some(s) => Some(s.v()),
        None => None,
    }
}

/// What num_rational's checked addition returns for two fractions: the
/// reduced exact sum when it fits in 64 bits, `None` otherwise. A pure
/// function of the two representations.
pub uninterp spec fn add_raw(x: (int, int), y: (int, int)) -> Option<(int, int)>;

/// What num_rational's checked subtraction returns for two fractions.
pub uninterp spec fn sub_raw(x: (int, int), y: (int, int)) -> Option<(int, int)>;

/// What num_rational's checked multiplication returns for two fractions.
pub uninterp spec fn mul_raw(x: (int, int), y: (int, int)) -> Option<(int, int)>;

/// What num_rational's checked division returns for two fractions.
pub uninterp spec fn div_raw(x: (int, int), y: (int, int)) -> Option<(int, int)>;

/// What dividing two fractions yields in this library: zero divided by
/// anything admissible is exactly zero, every other case is num_rational's
/// checked division.
pub open spec fn div_result(x: (int, int), y: (int, int)) -> Option<(int, int)> {
    if x.0 == 0 {
        Some((0int, 1int))
    } else {
        div_raw(x, y)
    }
}

impl Rational {
    /// A rational is well formed when its denominator is positive.
    pub open spec fn wf(self) -> bool {
        self.denom > 0
    }

    /// The mathematical value as an exact (numerator, denominator) pair.
    pub open spec fn v(self) -> (int, int) {
        (self.numer as int, self.denom as int)
    }

    /// The rational with value `n`.
    pub fn from_int(n: i64) -> (r: Rational)
        ensures
            r.numer == n,
            r.denom == 1,
            r.wf(),
    {
        Rational { numer: n, denom: 1 }
    }

    /// The rational `n / d`.
    pub fn new(n: i64, d: i64) -> (r: Rational)
        requires
            d > 0,
        ensures
            r.numer == n,
            r.denom == d,
            r.wf(),
    {
        Rational { numer: n, denom: d }
    }

    /// Whether `self` and `other` denote the same value.
    pub fn eq_value(&self, other: &Rational) -> (r: bool)
        ensures
            r == val_eq(self.v(), other.v()),
    {
        proof {
            lemma_i64_product_fits(self.numer as int, other.denom as int);
            lemma_i64_product_fits(other.numer as int, self.denom as int);
        }
        let l: i128 = (self.numer as i128) * (other.denom as i128);
        let r: i128 = (other.numer as i128) * (self.denom as i128);
        l == r
    }

    /// Whether `self` denotes zero.
    pub fn is_zero(&self) -> (r: bool)
        requires
            self.wf(),
        ensures
            r == val_eq(self.v(), val_zero()),
            r == (self.numer == 0),
    {
        self.numer == 0
    }

    /// Relies on num_rational's `CheckedAdd` for `Ratio<i64>`: the exact sum,
    /// with a positive denominator, or `None` when it does not fit in 64 bits.
    #[verifier::external_body]
    pub(crate) fn checked_add(&self, other: &Rational) -> (r: Option<Rational>)
        requires
            self.wf(),
            other.wf(),
        ensures
            r matches Some(s) ==> s.wf() && val_eq(s.v(), val_add(self.v(), other.v())),
            opt_v(r) == add_raw(self.v(), other.v()),
    {
        let a = num_rational::Ratio::new_raw(self.numer, self.denom);
        let b = num_rational::Ratio::new_raw(other.numer, other.denom);
        let c = num_traits::CheckedAdd::checked_add(&a, &b)?;
        Some(Rational { numer: *c.numer(), denom: *c.denom() })
    }

    /// Relies on num_rational's `CheckedSub` for `Ratio<i64>`: the exact
    /// difference, with a positive denominator, or `None` when it does not
    /// fit in 64 bits.
    #[verifier::external_body]
    pub(crate) fn checked_sub(&self, other: &Rational) -> (r: Option<Rational>)
        requires
            self.wf(),
            other.wf(),
        ensures
            r matches Some(s) ==> s.wf() && val_eq(s.v(), val_sub(self.v(), other.v())),
            opt_v(r) == sub_raw(self.v(), other.v()),
    {
        let a = num_rational::Ratio::new_raw(self.numer, self.denom);
        let b = num_rational::Ratio::new_raw(other.numer, other.denom);
        let c = num_traits::CheckedSub::checked_sub(&a, &b)?;
        Some(Rational { numer: *c.numer(), denom: *c.denom() })
    }

    /// Relies on num_rational's `CheckedMul` for `Ratio<i64>`: the exact
    /// product, with a positive denominator, or `None` when it does not fit
    /// in 64 bits.
    #[verifier::external_body]
    pub(crate) fn checked_mul(&self, other: &Rational) -> (r: Option<Rational>)
        requires
            self.wf(),
            other.wf(),
        ensures
            r matches Some(s) ==> s.wf() && val_eq(s.v(), val_mul(self.v(), other.v())),
            opt_v(r) == mul_raw(self.v(), other.v()),
    {
        let a = num_rational::Ratio::new_raw(self.numer, self.denom);
        let b = num_rational::Ratio::new_raw(other.numer, other.denom);
        let c = num_traits::CheckedMul::checked_mul(&a, &b)?;
        Some(Rational { numer: *c.numer(), denom: *c.denom() })
    }

    /// Relies on num_rational's `CheckedDiv` for `Ratio<i64>`: the exact
    /// quotient, with a positive denominator, or `None` when it does not fit
    /// in 64 bits. The divisor must not denote zero, and a zero dividend is
    /// kept away from a divisor numerator of `i64::MIN`: on that pair the
    /// crate's internal gcd would overflow taking the absolute value.
    #[verifier::external_body]
    fn checked_div(&self, other: &Rational) -> (r: Option<Rational>)
        requires
            self.wf(),
            other.wf(),
            other.numer != 0,
            self.numer != 0,
        ensures
            r matches Some(s) ==> s.wf() && val_eq(s.v(), val_div(self.v(), other.v())),
            opt_v(r) == div_raw(self.v(), other.v()),
    {
        let a = num_rational::Ratio::new_raw(self.numer, self.denom);
        let b = num_rational::Ratio::new_raw(other.numer, other.denom);
        let c = num_traits::CheckedDiv::checked_div(&a, &b)?;
        Some(Rational { numer: *c.numer(), denom: *c.denom() })
    }

    /// Divides exactly. A zero dividend gives zero outright; anything else
    /// goes through the checked division, whose result is pinned by
    /// [`div_result`]. The divisor must not denote zero.
    pub(crate) fn div_exact(&self, other: &Rational) -> (r: Option<Rational>)
        requires
            self.wf(),
            other.wf(),
            other.numer != 0,
        ensures
            r matches Some(s) ==> s.wf() && val_eq(s.v(), val_div(self.v(), other.v())),
            opt_v(r) == div_result(self.v(), other.v()),
    {
        if self.numer == 0 {
            let z = Rational { numer: 0, denom: 1 };
            proof {
                assert(self.v().0 * other.v().1 == 0 && 0int * (self.v().1 * other.v().0)
                    == 0) by (nonlinear_arith)
                    requires
                        self.v().0 == 0,
                ;
            }
            Some(z)
        } else {
            self.checked_div(other)
        }
    }
}

/// The product of two 64-bit integers fits in 128 bits.
pub proof fn lemma_i64_product_fits(a: int, b: int)
    requires
        i64::MIN <= a <= i64::MAX,
        i64::MIN <= b <= i64::MAX,
    ensures
        i128::MIN <= a * b <= i128::MAX,
{
    assert(i128::MIN <= a * b <= i128::MAX) by (nonlinear_arith)
        requires
            -0x8000_0000_0000_0000 <= a <= 0x7fff_ffff_ffff_ffff,
            -0x8000_0000_0000_0000 <= b <= 0x7fff_ffff_ffff_ffff,
    ;
}

/// Value equality is transitive whenever the middle fraction has a nonzero
/// denominator.
pub proof fn lemma_val_eq_trans(x: (int, int), y: (int, int), z: (int, int))
    requires
        val_eq(x, y),
        val_eq(y, z),
        y.1 != 0,
    ensures
        val_eq(x, z),
{
    assert(x.0 * z.1 == z.0 * x.1) by (nonlinear_arith)
        requires
            x.0 * y.1 == y.0 * x.1,
            y.0 * z.1 == z.0 * y.1,
            y.1 != 0,
    ;
}

/// Sums of value-equal fractions are value-equal.
pub proof fn lemma_val_add_congr(x: (int, int), x2: (int, int), y: (int, int), y2: (int, int))
    requires
        val_eq(x, x2),
        val_eq(y, y2),
    ensures
        val_eq(val_add(x, y), val_add(x2, y2)),
{
    lemma_mul_is_distributive_add_other_way(x2.1 * y2.1, x.0 * y.1, y.0 * x.1);
    lemma_mul_is_distributive_add_other_way(x.1 * y.1, x2.0 * y2.1, y2.0 * x2.1);
    assert((x.0 * y.1) * (x2.1 * y2.1) == (x.0 * x2.1) * (y.1 * y2.1)) by (nonlinear_arith);
    assert((y.0 * x.1) * (x2.1 * y2.1) == (y.0 * y2.1) * (x.1 * x2.1)) by (nonlinear_arith);
    assert((x2.0 * y2.1) * (x.1 * y.1) == (x2.0 * x.1) * (y.1 * y2.1)) by (nonlinear_arith);
    assert((y2.0 * x2.1) * (x.1 * y.1) == (y2.0 * y.1) * (x.1 * x2.1)) by (nonlinear_arith);
}

/// Differences of value-equal fractions are value-equal.
pub proof fn lemma_val_sub_congr(x: (int, int), x2: (int, int), y: (int, int), y2: (int, int))
    requires
        val_eq(x, x2),
        val_eq(y, y2),
    ensures
        val_eq(val_sub(x, y), val_sub(x2, y2)),
{
    lemma_mul_is_distributive_sub_other_way(x2.1 * y2.1, x.0 * y.1, y.0 * x.1);
    lemma_mul_is_distributive_sub_other_way(x.1 * y.1, x2.0 * y2.1, y2.0 * x2.1);
    assert((x.0 * y.1) * (x2.1 * y2.1) == (x.0 * x2.1) * (y.1 * y2.1)) by (nonlinear_arith);
    assert((y.0 * x.1) * (x2.1 * y2.1) == (y.0 * y2.1) * (x.1 * x2.1)) by (nonlinear_arith);
    assert((x2.0 * y2.1) * (x.1 * y.1) == (x2.0 * x.1) * (y.1 * y2.1)) by (nonlinear_arith);
    assert((y2.0 * x2.1) * (x.1 * y.1) == (y2.0 * y.1) * (x.1 * x2.1)) by (nonlinear_arith);
}

/// Products of value-equal fractions are value-equal.
pub proof fn lemma_val_mul_congr(x: (int, int), x2: (int, int), y: (int, int), y2: (int, int))
    requires
        val_eq(x, x2),
        val_eq(y, y2),
    ensures
        val_eq(val_mul(x, y), val_mul(x2, y2)),
{
    assert((x.0 * y.0) * (x2.1 * y2.1) == (x.0 * x2.1) * (y.0 * y2.1)) by (nonlinear_arith);
    assert((x2.0 * y2.0) * (x.1 * y.1) == (x2.0 * x.1) * (y2.0 * y.1)) by (nonlinear_arith);
}

/// Quotients of value-equal fractions are value-equal.
pub proof fn lemma_val_div_congr(x: (int, int), x2: (int, int), y: (int, int), y2: (int, int))
    requires
        val_eq(x, x2),
        val_eq(y, y2),
    ensures
        val_eq(val_div(x, y), val_div(x2, y2)),
{
    assert((x.0 * y.1) * (x2.1 * y2.0) == (x.0 * x2.1) * (y2.0 * y.1)) by (nonlinear_arith);
    assert((x2.0 * y2.1) * (x.1 * y.0) == (x2.0 * x.1) * (y.0 * y2.1)) by (nonlinear_arith);
}

/// Fractions equal to a fraction with nonzero numerator and denominator
/// have a nonzero numerator themselves.
pub proof fn lemma_val_eq_nonzero(x: (int, int), y: (int, int))
    requires
        val_eq(x, y),
        x.1 != 0,
        y.1 != 0,
    ensures
        (x.0 == 0) == (y.0 == 0),
{
    assert((x.0 == 0) == (y.0 == 0)) by (nonlinear_arith)
        requires
            x.0 * y.1 == y.0 * x.1,
            x.1 != 0,
            y.1 != 0,
    ;
}

} // verus!
