//! Exact non-negative rationals. A number is kept as two limb vectors, so
//! that what it denotes is a plain function of its fields; the arithmetic
//! itself is done by `malachite`.

use vstd::prelude::*;
use crate::primitives::{limbs_value, lemma_limbs_value_empty, lemma_limbs_value_one, U256};

verus! {

/// A non-negative rational number `numerator / denominator`, each written in
/// 64-bit limbs, least significant first. The fraction need not be in lowest
/// terms.
#[derive(Debug)]
pub struct Rational {
    numerator: Vec<u64>,
    denominator: Vec<u64>,
}

impl Rational {
    /// The numerator as a number.
    pub closed spec fn num(&self) -> nat {
        limbs_value(self.numerator@)
    }

    /// The denominator as a number.
    pub closed spec fn den(&self) -> nat {
        limbs_value(self.denominator@)
    }

    /// A rational is well formed when its denominator is not zero.
    pub open spec fn wf(&self) -> bool {
        self.den() > 0
    }

    /// The number that the rational denotes.
    pub open spec fn value(&self) -> real {
        self.num() as real / self.den() as real
    }

    /// Zero.
    pub fn zero() -> (r: Rational)
        ensures
            r.wf(),
            r.value() == 0real,
            r.num() == 0,
            r.den() == 1,
    {
        let numerator: Vec<u64> = Vec::new();
        let mut denominator: Vec<u64> = Vec::new();
        denominator.push(1);
        proof {
            lemma_limbs_value_empty();
            assert(numerator@ =~= Seq::<u64>::empty());
            lemma_limbs_value_one(denominator@);
            lemma_value_zero(0, 1);
        }
        Rational { numerator, denominator }
    }

    /// One.
    pub fn one() -> (r: Rational)
        ensures
            r.wf(),
            r.value() == 1real,
            r.num() == 1,
            r.den() == 1,
    {
        let mut numerator: Vec<u64> = Vec::new();
        numerator.push(1);
        let mut denominator: Vec<u64> = Vec::new();
        denominator.push(1);
        proof {
            lemma_limbs_value_one(numerator@);
            lemma_limbs_value_one(denominator@);
            assert(1nat as real / 1nat as real == 1real);
        }
        Rational { numerator, denominator }
    }

    /// The whole number `n`.
    pub fn from_u64(n: u64) -> (r: Rational)
        ensures
            r.wf(),
            r.value() == n as real,
            r.num() == n,
            r.den() == 1,
    {
        let mut numerator: Vec<u64> = Vec::new();
        numerator.push(n);
        let mut denominator: Vec<u64> = Vec::new();
        denominator.push(1);
        proof {
            lemma_limbs_value_one(numerator@);
            lemma_limbs_value_one(denominator@);
            lemma_whole(n as nat);
        }
        Rational { numerator, denominator }
    }

    /// The whole number that an amount holds.
    pub fn from_amount(n: &U256) -> (r: Rational)
        ensures
            r.wf(),
            r.value() == n.value() as real,
            r.num() == n.value(),
            r.den() == 1,
    {
        let mut denominator: Vec<u64> = Vec::new();
        denominator.push(1);
        proof {
            lemma_limbs_value_one(denominator@);
            lemma_whole(n.value());
        }
        Rational { numerator: n.to_limbs(), denominator }
    }

    /// The fraction `n / d`, or nothing where `d` is zero.
    pub fn from_ratio(n: u64, d: u64) -> (r: Option<Rational>)
        ensures
            r.is_some() == (d != 0),
            r matches Some(q) ==> q.wf() && q.num() == n && q.den() == d,
    {
        if d == 0 {
            return None;
        }
        let mut numerator: Vec<u64> = Vec::new();
        numerator.push(n);
        let mut denominator: Vec<u64> = Vec::new();
        denominator.push(d);
        proof {
            lemma_limbs_value_one(numerator@);
            lemma_limbs_value_one(denominator@);
        }
        Some(Rational { numerator, denominator })
    }

    /// The fraction `n / d` of two amounts, or nothing where `d` is zero.
    pub fn from_amounts(n: &U256, d: &U256) -> (r: Option<Rational>)
        ensures
            r.is_some() == (d.value() != 0),
            r matches Some(q) ==> q.wf() && q.num() == n.value() && q.den() == d.value(),
    {
        if d.is_zero() {
            return None;
        }
        Some(Rational { numerator: n.to_limbs(), denominator: d.to_limbs() })
    }

    /// A copy of the number.
    pub fn duplicate(&self) -> (r: Rational)
        ensures
            r.num() == self.num(),
            r.den() == self.den(),
    {
        let r = Rational { numerator: self.numerator.clone(), denominator: self.denominator.clone() };
        assert(r.numerator@ =~= self.numerator@);
        assert(r.denominator@ =~= self.denominator@);
        r
    }

    /// The sum of two rationals.
    pub fn plus(&self, other: &Rational) -> (r: Rational)
        requires
            self.wf(),
            other.wf(),
        ensures
            r.wf(),
            r.value() == self.value() + other.value(),
    {
        rational_add(self, other)
    }

    /// The product of two rationals.
    pub fn times(&self, other: &Rational) -> (r: Rational)
        requires
            self.wf(),
            other.wf(),
        ensures
            r.wf(),
            r.value() == self.value() * other.value(),
    {
        rational_mul(self, other)
    }

    /// The quotient of two rationals, or nothing where the divisor is zero.
    pub fn divided_by(&self, other: &Rational) -> (r: Option<Rational>)
        requires
            self.wf(),
            other.wf(),
        ensures
            r.is_some() == (other.value() != 0real),
            r matches Some(q) ==> q.wf() && q.value() == self.value() / other.value(),
    {
        if other.is_zero() {
            None
        } else {
            Some(rational_div(self, other))
        }
    }

    /// The quotient of two rationals, the second of which is not zero.
    pub fn over(&self, divisor: &Rational) -> (r: Rational)
        requires
            self.wf(),
            divisor.wf(),
            divisor.value() != 0real,
        ensures
            r.wf(),
            r.value() == self.value() / divisor.value(),
    {
        rational_div(self, divisor)
    }

    /// The reciprocal, or nothing where the number is zero.
    pub fn reciprocal(&self) -> (r: Option<Rational>)
        requires
            self.wf(),
        ensures
            r.is_some() == (self.value() != 0real),
            r matches Some(q) ==> q.wf() && q.value() == 1real / self.value()
                && q.num() == self.den() && q.den() == self.num(),
    {
        if self.is_zero() {
            None
        } else {
            let r = Rational {
                numerator: self.denominator.clone(),
                denominator: self.numerator.clone(),
            };
            proof {
                assert(r.numerator@ =~= self.denominator@);
                assert(r.denominator@ =~= self.numerator@);
                lemma_value_zero(self.num(), self.den());
                lemma_reciprocal(self.num(), self.den());
            }
            Some(r)
        }
    }

    /// Whether the number is zero.
    pub fn is_zero(&self) -> (z: bool)
        requires
            self.wf(),
        ensures
            z == (self.value() == 0real),
            z == (self.num() == 0),
    {
        let zero = Rational::zero();
        proof {
            lemma_value_zero(self.num(), self.den());
        }
        rational_eq(self, &zero)
    }

    /// Whether two rationals denote the same number.
    pub fn equals(&self, other: &Rational) -> (b: bool)
        requires
            self.wf(),
            other.wf(),
        ensures
            b == (self.value() == other.value()),
    {
        rational_eq(self, other)
    }

    /// Whether `self` is strictly below `other`.
    pub fn less_than(&self, other: &Rational) -> (b: bool)
        requires
            self.wf(),
            other.wf(),
        ensures
            b == (self.value() < other.value()),
    {
        rational_lt(self, other)
    }
}

/// A fraction with denominator one is its numerator.
pub proof fn lemma_whole(n: nat)
    ensures
        n as real / 1nat as real == n as real,
{
}

/// A fraction with a positive denominator is zero exactly when its numerator
/// is, and is never negative.
pub proof fn lemma_value_zero(n: nat, d: nat)
    requires
        d > 0,
    ensures
        (n as real / d as real == 0real) <==> n == 0,
        n as real / d as real >= 0real,
{
    let x = n as real;
    let y = d as real;
    assert(y > 0real);
    assert(x >= 0real);
    assert((x / y) * y == x) by (nonlinear_arith)
        requires
            y > 0real,
    ;
    assert(x / y >= 0real) by (nonlinear_arith)
        requires
            y > 0real,
            x >= 0real,
            (x / y) * y == x,
    ;
    assert(x / y == 0real ==> x == 0real) by (nonlinear_arith)
        requires
            (x / y) * y == x,
    ;
    assert(x == 0real ==> x / y == 0real) by (nonlinear_arith)
        requires
            y > 0real,
            (x / y) * y == x,
    ;
}

/// Swapping numerator and denominator gives the reciprocal.
pub proof fn lemma_reciprocal(n: nat, d: nat)
    requires
        d > 0,
        n > 0,
    ensures
        d as real / n as real == 1real / (n as real / d as real),
{
    let x = n as real;
    let y = d as real;
    assert(y / x == 1real / (x / y)) by (nonlinear_arith)
        requires
            x > 0real,
            y > 0real,
    ;
}

/// Adds through `malachite`: `Rational::from_naturals` and
/// `Natural::from_limbs_asc` rebuild the two operands, `+` on
/// `malachite::Rational` adds them exactly, and the sum is written back in
/// limbs. The sum has a denominator that is not zero.
#[verifier::external_body]
fn rational_add(a: &Rational, b: &Rational) -> (c: Rational)
    requires
        a.wf(),
        b.wf(),
    ensures
        c.wf(),
        c.value() == a.value() + b.value(),
{
    let x = malachite::Rational::from_naturals(
        malachite::Natural::from_limbs_asc(&a.numerator),
        malachite::Natural::from_limbs_asc(&a.denominator),
    );
    let y = malachite::Rational::from_naturals(
        malachite::Natural::from_limbs_asc(&b.numerator),
        malachite::Natural::from_limbs_asc(&b.denominator),
    );
    let (n, d) = (x + y).into_numerator_and_denominator();
    Rational { numerator: n.into_limbs_asc(), denominator: d.into_limbs_asc() }
}

/// Multiplies through `malachite`: `*` on `malachite::Rational` is exact,
/// and the product has a denominator that is not zero.
#[verifier::external_body]
fn rational_mul(a: &Rational, b: &Rational) -> (c: Rational)
    requires
        a.wf(),
        b.wf(),
    ensures
        c.wf(),
        c.value() == a.value() * b.value(),
{
    let x = malachite::Rational::from_naturals(
        malachite::Natural::from_limbs_asc(&a.numerator),
        malachite::Natural::from_limbs_asc(&a.denominator),
    );
    let y = malachite::Rational::from_naturals(
        malachite::Natural::from_limbs_asc(&b.numerator),
        malachite::Natural::from_limbs_asc(&b.denominator),
    );
    let (n, d) = (x * y).into_numerator_and_denominator();
    Rational { numerator: n.into_limbs_asc(), denominator: d.into_limbs_asc() }
}

/// Divides through `malachite`: `/` on `malachite::Rational` is exact and
/// panics only on a zero divisor, which the precondition leaves out.
#[verifier::external_body]
fn rational_div(a: &Rational, b: &Rational) -> (c: Rational)
    requires
        a.wf(),
        b.wf(),
        b.value() != 0real,
    ensures
        c.wf(),
        c.value() == a.value() / b.value(),
{
    let x = malachite::Rational::from_naturals(
        malachite::Natural::from_limbs_asc(&a.numerator),
        malachite::Natural::from_limbs_asc(&a.denominator),
    );
    let y = malachite::Rational::from_naturals(
        malachite::Natural::from_limbs_asc(&b.numerator),
        malachite::Natural::from_limbs_asc(&b.denominator),
    );
    let (n, d) = (x / y).into_numerator_and_denominator();
    Rational { numerator: n.into_limbs_asc(), denominator: d.into_limbs_asc() }
}

/// Compares through `malachite`: `==` on `malachite::Rational`, which keeps
/// every number in lowest terms, holds exactly of equal numbers.
#[verifier::external_body]
fn rational_eq(a: &Rational, b: &Rational) -> (r: bool)
    requires
        a.wf(),
        b.wf(),
    ensures
        r == (a.value() == b.value()),
{
    let x = malachite::Rational::from_naturals(
        malachite::Natural::from_limbs_asc(&a.numerator),
        malachite::Natural::from_limbs_asc(&a.denominator),
    );
    let y = malachite::Rational::from_naturals(
        malachite::Natural::from_limbs_asc(&b.numerator),
        malachite::Natural::from_limbs_asc(&b.denominator),
    );
    x == y
}

/// Orders through `malachite`: `<` on `malachite::Rational` is the order of
/// the numbers.
#[verifier::external_body]
fn rational_lt(a: &Rational, b: &Rational) -> (r: bool)
    requires
        a.wf(),
        b.wf(),
    ensures
        r == (a.value() < b.value()),
{
    let x = malachite::Rational::from_naturals(
        malachite::Natural::from_limbs_asc(&a.numerator),
        malachite::Natural::from_limbs_asc(&a.denominator),
    );
    let y = malachite::Rational::from_naturals(
        malachite::Natural::from_limbs_asc(&b.numerator),
        malachite::Natural::from_limbs_asc(&b.denominator),
    );
    x < y
}

} // verus!
