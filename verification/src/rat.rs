//! Trusted interface to the exact arbitrary-precision arithmetic of the
//! `num` crates. `BigInt` and `BigRational` are opaque to the verifier; the
//! uninterpreted functions `int_of`, `rat_num` and `rat_den` name the integer
//! content that `BigInt` represents and that `Ratio::numer` / `Ratio::denom`
//! return, and every wrapper states its result over those names.

use crate::frac::Frac;
use vstd::prelude::*;

verus! {

#[verifier::external_type_specification]
#[verifier::external_body]
#[verifier::reject_recursive_types(T)]
pub struct ExRatio<T>(num_rational::Ratio<T>);

#[verifier::external_type_specification]
#[verifier::external_body]
pub struct ExBigInt(num_bigint::BigInt);

/// The integer that a `BigInt` represents.
pub uninterp spec fn int_of(b: num_bigint::BigInt) -> int;

/// The integer content of the numerator that `Ratio::numer` returns.
pub uninterp spec fn rat_num(r: num_rational::BigRational) -> int;

/// The integer content of the denominator that `Ratio::denom` returns.
pub uninterp spec fn rat_den(r: num_rational::BigRational) -> int;

/// The ghost fraction that a `BigRational` holds.
pub open spec fn frac_of(r: num_rational::BigRational) -> Frac {
    Frac { n: rat_num(r), d: rat_den(r) }
}

/// Relies on `BigInt::from(u64)`: builds the big integer with that value.
#[verifier::external_body]
pub fn big_from_u64(n: u64) -> (r: num_bigint::BigInt)
    ensures
        int_of(r) == n,
{
    num_bigint::BigInt::from(n)
}

/// Relies on `Mul for BigInt`: exact product of the two integers.
#[verifier::external_body]
pub fn big_mul(a: &num_bigint::BigInt, b: &num_bigint::BigInt) -> (r: num_bigint::BigInt)
    ensures
        int_of(r) == int_of(*a) * int_of(*b),
{
    a * b
}

/// Relies on `Ratio::from_integer` and `BigInt::from(i64)`: the rational
/// n/1, stored with denominator one.
#[verifier::external_body]
pub fn rat_from_i64(n: i64) -> (r: num_rational::BigRational)
    ensures
        rat_num(r) == n,
        rat_den(r) == 1,
{
    num_rational::BigRational::from_integer(num_bigint::BigInt::from(n))
}

/// Relies on `Clone for Ratio`: the copy holds the same numerator and
/// denominator.
#[verifier::external_body]
pub fn rat_clone(a: &num_rational::BigRational) -> (r: num_rational::BigRational)
    ensures
        rat_num(r) == rat_num(*a),
        rat_den(r) == rat_den(*a),
{
    a.clone()
}

/// Relies on `Add for Ratio`: the sum has the exact rational value
/// a + b, and `Ratio` keeps its denominator positive.
#[verifier::external_body]
pub fn rat_add(a: &num_rational::BigRational, b: &num_rational::BigRational) -> (r:
    num_rational::BigRational)
    requires
        rat_den(*a) > 0,
        rat_den(*b) > 0,
    ensures
        frac_of(r).wf(),
        frac_of(r).equiv(frac_of(*a).add(frac_of(*b))),
{
    a + b
}

/// Relies on `Neg for Ratio`: negates the numerator and keeps the
/// denominator.
#[verifier::external_body]
pub fn rat_neg(a: &num_rational::BigRational) -> (r: num_rational::BigRational)
    ensures
        rat_num(r) == -rat_num(*a),
        rat_den(r) == rat_den(*a),
{
    -a
}

/// Relies on `Div<BigInt> for Ratio`: the exact rational value a / k.
#[verifier::external_body]
pub fn rat_div_u64(a: &num_rational::BigRational, k: u64) -> (r: num_rational::BigRational)
    requires
        rat_den(*a) > 0,
        k > 0,
    ensures
        frac_of(r).wf(),
        frac_of(r).equiv(frac_of(*a).div_int(k as int)),
{
    a.clone() / num_bigint::BigInt::from(k)
}

/// Relies on `Mul<BigInt> for Ratio`: the exact rational value a * b.
#[verifier::external_body]
pub fn rat_mul_big(a: &num_rational::BigRational, b: &num_bigint::BigInt) -> (r:
    num_rational::BigRational)
    requires
        rat_den(*a) > 0,
    ensures
        frac_of(r).wf(),
        frac_of(r).equiv(frac_of(*a).mul_int(int_of(*b))),
{
    a.clone() * b.clone()
}

/// Relies on `Zero::is_zero for Ratio`: true exactly when the numerator is
/// zero.
#[verifier::external_body]
pub fn rat_is_zero(a: &num_rational::BigRational) -> (r: bool)
    ensures
        r == (rat_num(*a) == 0),
{
    num_traits::Zero::is_zero(a)
}

/// Relies on `Signed::is_positive for Ratio`: true exactly when numerator
/// and denominator have the same strict sign.
#[verifier::external_body]
pub fn rat_is_positive(a: &num_rational::BigRational) -> (r: bool)
    ensures
        r == (rat_num(*a) * rat_den(*a) > 0),
{
    num_traits::Signed::is_positive(a)
}

/// Relies on `PartialEq for Ratio`, which compares the rational values:
/// with positive denominators that is cross-multiplication equality.
#[verifier::external_body]
pub fn rat_eq(a: &num_rational::BigRational, b: &num_rational::BigRational) -> (r: bool)
    requires
        rat_den(*a) > 0,
        rat_den(*b) > 0,
    ensures
        r == frac_of(*a).equiv(frac_of(*b)),
{
    a == b
}

/// What `Display for Ratio` prints for a rational with the given numerator
/// and denominator content.
pub uninterp spec fn rat_render(n: int, d: int) -> Seq<char>;

/// Relies on `Display for Ratio`: the text depends on the numerator and
/// denominator content alone.
#[verifier::external_body]
pub fn rat_to_string(a: &num_rational::BigRational) -> (r: String)
    ensures
        r@ == rat_render(rat_num(*a), rat_den(*a)),
{
    format!("{}", a)
}

} // verus!
