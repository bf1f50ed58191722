//! Arithmetic on `BigNat`, computed by the `num` crate.
//!
//! Each operation hands the digits of its operands to `num` and takes the
//! digits of the result back. What `num` computes is not proved here: the
//! functions whose names end in `_digits` state it, and the methods of `BigNat`
//! below them are proved from those statements.

use crate::bignat::{be_value, BigNat};
use crate::number_theory::{
    bit_length, gcd, lemma_mod_of_negation, mod_pow, signed_value, xor_nat,
};
use num::bigint::Sign;
use num::BigInt;
use num::BigUint;
use num::Integer;
use vstd::prelude::*;

verus! {

/// `BigUint::modpow`: the power `base ^ exponent` reduced modulo `modulus`.
/// It panics on a zero modulus.
#[verifier::external_body]
fn modpow_digits(base: &Vec<u8>, exponent: &Vec<u8>, modulus: &Vec<u8>) -> (r: Vec<u8>)
    requires
        be_value(modulus@) > 0,
    ensures
        be_value(r@) == mod_pow(be_value(base@), be_value(exponent@), be_value(modulus@)),
{
    let base = BigUint::from_bytes_be(base);
    let exponent = BigUint::from_bytes_be(exponent);
    let modulus = BigUint::from_bytes_be(modulus);
    base.modpow(&exponent, &modulus).to_bytes_be()
}

/// `BigUint`'s `*`: the product.
#[verifier::external_body]
fn mul_digits(a: &Vec<u8>, b: &Vec<u8>) -> (r: Vec<u8>)
    ensures
        be_value(r@) == be_value(a@) * be_value(b@),
{
    (BigUint::from_bytes_be(a) * BigUint::from_bytes_be(b)).to_bytes_be()
}

/// `BigUint`'s `+`: the sum.
#[verifier::external_body]
fn add_digits(a: &Vec<u8>, b: &Vec<u8>) -> (r: Vec<u8>)
    ensures
        be_value(r@) == be_value(a@) + be_value(b@),
{
    (BigUint::from_bytes_be(a) + BigUint::from_bytes_be(b)).to_bytes_be()
}

/// `BigUint`'s `-`: the difference. It panics where the result would be
/// negative.
#[verifier::external_body]
fn sub_digits(a: &Vec<u8>, b: &Vec<u8>) -> (r: Vec<u8>)
    requires
        be_value(a@) >= be_value(b@),
    ensures
        be_value(r@) == be_value(a@) - be_value(b@),
{
    (BigUint::from_bytes_be(a) - BigUint::from_bytes_be(b)).to_bytes_be()
}

/// `Integer::mod_floor` on `BigUint`: the remainder of `a` divided by
/// `modulus`. It panics on a zero modulus.
#[verifier::external_body]
fn mod_floor_digits(a: &Vec<u8>, modulus: &Vec<u8>) -> (r: Vec<u8>)
    requires
        be_value(modulus@) > 0,
    ensures
        be_value(r@) == be_value(a@) % be_value(modulus@),
{
    BigUint::from_bytes_be(a).mod_floor(&BigUint::from_bytes_be(modulus)).to_bytes_be()
}

/// `Integer::is_multiple_of` on `BigUint`: whether `divisor` divides `a`
/// without remainder. It panics on a zero divisor.
#[verifier::external_body]
fn is_multiple_of_digits(a: &Vec<u8>, divisor: &Vec<u8>) -> (r: bool)
    requires
        be_value(divisor@) > 0,
    ensures
        r == (be_value(a@) % be_value(divisor@) == 0),
{
    BigUint::from_bytes_be(a).is_multiple_of(&BigUint::from_bytes_be(divisor))
}

/// `BigUint`'s `^`: the bitwise exclusive or.
#[verifier::external_body]
fn xor_digits(a: &Vec<u8>, b: &Vec<u8>) -> (r: Vec<u8>)
    ensures
        be_value(r@) == xor_nat(be_value(a@), be_value(b@)),
{
    (BigUint::from_bytes_be(a) ^ BigUint::from_bytes_be(b)).to_bytes_be()
}

/// `BigUint::bits`: the fewest binary digits that express the number, 0 for
/// zero.
#[verifier::external_body]
fn bits_digits(a: &Vec<u8>) -> (r: usize)
    ensures
        r == bit_length(be_value(a@)),
{
    BigUint::from_bytes_be(a).bits()
}

/// `Integer::extended_gcd` on two `BigInt`s that are not negative: the greatest
/// common divisor, and the Bezout coefficients `x` and `y` with
/// `gcd == a * x + b * y`. Each coefficient comes back as its sign (true for
/// negative) and the digits of its magnitude.
#[verifier::external_body]
fn extended_gcd_digits(a: &Vec<u8>, b: &Vec<u8>) -> (r: (Vec<u8>, (bool, Vec<u8>), (bool, Vec<u8>)))
    ensures
        be_value(r.0@) == gcd(be_value(a@), be_value(b@)),
        be_value(r.0@) == be_value(a@) * signed_value(r.1.0, be_value(r.1.1@)) + be_value(b@)
            * signed_value(r.2.0, be_value(r.2.1@)),
{
    let a = BigInt::from_bytes_be(Sign::Plus, a);
    let b = BigInt::from_bytes_be(Sign::Plus, b);
    let e = a.extended_gcd(&b);
    let (_, gcd) = e.gcd.to_bytes_be();
    let (sign_x, x) = e.x.to_bytes_be();
    let (sign_y, y) = e.y.to_bytes_be();
    (gcd, (matches!(sign_x, Sign::Minus), x), (matches!(sign_y, Sign::Minus), y))
}

/// An integer, as its sign and its magnitude.
#[derive(Debug)]
pub struct SignedNat {
    pub negative: bool,
    pub magnitude: BigNat,
}

impl SignedNat {
    /// The integer that the sign and the magnitude denote.
    pub open spec fn value(&self) -> int {
        signed_value(self.negative, self.magnitude@)
    }

    /// The remainder of the integer divided by `modulus`: the number from 0 up
    /// to `modulus` that differs from the integer by a multiple of `modulus`.
    pub fn mod_floor(&self, modulus: &BigNat) -> (r: BigNat)
        requires
            modulus@ > 0,
        ensures
            r@ == self.value() % (modulus@ as int),
    {
        let remainder = self.magnitude.mod_floor(modulus);
        proof {
            lemma_mod_of_negation(self.magnitude@, modulus@);
        }
        if self.negative && !remainder.is_zero() {
            modulus.sub(&remainder)
        } else {
            remainder
        }
    }
}

/// A greatest common divisor with its Bezout coefficients.
#[derive(Debug)]
pub struct Bezout {
    pub gcd: BigNat,
    pub x: SignedNat,
    pub y: SignedNat,
}

impl BigNat {
    /// The power `self ^ exponent` reduced modulo `modulus`.
    pub fn modpow(&self, exponent: &BigNat, modulus: &BigNat) -> (r: BigNat)
        requires
            modulus@ > 0,
        ensures
            r@ == mod_pow(self@, exponent@, modulus@),
    {
        BigNat::from_bytes_be(
            modpow_digits(self.as_bytes(), exponent.as_bytes(), modulus.as_bytes()),
        )
    }

    /// The product of the number and `other`.
    pub fn mul(&self, other: &BigNat) -> (r: BigNat)
        ensures
            r@ == self@ * other@,
    {
        BigNat::from_bytes_be(mul_digits(self.as_bytes(), other.as_bytes()))
    }

    /// The sum of the number and `other`.
    pub fn add(&self, other: &BigNat) -> (r: BigNat)
        ensures
            r@ == self@ + other@,
    {
        BigNat::from_bytes_be(add_digits(self.as_bytes(), other.as_bytes()))
    }

    /// The number less `other`, which must not be larger.
    pub fn sub(&self, other: &BigNat) -> (r: BigNat)
        requires
            self@ >= other@,
        ensures
            r@ == self@ - other@,
    {
        BigNat::from_bytes_be(sub_digits(self.as_bytes(), other.as_bytes()))
    }

    /// The remainder of the number divided by `modulus`.
    pub fn mod_floor(&self, modulus: &BigNat) -> (r: BigNat)
        requires
            modulus@ > 0,
        ensures
            r@ == self@ % modulus@,
    {
        BigNat::from_bytes_be(mod_floor_digits(self.as_bytes(), modulus.as_bytes()))
    }

    /// Whether `divisor` divides the number without remainder.
    pub fn is_multiple_of(&self, divisor: &BigNat) -> (r: bool)
        requires
            divisor@ > 0,
        ensures
            r == (self@ % divisor@ == 0),
    {
        is_multiple_of_digits(self.as_bytes(), divisor.as_bytes())
    }

    /// The bitwise exclusive or of the number and `other`.
    pub fn bitxor(&self, other: &BigNat) -> (r: BigNat)
        ensures
            r@ == xor_nat(self@, other@),
    {
        BigNat::from_bytes_be(xor_digits(self.as_bytes(), other.as_bytes()))
    }

    /// The number of binary digits of the number, 0 for zero.
    pub fn bits(&self) -> (r: usize)
        ensures
            r == bit_length(self@),
    {
        bits_digits(self.as_bytes())
    }

    /// The greatest common divisor of the number and `other`, with the Bezout
    /// coefficients `x` of the number and `y` of `other`.
    pub fn extended_gcd(&self, other: &BigNat) -> (r: Bezout)
        ensures
            r.gcd@ == gcd(self@, other@),
            r.gcd@ == self@ * r.x.value() + other@ * r.y.value(),
    {
        let (g, (x_negative, x), (y_negative, y)) = extended_gcd_digits(
            self.as_bytes(),
            other.as_bytes(),
        );
        Bezout {
            gcd: BigNat::from_bytes_be(g),
            x: SignedNat { negative: x_negative, magnitude: BigNat::from_bytes_be(x) },
            y: SignedNat { negative: y_negative, magnitude: BigNat::from_bytes_be(y) },
        }
    }
}

} // verus!
