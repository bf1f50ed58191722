//! Random numbers, drawn by the `rand` crate's generator of the thread through
//! `num`'s `RandBigInt`.
//!
//! Nothing is known of a drawn number but its range: two draws with the same
//! arguments may differ.

use crate::bignat::{be_value, BigNat};
use num::bigint::RandBigInt;
use num::BigUint;
use vstd::arithmetic::power2::pow2;
use vstd::prelude::*;

verus! {

/// `RandBigInt::gen_biguint` on `rand::thread_rng()`: a random number of at
/// most `bit_size` binary digits.
#[verifier::external_body]
fn gen_biguint_digits(bit_size: usize) -> (r: Vec<u8>)
    ensures
        be_value(r@) < pow2(bit_size as nat),
{
    rand::thread_rng().gen_biguint(bit_size).to_bytes_be()
}

/// `RandBigInt::gen_biguint_below` on `rand::thread_rng()`: a random number
/// below `bound`. It panics on a zero bound.
#[verifier::external_body]
fn gen_biguint_below_digits(bound: &Vec<u8>) -> (r: Vec<u8>)
    requires
        be_value(bound@) > 0,
    ensures
        be_value(r@) < be_value(bound@),
{
    rand::thread_rng().gen_biguint_below(&BigUint::from_bytes_be(bound)).to_bytes_be()
}

/// A random number of at most `bit_size` binary digits.
pub fn random_bits(bit_size: usize) -> (r: BigNat)
    ensures
        r@ < pow2(bit_size as nat),
{
    BigNat::from_bytes_be(gen_biguint_digits(bit_size))
}

/// A random number below `bound`, which must not be zero.
pub fn random_below(bound: &BigNat) -> (r: BigNat)
    requires
        bound@ > 0,
    ensures
        r@ < bound@,
{
    BigNat::from_bytes_be(gen_biguint_below_digits(bound.as_bytes()))
}

} // verus!
