//! Primality, decided for the numbers below 4 and tested by the `num_primes`
//! crate for the others.

use crate::bignat::{be_value, BigNat};
use crate::number_theory::{divides, is_prime};
use num::BigUint;
use num_primes::Verification;
use vstd::prelude::*;

verus! {

/// `Verification::is_prime` of `num_primes`: trial division, a Fermat test
/// and rounds of Miller-Rabin on random bases. Its answer depends on the bases
/// drawn: it may accept a composite number, and it rejects a prime `n` where
/// its Fermat base comes out as 0, once in `n` calls. So nothing is stated of
/// it but that it rejects even numbers. It is called only on numbers above 3:
/// on 3 it asks for a base from an empty range and panics.
#[verifier::external_body]
fn is_prime_digits(n: &Vec<u8>) -> (r: bool)
    requires
        be_value(n@) > 3,
    ensures
        r ==> be_value(n@) % 2 == 1,
{
    Verification::is_prime(&BigUint::from_bytes_be(n))
}

/// What the test of primality may answer of `n`. Of a number below 4 it
/// answers the truth: 2 and 3 are prime, 0 and 1 are not. Of a number from 4
/// on the answer is left to chance, but an even number is never accepted.
pub open spec fn may_answer(n: nat, verdict: bool) -> bool {
    if n < 4 {
        verdict == (n == 2 || n == 3)
    } else {
        verdict ==> n % 2 == 1
    }
}

/// The primes below 4 are 2 and 3.
pub proof fn lemma_primes_below_four(n: nat)
    requires
        n < 4,
    ensures
        is_prime(n) <==> n == 2 || n == 3,
{
    if n == 3 {
        assert(!divides(2, 3));
    }
}

/// Whether `n` passes for a prime. Below 4 the answer is exact; from 4 on it is
/// that of a probabilistic test, which may differ from one call to the next.
pub fn probably_prime(n: &BigNat) -> (r: bool)
    ensures
        may_answer(n@, r),
{
    let four = BigNat::from_u64(4);
    if n.is_less_than(&four) {
        let two = BigNat::from_u64(2);
        let three = BigNat::from_u64(3);
        n.equals(&two) || n.equals(&three)
    } else {
        is_prime_digits(n.as_bytes())
    }
}

} // verus!
