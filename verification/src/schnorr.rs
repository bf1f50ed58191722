//! Schnorr's protocol: a proof of knowledge of a discrete logarithm in a
//! subgroup of the numbers modulo `p`.

use crate::bignat::BigNat;
use crate::fermat::{lemma_cofactor_power_has_order, lemma_prime_divides_no_power};
use crate::hex::hex_numeral;
use crate::number_theory::{
    bit_length, coprime, is_prime, lemma_bezout_inverse, lemma_bit_length_bounds,
    lemma_coprime_has_inverse, lemma_honest_response_verifies, lemma_inverse_unique,
    lemma_mod_pow_bound, lemma_prime_is_coprime_to_smaller, lemma_simulated_commitment_verifies,
    mod_inverse, mod_pow,
};
use crate::primes::{may_answer, probably_prime};
use crate::random::{random_below, random_bits};
use crate::SigmaProtocol;
use vstd::arithmetic::div_mod::*;
use vstd::arithmetic::power::*;
use vstd::arithmetic::power2::*;
use vstd::prelude::*;
use vstd::string::StringExecFns;

verus! {

/// An instance of the discrete logarithm problem: a modulus `p`, the order `q`
/// of a subgroup of the numbers modulo `p`, a generator `g` of that subgroup
/// and a public value `h`. A witness for it is a `w` with `h = g ^ w mod p`.
///
/// Building an instance checks nothing; `is_valid` does.
#[derive(Debug)]
pub struct SchnorrDiscreteLogInstance {
    pub p: BigNat,
    pub q: BigNat,
    pub g: BigNat,
    pub h: BigNat,
}

impl SchnorrDiscreteLogInstance {
    /// Neither modulus is zero: all that the moves need in order to be defined.
    pub open spec fn has_moduli(&self) -> bool {
        self.p@ > 0 && self.q@ > 0
    }

    /// `g ^ q` is 1 modulo `p`: the order of `g` divides `q`.
    pub open spec fn generator_has_order(&self) -> bool {
        mod_pow(self.g@, self.q@, self.p@) == 1nat % self.p@
    }

    /// `w` is a witness: `h = g ^ w mod p`.
    pub open spec fn has_witness(&self, w: nat) -> bool {
        self.h@ == mod_pow(self.g@, w, self.p@)
    }

    /// The verification equation: `g ^ z = a * h ^ e` modulo `p`.
    pub open spec fn verifies(&self, a: nat, e: nat, z: nat) -> bool {
        mod_pow(self.g@, z, self.p@) == (a * mod_pow(self.h@, e, self.p@)) % self.p@
    }

    /// The bound of the challenge space: the largest power of two that is not
    /// above `q`.
    pub open spec fn challenge_bound(&self) -> nat {
        pow2((bit_length(self.q@) - 1) as nat)
    }

    /// `h` has an inverse modulo `p`: the two have greatest common divisor 1,
    /// as they have where `p` is prime and `h` is not zero and below it.
    pub open spec fn has_invertible_public_value(&self) -> bool {
        self.p@ > 0 && coprime(self.h@, self.p@)
    }

    /// The simulator's first message for the challenge `e` and the response
    /// `z`: `g ^ z * (h ^ -1) ^ e mod p`.
    pub open spec fn simulated_commitment(&self, e: nat, z: nat) -> nat {
        (mod_pow(self.g@, z, self.p@) * mod_pow(mod_inverse(self.h@, self.p@), e, self.p@))
            % self.p@
    }

    /// The instance as text: its name and its four numbers, each as a
    /// hexadecimal numeral.
    pub open spec fn description(&self) -> Seq<char> {
        "SchnorrDiscreteLogInstance { p: "@ + hex_numeral(self.p@) + ", q: "@ + hex_numeral(
            self.q@,
        ) + ", g: "@ + hex_numeral(self.g@) + ", h: "@ + hex_numeral(self.h@) + " }"@
    }

    /// An instance of the four numbers given.
    pub fn new(p: BigNat, q: BigNat, g: BigNat, h: BigNat) -> (r: Self)
        ensures
            r == (SchnorrDiscreteLogInstance { p, q, g, h }),
    {
        SchnorrDiscreteLogInstance { p, q, g, h }
    }

    /// The instance as text, for a reader: its numbers are in hexadecimal.
    pub fn describe(&self) -> (r: String)
        ensures
            r@ == self.description(),
    {
        let mut text = String::from_str("SchnorrDiscreteLogInstance { p: ");
        text.append(self.p.to_hex().as_str());
        text.append(", q: ");
        text.append(self.q.to_hex().as_str());
        text.append(", g: ");
        text.append(self.g.to_hex().as_str());
        text.append(", h: ");
        text.append(self.h.to_hex().as_str());
        text.append(" }");
        text
    }
}

/// The most candidates that each search of `generate` draws before it gives
/// up.
pub const MAX_ATTEMPTS: u64 = 0xffff_ffff_ffff_ffff;

impl SchnorrDiscreteLogInstance {
    /// What `is_valid` asks besides the primality of `p` and `q`: `q` divides
    /// `p - 1`, and `g` and `h` are below `p`.
    pub open spec fn has_subgroup_shape(&self) -> bool {
        &&& self.p@ > 0
        &&& self.q@ > 0
        &&& (self.p@ - 1) % (self.q@ as int) == 0
        &&& self.g@ < self.p@
        &&& self.h@ < self.p@
    }

    /// Whether the group of the instance is made from the cofactor `r` and the
    /// base `h0`: `r` is not zero and has at most `p_size - q_size` binary
    /// digits, `p` is `q * r + 1`, and `g` is `h0 ^ r mod p` for an `h0` below
    /// `p`.
    pub open spec fn is_made_from(&self, r: nat, h0: nat, p_size: nat, q_size: nat) -> bool {
        &&& 1 <= r < pow2((p_size - q_size) as nat)
        &&& self.p@ == self.q@ * r + 1
        &&& h0 < self.p@
        &&& self.g@ == mod_pow(h0, r, self.p@)
    }

    /// What holds of an instance and a witness `w` that `generate` returns for
    /// the sizes `p_size` and `q_size`, whatever was drawn: `q` has exactly
    /// `q_size` binary digits, `q` and `p` are numbers that the test of
    /// primality may accept, `p` is `q * r + 1` for a cofactor `r` of the size
    /// asked for, `g` is an `r`-th power other than 1, and `h` is
    /// `g ^ w mod p`.
    pub open spec fn is_generated(&self, w: nat, p_size: nat, q_size: nat) -> bool {
        &&& 2 <= q_size < p_size
        &&& bit_length(self.q@) == q_size
        &&& pow2((q_size - 1) as nat) <= self.q@ < pow2(q_size)
        &&& may_answer(self.q@, true)
        &&& may_answer(self.p@, true)
        &&& exists|r: nat, h0: nat| #[trigger] self.is_made_from(r, h0, p_size, q_size)
        &&& self.g@ != 1
        &&& w < self.q@
        &&& self.has_witness(w)
    }

    /// The number below which the challenges are drawn: the largest power of
    /// two that is not above `q`.
    pub fn challenge_bound_number(&self) -> (b: BigNat)
        requires
            self.q@ > 0,
        ensures
            b@ == self.challenge_bound(),
    {
        let t: usize = self.q.bits() - 1;
        let power = BigNat::from_u64(2).modpow(&BigNat::from_usize(t), &self.q);
        proof {
            // 2 ^ t is at most q, so its remainder is itself, or 0 where it is q.
            let q = self.q@;
            lemma_bit_length_bounds(q);
            lemma_pow2(t as nat);
            lemma_pow2_pos(t as nat);
            lemma_mod_pow_bound(2, t as nat, q);
            if pow2(t as nat) < q {
                lemma_small_mod(pow2(t as nat), q);
            } else {
                lemma_mod_self_0(q as int);
            }
        }
        if power.is_zero() {
            self.q.clone()
        } else {
            power
        }
    }

    /// The candidate `q * r + 1` for the modulus of a group whose subgroup of
    /// order `q` has the cofactor `r`.
    pub fn modulus_candidate(q: &BigNat, r: &BigNat) -> (p: BigNat)
        ensures
            p@ == q@ * r@ + 1,
    {
        q.mul(r).add(&BigNat::one())
    }

    /// The candidate `h0 ^ r mod p` for a generator of the subgroup with
    /// cofactor `r`; none where that power is 1.
    pub fn generator_candidate(h0: &BigNat, r: &BigNat, p: &BigNat) -> (g: Option<BigNat>)
        requires
            p@ > 0,
        ensures
            match g {
                Some(g) => g@ == mod_pow(h0@, r@, p@) && g@ != 1,
                None => mod_pow(h0@, r@, p@) == 1,
            },
    {
        let g = h0.modpow(r, p);
        if g.is_one() {
            None
        } else {
            Some(g)
        }
    }

    /// The instance of the group `p`, `q`, `g` whose witness is `w`: its public
    /// value is `g ^ w mod p`. The witness comes back with it.
    pub fn with_witness(p: BigNat, q: BigNat, g: BigNat, w: BigNat) -> (r: (Self, BigNat))
        requires
            p@ > 0,
        ensures
            r.0.p == p,
            r.0.q == q,
            r.0.g == g,
            r.0.has_witness(w@),
            r.1 == w,
    {
        let h = g.modpow(&w, &p);
        (SchnorrDiscreteLogInstance { p, q, g, h }, w)
    }

    /// Draws numbers of at most `bit_size` binary digits until one has exactly
    /// that many and passes for a prime.
    fn random_prime(bit_size: usize) -> (r: Option<BigNat>)
        ensures
            r matches Some(q) ==> bit_length(q@) == bit_size && pow2((bit_size - 1) as nat) <= q@
                < pow2(bit_size as nat) && may_answer(q@, true),
    {
        let mut attempts: u64 = 0;
        while attempts < MAX_ATTEMPTS
            decreases MAX_ATTEMPTS - attempts,
        {
            let candidate = random_bits(bit_size);
            if candidate.bits() == bit_size && probably_prime(&candidate) {
                proof {
                    lemma_bit_length_bounds(candidate@);
                }
                return Some(candidate);
            }
            attempts = attempts + 1;
        }
        None
    }

    /// Draws cofactors `r` of at most `cofactor_bits` binary digits until
    /// `q * r + 1` passes for a prime, and gives that modulus with its
    /// cofactor.
    fn random_modulus(q: &BigNat, cofactor_bits: usize) -> (r: Option<(BigNat, BigNat)>)
        ensures
            r matches Some((p, cofactor)) ==> 1 <= cofactor@ < pow2(cofactor_bits as nat) && p@
                == q@ * cofactor@ + 1 && may_answer(p@, true),
    {
        let mut attempts: u64 = 0;
        while attempts < MAX_ATTEMPTS
            decreases MAX_ATTEMPTS - attempts,
        {
            let cofactor = random_bits(cofactor_bits);
            let p = Self::modulus_candidate(q, &cofactor);
            if probably_prime(&p) {
                proof {
                    // A modulus that passes is at least 2, so the cofactor is not zero.
                    assert(q@ * 0 == 0);
                }
                return Some((p, cofactor));
            }
            attempts = attempts + 1;
        }
        None
    }

    /// Draws `h0` below `p` until `h0 ^ r mod p` is not 1, and gives that
    /// power.
    fn random_generator(p: &BigNat, r: &BigNat) -> (g: Option<BigNat>)
        requires
            p@ > 0,
        ensures
            g matches Some(g) ==> g@ != 1 && exists|h0: nat|
                h0 < p@ && g@ == #[trigger] mod_pow(h0, r@, p@),
    {
        let mut attempts: u64 = 0;
        while attempts < MAX_ATTEMPTS
            invariant
                p@ > 0,
            decreases MAX_ATTEMPTS - attempts,
        {
            let h0 = random_below(p);
            match Self::generator_candidate(&h0, r, p) {
                Some(g) => {
                    return Some(g);
                },
                None => {},
            }
            attempts = attempts + 1;
        }
        None
    }

    /// Generates a group and an instance in it with its witness: a `q` of
    /// exactly `q_size` binary digits that passes for a prime, a
    /// `p = q * r + 1` that passes for a prime, with `r` of at most
    /// `p_size - q_size` binary digits, a `g = h0 ^ r mod p` other than 1, a
    /// witness `w` below `q` and the public value `h = g ^ w mod p`.
    ///
    /// There is no such group where `q_size` is below 2 or `p_size` equals
    /// it; the result is then `None`. It is `None` too where one of the three
    /// searches gives up, after `MAX_ATTEMPTS` candidates.
    pub fn generate(p_size: usize, q_size: usize) -> (r: Option<(Self, BigNat)>)
        requires
            q_size <= p_size,
        ensures
            r matches Some((x, w)) ==> x.is_generated(w@, p_size as nat, q_size as nat)
                && x.has_subgroup_shape(),
            q_size < 2 || p_size == q_size ==> r is None,
    {
        if q_size < 2 || p_size == q_size {
            return None;
        }
        let q = match Self::random_prime(q_size) {
            Some(q) => q,
            None => {
                return None;
            },
        };
        let (p, r) = match Self::random_modulus(&q, p_size - q_size) {
            Some(found) => found,
            None => {
                return None;
            },
        };
        let g = match Self::random_generator(&p, &r) {
            Some(g) => g,
            None => {
                return None;
            },
        };
        let w = random_below(&q);
        let (x, w) = Self::with_witness(p, q, g, w);
        proof {
            let h0 = choose|h0: nat| h0 < x.p@ && x.g@ == #[trigger] mod_pow(h0, r@, x.p@);
            assert(x.is_made_from(r@, h0, p_size as nat, q_size as nat));
            x.lemma_generated_has_subgroup_shape(w@, p_size as nat, q_size as nat);
        }
        Some((x, w))
    }

    /// Whether the instance is valid, given whether `p` and whether `q` passed
    /// for a prime: both did, `q` divides `p - 1`, and `g` and `h` are below
    /// `p`.
    pub fn is_valid_with(&self, p_prime: bool, q_prime: bool) -> (r: bool)
        ensures
            r == (p_prime && q_prime && self.has_subgroup_shape()),
    {
        if !p_prime || !q_prime || self.p.is_zero() || self.q.is_zero() {
            return false;
        }
        self.p.sub(&BigNat::one()).is_multiple_of(&self.q) && self.g.is_less_than(&self.p)
            && self.h.is_less_than(&self.p)
    }

    /// Whether `valid` is what `is_valid` may return: what `is_valid_with`
    /// gives for answers that the test of primality may give of `p` and of
    /// `q`. Where `p` and `q` are below 4 that is one value, the validity of
    /// the instance.
    pub open spec fn may_be_found_valid(&self, valid: bool) -> bool {
        exists|p_prime: bool, q_prime: bool|
            #![trigger may_answer(self.p@, p_prime), may_answer(self.q@, q_prime)]
            may_answer(self.p@, p_prime) && may_answer(self.q@, q_prime) && valid == (p_prime
                && q_prime && self.has_subgroup_shape())
    }

    /// Checks whether this instance is valid: `p` and `q` pass for primes, `q`
    /// divides `p - 1`, and `g` and `h` are below `p`.
    ///
    /// The primality of a number above 3 is tested by chance, so a call may
    /// reject what another accepts; `is_valid_with` says what is returned for
    /// each outcome of the two tests. Of primes below 4 the test is exact, and
    /// so is the result where both `p` and `q` are below 4.
    pub fn is_valid(&self) -> (r: bool)
        ensures
            self.may_be_found_valid(r),
            r ==> self.has_subgroup_shape() && self.p@ >= 2 && self.q@ >= 2,
    {
        let p_prime = probably_prime(&self.p);
        if !p_prime {
            proof {
                // The test of q is not made; any answer that it may give will do.
                let q_prime = self.q@ == 2 || self.q@ == 3;
                assert(may_answer(self.p@, false) && may_answer(self.q@, q_prime));
            }
            return false;
        }
        let q_prime = probably_prime(&self.q);
        let r = self.is_valid_with(p_prime, q_prime);
        proof {
            assert(may_answer(self.p@, p_prime) && may_answer(self.q@, q_prime));
        }
        r
    }
}

impl Clone for SchnorrDiscreteLogInstance {
    fn clone(&self) -> (r: Self)
        ensures
            r.p@ == self.p@,
            r.q@ == self.q@,
            r.g@ == self.g@,
            r.h@ == self.h@,
    {
        SchnorrDiscreteLogInstance {
            p: self.p.clone(),
            q: self.q.clone(),
            g: self.g.clone(),
            h: self.h.clone(),
        }
    }
}

/// What holds of the instances and of the transcripts made for them.
impl SchnorrDiscreteLogInstance {
    /// Completeness: in a group whose generator has an order that divides `q`,
    /// the verification equation holds of what an honest prover sends. The
    /// prover holds a witness `w`, sends `g ^ r mod p` for its `r`, and answers
    /// the challenge `e` with `(r + e * w) mod q`.
    pub proof fn lemma_honest_transcript_verifies(&self, w: nat, r: nat, e: nat)
        requires
            self.has_moduli(),
            self.generator_has_order(),
            self.has_witness(w),
        ensures
            self.verifies(mod_pow(self.g@, r, self.p@), e, (r + e * w) % self.q@),
    {
        lemma_honest_response_verifies(self.p@, self.q@, self.g@, w, r, e);
    }

    /// Soundness of the simulator: where `h` has an inverse modulo `p`, the
    /// verification equation holds of the simulator's first message for any
    /// challenge `e` and any response `z`.
    pub proof fn lemma_simulated_transcript_verifies(&self, e: nat, z: nat)
        requires
            self.has_invertible_public_value(),
        ensures
            self.verifies(self.simulated_commitment(e, z), e, z),
    {
        lemma_coprime_has_inverse(self.h@, self.p@);
        lemma_simulated_commitment_verifies(
            self.p@,
            self.g@,
            self.h@,
            mod_inverse(self.h@, self.p@),
            e,
            z,
        );
    }

    /// Where `p` is prime and `h` is not zero and below it, `h` has an inverse
    /// modulo `p`.
    pub proof fn lemma_prime_modulus_inverts_public_value(&self)
        requires
            is_prime(self.p@),
            0 < self.h@ < self.p@,
        ensures
            self.has_invertible_public_value(),
    {
        lemma_prime_is_coprime_to_smaller(self.h@, self.p@);
    }

    /// What `generate` returns has the shape that `is_valid` asks for.
    pub proof fn lemma_generated_has_subgroup_shape(&self, w: nat, p_size: nat, q_size: nat)
        requires
            self.is_generated(w, p_size, q_size),
        ensures
            self.has_subgroup_shape(),
    {
        let (r, h0) = choose|r: nat, h0: nat| #[trigger] self.is_made_from(r, h0, p_size, q_size);
        lemma_mod_pow_bound(h0, r, self.p@);
        lemma_mod_pow_bound(self.g@, w, self.p@);
        lemma_mod_multiples_basic(r as int, self.q@ as int);
        assert(self.q@ * r == r * self.q@) by (nonlinear_arith);
    }

    /// The modulus that `generate` returns is above `q` and has no more than
    /// `p_size` binary digits, but for the power of two with one more.
    pub proof fn lemma_generated_modulus_size(&self, w: nat, p_size: nat, q_size: nat)
        requires
            self.is_generated(w, p_size, q_size),
        ensures
            self.q@ < self.p@ <= pow2(p_size),
    {
        let (r, h0) = choose|r: nat, h0: nat| #[trigger] self.is_made_from(r, h0, p_size, q_size);
        let q = self.q@;
        let q_bound = pow2(q_size);
        let r_bound = pow2((p_size - q_size) as nat);
        lemma_pow2_adds(q_size, (p_size - q_size) as nat);
        assert(q < q * r + 1 <= q_bound * r_bound) by (nonlinear_arith)
            requires
                0 < q < q_bound,
                1 <= r < r_bound,
        ;
    }

    /// What `generate` returns is a Schnorr group with an instance in it,
    /// provided that the `p` that passed for a prime is one and that `g` did
    /// not come out as zero: the order of `g` divides `q`, `w` is a witness,
    /// and `h` has an inverse modulo `p`. An honest run on it is accepted, and
    /// so is what the simulator makes for it.
    pub proof fn lemma_generated_in_prime_field(&self, w: nat, p_size: nat, q_size: nat)
        requires
            self.is_generated(w, p_size, q_size),
            is_prime(self.p@),
            self.g@ != 0,
        ensures
            self.has_moduli(),
            self.generator_has_order(),
            self.has_witness(w),
            self.has_invertible_public_value(),
    {
        let (r, h0) = choose|r: nat, h0: nat| #[trigger] self.is_made_from(r, h0, p_size, q_size);
        lemma_cofactor_power_has_order(self.p@, self.q@, r, h0);
        lemma_small_mod(1, self.p@);
        // h is a power of g, which p does not divide, so h is not zero.
        self.lemma_generated_has_subgroup_shape(w, p_size, q_size);
        lemma_small_mod(self.g@, self.p@);
        lemma_prime_divides_no_power(self.p@, self.g@, w);
        self.lemma_prime_modulus_inverts_public_value();
    }
}

/// Why the verifier of Schnorr's protocol rejects a transcript.
#[derive(Debug)]
pub enum SchnorrVerifierError {
    /// The two sides of the verification equation differ: `lhs` is
    /// `g ^ z mod p` and `rhs` is `a * h ^ e mod p`.
    ExpressionsNotEqual { lhs: BigNat, rhs: BigNat },
}

/// One run of Schnorr's protocol on an instance.
pub struct SchnorrDiscreteLogProtocol {
    instance: SchnorrDiscreteLogInstance,
    witness: Option<BigNat>,
    random_exponent: Option<BigNat>,
}

impl SchnorrDiscreteLogProtocol {
    /// The exponent that the prover drew in its first move, while it is held.
    pub closed spec fn random_exponent(&self) -> Option<nat> {
        match self.random_exponent {
            Some(r) => Some(r@),
            None => None,
        }
    }
}

impl SigmaProtocol<
    SchnorrDiscreteLogInstance,
    BigNat,
    BigNat,
    BigNat,
    BigNat,
> for SchnorrDiscreteLogProtocol {
    type VerifierError = SchnorrVerifierError;

    closed spec fn instance(&self) -> SchnorrDiscreteLogInstance {
        self.instance
    }

    closed spec fn witness(&self) -> Option<BigNat> {
        self.witness
    }

    closed spec fn committed(&self) -> bool {
        self.random_exponent is Some
    }

    closed spec fn commits_to(&self, a: BigNat) -> bool {
        self.random_exponent matches Some(r) && a@ == mod_pow(
            self.instance.g@,
            r@,
            self.instance.p@,
        )
    }

    closed spec fn honest(&self) -> bool {
        self.witness matches Some(w) && Self::relation(self.instance, w)
    }

    open spec fn admissible(x: SchnorrDiscreteLogInstance) -> bool {
        x.has_moduli()
    }

    open spec fn relation(x: SchnorrDiscreteLogInstance, w: BigNat) -> bool {
        x.has_moduli() && x.generator_has_order() && x.has_witness(w@)
    }

    open spec fn simulable(x: SchnorrDiscreteLogInstance) -> bool {
        x.has_invertible_public_value()
    }

    open spec fn in_challenge_space(x: SchnorrDiscreteLogInstance, e: BigNat) -> bool {
        e@ < x.challenge_bound()
    }

    open spec fn accepts(x: SchnorrDiscreteLogInstance, a: BigNat, e: BigNat, z: BigNat) -> bool {
        x.verifies(a@, e@, z@)
    }

    open spec fn reports(
        x: SchnorrDiscreteLogInstance,
        a: BigNat,
        e: BigNat,
        z: BigNat,
        err: SchnorrVerifierError,
    ) -> bool {
        err matches SchnorrVerifierError::ExpressionsNotEqual { lhs, rhs } && lhs@ == mod_pow(
            x.g@,
            z@,
            x.p@,
        ) && rhs@ == (a@ * mod_pow(x.h@, e@, x.p@)) % x.p@
    }

    fn new(instance: SchnorrDiscreteLogInstance, witness: Option<BigNat>) -> (s: Self) {
        SchnorrDiscreteLogProtocol { instance, witness, random_exponent: None }
    }

    /// Draws `r` below `p`, keeps it, and sends `g ^ r mod p`.
    fn initial_message(&mut self) -> (a: BigNat)
        ensures
            final(self).random_exponent() matches Some(r) && r < old(self).instance().p@ && a@
                == mod_pow(old(self).instance().g@, r, old(self).instance().p@),
            a@ < old(self).instance().p@,
    {
        let r = random_below(&self.instance.p);
        let a = self.instance.g.modpow(&r, &self.instance.p);
        proof {
            lemma_mod_pow_bound(self.instance.g@, r@, self.instance.p@);
        }
        self.random_exponent = Some(r);
        assert(self.commits_to(a));
        a
    }

    /// Draws a challenge below the largest power of two that is not above `q`.
    fn challenge(&mut self) -> (e: BigNat) {
        let bound = self.instance.challenge_bound_number();
        proof {
            lemma_pow2_pos((bit_length(self.instance.q@) - 1) as nat);
        }
        random_below(&bound)
    }

    /// Answers with `(r + e * w) mod q` and forgets `r`.
    fn challenge_response(&mut self, challenge: &BigNat) -> (z: BigNat)
        ensures
            old(self).random_exponent() matches Some(r) && old(self).witness() matches Some(w)
                && z@ == (r + challenge@ * w@) % old(self).instance().q@,
            z@ < old(self).instance().q@,
            final(self).random_exponent() is None,
    {
        let r = self.random_exponent.take().unwrap();
        let w = self.witness.as_ref().unwrap();
        let z = r.add(&challenge.mul(w)).modpow(&BigNat::one(), &self.instance.q);
        proof {
            lemma_pow1((r@ + challenge@ * w@) as int);
            lemma_mod_pow_bound(r@ + challenge@ * w@, 1, self.instance.q@);
            if old(self).honest() {
                self.instance.lemma_honest_transcript_verifies(w@, r@, challenge@);
            }
        }
        z
    }

    /// Accepts where `g ^ z` equals `a * h ^ e` modulo `p`.
    fn check(&mut self, initial_msg: BigNat, challenge: BigNat, response: BigNat) -> (res: Result<
        (),
        SchnorrVerifierError,
    >) {
        let lhs = self.instance.g.modpow(&response, &self.instance.p);
        let rhs = initial_msg.mul(&self.instance.h.modpow(&challenge, &self.instance.p)).mod_floor(
            &self.instance.p,
        );
        if lhs.equals(&rhs) {
            Ok(())
        } else {
            Err(SchnorrVerifierError::ExpressionsNotEqual { lhs, rhs })
        }
    }

    /// Draws `z` below `p` and sends `g ^ z * (h ^ -1) ^ e mod p` with it, the
    /// inverse of `h` taken from the extended greatest common divisor of `h`
    /// and `p`.
    fn simulate(&mut self, challenge: &BigNat) -> (r: (BigNat, BigNat))
        ensures
            r.0@ < old(self).instance().p@,
            r.1@ < old(self).instance().p@,
            old(self).instance().has_invertible_public_value() ==> r.0@ == old(
                self,
            ).instance().simulated_commitment(challenge@, r.1@),
    {
        let p = &self.instance.p;
        let z = random_below(p);
        let bezout = self.instance.h.extended_gcd(p);
        let h_inv = bezout.x.mod_floor(p);
        let h_pow_neg_e = h_inv.modpow(challenge, p);
        let a = self.instance.g.modpow(&z, p).mul(&h_pow_neg_e).mod_floor(p);
        proof {
            let x = self.instance();
            lemma_mod_bound(bezout.x.value(), x.p@ as int);
            if Self::simulable(x) {
                // The Bezout coefficient of h, reduced, is the inverse of h.
                lemma_bezout_inverse(x.h@, x.p@, bezout.x.value(), bezout.y.value());
                lemma_coprime_has_inverse(x.h@, x.p@);
                lemma_inverse_unique(x.h@, h_inv@, mod_inverse(x.h@, x.p@), x.p@);
                x.lemma_simulated_transcript_verifies(challenge@, z@);
            }
        }
        (a, z)
    }
}

} // verus!
