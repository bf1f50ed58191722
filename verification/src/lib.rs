//! Sigma protocols: three-move public-coin proofs of knowledge, with Schnorr's
//! protocol for discrete logarithms, the OR composition of two protocols, and a
//! commitment scheme made from Schnorr's simulator.
//!
//! The trait `SigmaProtocol` is the contract of such a protocol. `schnorr` and
//! `or` hold the two protocols and `applications::commitments` the commitment
//! scheme. Numbers are `bignat::BigNat`; `arith`, `random` and `primes` compute
//! on them with the `num`, `rand` and `num_primes` crates, and `number_theory`
//! and `fermat` hold the mathematics that the proofs rest on. `netutil`,
//! `remote` and `text` hold what a run over a connection needs besides the
//! connection itself, and `hex` writes numbers for a reader.

use vstd::prelude::*;

pub mod applications;
pub mod arith;
pub mod bignat;
pub mod fermat;
pub mod hex;
pub mod netutil;
pub mod number_theory;
pub mod or;
pub mod primes;
pub mod random;
pub mod remote;
pub mod schnorr;
pub mod text;

verus! {

/// A three-move protocol between a prover and a verifier: the prover sends a
/// first message `A`, the verifier a challenge `E`, the prover a response `Z`,
/// and the verifier accepts or rejects the transcript. With it comes a
/// simulator, which makes accepted transcripts for a given challenge without a
/// witness.
///
/// `X` is the kind of the instances and `W` that of the witnesses. One object
/// serves one run.
///
/// The contracts of the moves speak of the specification functions below. A
/// protocol defines them for itself; until it does they are arbitrary, which
/// lets a protocol whose moves cannot be proved, such as one that talks over a
/// network, carry the trait all the same. What is proved through the trait
/// holds of a protocol as far as its moves were proved to meet the contracts.
pub trait SigmaProtocol<X, W, A, E, Z>: Sized {
    /// What the verifier reports of a transcript that it rejects.
    type VerifierError;

    /// The instance that the protocol runs on.
    open spec fn instance(&self) -> X {
        arbitrary()
    }

    /// The witness that the prover was given, if any.
    open spec fn witness(&self) -> Option<W> {
        arbitrary()
    }

    /// Whether the first move was made and its secret is still held for the
    /// third.
    open spec fn committed(&self) -> bool {
        arbitrary()
    }

    /// Whether `a` is the first message that belongs to the secret held.
    open spec fn commits_to(&self, a: A) -> bool {
        arbitrary()
    }

    /// Whether the prover holds a witness that fits its instance, so that its
    /// honest runs are accepted.
    open spec fn honest(&self) -> bool {
        arbitrary()
    }

    /// The instances on which the moves are defined.
    open spec fn admissible(x: X) -> bool {
        arbitrary()
    }

    /// The pairs of an instance and a witness that make a prover built by
    /// `new` honest.
    open spec fn relation(x: X, w: W) -> bool {
        arbitrary()
    }

    /// The instances whose simulated transcripts are accepted.
    open spec fn simulable(x: X) -> bool {
        arbitrary()
    }

    /// The challenges that the verifier of `x` draws from.
    open spec fn in_challenge_space(x: X, e: E) -> bool {
        arbitrary()
    }

    /// The verifier's decision on a transcript for `x`.
    open spec fn accepts(x: X, a: A, e: E, z: Z) -> bool {
        arbitrary()
    }

    /// Whether `err` is what the verifier reports of a rejected transcript.
    open spec fn reports(x: X, a: A, e: E, z: Z, err: Self::VerifierError) -> bool {
        arbitrary()
    }

    /// A protocol object for `instance`, for a prover where `witness` is given
    /// and for a verifier or a simulator where it is not.
    fn new(instance: X, witness: Option<W>) -> (s: Self)
        ensures
            s.instance() == instance,
            s.witness() == witness,
            !s.committed(),
            s.honest() == (witness matches Some(w) && Self::relation(instance, w)),
    ;

    /// The prover's first move. It draws the secret of this run and keeps it
    /// for the third move.
    fn initial_message(&mut self) -> (a: A)
        requires
            Self::admissible(old(self).instance()),
        ensures
            final(self).instance() == old(self).instance(),
            final(self).witness() == old(self).witness(),
            final(self).honest() == old(self).honest(),
            final(self).committed(),
            final(self).commits_to(a),
    ;

    /// The verifier's move: a challenge drawn from the challenge space.
    fn challenge(&mut self) -> (e: E)
        requires
            Self::admissible(old(self).instance()),
        ensures
            *final(self) == *old(self),
            Self::in_challenge_space(old(self).instance(), e),
    ;

    /// The prover's third move, which uses up the secret of the first. An
    /// honest prover's response completes every first message of that secret
    /// to an accepted transcript.
    fn challenge_response(&mut self, challenge: &E) -> (z: Z)
        requires
            Self::admissible(old(self).instance()),
            old(self).witness() is Some,
            old(self).committed(),
        ensures
            final(self).instance() == old(self).instance(),
            final(self).witness() == old(self).witness(),
            final(self).honest() == old(self).honest(),
            !final(self).committed(),
            forall|a: A|
                old(self).honest() && #[trigger] old(self).commits_to(a) ==> Self::accepts(
                    old(self).instance(),
                    a,
                    *challenge,
                    z,
                ),
    ;

    /// The verifier's decision on a transcript.
    fn check(&mut self, initial_msg: A, challenge: E, response: Z) -> (res: Result<
        (),
        Self::VerifierError,
    >)
        requires
            Self::admissible(old(self).instance()),
        ensures
            *final(self) == *old(self),
            res is Ok <==> Self::accepts(old(self).instance(), initial_msg, challenge, response),
            res matches Err(err) ==> Self::reports(
                old(self).instance(),
                initial_msg,
                challenge,
                response,
                err,
            ),
    ;

    /// The simulator: a first message and a response that make an accepted
    /// transcript with `challenge`, made without the witness.
    fn simulate(&mut self, challenge: &E) -> (r: (A, Z))
        requires
            Self::admissible(old(self).instance()),
        ensures
            *final(self) == *old(self),
            Self::simulable(old(self).instance()) ==> Self::accepts(
                old(self).instance(),
                r.0,
                *challenge,
                r.1,
            ),
    ;

    /// Runs the three moves in one place and gives the verifier's decision on
    /// the transcript that they make. An honest prover's run is accepted.
    fn run_protocol(&mut self) -> (res: Result<(), Self::VerifierError>)
        requires
            Self::admissible(old(self).instance()),
            old(self).witness() is Some,
        ensures
            final(self).instance() == old(self).instance(),
            final(self).witness() == old(self).witness(),
            !final(self).committed(),
            old(self).honest() ==> res is Ok,
            exists|a: A, e: E, z: Z|
                {
                    &&& Self::in_challenge_space(old(self).instance(), e)
                    &&& res is Ok <==> #[trigger] Self::accepts(old(self).instance(), a, e, z)
                    &&& res matches Err(err) ==> Self::reports(old(self).instance(), a, e, z, err)
                },
    {
        let a = self.initial_message();
        let e = self.challenge();
        let z = self.challenge_response(&e);
        self.check(a, e, z)
    }
}

} // verus!
