//! The OR composition: from a protocol for one relation, a protocol that proves
//! knowledge of a witness for one of two instances without showing for which.
//!
//! The prover runs the branch of its witness honestly and simulates the other.
//! The two challenges of a transcript must combine to the verifier's challenge,
//! which leaves the prover free to choose one of them, and no more.

use crate::bignat::BigNat;
use crate::number_theory::{lemma_xor_cancels_left, lemma_xor_cancels_right, xor_nat};
use crate::SigmaProtocol;
use vstd::prelude::*;

verus! {

/// Challenges that can be combined by an exclusive or: an operation that
/// undoes itself, so that from the result and either operand the other operand
/// is had back.
pub trait XorChallenge: View + Sized {
    /// The exclusive or of two challenges, on their views.
    spec fn xor_of(a: Self::V, b: Self::V) -> Self::V;

    /// Combining with the same challenge twice gives the first challenge back,
    /// on whichever side it stands.
    proof fn lemma_xor_cancels(a: Self::V, b: Self::V)
        ensures
            Self::xor_of(Self::xor_of(a, b), b) == a,
            Self::xor_of(b, Self::xor_of(a, b)) == a,
    ;

    /// The exclusive or of the challenge and `other`.
    fn xor(&self, other: &Self) -> (r: Self)
        ensures
            r@ == Self::xor_of(self@, other@),
    ;

    /// Whether the challenge and `other` are the same.
    fn same(&self, other: &Self) -> (r: bool)
        ensures
            r == (self@ == other@),
    ;
}

impl XorChallenge for BigNat {
    open spec fn xor_of(a: nat, b: nat) -> nat {
        xor_nat(a, b)
    }

    proof fn lemma_xor_cancels(a: nat, b: nat) {
        lemma_xor_cancels_right(a, b);
        lemma_xor_cancels_left(a, b);
    }

    fn xor(&self, other: &Self) -> (r: Self) {
        self.bitxor(other)
    }

    fn same(&self, other: &Self) -> (r: bool) {
        self.equals(other)
    }
}

/// One run of the OR composition of two runs of the protocol `P`.
pub struct OrProtocol<P, E, Z> {
    protocols: (P, P),
    /// The challenge and the response of the simulated branch, kept from the
    /// first move for the third.
    chosen_values: Option<(E, Z)>,
    /// Whether the witness belongs to the second instance.
    witness_on_second: bool,
}

/// Why the verifier of an OR composition rejects a transcript.
#[derive(Debug)]
pub enum OrProtocolVerifierError<VError, E> {
    /// The verifier of a branch rejected its part of the transcript; of two
    /// that do, the first.
    SubProtocolFailure(VError),
    /// The challenges `e0` and `e1` of the branches do not combine to the
    /// challenge `expected` of the verifier.
    ChallengeXorMismatch { e0: E, e1: E, expected: E },
}

impl<P, E, Z> OrProtocol<P, E, Z> {
    /// Whether the prover runs its second branch honestly and simulates the
    /// first, instead of the other way round.
    pub closed spec fn witness_on_second(&self) -> bool {
        self.witness_on_second
    }

    /// The challenge and the response of the simulated branch, while they are
    /// kept.
    pub closed spec fn chosen_values(&self) -> Option<(E, Z)> {
        self.chosen_values
    }

    /// A protocol object for a prover whose witness belongs to the second
    /// instance. Its messages are laid out as those of a prover whose witness
    /// belongs to the first.
    pub fn with_witness_on_second<X, W, A>(instance: (X, X), witness: Option<W>) -> (s: Self) where
        P: SigmaProtocol<X, W, A, E, Z>,
        E: XorChallenge,

        ensures
            s.witness_on_second(),
            s.instance() == instance,
            s.witness() == witness,
            !s.committed(),
            s.honest() == (witness matches Some(w) && P::relation(instance.1, w) && P::simulable(
                instance.0,
            )),
    {
        let s = OrProtocol {
            protocols: (P::new(instance.0, None), P::new(instance.1, witness)),
            chosen_values: None,
            witness_on_second: true,
        };
        assert(s.honest() == (witness matches Some(w) && P::relation(instance.1, w)
            && P::simulable(instance.0)));
        s
    }
}

impl<P, X, W, A, E, Z> SigmaProtocol<(X, X), W, (A, A), E, (E, Z, E, Z)> for OrProtocol<
    P,
    E,
    Z,
> where P: SigmaProtocol<X, W, A, E, Z>, E: XorChallenge {
    type VerifierError = OrProtocolVerifierError<P::VerifierError, E>;

    closed spec fn instance(&self) -> (X, X) {
        (self.protocols.0.instance(), self.protocols.1.instance())
    }

    closed spec fn witness(&self) -> Option<W> {
        if self.witness_on_second {
            self.protocols.1.witness()
        } else {
            self.protocols.0.witness()
        }
    }

    closed spec fn committed(&self) -> bool {
        self.chosen_values is Some && if self.witness_on_second {
            self.protocols.1.committed()
        } else {
            self.protocols.0.committed()
        }
    }

    closed spec fn commits_to(&self, a: (A, A)) -> bool {
        self.chosen_values matches Some((e, z)) && if self.witness_on_second {
            self.protocols.1.commits_to(a.1) && (P::simulable(self.protocols.0.instance())
                ==> P::accepts(self.protocols.0.instance(), a.0, e, z))
        } else {
            self.protocols.0.commits_to(a.0) && (P::simulable(self.protocols.1.instance())
                ==> P::accepts(self.protocols.1.instance(), a.1, e, z))
        }
    }

    closed spec fn honest(&self) -> bool {
        if self.witness_on_second {
            self.protocols.1.honest() && P::simulable(self.protocols.0.instance())
        } else {
            self.protocols.0.honest() && P::simulable(self.protocols.1.instance())
        }
    }

    open spec fn admissible(x: (X, X)) -> bool {
        P::admissible(x.0) && P::admissible(x.1)
    }

    open spec fn relation(x: (X, X), w: W) -> bool {
        P::relation(x.0, w) && P::simulable(x.1)
    }

    open spec fn simulable(x: (X, X)) -> bool {
        P::simulable(x.0) && P::simulable(x.1)
    }

    open spec fn in_challenge_space(x: (X, X), e: E) -> bool {
        P::in_challenge_space(x.0, e)
    }

    open spec fn accepts(x: (X, X), a: (A, A), e: E, z: (E, Z, E, Z)) -> bool {
        &&& e@ == E::xor_of(z.0@, z.2@)
        &&& P::accepts(x.0, a.0, z.0, z.1)
        &&& P::accepts(x.1, a.1, z.2, z.3)
    }

    open spec fn reports(
        x: (X, X),
        a: (A, A),
        e: E,
        z: (E, Z, E, Z),
        err: OrProtocolVerifierError<P::VerifierError, E>,
    ) -> bool {
        match err {
            OrProtocolVerifierError::ChallengeXorMismatch { e0, e1, expected } => {
                &&& e@ != E::xor_of(z.0@, z.2@)
                &&& e0 == z.0
                &&& e1 == z.2
                &&& expected == e
            },
            OrProtocolVerifierError::SubProtocolFailure(inner) => {
                &&& e@ == E::xor_of(z.0@, z.2@)
                &&& if P::accepts(x.0, a.0, z.0, z.1) {
                    !P::accepts(x.1, a.1, z.2, z.3) && P::reports(x.1, a.1, z.2, z.3, inner)
                } else {
                    P::reports(x.0, a.0, z.0, z.1, inner)
                }
            },
        }
    }

    /// A protocol object whose witness, if one is given, belongs to the first
    /// instance.
    fn new(instance: (X, X), witness: Option<W>) -> (s: Self)
        ensures
            !s.witness_on_second(),
    {
        OrProtocol {
            protocols: (P::new(instance.0, witness), P::new(instance.1, None)),
            chosen_values: None,
            witness_on_second: false,
        }
    }

    /// Makes the first move of the branch of the witness, and simulates the
    /// other branch for a challenge drawn here, which is kept with its response.
    fn initial_message(&mut self) -> (a: (A, A))
        ensures
            final(self).witness_on_second() == old(self).witness_on_second(),
            final(self).chosen_values() matches Some((e, _)) && P::in_challenge_space(
                if old(self).witness_on_second() {
                    old(self).instance().0
                } else {
                    old(self).instance().1
                },
                e,
            ),
    {
        let a = if self.witness_on_second {
            let e0 = self.protocols.0.challenge();
            let (a0, z0) = self.protocols.0.simulate(&e0);
            let a1 = self.protocols.1.initial_message();
            self.chosen_values = Some((e0, z0));
            (a0, a1)
        } else {
            let a0 = self.protocols.0.initial_message();
            let e1 = self.protocols.1.challenge();
            let (a1, z1) = self.protocols.1.simulate(&e1);
            self.chosen_values = Some((e1, z1));
            (a0, a1)
        };
        assert(self.commits_to(a));
        a
    }

    /// Draws the verifier's challenge from the challenge space of the first
    /// branch.
    fn challenge(&mut self) -> (e: E) {
        self.protocols.0.challenge()
    }

    /// Answers on the branch of the witness the challenge that combines with
    /// the kept one to `challenge`, and sends the challenges and the responses
    /// of both branches.
    fn challenge_response(&mut self, challenge: &E) -> (z: (E, Z, E, Z))
        ensures
            final(self).witness_on_second() == old(self).witness_on_second(),
            final(self).chosen_values() is None,
            challenge@ == E::xor_of(z.0@, z.2@),
            old(self).chosen_values() == if old(self).witness_on_second() {
                Some((z.0, z.1))
            } else {
                Some((z.2, z.3))
            },
    {
        let (e_kept, z_kept) = self.chosen_values.take().unwrap();
        let e_open = challenge.xor(&e_kept);
        proof {
            E::lemma_xor_cancels(challenge@, e_kept@);
        }
        let z = if self.witness_on_second {
            let z1 = self.protocols.1.challenge_response(&e_open);
            (e_kept, z_kept, e_open, z1)
        } else {
            let z0 = self.protocols.0.challenge_response(&e_open);
            (e_open, z0, e_kept, z_kept)
        };
        z
    }

    /// Rejects unless the two challenges combine to `challenge`, and then
    /// accepts where the verifiers of both branches do.
    fn check(&mut self, initial_msg: (A, A), challenge: E, response: (E, Z, E, Z)) -> (res: Result<
        (),
        OrProtocolVerifierError<P::VerifierError, E>,
    >) {
        let (a0, a1) = initial_msg;
        let (e0, z0, e1, z1) = response;
        let e = e0.xor(&e1);
        if !challenge.same(&e) {
            return Err(
                OrProtocolVerifierError::ChallengeXorMismatch { e0, e1, expected: challenge },
            );
        }
        if let Err(err) = self.protocols.0.check(a0, e0, z0) {
            return Err(OrProtocolVerifierError::SubProtocolFailure(err));
        }
        if let Err(err) = self.protocols.1.check(a1, e1, z1) {
            return Err(OrProtocolVerifierError::SubProtocolFailure(err));
        }
        Ok(())
    }

    /// Draws the challenge of the first branch, takes for the second the one
    /// that combines with it to `challenge`, and simulates both branches.
    fn simulate(&mut self, challenge: &E) -> (r: ((A, A), (E, Z, E, Z)))
        ensures
            challenge@ == E::xor_of(r.1.0@, r.1.2@),
            P::in_challenge_space(old(self).instance().0, r.1.0),
    {
        let e0 = self.protocols.0.challenge();
        let e1 = challenge.xor(&e0);
        let (a0, z0) = self.protocols.0.simulate(&e0);
        let (a1, z1) = self.protocols.1.simulate(&e1);
        proof {
            E::lemma_xor_cancels(challenge@, e0@);
        }
        ((a0, a1), (e0, z0, e1, z1))
    }
}

} // verus!
