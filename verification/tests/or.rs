use sigma::bignat::BigNat;
use sigma::or::{OrProtocol, OrProtocolVerifierError, XorChallenge};
use sigma::schnorr::{
    SchnorrDiscreteLogInstance, SchnorrDiscreteLogProtocol, SchnorrVerifierError,
};
use sigma::SigmaProtocol;

type SchnorrOrProtocol = OrProtocol<SchnorrDiscreteLogProtocol, BigNat, BigNat>;

fn number(b: &BigNat) -> u128 {
    b.to_bytes_be().iter().fold(0u128, |acc, d| acc * 256 + *d as u128)
}

fn make_instance() -> ((SchnorrDiscreteLogInstance, SchnorrDiscreteLogInstance), BigNat) {
    let p = BigNat::from_u64(1907);
    let q = BigNat::from_u64(953);
    let g = BigNat::from_u64(343);

    let w = BigNat::from_u64(121);
    let h1 = g.modpow(&w, &p);

    let h2 = BigNat::from_u64(862);

    let instance = (
        SchnorrDiscreteLogInstance::new(p.clone(), q.clone(), g.clone(), h1),
        SchnorrDiscreteLogInstance::new(p, q, g, h2),
    );

    (instance, w)
}

#[test]
fn or_honest_run_is_accepted() {
    let (instance, witness) = make_instance();
    let mut protocol = SchnorrOrProtocol::new(instance, Some(witness));
    let res = protocol.run_protocol();
    assert!(res.is_ok(), "Honest run not accepted: {:?}", res)
}

#[test]
fn or_simulator_is_accepted() {
    let (instance, _) = make_instance();
    let mut protocol = SchnorrOrProtocol::new(instance, None);

    let e = BigNat::from_u64(675);
    let (a, z) = protocol.simulate(&e);

    let res = protocol.check(a, e, z);
    assert!(res.is_ok(), "Simulator not accepted: {:?}", res)
}

#[test]
fn or_honest_run_with_the_witness_on_the_second_instance() {
    let ((first, second), witness) = make_instance();
    let mut protocol = SchnorrOrProtocol::with_witness_on_second((second, first), Some(witness));
    let res = protocol.run_protocol();
    assert!(res.is_ok(), "Honest run not accepted: {:?}", res)
}

#[test]
fn or_witness_on_the_wrong_branch_is_rejected() {
    // A run is accepted all the same where the challenge of the honest branch
    // comes out as 0, once in 512 runs.
    let mut rejected = 0;
    for _ in 0..20 {
        let ((first, second), witness) = make_instance();
        let mut protocol = SchnorrOrProtocol::new((second, first), Some(witness));
        match protocol.run_protocol() {
            Ok(()) => {}
            Err(OrProtocolVerifierError::SubProtocolFailure(_)) => rejected += 1,
            Err(err) => panic!("the challenges must combine, got {:?}", err),
        }
    }
    assert!(rejected >= 15);
}

#[test]
fn or_challenges_of_a_transcript_combine_to_the_challenge() {
    let (instance, witness) = make_instance();
    for on_second in [false, true] {
        let ((first, second), w) = (instance.clone(), witness.clone());
        let mut protocol = if on_second {
            SchnorrOrProtocol::with_witness_on_second((second, first), Some(w))
        } else {
            SchnorrOrProtocol::new((first, second), Some(w))
        };
        let a = protocol.initial_message();
        let e = protocol.challenge();
        assert!(number(&e) < 512);
        let z = protocol.challenge_response(&e);
        assert_eq!(number(&z.0) ^ number(&z.2), number(&e));
        assert!(protocol.check(a, e, z).is_ok());
    }
}

#[test]
fn or_simulated_challenges_combine_to_the_challenge() {
    let (instance, _) = make_instance();
    let mut protocol = SchnorrOrProtocol::new(instance, None);
    for e in [0u64, 1, 675, 1 << 40] {
        let e = BigNat::from_u64(e);
        let (a, z) = protocol.simulate(&e);
        assert_eq!(number(&z.0) ^ number(&z.2), number(&e));
        assert!(protocol.check(a, e, z).is_ok());
    }
}

#[test]
fn or_check_reports_challenges_that_do_not_combine() {
    let (instance, _) = make_instance();
    let mut protocol = SchnorrOrProtocol::new(instance, None);
    let e = BigNat::from_u64(675);
    let (a, z) = protocol.simulate(&e);
    let other = BigNat::from_u64(676);
    match protocol.check(a, other, z) {
        Err(OrProtocolVerifierError::ChallengeXorMismatch { e0, e1, expected }) => {
            assert_eq!(number(&e0) ^ number(&e1), 675);
            assert_eq!(number(&expected), 676);
        }
        res => panic!("expected a mismatch of the challenges, got {:?}", res),
    }
}

#[test]
fn or_check_reports_the_branch_that_fails() {
    let (instance, _) = make_instance();
    let mut protocol = SchnorrOrProtocol::new(instance, None);
    let e = BigNat::from_u64(675);
    let ((a0, a1), (e0, z0, e1, _)) = protocol.simulate(&e);
    // A wrong response on the second branch: the first is accepted, the second
    // reports the two sides of its equation.
    let z1 = BigNat::from_u64(1);
    let left = number(&BigNat::from_u64(343));
    let right = number(&a1) * number(&BigNat::from_u64(862).modpow(&e1, &BigNat::from_u64(1907)))
        % 1907;
    match protocol.check((a0, a1), e, (e0, z0, e1, z1)) {
        Err(OrProtocolVerifierError::SubProtocolFailure(
            SchnorrVerifierError::ExpressionsNotEqual { lhs, rhs },
        )) => {
            assert_eq!(number(&lhs), left);
            assert_eq!(number(&rhs), right);
        }
        res => {
            // The two sides may agree by chance, once in 1907 runs.
            assert!(res.is_ok() && left == right);
        }
    }
}

#[test]
fn xor_of_numbers() {
    let a = BigNat::from_u64(675);
    let b = BigNat::from_u64(300);
    let c = a.xor(&b);
    assert_eq!(number(&c), 911);
    assert!(c.xor(&b).same(&a));
    assert!(b.xor(&c).same(&a));
    assert!(!c.same(&a));
}

#[test]
fn or_of_or_compositions() {
    // Four instances, the witness for the first: the composition of two
    // compositions runs the honest branch within the honest branch.
    type Nested = OrProtocol<SchnorrOrProtocol, BigNat, (BigNat, BigNat, BigNat, BigNat)>;
    let (pair, witness) = make_instance();
    let (other, _) = make_instance();
    let mut protocol = Nested::new((pair, (other.1, other.0)), Some(witness));
    let res = protocol.run_protocol();
    assert!(res.is_ok(), "Honest run not accepted: {:?}", res);

    let (pair, _) = make_instance();
    let (other, _) = make_instance();
    let mut protocol = Nested::new((pair, other), None);
    let e = BigNat::from_u64(300);
    let (a, z) = protocol.simulate(&e);
    let inner_first = number(&(z.0));
    let inner_second = number(&(z.2));
    assert_eq!(inner_first ^ inner_second, 300);
    assert_eq!(number(&(z.1).0) ^ number(&(z.1).2), inner_first);
    assert_eq!(number(&(z.3).0) ^ number(&(z.3).2), inner_second);
    let res = protocol.check(a, e, z);
    assert!(res.is_ok(), "Simulator not accepted: {:?}", res);
}
