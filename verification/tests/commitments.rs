use sigma::applications::commitments::{decode, encode, CommitmentScheme};
use sigma::bignat::BigNat;
use sigma::schnorr::SchnorrDiscreteLogInstance;
use sigma::text::TextError;

fn amount(b: &BigNat) -> u128 {
    b.to_bytes_be().iter().fold(0u128, |acc, d| acc * 256 + *d as u128)
}

#[test]
fn encode_decode_equals_identity() {
    let s = String::from("Hello, World!");
    assert_eq!(s, decode(encode(s.clone())).unwrap());
}

#[test]
fn generate_valid_params() {
    let (instance, _) = CommitmentScheme::gen_params(256, 32).unwrap();
    assert!(CommitmentScheme::check_params(instance))
}

#[test]
fn reject_invalid_params() {
    let instance = SchnorrDiscreteLogInstance::new(
        BigNat::from_u64(1),
        BigNat::from_u64(1),
        BigNat::from_u64(1),
        BigNat::from_u64(1),
    );
    assert!(!CommitmentScheme::check_params(instance))
}

#[test]
fn accept_opened_commitment() {
    let (instance, _) = CommitmentScheme::gen_params(256, 32).unwrap();
    let scheme = CommitmentScheme::new(instance);
    let e = BigNat::from_u64(10);
    let (a, z) = scheme.commit(&e);
    assert!(scheme.verify(&a, &e, &z))
}

#[test]
fn reject_fake_commitment() {
    let (instance, _) = CommitmentScheme::gen_params(256, 32).unwrap();
    let scheme = CommitmentScheme::new(instance);
    let e = BigNat::from_u64(10);
    let (a, z) = (BigNat::from_u64(20), BigNat::from_u64(30));
    assert!(!scheme.verify(&a, &e, &z))
}

#[test]
fn commitments_on_a_small_instance_open() {
    let instance = SchnorrDiscreteLogInstance::new(
        BigNat::from_u64(1907),
        BigNat::from_u64(953),
        BigNat::from_u64(343),
        BigNat::from_u64(410),
    );
    let scheme = CommitmentScheme::new(instance);
    for v in 0..40u64 {
        let value = BigNat::from_u64(v);
        let (a, z) = scheme.commit(&value);
        assert!(amount(&a) < 1907);
        assert!(amount(&z) < 1907);
        assert!(scheme.verify(&a, &value, &z));
        // Another value does not open it: g has order 953 and h generates the
        // same subgroup, so h^v differs from h^(v + 1).
        assert!(!scheme.verify(&a, &BigNat::from_u64(v + 1), &z));
    }
}

#[test]
fn verify_decides_by_the_equation() {
    let instance = SchnorrDiscreteLogInstance::new(
        BigNat::from_u64(1907),
        BigNat::from_u64(953),
        BigNat::from_u64(343),
        BigNat::from_u64(410),
    );
    let scheme = CommitmentScheme::new(instance);
    // 343^852 = 1604 * 410^7 modulo 1907
    assert!(scheme.verify(
        &BigNat::from_u64(1604),
        &BigNat::from_u64(7),
        &BigNat::from_u64(852)
    ));
    assert!(!scheme.verify(
        &BigNat::from_u64(1605),
        &BigNat::from_u64(7),
        &BigNat::from_u64(852)
    ));
}

#[test]
fn encode_reads_the_bytes_as_digits() {
    assert_eq!(amount(&encode(String::from("A"))), 65);
    assert_eq!(amount(&encode(String::from("AB"))), 16706);
    assert_eq!(
        amount(&encode(String::from("Hello, World!"))),
        5735816763073854918203775149089
    );
    assert_eq!(amount(&encode(String::new())), 0);
}

#[test]
fn decode_inverts_encode() {
    for s in ["a", "Hello, World!", "z\u{0}\u{0}", "\u{e9}t\u{e9}", "\u{4f60}\u{597d}", "\u{1f600} ok"] {
        assert_eq!(decode(encode(String::from(s))).unwrap(), s);
    }
}

#[test]
fn decode_cannot_restore_leading_zeros() {
    assert_eq!(decode(encode(String::new())).unwrap(), "\u{0}");
    assert_eq!(decode(encode(String::from("\u{0}"))).unwrap(), "\u{0}");
    assert_eq!(decode(encode(String::from("\u{0}ab"))).unwrap(), "ab");
}

#[test]
fn decode_fails_on_what_is_no_text() {
    assert!(matches!(decode(BigNat::from_u64(0xff)), Err(TextError::InvalidUtf8(_))));
    assert!(matches!(decode(BigNat::from_u64(0xc3)), Err(TextError::InvalidUtf8(_))));
    assert_eq!(decode(BigNat::from_u64(0xc3a9)).unwrap(), "\u{e9}");
}

#[test]
fn check_params_is_exact_on_the_smallest_group() {
    let group = |p: u64, q: u64, g: u64, h: u64| {
        SchnorrDiscreteLogInstance::new(
            BigNat::from_u64(p),
            BigNat::from_u64(q),
            BigNat::from_u64(g),
            BigNat::from_u64(h),
        )
    };
    assert!(CommitmentScheme::check_params(group(3, 2, 2, 1)));
    assert!(CommitmentScheme::check_params(group(3, 2, 0, 2)));
    assert!(!CommitmentScheme::check_params(group(3, 1, 2, 1)));
    assert!(!CommitmentScheme::check_params(group(2, 2, 1, 1)));
    assert!(!CommitmentScheme::check_params(group(3, 2, 3, 1)));
}

#[test]
fn gen_params_gives_none_where_no_group_has_the_sizes() {
    assert!(CommitmentScheme::gen_params(32, 1).is_none());
    assert!(CommitmentScheme::gen_params(32, 32).is_none());
}
