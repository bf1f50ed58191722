use sigma::arith::SignedNat;
use sigma::bignat::{BigNat, Relation};
use sigma::primes::probably_prime;
use sigma::random::{random_below, random_bits};

fn natural(b: &BigNat) -> u128 {
    b.to_bytes_be().iter().fold(0u128, |acc, d| acc * 256 + *d as u128)
}

#[test]
fn from_u64_and_back_to_digits() {
    assert_eq!(BigNat::from_u64(0).to_bytes_be(), vec![0]);
    assert_eq!(BigNat::from_u64(1).to_bytes_be(), vec![1]);
    assert_eq!(BigNat::from_u64(255).to_bytes_be(), vec![255]);
    assert_eq!(BigNat::from_u64(256).to_bytes_be(), vec![1, 0]);
    assert_eq!(BigNat::from_u64(1125).to_bytes_be(), vec![4, 101]);
    assert_eq!(
        BigNat::from_u64(12345678901234567890).to_bytes_be(),
        vec![0xab, 0x54, 0xa9, 0x8c, 0xeb, 0x1f, 0x0a, 0xd2]
    );
    assert_eq!(BigNat::from_u64(u64::MAX).to_bytes_be(), vec![255; 8]);
    assert_eq!(BigNat::from_usize(77).to_bytes_be(), vec![77]);
}

#[test]
fn zero_and_one() {
    assert_eq!(BigNat::zero().to_bytes_be(), vec![0]);
    assert_eq!(BigNat::one().to_bytes_be(), vec![1]);
    assert!(BigNat::zero().is_zero());
    assert!(!BigNat::one().is_zero());
    assert!(BigNat::one().is_one());
    assert!(!BigNat::zero().is_one());
    assert!(BigNat::from_bytes_be(vec![0, 0, 0]).is_zero());
    assert!(BigNat::from_bytes_be(vec![0, 0, 1]).is_one());
    assert!(!BigNat::from_bytes_be(vec![1, 0]).is_one());
}

#[test]
fn digits_with_leading_zeros() {
    let a = BigNat::from_bytes_be(vec![0, 0, 4, 101]);
    assert_eq!(a.to_bytes_be(), vec![4, 101]);
    assert_eq!(a.as_bytes(), &vec![0, 0, 4, 101]);
    assert!(a.equals(&BigNat::from_u64(1125)));
    assert!(BigNat::from_bytes_be(vec![]).equals(&BigNat::from_bytes_be(vec![0])));
}

#[test]
fn comparison_goes_by_value() {
    let small = BigNat::from_bytes_be(vec![0, 0, 0, 0, 0, 0, 0, 0, 0, 2]);
    let large = BigNat::from_bytes_be(vec![1, 0]);
    assert!(small.is_less_than(&large));
    assert!(!large.is_less_than(&small));
    assert!(!small.is_less_than(&small));
    assert!(!small.equals(&large));
    assert!(matches!(small.relation_to(&large), Relation::Below));
    assert!(matches!(large.relation_to(&small), Relation::Above));
    assert!(matches!(large.relation_to(&BigNat::from_u64(256)), Relation::Same));
    // The first digit that differs decides, not a later one.
    let a = BigNat::from_bytes_be(vec![1, 2, 9]);
    let b = BigNat::from_bytes_be(vec![1, 3, 0]);
    assert!(a.is_less_than(&b));
    assert!(!b.is_less_than(&a));
}

#[test]
fn clone_keeps_the_value() {
    let a = BigNat::from_u64(987654321);
    assert!(a.clone().equals(&a));
}

#[test]
fn modpow_of_known_numbers() {
    let r = BigNat::from_u64(343).modpow(&BigNat::from_u64(121), &BigNat::from_u64(1907));
    assert_eq!(natural(&r), 410);
    let r = BigNat::from_u64(343).modpow(&BigNat::from_u64(953), &BigNat::from_u64(1907));
    assert_eq!(natural(&r), 1);
    let r = BigNat::from_u64(5).modpow(&BigNat::zero(), &BigNat::from_u64(7));
    assert_eq!(natural(&r), 1);
    let r = BigNat::from_u64(5).modpow(&BigNat::from_u64(3), &BigNat::one());
    assert_eq!(natural(&r), 0);
    // an even modulus
    let r = BigNat::from_u64(3).modpow(&BigNat::from_u64(5), &BigNat::from_u64(100));
    assert_eq!(natural(&r), 43);
}

#[test]
fn sums_products_differences_and_remainders() {
    let a = BigNat::from_u64(u64::MAX);
    assert_eq!(natural(&a.mul(&a)), 340282366920938463426481119284349108225);
    assert_eq!(natural(&a.add(&a)), 36893488147419103230);
    assert_eq!(natural(&a.sub(&BigNat::from_u64(5))), 18446744073709551610);
    assert_eq!(natural(&a.sub(&a)), 0);
    assert_eq!(natural(&a.mod_floor(&BigNat::from_u64(1000))), 615);
    assert_eq!(natural(&BigNat::from_u64(7).mod_floor(&BigNat::from_u64(9))), 7);
    assert!(BigNat::from_u64(1906).is_multiple_of(&BigNat::from_u64(953)));
    assert!(!BigNat::from_u64(1907).is_multiple_of(&BigNat::from_u64(953)));
    assert!(BigNat::zero().is_multiple_of(&BigNat::from_u64(953)));
}

#[test]
fn exclusive_or_and_bit_length() {
    assert_eq!(natural(&BigNat::from_u64(675).bitxor(&BigNat::from_u64(300))), 911);
    assert_eq!(natural(&BigNat::from_u64(675).bitxor(&BigNat::from_u64(675))), 0);
    assert_eq!(natural(&BigNat::from_u64(1 << 40).bitxor(&BigNat::from_u64(1))), (1 << 40) + 1);
    assert_eq!(BigNat::zero().bits(), 0);
    assert_eq!(BigNat::one().bits(), 1);
    assert_eq!(BigNat::from_u64(953).bits(), 10);
    assert_eq!(BigNat::from_u64(1024).bits(), 11);
    assert_eq!(BigNat::from_u64(u64::MAX).bits(), 64);
}

#[test]
fn extended_gcd_gives_bezout_coefficients() {
    let r = BigNat::from_u64(862).extended_gcd(&BigNat::from_u64(1907));
    assert_eq!(natural(&r.gcd), 1);
    assert!(r.x.negative);
    assert_eq!(natural(&r.x.magnitude), 396);
    assert!(!r.y.negative);
    assert_eq!(natural(&r.y.magnitude), 179);

    let r = BigNat::from_u64(240).extended_gcd(&BigNat::from_u64(46));
    assert_eq!(natural(&r.gcd), 2);
    let x = if r.x.negative { -(natural(&r.x.magnitude) as i128) } else { natural(&r.x.magnitude) as i128 };
    let y = if r.y.negative { -(natural(&r.y.magnitude) as i128) } else { natural(&r.y.magnitude) as i128 };
    assert_eq!(240 * x + 46 * y, 2);

    let r = BigNat::from_u64(12).extended_gcd(&BigNat::zero());
    assert_eq!(natural(&r.gcd), 12);
}

#[test]
fn remainder_of_a_signed_number() {
    let m = BigNat::from_u64(1907);
    let minus = SignedNat { negative: true, magnitude: BigNat::from_u64(396) };
    assert_eq!(natural(&minus.mod_floor(&m)), 1511);
    let plus = SignedNat { negative: false, magnitude: BigNat::from_u64(2000) };
    assert_eq!(natural(&plus.mod_floor(&m)), 93);
    let multiple = SignedNat { negative: true, magnitude: BigNat::from_u64(3814) };
    assert_eq!(natural(&multiple.mod_floor(&m)), 0);
    let zero = SignedNat { negative: false, magnitude: BigNat::zero() };
    assert_eq!(natural(&zero.mod_floor(&m)), 0);
}

#[test]
fn random_numbers_stay_in_their_range() {
    for _ in 0..200 {
        assert!(natural(&random_bits(5)) < 32);
        assert!(natural(&random_below(&BigNat::from_u64(3))) < 3);
    }
    assert_eq!(natural(&random_bits(0)), 0);
    assert_eq!(natural(&random_below(&BigNat::one())), 0);
    let wide = random_bits(100);
    assert!(wide.bits() <= 100);
}

#[test]
fn random_numbers_vary() {
    let first = random_bits(128);
    let mut differs = false;
    for _ in 0..10 {
        if !random_bits(128).equals(&first) {
            differs = true;
        }
    }
    assert!(differs);
}

#[test]
fn small_numbers_are_decided_exactly() {
    assert!(!probably_prime(&BigNat::zero()));
    assert!(!probably_prime(&BigNat::one()));
    assert!(probably_prime(&BigNat::from_u64(2)));
    assert!(probably_prime(&BigNat::from_u64(3)));
    assert!(!probably_prime(&BigNat::from_u64(4)));
}

#[test]
fn larger_numbers_are_tested() {
    // 2^61 - 1 is prime; 2^61 + 1 is a multiple of 3.
    assert!(probably_prime(&BigNat::from_u64(2305843009213693951)));
    assert!(!probably_prime(&BigNat::from_u64(2305843009213693953)));
    assert!(!probably_prime(&BigNat::from_u64(1 << 40)));
    // 1907 * 1913
    assert!(!probably_prime(&BigNat::from_u64(3648091)));
}

#[test]
fn arithmetic_on_zero_and_on_one() {
    let zero = BigNat::zero();
    let one = BigNat::one();
    let seven = BigNat::from_u64(7);
    // powers: anything to the power 0 is 1, reduced by the modulus
    assert_eq!(natural(&seven.modpow(&zero, &one)), 0);
    assert_eq!(natural(&seven.modpow(&zero, &BigNat::from_u64(2))), 1);
    assert_eq!(natural(&seven.modpow(&zero, &seven)), 1);
    assert_eq!(natural(&zero.modpow(&zero, &seven)), 1);
    assert_eq!(natural(&zero.modpow(&seven, &seven)), 0);
    assert_eq!(natural(&seven.modpow(&one, &BigNat::from_u64(4))), 3);
    assert_eq!(natural(&zero.mul(&seven)), 0);
    assert_eq!(natural(&zero.add(&seven)), 7);
    assert_eq!(natural(&seven.sub(&zero)), 7);
    assert_eq!(natural(&zero.mod_floor(&seven)), 0);
    assert_eq!(natural(&zero.bitxor(&seven)), 7);
    assert_eq!(zero.bits(), 0);
    let r = zero.extended_gcd(&seven);
    assert_eq!(natural(&r.gcd), 7);
    let r = zero.extended_gcd(&zero);
    assert_eq!(natural(&r.gcd), 0);
}

#[test]
fn extended_gcd_combines_to_the_divisor() {
    for (a, b) in [(1u64, 1u64), (12, 18), (18, 12), (17, 5), (5, 17), (100, 75), (1907, 410)] {
        let r = BigNat::from_u64(a).extended_gcd(&BigNat::from_u64(b));
        let x = natural(&r.x.magnitude) as i128 * if r.x.negative { -1 } else { 1 };
        let y = natural(&r.y.magnitude) as i128 * if r.y.negative { -1 } else { 1 };
        let g = natural(&r.gcd) as i128;
        assert_eq!(a as i128 * x + b as i128 * y, g);
        assert_eq!(a as i128 % g, 0);
        assert_eq!(b as i128 % g, 0);
    }
}

#[test]
fn hexadecimal_numerals() {
    assert_eq!(BigNat::zero().to_hex(), "0");
    assert_eq!(BigNat::from_bytes_be(vec![0, 0]).to_hex(), "0");
    assert_eq!(BigNat::one().to_hex(), "1");
    assert_eq!(BigNat::from_u64(9).to_hex(), "9");
    assert_eq!(BigNat::from_u64(10).to_hex(), "a");
    assert_eq!(BigNat::from_u64(15).to_hex(), "f");
    assert_eq!(BigNat::from_u64(16).to_hex(), "10");
    assert_eq!(BigNat::from_u64(255).to_hex(), "ff");
    assert_eq!(BigNat::from_u64(256).to_hex(), "100");
    assert_eq!(BigNat::from_u64(1907).to_hex(), "773");
    assert_eq!(BigNat::from_u64(0xdead_beef_0bad_cafe).to_hex(), "deadbeef0badcafe");
    assert_eq!(BigNat::from_u64(0x0102_0304_0506_0708).to_hex(), "102030405060708");
    assert_eq!(
        BigNat::from_bytes_be(vec![0x12, 0x34, 0x56, 0x78, 0x9a, 0xbc, 0xde, 0xf0, 0x0f]).to_hex(),
        "123456789abcdef00f"
    );
}
