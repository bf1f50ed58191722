//! The arithmetic that the contracts speak of, and the facts about it that the
//! protocols rest on.

use vstd::arithmetic::div_mod::*;
use vstd::arithmetic::mul::*;
use vstd::arithmetic::power::*;
use vstd::arithmetic::power2::*;
use vstd::prelude::*;

verus! {

/// The greatest common divisor of `a` and `b`, by Euclid's rule.
pub open spec fn gcd(a: nat, b: nat) -> nat
    decreases b,
{
    if b == 0 {
        a
    } else {
        gcd(b, a % b)
    }
}

/// The number of binary digits of `n`: the least `k` with `n < 2^k`.
pub open spec fn bit_length(n: nat) -> nat
    decreases n,
{
    if n == 0 {
        0
    } else {
        1 + bit_length(n / 2)
    }
}

/// The bitwise exclusive or of `a` and `b`.
pub open spec fn xor_nat(a: nat, b: nat) -> nat
    decreases a + b,
{
    if a == 0 && b == 0 {
        0
    } else {
        2 * xor_nat(a / 2, b / 2) + if a % 2 == b % 2 {
            0nat
        } else {
            1nat
        }
    }
}

/// The power `base ^ exponent` reduced modulo `modulus`.
pub open spec fn mod_pow(base: nat, exponent: nat, modulus: nat) -> nat {
    (pow(base as int, exponent) % (modulus as int)) as nat
}

/// A number with a sign.
pub open spec fn signed_value(negative: bool, magnitude: nat) -> int {
    if negative {
        -(magnitude as int)
    } else {
        magnitude as int
    }
}

/// `a` and `b` have no common divisor but 1.
pub open spec fn coprime(a: nat, b: nat) -> bool {
    gcd(a, b) == 1
}

/// `d` divides `n` without remainder.
pub open spec fn divides(d: nat, n: nat) -> bool {
    d > 0 && n % d == 0
}

/// `n` is prime: it is at least 2 and nothing between 1 and `n` divides it.
pub open spec fn is_prime(n: nat) -> bool {
    n >= 2 && forall|d: nat| 1 < d < n ==> !#[trigger] divides(d, n)
}

/// `x` and `y` are Bezout coefficients of `a` and `b`: they combine the two
/// to their greatest common divisor.
pub open spec fn is_bezout(a: nat, b: nat, x: int, y: int) -> bool {
    gcd(a, b) == a * x + b * y
}

/// `x` is the inverse of `h` modulo `p`: the number below `p` whose product
/// with `h` is 1 modulo `p`.
pub open spec fn is_inverse(h: nat, x: nat, p: nat) -> bool {
    x < p && (h * x) % p == 1nat % p
}

/// The inverse of `h` modulo `p`, where there is one.
pub open spec fn mod_inverse(h: nat, p: nat) -> nat {
    choose|x: nat| #[trigger] is_inverse(h, x, p)
}

/// Powers of numbers that agree modulo `m` agree modulo `m`.
pub proof fn lemma_pow_congruent(a: int, b: int, e: nat, m: int)
    requires
        m > 0,
        a % m == b % m,
    ensures
        pow(a, e) % m == pow(b, e) % m,
{
    lemma_pow_mod_noop(a, e, m);
    lemma_pow_mod_noop(b, e, m);
}

/// A power of a number that is 1 modulo `m` is 1 modulo `m`.
pub proof fn lemma_pow_of_unit(a: int, e: nat, m: int)
    requires
        m > 0,
        a % m == 1int % m,
    ensures
        pow(a, e) % m == 1int % m,
{
    lemma_pow_congruent(a, 1, e, m);
    lemma1_pow(e);
}

/// A modular power is a remainder: it is smaller than the modulus.
pub proof fn lemma_mod_pow_bound(b: nat, e: nat, m: nat)
    requires
        m > 0,
    ensures
        mod_pow(b, e, m) < m,
        mod_pow(b, e, m) == pow(b as int, e) % (m as int),
{
    lemma_mod_bound(pow(b as int, e), m as int);
}

/// Where `g ^ q` is 1 modulo `p`, the exponent of `g` may be reduced modulo
/// `q`.
pub proof fn lemma_exponent_modulo_order(g: int, q: nat, n: nat, p: int)
    requires
        p > 0,
        q > 0,
        pow(g, q) % p == 1int % p,
    ensures
        pow(g, n % q) % p == pow(g, n) % p,
{
    let k = n / q;
    let z = n % q;
    lemma_fundamental_div_mod(n as int, q as int);
    assert(n == q * k + z);
    lemma_pow_adds(g, q * k, z);
    lemma_pow_multiplies(g, q, k);
    let turns = pow(pow(g, q), k);
    let rest = pow(g, z);
    assert(pow(g, n) == turns * rest);
    lemma_pow_of_unit(pow(g, q), k, p);
    lemma_mul_mod_noop(turns, rest, p);
    lemma_mul_mod_noop(1, rest, p);
    assert(1 * rest == rest);
}

/// Schnorr's relation between an honest prover's three messages.
///
/// In a group given by `p`, `q` and `g`, where `g ^ q` is 1 modulo `p`, let the
/// prover hold `w`, choose `r`, and answer the challenge `e` with
/// `(r + e * w) mod q`. Then `g` raised to the answer equals, modulo `p`, the
/// prover's `g ^ r mod p` times the `e`-th power of `g ^ w mod p`.
pub proof fn lemma_honest_response_verifies(p: nat, q: nat, g: nat, w: nat, r: nat, e: nat)
    requires
        p > 0,
        q > 0,
        mod_pow(g, q, p) == 1nat % p,
    ensures
        mod_pow(g, (r + e * w) % q, p) == (mod_pow(g, r, p) * mod_pow(mod_pow(g, w, p), e, p)) % p,
{
    let gi = g as int;
    let pi = p as int;
    let n = r + e * w;
    lemma_mod_pow_bound(g, q, p);
    lemma_mod_pow_bound(g, n % q, p);
    lemma_mod_pow_bound(g, r, p);
    lemma_mod_pow_bound(g, w, p);
    lemma_mod_pow_bound(mod_pow(g, w, p), e, p);
    lemma_exponent_modulo_order(gi, q, n, pi);
    // The right side is g ^ n modulo p as well.
    let commitment = pow(gi, r);
    let public = pow(gi, w);
    lemma_pow_mod_noop(public, e, pi);
    lemma_pow_multiplies(gi, w, e);
    lemma_mul_is_commutative(w as int, e as int);
    assert(pow(public, e) == pow(gi, e * w));
    lemma_mul_mod_noop(commitment, pow(public, e), pi);
    lemma_mul_mod_noop(commitment, pow(public % pi, e), pi);
    lemma_pow_adds(gi, r, e * w);
    assert(((commitment % pi) * (pow(public % pi, e) % pi)) % pi == (commitment * pow(
        public,
        e,
    )) % pi);
}

/// The relation between the messages of Schnorr's simulator.
///
/// Let `x` be an inverse of `h` modulo `p`. For any `z` and `e`, the message
/// `g ^ z * x ^ e mod p` times `h ^ e` equals `g ^ z` modulo `p`.
pub proof fn lemma_simulated_commitment_verifies(p: nat, g: nat, h: nat, x: nat, e: nat, z: nat)
    requires
        p > 0,
        (h * x) % p == 1nat % p,
    ensures
        mod_pow(g, z, p) == (((mod_pow(g, z, p) * mod_pow(x, e, p)) % p) * mod_pow(h, e, p)) % p,
{
    let pi = p as int;
    let power = pow(g as int, z);
    let inverse_power = pow(x as int, e);
    let public_power = pow(h as int, e);
    lemma_mod_pow_bound(g, z, p);
    lemma_mod_pow_bound(x, e, p);
    lemma_mod_pow_bound(h, e, p);
    lemma_mul_mod_noop(power, inverse_power, pi);
    lemma_mul_mod_noop(power * inverse_power, public_power, pi);
    lemma_mod_twice(power * inverse_power, pi);
    lemma_mul_mod_noop((power * inverse_power) % pi, public_power, pi);
    assert((((power * inverse_power) % pi) * (public_power % pi)) % pi == ((power * inverse_power)
        * public_power) % pi);
    lemma_mul_is_associative(power, inverse_power, public_power);
    lemma_pow_distributes(x as int, h as int, e);
    lemma_mul_is_commutative(x as int, h as int);
    lemma_pow_of_unit((h * x) as int, e, pi);
    lemma_mul_mod_noop(power, inverse_power * public_power, pi);
    lemma_mul_mod_noop(power, 1, pi);
    assert(power * 1 == power);
}

/// A Bezout coefficient of `h`, where `h` and `p` have greatest common
/// divisor 1, is an inverse of `h` modulo `p`, and so is its remainder
/// modulo `p`.
pub proof fn lemma_bezout_inverse(h: nat, p: nat, x: int, y: int)
    requires
        p > 0,
        1 == h * x + p * y,
    ensures
        (h * x) % (p as int) == 1int % (p as int),
        (h * ((x % (p as int)) as nat)) % p == 1nat % p,
{
    let pi = p as int;
    lemma_mod_multiples_vanish(-y, 1, pi);
    assert(pi * (-y) + 1 == h * x) by (nonlinear_arith)
        requires
            1 == h * x + p * y,
            pi == p,
    ;
    lemma_mod_bound(x, pi);
    lemma_mul_mod_noop_right(h as int, x, pi);
}

/// What divides two numbers divides every sum of a multiple of the first and
/// the second.
pub proof fn lemma_divides_combination(d: nat, u: nat, k: nat, v: nat)
    requires
        divides(d, u),
        divides(d, v),
    ensures
        divides(d, u * k + v),
{
    let m = u / d;
    lemma_fundamental_div_mod(u as int, d as int);
    assert(u * k == d * (m * k)) by (nonlinear_arith)
        requires
            u == d * m,
    ;
    lemma_mod_multiples_vanish((m * k) as int, v as int, d as int);
}

/// The greatest common divisor of two numbers that are not both zero is
/// positive and divides both.
pub proof fn lemma_gcd_divides(a: nat, b: nat)
    requires
        a > 0 || b > 0,
    ensures
        divides(gcd(a, b), a),
        divides(gcd(a, b), b),
    decreases b,
{
    if b == 0 {
        lemma_mod_self_0(a as int);
    } else {
        let r = a % b;
        lemma_gcd_divides(b, r);
        lemma_fundamental_div_mod(a as int, b as int);
        lemma_divides_combination(gcd(a, b), b, a / b, r);
    }
}

/// A prime has greatest common divisor 1 with every positive number below
/// it.
pub proof fn lemma_prime_is_coprime_to_smaller(h: nat, p: nat)
    requires
        is_prime(p),
        0 < h < p,
    ensures
        coprime(h, p),
{
    let d = gcd(h, p);
    lemma_gcd_divides(h, p);
    // d divides h, so it is at most h and below p; a divisor of the prime p
    // below p is 1.
    lemma_fundamental_div_mod(h as int, d as int);
    assert(h == d * (h / d));
    assert(d <= h) by (nonlinear_arith)
        requires
            h == d * (h / d),
            h > 0,
            d > 0,
    ;
    if d > 1 {
        assert(divides(d, p));
    }
}

/// Any two numbers have Bezout coefficients.
pub proof fn lemma_bezout_exists(a: nat, b: nat)
    ensures
        exists|x: int, y: int| #[trigger] is_bezout(a, b, x, y),
    decreases b,
{
    if b == 0 {
        assert(is_bezout(a, b, 1, 0));
    } else {
        let r = a % b;
        lemma_bezout_exists(b, r);
        let (x, y) = choose|x: int, y: int| #[trigger] is_bezout(b, r, x, y);
        // gcd = b * x + (a - b * (a / b)) * y = a * y + b * (x - (a / b) * y)
        lemma_fundamental_div_mod(a as int, b as int);
        let k = (a / b) as int;
        assert(b * x + r * y == a * y + b * (x - k * y)) by (nonlinear_arith)
            requires
                a == b * k + r,
        ;
        assert(is_bezout(a, b, y, x - k * y));
    }
}

/// There is at most one inverse of `h` modulo `p`.
pub proof fn lemma_inverse_unique(h: nat, x: nat, y: nat, p: nat)
    requires
        is_inverse(h, x, p),
        is_inverse(h, y, p),
    ensures
        x == y,
{
    if p > 1 {
        let pi = p as int;
        // x = x * (h * y) = (x * h) * y = y, all modulo p
        lemma_mul_mod_noop_right(x as int, (h * y) as int, pi);
        lemma_mul_mod_noop_left((x * h) as int, y as int, pi);
        lemma_mul_is_associative(x as int, h as int, y as int);
        lemma_mul_is_commutative(x as int, h as int);
        lemma_small_mod(1, p);
        lemma_small_mod(x, p);
        lemma_small_mod(y, p);
        assert(x * 1 == x);
        assert(1 * y == y);
    }
}

/// A number that has greatest common divisor 1 with `p` has an inverse modulo
/// `p`.
pub proof fn lemma_coprime_has_inverse(h: nat, p: nat)
    requires
        p > 0,
        coprime(h, p),
    ensures
        is_inverse(h, mod_inverse(h, p), p),
{
    lemma_bezout_exists(h, p);
    let (x, y) = choose|x: int, y: int| #[trigger] is_bezout(h, p, x, y);
    lemma_bezout_inverse(h, p, x, y);
    lemma_mod_bound(x, p as int);
    assert(is_inverse(h, (x % (p as int)) as nat, p));
}

/// A positive number lies between the power of two below its bit length and
/// the power of two of its bit length.
pub proof fn lemma_bit_length_bounds(n: nat)
    requires
        n > 0,
    ensures
        bit_length(n) > 0,
        pow2((bit_length(n) - 1) as nat) <= n < pow2(bit_length(n)),
    decreases n,
{
    if n == 1 {
        assert(bit_length(0) == 0);
        assert(bit_length(1) == 1);
        lemma2_to64();
    } else {
        lemma_bit_length_bounds(n / 2);
        lemma_pow2_unfold(bit_length(n / 2));
        lemma_pow2_unfold(bit_length(n));
    }
}

/// Exclusive or with the same number twice gives the first number back.
pub proof fn lemma_xor_cancels_right(a: nat, b: nat)
    ensures
        xor_nat(xor_nat(a, b), b) == a,
    decreases a + b,
{
    if a == 0 && b == 0 {
    } else {
        lemma_xor_cancels_right(a / 2, b / 2);
    }
}

/// Exclusive or of a number with an exclusive or that holds it gives the other
/// number.
pub proof fn lemma_xor_cancels_left(a: nat, b: nat)
    ensures
        xor_nat(b, xor_nat(a, b)) == a,
    decreases a + b,
{
    if a == 0 && b == 0 {
    } else {
        lemma_xor_cancels_left(a / 2, b / 2);
    }
}

/// The remainder of a negative number: where `m` does not divide `n`, the
/// remainder of `-n` is `m` less the remainder of `n`, and else it is 0.
pub proof fn lemma_mod_of_negation(n: nat, m: nat)
    requires
        m > 0,
    ensures
        (-(n as int)) % (m as int) == if n % m == 0 {
            0
        } else {
            m - n % m
        },
{
    let mi = m as int;
    let k = (n / m) as int;
    let r = (n % m) as int;
    lemma_fundamental_div_mod(n as int, mi);
    assert(n == mi * k + r);
    if r == 0 {
        assert(-(n as int) == (-k) * mi + 0) by (nonlinear_arith)
            requires
                n == mi * k + r,
                r == 0,
        ;
        lemma_fundamental_div_mod_converse(-(n as int), mi, -k, 0);
    } else {
        assert(-(n as int) == (-k - 1) * mi + (mi - r)) by (nonlinear_arith)
            requires
                n == mi * k + r,
        ;
        lemma_fundamental_div_mod_converse(-(n as int), mi, -k - 1, mi - r);
    }
}

} // verus!
