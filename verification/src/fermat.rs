//! Fermat's little theorem, by way of the binomial theorem: for a prime `p`,
//! `(a + 1) ^ p` is `a ^ p + 1` modulo `p`, because `p` divides the binomial
//! coefficients between. From it follows what makes a Schnorr group: in the
//! numbers modulo a prime `p = q * r + 1`, an `r`-th power has an order that
//! divides `q`.

use crate::number_theory::{
    divides, is_bezout, is_prime, lemma_bezout_exists, lemma_prime_is_coprime_to_smaller, mod_pow,
};
use vstd::arithmetic::div_mod::*;
use vstd::arithmetic::mul::*;
use vstd::arithmetic::power::*;
use vstd::prelude::*;

verus! {

/// The binomial coefficient `n` over `k`, by Pascal's rule.
pub open spec fn binomial(n: nat, k: nat) -> nat
    decreases n,
{
    if k == 0 {
        1
    } else if n == 0 {
        0
    } else {
        binomial((n - 1) as nat, (k - 1) as nat) + binomial((n - 1) as nat, k)
    }
}

/// The first terms of the binomial expansion of `(a + 1) ^ n`: the sum of
/// `binomial(n, i) * a ^ i` for `i` from 0 to `m`.
pub open spec fn binomial_sum(a: int, n: nat, m: nat) -> int
    decreases m,
{
    if m == 0 {
        1
    } else {
        binomial_sum(a, n, (m - 1) as nat) + binomial(n, m) * pow(a, m)
    }
}

/// There is no way to choose more than there is.
pub proof fn lemma_binomial_above(n: nat, k: nat)
    requires
        k > n,
    ensures
        binomial(n, k) == 0,
    decreases n,
{
    if n > 0 {
        lemma_binomial_above((n - 1) as nat, (k - 1) as nat);
        lemma_binomial_above((n - 1) as nat, k);
    }
}

/// There is one way to choose all.
pub proof fn lemma_binomial_full(n: nat)
    ensures
        binomial(n, n) == 1,
    decreases n,
{
    if n > 0 {
        lemma_binomial_full((n - 1) as nat);
        lemma_binomial_above((n - 1) as nat, n);
    }
}

/// The absorption rule: `k * binomial(n, k) = n * binomial(n - 1, k - 1)`.
pub proof fn lemma_binomial_absorption(n: nat, k: nat)
    requires
        n >= 1,
        k >= 1,
    ensures
        k * binomial(n, k) == n * binomial((n - 1) as nat, (k - 1) as nat),
    decreases n,
{
    let n1 = (n - 1) as nat;
    let k1 = (k - 1) as nat;
    if n == 1 {
        if k > 1 {
            lemma_binomial_above(1, k);
            assert(binomial(0, k1) == 0);
            assert(k * 0 == 0);
        } else {
            assert(binomial(0, 0) == 1);
            assert(binomial(0, 1) == 0);
            assert(binomial(1, 1) == 1);
        }
    } else {
        let n2 = (n - 2) as nat;
        lemma_binomial_absorption(n1, k);
        assert(k * binomial(n1, k) == n1 * binomial(n2, k1));
        if k == 1 {
            assert(binomial(n2, 0) == 1);
            assert(binomial(n1, 0) == 1);
            assert(binomial(n, 1) == binomial(n1, 0) + binomial(n1, 1));
            assert(n1 * 1 == n1);
            assert(n * 1 == n);
        } else {
            let k2 = (k - 2) as nat;
            lemma_binomial_absorption(n1, k1);
            let c = binomial(n1, k1);
            let d = binomial(n1, k);
            let u = binomial(n2, k2);
            let v = binomial(n2, k1);
            assert(binomial(n, k) == c + d);
            assert(c == u + v);
            assert(k1 * c == n1 * u);
            assert(k * d == n1 * v);
            assert(k * (c + d) == n * c) by (nonlinear_arith)
                requires
                    c == u + v,
                    k1 * c == n1 * u,
                    k * d == n1 * v,
                    k1 == k - 1,
                    n1 == n - 1,
            ;
        }
    }
}

/// Euclid's lemma: a prime that divides a product divides one of its factors.
pub proof fn lemma_prime_divides_factor(p: nat, x: nat, y: nat)
    requires
        is_prime(p),
        (x * y) % p == 0,
        x % p != 0,
    ensures
        y % p == 0,
{
    let pi = p as int;
    let x0 = x % p;
    lemma_mod_bound(x as int, pi);
    lemma_prime_is_coprime_to_smaller(x0, p);
    lemma_bezout_exists(x0, p);
    let (u, v) = choose|u: int, v: int| #[trigger] is_bezout(x0, p, u, v);
    // x0 * y is a multiple of p as x * y is, and y = (x0 * y) * u + p * (y * v).
    lemma_mul_mod_noop_left(x as int, y as int, pi);
    assert((x0 * y) % p == 0);
    assert(y == (x0 * y) * u + pi * (y * v)) by (nonlinear_arith)
        requires
            1 == x0 * u + p * v,
            pi == p,
    ;
    lemma_mod_multiples_vanish(y * v, (x0 * y) * u, pi);
    lemma_mul_mod_noop_left((x0 * y) as int, u, pi);
    assert(0 * u == 0);
    lemma_small_mod(0, p);
}

/// A prime `p` divides the binomial coefficients `p` over `k` for `k` between
/// 0 and `p`.
pub proof fn lemma_prime_divides_binomial(p: nat, k: nat)
    requires
        is_prime(p),
        0 < k < p,
    ensures
        binomial(p, k) % p == 0,
{
    lemma_binomial_absorption(p, k);
    let c = binomial((p - 1) as nat, (k - 1) as nat);
    lemma_mod_multiples_basic(c as int, p as int);
    lemma_mul_is_commutative(c as int, p as int);
    assert((k * binomial(p, k)) % p == 0);
    lemma_small_mod(k, p);
    lemma_prime_divides_factor(p, k, binomial(p, k));
}

/// Pascal's rule for the sums: the first terms for `n` are those for `n - 1`
/// and `a` times those for `n - 1` with one term less.
pub proof fn lemma_binomial_sum_step(a: int, n: nat, m: nat)
    requires
        n >= 1,
        m >= 1,
    ensures
        binomial_sum(a, n, m) == binomial_sum(a, (n - 1) as nat, m) + a * binomial_sum(
            a,
            (n - 1) as nat,
            (m - 1) as nat,
        ),
    decreases m,
{
    let n1 = (n - 1) as nat;
    let m1 = (m - 1) as nat;
    let c = binomial(n1, m1) as int;
    let d = binomial(n1, m) as int;
    let am = pow(a, m);
    assert(binomial(n, m) == c + d);
    assert(binomial_sum(a, n, m) == binomial_sum(a, n, m1) + (c + d) * am);
    assert(binomial_sum(a, n1, m) == binomial_sum(a, n1, m1) + d * am);
    assert(am == a * pow(a, m1)) by {
        reveal(pow);
    }
    if m == 1 {
        assert(binomial_sum(a, n, 0) == 1);
        assert(binomial_sum(a, n1, 0) == 1);
        assert(c == 1);
        lemma_pow0(a);
        assert((1 + d) * am == am + d * am) by (nonlinear_arith);
        assert(a * 1 == a);
    } else {
        let m2 = (m - 2) as nat;
        lemma_binomial_sum_step(a, n, m1);
        let shorter = binomial_sum(a, n1, m1);
        let shortest = binomial_sum(a, n1, m2);
        let am1 = pow(a, m1);
        assert(binomial_sum(a, n, m1) == shorter + a * shortest);
        assert(shorter == shortest + c * am1);
        assert(a * shorter + d * am == a * shortest + (c + d) * am) by (nonlinear_arith)
            requires
                shorter == shortest + c * am1,
                am == a * am1,
        ;
    }
}

/// The binomial theorem for `(a + 1) ^ n`.
pub proof fn lemma_binomial_theorem(a: int, n: nat)
    ensures
        pow(a + 1, n) == binomial_sum(a, n, n),
    decreases n,
{
    if n == 0 {
        lemma_pow0(a + 1);
    } else {
        let n1 = (n - 1) as nat;
        lemma_binomial_theorem(a, n1);
        lemma_binomial_sum_step(a, n, n);
        lemma_binomial_above(n1, n);
        let s = binomial_sum(a, n1, n1);
        assert(binomial_sum(a, n1, n) == s + binomial(n1, n) * pow(a, n));
        assert(0 * pow(a, n) == 0);
        assert(binomial_sum(a, n, n) == s + a * s);
        assert(pow(a + 1, n) == (a + 1) * pow(a + 1, n1)) by {
            reveal(pow);
        }
        assert((a + 1) * s == s + a * s) by (nonlinear_arith);
    }
}

/// Modulo a prime `p`, the terms of the expansion of `(a + 1) ^ p` below the
/// last add up to 1.
pub proof fn lemma_binomial_sum_mod_prime(a: int, p: nat, m: nat)
    requires
        is_prime(p),
        m < p,
    ensures
        binomial_sum(a, p, m) % (p as int) == 1,
    decreases m,
{
    let pi = p as int;
    if m == 0 {
        lemma_small_mod(1, p);
    } else {
        let m1 = (m - 1) as nat;
        lemma_binomial_sum_mod_prime(a, p, m1);
        lemma_prime_divides_binomial(p, m);
        let term = binomial(p, m) * pow(a, m);
        lemma_mul_mod_noop_left(binomial(p, m) as int, pow(a, m), pi);
        assert(0 * pow(a, m) == 0);
        lemma_small_mod(0, p);
        assert(term % pi == 0);
        lemma_add_mod_noop(binomial_sum(a, p, m1), term, pi);
        lemma_small_mod(1, p);
    }
}

/// Modulo a prime `p`, `(a + 1) ^ p` is `a ^ p + 1`.
pub proof fn lemma_power_of_successor_mod_prime(a: int, p: nat)
    requires
        is_prime(p),
    ensures
        pow(a + 1, p) % (p as int) == (pow(a, p) + 1) % (p as int),
{
    let pi = p as int;
    let below_p = (p - 1) as nat;
    lemma_binomial_theorem(a, p);
    lemma_binomial_full(p);
    lemma_binomial_sum_mod_prime(a, p, below_p);
    let s = binomial_sum(a, p, below_p);
    assert(binomial_sum(a, p, p) == s + binomial(p, p) * pow(a, p));
    assert(1 * pow(a, p) == pow(a, p));
    lemma_add_mod_noop(s, pow(a, p), pi);
    lemma_add_mod_noop(1, pow(a, p), pi);
    lemma_small_mod(1, p);
}

/// Modulo a prime `p`, `a ^ p` is `a`.
pub proof fn lemma_power_prime(a: nat, p: nat)
    requires
        is_prime(p),
    ensures
        pow(a as int, p) % (p as int) == a % p,
    decreases a,
{
    let pi = p as int;
    if a == 0 {
        lemma0_pow(p);
    } else {
        let b = (a - 1) as nat;
        lemma_power_prime(b, p);
        lemma_power_of_successor_mod_prime(b as int, p);
        lemma_add_mod_noop(pow(b as int, p), 1, pi);
        lemma_add_mod_noop(b as int, 1, pi);
    }
}

/// Fermat's little theorem: modulo a prime `p`, the power `a ^ (p - 1)` of a
/// number that `p` does not divide is 1.
pub proof fn lemma_fermat_little(a: nat, p: nat)
    requires
        is_prime(p),
        a % p != 0,
    ensures
        pow(a as int, (p - 1) as nat) % (p as int) == 1,
{
    let pi = p as int;
    let ai = a as int;
    let t = pow(ai, (p - 1) as nat);
    assert(a > 0) by {
        if a == 0 {
            lemma_small_mod(0, p);
        }
    }
    lemma_pow_positive(ai, (p - 1) as nat);
    lemma_power_prime(a, p);
    assert(pow(ai, p) == ai * t) by {
        reveal(pow);
    }
    // a * t and a leave the same remainder, so p divides a * (t - 1), and
    // with it t - 1.
    let t1 = (t - 1) as nat;
    assert(a * t1 == ai * t - ai) by (nonlinear_arith)
        requires
            t1 == t - 1,
            ai == a,
    ;
    lemma_mod_equivalence(ai * t, ai, pi);
    assert((a * t1) % p == 0);
    lemma_prime_divides_factor(p, a, t1);
    lemma_mod_equivalence(t, 1, pi);
    lemma_small_mod(1, p);
}

/// A prime that does not divide a number divides none of its powers.
pub proof fn lemma_prime_divides_no_power(p: nat, a: nat, n: nat)
    requires
        is_prime(p),
        a % p != 0,
    ensures
        pow(a as int, n) % (p as int) != 0,
    decreases n,
{
    let ai = a as int;
    if n == 0 {
        lemma_pow0(ai);
        lemma_small_mod(1, p);
    } else {
        let n1 = (n - 1) as nat;
        lemma_prime_divides_no_power(p, a, n1);
        assert(a > 0) by {
            if a == 0 {
                lemma_small_mod(0, p);
            }
        }
        lemma_pow_positive(ai, n1);
        let rest = pow(ai, n1) as nat;
        assert(pow(ai, n) == a * rest) by {
            reveal(pow);
        }
        if (a * rest) % p == 0 {
            lemma_prime_divides_factor(p, a, rest);
        }
    }
}

/// In the numbers modulo a prime `p = q * r + 1`, an `r`-th power that is not
/// zero has an order that divides `q`: its `q`-th power is 1.
pub proof fn lemma_cofactor_power_has_order(p: nat, q: nat, r: nat, h0: nat)
    requires
        is_prime(p),
        p == q * r + 1,
        mod_pow(h0, r, p) != 0,
    ensures
        mod_pow(mod_pow(h0, r, p), q, p) == 1,
{
    let pi = p as int;
    let hi = h0 as int;
    let g = mod_pow(h0, r, p);
    lemma_mod_bound(pow(hi, r), pi);
    assert(r > 0) by {
        if r == 0 {
            assert(q * r == 0) by (nonlinear_arith)
                requires
                    r == 0,
            ;
        }
    }
    // p does not divide h0, or the power would be zero.
    if h0 % p == 0 {
        lemma_pow_mod_noop(hi, r, pi);
        lemma0_pow(r);
        lemma_small_mod(0, p);
        assert(false);
    }
    lemma_fermat_little(h0, p);
    lemma_pow_mod_noop(pow(hi, r), q, pi);
    lemma_pow_multiplies(hi, r, q);
    lemma_mul_is_commutative(r as int, q as int);
    assert(pow(pow(hi, r), q) == pow(hi, (p - 1) as nat));
}

} // verus!
