//! Natural numbers of any size, held as base-256 digits.
//!
//! `BigNat` is the number type of the whole library. Its view is the `nat` that
//! the digits denote; every contract speaks of that view. The digits may start
//! with zeros, so two numbers are compared with `equals` and `is_less_than`,
//! by their values. Comparison and the conversions from and to digits are
//! verified here; arithmetic is in `arith`.

use vstd::arithmetic::div_mod::{lemma_div_denominator, lemma_fundamental_div_mod};
use vstd::prelude::*;

verus! {

/// The number that a string of base-256 digits denotes, most significant digit
/// first. Leading zeros do not matter.
pub open spec fn be_value(digits: Seq<u8>) -> nat
    decreases digits.len(),
{
    if digits.len() == 0 {
        0
    } else {
        be_value(digits.drop_last()) * 256 + digits.last() as nat
    }
}

/// The shortest digit string of `n`, most significant digit first: it has no
/// leading zero, except that zero itself is the single digit 0.
pub open spec fn minimal_digits(n: nat) -> Seq<u8>
    decreases n,
{
    if n < 256 {
        seq![n as u8]
    } else {
        minimal_digits(n / 256).push((n % 256) as u8)
    }
}

/// Reading one more digit multiplies by 256 and adds the digit.
pub proof fn lemma_be_value_step(digits: Seq<u8>, k: int)
    requires
        0 <= k < digits.len(),
    ensures
        be_value(digits.take(k + 1)) == be_value(digits.take(k)) * 256 + digits[k] as nat,
{
    assert(digits.take(k + 1).drop_last() =~= digits.take(k));
}

/// Leading zeros do not change the value.
pub proof fn lemma_be_value_leading_zeros(digits: Seq<u8>, k: int)
    requires
        0 <= k <= digits.len(),
        forall|j: int| 0 <= j < k ==> digits[j] == 0,
    ensures
        be_value(digits) == be_value(digits.skip(k)),
    decreases digits.len(),
{
    if digits.len() == k {
        lemma_be_value_zeros(digits);
        assert(digits.skip(k).len() == 0);
    } else {
        lemma_be_value_leading_zeros(digits.drop_last(), k);
        assert(digits.skip(k).drop_last() =~= digits.drop_last().skip(k));
    }
}

/// A string of zeros denotes zero.
pub proof fn lemma_be_value_zeros(digits: Seq<u8>)
    requires
        forall|j: int| 0 <= j < digits.len() ==> digits[j] == 0,
    ensures
        be_value(digits) == 0,
    decreases digits.len(),
{
    if digits.len() > 0 {
        lemma_be_value_zeros(digits.drop_last());
    }
}

/// A digit string that starts with a nonzero digit denotes a positive number.
pub proof fn lemma_be_value_positive(digits: Seq<u8>)
    requires
        digits.len() > 0,
        digits[0] != 0,
    ensures
        be_value(digits) > 0,
    decreases digits.len(),
{
    if digits.len() > 1 {
        lemma_be_value_positive(digits.drop_last());
    }
}

/// A digit string without a leading zero is the shortest one of its value.
pub proof fn lemma_minimal_digits_of_value(digits: Seq<u8>)
    requires
        digits.len() > 0,
        digits[0] != 0,
    ensures
        minimal_digits(be_value(digits)) == digits,
    decreases digits.len(),
{
    let front = digits.drop_last();
    let last = digits.last();
    if digits.len() == 1 {
        assert(be_value(front) == 0);
        assert(minimal_digits(last as nat) =~= digits);
    } else {
        lemma_minimal_digits_of_value(front);
        lemma_be_value_positive(front);
        let v = be_value(digits);
        assert(v == be_value(front) * 256 + last as nat);
        assert(v >= 256);
        assert(v / 256 == be_value(front));
        assert(v % 256 == last as nat);
        assert(minimal_digits(v) == minimal_digits(v / 256).push((v % 256) as u8));
        assert(front.push(last) =~= digits);
    }
}

/// The shortest digit string of `n` denotes `n`.
pub proof fn lemma_value_of_minimal_digits(n: nat)
    ensures
        be_value(minimal_digits(n)) == n,
        minimal_digits(n).len() > 0,
    decreases n,
{
    if n < 256 {
        let s = seq![n as u8];
        assert(s.drop_last() =~= Seq::<u8>::empty());
        assert(be_value(s.drop_last()) == 0);
    } else {
        lemma_value_of_minimal_digits(n / 256);
        let s = minimal_digits(n / 256).push((n % 256) as u8);
        assert(s.drop_last() =~= minimal_digits(n / 256));
    }
}

/// The digits of `n` from the place of weight `256 * d` up, followed by the
/// digit of weight `d`, are the digits of `n` from the place of weight `d` up.
proof fn lemma_next_digit(n: nat, d: nat)
    requires
        d > 0,
    ensures
        (n / (d * 256)) * 256 + (n / d) % 256 == n / d,
{
    lemma_div_denominator(n as int, d as int, 256);
    lemma_fundamental_div_mod((n / d) as int, 256);
}

/// How two numbers stand to each other.
#[derive(Clone, Copy, Debug)]
pub enum Relation {
    Below,
    Same,
    Above,
}

impl Relation {
    /// Whether `self` is the relation in which `a` stands to `b`.
    pub open spec fn relates(self, a: nat, b: nat) -> bool {
        match self {
            Relation::Below => a < b,
            Relation::Same => a == b,
            Relation::Above => a > b,
        }
    }
}

/// How many digits of a string lie among the first `i` places once the string
/// is padded on the left with `pad` zeros.
spec fn digits_read(i: int, pad: int) -> int {
    if i >= pad {
        i - pad
    } else {
        0
    }
}

/// Compares the numbers that two digit strings denote, digit by digit from the
/// most significant place, the shorter string taken as padded with zeros.
fn relate_digits(a: &Vec<u8>, b: &Vec<u8>) -> (r: Relation)
    ensures
        r.relates(be_value(a@), be_value(b@)),
{
    let n: usize = if a.len() > b.len() {
        a.len()
    } else {
        b.len()
    };
    let pad_a: usize = n - a.len();
    let pad_b: usize = n - b.len();
    let mut r = Relation::Same;
    let mut i: usize = 0;
    while i < n
        invariant
            i <= n,
            pad_a == n - a.len(),
            pad_b == n - b.len(),
            r.relates(
                be_value(a@.take(digits_read(i as int, pad_a as int))),
                be_value(b@.take(digits_read(i as int, pad_b as int))),
            ),
        decreases n - i,
    {
        let da: u8 = if i >= pad_a {
            a[i - pad_a]
        } else {
            0
        };
        let db: u8 = if i >= pad_b {
            b[i - pad_b]
        } else {
            0
        };
        proof {
            if i >= pad_a {
                lemma_be_value_step(a@, i - pad_a);
            } else {
                assert(a@.take(0) =~= Seq::<u8>::empty());
            }
            if i >= pad_b {
                lemma_be_value_step(b@, i - pad_b);
            } else {
                assert(b@.take(0) =~= Seq::<u8>::empty());
            }
        }
        match r {
            Relation::Same => {
                if da < db {
                    r = Relation::Below;
                } else if da > db {
                    r = Relation::Above;
                }
            },
            _ => {},
        }
        i = i + 1;
    }
    proof {
        assert(a@.take(a@.len() as int) =~= a@);
        assert(b@.take(b@.len() as int) =~= b@);
    }
    r
}

/// A natural number of any size.
#[derive(Debug)]
pub struct BigNat {
    digits: Vec<u8>,
}

impl View for BigNat {
    type V = nat;

    closed spec fn view(&self) -> nat {
        be_value(self.digits@)
    }
}

impl BigNat {
    /// The number zero.
    pub fn zero() -> (r: BigNat)
        ensures
            r@ == 0,
    {
        BigNat { digits: Vec::new() }
    }

    /// The number one.
    pub fn one() -> (r: BigNat)
        ensures
            r@ == 1,
    {
        let mut digits: Vec<u8> = Vec::new();
        digits.push(1);
        proof {
            assert(digits@.take(0) =~= Seq::<u8>::empty());
            lemma_be_value_step(digits@, 0);
            assert(digits@.take(1) =~= digits@);
        }
        BigNat { digits }
    }

    /// The number that `digits` denote, most significant digit first.
    pub fn from_bytes_be(digits: Vec<u8>) -> (r: BigNat)
        ensures
            r@ == be_value(digits@),
    {
        BigNat { digits }
    }

    /// The digits that the number is held in; they may start with zeros.
    pub fn as_bytes(&self) -> (r: &Vec<u8>)
        ensures
            be_value(r@) == self@,
    {
        &self.digits
    }

    /// The shortest digit string of the number, most significant digit first.
    pub fn to_bytes_be(&self) -> (r: Vec<u8>)
        ensures
            r@ == minimal_digits(self@),
    {
        let n: usize = self.digits.len();
        let mut k: usize = 0;
        while k < n && self.digits[k] == 0
            invariant
                k <= n,
                n == self.digits.len(),
                forall|j: int| 0 <= j < k ==> self.digits[j] == 0,
            decreases n - k,
        {
            k = k + 1;
        }
        proof {
            lemma_be_value_leading_zeros(self.digits@, k as int);
        }
        let mut r: Vec<u8> = Vec::new();
        if k == n {
            r.push(0);
            proof {
                assert(self.digits@.skip(k as int).len() == 0);
                assert(r@ =~= seq![0u8]);
            }
            return r;
        }
        let mut i: usize = k;
        while i < n
            invariant
                k <= i <= n,
                n == self.digits.len(),
                r@ == self.digits@.subrange(k as int, i as int),
            decreases n - i,
        {
            r.push(self.digits[i]);
            i = i + 1;
            proof {
                assert(r@ =~= self.digits@.subrange(k as int, i as int));
            }
        }
        proof {
            assert(r@ =~= self.digits@.skip(k as int));
            lemma_minimal_digits_of_value(r@);
        }
        r
    }

    /// The number `n`.
    pub fn from_u64(n: u64) -> (r: BigNat)
        ensures
            r@ == n,
    {
        let mut digits: Vec<u8> = Vec::new();
        digits.push((n / 0x100_0000_0000_0000) as u8);
        digits.push(((n / 0x1_0000_0000_0000) % 256) as u8);
        digits.push(((n / 0x100_0000_0000) % 256) as u8);
        digits.push(((n / 0x1_0000_0000) % 256) as u8);
        digits.push(((n / 0x100_0000) % 256) as u8);
        digits.push(((n / 0x1_0000) % 256) as u8);
        digits.push(((n / 0x100) % 256) as u8);
        digits.push((n % 256) as u8);
        proof {
            let s = digits@;
            let v = n as nat;
            assert(s.take(0) =~= Seq::<u8>::empty());
            lemma_be_value_step(s, 0);
            assert(be_value(s.take(1)) == v / 0x100_0000_0000_0000);
            lemma_be_value_step(s, 1);
            lemma_next_digit(v, 0x1_0000_0000_0000);
            assert(be_value(s.take(2)) == v / 0x1_0000_0000_0000);
            lemma_be_value_step(s, 2);
            lemma_next_digit(v, 0x100_0000_0000);
            assert(be_value(s.take(3)) == v / 0x100_0000_0000);
            lemma_be_value_step(s, 3);
            lemma_next_digit(v, 0x1_0000_0000);
            assert(be_value(s.take(4)) == v / 0x1_0000_0000);
            lemma_be_value_step(s, 4);
            lemma_next_digit(v, 0x100_0000);
            assert(be_value(s.take(5)) == v / 0x100_0000);
            lemma_be_value_step(s, 5);
            lemma_next_digit(v, 0x1_0000);
            assert(be_value(s.take(6)) == v / 0x1_0000);
            lemma_be_value_step(s, 6);
            lemma_next_digit(v, 0x100);
            assert(be_value(s.take(7)) == v / 0x100);
            lemma_be_value_step(s, 7);
            lemma_next_digit(v, 1);
            assert(s.take(8) =~= s);
        }
        BigNat { digits }
    }

    /// The number `n`.
    pub fn from_usize(n: usize) -> (r: BigNat)
        ensures
            r@ == n,
    {
        BigNat::from_u64(n as u64)
    }

    /// How the number stands to `other`.
    pub fn relation_to(&self, other: &BigNat) -> (r: Relation)
        ensures
            r.relates(self@, other@),
    {
        relate_digits(&self.digits, &other.digits)
    }

    /// Whether the number is smaller than `other`.
    pub fn is_less_than(&self, other: &BigNat) -> (r: bool)
        ensures
            r == (self@ < other@),
    {
        match relate_digits(&self.digits, &other.digits) {
            Relation::Below => true,
            _ => false,
        }
    }

    /// Whether the number equals `other`.
    pub fn equals(&self, other: &BigNat) -> (r: bool)
        ensures
            r == (self@ == other@),
    {
        match relate_digits(&self.digits, &other.digits) {
            Relation::Same => true,
            _ => false,
        }
    }

    /// Whether the number is zero.
    pub fn is_zero(&self) -> (r: bool)
        ensures
            r == (self@ == 0),
    {
        let zero = BigNat::zero();
        match relate_digits(&self.digits, &zero.digits) {
            Relation::Same => true,
            _ => false,
        }
    }

    /// Whether the number is one.
    pub fn is_one(&self) -> (r: bool)
        ensures
            r == (self@ == 1),
    {
        let one = BigNat::one();
        match relate_digits(&self.digits, &one.digits) {
            Relation::Same => true,
            _ => false,
        }
    }
}

impl Clone for BigNat {
    fn clone(&self) -> (r: Self)
        ensures
            r@ == self@,
    {
        let r = BigNat { digits: self.digits.clone() };
        proof {
            assert(r.digits@ =~= self.digits@);
        }
        r
    }
}

} // verus!
