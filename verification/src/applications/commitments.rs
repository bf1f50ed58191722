//! Create and verify commitments.
//!
//! A commitment to a value is the first message that Schnorr's simulator makes
//! for that value as the challenge; the simulator's response opens it. The
//! verifier of the protocol checks an opening.

use crate::bignat::{
    be_value, lemma_minimal_digits_of_value, minimal_digits, BigNat,
};
use crate::schnorr::{SchnorrDiscreteLogInstance, SchnorrDiscreteLogProtocol};
use crate::text::{string_from_bytes, text_of, TextError};
use crate::SigmaProtocol;
use vstd::prelude::*;
use vstd::slice::slice_to_vec;
use vstd::utf8::{
    char_is_scalar, encode_scalar, encode_utf8, encode_utf8_decode_utf8, encode_utf8_valid_utf8,
    has_width_1_encoding, has_width_2_encoding, has_width_3_encoding,
};

verus! {

/// A commitment scheme on a Schnorr instance.
#[derive(Debug)]
pub struct CommitmentScheme {
    instance: SchnorrDiscreteLogInstance,
}

impl CommitmentScheme {
    /// The instance that the scheme commits on.
    pub closed spec fn instance(&self) -> SchnorrDiscreteLogInstance {
        self.instance
    }

    /// Generates the parameters of a scheme: an instance, and the witness
    /// that `SchnorrDiscreteLogInstance::generate` made with it.
    pub fn gen_params(p_size: usize, q_size: usize) -> (r: Option<
        (SchnorrDiscreteLogInstance, BigNat),
    >)
        requires
            q_size <= p_size,
        ensures
            r matches Some((x, w)) ==> x.is_generated(w@, p_size as nat, q_size as nat)
                && x.has_subgroup_shape(),
            q_size < 2 || p_size == q_size ==> r is None,
    {
        SchnorrDiscreteLogInstance::generate(p_size, q_size)
    }

    /// Whether `instance` is valid, as `SchnorrDiscreteLogInstance::is_valid`
    /// finds.
    pub fn check_params(instance: SchnorrDiscreteLogInstance) -> (r: bool)
        ensures
            instance.may_be_found_valid(r),
            r ==> instance.has_subgroup_shape() && instance.p@ >= 2 && instance.q@ >= 2,
    {
        instance.is_valid()
    }

    /// The scheme on `instance`.
    pub fn new(instance: SchnorrDiscreteLogInstance) -> (s: Self)
        ensures
            s.instance() == instance,
    {
        CommitmentScheme { instance }
    }

    /// Commits to `value`: gives the commitment and, second, the number that
    /// opens it. The opening is drawn at random below `p`, and the commitment
    /// is `g ^ opening * (h ^ -1) ^ value mod p`. Where `h` has an inverse
    /// modulo `p`, `verify` accepts the commitment with `value` and the
    /// opening.
    pub fn commit(&self, value: &BigNat) -> (r: (BigNat, BigNat))
        requires
            self.instance().has_moduli(),
        ensures
            r.0@ < self.instance().p@,
            r.1@ < self.instance().p@,
            self.instance().has_invertible_public_value() ==> r.0@
                == self.instance().simulated_commitment(value@, r.1@) && self.instance().verifies(
                r.0@,
                value@,
                r.1@,
            ),
    {
        let mut protocol = SchnorrDiscreteLogProtocol::new(self.instance.clone(), None);
        protocol.simulate(value)
    }

    /// Whether `z` opens the commitment `a` to the value `e`:
    /// `g ^ z = a * h ^ e` modulo `p`.
    pub fn verify(&self, a: &BigNat, e: &BigNat, z: &BigNat) -> (r: bool)
        requires
            self.instance().has_moduli(),
        ensures
            r == self.instance().verifies(a@, e@, z@),
    {
        let mut protocol = SchnorrDiscreteLogProtocol::new(self.instance.clone(), None);
        protocol.check(a.clone(), e.clone(), z.clone()).is_ok()
    }
}

/// The number that a text stands for: its UTF-8 encoding read as base-256
/// digits, most significant first.
pub open spec fn number_of_text(text: Seq<char>) -> nat {
    be_value(encode_utf8(text))
}

/// The text that a number stands for: the text whose UTF-8 encoding the
/// shortest digits of the number are, if they are one.
pub open spec fn text_of_number(n: nat) -> Option<Seq<char>> {
    text_of(minimal_digits(n))
}

/// The number that stands for the string `s`.
pub fn encode(s: String) -> (r: BigNat)
    ensures
        r@ == number_of_text(s@),
{
    BigNat::from_bytes_be(slice_to_vec(s.as_str().as_bytes()))
}

/// The string that the number `i` stands for; an error where the digits of
/// `i` are no UTF-8 encoding.
pub fn decode(i: BigNat) -> (r: Result<String, TextError>)
    ensures
        match r {
            Ok(s) => text_of_number(i@) == Some(s@),
            Err(_) => text_of_number(i@) is None,
        },
{
    string_from_bytes(i.to_bytes_be())
}

/// The encoding of a text that does not start with the character of code 0
/// does not start with the byte 0.
pub proof fn lemma_encoding_starts_nonzero(text: Seq<char>)
    requires
        text.len() > 0,
        text[0] as u32 != 0,
    ensures
        encode_utf8(text).len() > 0,
        encode_utf8(text)[0] != 0,
{
    let c = text[0] as u32;
    char_is_scalar(text[0]);
    let first = encode_scalar(c);
    assert(first[0] != 0) by {
        if has_width_1_encoding(c) {
            assert((c & 0x7F) as u8 != 0) by (bit_vector)
                requires
                    0 < c <= 0x7F,
            ;
        } else if has_width_2_encoding(c) {
            assert(0xC0 | ((c >> 6) & 0x1F) as u8 != 0) by (bit_vector);
        } else if has_width_3_encoding(c) {
            assert(0xE0 | ((c >> 12) & 0x0F) as u8 != 0) by (bit_vector);
        } else {
            assert(0xF0 | ((c >> 18) & 0x7) as u8 != 0) by (bit_vector);
        }
    }
}

/// Decoding is the inverse of encoding on every text that is not empty and
/// does not start with the character of code 0.
///
/// A number has no leading zeros to keep: the empty text and the text of the
/// one character of code 0 both stand for zero, and both decode to the latter.
pub proof fn lemma_decode_inverts_encode(text: Seq<char>)
    requires
        text.len() > 0,
        text[0] as u32 != 0,
    ensures
        text_of_number(number_of_text(text)) == Some(text),
{
    lemma_encoding_starts_nonzero(text);
    lemma_minimal_digits_of_value(encode_utf8(text));
    encode_utf8_valid_utf8(text);
    encode_utf8_decode_utf8(text);
}

} // verus!
