//! Numbers as hexadecimal numerals.

use crate::bignat::{be_value, lemma_be_value_step, BigNat};
use crate::text::{string_from_bytes, text_of};
use vstd::prelude::*;
use vstd::utf8::{
    encode_utf8, encode_utf8_decode_utf8, encode_utf8_valid_utf8, is_ascii_chars,
    is_ascii_chars_encode_utf8,
};

verus! {

/// The character of the hexadecimal digit `d`: `0` to `9`, then `a` to `f`.
pub open spec fn hex_char(d: nat) -> char {
    if d < 10 {
        (48 + d) as u8 as char
    } else {
        (87 + d) as u8 as char
    }
}

/// The hexadecimal numeral of `n`, without leading zeros: `0` for zero.
pub open spec fn hex_numeral(n: nat) -> Seq<char>
    decreases n,
{
    if n < 16 {
        seq![hex_char(n)]
    } else {
        hex_numeral(n / 16).push(hex_char(n % 16))
    }
}

/// The text whose characters have the codes `bytes`, all of which are ASCII.
pub open spec fn ascii_text(bytes: Seq<u8>) -> Seq<char> {
    Seq::new(bytes.len(), |i: int| bytes[i] as char)
}

/// One more digit at the end of the numeral of a positive number multiplies
/// the number by 16 and adds the digit.
pub proof fn lemma_hex_numeral_step(v: nat, d: nat)
    requires
        v > 0,
        d < 16,
    ensures
        hex_numeral(v * 16 + d) == hex_numeral(v).push(hex_char(d)),
{
    let n = v * 16 + d;
    assert(n / 16 == v);
    assert(n % 16 == d);
}

/// ASCII bytes are the UTF-8 encoding of the text of their characters.
pub proof fn lemma_ascii_bytes_are_text(bytes: Seq<u8>)
    requires
        forall|i: int| 0 <= i < bytes.len() ==> bytes[i] < 128,
    ensures
        text_of(bytes) == Some(ascii_text(bytes)),
{
    let chars = ascii_text(bytes);
    assert(is_ascii_chars(chars)) by {
        assert forall|i: int| 0 <= i < chars.len() implies '\0' <= #[trigger] chars[i]
            <= '\u{7f}' by {
            assert(bytes[i] < 128);
        }
    }
    is_ascii_chars_encode_utf8(chars);
    assert(encode_utf8(chars) =~= bytes) by {
        assert forall|i: int| 0 <= i < bytes.len() implies encode_utf8(chars)[i] == bytes[i] by {
            assert(chars[i] as u8 == encode_utf8(chars)[i]);
            assert(bytes[i] < 128);
        }
    }
    encode_utf8_valid_utf8(chars);
    encode_utf8_decode_utf8(chars);
}

/// The ASCII code of the hexadecimal digit `d`.
fn hex_digit(d: u8) -> (c: u8)
    requires
        d < 16,
    ensures
        c as char == hex_char(d as nat),
        c < 128,
{
    if d < 10 {
        48 + d
    } else {
        87 + d
    }
}

impl BigNat {
    /// The number as a hexadecimal numeral, in lower case and without leading
    /// zeros.
    pub fn to_hex(&self) -> (r: String)
        ensures
            r@ == hex_numeral(self@),
    {
        let digits = self.as_bytes();
        let mut out: Vec<u8> = Vec::new();
        let mut i: usize = 0;
        while i < digits.len()
            invariant
                i <= digits@.len(),
                forall|j: int| 0 <= j < out@.len() ==> out@[j] < 128,
                be_value(digits@.take(i as int)) == 0 ==> out@.len() == 0,
                be_value(digits@.take(i as int)) > 0 ==> out@.len() > 0 && ascii_text(out@)
                    == hex_numeral(be_value(digits@.take(i as int))),
            decreases digits@.len() - i,
        {
            let high = digits[i] / 16;
            let low = digits[i] % 16;
            let ghost before = be_value(digits@.take(i as int));
            let ghost between = before * 16 + high as nat;
            proof {
                lemma_be_value_step(digits@, i as int);
                assert(be_value(digits@.take(i + 1)) == between * 16 + low as nat);
            }
            if out.len() > 0 || high != 0 {
                let ghost shorter = out@;
                out.push(hex_digit(high));
                proof {
                    assert(ascii_text(out@) =~= ascii_text(shorter).push(hex_char(high as nat)));
                    if before > 0 {
                        lemma_hex_numeral_step(before, high as nat);
                    }
                }
            }
            if out.len() > 0 || low != 0 {
                let ghost shorter = out@;
                out.push(hex_digit(low));
                proof {
                    assert(ascii_text(out@) =~= ascii_text(shorter).push(hex_char(low as nat)));
                    if between > 0 {
                        lemma_hex_numeral_step(between, low as nat);
                    }
                }
            }
            i = i + 1;
        }
        if out.len() == 0 {
            out.push(48);
            proof {
                assert(ascii_text(out@) =~= hex_numeral(0));
            }
        }
        proof {
            assert(digits@.take(digits@.len() as int) =~= digits@);
            lemma_ascii_bytes_are_text(out@);
        }
        string_from_bytes(out).unwrap()
    }
}

} // verus!
