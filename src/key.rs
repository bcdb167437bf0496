//! The master key, given to the process as hexadecimal text.

use vstd::prelude::*;
use crate::cipher::KEY_LEN;

verus! {

/// Whether `c` is an ASCII hexadecimal digit (`0-9`, `A-F`, `a-f`).
pub open spec fn is_hex_digit(c: u8) -> bool {
    (48u8 <= c <= 57u8) || (65u8 <= c <= 70u8) || (97u8 <= c <= 102u8)
}

/// The value of the hexadecimal digit `c`.
pub open spec fn hex_digit_value(c: u8) -> int {
    if 48u8 <= c <= 57u8 {
        c - 48u8
    } else if 65u8 <= c <= 70u8 {
        c - 65u8 + 10
    } else {
        c - 97u8 + 10
    }
}

/// Whether `s` is an even number of hexadecimal digits.
pub open spec fn is_hex_text(s: Seq<u8>) -> bool {
    &&& s.len() % 2 == 0
    &&& forall|i: int| 0 <= i < s.len() ==> is_hex_digit(#[trigger] s[i])
}

/// The bytes that the digit pairs of `s` stand for, high digit first.
pub open spec fn hex_bytes(s: Seq<u8>) -> Seq<u8> {
    Seq::new(
        s.len() / 2,
        |i: int| (16 * hex_digit_value(s[2 * i]) + hex_digit_value(s[2 * i + 1])) as u8,
    )
}

/// Relies on `hex::decode`: it accepts exactly an even number of digits
/// `0-9`, `a-f`, `A-F`, and turns each pair into one byte, high digit first.
#[verifier::external_body]
fn hex_decode(s: &[u8]) -> (r: Option<Vec<u8>>)
    ensures
        r is Some <==> is_hex_text(s@),
        r matches Some(v) ==> v@ == hex_bytes(s@),
{
    hex::decode(s).ok()
}

/// Why a key text was refused.
#[derive(Debug, Clone, Copy, PartialEq, Eq, Structural)]
pub enum KeyError {
    /// Not an even number of hexadecimal digits.
    NotHex,
    /// Hexadecimal, but not the length of an AES-256 key.
    WrongLength,
}

/// Reads the master key from its hexadecimal text.
pub fn parse_key(text: &[u8]) -> (r: Result<Vec<u8>, KeyError>)
    ensures
        r matches Ok(k) ==> is_hex_text(text@) && k@ == hex_bytes(text@) && k@.len() == KEY_LEN,
        r == Err::<Vec<u8>, KeyError>(KeyError::NotHex) <==> !is_hex_text(text@),
        r == Err::<Vec<u8>, KeyError>(KeyError::WrongLength) <==> is_hex_text(text@)
            && text@.len() != 2 * KEY_LEN,
{
    match hex_decode(text) {
        None => Err(KeyError::NotHex),
        Some(k) => {
            if k.len() != KEY_LEN {
                Err(KeyError::WrongLength)
            } else {
                Ok(k)
            }
        },
    }
}

} // verus!
