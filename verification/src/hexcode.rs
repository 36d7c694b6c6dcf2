//! Bytes as hexadecimal text.
use crate::text::digit_char;
use vstd::prelude::*;

verus! {

/// The error of the crate `hex`.
#[verifier::external_type_specification]
#[verifier::external_body]
pub struct ExFromHexError(hex::FromHexError);

/// A hexadecimal digit of either case.
pub open spec fn is_hex_digit(c: char) -> bool {
    '0' <= c <= '9' || 'a' <= c <= 'f' || 'A' <= c <= 'F'
}

/// The value of a hexadecimal digit.
pub open spec fn hex_digit(c: char) -> int {
    if c <= '9' {
        c as int - '0' as int
    } else if c <= 'F' {
        c as int - 'A' as int + 10
    } else {
        c as int - 'a' as int + 10
    }
}

/// An even number of hexadecimal digits.
pub open spec fn is_hex(s: Seq<char>) -> bool {
    s.len() % 2 == 0 && forall|i: int| 0 <= i < s.len() ==> is_hex_digit(s[i])
}

/// The bytes that a text writes, two digits for each, the high one first.
pub open spec fn hex_bytes(s: Seq<char>) -> Seq<u8> {
    Seq::new(s.len() / 2, |i: int| (16 * hex_digit(s[2 * i]) + hex_digit(s[2 * i + 1])) as u8)
}

/// The text of some bytes, in lower case.
pub open spec fn hex_of(b: Seq<u8>) -> Seq<char> {
    Seq::new(
        2 * b.len(),
        |i: int|
            digit_char(
                if i % 2 == 0 {
                    b[i / 2] as int / 16
                } else {
                    b[i / 2] as int % 16
                },
            ),
    )
}

/// Calls `hex::decode`: it succeeds on an even number of hexadecimal digits of either
/// case, and on nothing else; each two digits give one byte. What its error says is
/// left open.
#[verifier::external_body]
pub(crate) fn decode_hex(s: &str) -> (r: Result<Vec<u8>, hex::FromHexError>)
    ensures
        r is Ok <==> is_hex(s@),
        r matches Ok(v) ==> v@ == hex_bytes(s@),
{
    hex::decode(s)
}

/// Calls `hex::encode`: two lower-case digits for each byte, the high one first. The
/// text has twice as many digits as there are bytes.
#[verifier::external_body]
pub(crate) fn encode_hex(b: &[u8]) -> (r: String)
    ensures
        r@ == hex_of(b@),
{
    hex::encode(b)
}

/// Bytes are read back from their text.
pub proof fn law_hex_round_trip(b: Seq<u8>)
    ensures
        is_hex(hex_of(b)),
        hex_bytes(hex_of(b)) == b,
{
    let s = hex_of(b);
    assert forall|i: int| 0 <= i < s.len() implies is_hex_digit(s[i]) by {
        let d = if i % 2 == 0 {
            b[i / 2] as int / 16
        } else {
            b[i / 2] as int % 16
        };
        assert(s[i] == digit_char(d));
    }
    assert forall|i: int| 0 <= i < b.len() implies hex_bytes(s)[i] == b[i] by {
        assert(s[2 * i] == digit_char(b[i] as int / 16));
        assert(s[2 * i + 1] == digit_char(b[i] as int % 16));
    }
    assert(hex_bytes(s) =~= b);
}

/// Whether a character is a hexadecimal digit.
pub fn hex_digit_char(c: char) -> (r: bool)
    ensures
        r == is_hex_digit(c),
{
    ('0' <= c && c <= '9') || ('a' <= c && c <= 'f') || ('A' <= c && c <= 'F')
}

} // verus!
