//! Bytes written in base sixteen.
use vstd::prelude::*;

verus! {

/// The lower-case digit for a value below 16.
pub open spec fn hex_digit(v: u8) -> char {
    if v < 10 {
        ('0' as u8 + v) as char
    } else {
        ('a' as u8 + v - 10) as char
    }
}

/// Each byte as two lower-case digits, the higher one first.
pub open spec fn hex_text(b: Seq<u8>) -> Seq<char> {
    Seq::new(
        2 * b.len(),
        |i: int| hex_digit(if i % 2 == 0 { b[i / 2] / 16 } else { b[i / 2] % 16 }),
    )
}

/// The value of a digit of either case.
pub open spec fn hex_value(c: char) -> Option<u8> {
    if '0' <= c <= '9' {
        Some((c as u8 - '0' as u8) as u8)
    } else if 'a' <= c <= 'f' {
        Some((c as u8 - 'a' as u8 + 10) as u8)
    } else if 'A' <= c <= 'F' {
        Some((c as u8 - 'A' as u8 + 10) as u8)
    } else {
        None
    }
}

/// An even number of digits of either case.
pub open spec fn is_hex(s: Seq<char>) -> bool {
    s.len() % 2 == 0 && forall|i: int| 0 <= i < s.len() ==> hex_value(#[trigger] s[i]) is Some
}

/// The bytes that pairs of digits write.
pub open spec fn hex_bytes(s: Seq<char>) -> Seq<u8> {
    Seq::new(
        s.len() / 2,
        |i: int| (16 * hex_value(s[2 * i])->0 + hex_value(s[2 * i + 1])->0) as u8,
    )
}

#[verifier::external_type_specification]
#[verifier::external_body]
pub struct ExFromHexError(hex::FromHexError);

/// `hex::encode`: every byte as two lower-case digits.
#[verifier::external_body]
pub(crate) fn encode(bytes: &[u8]) -> (s: String)
    ensures
        s@ == hex_text(bytes@),
{
    hex::encode(bytes)
}

/// `hex::decode`: succeeds exactly on an even number of digits of either case
/// and returns the bytes that they write. Which error comes otherwise is left
/// unsaid.
#[verifier::external_body]
pub(crate) fn decode(text: &[char]) -> (r: Result<Vec<u8>, hex::FromHexError>)
    ensures
        r is Ok <==> is_hex(text@),
        r matches Ok(v) ==> v@ == hex_bytes(text@),
{
    hex::decode(text.iter().collect::<String>())
}

/// What is written in hex reads back.
pub proof fn law_hex_round_trip(b: Seq<u8>)
    ensures
        is_hex(hex_text(b)),
        hex_bytes(hex_text(b)) == b,
{
    let s = hex_text(b);
    assert forall|i: int| 0 <= i < s.len() implies hex_value(#[trigger] s[i]) is Some by {
        let v = if i % 2 == 0 {
            b[i / 2] / 16
        } else {
            b[i / 2] % 16
        };
        assert(v < 16);
    }
    assert forall|i: int| 0 <= i < b.len() implies hex_bytes(s)[i] == b[i] by {
        assert((2 * i) / 2 == i && (2 * i) % 2 == 0);
        assert((2 * i + 1) / 2 == i && (2 * i + 1) % 2 == 1);
        assert(s[2 * i] == hex_digit(b[i] / 16));
        assert(s[2 * i + 1] == hex_digit(b[i] % 16));
        assert(hex_value(hex_digit(b[i] / 16)) == Some((b[i] / 16) as u8));
        assert(hex_value(hex_digit(b[i] % 16)) == Some((b[i] % 16) as u8));
    }
    assert(hex_bytes(s) =~= b);
}

/// Hex digits are those of base sixteen in lower case, two for each byte, the
/// sixteens first.
pub proof fn law_hex_digits(b: Seq<u8>, i: int)
    requires
        0 <= i < b.len(),
    ensures
        hex_text(b).len() == 2 * b.len(),
        ({
            let hi = hex_text(b)[2 * i] as int;
            let lo = hex_text(b)[2 * i + 1] as int;
            let digit = |c: int|
                if 48 <= c <= 57 {
                    c - 48
                } else {
                    c - 87
                };
            &&& 48 <= hi <= 57 || 97 <= hi <= 102
            &&& 48 <= lo <= 57 || 97 <= lo <= 102
            &&& digit(hi) * 16 + digit(lo) == b[i]
        }),
{
    assert((2 * i) / 2 == i && (2 * i) % 2 == 0);
    assert((2 * i + 1) / 2 == i && (2 * i + 1) % 2 == 1);
}

/// The case of a digit makes no difference, and only the digits of base sixteen
/// are any.
pub proof fn law_hex_case(c: char)
    ensures
        '0' <= c <= '9' ==> hex_value(c) is Some && hex_value(c)->0 == c as int - 48,
        'a' <= c <= 'f' ==> hex_value(c) is Some && hex_value(c)->0 == c as int - 87,
        'A' <= c <= 'F' ==> hex_value(c) is Some && hex_value(c)->0 == c as int - 55,
        !('0' <= c <= '9') && !('a' <= c <= 'f') && !('A' <= c <= 'F') ==> hex_value(c) is None,
{
}

} // verus!
