//! Hexadecimal text of byte strings, through the `hex` crate.

use vstd::prelude::*;

verus! {

/// The lower-case hex digits, by value.
pub open spec fn lower_hex_digits() -> Seq<char> {
    seq!['0', '1', '2', '3', '4', '5', '6', '7', '8', '9', 'a', 'b', 'c', 'd', 'e', 'f']
}

/// The upper-case hex digits, by value.
pub open spec fn upper_hex_digits() -> Seq<char> {
    seq!['0', '1', '2', '3', '4', '5', '6', '7', '8', '9', 'A', 'B', 'C', 'D', 'E', 'F']
}

/// `c` is a hex digit of either case.
pub open spec fn is_hex_char(c: char) -> bool {
    exists|i: int| 0 <= i < 16 && (lower_hex_digits()[i] == c || upper_hex_digits()[i] == c)
}

/// The value of a hex digit.
pub open spec fn hex_char_value(c: char) -> int {
    choose|i: int| 0 <= i < 16 && (lower_hex_digits()[i] == c || upper_hex_digits()[i] == c)
}

/// Lower-case hex text of `bytes`: two digits per byte, high nibble first.
pub open spec fn hex_lower(bytes: Seq<u8>) -> Seq<char> {
    Seq::new(
        2 * bytes.len(),
        |k: int|
            if k % 2 == 0 {
                lower_hex_digits()[(bytes[k / 2] / 16) as int]
            } else {
                lower_hex_digits()[(bytes[k / 2] % 16) as int]
            },
    )
}

/// Text that `hex::decode` accepts: an even number of hex digits.
pub open spec fn valid_hex(s: Seq<char>) -> bool {
    s.len() % 2 == 0 && forall|k: int| 0 <= k < s.len() ==> is_hex_char(#[trigger] s[k])
}

/// The bytes that hex text stands for.
pub open spec fn hex_bytes(s: Seq<char>) -> Seq<u8> {
    Seq::new(
        s.len() / 2,
        |i: int| (hex_char_value(s[2 * i]) * 16 + hex_char_value(s[2 * i + 1])) as u8,
    )
}

#[verifier::external_type_specification]
#[verifier::external_body]
pub struct ExFromHexError(hex::FromHexError);

/// `hex::encode`: lower-case hex text of `bytes`.
/// Trusted: the text is `hex_lower(bytes)`, as the crate documents
/// (two lower-case digits per byte).
#[verifier::external_body]
pub(crate) fn hex_encode(bytes: &[u8]) -> (s: String)
    ensures
        s@ == hex_lower(bytes@),
{
    hex::encode(bytes)
}

/// `hex::decode`: the bytes of hex text.
/// Trusted: it succeeds exactly on an even number of hex digits of either
/// case, and then yields `hex_bytes(text)`, as the crate documents.
#[verifier::external_body]
pub(crate) fn hex_decode(text: &str) -> (r: Result<Vec<u8>, hex::FromHexError>)
    ensures
        r is Ok <==> valid_hex(text@),
        r matches Ok(v) ==> v@ == hex_bytes(text@),
{
    hex::decode(text)
}

proof fn lemma_digit_value(n: int)
    requires
        0 <= n < 16,
    ensures
        is_hex_char(lower_hex_digits()[n]),
        hex_char_value(lower_hex_digits()[n]) == n,
{
    let c = lower_hex_digits()[n];
    assert(0 <= n < 16 && (lower_hex_digits()[n] == c || upper_hex_digits()[n] == c));
    let i = hex_char_value(c);
    assert(0 <= i < 16 && (lower_hex_digits()[i] == c || upper_hex_digits()[i] == c));
    assert(i == n);
}

/// Lower-case hex text decodes back to the bytes it was made from.
pub proof fn lemma_hex_round_trip(bytes: Seq<u8>)
    ensures
        valid_hex(hex_lower(bytes)),
        hex_bytes(hex_lower(bytes)) == bytes,
{
    let s = hex_lower(bytes);
    assert forall|k: int| 0 <= k < s.len() implies is_hex_char(#[trigger] s[k]) by {
        let b = bytes[k / 2];
        if k % 2 == 0 {
            lemma_digit_value((b / 16) as int);
        } else {
            lemma_digit_value((b % 16) as int);
        }
    }
    assert forall|i: int| 0 <= i < bytes.len() implies #[trigger] hex_bytes(s)[i] == bytes[i] by {
        let b = bytes[i];
        assert((2 * i) / 2 == i && (2 * i + 1) / 2 == i);
        assert((2 * i) % 2 == 0 && (2 * i + 1) % 2 == 1);
        lemma_digit_value((b / 16) as int);
        lemma_digit_value((b % 16) as int);
        assert(s[2 * i] == lower_hex_digits()[(b / 16) as int]);
        assert(s[2 * i + 1] == lower_hex_digits()[(b % 16) as int]);
    }
    assert(hex_bytes(s) =~= bytes);
}

} // verus!
