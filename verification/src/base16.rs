use crate::text::lowercase;
use hex::FromHex;
use vstd::prelude::*;

verus! {

/// Whether a character is a hexadecimal digit, of either case.
pub open spec fn is_hex_digit(c: char) -> bool {
    ('0' <= c && c <= '9') || ('a' <= c && c <= 'f') || ('A' <= c && c <= 'F')
}

/// The value, 0 to 15, of a hexadecimal digit of either case.
pub open spec fn digit_value(c: char) -> int {
    if '0' <= c && c <= '9' {
        c as int - '0' as int
    } else if 'a' <= c && c <= 'f' {
        c as int - 'a' as int + 10
    } else {
        c as int - 'A' as int + 10
    }
}

/// The lowercase hexadecimal digit for a value from 0 to 15.
pub open spec fn digit_of(value: int) -> char {
    if value < 10 {
        ('0' as int + value) as char
    } else {
        ('a' as int + value - 10) as char
    }
}

/// A text is hexadecimal when it is an even number of hexadecimal digits.
pub open spec fn is_hex(text: Seq<char>) -> bool {
    text.len() % 2 == 0 && forall|i: int| 0 <= i < text.len() ==> is_hex_digit(#[trigger] text[i])
}

/// The bytes that a hexadecimal text stands for: one for each two digits.
pub open spec fn hex_to_bytes(text: Seq<char>) -> Seq<u8> {
    Seq::new(
        text.len() / 2,
        |i: int| (16 * digit_value(text[2 * i]) + digit_value(text[2 * i + 1])) as u8,
    )
}

/// The lowercase hexadecimal text for a byte sequence: two digits for each byte.
pub open spec fn hex_digits(bytes: Seq<u8>) -> Seq<char> {
    Seq::new(
        2 * bytes.len(),
        |i: int|
            if i % 2 == 0 {
                digit_of(bytes[i / 2] as int / 16)
            } else {
                digit_of(bytes[i / 2] as int % 16)
            },
    )
}

/// Writing bytes as hexadecimal text and reading the text gives the bytes back.
pub proof fn lemma_hex_round_trip(bytes: Seq<u8>)
    ensures
        is_hex(hex_digits(bytes)),
        hex_to_bytes(hex_digits(bytes)) == bytes,
{
    assert(hex_to_bytes(hex_digits(bytes)) =~= bytes);
}

/// Reading a hexadecimal text and writing the bytes again gives the text in lowercase.
pub proof fn lemma_hex_normalized(text: Seq<char>)
    requires
        is_hex(text),
    ensures
        hex_digits(hex_to_bytes(text)) == lowercase(text),
{
    let bytes = hex_to_bytes(text);
    assert forall|i: int| 0 <= i < text.len() implies hex_digits(bytes)[i] == lowercase(text)[i] by {
        assert(is_hex_digit(text[2 * (i / 2)]));
        assert(is_hex_digit(text[2 * (i / 2) + 1]));
    }
    assert(hex_digits(bytes) =~= lowercase(text));
}

/// `hex::FromHexError`, the reason why a text was not read as hexadecimal. Nothing is
/// read from it.
#[verifier::external_type_specification]
#[verifier::external_body]
pub struct ExFromHexError(hex::FromHexError);

/// `<Vec<u8> as hex::FromHex>::from_hex`, on a string slice. It reads the slice's bytes:
/// an odd number of them, or one that is no hexadecimal digit, is an error, and otherwise
/// each two digits give one byte, the first digit its upper half. A character outside
/// ASCII is encoded by bytes that are no digits, so the text is accepted exactly when it
/// is an even number of hexadecimal digits.
#[verifier::external_body]
pub(crate) fn from_hex(text: &str) -> (decoded: Result<Vec<u8>, hex::FromHexError>)
    ensures
        decoded is Ok <==> is_hex(text@),
        decoded matches Ok(bytes) ==> bytes@ == hex_to_bytes(text@),
{
    Vec::from_hex(text)
}

/// `hex::encode`, on a byte slice: two lowercase hexadecimal digits for each byte, the
/// upper half of the byte first.
#[verifier::external_body]
pub(crate) fn to_hex(bytes: &[u8]) -> (text: String)
    ensures
        text@ == hex_digits(bytes@),
{
    hex::encode(bytes)
}

} // verus!
