use crate::base16::{hex_digits, to_hex};
use crate::checksum::{be_bytes, crc32, crc_bytes};
use vstd::prelude::*;

verus! {

/// The characters that a type tag is made of: lowercase letters, digits and the hyphen.
pub open spec fn is_type_char(c: char) -> bool {
    ('a' <= c && c <= 'z') || ('0' <= c && c <= '9') || c == '-'
}

/// A text is a type tag when each of its characters may stand in one.
pub open spec fn is_ur_type_spec(text: Seq<char>) -> bool {
    forall|i: int| 0 <= i < text.len() ==> is_type_char(#[trigger] text[i])
}

/// Whether a text is a type tag.
pub fn is_ur_type(ur_type: &String) -> (valid: bool)
    ensures
        valid == is_ur_type_spec(ur_type@),
{
    let mut valid = true;
    for c in it: ur_type.as_str().chars()
        invariant
            it.seq() == ur_type@,
            valid == (forall|i: int| 0 <= i < it.index() ==> is_type_char(#[trigger] ur_type@[i])),
    {
        let accepted = ('a' <= c && c <= 'z') || ('0' <= c && c <= '9') || c == '-';
        assert(accepted == is_type_char(ur_type@[it.index() as int]));
        valid = valid && accepted;
    }
    valid
}

/// A checksum as eight lowercase hexadecimal digits, the most significant first.
pub fn crc_hex(crc: u32) -> (text: String)
    ensures
        text@ == hex_digits(be_bytes(crc)),
{
    let bytes = crc_bytes(crc);
    to_hex(bytes.as_slice())
}

/// The CRC-32 checksum of a message as eight lowercase hexadecimal digits.
pub fn get_crc_hex(message: Vec<u8>) -> (text: String)
    ensures
        text@ == hex_digits(be_bytes(crc32(message@))),
{
    crc_hex(crc32fast::hash(message.as_slice()))
}

} // verus!
