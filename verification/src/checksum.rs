use vstd::prelude::*;

verus! {

/// The CRC-32 checksum of a byte sequence, as `crc32fast::hash` computes it.
pub uninterp spec fn crc32(bytes: Seq<u8>) -> u32;

/// `crc32fast::hash` is taken to be a function of the bytes it is given: the same bytes
/// give the same 32-bit value, which `crc32` names. Nothing more is claimed of the value.
pub assume_specification[ crc32fast::hash ](buf: &[u8]) -> (crc: u32)
    ensures
        crc == crc32(buf@),
;

/// The four bytes of a 32-bit value, most significant first.
pub open spec fn be_bytes(value: u32) -> Seq<u8> {
    seq![
        (value / 0x100_0000) as u8,
        (value / 0x1_0000 % 0x100) as u8,
        (value / 0x100 % 0x100) as u8,
        (value % 0x100) as u8,
    ]
}

/// The 32-bit value whose bytes, most significant first, are the four of `bytes`.
pub open spec fn from_be_bytes(bytes: Seq<u8>) -> int {
    bytes[0] * 0x100_0000 + bytes[1] * 0x1_0000 + bytes[2] * 0x100 + bytes[3]
}

/// Different values have different bytes.
pub proof fn lemma_be_bytes_injective(a: u32, b: u32)
    requires
        be_bytes(a) == be_bytes(b),
    ensures
        a == b,
{
    assert(from_be_bytes(be_bytes(a)) == a);
    assert(from_be_bytes(be_bytes(b)) == b);
}

/// The four bytes of a checksum, most significant first.
pub fn crc_bytes(crc: u32) -> (bytes: Vec<u8>)
    ensures
        bytes@ == be_bytes(crc),
{
    let mut bytes: Vec<u8> = Vec::new();
    bytes.push((crc / 0x100_0000) as u8);
    bytes.push((crc / 0x1_0000 % 0x100) as u8);
    bytes.push((crc / 0x100 % 0x100) as u8);
    bytes.push((crc % 0x100) as u8);
    assert(bytes@ =~= be_bytes(crc));
    bytes
}

} // verus!
