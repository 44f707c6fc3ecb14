use bytewords::checksum::crc_bytes;
use bytewords::utils;
use bytewords::utils::{crc_hex, is_ur_type};

#[test]
fn test_crc() {
    let crc1 = utils::get_crc_hex("Hello, world!".as_bytes().to_vec());
    assert_eq!(crc1, "ebe6c6e6");
    let crc2 = utils::get_crc_hex([1u8, 2u8, 3u8, 4u8].to_vec());
    assert_eq!(crc2, "b63cfbcd");
}

#[test]
fn the_checksum_of_nothing_is_zero() {
    assert_eq!(utils::get_crc_hex(Vec::new()), "00000000");
}

#[test]
fn a_checksum_is_written_as_eight_digits() {
    assert_eq!(crc_hex(0), "00000000");
    assert_eq!(crc_hex(0xa), "0000000a");
    assert_eq!(crc_hex(0xebe6c6e6), "ebe6c6e6");
    assert_eq!(crc_hex(0x0a0b0c1f), "0a0b0c1f");
    assert_eq!(crc_hex(u32::MAX), "ffffffff");
    assert_eq!(crc_hex(0x01234567), format!("{:08x}", 0x01234567));
}

#[test]
fn the_bytes_of_a_checksum_start_with_the_most_significant() {
    assert_eq!(crc_bytes(0), vec![0, 0, 0, 0]);
    assert_eq!(crc_bytes(0x01020304), vec![1, 2, 3, 4]);
    assert_eq!(crc_bytes(0xebe6c6e6), vec![0xeb, 0xe6, 0xc6, 0xe6]);
    assert_eq!(crc_bytes(u32::MAX), vec![255, 255, 255, 255]);
    assert_eq!(crc_bytes(0x89abcdef), 0x89abcdefu32.to_be_bytes().to_vec());
}

#[test]
fn type_tags_are_lowercase_letters_digits_and_hyphens() {
    for tag in ["bytes", "crypto-psbt", "a", "0", "-", "", "abc-123-xyz", "z9"] {
        assert!(is_ur_type(&tag.to_string()));
    }
    for tag in ["Bytes", "a b", "a_b", "\u{e9}", "bytes!", "crypto.psbt", "aZ", "a/b", "{", "`", ":", "bytes\n"] {
        assert!(!is_ur_type(&tag.to_string()));
    }
}
