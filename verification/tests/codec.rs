use bytewords::bytewords::{
    _decode, _encode, add_crc, append_crc, check_crc, decode, decode_word, decode_words, encode,
    encode_minimal, encode_with_separator, join_minimal_words, join_words, split_crc, DecodeError,
    EncodeError, STYLES,
};
use bytewords::dictionary::LookupTable;

const PAYLOAD: &str = "d9012ca20150c7098580125e2ab0981253468b2dbc5202d8641947da";
const STANDARD_TEXT: &str = "tuna acid draw oboe acid good slot axis limp lava brag holy door puff monk brag guru frog luau drop roof grim also trip idle chef fuel twin tied draw grim ramp";
const URI_TEXT: &str = "tuna-acid-draw-oboe-acid-good-slot-axis-limp-lava-brag-holy-door-puff-monk-brag-guru-frog-luau-drop-roof-grim-also-trip-idle-chef-fuel-twin-tied-draw-grim-ramp";
const MINIMAL_TEXT: &str = "taaddwoeadgdstaslplabghydrpfmkbggufgludprfgmaotpiecffltntddwgmrp";

fn styles() -> Vec<STYLES> {
    vec![STYLES::STANDARD, STYLES::URI, STYLES::MINIMAL]
}

fn letters(text: &str) -> Vec<char> {
    text.chars().collect()
}

fn sample_messages() -> Vec<Vec<u8>> {
    let mut all: Vec<u8> = Vec::new();
    for value in 0..=255u8 {
        all.push(value);
    }
    vec![
        vec![0],
        vec![255],
        vec![1, 2, 3, 4],
        b"Hello, world!".to_vec(),
        hex::decode(PAYLOAD).unwrap(),
        all,
    ]
}

#[test]
fn round_trip_in_every_style() {
    for message in sample_messages() {
        let payload = hex::encode(&message);
        for style in styles() {
            let text = encode(payload.clone(), Some(style)).unwrap();
            assert_eq!(decode(text, Some(style)), Ok(payload.clone()));
        }
    }
}

#[test]
fn round_trip_over_bytes() {
    for message in sample_messages() {
        let standard = encode_with_separator(&message, " ");
        assert_eq!(_decode(&standard, STYLES::STANDARD), Ok(message.clone()));
        let uri = encode_with_separator(&message, "-");
        assert_eq!(_decode(&uri, STYLES::URI), Ok(message.clone()));
        let minimal = encode_minimal(&message);
        assert_eq!(_decode(&minimal, STYLES::MINIMAL), Ok(message.clone()));
    }
}

#[test]
fn bytes_are_encoded_as_their_hexadecimal_text_is() {
    let message = hex::decode(PAYLOAD).unwrap();
    assert_eq!(_encode(&message, STYLES::STANDARD), STANDARD_TEXT);
    assert_eq!(_encode(&message, STYLES::URI), URI_TEXT);
    assert_eq!(_encode(&message, STYLES::MINIMAL), MINIMAL_TEXT);
    assert_eq!(encode_with_separator(&message, " "), STANDARD_TEXT);
    assert_eq!(encode_with_separator(&message, "-"), URI_TEXT);
    assert_eq!(encode_minimal(&message), MINIMAL_TEXT);
    assert_eq!(_decode(STANDARD_TEXT, STYLES::STANDARD), Ok(message.clone()));
    assert_eq!(_decode(URI_TEXT, STYLES::URI), Ok(message.clone()));
    assert_eq!(_decode(MINIMAL_TEXT, STYLES::MINIMAL), Ok(message));
    assert_eq!(encode_with_separator(&[0], ", "), "able, tied, also, webs, lung");
}

#[test]
fn encoded_texts_have_the_length_of_their_style() {
    for message in sample_messages() {
        let words = message.len() + 4;
        assert_eq!(_encode(&message, STYLES::STANDARD).len(), 5 * words - 1);
        assert_eq!(_encode(&message, STYLES::URI).len(), 5 * words - 1);
        assert_eq!(_encode(&message, STYLES::MINIMAL).len(), 2 * words);
    }
}

#[test]
fn empty_message_is_encoded_but_not_decoded() {
    assert_eq!(encode(String::new(), Some(STYLES::STANDARD)).unwrap(), "able able able able");
    assert_eq!(encode(String::new(), Some(STYLES::URI)).unwrap(), "able-able-able-able");
    assert_eq!(encode(String::new(), Some(STYLES::MINIMAL)).unwrap(), "aeaeaeae");
    for style in styles() {
        let text = encode(String::new(), Some(style)).unwrap();
        assert_eq!(decode(text, Some(style)), Err(DecodeError::TooShort));
    }
}

#[test]
fn style_defaults_to_minimal() {
    assert_eq!(encode(PAYLOAD.to_string(), None).unwrap(), MINIMAL_TEXT);
    assert_eq!(decode(MINIMAL_TEXT.to_string(), None).unwrap(), PAYLOAD);
    assert_eq!(decode(STANDARD_TEXT.to_string(), None), Err(DecodeError::UnknownWord));
    assert_eq!(decode("aeaa aeaa".to_string(), None), Err(DecodeError::InvalidWordLetters));
}

#[test]
fn encode_refuses_text_that_is_not_hexadecimal() {
    for payload in ["xyz", "abc", "0g", "zz", "d9 01", "é", "ab\u{e9}"] {
        for style in styles() {
            assert_eq!(
                encode(payload.to_string(), Some(style)),
                Err(EncodeError::InvalidInputEncoding)
            );
        }
        assert_eq!(encode(payload.to_string(), None), Err(EncodeError::InvalidInputEncoding));
    }
}

#[test]
fn encode_reads_hexadecimal_of_either_case() {
    let lower = encode("d9012ca2".to_string(), Some(STYLES::STANDARD)).unwrap();
    let upper = encode("D9012CA2".to_string(), Some(STYLES::STANDARD)).unwrap();
    let mixed = encode("d9012Ca2".to_string(), Some(STYLES::STANDARD)).unwrap();
    assert_eq!(lower, upper);
    assert_eq!(lower, mixed);
    assert_eq!(decode(upper, Some(STYLES::STANDARD)).unwrap(), "d9012ca2");
}

#[test]
fn text_of_one_style_is_refused_in_another() {
    for message in sample_messages() {
        let payload = hex::encode(&message);
        for written in styles() {
            let text = encode(payload.clone(), Some(written)).unwrap();
            for read in styles() {
                if read != written {
                    assert!(decode(text.clone(), Some(read)).is_err());
                }
            }
        }
    }
    assert_eq!(
        decode(STANDARD_TEXT.to_string(), Some(STYLES::URI)),
        Err(DecodeError::MalformedWord)
    );
    assert_eq!(
        decode(URI_TEXT.to_string(), Some(STYLES::STANDARD)),
        Err(DecodeError::MalformedWord)
    );
    assert_eq!(
        decode(MINIMAL_TEXT.to_string(), Some(STYLES::STANDARD)),
        Err(DecodeError::MalformedWord)
    );
    assert_eq!(
        decode(MINIMAL_TEXT.to_string(), Some(STYLES::URI)),
        Err(DecodeError::MalformedWord)
    );
    assert_eq!(decode(URI_TEXT.to_string(), Some(STYLES::MINIMAL)), Err(DecodeError::UnknownWord));
    assert_eq!(
        decode("aeaa-aeaa-aeaa-aeaa-aeaa".to_string(), Some(STYLES::MINIMAL)),
        Err(DecodeError::InvalidWordLetters)
    );
}

#[test]
fn capitals_are_read_as_lowercase() {
    assert_eq!(decode(STANDARD_TEXT.to_uppercase(), Some(STYLES::STANDARD)).unwrap(), PAYLOAD);
    assert_eq!(decode(URI_TEXT.to_uppercase(), Some(STYLES::URI)).unwrap(), PAYLOAD);
    assert_eq!(decode(MINIMAL_TEXT.to_uppercase(), Some(STYLES::MINIMAL)).unwrap(), PAYLOAD);
    let mixed = STANDARD_TEXT.replace("tuna", "TuNa").replace("acid", "aCId");
    assert_eq!(decode(mixed, Some(STYLES::STANDARD)).unwrap(), PAYLOAD);
    let damaged = STANDARD_TEXT.replace("oboe", "obeo");
    assert_eq!(
        decode(damaged.to_uppercase(), Some(STYLES::STANDARD)),
        decode(damaged, Some(STYLES::STANDARD))
    );
}

#[test]
fn interior_letters_are_checked() {
    let swapped = STANDARD_TEXT.replace("tuna", "tnua");
    assert_eq!(decode(swapped, Some(STYLES::STANDARD)), Err(DecodeError::InconsistentWord));
    let swapped = URI_TEXT.replace("ramp", "rmap");
    assert_eq!(decode(swapped, Some(STYLES::URI)), Err(DecodeError::InconsistentWord));
    let table = LookupTable::new();
    assert_eq!(decode_word(&letters("albe"), 4, &table), Err(DecodeError::InconsistentWord));
    assert_eq!(decode_word(&letters("abbe"), 4, &table), Err(DecodeError::InconsistentWord));
    assert_eq!(decode_word(&letters("alle"), 4, &table), Err(DecodeError::InconsistentWord));
    assert_eq!(decode_word(&letters("a12e"), 4, &table), Err(DecodeError::InconsistentWord));
    assert_eq!(decode_word(&letters("a\u{e9}le"), 4, &table), Err(DecodeError::InconsistentWord));
    assert_eq!(decode_word(&letters("able"), 4, &table), Ok(0));
}

#[test]
fn words_outside_the_dictionary_are_unknown() {
    let table = LookupTable::new();
    assert_eq!(decode_word(&letters("zzzz"), 4, &table), Err(DecodeError::UnknownWord));
    assert_eq!(decode_word(&letters("abcb"), 4, &table), Err(DecodeError::UnknownWord));
    assert_eq!(decode_word(&letters("zz"), 2, &table), Err(DecodeError::UnknownWord));
    let text = STANDARD_TEXT.replace("tuna", "tunz");
    assert_eq!(decode(text, Some(STYLES::STANDARD)), Err(DecodeError::UnknownWord));
    assert_eq!(
        decode("zzaeaeaeaeae".to_string(), Some(STYLES::MINIMAL)),
        Err(DecodeError::UnknownWord)
    );
}

#[test]
fn tokens_must_begin_and_end_with_letters() {
    let table = LookupTable::new();
    assert_eq!(decode_word(&letters("1ble"), 4, &table), Err(DecodeError::InvalidWordLetters));
    assert_eq!(decode_word(&letters("abl-"), 4, &table), Err(DecodeError::InvalidWordLetters));
    assert_eq!(decode_word(&letters("abl\u{e9}"), 4, &table), Err(DecodeError::InvalidWordLetters));
    assert_eq!(decode_word(&letters("\u{212a}ilt"), 4, &table), Err(DecodeError::InvalidWordLetters));
    assert_eq!(decode_word(&letters("a "), 2, &table), Err(DecodeError::InvalidWordLetters));
    assert_eq!(decode_word(&letters("{e"), 2, &table), Err(DecodeError::InvalidWordLetters));
    assert_eq!(decode_word(&letters("`e"), 2, &table), Err(DecodeError::InvalidWordLetters));
    assert_eq!(
        decode("\u{e9}aaeaeaeaeae".to_string(), Some(STYLES::MINIMAL)),
        Err(DecodeError::InvalidWordLetters)
    );
}

#[test]
fn tokens_must_have_the_length_of_the_style() {
    let table = LookupTable::new();
    assert_eq!(decode_word(&letters(""), 4, &table), Err(DecodeError::MalformedWord));
    assert_eq!(decode_word(&letters("abl"), 4, &table), Err(DecodeError::MalformedWord));
    assert_eq!(decode_word(&letters("ables"), 4, &table), Err(DecodeError::MalformedWord));
    assert_eq!(decode_word(&letters("able"), 2, &table), Err(DecodeError::MalformedWord));
    assert_eq!(decode_word(&letters("a"), 2, &table), Err(DecodeError::MalformedWord));
    assert_eq!(decode_word(&letters("ae"), 4, &table), Err(DecodeError::MalformedWord));
    assert_eq!(decode(String::new(), Some(STYLES::STANDARD)), Err(DecodeError::MalformedWord));
    assert_eq!(decode(String::new(), Some(STYLES::URI)), Err(DecodeError::MalformedWord));
    assert_eq!(
        decode("able  acid".to_string(), Some(STYLES::STANDARD)),
        Err(DecodeError::MalformedWord)
    );
    assert_eq!(
        decode(format!("{} ", STANDARD_TEXT), Some(STYLES::STANDARD)),
        Err(DecodeError::MalformedWord)
    );
    assert_eq!(
        decode(format!("{}a", MINIMAL_TEXT), Some(STYLES::MINIMAL)),
        Err(DecodeError::MalformedWord)
    );
    assert_eq!(decode("a".to_string(), Some(STYLES::MINIMAL)), Err(DecodeError::MalformedWord));
    assert_eq!(decode("\u{e9}".to_string(), Some(STYLES::MINIMAL)), Err(DecodeError::MalformedWord));
}

#[test]
fn the_first_failing_token_decides_the_error() {
    assert_eq!(
        decode("abl zzzz 1ble".to_string(), Some(STYLES::STANDARD)),
        Err(DecodeError::MalformedWord)
    );
    assert_eq!(
        decode("zzzz abl 1ble".to_string(), Some(STYLES::STANDARD)),
        Err(DecodeError::UnknownWord)
    );
    assert_eq!(
        decode("able-1ble-abl".to_string(), Some(STYLES::URI)),
        Err(DecodeError::InvalidWordLetters)
    );
    assert_eq!(
        decode("able albe zzzz".to_string(), Some(STYLES::STANDARD)),
        Err(DecodeError::InconsistentWord)
    );
    assert_eq!(decode("aezz1".to_string(), Some(STYLES::MINIMAL)), Err(DecodeError::UnknownWord));
}

#[test]
fn short_texts_are_too_short() {
    for text in ["", "ae", "aead", "aeadao", "aeadaoax"] {
        assert_eq!(decode(text.to_string(), Some(STYLES::MINIMAL)), Err(DecodeError::TooShort));
        assert_eq!(decode(text.to_string(), None), Err(DecodeError::TooShort));
    }
    for text in ["able", "able acid", "able acid also", "able acid also apex"] {
        assert_eq!(decode(text.to_string(), Some(STYLES::STANDARD)), Err(DecodeError::TooShort));
    }
    assert_eq!(
        decode("able-acid-also-apex".to_string(), Some(STYLES::URI)),
        Err(DecodeError::TooShort)
    );
    assert_eq!(
        decode("aeadaoaxaa".to_string(), Some(STYLES::MINIMAL)),
        Err(DecodeError::ChecksumMismatch)
    );
    assert_eq!(decode("aeadaoaxa".to_string(), Some(STYLES::MINIMAL)), Err(DecodeError::MalformedWord));
    assert_eq!(decode("zz".to_string(), Some(STYLES::MINIMAL)), Err(DecodeError::UnknownWord));
}

#[test]
fn a_wrong_checksum_is_refused() {
    let text = STANDARD_TEXT.replace("grim ramp", "grim race");
    assert_eq!(decode(text, Some(STYLES::STANDARD)), Err(DecodeError::ChecksumMismatch));
    let text = STANDARD_TEXT.replace("tuna", "tomb");
    assert_eq!(decode(text, Some(STYLES::STANDARD)), Err(DecodeError::ChecksumMismatch));
    let text = MINIMAL_TEXT.replace("taad", "taae");
    assert_eq!(decode(text, Some(STYLES::MINIMAL)), Err(DecodeError::ChecksumMismatch));
}

#[test]
fn every_flipped_bit_is_detected() {
    let message = b"Hello, world!".to_vec();
    let payload = add_crc(&message);
    for position in 0..payload.len() {
        for bit in 0..8 {
            let mut damaged = payload.clone();
            damaged[position] ^= 1 << bit;
            let text = join_minimal_words(&damaged);
            assert_eq!(_decode(&text, STYLES::MINIMAL), Err(DecodeError::ChecksumMismatch));
            let text = join_words(&damaged, " ");
            assert_eq!(_decode(&text, STYLES::STANDARD), Err(DecodeError::ChecksumMismatch));
        }
    }
}

#[test]
fn the_checksum_follows_the_message() {
    assert_eq!(append_crc(&[1, 2, 3], 0xdeadbeef), vec![1, 2, 3, 0xde, 0xad, 0xbe, 0xef]);
    assert_eq!(append_crc(&[], 0x00000001), vec![0, 0, 0, 1]);
    assert_eq!(append_crc(&[9], 0x01000000), vec![9, 1, 0, 0, 0]);
    let payload = add_crc(b"Hello, world!");
    assert_eq!(&payload[..13], b"Hello, world!");
    assert_eq!(&payload[13..], &[0xeb, 0xe6, 0xc6, 0xe6]);
    assert_eq!(add_crc(&[1, 2, 3, 4]), vec![1, 2, 3, 4, 0xb6, 0x3c, 0xfb, 0xcd]);
    assert_eq!(add_crc(&[]), vec![0, 0, 0, 0]);
}

#[test]
fn a_payload_is_cut_before_its_last_four_bytes() {
    assert_eq!(split_crc(vec![]), Err(DecodeError::TooShort));
    assert_eq!(split_crc(vec![1, 2, 3, 4]), Err(DecodeError::TooShort));
    assert_eq!(split_crc(vec![1, 2, 3, 4, 5]), Ok((vec![1], vec![2, 3, 4, 5])));
    assert_eq!(
        split_crc(vec![1, 2, 3, 4, 5, 6, 7]),
        Ok((vec![1, 2, 3], vec![4, 5, 6, 7]))
    );
}

#[test]
fn the_last_four_bytes_must_spell_the_checksum() {
    assert_eq!(check_crc(vec![7], &[1, 2, 3, 4], 0x01020304), Ok(vec![7]));
    assert_eq!(
        check_crc(vec![7], &[1, 2, 3, 4], 0x01020305),
        Err(DecodeError::ChecksumMismatch)
    );
    assert_eq!(
        check_crc(vec![7], &[4, 3, 2, 1], 0x01020304),
        Err(DecodeError::ChecksumMismatch)
    );
    assert_eq!(
        check_crc(vec![7], &[1, 2, 3], 0x00010203),
        Err(DecodeError::ChecksumMismatch)
    );
    assert_eq!(check_crc(vec![], &[0, 0, 0, 0], 0), Ok(vec![]));
}

#[test]
fn words_are_joined_as_the_style_asks() {
    assert_eq!(join_words(&[0, 1, 255], " "), "able acid zoom");
    assert_eq!(join_words(&[0, 1, 255], "-"), "able-acid-zoom");
    assert_eq!(join_words(&[31], " "), "cost");
    assert_eq!(join_words(&[], " "), "");
    assert_eq!(join_minimal_words(&[0, 1, 255]), "aeadzm");
    assert_eq!(join_minimal_words(&[]), "");
}

#[test]
fn tokens_are_resolved_to_bytes() {
    assert_eq!(decode_words("able acid zoom", STYLES::STANDARD), Ok(vec![0, 1, 255]));
    assert_eq!(decode_words("able-acid-zoom", STYLES::URI), Ok(vec![0, 1, 255]));
    assert_eq!(decode_words("aeadzm", STYLES::MINIMAL), Ok(vec![0, 1, 255]));
    assert_eq!(decode_words("", STYLES::MINIMAL), Ok(vec![]));
    assert_eq!(decode_words("", STYLES::STANDARD), Err(DecodeError::MalformedWord));
    assert_eq!(decode_words("ABLE Acid", STYLES::STANDARD), Ok(vec![0, 1]));
}

#[test]
fn minimal_words_do_not_carry_interior_letters() {
    let table = LookupTable::new();
    assert_eq!(decode_word(&letters("ta"), 2, &table), Ok(0xd9));
    assert_eq!(decode_word(&letters("TA"), 2, &table), Ok(0xd9));
    assert_eq!(decode_word(&letters("tuna"), 4, &table), Ok(0xd9));
    assert_eq!(decode_word(&letters("tnua"), 4, &table), Err(DecodeError::InconsistentWord));
}
