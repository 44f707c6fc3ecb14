use crate::base16::{hex_to_bytes, is_hex, lemma_hex_normalized};
use crate::bytewords::{
    decode_hex_spec, decode_spec, decode_word_spec, decode_words_spec, encode_hex_spec,
    encode_payload_spec, encode_spec, full_words, minimal_words, separator_of, strip_crc_spec,
    tokens_of, with_crc, word_length_of, words_of, DecodeError, STYLES,
};
use crate::checksum::{be_bytes, crc32, lemma_be_bytes_injective};
use crate::dictionary::{
    is_letter, lemma_dictionary, lemma_lookup_unique, lookup, minimal_word_at, word_at, WORDS,
};
use crate::text::{
    is_free_of, lemma_join_first, lemma_join_free_of, lemma_join_len, lemma_pairs_join,
    lemma_pairs_same_but_case, lemma_split_join, lemma_split_plain, lemma_split_same_but_case,
    lemma_uppercase_same, lower, lowercase, pairs, same_but_case, same_tokens_but_case,
    uppercase,
};
use vstd::prelude::*;

verus! {

/// The word of a byte value is decoded as that byte value, in full and abbreviated.
pub proof fn lemma_word_round_trip(value: u8)
    ensures
        decode_word_spec(word_at(value as int), 4) == Ok::<u8, DecodeError>(value),
        decode_word_spec(minimal_word_at(value as int), 2) == Ok::<u8, DecodeError>(value),
{
    lemma_dictionary();
    let word = word_at(value as int);
    assert(forall|j: int| 0 <= j < 4 ==> word[j] == WORDS@[4 * value + j]);
    assert(is_letter(WORDS@[4 * value as int]));
    assert(is_letter(WORDS@[4 * value + 1]));
    assert(is_letter(WORDS@[4 * value + 2]));
    assert(is_letter(WORDS@[4 * value + 3]));
    lemma_lookup_unique(value as int, word[0], word[3]);
}

/// Tokens that each stand for a byte are decoded to those bytes, in order.
pub proof fn lemma_all_words_decoded(tokens: Seq<Seq<char>>, word_length: int, bytes: Seq<u8>)
    requires
        tokens.len() == bytes.len(),
        forall|i: int|
            0 <= i < tokens.len() ==> decode_word_spec(#[trigger] tokens[i], word_length) == Ok::<
                u8,
                DecodeError,
            >(bytes[i]),
    ensures
        decode_words_spec(tokens, word_length) == Ok::<Seq<u8>, DecodeError>(bytes),
    decreases tokens.len(),
{
    if tokens.len() == 0 {
        assert(bytes =~= Seq::empty());
    } else {
        let front = tokens.drop_last();
        assert forall|i: int| 0 <= i < front.len() implies decode_word_spec(
            #[trigger] front[i],
            word_length,
        ) == Ok::<u8, DecodeError>(bytes.drop_last()[i]) by {
            assert(front[i] == tokens[i]);
        }
        lemma_all_words_decoded(front, word_length, bytes.drop_last());
        assert(bytes.drop_last().push(bytes.last()) =~= bytes);
    }
}

/// Where the tokens are decoded, there is one byte for each token, and each token stands
/// for its byte.
pub proof fn lemma_decoded_words(tokens: Seq<Seq<char>>, word_length: int)
    requires
        decode_words_spec(tokens, word_length) is Ok,
    ensures
        decode_words_spec(tokens, word_length)->Ok_0.len() == tokens.len(),
        forall|i: int|
            0 <= i < tokens.len() ==> decode_word_spec(#[trigger] tokens[i], word_length) == Ok::<
                u8,
                DecodeError,
            >(decode_words_spec(tokens, word_length)->Ok_0[i]),
    decreases tokens.len(),
{
    if tokens.len() > 0 {
        lemma_decoded_words(tokens.drop_last(), word_length);
        assert forall|i: int| 0 <= i < tokens.len() implies decode_word_spec(
            #[trigger] tokens[i],
            word_length,
        ) == Ok::<u8, DecodeError>(decode_words_spec(tokens, word_length)->Ok_0[i]) by {
            if i < tokens.len() - 1 {
                assert(tokens.drop_last()[i] == tokens[i]);
            }
        }
    }
}

/// A message of at least one byte, followed by its checksum, is accepted as that message.
pub proof fn lemma_strip_crc(message: Seq<u8>)
    requires
        message.len() >= 1,
    ensures
        strip_crc_spec(with_crc(message, crc32(message))) == Ok::<Seq<u8>, DecodeError>(message),
{
    let payload = with_crc(message, crc32(message));
    assert(payload.take(payload.len() - 4) =~= message);
    assert(payload.skip(payload.len() - 4) =~= be_bytes(crc32(message)));
}

/// Round trip: a message of at least one byte, encoded in a style and decoded in the
/// same style, comes back unchanged. (The empty message is encoded to the four words of
/// its checksum, which is too short a text to be decoded.)
pub proof fn lemma_round_trip(message: Seq<u8>, style: STYLES)
    requires
        message.len() >= 1,
    ensures
        decode_spec(encode_spec(message, style), style) == Ok::<Seq<u8>, DecodeError>(message),
{
    let payload = with_crc(message, crc32(message));
    lemma_payload_round_trip(payload, style);
    lemma_strip_crc(message);
}

/// Round trip over hexadecimal text: a payload of at least one byte that is given as
/// hexadecimal text, encoded and decoded in one style, comes back as the same text in
/// lowercase.
pub proof fn lemma_round_trip_over_hex(payload: Seq<char>, style: STYLES)
    requires
        is_hex(payload),
        payload.len() >= 2,
    ensures
        encode_hex_spec(payload, style) matches Ok(text) && decode_hex_spec(text, style) == Ok::<
            Seq<char>,
            DecodeError,
        >(lowercase(payload)),
{
    lemma_round_trip(hex_to_bytes(payload), style);
    lemma_hex_normalized(payload);
}

/// The words written for a payload are read back as the bytes of the payload.
pub proof fn lemma_payload_round_trip(payload: Seq<u8>, style: STYLES)
    requires
        payload.len() >= 1,
    ensures
        tokens_of(encode_payload_spec(payload, style), style) == words_of(payload, style),
        decode_words_spec(
            tokens_of(encode_payload_spec(payload, style), style),
            word_length_of(style),
        ) == Ok::<Seq<u8>, DecodeError>(payload),
{
    lemma_dictionary();
    let words = words_of(payload, style);
    assert forall|i: int| 0 <= i < words.len() implies decode_word_spec(
        #[trigger] words[i],
        word_length_of(style),
    ) == Ok::<u8, DecodeError>(payload[i]) by {
        lemma_word_round_trip(payload[i]);
    }
    lemma_all_words_decoded(words, word_length_of(style), payload);
    match style {
        STYLES::STANDARD => {
            lemma_full_words_are_letters(payload);
            assert forall|i: int| 0 <= i < words.len() implies is_free_of(
                #[trigger] words[i],
                ' ',
            ) by {
                assert(is_free_of(full_words(payload)[i], ' '));
            }
            lemma_split_join(words, ' ');
        },
        STYLES::URI => {
            lemma_full_words_are_letters(payload);
            assert forall|i: int| 0 <= i < words.len() implies is_free_of(
                #[trigger] words[i],
                '-',
            ) by {
                assert(is_free_of(full_words(payload)[i], '-'));
            }
            lemma_split_join(words, '-');
        },
        STYLES::MINIMAL => {
            lemma_pairs_join(words);
        },
    }
}

/// Full words are made of four lowercase letters, so no other character occurs in them.
pub proof fn lemma_full_words_are_letters(payload: Seq<u8>)
    ensures
        forall|i: int, j: int|
            0 <= i < payload.len() && 0 <= j < 4 ==> is_letter(
                #[trigger] full_words(payload)[i][j],
            ),
        forall|i: int| 0 <= i < payload.len() ==> (#[trigger] full_words(payload)[i]).len() == 4,
        forall|i: int, c: char|
            0 <= i < payload.len() && !is_letter(c) ==> #[trigger] is_free_of(
                full_words(payload)[i],
                c,
            ),
{
    lemma_dictionary();
    assert forall|i: int, j: int| 0 <= i < payload.len() && 0 <= j < 4 implies is_letter(
        #[trigger] full_words(payload)[i][j],
    ) by {
        assert(full_words(payload)[i][j] == WORDS@[4 * payload[i] + j]);
    }
}

/// The first token that fails decides the error.
pub proof fn lemma_first_failure(tokens: Seq<Seq<char>>, word_length: int, i: int)
    requires
        0 <= i < tokens.len(),
        decode_word_spec(tokens[i], word_length) is Err,
        forall|j: int| 0 <= j < i ==> decode_word_spec(#[trigger] tokens[j], word_length) is Ok,
    ensures
        decode_words_spec(tokens, word_length) == Err::<Seq<u8>, DecodeError>(
            decode_word_spec(tokens[i], word_length)->Err_0,
        ),
    decreases tokens.len(),
{
    let front = tokens.drop_last();
    if i == tokens.len() - 1 {
        let bytes = Seq::new(
            front.len(),
            |j: int| decode_word_spec(tokens[j], word_length)->Ok_0,
        );
        assert forall|j: int| 0 <= j < front.len() implies decode_word_spec(
            #[trigger] front[j],
            word_length,
        ) == Ok::<u8, DecodeError>(bytes[j]) by {
            assert(front[j] == tokens[j]);
        }
        lemma_all_words_decoded(front, word_length, bytes);
    } else {
        assert(front[i] == tokens[i]);
        assert forall|j: int| 0 <= j < i implies decode_word_spec(
            #[trigger] front[j],
            word_length,
        ) is Ok by {
            assert(front[j] == tokens[j]);
        }
        lemma_first_failure(front, word_length, i);
    }
}

/// One token that fails makes the whole text fail.
pub proof fn lemma_one_word_fails(tokens: Seq<Seq<char>>, word_length: int, i: int)
    requires
        0 <= i < tokens.len(),
        decode_word_spec(tokens[i], word_length) is Err,
    ensures
        decode_words_spec(tokens, word_length) is Err,
{
    if decode_words_spec(tokens, word_length) is Ok {
        lemma_decoded_words(tokens, word_length);
    }
}

/// Style independence: a text that was encoded in one style is refused when it is
/// decoded in another.
pub proof fn lemma_style_mismatch(message: Seq<u8>, written: STYLES, read: STYLES)
    requires
        written != read,
    ensures
        decode_spec(encode_spec(message, written), read) is Err,
{
    lemma_dictionary();
    let payload = with_crc(message, crc32(message));
    let words = words_of(payload, written);
    let text = encode_payload_spec(payload, written);
    assert(payload.len() >= 4);
    lemma_full_words_are_letters(payload);
    lemma_minimal_words_are_letters(payload);
    match read {
        STYLES::MINIMAL => {
            // The third pair of characters begins with the separator.
            let separator = separator_of(written);
            let rest = words.skip(1);
            lemma_join_first(words, separator);
            assert forall|i: int| 0 <= i < rest.len() implies (#[trigger] rest[i]).len() == 4 by {
                assert(rest[i] == full_words(payload)[i + 1]);
            }
            lemma_join_len(rest, separator, 4);
            assert(rest.len() * 4 + (rest.len() - 1) * separator.len() >= 4) by (nonlinear_arith)
                requires
                    rest.len() >= 1,
                    separator.len() >= 0,
            ;
            assert(words[0].len() == 4);
            assert(text.len() >= 9);
            assert(text[4] == separator[0]);
            let token = pairs(text)[2];
            assert(token.len() == 2);
            assert(token[0] == text[4]);
            assert(decode_word_spec(token, 2) is Err);
            lemma_one_word_fails(pairs(text), 2, 2);
        },
        _ => {
            // The text holds no separator of the style it is read in, so it is one
            // token, and longer than a word.
            let c = if read == STYLES::STANDARD {
                ' '
            } else {
                '-'
            };
            assert forall|i: int| 0 <= i < words.len() implies is_free_of(
                #[trigger] words[i],
                c,
            ) by {
                assert(is_free_of(full_words(payload)[i], c));
                assert(is_free_of(minimal_words(payload)[i], c));
            }
            lemma_join_free_of(words, separator_of(written), c);
            lemma_split_plain(text, c);
            lemma_encoded_length(payload, written);
            assert(text.len() >= 8);
            assert(decode_word_spec(text, 4) is Err);
            lemma_one_word_fails(seq![text], 4, 0);
        },
    }
}

/// The length of an encoded text. A payload of n bytes, n being at least one, is written
/// in 5 n - 1 characters in the styles with full words and in 2 n characters, an even
/// number, in the minimal style.
pub proof fn lemma_encoded_length(payload: Seq<u8>, style: STYLES)
    requires
        payload.len() >= 1,
    ensures
        style == STYLES::MINIMAL ==> encode_payload_spec(payload, style).len() == 2
            * payload.len(),
        style != STYLES::MINIMAL ==> encode_payload_spec(payload, style).len() == 5
            * payload.len() - 1,
{
    lemma_full_words_are_letters(payload);
    lemma_minimal_words_are_letters(payload);
    let words = words_of(payload, style);
    let n = words.len();
    match style {
        STYLES::MINIMAL => {
            lemma_join_len(words, separator_of(style), 2);
            assert(n * 2 + (n - 1) * 0 == 2 * n) by (nonlinear_arith);
        },
        _ => {
            lemma_join_len(words, separator_of(style), 4);
            assert(n * 4 + (n - 1) * 1 == 5 * n - 1) by (nonlinear_arith);
        },
    }
}

/// Minimal words are made of two lowercase letters, so no other character occurs in them.
pub proof fn lemma_minimal_words_are_letters(payload: Seq<u8>)
    ensures
        forall|i: int|
            0 <= i < payload.len() ==> (#[trigger] minimal_words(payload)[i]).len() == 2,
        forall|i: int, c: char|
            0 <= i < payload.len() && !is_letter(c) ==> #[trigger] is_free_of(
                minimal_words(payload)[i],
                c,
            ),
{
    lemma_dictionary();
    assert forall|i: int, c: char| 0 <= i < payload.len() && !is_letter(c) implies #[trigger] is_free_of(
        minimal_words(payload)[i],
        c,
    ) by {
        let word = minimal_words(payload)[i];
        assert(word[0] == WORDS@[4 * payload[i] as int]);
        assert(word[1] == WORDS@[4 * payload[i] + 3]);
    }
}

/// A token is resolved by its lowercase form alone.
pub proof fn lemma_word_same_but_case(a: Seq<char>, b: Seq<char>, word_length: int)
    requires
        same_but_case(a, b),
        word_length == 4 || word_length == 2,
    ensures
        decode_word_spec(a, word_length) == decode_word_spec(b, word_length),
{
}

/// Tokens are resolved by their lowercase forms alone.
pub proof fn lemma_words_same_but_case(a: Seq<Seq<char>>, b: Seq<Seq<char>>, word_length: int)
    requires
        same_tokens_but_case(a, b),
        word_length == 4 || word_length == 2,
    ensures
        decode_words_spec(a, word_length) == decode_words_spec(b, word_length),
    decreases a.len(),
{
    if a.len() > 0 {
        assert forall|i: int| 0 <= i < a.drop_last().len() implies same_but_case(
            #[trigger] a.drop_last()[i],
            b.drop_last()[i],
        ) by {
            assert(same_but_case(a[i], b[i]));
        }
        lemma_words_same_but_case(a.drop_last(), b.drop_last(), word_length);
        assert(same_but_case(a.last(), b.last()));
        lemma_word_same_but_case(a.last(), b.last(), word_length);
    }
}

/// Case insensitivity: two texts that differ at most in the case of their letters are
/// decoded alike, to the same message or with the same error.
pub proof fn lemma_case_insensitive(text: Seq<char>, other: Seq<char>, style: STYLES)
    requires
        same_but_case(text, other),
    ensures
        decode_spec(text, style) == decode_spec(other, style),
{
    match style {
        STYLES::STANDARD => {
            lemma_split_same_but_case(text, other, ' ');
        },
        STYLES::URI => {
            lemma_split_same_but_case(text, other, '-');
        },
        STYLES::MINIMAL => {
            lemma_pairs_same_but_case(text, other);
        },
    }
    lemma_words_same_but_case(
        tokens_of(text, style),
        tokens_of(other, style),
        word_length_of(style),
    );
}

/// Case insensitivity: a text with all its letters made capitals is decoded as the text
/// itself.
pub proof fn lemma_uppercase_decodes_alike(text: Seq<char>, style: STYLES)
    ensures
        decode_spec(uppercase(text), style) == decode_spec(text, style),
{
    lemma_uppercase_same(text);
    lemma_case_insensitive(uppercase(text), text, style);
}

/// The guard of the full words: a token of four letters that begins and ends as the
/// word of a byte value, and whose interior letters are not those of that word, is
/// refused as inconsistent.
pub proof fn lemma_inconsistent_word(token: Seq<char>, value: u8)
    requires
        token.len() == 4,
        lower(token[0]) == word_at(value as int)[0],
        lower(token[3]) == word_at(value as int)[3],
        lower(token[1]) != word_at(value as int)[1] || lower(token[2]) != word_at(
            value as int,
        )[2],
    ensures
        decode_word_spec(token, 4) == Err::<u8, DecodeError>(DecodeError::InconsistentWord),
{
    lemma_dictionary();
    assert(is_letter(WORDS@[4 * value as int]));
    assert(is_letter(WORDS@[4 * value + 3]));
    lemma_lookup_unique(value as int, lower(token[0]), lower(token[3]));
}

/// A token of the right number of letters that begins and ends with letters with which
/// no word of the dictionary begins and ends is refused as unknown.
pub proof fn lemma_unknown_word(token: Seq<char>, word_length: int)
    requires
        word_length == 4 || word_length == 2,
        token.len() == word_length,
        is_letter(lower(token[0])),
        is_letter(lower(token[word_length - 1])),
        lookup(lower(token[0]), lower(token[word_length - 1])) is None,
    ensures
        decode_word_spec(token, word_length) == Err::<u8, DecodeError>(DecodeError::UnknownWord),
{
}

/// Too short a text: a text in the minimal style of fewer than ten characters is never
/// decoded, and where each of its tokens stands for a byte, it is refused as too short.
pub proof fn lemma_short_minimal_text(text: Seq<char>)
    requires
        text.len() < 10,
    ensures
        decode_spec(text, STYLES::MINIMAL) is Err,
        decode_words_spec(pairs(text), 2) is Ok ==> decode_spec(text, STYLES::MINIMAL) == Err::<
            Seq<u8>,
            DecodeError,
        >(DecodeError::TooShort),
{
    let tokens = pairs(text);
    if decode_words_spec(tokens, 2) is Ok {
        lemma_decoded_words(tokens, 2);
        if tokens.len() == 5 {
            assert(tokens[4].len() == 1);
            assert(decode_word_spec(tokens[4], 2) is Err);
        }
    }
}

/// Too short a payload: decoded bytes that are fewer than five are refused whatever
/// they are, in every style.
pub proof fn lemma_short_payload(text: Seq<char>, style: STYLES)
    requires
        decode_words_spec(tokens_of(text, style), word_length_of(style)) matches Ok(payload)
            && payload.len() < 5,
    ensures
        decode_spec(text, style) == Err::<Seq<u8>, DecodeError>(DecodeError::TooShort),
{
}

/// Checksum sensitivity, as far as it does not rest on the checksum function itself.
/// Take a message with its checksum and change any of the bytes, keeping their number.
/// The result is never accepted as the message. Where only checksum bytes were changed,
/// it is refused for its checksum. Where only message bytes were changed, it is refused
/// for its checksum unless the changed message has the same checksum as the message
/// had before.
pub proof fn lemma_damaged_payload(message: Seq<u8>, damaged: Seq<u8>)
    requires
        message.len() >= 1,
        damaged.len() == message.len() + 4,
        damaged != with_crc(message, crc32(message)),
    ensures
        strip_crc_spec(damaged) != Ok::<Seq<u8>, DecodeError>(message),
        damaged.take(message.len() as int) == message ==> strip_crc_spec(damaged) == Err::<
            Seq<u8>,
            DecodeError,
        >(DecodeError::ChecksumMismatch),
        damaged.skip(message.len() as int) == be_bytes(crc32(message)) && crc32(
            damaged.take(message.len() as int),
        ) != crc32(message) ==> strip_crc_spec(damaged) == Err::<Seq<u8>, DecodeError>(
            DecodeError::ChecksumMismatch,
        ),
{
    let body = damaged.take(message.len() as int);
    let tail = damaged.skip(message.len() as int);
    if body == message && tail == be_bytes(crc32(message)) {
        assert(damaged =~= with_crc(message, crc32(message)));
    }
    if tail == be_bytes(crc32(message)) && tail == be_bytes(crc32(body)) {
        lemma_be_bytes_injective(crc32(body), crc32(message));
    }
}

} // verus!
