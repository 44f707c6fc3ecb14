use crate::base16::{from_hex, hex_digits, hex_to_bytes, is_hex, to_hex};
use crate::checksum::{be_bytes, crc32, crc_bytes};
use crate::dictionary::{
    get_minimal_word, get_word, is_letter, lemma_dictionary, lookup, minimal_word_at, word_at,
    LookupTable, BYTEWORD_LENGTH, MINIMAL_BYTEWORD_LENGTH, WORDS,
};
use crate::text::{
    chars_of, join, lower, pair_chars, pairs, split, split_chars, to_lower, token_views,
};
use vstd::prelude::*;
use vstd::slice::slice_to_vec;

verus! {

/// How an encoded text is written.
#[derive(Debug, Clone, Copy, PartialEq, Eq, Structural)]
pub enum STYLES {
    /// Full words, separated by a space.
    STANDARD,
    /// Full words, separated by a hyphen.
    URI,
    /// Minimal words, with nothing between them.
    MINIMAL,
}

/// Why a text could not be decoded.
#[derive(Debug, Clone, Copy, PartialEq, Eq, Structural)]
pub enum DecodeError {
    /// A token has not the number of letters that the style asks for.
    MalformedWord,
    /// The first or the last character of a token is no letter.
    InvalidWordLetters,
    /// No word of the dictionary has the token's first and last letter.
    UnknownWord,
    /// The interior letters of a token are not those of the word that it begins and ends as.
    InconsistentWord,
    /// The decoded bytes are too few to hold a payload and its checksum.
    TooShort,
    /// The checksum at the end of the decoded bytes is not that of the bytes before it.
    ChecksumMismatch,
}

/// Why a payload could not be encoded.
#[derive(Debug, Clone, Copy, PartialEq, Eq, Structural)]
pub enum EncodeError {
    /// The payload was given as text that is not hexadecimal.
    InvalidInputEncoding,
}

/// The style that is meant where none is named.
pub open spec fn style_or_default(style: Option<STYLES>) -> STYLES {
    match style {
        Some(style) => style,
        None => STYLES::MINIMAL,
    }
}

/// The number of letters of a token in a style.
pub open spec fn word_length_of(style: STYLES) -> int {
    match style {
        STYLES::MINIMAL => 2,
        _ => 4,
    }
}

/// What stands between two words in a style.
pub open spec fn separator_of(style: STYLES) -> Seq<char> {
    match style {
        STYLES::STANDARD => seq![' '],
        STYLES::URI => seq!['-'],
        STYLES::MINIMAL => Seq::empty(),
    }
}

/// The full words for the bytes of a payload.
pub open spec fn full_words(payload: Seq<u8>) -> Seq<Seq<char>> {
    Seq::new(payload.len(), |i: int| word_at(payload[i] as int))
}

/// The minimal words for the bytes of a payload.
pub open spec fn minimal_words(payload: Seq<u8>) -> Seq<Seq<char>> {
    Seq::new(payload.len(), |i: int| minimal_word_at(payload[i] as int))
}

/// The words that a style writes for the bytes of a payload.
pub open spec fn words_of(payload: Seq<u8>, style: STYLES) -> Seq<Seq<char>> {
    match style {
        STYLES::MINIMAL => minimal_words(payload),
        _ => full_words(payload),
    }
}

/// A message followed by the four bytes of a checksum.
pub open spec fn with_crc(message: Seq<u8>, crc: u32) -> Seq<u8> {
    message + be_bytes(crc)
}

/// The text for a payload that already ends in its checksum.
pub open spec fn encode_payload_spec(payload: Seq<u8>, style: STYLES) -> Seq<char> {
    join(words_of(payload, style), separator_of(style))
}

/// The encoded text of a message: the words for its bytes and for the bytes of its
/// CRC-32 checksum, joined as the style asks.
pub open spec fn encode_spec(message: Seq<u8>, style: STYLES) -> Seq<char> {
    encode_payload_spec(with_crc(message, crc32(message)), style)
}

/// The tokens of an encoded text: in the styles with full words the pieces between the
/// separators, in the minimal style the consecutive pairs of characters.
pub open spec fn tokens_of(text: Seq<char>, style: STYLES) -> Seq<Seq<char>> {
    match style {
        STYLES::STANDARD => split(text, ' '),
        STYLES::URI => split(text, '-'),
        STYLES::MINIMAL => pairs(text),
    }
}

/// The byte value that a token of `word_length` letters stands for, or the reason why it
/// stands for none. The checks are made in this order: the number of letters, the first
/// and the last letter, the dictionary, and for a full word its interior letters.
/// Capitals count as their lowercase letters.
pub open spec fn decode_word_spec(word: Seq<char>, word_length: int) -> Result<u8, DecodeError> {
    if word.len() != word_length {
        Err(DecodeError::MalformedWord)
    } else {
        let first = lower(word[0]);
        let last = lower(word[word_length - 1]);
        if !is_letter(first) || !is_letter(last) {
            Err(DecodeError::InvalidWordLetters)
        } else {
            match lookup(first, last) {
                None => Err(DecodeError::UnknownWord),
                Some(value) => {
                    let canonical = word_at(value as int);
                    if word_length == 4 && (lower(word[1]) != canonical[1] || lower(word[2])
                        != canonical[2]) {
                        Err(DecodeError::InconsistentWord)
                    } else {
                        Ok(value)
                    }
                },
            }
        }
    }
}

/// Resolves one token to the byte value it stands for.
pub fn decode_word(word: &[char], word_length: usize, table: &LookupTable) -> (decoded: Result<
    u8,
    DecodeError,
>)
    requires
        word_length == BYTEWORD_LENGTH || word_length == MINIMAL_BYTEWORD_LENGTH,
    ensures
        decoded == decode_word_spec(word@, word_length as int),
{
    if word_length != word.len() {
        return Err(DecodeError::MalformedWord);
    }
    let first = to_lower(word[0]);
    let last = to_lower(word[word_length - 1]);
    if !('a' <= first && first <= 'z' && 'a' <= last && last <= 'z') {
        return Err(DecodeError::InvalidWordLetters);
    }
    let value = match table.get(first, last) {
        Some(value) => value,
        None => {
            return Err(DecodeError::UnknownWord);
        },
    };
    if word_length == BYTEWORD_LENGTH {
        proof {
            lemma_dictionary();
        }
        let start = (value as usize) * BYTEWORD_LENGTH;
        let c1 = to_lower(word[1]);
        let c2 = to_lower(word[2]);
        if c1 != WORDS.get_ascii(start + 1) as char || c2 != WORDS.get_ascii(start + 2) as char {
            return Err(DecodeError::InconsistentWord);
        }
    }
    Ok(value)
}

/// The bytes that a sequence of tokens stands for, or the error of the first token that
/// stands for none.
pub open spec fn decode_words_spec(tokens: Seq<Seq<char>>, word_length: int) -> Result<
    Seq<u8>,
    DecodeError,
>
    decreases tokens.len(),
{
    if tokens.len() == 0 {
        Ok(Seq::empty())
    } else {
        match decode_words_spec(tokens.drop_last(), word_length) {
            Err(error) => Err(error),
            Ok(bytes) => match decode_word_spec(tokens.last(), word_length) {
                Err(error) => Err(error),
                Ok(value) => Ok(bytes.push(value)),
            },
        }
    }
}

/// The message of a payload whose last four bytes are `tail`, given the checksum `crc`
/// of the bytes before them.
pub open spec fn check_crc_spec(body: Seq<u8>, tail: Seq<u8>, crc: u32) -> Result<
    Seq<u8>,
    DecodeError,
> {
    if tail =~= be_bytes(crc) {
        Ok(body)
    } else {
        Err(DecodeError::ChecksumMismatch)
    }
}

/// A payload of five bytes or more, cut into the message and the four bytes after it.
pub open spec fn split_crc_spec(payload: Seq<u8>) -> Result<(Seq<u8>, Seq<u8>), DecodeError> {
    if payload.len() < 5 {
        Err(DecodeError::TooShort)
    } else {
        Ok((payload.take(payload.len() - 4), payload.skip(payload.len() - 4)))
    }
}

/// The message of a payload: the bytes before its last four, where those four are the
/// CRC-32 checksum of the bytes before them.
pub open spec fn strip_crc_spec(payload: Seq<u8>) -> Result<Seq<u8>, DecodeError> {
    match split_crc_spec(payload) {
        Err(error) => Err(error),
        Ok((body, tail)) => check_crc_spec(body, tail, crc32(body)),
    }
}

/// The message that an encoded text stands for. The tokens are resolved in order, and
/// the first that fails decides the error; the length and the checksum of the decoded
/// bytes are looked at only when every token has been resolved.
pub open spec fn decode_spec(text: Seq<char>, style: STYLES) -> Result<Seq<u8>, DecodeError> {
    match decode_words_spec(tokens_of(text, style), word_length_of(style)) {
        Err(error) => Err(error),
        Ok(payload) => strip_crc_spec(payload),
    }
}

/// The lowercase hexadecimal text of the message that an encoded text stands for.
pub open spec fn decode_hex_spec(text: Seq<char>, style: STYLES) -> Result<Seq<char>, DecodeError> {
    match decode_spec(text, style) {
        Err(error) => Err(error),
        Ok(message) => Ok(hex_digits(message)),
    }
}

/// The encoded text of a payload that is given as hexadecimal text.
pub open spec fn encode_hex_spec(payload: Seq<char>, style: STYLES) -> Result<
    Seq<char>,
    EncodeError,
> {
    if is_hex(payload) {
        Ok(encode_spec(hex_to_bytes(payload), style))
    } else {
        Err(EncodeError::InvalidInputEncoding)
    }
}

/// A result with its bytes taken by their view.
pub open spec fn bytes_result(decoded: Result<Vec<u8>, DecodeError>) -> Result<
    Seq<u8>,
    DecodeError,
> {
    match decoded {
        Ok(bytes) => Ok(bytes@),
        Err(error) => Err(error),
    }
}

/// A result with its two byte vectors taken by their views.
pub open spec fn parts_result(parts: Result<(Vec<u8>, Vec<u8>), DecodeError>) -> Result<
    (Seq<u8>, Seq<u8>),
    DecodeError,
> {
    match parts {
        Ok((body, tail)) => Ok((body@, tail@)),
        Err(error) => Err(error),
    }
}

/// A result with its text taken by its view.
pub open spec fn text_result<E>(text: Result<String, E>) -> Result<Seq<char>, E> {
    match text {
        Ok(text) => Ok(text@),
        Err(error) => Err(error),
    }
}

/// Once a token has failed, the tokens after it change nothing.
pub proof fn lemma_failure_stays(tokens: Seq<Seq<char>>, word_length: int, k: int)
    requires
        0 <= k <= tokens.len(),
        decode_words_spec(tokens.take(k), word_length) is Err,
    ensures
        decode_words_spec(tokens, word_length) == decode_words_spec(tokens.take(k), word_length),
    decreases tokens.len() - k,
{
    if k == tokens.len() {
        assert(tokens.take(k) =~= tokens);
    } else {
        assert(tokens.take(k + 1).drop_last() =~= tokens.take(k));
        lemma_failure_stays(tokens, word_length, k + 1);
    }
}

/// A message with the bytes of a checksum appended, most significant byte first.
pub fn append_crc(message: &[u8], crc: u32) -> (payload: Vec<u8>)
    ensures
        payload@ == with_crc(message@, crc),
{
    let mut payload = slice_to_vec(message);
    let mut tail = crc_bytes(crc);
    payload.append(&mut tail);
    payload
}

/// A message with its CRC-32 checksum appended.
pub fn add_crc(message: &[u8]) -> (payload: Vec<u8>)
    ensures
        payload@ == with_crc(message@, crc32(message@)),
{
    let crc = crc32fast::hash(message);
    append_crc(message, crc)
}

/// The full words for the bytes of a payload, with `separator` between them.
pub fn join_words(payload: &[u8], separator: &str) -> (text: String)
    ensures
        text@ == join(full_words(payload@), separator@),
{
    let mut text = String::new();
    let mut i: usize = 0;
    assert(full_words(payload@.take(0)) =~= Seq::empty());
    while i < payload.len()
        invariant
            i <= payload.len(),
            text@ == join(full_words(payload@.take(i as int)), separator@),
        decreases payload.len() - i,
    {
        let word = get_word(payload[i] as usize);
        let ghost before = full_words(payload@.take(i as int));
        let ghost after = full_words(payload@.take(i + 1));
        assert(after.drop_last() =~= before);
        assert(after.last() == word@);
        if i > 0 {
            text.append(separator);
        }
        text.append(word.as_str());
        assert(text@ =~= join(after, separator@));
        i += 1;
    }
    assert(payload@.take(i as int) =~= payload@);
    text
}

/// The minimal words for the bytes of a payload, with nothing between them.
pub fn join_minimal_words(payload: &[u8]) -> (text: String)
    ensures
        text@ == join(minimal_words(payload@), Seq::empty()),
{
    let mut text = String::new();
    let mut i: usize = 0;
    assert(minimal_words(payload@.take(0)) =~= Seq::empty());
    while i < payload.len()
        invariant
            i <= payload.len(),
            text@ == join(minimal_words(payload@.take(i as int)), Seq::empty()),
        decreases payload.len() - i,
    {
        let word = get_minimal_word(payload[i] as usize);
        let ghost before = minimal_words(payload@.take(i as int));
        let ghost after = minimal_words(payload@.take(i + 1));
        assert(after.drop_last() =~= before);
        assert(after.last() == word@);
        text.append(word.as_str());
        assert(text@ =~= join(after, Seq::empty()));
        i += 1;
    }
    assert(payload@.take(i as int) =~= payload@);
    text
}

/// Encodes a message in full words: its bytes and those of its checksum, one word each,
/// with `separator` between the words.
pub fn encode_with_separator(message: &[u8], separator: &str) -> (text: String)
    ensures
        text@ == join(full_words(with_crc(message@, crc32(message@))), separator@),
{
    let payload = add_crc(message);
    join_words(payload.as_slice(), separator)
}

/// Encodes a message in minimal words: its bytes and those of its checksum, two letters
/// each, with nothing between them.
pub fn encode_minimal(message: &[u8]) -> (text: String)
    ensures
        text@ == encode_spec(message@, STYLES::MINIMAL),
{
    let payload = add_crc(message);
    join_minimal_words(payload.as_slice())
}

/// Encodes a message in a style.
pub fn _encode(message: &[u8], style: STYLES) -> (text: String)
    ensures
        text@ == encode_spec(message@, style),
{
    proof {
        reveal_strlit(" ");
        reveal_strlit("-");
        assert(" "@ =~= seq![' ']);
        assert("-"@ =~= seq!['-']);
    }
    match style {
        STYLES::STANDARD => encode_with_separator(message, " "),
        STYLES::URI => encode_with_separator(message, "-"),
        STYLES::MINIMAL => encode_minimal(message),
    }
}

/// Encodes a payload that is given as hexadecimal text. Where no style is named, the
/// minimal style is used.
pub fn encode(string: String, style: Option<STYLES>) -> (encoded: Result<String, EncodeError>)
    ensures
        text_result(encoded) == encode_hex_spec(string@, style_or_default(style)),
{
    let message = match from_hex(string.as_str()) {
        Ok(message) => message,
        Err(_) => {
            return Err(EncodeError::InvalidInputEncoding);
        },
    };
    let style = match style {
        Some(style) => style,
        None => STYLES::MINIMAL,
    };
    Ok(_encode(message.as_slice(), style))
}

/// Resolves the tokens of an encoded text to the bytes they stand for, checksum included.
pub fn decode_words(text: &str, style: STYLES) -> (decoded: Result<Vec<u8>, DecodeError>)
    ensures
        bytes_result(decoded) == decode_words_spec(
            tokens_of(text@, style),
            word_length_of(style),
        ),
{
    let chars = chars_of(text);
    let tokens = match style {
        STYLES::STANDARD => split_chars(chars.as_slice(), ' '),
        STYLES::URI => split_chars(chars.as_slice(), '-'),
        STYLES::MINIMAL => pair_chars(chars.as_slice()),
    };
    let word_length = match style {
        STYLES::MINIMAL => MINIMAL_BYTEWORD_LENGTH,
        _ => BYTEWORD_LENGTH,
    };
    let table = LookupTable::new();
    let mut payload: Vec<u8> = Vec::new();
    let mut i: usize = 0;
    let ghost all = token_views(tokens@);
    assert(all.take(0) =~= Seq::empty());
    while i < tokens.len()
        invariant
            i <= tokens.len(),
            all == token_views(tokens@),
            all == tokens_of(text@, style),
            word_length == word_length_of(style),
            decode_words_spec(all.take(i as int), word_length as int) == Ok::<
                Seq<u8>,
                DecodeError,
            >(payload@),
        decreases tokens.len() - i,
    {
        assert(all.take(i + 1).drop_last() =~= all.take(i as int));
        assert(all.take(i + 1).last() == tokens@[i as int]@);
        match decode_word(tokens[i].as_slice(), word_length, &table) {
            Ok(value) => {
                payload.push(value);
            },
            Err(error) => {
                proof {
                    lemma_failure_stays(all, word_length as int, i + 1);
                }
                return Err(error);
            },
        }
        i += 1;
    }
    assert(all.take(i as int) =~= all);
    Ok(payload)
}

/// Cuts a decoded payload into the message and the four checksum bytes after it.
pub fn split_crc(payload: Vec<u8>) -> (parts: Result<(Vec<u8>, Vec<u8>), DecodeError>)
    ensures
        parts_result(parts) == split_crc_spec(payload@),
{
    if payload.len() < 5 {
        return Err(DecodeError::TooShort);
    }
    let mut body = payload;
    let at = body.len() - 4;
    let tail = body.split_off(at);
    Ok((body, tail))
}

/// Hands out the message where the four bytes that followed it are those of `crc`.
pub fn check_crc(body: Vec<u8>, tail: &[u8], crc: u32) -> (checked: Result<
    Vec<u8>,
    DecodeError,
>)
    ensures
        bytes_result(checked) == check_crc_spec(body@, tail@, crc),
{
    let expected = crc_bytes(crc);
    if tail.len() != 4 {
        return Err(DecodeError::ChecksumMismatch);
    }
    let mut i: usize = 0;
    while i < 4
        invariant
            i <= 4,
            tail@.len() == 4,
            expected@ == be_bytes(crc),
            forall|j: int| 0 <= j < i ==> tail@[j] == expected@[j],
        decreases 4 - i,
    {
        if tail[i] != expected[i] {
            return Err(DecodeError::ChecksumMismatch);
        }
        i += 1;
    }
    assert(tail@ =~= be_bytes(crc));
    Ok(body)
}

/// Decodes an encoded text to the message it stands for.
pub fn _decode(text: &str, style: STYLES) -> (decoded: Result<Vec<u8>, DecodeError>)
    ensures
        bytes_result(decoded) == decode_spec(text@, style),
{
    let payload = match decode_words(text, style) {
        Ok(payload) => payload,
        Err(error) => {
            return Err(error);
        },
    };
    let (body, tail) = match split_crc(payload) {
        Ok(parts) => parts,
        Err(error) => {
            return Err(error);
        },
    };
    let crc = crc32fast::hash(body.as_slice());
    check_crc(body, tail.as_slice(), crc)
}

/// Decodes an encoded text and gives the message as lowercase hexadecimal text. Where
/// no style is named, the minimal style is used.
pub fn decode(string: String, style: Option<STYLES>) -> (decoded: Result<String, DecodeError>)
    ensures
        text_result(decoded) == decode_hex_spec(string@, style_or_default(style)),
{
    let style = match style {
        Some(style) => style,
        None => STYLES::MINIMAL,
    };
    match _decode(string.as_str(), style) {
        Ok(message) => Ok(to_hex(message.as_slice())),
        Err(error) => Err(error),
    }
}

} // verus!
