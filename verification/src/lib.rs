//! Bytewords: a text encoding of binary data that can be read aloud and copied by hand.
//! Every byte is written as a word of four letters, or as the first and last letter of
//! that word, and a CRC-32 checksum at the end of the payload shows where a text was
//! copied wrongly.

pub mod base16;
pub mod bytewords;
pub mod checksum;
pub mod dictionary;
pub mod fountain_decoder;
pub mod laws;
pub mod text;
pub mod ur;
pub mod ur_decoder;
pub mod utils;
