//! Morse code for the letters and digits of ASCII: the code table, the lookup
//! tree that decodes a code with one array access, and the transcoding of
//! whole messages in both directions.

pub mod decode;
pub mod encode;
pub mod error;
pub mod round_trip;
pub mod table;
pub mod text;
pub mod tree;

pub use crate::decode::{decode_character, decode_message, decode_word_into};
pub use crate::encode::{encode_byte, encode_message};
pub use crate::error::{DecodeError, EncodeError};
pub use crate::table::{DECODING_ARRAY, ENCODED_SEQUENCES, NO_SYMBOL};
pub use crate::tree::character_index;
