//! What encoding and decoding fail with.

use vstd::prelude::*;

verus! {

/// Why a character could not be encoded.
#[derive(Debug, Clone, Copy, PartialEq, Eq)]
pub enum EncodeError {
    /// The character is neither a letter nor a digit of ASCII, so the table
    /// has no code for it.
    Unsupported(char),
}

/// Why a message in code could not be decoded.
#[derive(Debug, PartialEq, Eq)]
pub enum DecodeError {
    /// The token is not one of the codes of the table.
    InvalidCode(String),
}

} // verus!
