//! From plain text to code.

use crate::error::EncodeError;
use crate::table::{code_of, is_symbol, ENCODED_SEQUENCES, LETTER_COUNT};
use crate::text::{chars_of, push_char, trim, trim_chars, SPACE, WORD_SEPARATOR};
use vstd::prelude::*;
use vstd::string::StringExecFns;

verus! {

/// The code of the letter or digit `u` of ASCII, the same for a letter in
/// either case. Any other byte is refused with `Unsupported`.
pub fn encode_byte(u: u8) -> (r: Result<&'static str, EncodeError>)
    ensures
        match r {
            Ok(code) => is_symbol(u as char) && code@ == code_of(u as char),
            Err(e) => !is_symbol(u as char) && e == EncodeError::Unsupported(u as char),
        },
{
    if 'a' as u8 <= u && u <= 'z' as u8 {
        Ok(ENCODED_SEQUENCES[(u - 'a' as u8) as usize])
    } else if 'A' as u8 <= u && u <= 'Z' as u8 {
        Ok(ENCODED_SEQUENCES[(u - 'A' as u8) as usize])
    } else if '0' as u8 <= u && u <= '9' as u8 {
        Ok(ENCODED_SEQUENCES[(u - '0' as u8) as usize + LETTER_COUNT])
    } else {
        Err(EncodeError::Unsupported(u as char))
    }
}

/// Whether `c` is a letter or a digit of ASCII.
pub fn symbol(c: char) -> (b: bool)
    ensures
        b == is_symbol(c),
{
    ('a' <= c && c <= 'z') || ('A' <= c && c <= 'Z') || ('0' <= c && c <= '9')
}

/// Whether a message keeps `c` when it is encoded: spaces, which part words,
/// and the characters that have a code. Every other character is dropped.
pub open spec fn is_kept(c: char) -> bool {
    c == SPACE || is_symbol(c)
}

/// The characters of `text` that encoding keeps, in their order.
pub open spec fn kept(text: Seq<char>) -> Seq<char> {
    text.filter(|c: char| is_kept(c))
}

/// Whether `text` is a text that has a code: it holds nothing but characters
/// that encoding keeps, and does not begin with a space.
pub open spec fn is_plain(text: Seq<char>) -> bool {
    &&& forall|i: int| 0 <= i < text.len() ==> is_kept(#[trigger] text[i])
    &&& text.len() > 0 ==> text[0] != SPACE
}

/// What a character after the first adds to the code of a message: a space
/// and the character's code, or, for a space, a space and the word separator.
pub open spec fn piece(c: char) -> Seq<char> {
    if c == SPACE {
        seq![SPACE, WORD_SEPARATOR]
    } else {
        seq![SPACE] + code_of(c)
    }
}

/// The code of `text`, where `is_plain(text)`: the code of its first
/// character, then the piece of each character that follows.
pub open spec fn encoded(text: Seq<char>) -> Seq<char>
    decreases text.len(),
{
    if text.len() == 0 {
        Seq::empty()
    } else if text.len() == 1 {
        code_of(text[0])
    } else {
        encoded(text.drop_last()) + piece(text.last())
    }
}

/// Keeping goes character by character: a character at the end is kept or
/// dropped whatever stands before it.
pub proof fn lemma_kept_push(text: Seq<char>, c: char)
    ensures
        kept(text.push(c)) == if is_kept(c) {
            kept(text).push(c)
        } else {
            kept(text)
        },
{
    reveal(Seq::filter);
    assert(text.push(c).drop_last() =~= text);
}

/// The characters of `text` that encoding keeps.
fn keep(text: &[char]) -> (chars: Vec<char>)
    ensures
        chars@ == kept(text@),
        forall|i: int| 0 <= i < chars@.len() ==> is_kept(#[trigger] chars@[i]),
{
    let mut chars: Vec<char> = Vec::new();
    let mut i: usize = 0;
    proof {
        reveal(Seq::filter);
    }
    while i < text.len()
        invariant
            0 <= i <= text.len(),
            chars@ == kept(text@.take(i as int)),
            forall|j: int| 0 <= j < chars@.len() ==> is_kept(#[trigger] chars@[j]),
        decreases text.len() - i,
    {
        let c = text[i];
        proof {
            assert(text@.take(i + 1) =~= text@.take(i as int).push(c));
            lemma_kept_push(text@.take(i as int), c);
        }
        if c == SPACE || symbol(c) {
            chars.push(c);
        }
        i += 1;
    }
    assert(text@.take(i as int) =~= text@);
    chars
}

/// The code of `text`, of which every character is a kept one. A text that
/// begins with a space is refused: a separator follows the code of a word,
/// and there is none before it.
fn encode_kept(text: &[char]) -> (r: Result<String, EncodeError>)
    requires
        forall|i: int| 0 <= i < text@.len() ==> is_kept(#[trigger] text@[i]),
    ensures
        match r {
            Ok(code) => is_plain(text@) && code@ == encoded(text@),
            Err(e) => text@.len() > 0 && text@[0] == SPACE && e == EncodeError::Unsupported(
                SPACE,
            ),
        },
{
    let mut buf = String::new();
    if text.len() == 0 {
        return Ok(buf);
    }
    buf.append(encode_byte(text[0] as u8)?);
    let mut i: usize = 1;
    while i < text.len()
        invariant
            1 <= i <= text.len(),
            forall|j: int| 0 <= j < text@.len() ==> is_kept(#[trigger] text@[j]),
            buf@ == encoded(text@.take(i as int)),
        decreases text.len() - i,
    {
        let c = text[i];
        if c == SPACE {
            push_char(&mut buf, SPACE);
            push_char(&mut buf, WORD_SEPARATOR);
        } else {
            push_char(&mut buf, SPACE);
            buf.append(encode_byte(c as u8)?);
        }
        proof {
            assert(text@.take(i + 1).drop_last() =~= text@.take(i as int));
        }
        i += 1;
    }
    assert(text@.take(i as int) =~= text@);
    Ok(buf)
}

/// The code of a message in plain text. The white space that the message
/// begins and ends with is left out, then every character that is neither a
/// space nor a letter or digit of ASCII. What is left is encoded character by
/// character: the codes of a word stand one space apart, and each space of
/// the message becomes a word separator, set off by a space from the code
/// before it.
///
/// Where what is left begins with a space, which happens when characters were
/// dropped in front of it, there is no code for the separator to follow and
/// the message is refused with `Unsupported(' ')`.
pub fn encode_message(message: &str) -> (r: Result<String, EncodeError>)
    ensures
        ({
            let text = kept(trim(message@));
            match r {
                Ok(code) => is_plain(text) && code@ == encoded(text),
                Err(e) => text.len() > 0 && text[0] == SPACE && e == EncodeError::Unsupported(
                    SPACE,
                ),
            }
        }),
{
    let chars = chars_of(message);
    let text = keep(trim_chars(chars.as_slice()));
    encode_kept(text.as_slice())
}

} // verus!
