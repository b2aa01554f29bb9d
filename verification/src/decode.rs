//! From code to plain text.

use crate::error::DecodeError;
use crate::table::{is_code, lemma_tree_decodes, symbol_of, DECODING_ARRAY, NO_SYMBOL};
use crate::text::{
    chars_of, is_whitespace, lemma_tokens_after_blank, lemma_tokens_from, lemma_words_from,
    push_char, string_of, tokens, trim, trim_chars, whitespace, words, SPACE, WORD_SEPARATOR,
};
use crate::tree::{character_index, index_of, is_marks, lemma_index_in_range, TREE_SLOTS};
use vstd::prelude::*;
use vstd::slice::slice_subrange;

verus! {

/// The symbol that the decoding array holds at `node`, if it holds one.
fn symbol_in(node: usize) -> (symbol: Option<u8>)
    requires
        node < TREE_SLOTS,
    ensures
        symbol == if DECODING_ARRAY[node as int] != NO_SYMBOL {
            Some(DECODING_ARRAY[node as int])
        } else {
            None
        },
{
    let symbol = DECODING_ARRAY[node];
    if symbol != NO_SYMBOL {
        Some(symbol)
    } else {
        None
    }
}

/// The symbol that `code` stands for, if it is a code of the table.
pub fn decode_chars(code: &[char]) -> (symbol: Option<u8>)
    ensures
        symbol == symbol_of(code@),
{
    proof {
        lemma_tree_decodes(code@);
        if is_marks(code@) {
            lemma_index_in_range(code@);
        }
    }
    match index_of(code) {
        Some(node) => if node < TREE_SLOTS {
            symbol_in(node)
        } else {
            None
        },
        None => None,
    }
}

/// The symbol that `character` stands for: an upper-case letter or a digit of
/// ASCII. Anything that is not one of the codes of the table is refused with
/// `InvalidCode`, which holds it: the empty string, a string with a character
/// that is no mark, a sequence of marks that no symbol has.
pub fn decode_character(character: &str) -> (r: Result<u8, DecodeError>)
    ensures
        match r {
            Ok(symbol) => symbol_of(character@) == Some(symbol),
            Err(DecodeError::InvalidCode(token)) => symbol_of(character@) is None && token@
                == character@,
        },
{
    proof {
        lemma_tree_decodes(character@);
        if is_marks(character@) {
            lemma_index_in_range(character@);
        }
    }
    let stored = match character_index(character) {
        Some(node) => if node < TREE_SLOTS {
            symbol_in(node)
        } else {
            None
        },
        None => None,
    };
    match stored {
        Some(symbol) => Ok(symbol),
        None => Err(DecodeError::InvalidCode(character.to_owned())),
    }
}

/// How many of `tokens` are codes before the first that is none: all of
/// them, where each is a code.
pub open spec fn leading_codes(tokens: Seq<Seq<char>>) -> nat
    decreases tokens.len(),
{
    if tokens.len() > 0 && is_code(tokens[0]) {
        1 + leading_codes(tokens.drop_first())
    } else {
        0
    }
}

/// The character that `code` stands for.
pub open spec fn symbol_char(code: Seq<char>) -> char {
    symbol_of(code).unwrap() as char
}

/// The characters that `tokens` stand for, each of which is a code.
pub open spec fn decoded(tokens: Seq<Seq<char>>) -> Seq<char> {
    tokens.map_values(|code: Seq<char>| symbol_char(code))
}

/// The tokens before `count` are codes, and the one at `count`, if there is
/// one, is none: then `count` is the number of leading codes.
pub proof fn lemma_leading_codes(tokens: Seq<Seq<char>>, count: int)
    requires
        0 <= count <= tokens.len(),
        forall|i: int| 0 <= i < count ==> is_code(#[trigger] tokens[i]),
        count < tokens.len() ==> !is_code(tokens[count]),
    ensures
        leading_codes(tokens) == count,
    decreases count,
{
    if count > 0 {
        assert forall|i: int| 0 <= i < count - 1 implies is_code(
            #[trigger] tokens.drop_first()[i],
        ) by {}
        lemma_leading_codes(tokens.drop_first(), count - 1);
    }
}

/// Decodes the tokens of `word` in their order and appends the character of
/// each to `buf`, up to the first token that is no code, with which the word
/// is refused.
pub fn decode_chars_into(word: &[char], buf: &mut String) -> (r: Result<(), DecodeError>)
    ensures
        ({
            let all = tokens(word@);
            let n = leading_codes(all) as int;
            &&& final(buf)@ == old(buf)@ + decoded(all.take(n))
            &&& match r {
                Ok(()) => n == all.len(),
                Err(DecodeError::InvalidCode(token)) => n < all.len() && token@ == all[n],
            }
        }),
{
    let ghost all = tokens(word@);
    let ghost mut count: int = 0;
    let mut i: usize = 0;
    assert(word@.skip(0) =~= word@);
    while i < word.len()
        invariant
            0 <= i <= word.len(),
            0 <= count <= all.len(),
            all == tokens(word@),
            tokens(word@.skip(i as int)) == all.skip(count),
            forall|j: int| 0 <= j < count ==> is_code(#[trigger] all[j]),
            buf@ == old(buf)@ + decoded(all.take(count)),
        decreases word.len() - i,
    {
        if whitespace(word[i]) {
            proof {
                lemma_tokens_after_blank(word@, i as int);
            }
            i += 1;
        } else {
            let start = i;
            i += 1;
            while i < word.len() && !whitespace(word[i])
                invariant
                    start < i <= word.len(),
                    forall|j: int| start <= j < i ==> !is_whitespace(word@[j]),
                decreases word.len() - i,
            {
                i += 1;
            }
            let token = slice_subrange(word, start, i);
            proof {
                lemma_tokens_from(word@, start as int, i as int);
                assert(all.skip(count)[0] == token@);
                assert((seq![token@] + tokens(word@.skip(i as int))).drop_first() =~= tokens(
                    word@.skip(i as int),
                ));
            }
            match decode_chars(token) {
                Some(symbol) => {
                    push_char(buf, symbol as char);
                    proof {
                        count = count + 1;
                    }
                },
                None => {
                    proof {
                        lemma_leading_codes(all, count);
                    }
                    return Err(DecodeError::InvalidCode(string_of(token)));
                },
            }
        }
    }
    proof {
        lemma_leading_codes(all, count);
    }
    Ok(())
}

/// Decodes the tokens of `word`, which white space sets apart, in their
/// order and appends the character of each to `buf`, up to the first token
/// that is no code, with which the word is refused.
pub fn decode_word_into(word: &str, buf: &mut String) -> (r: Result<(), DecodeError>)
    ensures
        ({
            let all = tokens(word@);
            let n = leading_codes(all) as int;
            &&& final(buf)@ == old(buf)@ + decoded(all.take(n))
            &&& match r {
                Ok(()) => n == all.len(),
                Err(DecodeError::InvalidCode(token)) => n < all.len() && token@ == all[n],
            }
        }),
{
    let chars = chars_of(word);
    decode_chars_into(chars.as_slice(), buf)
}

/// The tokens of all of `words`, word after word.
pub open spec fn tokens_of(words: Seq<Seq<char>>) -> Seq<Seq<char>>
    decreases words.len(),
{
    if words.len() == 0 {
        Seq::empty()
    } else {
        tokens_of(words.drop_last()) + tokens(words.last())
    }
}

/// The characters that the tokens of `word` stand for.
pub open spec fn decoded_word(word: Seq<char>) -> Seq<char> {
    decoded(tokens(word))
}

/// `parts` one after another, with a space between each two.
pub open spec fn joined(parts: Seq<Seq<char>>) -> Seq<char>
    decreases parts.len(),
{
    if parts.len() == 0 {
        Seq::empty()
    } else if parts.len() == 1 {
        parts[0]
    } else {
        joined(parts.drop_last()) + seq![SPACE] + parts.last()
    }
}

/// The plain text of a message in code whose words are `words`: what each
/// word stands for, with a space between each two.
pub open spec fn plain(words: Seq<Seq<char>>) -> Seq<char> {
    joined(words.map_values(|word: Seq<char>| decoded_word(word)))
}

/// The tokens of some words are those of the first `count` of them and then
/// those of the others.
pub proof fn lemma_tokens_of_split(words: Seq<Seq<char>>, count: int)
    requires
        0 <= count <= words.len(),
    ensures
        tokens_of(words) == tokens_of(words.take(count)) + tokens_of(words.skip(count)),
    decreases words.len(),
{
    if count == words.len() {
        assert(words.take(count) =~= words);
    } else {
        lemma_tokens_of_split(words.drop_last(), count);
        assert(words.drop_last().take(count) =~= words.take(count));
        assert(words.skip(count).drop_last() =~= words.drop_last().skip(count));
    }
}

/// Counting the leading codes of two sequences of tokens set end to end goes
/// on into the second only where the first holds codes alone.
pub proof fn lemma_leading_codes_concat(a: Seq<Seq<char>>, b: Seq<Seq<char>>)
    ensures
        leading_codes(a + b) == if leading_codes(a) == a.len() {
            a.len() + leading_codes(b)
        } else {
            leading_codes(a)
        },
        leading_codes(a) <= a.len(),
    decreases a.len(),
{
    if a.len() > 0 {
        assert((a + b).drop_first() =~= a.drop_first() + b);
        lemma_leading_codes_concat(a.drop_first(), b);
    } else {
        assert(a + b =~= b);
    }
}

/// The plain text of a message in code. The white space that the message
/// begins and ends with is left out, and what is left is cut into words at
/// each word separator. The tokens of each word, which white space sets
/// apart, are decoded in their order, and the words are put together with a
/// space between each two.
///
/// The first token that is no code of the table, counting through the words
/// in their order, has the whole message refused with `InvalidCode`, which
/// holds that token.
pub fn decode_message(message: &str) -> (r: Result<String, DecodeError>)
    ensures
        ({
            let all = tokens_of(words(trim(message@)));
            let n = leading_codes(all) as int;
            match r {
                Ok(text) => n == all.len() && text@ == plain(words(trim(message@))),
                Err(DecodeError::InvalidCode(token)) => n < all.len() && token@ == all[n],
            }
        }),
{
    let chars = chars_of(message);
    let body = trim_chars(chars.as_slice());
    let ghost parts = words(body@);
    let ghost mut count: int = 0;
    let mut buf = String::new();
    let mut start: usize = 0;
    assert(body@.skip(0) =~= body@);
    loop
        invariant_except_break
            0 <= start <= body.len(),
            0 <= count < parts.len(),
            (count == 0) == (start == 0),
            words(body@.skip(start as int)) == parts.skip(count),
            leading_codes(tokens_of(parts.take(count))) == tokens_of(parts.take(count)).len(),
            buf@ == plain(parts.take(count)),
        invariant
            parts == words(body@),
            body@ == trim(message@),
        ensures
            leading_codes(tokens_of(parts)) == tokens_of(parts).len(),
            buf@ == plain(parts),
        decreases body.len() - start,
    {
        let mut end: usize = start;
        while end < body.len() && body[end] != WORD_SEPARATOR
            invariant
                start <= end <= body.len(),
                forall|j: int| start <= j < end ==> body@[j] != WORD_SEPARATOR,
            decreases body.len() - end,
        {
            end += 1;
        }
        let word = slice_subrange(body, start, end);
        proof {
            lemma_words_from(body@, start as int, end as int);
            assert(parts.skip(count)[0] == word@);
            assert(parts.take(count + 1).drop_last() =~= parts.take(count));
            lemma_leading_codes_concat(tokens_of(parts.take(count)), tokens(word@));
            lemma_tokens_of_split(parts, count + 1);
            lemma_leading_codes_concat(
                tokens_of(parts.take(count + 1)),
                tokens_of(parts.skip(count + 1)),
            );
        }
        if start > 0 {
            push_char(&mut buf, SPACE);
        }
        decode_chars_into(word, &mut buf)?;
        proof {
            let shown = parts.take(count).map_values(|word: Seq<char>| decoded_word(word));
            let next = parts.take(count + 1).map_values(|word: Seq<char>| decoded_word(word));
            assert(next.drop_last() =~= shown);
            assert(tokens(word@).take(tokens(word@).len() as int) =~= tokens(word@));
            count = count + 1;
        }
        if end == body.len() {
            proof {
                assert(parts.take(count) =~= parts);
            }
            break;
        }
        proof {
            assert((seq![word@] + words(body@.skip(end + 1))).drop_first() =~= words(
                body@.skip(end + 1),
            ));
        }
        start = end + 1;
    }
    Ok(buf)
}

} // verus!
