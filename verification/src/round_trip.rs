//! Decoding undoes encoding, for whole messages.

use crate::decode::{decoded_word, joined, leading_codes, lemma_leading_codes, plain, tokens_of};
use crate::encode::{encoded, is_kept, is_plain, piece};
use crate::table::{code_of, is_code, lemma_code_shape, lemma_round_trip, symbol_index, upper};
use crate::text::{
    is_whitespace, lemma_tokens_of_run, lemma_tokens_push_blank, lemma_tokens_push_run,
    lemma_trim_clean, lemma_words_from, lemma_words_push, tokens, trim, words, SPACE,
    WORD_SEPARATOR,
};
use crate::tree::is_mark;
use vstd::prelude::*;

verus! {

/// `text` with its letters in upper case.
pub open spec fn upper_text(text: Seq<char>) -> Seq<char> {
    text.map_values(|c: char| upper(c))
}

/// Whether each of `tokens` is a code of the table.
pub open spec fn all_codes(tokens: Seq<Seq<char>>) -> bool {
    forall|i: int| 0 <= i < tokens.len() ==> is_code(#[trigger] tokens[i])
}

/// Where some words hold codes only, so do they all together.
proof fn lemma_tokens_of_all_codes(words: Seq<Seq<char>>)
    requires
        forall|k: int| 0 <= k < words.len() ==> all_codes(tokens(#[trigger] words[k])),
    ensures
        all_codes(tokens_of(words)),
    decreases words.len(),
{
    if words.len() > 0 {
        assert forall|k: int| 0 <= k < words.drop_last().len() implies all_codes(
            tokens(#[trigger] words.drop_last()[k]),
        ) by {}
        lemma_tokens_of_all_codes(words.drop_last());
    }
}

/// One more part is joined on with a space.
proof fn lemma_joined_push(parts: Seq<Seq<char>>, part: Seq<char>)
    requires
        parts.len() >= 1,
    ensures
        joined(parts.push(part)) == joined(parts) + seq![SPACE] + part,
{
    assert(parts.push(part).drop_last() =~= parts);
}

/// What the last part grows by, all the parts joined grow by.
proof fn lemma_joined_grow(parts: Seq<Seq<char>>, more: Seq<char>)
    requires
        parts.len() >= 1,
    ensures
        joined(parts.drop_last().push(parts.last() + more)) == joined(parts) + more,
{
    let grown = parts.drop_last().push(parts.last() + more);
    assert(grown.drop_last() =~= parts.drop_last());
}

/// Characters other than the word separator at the end of a sequence all go
/// to its last word.
proof fn lemma_words_grow(s: Seq<char>, more: Seq<char>)
    requires
        forall|i: int| 0 <= i < more.len() ==> more[i] != WORD_SEPARATOR,
    ensures
        words(s).len() >= 1,
        words(s + more) == words(s).drop_last().push(words(s).last() + more),
    decreases more.len(),
{
    if more.len() > 0 {
        let front = more.drop_last();
        lemma_words_grow(s, front);
        lemma_words_push(s + front, more.last());
        assert((s + front).push(more.last()) =~= s + more);
        assert(words(s + front).last().push(more.last()) =~= words(s).last() + more);
    }
}

/// How the code of a text that has one reads as a message in code: it neither
/// begins nor ends with white space, each token of each of its words is a
/// code of the table, and its plain text is the text in upper case.
proof fn lemma_encoded_reads(text: Seq<char>)
    requires
        is_plain(text),
        text.len() > 0,
    ensures
        encoded(text).len() > 0,
        is_mark(encoded(text)[0]),
        !is_whitespace(encoded(text).last()),
        words(encoded(text)).len() >= 1,
        forall|k: int|
            0 <= k < words(encoded(text)).len() ==> all_codes(
                tokens(#[trigger] words(encoded(text))[k]),
            ),
        plain(words(encoded(text))) == upper_text(text),
    decreases text.len(),
{
    let code = encoded(text);
    if text.len() == 1 {
        // One symbol: its code is one word of one token.
        let c = text[0];
        lemma_code_shape(symbol_index(c));
        lemma_round_trip(c);
        assert forall|i: int| 0 <= i < code.len() implies !is_whitespace(code[i]) && code[i]
            != WORD_SEPARATOR by {}
        lemma_words_from(code, 0, code.len() as int);
        assert(code.subrange(0, code.len() as int) =~= code);
        lemma_tokens_of_run(code);
        assert(plain(words(code)) =~= upper_text(text));
    } else {
        let before = text.drop_last();
        let c = text.last();
        assert forall|i: int| 0 <= i < before.len() implies is_kept(#[trigger] before[i]) by {}
        lemma_encoded_reads(before);
        let front = encoded(before);
        let old_words = words(front);
        let old_shown = old_words.map_values(|word: Seq<char>| decoded_word(word));
        let last = old_words.last();
        if c == SPACE {
            // A space ends the last word with a space and opens an empty word.
            lemma_words_push(front, SPACE);
            lemma_words_push(front.push(SPACE), WORD_SEPARATOR);
            assert(code =~= front.push(SPACE).push(WORD_SEPARATOR));
            lemma_tokens_push_blank(last, SPACE);
            let nothing = Seq::<char>::empty();
            let new_words = words(code);
            assert forall|k: int| 0 <= k < new_words.len() implies all_codes(
                tokens(#[trigger] new_words[k]),
            ) by {}
            let shown = new_words.map_values(|word: Seq<char>| decoded_word(word));
            assert(decoded_word(nothing) =~= nothing);
            assert(shown =~= old_shown.push(nothing));
            lemma_joined_push(old_shown, nothing);
        } else {
            // A symbol adds its code to the last word as one more token.
            let symbol_code = code_of(c);
            lemma_code_shape(symbol_index(c));
            lemma_round_trip(c);
            assert forall|i: int| 0 <= i < symbol_code.len() implies !is_whitespace(
                symbol_code[i],
            ) by {}
            assert forall|i: int| 0 <= i < piece(c).len() implies piece(c)[i]
                != WORD_SEPARATOR by {}
            lemma_words_grow(front, piece(c));
            let new_words = words(code);
            lemma_tokens_push_blank(last, SPACE);
            lemma_tokens_push_run(last.push(SPACE), symbol_code);
            assert(last + piece(c) =~= last.push(SPACE) + symbol_code);
            assert forall|k: int| 0 <= k < new_words.len() implies all_codes(
                tokens(#[trigger] new_words[k]),
            ) by {}
            assert(decoded_word(last + piece(c)) =~= decoded_word(last).push(upper(c)));
            let shown = new_words.map_values(|word: Seq<char>| decoded_word(word));
            assert(decoded_word(last).push(upper(c)) =~= decoded_word(last) + seq![upper(c)]);
            assert(shown =~= old_shown.drop_last().push(old_shown.last() + seq![upper(c)]));
            lemma_joined_grow(old_shown, seq![upper(c)]);
        }
    }
}

/// Decoding undoes encoding: the code of a text that has one is a message in
/// code of which every token is a code of the table, and whose plain text is
/// the text itself, with its letters in upper case.
pub proof fn lemma_message_round_trip(text: Seq<char>)
    requires
        is_plain(text),
    ensures
        ({
            let all = tokens_of(words(trim(encoded(text))));
            &&& leading_codes(all) == all.len()
            &&& plain(words(trim(encoded(text)))) == upper_text(text)
        }),
{
    let code = encoded(text);
    if text.len() == 0 {
        // No text: its code is empty, and reads as one empty word.
        let nothing = Seq::<char>::empty();
        lemma_trim_clean(code);
        assert(seq![nothing].drop_last() =~= Seq::<Seq<char>>::empty());
        assert(tokens_of(Seq::<Seq<char>>::empty()) =~= Seq::<Seq<char>>::empty());
        assert(plain(words(code)) =~= upper_text(text));
    } else {
        lemma_encoded_reads(text);
        lemma_trim_clean(code);
        lemma_tokens_of_all_codes(words(code));
        lemma_leading_codes(tokens_of(words(code)), tokens_of(words(code)).len() as int);
    }
}

} // verus!
