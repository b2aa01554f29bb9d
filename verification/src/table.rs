//! The code table and the array that inverts it.

use crate::tree::{
    is_marks, lemma_index_in_range, lemma_index_injective, tree_index, MAX_CODE_LEN, TREE_SLOTS,
};
use vstd::prelude::*;

verus! {

/// The number of symbols: the letters A to Z, then the digits 0 to 9.
pub const SYMBOL_COUNT: usize = 36;

/// The number of letters, which come first in the table.
pub const LETTER_COUNT: usize = 26;

/// The code of each symbol, the letters in alphabetical order, then the
/// digits from 0 to 9.
pub const ENCODED_SEQUENCES: [&'static str; SYMBOL_COUNT] = [
    ".-", "-...", "-.-.", "-..", ".", "..-.", "--.", "....", "..", ".---", "-.-", ".-..", "--",
    "-.", "---", ".--.", "--.-", ".-.", "...", "-", "..-", "...-", ".--", "-..-", "-.--",
    "--..", "-----", ".----", "..---", "...--", "....-", ".....", "-....", "--...", "---..",
    "----.",
];

/// What the decoding array holds at a node that no code leads to.
pub const NO_SYMBOL: u8 = 0;

/// The symbol at each node of the lookup tree, one level of the tree per row:
/// the entry at the node that a code leads to is the code's symbol.
pub const DECODING_ARRAY: [u8; TREE_SLOTS] = [
    NO_SYMBOL,
    'E' as u8, 'T' as u8,
    'I' as u8, 'A' as u8, 'N' as u8, 'M' as u8,
    'S' as u8, 'U' as u8, 'R' as u8, 'W' as u8, 'D' as u8, 'K' as u8, 'G' as u8, 'O' as u8,
    'H' as u8, 'V' as u8, 'F' as u8, NO_SYMBOL, 'L' as u8, NO_SYMBOL, 'P' as u8, 'J' as u8,
    'B' as u8, 'X' as u8, 'C' as u8, 'Y' as u8, 'Z' as u8, 'Q' as u8, NO_SYMBOL, NO_SYMBOL,
    '5' as u8, '4' as u8, NO_SYMBOL, '3' as u8, NO_SYMBOL, NO_SYMBOL, NO_SYMBOL, '2' as u8,
    NO_SYMBOL, NO_SYMBOL, NO_SYMBOL, NO_SYMBOL, NO_SYMBOL, NO_SYMBOL, NO_SYMBOL, '1' as u8,
    '6' as u8, NO_SYMBOL, NO_SYMBOL, NO_SYMBOL, NO_SYMBOL, NO_SYMBOL, NO_SYMBOL, NO_SYMBOL,
    '7' as u8, NO_SYMBOL, NO_SYMBOL, NO_SYMBOL, '8' as u8, NO_SYMBOL, '9' as u8, '0' as u8,
];

/// The code at position `index` of the table.
pub open spec fn code_at(index: int) -> Seq<char> {
    ENCODED_SEQUENCES[index]@
}

/// The symbol at position `index` of the table, as its ASCII byte: an upper
/// case letter or a digit.
pub open spec fn symbol_at(index: int) -> u8 {
    if index < LETTER_COUNT {
        ('A' as u8 + index) as u8
    } else {
        ('0' as u8 + index - LETTER_COUNT) as u8
    }
}

/// Whether `c` is a letter of ASCII, of either case.
pub open spec fn is_letter(c: char) -> bool {
    ('A' <= c && c <= 'Z') || ('a' <= c && c <= 'z')
}

/// Whether `c` is a digit of ASCII.
pub open spec fn is_digit(c: char) -> bool {
    '0' <= c && c <= '9'
}

/// Whether `c` has a code: whether it is a letter or a digit of ASCII.
pub open spec fn is_symbol(c: char) -> bool {
    is_letter(c) || is_digit(c)
}

/// `c` in upper case, where it is a lower-case letter of ASCII, and `c`
/// itself where it is not.
pub open spec fn upper(c: char) -> char {
    if 'a' <= c && c <= 'z' {
        (c as u8 - 32) as char
    } else {
        c
    }
}

/// The position in the table of a character that has a code: a letter's
/// place in the alphabet, whatever its case, and after the letters a digit's
/// value.
pub open spec fn symbol_index(c: char) -> int {
    if is_digit(c) {
        c as int - '0' as int + LETTER_COUNT
    } else {
        upper(c) as int - 'A' as int
    }
}

/// The code of a character that has one.
pub open spec fn code_of(c: char) -> Seq<char> {
    code_at(symbol_index(c))
}

/// Whether `code` is one of the codes of the table.
pub open spec fn is_code(code: Seq<char>) -> bool {
    exists|index: int| 0 <= index < SYMBOL_COUNT && #[trigger] code_at(index) == code
}

/// The position of `code` in the table, where `is_code(code)`.
pub open spec fn position_of(code: Seq<char>) -> int {
    choose|index: int| 0 <= index < SYMBOL_COUNT && #[trigger] code_at(index) == code
}

/// The symbol that `code` stands for, if it is a code of the table.
pub open spec fn symbol_of(code: Seq<char>) -> Option<u8> {
    if is_code(code) {
        Some(symbol_at(position_of(code)))
    } else {
        None
    }
}

/// The code at `index` is made of marks and leads to node `slot`, where the
/// decoding array holds its symbol.
spec fn stored(index: int, slot: int) -> bool {
    &&& is_marks(code_at(index))
    &&& tree_index(code_at(index)) == slot
    &&& DECODING_ARRAY[slot] == symbol_at(index)
}

/// The node of each code of the table, read off the marks of the code, and
/// the symbol that the decoding array holds there.
proof fn lemma_entries()
    ensures
        stored(0, 4),
        stored(1, 23),
        stored(2, 25),
        stored(3, 11),
        stored(4, 1),
        stored(5, 17),
        stored(6, 13),
        stored(7, 15),
        stored(8, 3),
        stored(9, 22),
        stored(10, 12),
        stored(11, 19),
        stored(12, 6),
        stored(13, 5),
        stored(14, 14),
        stored(15, 21),
        stored(16, 28),
        stored(17, 9),
        stored(18, 7),
        stored(19, 2),
        stored(20, 8),
        stored(21, 16),
        stored(22, 10),
        stored(23, 24),
        stored(24, 26),
        stored(25, 27),
        stored(26, 62),
        stored(27, 46),
        stored(28, 38),
        stored(29, 34),
        stored(30, 32),
        stored(31, 31),
        stored(32, 47),
        stored(33, 55),
        stored(34, 59),
        stored(35, 61),
{
    reveal_with_fuel(tree_index, 6);
    reveal_strlit(".-");
    reveal_strlit("-...");
    reveal_strlit("-.-.");
    reveal_strlit("-..");
    reveal_strlit(".");
    reveal_strlit("..-.");
    reveal_strlit("--.");
    reveal_strlit("....");
    reveal_strlit("..");
    reveal_strlit(".---");
    reveal_strlit("-.-");
    reveal_strlit(".-..");
    reveal_strlit("--");
    reveal_strlit("-.");
    reveal_strlit("---");
    reveal_strlit(".--.");
    reveal_strlit("--.-");
    reveal_strlit(".-.");
    reveal_strlit("...");
    reveal_strlit("-");
    reveal_strlit("..-");
    reveal_strlit("...-");
    reveal_strlit(".--");
    reveal_strlit("-..-");
    reveal_strlit("-.--");
    reveal_strlit("--..");
    reveal_strlit("-----");
    reveal_strlit(".----");
    reveal_strlit("..---");
    reveal_strlit("...--");
    reveal_strlit("....-");
    reveal_strlit(".....");
    reveal_strlit("-....");
    reveal_strlit("--...");
    reveal_strlit("---..");
    reveal_strlit("----.");
}

/// Every code of the table is a sequence of marks whose node is in the stored
/// part of the tree, and the decoding array holds the code's symbol there.
pub proof fn lemma_code_is_stored(index: int)
    requires
        0 <= index < SYMBOL_COUNT,
    ensures
        is_marks(code_at(index)),
        tree_index(code_at(index)) < TREE_SLOTS,
        DECODING_ARRAY[tree_index(code_at(index)) as int] == symbol_at(index),
{
    lemma_entries();
}

/// The decoding array holds a symbol only at the nodes that the codes of the
/// table lead to.
pub proof fn lemma_slot_has_code(slot: int)
    requires
        0 <= slot < TREE_SLOTS,
        DECODING_ARRAY[slot] != NO_SYMBOL,
    ensures
        exists|index: int|
            0 <= index < SYMBOL_COUNT && tree_index(#[trigger] code_at(index)) == slot,
{
    lemma_entries();
}

/// Every code of the table holds at least one mark and at most
/// `MAX_CODE_LEN`, and nothing but marks.
pub proof fn lemma_code_shape(index: int)
    requires
        0 <= index < SYMBOL_COUNT,
    ensures
        is_marks(code_at(index)),
        1 <= code_at(index).len() <= MAX_CODE_LEN,
{
    lemma_code_is_stored(index);
    lemma_index_in_range(code_at(index));
}

/// No two codes of the table lead to the same node of the tree.
pub proof fn lemma_nodes_distinct(i: int, j: int)
    requires
        0 <= i < SYMBOL_COUNT,
        0 <= j < SYMBOL_COUNT,
        i != j,
    ensures
        tree_index(code_at(i)) != tree_index(code_at(j)),
{
    lemma_code_is_stored(i);
    lemma_code_is_stored(j);
}

/// No two symbols have the same code.
pub proof fn lemma_codes_distinct(i: int, j: int)
    requires
        0 <= i < SYMBOL_COUNT,
        0 <= j < SYMBOL_COUNT,
        i != j,
    ensures
        code_at(i) != code_at(j),
{
    lemma_nodes_distinct(i, j);
}

/// Whether `a` begins `b` and `b` goes on behind it.
pub open spec fn begins(a: Seq<char>, b: Seq<char>) -> bool {
    a.len() < b.len() && a.is_prefix_of(b)
}

/// The table is not free of prefixes: the code of E, one dot, begins the
/// code of A, a dot and a dash, which is why a message in code needs white
/// space between its tokens. Apart from the pairs in which the first code
/// begins the second in this way, no code of the table is a prefix of
/// another symbol's.
pub proof fn lemma_codes_no_prefix(i: int, j: int)
    requires
        0 <= i < SYMBOL_COUNT,
        0 <= j < SYMBOL_COUNT,
        i != j,
        !begins(code_at(i), code_at(j)),
    ensures
        !code_at(i).is_prefix_of(code_at(j)),
{
    lemma_codes_distinct(i, j);
    if code_at(i).is_prefix_of(code_at(j)) {
        assert(code_at(i) =~= code_at(j));
    }
}

/// What a code stands for is an upper-case letter or a digit of ASCII.
pub proof fn lemma_symbol_is_upper(code: Seq<char>)
    requires
        is_code(code),
    ensures
        is_symbol(symbol_of(code).unwrap() as char),
        upper(symbol_of(code).unwrap() as char) == symbol_of(code).unwrap() as char,
{
}

/// A code stands for the symbol at its position in the table.
pub proof fn lemma_symbol_of_code(index: int)
    requires
        0 <= index < SYMBOL_COUNT,
    ensures
        is_code(code_at(index)),
        symbol_of(code_at(index)) == Some(symbol_at(index)),
{
    let found = position_of(code_at(index));
    if found != index {
        lemma_codes_distinct(found, index);
    }
}

/// Decoding undoes encoding: the code of a letter or digit stands for that
/// letter, in upper case, or digit.
pub proof fn lemma_round_trip(c: char)
    requires
        is_symbol(c),
    ensures
        symbol_of(code_of(c)) == Some(upper(c) as u8),
{
    lemma_symbol_of_code(symbol_index(c));
}

/// Looking a code up in the table and following its marks down the tree come
/// to the same: a sequence of characters is a code exactly when it holds
/// marks only and leads to a node at which the decoding array holds a symbol,
/// and that symbol is the one the code stands for.
pub proof fn lemma_tree_decodes(code: Seq<char>)
    ensures
        symbol_of(code) == if is_marks(code) && tree_index(code) < TREE_SLOTS
            && DECODING_ARRAY[tree_index(code) as int] != NO_SYMBOL {
            Some(DECODING_ARRAY[tree_index(code) as int])
        } else {
            None
        },
{
    if is_code(code) {
        let index = position_of(code);
        lemma_code_is_stored(index);
    } else if is_marks(code) && tree_index(code) < TREE_SLOTS
        && DECODING_ARRAY[tree_index(code) as int] != NO_SYMBOL {
        lemma_slot_has_code(tree_index(code) as int);
        let index = choose|index: int|
            0 <= index < SYMBOL_COUNT && tree_index(#[trigger] code_at(index)) == tree_index(code);
        lemma_code_is_stored(index);
        lemma_index_injective(code_at(index), code);
    }
}

} // verus!
