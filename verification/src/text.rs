//! Text as sequences of characters: white space, trimming, and the two ways
//! a message is cut up, into words at separators and into tokens at white
//! space.

use vstd::prelude::*;
use vstd::slice::slice_subrange;

verus! {

/// The character between two words of a message in plain text, and the one
/// that a token is set off with in code.
pub const SPACE: char = ' ';

/// The character that stands between two words of a message in code.
pub const WORD_SEPARATOR: char = '/';

/// Whether `c` is white space: one of the 25 characters that have the
/// Unicode property White_Space.
pub open spec fn is_whitespace(c: char) -> bool {
    let n = c as u32;
    ||| 0x09 <= n <= 0x0D
    ||| n == 0x20
    ||| n == 0x85
    ||| n == 0xA0
    ||| n == 0x1680
    ||| 0x2000 <= n <= 0x200A
    ||| n == 0x2028
    ||| n == 0x2029
    ||| n == 0x202F
    ||| n == 0x205F
    ||| n == 0x3000
}

/// Tells whether `c` is white space.
pub fn whitespace(c: char) -> (b: bool)
    ensures
        b == is_whitespace(c),
{
    let n = c as u32;
    (0x09 <= n && n <= 0x0D) || n == 0x20 || n == 0x85 || n == 0xA0 || n == 0x1680 || (0x2000 <= n
        && n <= 0x200A) || n == 0x2028 || n == 0x2029 || n == 0x202F || n == 0x205F || n == 0x3000
}

/// The number of white-space characters that `s` begins with.
pub open spec fn leading_blanks(s: Seq<char>) -> nat
    decreases s.len(),
{
    if s.len() > 0 && is_whitespace(s[0]) {
        1 + leading_blanks(s.drop_first())
    } else {
        0
    }
}

/// The number of white-space characters that `s` ends with.
pub open spec fn trailing_blanks(s: Seq<char>) -> nat
    decreases s.len(),
{
    if s.len() > 0 && is_whitespace(s.last()) {
        1 + trailing_blanks(s.drop_last())
    } else {
        0
    }
}

/// `s` without the white space that it begins and ends with.
pub open spec fn trim(s: Seq<char>) -> Seq<char> {
    let rest = s.skip(leading_blanks(s) as int);
    rest.take(rest.len() - trailing_blanks(rest))
}

/// The number of characters of `s` before its first word separator, or all
/// of them where it has none.
pub open spec fn word_len(s: Seq<char>) -> nat
    decreases s.len(),
{
    if s.len() > 0 && s[0] != WORD_SEPARATOR {
        1 + word_len(s.drop_first())
    } else {
        0
    }
}

/// The words of `s`: what stands before its first word separator, between
/// one separator and the next, and behind the last. A word can be empty, and
/// there is always at least one.
pub open spec fn words(s: Seq<char>) -> Seq<Seq<char>>
    decreases s.len(),
{
    let n = word_len(s) as int;
    if n >= s.len() {
        seq![s]
    } else {
        seq![s.take(n)] + words(s.skip(n + 1))
    }
}

/// The number of characters that `s` begins with before any white space.
pub open spec fn token_len(s: Seq<char>) -> nat
    decreases s.len(),
{
    if s.len() > 0 && !is_whitespace(s[0]) {
        1 + token_len(s.drop_first())
    } else {
        0
    }
}

/// The tokens of `s`: its longest runs of characters that are not white
/// space, in their order. None of them is empty.
pub open spec fn tokens(s: Seq<char>) -> Seq<Seq<char>>
    decreases s.len(),
    via tokens_decreases
{
    if s.len() == 0 {
        Seq::empty()
    } else if is_whitespace(s[0]) {
        tokens(s.drop_first())
    } else {
        seq![s.take(token_len(s) as int)] + tokens(s.skip(token_len(s) as int))
    }
}

#[via_fn]
proof fn tokens_decreases(s: Seq<char>) {
    lemma_token_len_holds(s);
}

/// The characters that the first token of a sequence is counted through are in
/// the sequence, and none of them is white space.
pub proof fn lemma_token_len_holds(s: Seq<char>)
    ensures
        token_len(s) <= s.len(),
        forall|i: int| 0 <= i < token_len(s) ==> !is_whitespace(s[i]),
    decreases s.len(),
{
    if s.len() > 0 && !is_whitespace(s[0]) {
        lemma_token_len_holds(s.drop_first());
        assert forall|i: int| 0 <= i < token_len(s) implies !is_whitespace(s[i]) by {
            if i > 0 {
                assert(s[i] == s.drop_first()[i - 1]);
            }
        }
    }
}

/// Where a word begins at `start`, it ends at the next word separator, and
/// the words that follow are those of what stands behind that separator; with
/// no separator left, the word runs to the end and is the last.
pub proof fn lemma_words_from(s: Seq<char>, start: int, end: int)
    requires
        0 <= start <= end <= s.len(),
        forall|i: int| start <= i < end ==> s[i] != WORD_SEPARATOR,
        end < s.len() ==> s[end] == WORD_SEPARATOR,
    ensures
        words(s.skip(start)) == if end == s.len() {
            seq![s.subrange(start, end)]
        } else {
            seq![s.subrange(start, end)] + words(s.skip(end + 1))
        },
{
    lemma_word_len_from(s, start, end);
    let rest = s.skip(start);
    assert(rest.take(end - start) =~= s.subrange(start, end));
    if end < s.len() {
        assert(rest.skip(end - start + 1) =~= s.skip(end + 1));
    }
}

/// A word that begins at `start` and meets no separator before `end`, where
/// it meets one or `s` ends, is `end - start` long.
pub proof fn lemma_word_len_from(s: Seq<char>, start: int, end: int)
    requires
        0 <= start <= end <= s.len(),
        forall|i: int| start <= i < end ==> s[i] != WORD_SEPARATOR,
        end < s.len() ==> s[end] == WORD_SEPARATOR,
    ensures
        word_len(s.skip(start)) == end - start,
    decreases end - start,
{
    if start < end {
        assert(s.skip(start).drop_first() =~= s.skip(start + 1));
        lemma_word_len_from(s, start + 1, end);
    }
}

/// A token that begins at `start` and meets no white space before `end`,
/// where it meets some or `s` ends, is `end - start` long.
pub proof fn lemma_token_len_from(s: Seq<char>, start: int, end: int)
    requires
        0 <= start <= end <= s.len(),
        forall|i: int| start <= i < end ==> !is_whitespace(s[i]),
        end < s.len() ==> is_whitespace(s[end]),
    ensures
        token_len(s.skip(start)) == end - start,
    decreases end - start,
{
    if start < end {
        assert(s.skip(start).drop_first() =~= s.skip(start + 1));
        lemma_token_len_from(s, start + 1, end);
    }
}

/// White space in front of the tokens of a sequence does not count.
pub proof fn lemma_tokens_after_blank(s: Seq<char>, at: int)
    requires
        0 <= at < s.len(),
        is_whitespace(s[at]),
    ensures
        tokens(s.skip(at)) == tokens(s.skip(at + 1)),
{
    assert(s.skip(at).drop_first() =~= s.skip(at + 1));
}

/// Where a token begins at `start`, it ends at the next white space or at
/// the end of `s`, and the tokens that follow are those of what stands
/// behind it.
pub proof fn lemma_tokens_from(s: Seq<char>, start: int, end: int)
    requires
        0 <= start < end <= s.len(),
        forall|i: int| start <= i < end ==> !is_whitespace(s[i]),
        end < s.len() ==> is_whitespace(s[end]),
    ensures
        tokens(s.skip(start)) == seq![s.subrange(start, end)] + tokens(s.skip(end)),
{
    lemma_token_len_from(s, start, end);
    let rest = s.skip(start);
    assert(rest.take(end - start) =~= s.subrange(start, end));
    assert(rest.skip(end - start) =~= s.skip(end));
}

/// A sequence that neither begins nor ends with white space is its own
/// trimmed form.
pub proof fn lemma_trim_clean(s: Seq<char>)
    requires
        s.len() > 0 ==> !is_whitespace(s[0]) && !is_whitespace(s.last()),
    ensures
        trim(s) == s,
{
}

/// The length of the first word of a sequence with one more character at its
/// end.
pub proof fn lemma_word_len_push(s: Seq<char>, c: char)
    ensures
        word_len(s) <= s.len(),
        word_len(s.push(c)) == if word_len(s) < s.len() || c == WORD_SEPARATOR {
            word_len(s)
        } else {
            s.len() + 1
        },
    decreases s.len(),
{
    if s.len() > 0 && s[0] != WORD_SEPARATOR {
        assert(s.push(c).drop_first() =~= s.drop_first().push(c));
        lemma_word_len_push(s.drop_first(), c);
    } else if s.len() == 0 {
        assert(s.push(c).drop_first() =~= s);
    }
}

/// One more character at the end of a sequence goes to its last word, and a
/// word separator opens a new, empty word.
pub proof fn lemma_words_push(s: Seq<char>, c: char)
    ensures
        words(s).len() >= 1,
        words(s.push(c)) == if c == WORD_SEPARATOR {
            words(s).push(Seq::empty())
        } else {
            words(s).drop_last().push(words(s).last().push(c))
        },
    decreases s.len(),
{
    lemma_word_len_push(s, c);
    let n = word_len(s) as int;
    let longer = s.push(c);
    if n < s.len() {
        // The first word ends inside `s`: the character goes to the rest.
        assert(longer.take(n) =~= s.take(n));
        assert(longer.skip(n + 1) =~= s.skip(n + 1).push(c));
        lemma_words_push(s.skip(n + 1), c);
    } else if c == WORD_SEPARATOR {
        // `s` is one word, and the separator ends it.
        let nothing = Seq::<char>::empty();
        assert(longer.take(n) =~= s);
        assert(longer.skip(n + 1) =~= nothing);
        assert(words(nothing) =~= seq![nothing]);
    }
}

/// What follows a sequence does not change where its first token ends,
/// unless the token runs to the end of the sequence and on into what follows.
pub proof fn lemma_token_len_concat(a: Seq<char>, b: Seq<char>)
    requires
        token_len(a) < a.len() || b.len() == 0 || is_whitespace(b[0]),
    ensures
        token_len(a + b) == token_len(a),
    decreases a.len(),
{
    if a.len() > 0 && !is_whitespace(a[0]) {
        assert((a + b).drop_first() =~= a.drop_first() + b);
        lemma_token_len_concat(a.drop_first(), b);
    }
}

/// The tokens of two sequences set end to end are those of the first and
/// then those of the second, where white space stands at the joint or one of
/// the two is empty.
pub proof fn lemma_tokens_concat(a: Seq<char>, b: Seq<char>)
    requires
        a.len() == 0 || b.len() == 0 || is_whitespace(a.last()) || is_whitespace(b[0]),
    ensures
        tokens(a + b) == tokens(a) + tokens(b),
    decreases a.len(),
{
    if a.len() == 0 {
        assert(a + b =~= b);
    } else if is_whitespace(a[0]) {
        assert((a + b).drop_first() =~= a.drop_first() + b);
        lemma_tokens_concat(a.drop_first(), b);
    } else {
        // The first token of `a` is the first of `a + b`.
        let n = token_len(a) as int;
        lemma_token_len_holds(a);
        lemma_token_len_concat(a, b);
        assert((a + b).take(n) =~= a.take(n));
        assert((a + b).skip(n) =~= a.skip(n) + b);
        lemma_tokens_concat(a.skip(n), b);
    }
}

/// A run of characters without white space is one token.
pub proof fn lemma_tokens_of_run(run: Seq<char>)
    requires
        run.len() > 0,
        forall|i: int| 0 <= i < run.len() ==> !is_whitespace(run[i]),
    ensures
        tokens(run) == seq![run],
{
    lemma_token_len_from(run, 0, run.len() as int);
    let nothing = Seq::<char>::empty();
    assert(run.take(run.len() as int) =~= run);
    assert(run.skip(run.len() as int) =~= nothing);
    assert(tokens(nothing) =~= Seq::<Seq<char>>::empty());
}

/// White space at the end of a sequence adds no token.
pub proof fn lemma_tokens_push_blank(s: Seq<char>, c: char)
    requires
        is_whitespace(c),
    ensures
        tokens(s.push(c)) == tokens(s),
{
    let nothing = Seq::<char>::empty();
    assert(seq![c].drop_first() =~= nothing);
    assert(tokens(nothing) =~= Seq::<Seq<char>>::empty());
    lemma_tokens_concat(s, seq![c]);
    assert(s.push(c) =~= s + seq![c]);
}

/// A run of characters without white space behind a sequence that ends with
/// white space, or is empty, adds the run to the tokens as one more.
pub proof fn lemma_tokens_push_run(s: Seq<char>, run: Seq<char>)
    requires
        s.len() > 0 ==> is_whitespace(s.last()),
        run.len() > 0,
        forall|i: int| 0 <= i < run.len() ==> !is_whitespace(run[i]),
    ensures
        tokens(s + run) == tokens(s).push(run),
{
    lemma_tokens_of_run(run);
    lemma_tokens_concat(s, run);
}

/// The characters of `s`.
pub fn chars_of(s: &str) -> (chars: Vec<char>)
    ensures
        chars@ == s@,
{
    let mut chars: Vec<char> = Vec::new();
    let source = s.chars();
    for c in it: source
        invariant
            it.seq() == s@,
            chars@ == s@.take(it.index()),
    {
        chars.push(c);
    }
    chars
}

/// Appends `c` to `s` with `String::push` of std. The contract is taken on
/// trust from the documentation of `push`: the string then holds what it held
/// before, and `c` behind it.
#[verifier::external_body]
pub(crate) fn push_char(s: &mut String, c: char)
    ensures
        final(s)@ == old(s)@.push(c),
{
    s.push(c);
}

/// A string of the characters of `chars`.
pub fn string_of(chars: &[char]) -> (s: String)
    ensures
        s@ == chars@,
{
    let mut s = String::new();
    let mut i: usize = 0;
    while i < chars.len()
        invariant
            0 <= i <= chars.len(),
            s@ == chars@.take(i as int),
        decreases chars.len() - i,
    {
        push_char(&mut s, chars[i]);
        i += 1;
    }
    s
}

/// The part of `s` between the white space that it begins and ends with.
pub fn trim_chars(s: &[char]) -> (trimmed: &[char])
    ensures
        trimmed@ == trim(s@),
{
    let mut start: usize = 0;
    assert(s@.skip(0) =~= s@);
    while start < s.len() && whitespace(s[start])
        invariant
            0 <= start <= s.len(),
            leading_blanks(s@) == start + leading_blanks(s@.skip(start as int)),
        decreases s.len() - start,
    {
        assert(s@.skip(start as int).drop_first() =~= s@.skip(start + 1));
        start += 1;
    }
    let ghost rest = s@.skip(start as int);
    let mut end: usize = s.len();
    assert(rest.take(s.len() - start) =~= rest);
    while end > start && whitespace(s[end - 1])
        invariant
            start <= end <= s.len(),
            rest == s@.skip(start as int),
            trailing_blanks(rest) == (s.len() - end) + trailing_blanks(
                rest.take(end - start),
            ),
        decreases end,
    {
        assert(rest.take(end - start).drop_last() =~= rest.take(end - start - 1));
        end -= 1;
    }
    slice_subrange(s, start, end)
}

} // verus!
