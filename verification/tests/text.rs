use morse::text::{chars_of, string_of, trim_chars, whitespace, SPACE, WORD_SEPARATOR};

#[test]
fn whitespace_is_the_unicode_property() {
    let mut count = 0;
    for n in 0..=0x10ffffu32 {
        if let Some(c) = char::from_u32(n) {
            assert_eq!(whitespace(c), c.is_whitespace(), "U+{:04X}", n);
            if whitespace(c) {
                count += 1;
            }
        }
    }
    assert_eq!(count, 25);
}

#[test]
fn whitespace_on_chosen_characters() {
    for c in [' ', '\t', '\n', '\u{b}', '\u{c}', '\r', '\u{85}', '\u{a0}', '\u{1680}', '\u{2000}',
        '\u{200a}', '\u{2028}', '\u{2029}', '\u{202f}', '\u{205f}', '\u{3000}'] {
        assert!(whitespace(c));
    }
    for c in ['\u{8}', '\u{e}', '\u{1f}', '!', 'a', '/', '\u{84}', '\u{86}', '\u{180e}',
        '\u{200b}', '\u{2027}', '\u{202a}', '\u{2060}', '\u{feff}', '\u{3001}'] {
        assert!(!whitespace(c));
    }
}

#[test]
fn separators_are_space_and_slash() {
    assert_eq!(SPACE, ' ');
    assert_eq!(WORD_SEPARATOR, '/');
}

#[test]
fn chars_of_gives_the_characters() {
    assert_eq!(chars_of(""), Vec::<char>::new());
    assert_eq!(chars_of(".- /"), vec!['.', '-', ' ', '/']);
    assert_eq!(chars_of("h\u{e9}\u{4f60}\u{1f600}"), vec!['h', '\u{e9}', '\u{4f60}', '\u{1f600}']);
}

#[test]
fn string_of_gives_the_string() {
    assert_eq!(string_of(&[]), "");
    assert_eq!(string_of(&['.', '-']), ".-");
    assert_eq!(string_of(&['h', '\u{e9}', '\u{1f600}']), "h\u{e9}\u{1f600}");
    let text = "some text \u{2014} of several words";
    assert_eq!(string_of(&chars_of(text)), text);
}

#[test]
fn trim_chars_agrees_with_trim() {
    for text in ["", " ", "   ", "a", " a", "a ", "  a b  ", "\t\na\u{3000}", "\u{a0}\u{2003}",
        " / ", "a  \u{200b} ", "\u{85}x\u{85}y\u{85}", "  .- / -...  "] {
        let chars = chars_of(text);
        assert_eq!(string_of(trim_chars(&chars)), text.trim());
    }
    assert_eq!(string_of(trim_chars(&chars_of("  a b  "))), "a b");
}
