use morse::encode::symbol;
use morse::{decode_message, encode_byte, encode_message, EncodeError};

#[test]
fn encode_byte_rejects_punctuation() {
    assert_eq!(encode_byte(b'!'), Err(EncodeError::Unsupported('!')));
}

#[test]
fn encode_byte_rejects_all_but_letters_and_digits() {
    for u in 0..=255u8 {
        if u.is_ascii_alphanumeric() {
            assert!(encode_byte(u).is_ok());
        } else {
            assert_eq!(encode_byte(u), Err(EncodeError::Unsupported(u as char)));
        }
    }
    assert_eq!(encode_byte(b' '), Err(EncodeError::Unsupported(' ')));
    assert_eq!(encode_byte(b'@'), Err(EncodeError::Unsupported('@')));
    assert_eq!(encode_byte(b'['), Err(EncodeError::Unsupported('[')));
    assert_eq!(encode_byte(b'`'), Err(EncodeError::Unsupported('`')));
    assert_eq!(encode_byte(b'{'), Err(EncodeError::Unsupported('{')));
    assert_eq!(encode_byte(b'/'), Err(EncodeError::Unsupported('/')));
    assert_eq!(encode_byte(b':'), Err(EncodeError::Unsupported(':')));
    assert_eq!(encode_byte(0xe9), Err(EncodeError::Unsupported('\u{e9}')));
}

#[test]
fn encode_byte_places_digits_after_letters() {
    assert_eq!(encode_byte(b'0'), Ok("-----"));
    assert_eq!(encode_byte(b'1'), Ok(".----"));
    assert_eq!(encode_byte(b'9'), Ok("----."));
    assert_eq!(encode_byte(b'a'), Ok(".-"));
    assert_eq!(encode_byte(b'A'), Ok(".-"));
    assert_eq!(encode_byte(b'z'), Ok("--.."));
    assert_eq!(encode_byte(b'Z'), Ok("--.."));
}

#[test]
fn symbol_tells_letters_and_digits() {
    for c in '\0'..='\u{ff}' {
        assert_eq!(symbol(c), c.is_ascii_alphanumeric());
    }
    assert!(!symbol('\u{e9}'));
    assert!(!symbol('\u{ff21}'));
    assert!(!symbol('\u{661}'));
}

#[test]
fn encode_message_hello_world() {
    assert_eq!(
        encode_message("Hello World"),
        Ok(".... . .-.. .-.. --- / .-- --- .-. .-.. -..".to_string())
    );
}

#[test]
fn encode_message_drops_punctuation() {
    assert_eq!(encode_message("abc, 123!"), encode_message("abc 123"));
    assert_eq!(encode_message("abc, 123!"), Ok(".- -... -.-. / .---- ..--- ...--".to_string()));
}

#[test]
fn encode_message_of_nothing_is_empty() {
    assert_eq!(encode_message(""), Ok(String::new()));
    assert_eq!(encode_message("   \n\t"), Ok(String::new()));
    assert_eq!(encode_message("?!"), Ok(String::new()));
    assert_eq!(encode_message("\u{4f60}\u{597d}"), Ok(String::new()));
}

#[test]
fn encode_message_of_one_symbol_is_its_code() {
    assert_eq!(encode_message("e"), Ok(".".to_string()));
    assert_eq!(encode_message("  5 "), Ok(".....".to_string()));
}

#[test]
fn encode_message_trims_white_space() {
    assert_eq!(encode_message("  sos  "), Ok("... --- ...".to_string()));
    assert_eq!(encode_message("\n\tsos\r\n"), Ok("... --- ...".to_string()));
    assert_eq!(encode_message("\u{a0} sos\u{3000} "), Ok("... --- ...".to_string()));
    assert_eq!(encode_message("\t a"), Ok(".-".to_string()));
}

#[test]
fn encode_message_marks_every_space() {
    assert_eq!(encode_message("a b"), Ok(".- / -...".to_string()));
    assert_eq!(encode_message("a  b"), Ok(".- / / -...".to_string()));
    assert_eq!(encode_message("a   b c"), Ok(".- / / / -... / -.-.".to_string()));
}

#[test]
fn encode_message_drops_white_space_other_than_spaces() {
    assert_eq!(encode_message("a\tb"), Ok(".- -...".to_string()));
    assert_eq!(encode_message("a\nb"), Ok(".- -...".to_string()));
    assert_eq!(encode_message("a\u{a0}b"), Ok(".- -...".to_string()));
}

#[test]
fn encode_message_keeps_a_space_before_dropped_characters_at_the_end() {
    assert_eq!(encode_message("a ,"), Ok(".- /".to_string()));
    assert_eq!(encode_message("a !?"), Ok(".- /".to_string()));
    assert_eq!(encode_message("hi  ."), Ok(".... .. / /".to_string()));
}

#[test]
fn encode_message_rejects_a_space_in_front() {
    assert_eq!(encode_message(", a"), Err(EncodeError::Unsupported(' ')));
    assert_eq!(encode_message("(  )"), Err(EncodeError::Unsupported(' ')));
    assert_eq!(encode_message("\u{e9} a"), Err(EncodeError::Unsupported(' ')));
}

#[test]
fn encode_message_drops_characters_beyond_ascii() {
    assert_eq!(encode_message("a\u{e9} b"), Ok(".- / -...".to_string()));
    assert_eq!(encode_message("na\u{ef}ve"), Ok("-. .- ...- .".to_string()));
    assert_eq!(encode_message("\u{ff21}b"), Ok("-...".to_string()));
}

#[test]
fn encode_message_ignores_case() {
    assert_eq!(encode_message("MiXeD"), encode_message("mixed"));
    assert_eq!(encode_message("MiXeD"), Ok("-- .. -..- . -..".to_string()));
}

#[test]
fn encode_message_encodes_every_symbol() {
    let code = encode_message("abcdefghijklmnopqrstuvwxyz0123456789").unwrap();
    assert_eq!(code, morse::ENCODED_SEQUENCES.join(" "));
}

#[test]
fn message_round_trip() {
    let text = "The quick brown fox jumps over the lazy dog 0123456789";
    let code = encode_message(text).unwrap();
    assert_eq!(decode_message(&code), Ok(text.to_uppercase()));
    let spaced = "a  b   c";
    assert_eq!(decode_message(&encode_message(spaced).unwrap()), Ok("A  B   C".to_string()));
    assert_eq!(decode_message(&encode_message("a ,").unwrap()), Ok("A ".to_string()));
    assert_eq!(decode_message(&encode_message("a  !").unwrap()), Ok("A  ".to_string()));
    assert_eq!(decode_message(&encode_message("").unwrap()), Ok(String::new()));
    assert_eq!(decode_message(&encode_message(" e ").unwrap()), Ok("E".to_string()));
    assert_eq!(
        decode_message(&encode_message("Stop. Go on, 2 times!").unwrap()),
        Ok("STOP GO ON 2 TIMES".to_string())
    );
}

#[test]
fn encode_message_takes_long_input() {
    let text = "ab ".repeat(20_000);
    let code = encode_message(&text).unwrap();
    assert!(code.starts_with(".- -... / .- -... / "));
    assert!(code.ends_with("/ .- -..."));
    assert_eq!(code.len(), 20_000 * 10 - 3);
}
