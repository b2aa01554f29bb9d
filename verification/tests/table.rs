use morse::table::{LETTER_COUNT, SYMBOL_COUNT};
use morse::tree::{MAX_CODE_LEN, MAX_INDEXED_LEN, TREE_SLOTS};
use morse::{character_index, decode_character, encode_byte, DECODING_ARRAY, ENCODED_SEQUENCES, NO_SYMBOL};

const SYMBOLS: &str = "ABCDEFGHIJKLMNOPQRSTUVWXYZ0123456789";

#[test]
fn char_to_code_works() {
    let sequence = "abcdefghijklmnopqrstuvwxyz0123456789";
    let pairs = sequence.bytes().zip(ENCODED_SEQUENCES);

    for (u, code) in pairs {
        assert_eq!(encode_byte(u).unwrap(), code);
    }
}

#[test]
fn table_holds_the_international_codes() {
    let expected = [
        ('A', ".-"),
        ('B', "-..."),
        ('C', "-.-."),
        ('D', "-.."),
        ('E', "."),
        ('F', "..-."),
        ('G', "--."),
        ('H', "...."),
        ('I', ".."),
        ('J', ".---"),
        ('K', "-.-"),
        ('L', ".-.."),
        ('M', "--"),
        ('N', "-."),
        ('O', "---"),
        ('P', ".--."),
        ('Q', "--.-"),
        ('R', ".-."),
        ('S', "..."),
        ('T', "-"),
        ('U', "..-"),
        ('V', "...-"),
        ('W', ".--"),
        ('X', "-..-"),
        ('Y', "-.--"),
        ('Z', "--.."),
        ('0', "-----"),
        ('1', ".----"),
        ('2', "..---"),
        ('3', "...--"),
        ('4', "....-"),
        ('5', "....."),
        ('6', "-...."),
        ('7', "--..."),
        ('8', "---.."),
        ('9', "----."),
    ];
    assert_eq!(expected.len(), SYMBOL_COUNT);
    assert_eq!(ENCODED_SEQUENCES.len(), SYMBOL_COUNT);
    assert_eq!(LETTER_COUNT, 26);
    for (position, (symbol, code)) in expected.iter().enumerate() {
        assert_eq!(ENCODED_SEQUENCES[position], *code);
        assert_eq!(encode_byte(*symbol as u8), Ok(*code));
        assert_eq!(decode_character(code), Ok(*symbol as u8));
    }
}

#[test]
fn upper_and_lower_case_share_a_code() {
    for (lower, upper) in ('a'..='z').zip('A'..='Z') {
        assert_eq!(encode_byte(lower as u8), encode_byte(upper as u8));
    }
    assert_eq!(encode_byte(b'q'), Ok("--.-"));
    assert_eq!(encode_byte(b'Q'), Ok("--.-"));
}

#[test]
fn decoding_undoes_encoding() {
    for u in 0..=255u8 {
        if u.is_ascii_alphanumeric() {
            let code = encode_byte(u).unwrap();
            assert_eq!(decode_character(code), Ok(u.to_ascii_uppercase()));
        }
    }
    assert_eq!(decode_character(encode_byte(b'k').unwrap()), Ok(b'K'));
    assert_eq!(decode_character(encode_byte(b'7').unwrap()), Ok(b'7'));
}

#[test]
fn codes_are_pairwise_distinct() {
    for i in 0..SYMBOL_COUNT {
        for j in 0..SYMBOL_COUNT {
            if i != j {
                assert_ne!(ENCODED_SEQUENCES[i], ENCODED_SEQUENCES[j]);
            }
        }
    }
}

#[test]
fn a_code_is_a_prefix_of_another_only_if_shorter() {
    let mut pairs = 0;
    for i in 0..SYMBOL_COUNT {
        for j in 0..SYMBOL_COUNT {
            if i != j && ENCODED_SEQUENCES[j].starts_with(ENCODED_SEQUENCES[i]) {
                assert!(ENCODED_SEQUENCES[i].len() < ENCODED_SEQUENCES[j].len());
                pairs += 1;
            }
        }
    }
    assert_eq!(pairs, 92);
    // The code of E begins the code of A.
    assert_eq!(ENCODED_SEQUENCES[4], ".");
    assert_eq!(ENCODED_SEQUENCES[0], ".-");
}

#[test]
fn codes_have_one_to_five_marks() {
    assert_eq!(MAX_CODE_LEN, 5);
    for code in ENCODED_SEQUENCES {
        assert!(1 <= code.len() && code.len() <= MAX_CODE_LEN);
        assert!(code.chars().all(|c| c == '.' || c == '-'));
    }
}

#[test]
fn codes_lead_to_distinct_nodes_in_range() {
    assert_eq!(TREE_SLOTS, 63);
    let mut seen = [false; 63];
    for code in ENCODED_SEQUENCES {
        let node = character_index(code).unwrap();
        assert!(node <= 62);
        assert!(node >= 1);
        assert!(!seen[node]);
        seen[node] = true;
    }
}

#[test]
fn decoding_array_inverts_the_table() {
    assert_eq!(DECODING_ARRAY.len(), TREE_SLOTS);
    assert_eq!(NO_SYMBOL, 0);
    let mut filled = 0;
    for (position, code) in ENCODED_SEQUENCES.iter().enumerate() {
        let node = character_index(code).unwrap();
        assert_eq!(DECODING_ARRAY[node], SYMBOLS.as_bytes()[position]);
        filled += 1;
    }
    let held = DECODING_ARRAY.iter().filter(|symbol| **symbol != NO_SYMBOL).count();
    assert_eq!(held, filled);
    assert_eq!(held, 36);
    assert_eq!(DECODING_ARRAY[0], NO_SYMBOL);
    assert_eq!(DECODING_ARRAY[1], b'E');
    assert_eq!(DECODING_ARRAY[2], b'T');
    assert_eq!(DECODING_ARRAY[18], NO_SYMBOL);
    assert_eq!(DECODING_ARRAY[31], b'5');
    assert_eq!(DECODING_ARRAY[62], b'0');
}

#[test]
fn index_follows_the_marks_down_the_tree() {
    assert_eq!(character_index(""), Some(0));
    assert_eq!(character_index("."), Some(1));
    assert_eq!(character_index("-"), Some(2));
    assert_eq!(character_index(".."), Some(3));
    assert_eq!(character_index(".-"), Some(4));
    assert_eq!(character_index("-."), Some(5));
    assert_eq!(character_index("--"), Some(6));
    assert_eq!(character_index("..--"), Some(18));
    assert_eq!(character_index("....."), Some(31));
    assert_eq!(character_index("-----"), Some(62));
}

#[test]
fn index_is_a_bijection_on_short_mark_sequences() {
    let mut seen = [false; 63];
    let mut sequences = vec![String::new()];
    for _ in 0..5 {
        let mut longer = Vec::new();
        for s in &sequences {
            longer.push(format!("{}.", s));
            longer.push(format!("{}-", s));
        }
        for s in &sequences {
            let node = character_index(s).unwrap();
            assert!(!seen[node]);
            seen[node] = true;
        }
        sequences = longer;
    }
    for s in &sequences {
        let node = character_index(s).unwrap();
        assert!(!seen[node]);
        seen[node] = true;
    }
    assert!(seen.iter().all(|s| *s));
}

#[test]
fn index_goes_on_beyond_the_stored_tree() {
    assert_eq!(character_index("......"), Some(63));
    assert_eq!(character_index(".....-"), Some(64));
    assert_eq!(character_index("-....."), Some(95));
    assert_eq!(character_index("------"), Some(126));
    assert_eq!(character_index("-------"), Some(254));
    for code in ["......", ".-.-.-", "--..--", "------"] {
        let node = character_index(code).unwrap();
        assert!(63 <= node && node <= 126);
        assert!(node >= TREE_SLOTS);
    }
}

#[test]
fn index_is_the_level_and_the_binary_value() {
    for n in 0..=MAX_INDEXED_LEN {
        let dots = ".".repeat(n);
        let dashes = "-".repeat(n);
        assert_eq!(character_index(&dots), Some((1usize << n) - 1));
        assert_eq!(character_index(&dashes), Some((1usize << n) - 1 + ((1usize << n) - 1)));
    }
    // 0b1011 with four marks, 0b010011 with six.
    assert_eq!(character_index("-.--"), Some(15 + 11));
    assert_eq!(character_index(".-..--"), Some(63 + 19));
    let longest = "-.".repeat(15);
    let mut value = 0usize;
    for _ in 0..15 {
        value = value * 4 + 2;
    }
    assert_eq!(character_index(&longest), Some((1usize << 30) - 1 + value));
    assert_eq!(character_index(&"-".repeat(30)), Some(2_147_483_646));
}

#[test]
fn index_stops_at_the_longest_indexed_sequence() {
    assert_eq!(MAX_INDEXED_LEN, 30);
    assert!(character_index(&".".repeat(30)).is_some());
    assert_eq!(character_index(&".".repeat(31)), None);
    assert_eq!(character_index(&"-".repeat(31)), None);
    assert_eq!(character_index(&".".repeat(100)), None);
    assert_eq!(character_index(&"-".repeat(100_000)), None);
}

#[test]
fn index_refuses_what_is_no_mark() {
    assert_eq!(character_index("x"), None);
    assert_eq!(character_index(".x"), None);
    assert_eq!(character_index("x."), None);
    assert_eq!(character_index(". -"), None);
    assert_eq!(character_index(" "), None);
    assert_eq!(character_index("\u{2013}"), None);
    assert_eq!(character_index("......x"), None);
}

#[test]
fn index_of_works_on_characters() {
    assert_eq!(morse::tree::index_of(&['.', '-', '.']), Some(9));
    assert_eq!(morse::tree::index_of(&[]), Some(0));
    assert_eq!(morse::tree::index_of(&['.', '/']), None);
    assert_eq!(morse::tree::index_of(&['-', '-', '-', '-', '-', '-']), Some(126));
    assert_eq!(morse::tree::index_of(&['.'; 31]), None);
}
