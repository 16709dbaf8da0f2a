use dummytext::codec::{char2num, decode_symbols, encode_text, num2char, ALPHABET};

#[test]
fn letters_encode_to_their_position() {
    assert_eq!(char2num('a'), 1);
    assert_eq!(char2num('m'), 13);
    assert_eq!(char2num('z'), 26);
}

#[test]
fn upper_case_letters_fold() {
    assert_eq!(char2num('A'), 1);
    assert_eq!(char2num('Z'), 26);
    assert_eq!(char2num('Q'), char2num('q'));
}

#[test]
fn non_letters_encode_to_zero() {
    for c in [' ', '\n', '0', '9', '.', '@', '[', '`', '{', '\u{e9}', '\u{212a}'] {
        assert_eq!(char2num(c), 0);
    }
}

#[test]
fn symbols_decode_to_space_and_letters() {
    assert_eq!(num2char(0), ' ');
    assert_eq!(num2char(1), 'a');
    assert_eq!(num2char(26), 'z');
}

#[test]
fn decode_of_encode_lowercases_letters() {
    for c in ('a'..='z').chain('A'..='Z') {
        assert_eq!(num2char(char2num(c)), c.to_ascii_lowercase());
    }
}

#[test]
fn decode_of_encode_turns_others_into_space() {
    for c in ['\t', '!', '5', '\u{df}', '\u{3a9}', '~'] {
        assert_eq!(num2char(char2num(c)), ' ');
    }
}

#[test]
fn every_symbol_has_a_character() {
    for n in 0..ALPHABET {
        assert_eq!(char2num(num2char(n)), n);
    }
}

#[test]
fn texts_encode_and_decode() {
    let text: Vec<char> = "Hi, Bo!".chars().collect();
    let syms = encode_text(&text);
    assert_eq!(syms, vec![8, 9, 0, 0, 2, 15, 0]);
    let back: String = decode_symbols(&syms).into_iter().collect();
    assert_eq!(back, "hi  bo ");
}
