use game_of_life::text::{
    chars_of, digit_of, find, is_whitespace, read_flag, read_number, read_signed, read_unsigned,
    spells, trimmed,
};

fn chars(text: &str) -> Vec<char> {
    text.chars().collect()
}

#[test]
fn the_characters_of_a_text_come_in_order() {
    assert_eq!(chars_of(""), Vec::<char>::new());
    assert_eq!(chars_of("aé\u{10348}\n"), vec!['a', 'é', '\u{10348}', '\n']);
}

#[test]
fn white_space_is_what_the_standard_library_takes_for_it() {
    for c in (0..=0x10ffff).filter_map(char::from_u32) {
        assert_eq!(is_whitespace(c), c.is_whitespace(), "{:?}", c);
    }
}

#[test]
fn trimming_takes_the_white_space_at_both_ends() {
    for text in ["", " ", "a", " a", "a ", "  a b  ", "\t\n a\u{3000}b \r\n", "\u{a0}\u{2003}"] {
        assert_eq!(trimmed(&chars(text)), chars(text.trim()), "{:?}", text);
    }
}

#[test]
fn the_first_separator_is_found() {
    assert_eq!(find(&chars(""), ','), 0);
    assert_eq!(find(&chars("abc"), ','), 3);
    assert_eq!(find(&chars(",abc"), ','), 0);
    assert_eq!(find(&chars("ab,c,d"), ','), 2);
    assert_eq!(find(&chars("ab=c,d"), ','), 4);
}

#[test]
fn a_word_is_spelled_letter_by_letter() {
    assert!(spells(&chars("base_x"), "base_x"));
    assert!(spells(&chars(""), ""));
    assert!(!spells(&chars("base_x"), "base_y"));
    assert!(!spells(&chars("base_"), "base_x"));
    assert!(!spells(&chars("base_xx"), "base_x"));
}

#[test]
fn digits_have_their_value() {
    assert_eq!(digit_of('0'), Some(0));
    assert_eq!(digit_of('7'), Some(7));
    assert_eq!(digit_of('9'), Some(9));
    assert_eq!(digit_of('/'), None);
    assert_eq!(digit_of(':'), None);
    assert_eq!(digit_of('a'), None);
    assert_eq!(digit_of('٣'), None);
}

#[test]
fn a_number_is_read_up_to_its_limit() {
    assert_eq!(read_number(&chars("0"), 0), Some(0));
    assert_eq!(read_number(&chars("1"), 0), None);
    assert_eq!(read_number(&chars("123"), 123), Some(123));
    assert_eq!(read_number(&chars("124"), 123), None);
    assert_eq!(read_number(&chars("000123"), 123), Some(123));
    assert_eq!(read_number(&chars(""), 123), None);
    assert_eq!(read_number(&chars("12a"), 123), None);
    assert_eq!(read_number(&chars("9999a"), 123), None);
    assert_eq!(read_number(&chars("4294967295"), u32::MAX), Some(u32::MAX));
    assert_eq!(read_number(&chars("4294967296"), u32::MAX), None);
    assert_eq!(read_number(&chars("42949672950"), u32::MAX), None);
}

#[test]
fn numbers_are_read_as_the_standard_library_reads_them() {
    let texts = [
        "", "0", "7", "42", "+42", "-42", "+", "-", "++1", "--1", "+-1", "-+1", "1+", "1-",
        " 1", "1 ", "1_000", "0x10", "1e3", "1.0", "٣", "00000000000000000000012", "-000",
        "+000", "4294967295", "4294967296", "+4294967295", "-4294967295", "2147483647",
        "2147483648", "-2147483648", "-2147483649", "99999999999999999999", "-0", "+0",
        "-99999999999999999999", "18446744073709551616", "true", "false",
    ];
    for text in texts {
        assert_eq!(read_unsigned(&chars(text)), text.parse::<u32>().ok(), "{:?}", text);
        assert_eq!(read_signed(&chars(text)), text.parse::<i32>().ok(), "{:?}", text);
        assert_eq!(read_flag(&chars(text)), text.parse::<bool>().ok(), "{:?}", text);
    }
    for text in ["True", "FALSE", "tru", "truee", " true", "1", "yes"] {
        assert_eq!(read_flag(&chars(text)), None);
    }
}
