use pl0::number::{
    characters, parse_integer, parse_number, read_digits, read_integer, whitespace,
};
use pl0::text::same_text;

#[test]
fn a_line_is_read_without_the_whitespace_around_it() {
    assert_eq!(parse_integer("42"), Some(42));
    assert_eq!(parse_integer("42\n"), Some(42));
    assert_eq!(parse_integer("  \t-7 \r\n"), Some(-7));
    assert_eq!(parse_integer("\u{a0}+5\u{3000}"), Some(5));
}

#[test]
fn a_line_that_is_no_number_is_refused() {
    assert_eq!(parse_integer(""), None);
    assert_eq!(parse_integer("   "), None);
    assert_eq!(parse_integer("abc"), None);
    assert_eq!(parse_integer("1 2"), None);
    assert_eq!(parse_integer("12a"), None);
    assert_eq!(parse_integer("+"), None);
    assert_eq!(parse_integer("-"), None);
    assert_eq!(parse_integer("+-3"), None);
    assert_eq!(parse_integer("- 3"), None);
    assert_eq!(parse_integer("1.5"), None);
    assert_eq!(parse_integer("0x10"), None);
    assert_eq!(parse_integer("\u{0663}"), None);
}

#[test]
fn the_range_of_32_bits_is_the_limit() {
    assert_eq!(parse_integer("2147483647"), Some(i32::MAX));
    assert_eq!(parse_integer("+2147483647"), Some(i32::MAX));
    assert_eq!(parse_integer("2147483648"), None);
    assert_eq!(parse_integer("-2147483648"), Some(i32::MIN));
    assert_eq!(parse_integer("-2147483649"), None);
    assert_eq!(parse_integer("99999999999999999999999999"), None);
    assert_eq!(parse_integer("-0"), Some(0));
    assert_eq!(parse_integer("00000000000000000000012"), Some(12));
}

#[test]
fn parse_integer_agrees_with_the_standard_parse() {
    for line in ["0", "  17 ", "-45\n", "+9", "x", "", "3000000000", " 1 1 ", "٣", "\u{2003}8"] {
        assert_eq!(parse_integer(line), line.trim().parse::<i32>().ok(), "line {:?}", line);
    }
}

#[test]
fn parse_number_takes_no_whitespace() {
    assert_eq!(parse_number("12"), Some(12));
    assert_eq!(parse_number("-12"), Some(-12));
    assert_eq!(parse_number(" 12"), None);
    assert_eq!(parse_number("12 "), None);
    assert_eq!(parse_number(""), None);
    for text in ["0", "17", "-45", "+9", "x", "", "3000000000", " 1", "1_000"] {
        assert_eq!(parse_number(text), text.parse::<i32>().ok(), "text {:?}", text);
    }
}

#[test]
fn digits_are_read_between_two_places() {
    let chars: Vec<char> = "ab123cd".chars().collect();
    assert_eq!(read_digits(&chars, 2, 5, false), Some(123));
    assert_eq!(read_digits(&chars, 2, 5, true), Some(-123));
    assert_eq!(read_digits(&chars, 2, 4, false), Some(12));
    assert_eq!(read_digits(&chars, 2, 2, false), None);
    assert_eq!(read_digits(&chars, 1, 5, false), None);
    let limit: Vec<char> = "2147483648".chars().collect();
    assert_eq!(read_digits(&limit, 0, 10, true), Some(i32::MIN));
    assert_eq!(read_digits(&limit, 0, 10, false), None);
}

#[test]
fn a_sign_may_stand_in_front_of_the_digits() {
    let chars: Vec<char> = "x-12+3".chars().collect();
    assert_eq!(read_integer(&chars, 1, 4), Some(-12));
    assert_eq!(read_integer(&chars, 4, 6), Some(3));
    assert_eq!(read_integer(&chars, 2, 4), Some(12));
    assert_eq!(read_integer(&chars, 1, 6), None);
    assert_eq!(read_integer(&chars, 1, 2), None);
    assert_eq!(read_integer(&chars, 3, 3), None);
}

#[test]
fn whitespace_is_what_the_standard_library_calls_whitespace() {
    let mut code = 0u32;
    while code <= 0x3100 {
        if let Some(c) = char::from_u32(code) {
            assert_eq!(whitespace(c), c.is_whitespace(), "character {:#x}", code);
        }
        code += 1;
    }
    assert!(!whitespace('\u{feff}'));
    assert!(!whitespace('\u{200b}'));
}

#[test]
fn characters_are_those_of_the_text() {
    assert_eq!(characters("a\u{e9}\u{1f600}z"), vec!['a', '\u{e9}', '\u{1f600}', 'z']);
    assert_eq!(characters(""), Vec::<char>::new());
}

#[test]
fn same_text_compares_characters() {
    assert!(same_text("BEGIN", "BEGIN"));
    assert!(same_text("", ""));
    assert!(!same_text("BEGIN", "BEGIM"));
    assert!(!same_text("BEGIN", "BEGI"));
    assert!(!same_text("a", "\u{e9}"));
    assert!(same_text("\u{e9}", "\u{e9}"));
}
