use puzzle_solvers::text::{
    byte_lines_of, chars_of, is_white, lines_of, parse_number, slice_of, split_on, split_words,
};

fn chars(text: &str) -> Vec<char> {
    text.chars().collect()
}

fn strings(parts: &[Vec<char>]) -> Vec<String> {
    parts.iter().map(|part| part.iter().collect()).collect()
}

const TEXTS: [&str; 14] = [
    "",
    "\n",
    "a",
    "a\n",
    "a\nb",
    "a\n\nb\n",
    "a\r\nb\r\n",
    "a\r",
    "a\r\n\r\nb",
    "\r\n",
    "\r",
    "a\rb\n",
    "\n\n",
    "caf\u{e9}\n\u{4e16}\u{754c}\r\n",
];

#[test]
fn characters_come_in_order() {
    assert_eq!(chars_of("a\u{e9}\n"), vec!['a', '\u{e9}', '\n']);
    assert!(chars_of("").is_empty());
    assert_eq!(slice_of(&chars("hello"), 1, 4), chars("ell"));
    assert!(slice_of(&chars("hello"), 2, 2).is_empty());
}

#[test]
fn lines_are_cut_as_the_standard_library_cuts_them() {
    for text in TEXTS {
        let expected: Vec<String> = text.lines().map(String::from).collect();
        assert_eq!(strings(&lines_of(text)), expected, "for {:?}", text);
        let bytes: Vec<Vec<u8>> = text.lines().map(|line| line.bytes().collect()).collect();
        assert_eq!(byte_lines_of(text), bytes, "for {:?}", text);
    }
}

#[test]
fn fields_lie_between_separators() {
    for text in ["", ",", "a", "a,b", ",a,,b,", "12|34", "a, b"] {
        let expected: Vec<String> = text.split(',').map(String::from).collect();
        assert_eq!(strings(&split_on(&chars(text), ',')), expected, "for {:?}", text);
    }
    assert_eq!(strings(&split_on(&chars("12|34"), '|')), vec!["12", "34"]);
}

#[test]
fn words_lie_between_white_space() {
    for text in ["", " ", "a", " a  b\tc\n", "1 2\u{a0}3", "\u{2003}x\u{3000}", "a\u{200b}b"] {
        let expected: Vec<String> = text.split_whitespace().map(String::from).collect();
        assert_eq!(strings(&split_words(&chars(text))), expected, "for {:?}", text);
    }
}

#[test]
fn white_space_is_what_unicode_says() {
    for code in 0..=0x10ffff_u32 {
        if let Some(c) = char::from_u32(code) {
            assert_eq!(is_white(c), c.is_whitespace(), "for {:?}", c);
        }
    }
}

#[test]
fn numbers_are_read_within_their_bounds() {
    let low = i32::MIN as i128;
    let high = i32::MAX as i128;
    assert_eq!(parse_number(&chars("0"), low, high), Some(0));
    assert_eq!(parse_number(&chars("-0"), low, high), Some(0));
    assert_eq!(parse_number(&chars("+17"), low, high), Some(17));
    assert_eq!(parse_number(&chars("-17"), low, high), Some(-17));
    assert_eq!(parse_number(&chars("007"), low, high), Some(7));
    assert_eq!(parse_number(&chars("2147483647"), low, high), Some(2147483647));
    assert_eq!(parse_number(&chars("2147483648"), low, high), None);
    assert_eq!(parse_number(&chars("-2147483648"), low, high), Some(-2147483648));
    assert_eq!(parse_number(&chars("-2147483649"), low, high), None);
    assert_eq!(parse_number(&chars("0000000000000000000000000000000000000000001"), 0, 5), Some(1));
    assert_eq!(parse_number(&chars("99999999999999999999999999999999999999999999"), 0, 5), None);
    for text in ["", "-", "+", "1a", "a1", " 1", "1 ", "--1", "+-1", "1.0", "\u{663}"] {
        assert_eq!(parse_number(&chars(text), low, high), None, "for {:?}", text);
        assert!(text.parse::<i32>().is_err());
    }
    for text in ["0", "-0", "+17", "-17", "007", "2147483647", "-2147483648"] {
        let expected = text.parse::<i32>().unwrap() as i128;
        assert_eq!(parse_number(&chars(text), low, high), Some(expected));
    }
}
