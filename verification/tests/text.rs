use lumixbackup::text::{
    chars_of, decimal_text, eq_ignore_ascii_case, parse_number, same_text, split_on, string_of,
    to_ascii_lower, to_ascii_lowercase,
};

#[test]
fn chars_and_back() {
    let chars = chars_of("héllo");
    assert_eq!(chars, vec!['h', 'é', 'l', 'l', 'o']);
    assert_eq!(string_of(&chars, 1, 4), "éll");
    assert_eq!(string_of(&chars, 2, 2), "");
    assert_eq!(string_of(&chars, 0, 5), "héllo");
}

#[test]
fn only_ascii_capitals_are_lowered() {
    assert_eq!(to_ascii_lower('A'), 'a');
    assert_eq!(to_ascii_lower('Z'), 'z');
    assert_eq!(to_ascii_lower('m'), 'm');
    assert_eq!(to_ascii_lower('@'), '@');
    assert_eq!(to_ascii_lower('['), '[');
    assert_eq!(to_ascii_lower('É'), 'É');
    assert_eq!(to_ascii_lowercase("JPG"), "jpg");
    assert_eq!(to_ascii_lowercase("Rw2"), "rw2");
    assert_eq!(to_ascii_lowercase("ÉCLAIR.Mov"), "Éclair.mov");
    assert_eq!(to_ascii_lowercase(""), "");
}

#[test]
fn lowering_agrees_with_std() {
    for code in 0u32..0x3000 {
        if let Some(c) = char::from_u32(code) {
            assert_eq!(to_ascii_lower(c), c.to_ascii_lowercase());
        }
    }
}

#[test]
fn equality_without_regard_to_ascii_case() {
    assert!(eq_ignore_ascii_case("jpg", "JPG"));
    assert!(eq_ignore_ascii_case("DcIm", "dcim"));
    assert!(eq_ignore_ascii_case("", ""));
    assert!(!eq_ignore_ascii_case("jpg", "jpeg"));
    assert!(!eq_ignore_ascii_case("jpg", "jp"));
    assert!(!eq_ignore_ascii_case("é", "É"));
    assert!(!eq_ignore_ascii_case("a", "b"));
}

#[test]
fn equality_without_regard_to_case_agrees_with_std() {
    let samples = ["", "a", "A", "jpg", "JPG", "jPg", "jpeg", "é", "É", "straße", "STRASSE", "k", "K"];
    for a in samples {
        for b in samples {
            assert_eq!(eq_ignore_ascii_case(a, b), a.eq_ignore_ascii_case(b));
        }
    }
}

#[test]
fn exact_equality() {
    assert!(same_text(".Trashes", ".Trashes"));
    assert!(!same_text(".Trashes", ".trashes"));
    assert!(!same_text("a", "ab"));
    assert!(same_text("", ""));
}

#[test]
fn numbers_in_decimal() {
    assert_eq!(decimal_text(0), "0");
    assert_eq!(decimal_text(7), "7");
    assert_eq!(decimal_text(10), "10");
    assert_eq!(decimal_text(1203), "1203");
    assert_eq!(decimal_text(u64::MAX as u128 + 1), "18446744073709551616");
    assert_eq!(decimal_text(u128::MAX), u128::MAX.to_string());
}

#[test]
fn splitting_keeps_empty_pieces() {
    assert_eq!(split_on("a,b,c", ','), vec!["a", "b", "c"]);
    assert_eq!(split_on("", ','), vec![""]);
    assert_eq!(split_on(",", ','), vec!["", ""]);
    assert_eq!(split_on("a,,b,", ','), vec!["a", "", "b", ""]);
    assert_eq!(split_on("1 2  3", ' '), vec!["1", "2", "", "3"]);
    assert_eq!(split_on("no separator", ','), vec!["no separator"]);
}

#[test]
fn splitting_agrees_with_std() {
    for text in ["", " ", "a b", " a  b ", "x,y", "  ", "a"] {
        let expected: Vec<String> = text.split(' ').map(|p| p.to_string()).collect();
        assert_eq!(split_on(text, ' '), expected);
    }
}

#[test]
fn numbers_are_read_as_std_reads_them() {
    assert_eq!(parse_number("0"), Some(0));
    assert_eq!(parse_number("42"), Some(42));
    assert_eq!(parse_number("+42"), Some(42));
    assert_eq!(parse_number("007"), Some(7));
    assert_eq!(parse_number(""), None);
    assert_eq!(parse_number("+"), None);
    assert_eq!(parse_number("-1"), None);
    assert_eq!(parse_number("++1"), None);
    assert_eq!(parse_number("1+"), None);
    assert_eq!(parse_number(" 1"), None);
    assert_eq!(parse_number("1 "), None);
    assert_eq!(parse_number("1_000"), None);
    assert_eq!(parse_number("12a"), None);
    assert_eq!(parse_number("١٢"), None);
    assert_eq!(parse_number(&usize::MAX.to_string()), Some(usize::MAX));
    assert_eq!(parse_number("18446744073709551616"), None);
    assert_eq!(parse_number("99999999999999999999999999"), None);
    for text in ["0", "+", "", "+0", "000", "18446744073709551615", "18446744073709551616", "1x"] {
        assert_eq!(parse_number(text), text.parse::<usize>().ok());
    }
}
