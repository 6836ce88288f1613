use sysdoc::text::{
    chars_of, decimal_string, find_char, join_strings, parse_decimal, split_chars, text_ends_with,
    text_equal, text_less,
};

fn chars(s: &str) -> Vec<char> {
    s.chars().collect()
}

#[test]
fn chars_are_those_of_the_text() {
    assert_eq!(chars_of("añ€😀"), vec!['a', 'ñ', '€', '😀']);
    assert!(chars_of("").is_empty());
}

#[test]
fn lexical_order_agrees_with_string_order() {
    let samples = ["", "a", "A", "ab", "b", "B", "10", "9", "z", "é", "e", "€", "😀", "aa", "a "];
    for a in samples {
        for b in samples {
            assert_eq!(text_less(a, b), a < b, "{:?} < {:?}", a, b);
            assert_eq!(text_equal(a, b), a == b, "{:?} == {:?}", a, b);
        }
    }
}

#[test]
fn suffixes_are_found() {
    assert!(text_ends_with("table.csv", ".csv"));
    assert!(text_ends_with(".csv", ".csv"));
    assert!(text_ends_with("anything", ""));
    assert!(text_ends_with("", ""));
    assert!(!text_ends_with("csv", ".csv"));
    assert!(!text_ends_with("table.csv ", ".csv"));
    assert!(!text_ends_with("table.csx", ".csv"));
    assert!(!text_ends_with("", ".csv"));
}

#[test]
fn splitting_keeps_empty_pieces() {
    let split = |s: &str, sep: char| -> Vec<String> {
        split_chars(&chars(s), sep).iter().map(|p| p.iter().collect()).collect()
    };
    assert_eq!(split("a.b.c", '.'), vec!["a", "b", "c"]);
    assert_eq!(split("", '.'), vec![""]);
    assert_eq!(split(".", '.'), vec!["", ""]);
    assert_eq!(split("a..b.", '.'), vec!["a", "", "b", ""]);
    assert_eq!(split("no separator", '.'), vec!["no separator"]);
    for s in ["", "1.2", "..", "x.y.", ".x"] {
        let expected: Vec<String> = s.split('.').map(|p| p.to_string()).collect();
        assert_eq!(split(s, '.'), expected);
    }
}

#[test]
fn first_occurrence_is_found() {
    assert_eq!(find_char(&chars("2024-01-01T10:00"), 'T'), 10);
    assert_eq!(find_char(&chars("TT"), 'T'), 0);
    assert_eq!(find_char(&chars("none"), 'T'), 4);
    assert_eq!(find_char(&chars(""), 'T'), 0);
}

#[test]
fn decimal_numbers_are_read_as_integers_are() {
    assert_eq!(parse_decimal(&chars("0"), 10), Some(0));
    assert_eq!(parse_decimal(&chars("007"), 10), Some(7));
    assert_eq!(parse_decimal(&chars("+10"), 10), Some(10));
    assert_eq!(parse_decimal(&chars("11"), 10), None);
    assert_eq!(parse_decimal(&chars(""), 10), None);
    assert_eq!(parse_decimal(&chars("+"), 10), None);
    assert_eq!(parse_decimal(&chars("-1"), 10), None);
    assert_eq!(parse_decimal(&chars("++1"), 10), None);
    assert_eq!(parse_decimal(&chars("1+"), 10), None);
    assert_eq!(parse_decimal(&chars("1 "), 10), None);
    assert_eq!(parse_decimal(&chars("٣"), 10), None);
    assert_eq!(parse_decimal(&chars("18446744073709551615"), u64::MAX), Some(u64::MAX));
    assert_eq!(parse_decimal(&chars("18446744073709551616"), u64::MAX), None);
    assert_eq!(parse_decimal(&chars("184467440737095516150"), u64::MAX), None);
    for s in ["0", "12", "+5", "4294967295", "4294967296", "x", "", "1x"] {
        assert_eq!(parse_decimal(&chars(s), 4294967295), s.parse::<u32>().ok().map(|v| v as u64));
    }
}

#[test]
fn decimal_notation_has_no_leading_zeros() {
    assert_eq!(decimal_string(0), "0");
    assert_eq!(decimal_string(9), "9");
    assert_eq!(decimal_string(10), "10");
    assert_eq!(decimal_string(1234567890), "1234567890");
    assert_eq!(decimal_string(u64::MAX), "18446744073709551615");
}

#[test]
fn joining_puts_the_separator_between_items() {
    let items = |l: &[&str]| -> Vec<String> { l.iter().map(|s| s.to_string()).collect() };
    assert_eq!(join_strings(&items(&[]), ","), "");
    assert_eq!(join_strings(&items(&["a"]), ","), "a");
    assert_eq!(join_strings(&items(&["a", "b", "c"]), ","), "a,b,c");
    assert_eq!(join_strings(&items(&["", ""]), ", "), ", ");
    assert_eq!(join_strings(&items(&["1", "2"]), ""), "12");
}
