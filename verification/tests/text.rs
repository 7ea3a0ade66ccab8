use avet::bytes::{push_all, push_be, push_le, read_be, read_le, same_bytes};
use avet::text::{
    as_text, contains, copied, decimal_string, ends_with, find_from, from_chars, is_at, is_less,
    is_number, join, listed, parse_digits, parse_signed, parse_unsigned, same, space, split, split_lines,
    split_words, starts_with, to_chars, trim, trim_back, trim_range, Separator,
};

fn texts(parts: &[Vec<char>]) -> Vec<String> {
    parts.iter().map(|p| p.iter().collect()).collect()
}

#[test]
fn numbers_round_trip() {
    for n in [0u64, 7, 10, 1_000_000, u64::MAX] {
        let text = decimal_string(n);
        assert_eq!(text, n.to_string());
        assert_eq!(parse_unsigned(&to_chars(&text), u64::MAX), Some(n));
    }
    assert_eq!(parse_unsigned(&to_chars("+5"), 100), Some(5));
    assert_eq!(parse_unsigned(&to_chars("101"), 100), None);
    assert_eq!(parse_unsigned(&to_chars(""), 100), None);
    assert_eq!(parse_unsigned(&to_chars("5x"), 100), None);
    assert_eq!(parse_digits(&to_chars("x12"), 1, 100), Some(12));
    assert_eq!(parse_signed(&to_chars("-9223372036854775808")), Some(i64::MIN));
    assert_eq!(parse_signed(&to_chars("9223372036854775808")), None);
}

#[test]
fn text_is_cut_as_the_standard_library_cuts_it() {
    let text = " \u{3000}a b\t\tc \r\n";
    assert_eq!(from_chars(&trim(&to_chars(text))), text.trim());
    assert_eq!(from_chars(&trim_back(&to_chars(text))), text.trim_end());
    assert_eq!(trim_range(&to_chars("  x ")), (2, 3));
    assert_eq!(texts(&split_words(&to_chars(text))), text.split_whitespace().collect::<Vec<_>>());
    let lines = "one\r\ntwo\n\nthree";
    assert_eq!(texts(&split_lines(&to_chars(lines))), lines.lines().collect::<Vec<_>>());
    assert_eq!(
        texts(&split(&to_chars("a,,b"), Separator::Char { c: ',' })),
        "a,,b".split(',').collect::<Vec<_>>()
    );
    assert!(space('\u{00A0}') && space('\u{0085}') && !space('\u{200B}'));
}

#[test]
fn parts_are_found() {
    let s = to_chars("abcabc");
    assert!(starts_with(&s, "abc") && ends_with(&s, "bc") && contains(&s, "ca"));
    assert!(!starts_with(&s, "b") && !contains(&s, "cb"));
    assert_eq!(find_from(&s, &['b', 'c'], 2), Some(4));
    assert!(is_at(&s, &['c'], 5) && !is_at(&s, &['c'], 6));
    assert!(same("ü", "ü") && !same("a", "b"));
}

#[test]
fn lists_are_joined_and_searched() {
    let list: Vec<String> = ["a", "b"].iter().map(|s| s.to_string()).collect();
    assert_eq!(join(&list, ", "), "a, b");
    assert_eq!(copied(&list), list);
    assert!(listed(&list, "b") && !listed(&list, "c"));
    assert_eq!(as_text(&Some("x".to_string())), Some("x"));
    assert_eq!(as_text(&None), None);
    for (a, b) in [("a", "b"), ("a", "aa"), ("B", "a"), ("z", "ä"), ("", "a")] {
        assert_eq!(is_less(a, b), a < b);
        assert_eq!(is_less(b, a), b < a);
    }
}

#[test]
fn numbers_of_bytes_round_trip() {
    let mut out = Vec::new();
    push_le(&mut out, 0x0102_0304, 4);
    push_be(&mut out, 0x0102_0304, 4);
    assert_eq!(out, [4, 3, 2, 1, 1, 2, 3, 4]);
    assert_eq!(read_le(&out, 0, 4), 0x0102_0304);
    assert_eq!(read_be(&out, 4, 4), 0x0102_0304);
    push_all(&mut out, &[9]);
    assert!(same_bytes(&out[7..], &[4, 9]) && !same_bytes(&out, &[]));
}

#[test]
fn a_number_in_floating_point_is_told_from_other_text() {
    for s in [
        "", "+", "-", ".", "0", "7.", ".5", "-.5", "+1.25", "1.2.3", "1e5", "1E-5", "1e+", "1e",
        "e5", ".e5", "1.e5", "1e5E3", "1E5e3", "inf", "-Inf", "infinity", "INFINITY", "infin",
        "nan", "+NaN", "nana", "--1", "1 ", " 1", "0x1", "1_0", "1e5.0", "1,5", "\u{663}", "12a",
        "1e999",
    ] {
        assert_eq!(is_number(&to_chars(s)), s.parse::<f64>().is_ok(), "{s}");
    }
}
