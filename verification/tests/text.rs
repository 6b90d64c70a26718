use elscione_sync::order::{are_distinct, comes_before};
use elscione_sync::text::{
    chars_of, contains_text, eq_ignore_ascii_case, find_text, is_whitespace, lower_char,
    parse_u64, push_decimal, push_padded, same_text, signed_decimal_text, split_chars, trim_chars, trim_end_chars,
    trim_start_matches,
};

#[test]
fn characters_are_classified_as_by_the_standard_library() {
    for n in 0..=0x10FFFFu32 {
        if let Some(c) = char::from_u32(n) {
            assert_eq!(is_whitespace(c), c.is_whitespace(), "{:x}", n);
            assert_eq!(lower_char(c), c.to_ascii_lowercase(), "{:x}", n);
        }
    }
}

#[test]
fn numbers() {
    for n in [0u64, 1, 9, 10, 99, 100, 12345, u64::MAX] {
        let mut out = String::new();
        push_decimal(&mut out, n);
        assert_eq!(out, n.to_string());
    }
    for n in [0i64, -1, 10, i64::MIN, i64::MAX] {
        assert_eq!(signed_decimal_text(n), n.to_string());
    }
    for s in [
        "", "+", "-", "0", "00", "+7", "-7", "++7", " 7", "7 ", "18446744073709551615",
        "18446744073709551616", "99999999999999999999", "12a", "٣",
    ] {
        assert_eq!(parse_u64(&chars_of(s)), s.parse::<u64>().ok(), "{:?}", s);
    }
}

#[test]
fn trimming_splitting_and_searching() {
    for s in ["", "/", "//a//b//", "a", " a b\u{3000}", ";;", "x;y; ;z"] {
        assert_eq!(trim_start_matches(s, '/'), s.trim_start_matches('/'));
        let trimmed: Vec<char> = s.trim_end_matches('/').chars().collect();
        assert_eq!(trim_end_chars(&chars_of(s), '/'), trimmed);
        assert_eq!(trim_chars(&chars_of(s)).into_iter().collect::<String>(), s.trim());
        let pieces: Vec<String> =
            split_chars(&chars_of(s), ';').into_iter().map(|p| p.into_iter().collect()).collect();
        let expected: Vec<String> = s.split(';').map(|p| p.to_owned()).collect();
        assert_eq!(pieces, expected);
        for needle in ["", "/", "a", "b/", "; "] {
            assert_eq!(contains_text(&chars_of(s), &chars_of(needle)), s.contains(needle));
        }
    }
    assert_eq!(find_text(&chars_of("abcabc"), &chars_of("bc"), 2), Some(4));
    assert_eq!(find_text(&chars_of("abc"), &chars_of("x"), 0), None);
    assert!(eq_ignore_ascii_case("ÄbC", "ÄBc") && !eq_ignore_ascii_case("ä", "Ä"));
    assert!(same_text("a", "a") && !same_text("a", "A"));
}

#[test]
fn padding() {
    let mut text = String::from("[");
    push_padded(&mut text, "日本", 4);
    push_padded(&mut text, "longer", 4);
    push_padded(&mut text, "", 1);
    assert_eq!(text, format!("[{:<4}{:<4}{:<1}", "日本", "longer", ""));
}

#[test]
fn order_of_texts() {
    let texts = ["", "A", "B", "a", "aa", "ab", "b", "é", "日", "\u{ffff}", "😀"];
    for a in texts {
        for b in texts {
            assert_eq!(comes_before(a, b), a < b, "{:?} {:?}", a, b);
        }
    }
    let list = |t: &[&str]| t.iter().map(|s| s.to_string()).collect::<Vec<String>>();
    assert!(are_distinct(&list(&texts)));
    assert!(!are_distinct(&list(&["b", "a", "c", "a"])));
    assert!(are_distinct(&list(&[])));
}
