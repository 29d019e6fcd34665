use course_kudasai::text::{decimal_string, parse_i32_str, same_text, trim_str};

#[test]
fn trim_drops_unicode_whitespace() {
    assert_eq!(trim_str("  CS2005701\t\n"), "CS2005701");
    assert_eq!(trim_str("\u{3000}\u{a0}abc\u{2003}"), "abc");
    assert_eq!(trim_str(" \t "), "");
    assert_eq!(trim_str("a b"), "a b");
    assert_eq!(trim_str(""), "");
}

#[test]
fn trim_matches_std_trim() {
    let samples = ["", " x ", "\u{85}y\u{2028}", "\u{200b}z", " \u{feff}w ", "中 文 "];
    for s in samples {
        assert_eq!(trim_str(s), s.trim());
    }
}

#[test]
fn parse_i32_accepts_what_std_accepts() {
    let samples = [
        "0", "12", "+7", "-7", "007", "-0", "2147483647", "-2147483648", "2147483648",
        "-2147483649", "", "+", "-", "1 2", "12a", "99999999999999999999", "１２", "+-1",
    ];
    for s in samples {
        assert_eq!(parse_i32_str(s), s.parse::<i32>().ok(), "input {s:?}");
    }
}

#[test]
fn decimal_matches_display() {
    for n in [0i64, 5, 10, 12, 35, -1, -10, 1234567890, i64::MAX, i64::MIN] {
        assert_eq!(decimal_string(n), n.to_string());
    }
}

#[test]
fn decimal_of_i32_reads_back() {
    for n in [0i32, 1, -1, 42, i32::MAX, i32::MIN] {
        let text = decimal_string(n as i64);
        assert_eq!(parse_i32_str(&text), Some(n));
    }
}

#[test]
fn same_text_compares_characters() {
    assert!(same_text("true", "true"));
    assert!(!same_text("true", "True"));
    assert!(!same_text("tru", "true"));
    assert!(same_text("", ""));
}
