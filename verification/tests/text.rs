use skew::numeral::denotes_number;
use skew::text::{
    after_prefix, decimal_of, first_bytes, first_chars, is_before, join, lines_of, pad, parse_int,
    same, same_no_case, split_on, starts_with, trim,
};

#[test]
fn equality() {
    assert!(same("abc", "abc"));
    assert!(!same("abc", "abd"));
    assert!(!same("abc", "ab"));
    assert!(same_no_case("CALL", "Call"));
    assert!(!same_no_case("Calls", "Call"));
    assert!(!same_no_case("É", "é"));
}

#[test]
fn trimming() {
    assert_eq!(trim("  a b\t\r\n"), "a b");
    assert_eq!(trim("\u{a0}x\u{2003}"), "x");
    assert_eq!(trim(" \n "), "");
}

#[test]
fn splitting() {
    assert_eq!(split_on("a,b,,c", ','), vec!["a", "b", "", "c"]);
    assert_eq!(split_on("", ','), vec![""]);
    assert_eq!(split_on(",", ','), vec!["", ""]);
}

#[test]
fn joining_undoes_splitting() {
    for s in ["", ",", "a", "a,b,c", ",,x"] {
        assert_eq!(join(&split_on(s, ','), ','), s);
    }
    let none: Vec<String> = vec![];
    assert_eq!(join(&none, ','), "");
}

#[test]
fn splitting_undoes_joining() {
    let pieces = vec!["x".to_string(), "".to_string(), "yz".to_string()];
    assert_eq!(split_on(&join(&pieces, ';'), ';'), pieces);
}

#[test]
fn lines_as_std_has_them() {
    for s in ["", "a", "a\n", "a\nb", "a\r\nb\r\n", "\n", "a\n\nb\r", "\r\n", "x\r"] {
        let want: Vec<String> = s.lines().map(|l| l.to_string()).collect();
        assert_eq!(lines_of(s), want);
    }
}

#[test]
fn prefixes() {
    assert_eq!(after_prefix("# spot,6500", "# spot,"), Some("6500".to_string()));
    assert_eq!(after_prefix("# spo", "# spot,"), None);
    assert_eq!(after_prefix("x", ""), Some("x".to_string()));
    assert!(starts_with("strike,dte", "strike"));
    assert!(!starts_with("Strike", "strike"));
}

#[test]
fn lexicographic_order() {
    assert!(is_before("2026-01-02", "2026-01-10"));
    assert!(is_before("", "a"));
    assert!(!is_before("a", "a"));
    assert!(is_before("a", "ab"));
    assert!(!is_before("b", "ab"));
    for (a, b) in [("é", "z"), ("z", "é"), ("\u{10000}", "\u{ffff}")] {
        assert_eq!(is_before(a, b), a < b);
    }
}

#[test]
fn integers_as_std_parses_them() {
    for s in [
        "0", "-0", "+7", "007", "-12", "", "+", "-", "1 ", "1_0", "9223372036854775807",
        "9223372036854775808", "-9223372036854775808", "-9223372036854775809", "٣",
        "00000000000000000000000001",
    ] {
        assert_eq!(parse_int(s), s.parse::<i64>().ok(), "{}", s);
    }
}

#[test]
fn decimals_and_padding() {
    assert_eq!(decimal_of(0), "0");
    assert_eq!(decimal_of(u64::MAX), "18446744073709551615");
    for (n, w) in [(5, 2), (-5, 4), (123, 2), (0, 0), (i64::MIN, 4), (-1, 1)] {
        assert_eq!(pad(n, w), format!("{:0w$}", n, w = w));
    }
}

#[test]
fn prefixes_by_bytes_and_characters() {
    for s in ["2026-06-18 21:00", "20é6", "", "abc", "ab\u{20ac}c"] {
        for n in 0..7 {
            assert_eq!(first_bytes(s, n), s.get(0..n).unwrap_or(""), "{} {}", s, n);
        }
    }
    assert_eq!(first_chars("héllo", 2), "hé");
    assert_eq!(first_chars("hé", 5), "hé");
}

#[test]
fn numerals_as_std_parses_them() {
    for s in [
        "1", "-1", "+1.5", ".5", "5.", ".", "", "-", "1e5", "1e", "1e+", "1E-7", "1.e3", ".e3",
        "inf", "-Infinity", "NaN", "+nan", "infin", "1e5.0", "0x10", " 1", "1 ", "1_000", "--1",
        "1.2.3", "e5", "١", "1f",
    ] {
        assert_eq!(denotes_number(s), s.parse::<f64>().is_ok(), "{}", s);
    }
}
