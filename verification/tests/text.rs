use backtesting::text::{parse_i64, parse_u64, split_fields, trim};

#[test]
fn split_on_tabs() {
    assert_eq!(split_fields("a\tb\tc", '\t'), vec!["a", "b", "c"]);
    assert_eq!(split_fields("", '\t'), vec![""]);
    assert_eq!(split_fields("a\t", '\t'), vec!["a", ""]);
    assert_eq!(split_fields("\t\t", '\t'), vec!["", "", ""]);
    assert_eq!(split_fields("1.5,2", ','), vec!["1.5", "2"]);
    assert_eq!(split_fields("äö\tü", '\t'), vec!["äö", "ü"]);
}

#[test]
fn split_matches_std() {
    for line in ["x\ty", "2024.05.21\t14:15:00\t1.08641", "\t", "abc", "a\t\tb\t"] {
        let ours = split_fields(line, '\t');
        let std_split: Vec<String> = line.split('\t').map(|s| s.to_string()).collect();
        assert_eq!(ours, std_split);
    }
}

#[test]
fn parse_unsigned_numbers() {
    assert_eq!(parse_u64("15"), Some(15));
    assert_eq!(parse_u64("+7"), Some(7));
    assert_eq!(parse_u64("007"), Some(7));
    assert_eq!(parse_u64("18446744073709551615"), Some(u64::MAX));
    assert_eq!(parse_u64("18446744073709551616"), None);
    assert_eq!(parse_u64("99999999999999999999x"), None);
    assert_eq!(parse_u64("-1"), None);
    assert_eq!(parse_u64("-0"), None);
    assert_eq!(parse_u64(""), None);
    assert_eq!(parse_u64("+"), None);
    assert_eq!(parse_u64(" 5"), None);
    assert_eq!(parse_u64("1a"), None);
}

#[test]
fn parse_matches_std() {
    for s in ["0", "123", "+0", "++1", "4294967296", "1_000", "١٢"] {
        assert_eq!(parse_u64(s), s.parse::<u64>().ok(), "{}", s);
    }
}

#[test]
fn parse_signed_numbers() {
    assert_eq!(parse_i64("42"), Some(42));
    assert_eq!(parse_i64("-42"), Some(-42));
    assert_eq!(parse_i64("+42"), Some(42));
    assert_eq!(parse_i64("-9223372036854775808"), Some(i64::MIN));
    assert_eq!(parse_i64("9223372036854775807"), Some(i64::MAX));
    assert_eq!(parse_i64("9223372036854775808"), None);
    assert_eq!(parse_i64("-9223372036854775809"), None);
    assert_eq!(parse_i64("-"), None);
    assert_eq!(parse_i64("--1"), None);
    assert_eq!(parse_i64("-+1"), None);
    for s in ["0", "-0", "+0", "1577836800", " 1", "1 ", "1.5", "", "-x"] {
        assert_eq!(parse_i64(s), s.parse::<i64>().ok(), "{}", s);
    }
}

#[test]
fn trim_whitespace() {
    assert_eq!(trim("  12 "), "12");
    assert_eq!(trim("\t\n x y \r"), "x y");
    assert_eq!(trim("   "), "");
    assert_eq!(trim(""), "");
    for s in ["\u{3000}a\u{a0}", "\u{200b}b", " \u{85}c\u{2029}", "d\u{1680}\u{205f}"] {
        assert_eq!(trim(s), s.trim(), "{:?}", s);
    }
}
