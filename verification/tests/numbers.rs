use rtop_rs::decimal::Decimal;
use rtop_rs::order::text_precedes;
use rtop_rs::text::{chars_of, decimal_of, numeral_of};

fn parse(text: &str) -> Option<Decimal> {
    Decimal::parse(&text.chars().collect())
}

fn at_least(a: &str, b: &str) -> bool {
    parse(a).unwrap().at_least(&parse(b).unwrap())
}

#[test]
fn numerals_are_told_from_other_texts() {
    for text in [
        "0", "12", "3.2", "-3.50", ".5", "5.", "+7", "-.0", "000",
        "0123456789012345678901234567890.5", "1e3", "1E3", "1.5e-2", "+.5e+1", "5.e0", "1e0000",
        "0e9999", "1e9999", "1e-9999", "1e00009999",
    ] {
        assert!(parse(text).is_some(), "{}", text);
    }
    for text in [
        "", "+", "-", ".", "-.", "1.2.3", " 1", "1 ", "--1", "+-1", "1,5", "٣", "1-", "1e", "e3",
        ".e3", "1e+", "1e-", "1e3.0", "1e3e3", "1ee3", "1e 3", "1e10000", "1e-10000", "1x3",
        "inf", "-inf", "infinity", "Infinity", "nan", "NaN",
    ] {
        assert!(parse(text).is_none(), "{}", text);
    }
}

#[test]
fn numerals_compare_by_value() {
    assert!(at_least("10", "9.99"));
    assert!(!at_least("9.99", "10"));
    assert!(at_least("1.50", "1.5") && at_least("1.5", "1.50"));
    assert!(at_least("007", "7.000") && at_least("7.000", "007"));
    assert!(at_least("0.5", ".49999999999999999999999999"));
    assert!(!at_least(".49999999999999999999999999", "0.5"));
    assert!(at_least("1", ".5") && !at_least(".5", "1"));
    assert!(at_least("100000000000000000000000000000", "99999999999999999999999999999.9"));
    assert!(!at_least("99999999999999999999999999999.9", "100000000000000000000000000000"));
    assert!(at_least("3.2", "3.19") && !at_least("3.19", "3.2"));
    assert!(at_least("0.1", "0.09") && !at_least("0.09", "0.1"));
}

#[test]
fn exponents_move_the_point() {
    assert!(at_least("1e3", "1000") && at_least("1000", "1e3"));
    assert!(at_least("1e3", "999.9") && !at_least("999.9", "1e3"));
    assert!(at_least("1e3", "5") && !at_least("5", "1e3"));
    assert!(at_least("1.5e-2", "0.015") && at_least("0.015", "1.5e-2"));
    assert!(at_least("0.002", "1e-3") && !at_least("1e-3", "0.002"));
    assert!(at_least("12.5E1", "125") && at_least("125", "12.5E1"));
    assert!(at_least("1.25e1", "12.5") && at_least("12.5", "1.25e1"));
    assert!(at_least("5", "-1e3") && !at_least("-1e3", "5"));
    assert!(at_least("-1e-3", "-1e3") && !at_least("-1e3", "-1e-3"));
    assert!(at_least("1e9999", "9e9998") && !at_least("9e9998", "1e9999"));
    assert!(at_least("1e-9998", "1e-9999") && !at_least("1e-9999", "1e-9998"));
    assert!(at_least("0e5", "0") && at_least("0", "0e5"));
    assert!(at_least("0e5", "-0e-5") && at_least("-0e-5", "0e5"));
    assert!(at_least("1e+2", "1e2") && at_least("1e2", "1e+2"));
}

#[test]
fn signs_count() {
    assert!(at_least("0", "-0") && at_least("-0", "0"));
    assert!(at_least("-0.0", "+0") && at_least("+0", "-0.0"));
    assert!(at_least("1", "-2") && !at_least("-2", "1"));
    assert!(at_least("-1", "-2") && !at_least("-2", "-1"));
    assert!(at_least("-1.5", "-1.50") && at_least("-1.50", "-1.5"));
    assert!(!at_least("-0.001", "0"));
    assert!(at_least("0", "-0.001"));
    assert!(at_least("+3", "3") && at_least("3", "+3"));
}

#[test]
fn texts_compare_lexicographically() {
    let le = |a: &str, b: &str| text_precedes(&a.chars().collect(), &b.chars().collect());
    assert!(le("", ""));
    assert!(le("", "a") && !le("a", ""));
    assert!(le("a", "a"));
    assert!(le("a", "b") && !le("b", "a"));
    assert!(le("ab", "abc") && !le("abc", "ab"));
    assert!(le("B", "a") && !le("a", "B"));
    assert!(le("abd", "abe") && !le("abe", "abd"));
    assert!(le("z", "é") && !le("é", "z"));
}

#[test]
fn integers_as_numerals() {
    let text = |v: i32| decimal_of(v).into_iter().collect::<String>();
    assert_eq!(text(0), "0");
    assert_eq!(text(7), "7");
    assert_eq!(text(10), "10");
    assert_eq!(text(90), "90");
    assert_eq!(text(-5), "-5");
    assert_eq!(text(1203), "1203");
    assert_eq!(text(i32::MAX), "2147483647");
    assert_eq!(text(i32::MIN), "-2147483648");
}

#[test]
fn naturals_as_numerals() {
    let text = |n: u64| numeral_of(n).into_iter().collect::<String>();
    assert_eq!(text(0), "0");
    assert_eq!(text(9), "9");
    assert_eq!(text(10), "10");
    assert_eq!(text(u64::MAX), "18446744073709551615");
}

#[test]
fn characters_of_a_text() {
    assert_eq!(chars_of("a⣿ b"), vec!['a', '⣿', ' ', 'b']);
    assert_eq!(chars_of(""), Vec::<char>::new());
}
