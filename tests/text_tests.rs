use tasktrack::date::{format_date, is_date_shaped, parse_date_text, Date};
use tasktrack::text::{
    decimal, join_with_commas, parse_decimal_u8, sorted_strings, split_at_commas, str_lt, trimmed,
};

fn strings(v: &[&str]) -> Vec<String> {
    v.iter().map(|s| s.to_string()).collect()
}

#[test]
fn date_parts() {
    assert!(Date::from_ymd(2024, 2, 29).is_some());
    assert!(Date::from_ymd(2023, 2, 29).is_none());
    assert!(Date::from_ymd(2100, 2, 29).is_none());
    assert!(Date::from_ymd(2000, 2, 29).is_some());
    assert!(Date::from_ymd(2024, 4, 31).is_none());
    assert!(Date::from_ymd(10000, 1, 1).is_none());
    assert!(Date::from_ymd(2024, 0, 1).is_none());
    let a = Date::from_ymd(2024, 5, 1).unwrap();
    let b = Date::from_ymd(2024, 4, 30).unwrap();
    assert!(b.is_on_or_before(&a));
    assert!(!a.is_on_or_before(&b));
    assert!(a.is_on_or_before(&a));
}

#[test]
fn date_text() {
    assert!(is_date_shaped("2024-01-05"));
    assert!(is_date_shaped("9999-99-99"));
    assert!(!is_date_shaped("2024-1-05"));
    assert_eq!(parse_date_text("2024-01-05"), Date::from_ymd(2024, 1, 5));
    assert_eq!(parse_date_text("9999-99-99"), None);
    assert_eq!(format_date(Date::from_ymd(7, 3, 9).unwrap()), "0007-03-09");
    assert_eq!(format_date(Date::from_ymd(2024, 12, 31).unwrap()), "2024-12-31");
}

#[test]
fn ordering_of_strings() {
    assert!(str_lt("a", "b"));
    assert!(str_lt("a", "ab"));
    assert!(!str_lt("ab", "a"));
    assert!(!str_lt("a", "a"));
    assert!(str_lt("", "a"));
    assert!(str_lt("Z", "a"));
    assert_eq!(sorted_strings(&strings(&["pear", "apple", "fig"])), strings(&["apple", "fig", "pear"]));
}

#[test]
fn commas() {
    assert_eq!(join_with_commas(&strings(&["a", "b", "c"])), "a,b,c");
    assert_eq!(join_with_commas(&strings(&[])), "");
    assert_eq!(split_at_commas("a,b,,c"), strings(&["a", "b", "", "c"]));
    assert_eq!(split_at_commas(""), strings(&[""]));
    assert_eq!(split_at_commas(","), strings(&["", ""]));
}

#[test]
fn trimming() {
    assert_eq!(trimmed("  a b \t\n"), "a b");
    assert_eq!(trimmed("\u{3000}x\u{a0}"), "x");
    assert_eq!(trimmed("   "), "");
    assert_eq!(trimmed(""), "");
}

#[test]
fn decimals() {
    assert_eq!(decimal(0), "0");
    assert_eq!(decimal(7), "7");
    assert_eq!(decimal(10), "10");
    assert_eq!(decimal(255), "255");
    assert_eq!(parse_decimal_u8("10"), Some(10));
    assert_eq!(parse_decimal_u8("+5"), Some(5));
    assert_eq!(parse_decimal_u8("007"), Some(7));
    assert_eq!(parse_decimal_u8("255"), Some(255));
    assert_eq!(parse_decimal_u8("256"), None);
    assert_eq!(parse_decimal_u8("99999999999"), None);
    assert_eq!(parse_decimal_u8(""), None);
    assert_eq!(parse_decimal_u8("+"), None);
    assert_eq!(parse_decimal_u8("-1"), None);
    assert_eq!(parse_decimal_u8(" 1"), None);
    for n in 0u8..=255 {
        assert_eq!(parse_decimal_u8(&decimal(n)), Some(n));
        assert_eq!(decimal(n), n.to_string());
    }
}
