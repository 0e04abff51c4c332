use retail_sync::apriori::{combinations, generate_candidates};
use retail_sync::decimal::{coerce_decimal, parse_decimal, Decimal};
use retail_sync::text::{int_to_text, parse_key, same_text};

#[test]
fn decimal_numerals() {
    assert_eq!(parse_decimal("12.50"), Some(Decimal { mantissa: 1250, scale: 2 }));
    assert_eq!(parse_decimal("  -3 \t"), Some(Decimal { mantissa: -3, scale: 0 }));
    assert_eq!(parse_decimal("+.5"), Some(Decimal { mantissa: 5, scale: 1 }));
    assert_eq!(parse_decimal("7."), Some(Decimal { mantissa: 7, scale: 0 }));
    assert_eq!(parse_decimal("9223372036854775807"), Some(Decimal { mantissa: i64::MAX, scale: 0 }));
    assert_eq!(parse_decimal("9223372036854775808"), None);
    assert_eq!(parse_decimal("."), None);
    assert_eq!(parse_decimal(""), None);
    assert_eq!(parse_decimal("1.2.3"), None);
    assert_eq!(parse_decimal("1e3"), None);
    assert_eq!(parse_decimal("- 1"), None);
}

#[test]
fn malformed_numeric_text_reads_as_zero() {
    assert_eq!(coerce_decimal("abc"), Decimal { mantissa: 0, scale: 0 });
    assert_eq!(coerce_decimal("   "), Decimal { mantissa: 0, scale: 0 });
    assert_eq!(coerce_decimal(" 4.25"), Decimal { mantissa: 425, scale: 2 });
}

#[test]
fn primary_keys() {
    assert_eq!(parse_key("42"), Some(42));
    assert_eq!(parse_key("-17"), Some(-17));
    assert_eq!(parse_key("007"), Some(7));
    assert_eq!(parse_key("2147483647"), Some(i32::MAX));
    assert_eq!(parse_key("-2147483648"), Some(i32::MIN));
    assert_eq!(parse_key("2147483648"), None);
    assert_eq!(parse_key("99999999999999999999"), None);
    assert_eq!(parse_key(""), None);
    assert_eq!(parse_key("-"), None);
    assert_eq!(parse_key(" 1"), None);
    assert_eq!(parse_key("1;DROP"), None);
}

#[test]
fn integers_as_text() {
    assert_eq!(int_to_text(0), "0");
    assert_eq!(int_to_text(1234), "1234");
    assert_eq!(int_to_text(-56), "-56");
    assert_eq!(int_to_text(i32::MIN), "-2147483648");
    assert_eq!(int_to_text(i32::MAX), "2147483647");
}

#[test]
fn text_comparison() {
    assert!(same_text("sales", "sales"));
    assert!(!same_text("sales", "sale"));
    assert!(!same_text("sales", "Sales"));
}

#[test]
fn combinations_in_order() {
    assert_eq!(combinations(&[1, 2, 3], 2), vec![vec![2, 3], vec![1, 3], vec![1, 2]]);
    assert_eq!(combinations(&[3, 1], 2), vec![vec![1, 3]]);
    assert_eq!(combinations(&[1, 2], 0), vec![Vec::<i32>::new()]);
    assert!(combinations(&[], 1).is_empty());
    assert!(combinations(&[1, 2], 3).is_empty());
}

#[test]
fn candidates_of_size_k() {
    let prev = vec![vec![1], vec![2], vec![3]];
    assert_eq!(generate_candidates(&prev, 2), vec![vec![1, 2], vec![1, 3], vec![2, 3]]);
    let prev2 = vec![vec![1, 2], vec![1, 3], vec![2, 3], vec![3, 4]];
    let c = generate_candidates(&prev2, 3);
    assert_eq!(c, vec![vec![1, 2, 3], vec![1, 3, 4], vec![2, 3, 4]]);
    assert!(generate_candidates(&vec![vec![1]], 2).is_empty());
}
