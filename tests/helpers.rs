use aim::calendar::{day_of_year, days_in_month, is_leap_year, month_number};
use aim::interval::interval_to_constant;
use aim::text::{parse_u32, str_eq, str_lt};

#[test]
fn leap_years() {
    assert!(is_leap_year(2024));
    assert!(is_leap_year(2000));
    assert!(!is_leap_year(1900));
    assert!(!is_leap_year(2023));
    assert_eq!(days_in_month(2, 2024), 29);
    assert_eq!(days_in_month(2, 2023), 28);
    assert_eq!(days_in_month(4, 2023), 30);
    assert_eq!(days_in_month(12, 2023), 31);
}

#[test]
fn day_of_year_counts_prior_months() {
    assert_eq!(day_of_year(8, 1, 2024), 8);
    assert_eq!(day_of_year(1, 3, 2024), 61);
    assert_eq!(day_of_year(1, 3, 2023), 60);
    assert_eq!(day_of_year(31, 12, 2024), 366);
}

#[test]
fn month_names_and_numbers() {
    assert_eq!(month_number("July"), 7);
    assert_eq!(month_number("12"), 12);
    assert_eq!(month_number("1"), 1);
    assert_eq!(month_number("june"), 1);
    assert_eq!(month_number(""), 1);
}

#[test]
fn intervals() {
    assert_eq!(interval_to_constant("5m"), "ONE_MINUTE");
    assert_eq!(interval_to_constant("30m"), "ONE_MINUTE");
    assert_eq!(interval_to_constant("4H"), "ONE_HOUR");
    assert_eq!(interval_to_constant("2D"), "ONE_DAY");
    assert_eq!(interval_to_constant("1M"), "ONE_WEEK");
    assert_eq!(interval_to_constant("1W"), "ONE_WEEK");
    assert_eq!(interval_to_constant("xyz"), "ONE_DAY");
}

#[test]
fn unsigned_parsing() {
    assert_eq!(parse_u32("+12"), Some(12));
    assert_eq!(parse_u32("007"), Some(7));
    assert_eq!(parse_u32(""), None);
    assert_eq!(parse_u32("+"), None);
    assert_eq!(parse_u32("4294967295"), Some(4294967295));
    assert_eq!(parse_u32("4294967296"), None);
    assert_eq!(parse_u32("1a"), None);
    assert_eq!(parse_u32("-1"), None);
}

#[test]
fn string_order_and_equality() {
    assert!(str_lt("2023", "2024"));
    assert!(!str_lt("2024", "2023"));
    assert!(str_lt("202", "2024"));
    assert!(!str_lt("2024", "2024"));
    assert!(str_eq("abc", "abc"));
    assert!(!str_eq("abc", "abd"));
}
