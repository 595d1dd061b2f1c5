use vitals_applet::order::{str_eq, str_lt};
use vitals_applet::render::{gb2_string, u64_string};

#[test]
fn u64_string_zero() {
    assert_eq!(u64_string(0), "0");
}

#[test]
fn u64_string_single_digit() {
    assert_eq!(u64_string(7), "7");
}

#[test]
fn u64_string_many_digits() {
    assert_eq!(u64_string(1234567890), "1234567890");
}

#[test]
fn u64_string_max() {
    assert_eq!(u64_string(u64::MAX), "18446744073709551615");
}

#[test]
fn gb2_zero() {
    assert_eq!(gb2_string(0), "0.00");
}

#[test]
fn gb2_exact() {
    assert_eq!(gb2_string(8_000_000_000), "8.00");
}

#[test]
fn gb2_truncating() {
    assert_eq!(gb2_string(1_234_567_890), "1.23");
}

#[test]
fn gb2_rounds_half_up() {
    assert_eq!(gb2_string(1_235_000_000), "1.24");
}

#[test]
fn gb2_rounds_below_half_down() {
    assert_eq!(gb2_string(1_234_999_999), "1.23");
}

#[test]
fn gb2_carry_into_units() {
    assert_eq!(gb2_string(9_995_000_000), "10.00");
}

#[test]
fn gb2_small_value_pads_two_decimals() {
    assert_eq!(gb2_string(12_345_678), "0.01");
}

#[test]
fn gb2_largest() {
    assert_eq!(gb2_string(u64::MAX), "18446744073.71");
}

#[test]
fn str_lt_orders_lexicographically() {
    assert!(str_lt("abc", "abd"));
    assert!(!str_lt("abd", "abc"));
    assert!(str_lt("ab", "abc"));
    assert!(!str_lt("abc", "ab"));
    assert!(!str_lt("abc", "abc"));
    assert!(str_lt("", "a"));
    assert!(!str_lt("", ""));
}

#[test]
fn str_lt_by_code_point() {
    assert!(str_lt("Zebra", "apple"));
    assert!(str_lt("disk1", "disk2"));
}

#[test]
fn str_eq_matches_equality() {
    assert!(str_eq("sda1", "sda1"));
    assert!(!str_eq("sda1", "sda2"));
    assert!(!str_eq("sda", "sda1"));
    assert!(str_eq("", ""));
}
