//! The regex compiler on its own: padding detection and wide bounds.

use expand_range::regex_range::{has_padding, to_regex_range, RegexOptions};

#[test]
fn has_padding_matches_leading_zero_then_digit() {
    // Truth table for /^-?(0+)\d/.
    assert!(!has_padding("0"));
    assert!(has_padding("00"));
    assert!(has_padding("000"));
    assert!(has_padding("01"));
    assert!(has_padding("05"));
    assert!(has_padding("-05"));
    assert!(!has_padding("-0"));
    assert!(has_padding("-00"));
    assert!(!has_padding("0a"));
    assert!(has_padding("00a"));
    assert!(!has_padding("10"));
    assert!(has_padding("020"));
    assert!(!has_padding("5"));
}

#[test]
fn wide_bounds_return_none_instead_of_panicking() {
    let opts = RegexOptions {
        relax_zeros: true,
        shorthand: false,
        capture: false,
        wrap: false,
    };
    // A 19-digit bound exceeds i64::MAX.
    assert_eq!(to_regex_range("1", "9999999999999999999", &opts), None);
}

#[test]
fn i64_extremes_do_not_panic() {
    let opts = RegexOptions {
        relax_zeros: true,
        shorthand: false,
        capture: false,
        wrap: false,
    };
    // 18 nines fits i64 but a split point one digit wider does not.
    assert!(to_regex_range("1", "999999999999999999", &opts).is_some());
    // i64::MIN has no positive counterpart in i64.
    let min = i64::MIN.to_string();
    assert!(to_regex_range(&min, "0", &opts).is_some());
    // i64::MAX as the upper bound exercises the max+1 path.
    let max = i64::MAX.to_string();
    assert!(to_regex_range("1", &max, &opts).is_some());
}
