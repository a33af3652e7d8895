//! Property oracle: a generated pattern must match exactly the integers in range.

#![allow(dead_code)]
#![allow(unused_imports)]

use expand_range::{fill, fill_checked, FillError, FillResult, Item, Options, Step, Value};

// Shared helpers.

/// Build a numeric item.
pub fn n(x: i64) -> Item {
    Item::Num(x)
}

/// Build a string item.
pub fn s(x: &str) -> Item {
    Item::Str(x.to_string())
}

/// Assert a list result equals the expected items, type and value.
pub fn exact(actual: FillResult, expected: &[Item]) {
    match actual {
        FillResult::List(items) => {
            assert_eq!(items.len(), expected.len(), "length mismatch: {items:?}");
            for (i, (a, e)) in items.iter().zip(expected.iter()).enumerate() {
                assert_eq!(a, e, "element {i} mismatch");
            }
        }
        FillResult::Regex(r) => panic!("expected a list, got regex {r:?}"),
    }
}

/// Assert a regex result equals the expected source string.
pub fn regex_eq(actual: FillResult, expected: &str) {
    match actual {
        FillResult::Regex(r) => assert_eq!(r, expected),
        FillResult::List(items) => panic!("expected a regex, got list {items:?}"),
    }
}

/// Run expand with non-strict default options.
pub fn run(start: Value, end: Option<Value>, step: Step) -> FillResult {
    fill(start, end, step, Options::new())
}

/// Run expand with the given options.
pub fn run_opts(start: Value, end: Option<Value>, step: Step, opts: Options) -> FillResult {
    fill(start, end, step, opts)
}

/// Run the checked entry, returning the strict-mode error if any.
pub fn run_checked(
    start: Value,
    end: Option<Value>,
    step: Step,
    opts: Options,
) -> Result<FillResult, FillError> {
    fill_checked(start, end, step, opts)
}

/// Build a regex from a numeric range and test a candidate against it.
///
/// Mirrors `new RegExp('^(' + fill(...) + ')$').test(input)`.
pub fn is_match(start: Value, end: Value, opts: Options, input: &str) -> bool {
    let source = match fill(start, Some(end), Step::Absent, opts) {
        FillResult::Regex(r) => r,
        FillResult::List(_) => panic!("expected a regex result"),
    };
    let re = regex::Regex::new(&format!("^({source})$")).expect("valid regex");
    re.is_match(input)
}

/// Naive inclusive numeric enumerator, used by the match-verification oracle.
pub fn enumerate(start: i64, stop: i64) -> Vec<i64> {
    let mut out = vec![];
    let mut i = start;
    while i <= stop {
        out.push(i);
        i += 1;
    }
    out
}

use regex::Regex;

/// Build the anchored regex for `[min, max]` once.
fn matcher(min: i64, max: i64) -> Regex {
    let mut opts = Options::new();
    opts.to_regex = true;
    let source = match fill(Value::from(min), Some(Value::from(max)), Step::Absent, opts) {
        FillResult::Regex(r) => r,
        FillResult::List(_) => panic!("expected regex"),
    };
    Regex::new(&format!("^({source})$")).expect("valid regex")
}

/// For every integer in `[from, to]`, the regex matches iff it lies in `[min, max]`.
fn verify_range(min: i64, max: i64, from: i64, to: i64) {
    let re = matcher(min, max);
    for num in enumerate(from, to) {
        let want = min <= num && num <= max;
        let got = re.is_match(&num.to_string());
        assert_eq!(got, want, "n={num} min={min} max={max}");
    }
}

#[test]
fn equal_numbers() {
    verify_range(1, 1, 0, 100);
    verify_range(65443, 65443, 65000, 66000);
    verify_range(192, 1000, 0, 1000);
}

#[test]
fn large_numbers() {
    verify_range(
        100019999300000,
        100020000300000,
        100019999999999,
        100020000100000,
    );
}

#[test]
fn repeated_digits() {
    verify_range(10331, 20381, 0, 99999);
}

#[test]
fn repeated_zeros() {
    verify_range(10031, 20081, 0, 59999);
    verify_range(10000, 20000, 0, 59999);
}

#[test]
fn zero_one() {
    verify_range(10301, 20101, 0, 99999);
}

#[test]
fn repeated_ones() {
    verify_range(102, 111, 0, 1000);
}

#[test]
fn small_diffs() {
    verify_range(102, 110, 0, 1000);
    verify_range(102, 130, 0, 1000);
}

#[test]
fn random_ranges() {
    verify_range(4173, 7981, 0, 99999);
}

#[test]
fn one_digit_numbers() {
    verify_range(3, 7, 0, 99);
}

#[test]
fn one_digit_at_bounds() {
    verify_range(1, 9, 0, 1000);
}

#[test]
fn power_of_ten() {
    verify_range(1000, 8632, 0, 99999);
}

#[test]
fn varying_lengths() {
    verify_range(1030, 20101, 0, 99999);
    verify_range(13, 8632, 0, 10000);
}

#[test]
fn small_ranges() {
    verify_range(9, 11, 0, 100);
    verify_range(19, 21, 0, 100);
}

#[test]
fn big_ranges() {
    verify_range(90, 98009, 0, 98999);
    verify_range(999, 10000, 1, 20000);
}
