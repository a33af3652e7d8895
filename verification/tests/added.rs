//! Edge cases beyond the core suite, pinned to the documented behavior.

#![allow(dead_code)]
#![allow(unused_imports)]

use expand_range::{fill, fill_checked, FillError, FillResult, Item, Options, Step, Value};

// Shared helpers.

/// Build a numeric item.
pub fn n(x: i64) -> Item {
    Item::Num(x)
}

/// Build a string item.
pub fn s(x: &str) -> Item {
    Item::Str(x.to_string())
}

/// Assert a list result equals the expected items, type and value.
pub fn exact(actual: FillResult, expected: &[Item]) {
    match actual {
        FillResult::List(items) => {
            assert_eq!(items.len(), expected.len(), "length mismatch: {items:?}");
            for (i, (a, e)) in items.iter().zip(expected.iter()).enumerate() {
                assert_eq!(a, e, "element {i} mismatch");
            }
        }
        FillResult::Regex(r) => panic!("expected a list, got regex {r:?}"),
    }
}

/// Assert a regex result equals the expected source string.
pub fn regex_eq(actual: FillResult, expected: &str) {
    match actual {
        FillResult::Regex(r) => assert_eq!(r, expected),
        FillResult::List(items) => panic!("expected a regex, got list {items:?}"),
    }
}

/// Run expand with non-strict default options.
pub fn run(start: Value, end: Option<Value>, step: Step) -> FillResult {
    fill(start, end, step, Options::new())
}

/// Run expand with the given options.
pub fn run_opts(start: Value, end: Option<Value>, step: Step, opts: Options) -> FillResult {
    fill(start, end, step, opts)
}

/// Run the checked entry, returning the strict-mode error if any.
pub fn run_checked(
    start: Value,
    end: Option<Value>,
    step: Step,
    opts: Options,
) -> Result<FillResult, FillError> {
    fill_checked(start, end, step, opts)
}

/// Build a regex from a numeric range and test a candidate against it.
///
/// Mirrors `new RegExp('^(' + fill(...) + ')$').test(input)`.
pub fn is_match(start: Value, end: Value, opts: Options, input: &str) -> bool {
    let source = match fill(start, Some(end), Step::Absent, opts) {
        FillResult::Regex(r) => r,
        FillResult::List(_) => panic!("expected a regex result"),
    };
    let re = regex::Regex::new(&format!("^({source})$")).expect("valid regex");
    re.is_match(input)
}

/// Naive inclusive numeric enumerator, used by the match-verification oracle.
pub fn enumerate(start: i64, stop: i64) -> Vec<i64> {
    let mut out = vec![];
    let mut i = start;
    while i <= stop {
        out.push(i);
        i += 1;
    }
    out
}

/// Strict options.
fn strict() -> Options {
    let mut o = Options::new();
    o.strict_ranges = true;
    o
}

#[test]
fn empty_start_non_strict_is_empty() {
    exact(
        fill(
            Value::from(""),
            Some(Value::from("5")),
            Step::Absent,
            Options::new(),
        ),
        &[],
    );
}

#[test]
fn empty_start_strict_errors() {
    let e = fill_checked(
        Value::from(""),
        Some(Value::from("5")),
        Step::Absent,
        strict(),
    )
    .expect_err("expected an error");
    assert!(matches!(e, FillError::Range(_)));
}

#[test]
fn single_invalid_start_is_empty() {
    exact(
        fill(Value::from(""), None, Step::Absent, Options::new()),
        &[],
    );
}

#[test]
fn single_valid_value_returns_itself() {
    exact(
        fill(Value::from(5), None, Step::Absent, Options::new()),
        &[n(5)],
    );
    exact(
        fill(Value::from("1"), None, Step::Absent, Options::new()),
        &[s("1")],
    );
    exact(
        fill(Value::from("a"), None, Step::Absent, Options::new()),
        &[s("a")],
    );
    exact(
        fill(Value::from(0), None, Step::Absent, Options::new()),
        &[n(0)],
    );
}

#[test]
fn float_step_is_invalid() {
    // A non-integer step fails the integer check, like a junk step.
    exact(
        fill(
            Value::from(1),
            Some(Value::from(10)),
            Step::from("1.5"),
            Options::new(),
        ),
        &[],
    );
    let e = fill_checked(
        Value::from(1),
        Some(Value::from(10)),
        Step::from("1.5"),
        strict(),
    )
    .expect_err("expected an error");
    assert_eq!(
        e,
        FillError::Step("Expected step \"1.5\" to be a number".to_string())
    );
}

#[test]
fn letter_step_over_span_yields_single() {
    exact(
        fill(
            Value::from("a"),
            Some(Value::from("b")),
            Step::from(5),
            Options::new(),
        ),
        &[s("a")],
    );
}

#[test]
fn letter_regex_equal_bounds_is_single_char() {
    let mut o = Options::new();
    o.to_regex = true;
    regex_eq(
        fill(Value::from("a"), Some(Value::from("a")), Step::Absent, o),
        "a",
    );
}

#[test]
fn letter_regex_with_step_ignores_wrap() {
    // The lettered step regex path always returns the plain join.
    let mut o = Options::new();
    o.to_regex = true;
    o.wrap = true;
    o.capture = true;
    regex_eq(
        fill(Value::from("a"), Some(Value::from("z")), Step::from(3), o),
        "a|d|g|j|m|p|s|v|y",
    );
}

#[test]
fn wrap_without_to_regex_is_noop() {
    let mut o = Options::new();
    o.wrap = true;
    exact(
        fill(Value::from(1), Some(Value::from(3)), Step::Absent, o),
        &[n(1), n(2), n(3)],
    );
}

#[test]
fn negative_zero_does_not_leak_into_regex() {
    let mut o = Options::new();
    o.to_regex = true;
    let r = fill(Value::from(-5), Some(Value::from(5)), Step::Absent, o);
    if let FillResult::Regex(src) = r {
        assert!(!src.contains("-0"), "pattern leaked -0: {src}");
    } else {
        panic!("expected a regex");
    }
}
