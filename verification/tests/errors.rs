//! Strict mode reports typed errors with the established messages.

#![allow(dead_code)]
#![allow(unused_imports)]

use expand_range::{fill, fill_checked, FillError, FillResult, Item, Options, Step, Value};

// Shared helpers.

/// Build a numeric item.
pub fn n(x: i64) -> Item {
    Item::Num(x)
}

/// Build a string item.
pub fn s(x: &str) -> Item {
    Item::Str(x.to_string())
}

/// Assert a list result equals the expected items, type and value.
pub fn exact(actual: FillResult, expected: &[Item]) {
    match actual {
        FillResult::List(items) => {
            assert_eq!(items.len(), expected.len(), "length mismatch: {items:?}");
            for (i, (a, e)) in items.iter().zip(expected.iter()).enumerate() {
                assert_eq!(a, e, "element {i} mismatch");
            }
        }
        FillResult::Regex(r) => panic!("expected a list, got regex {r:?}"),
    }
}

/// Assert a regex result equals the expected source string.
pub fn regex_eq(actual: FillResult, expected: &str) {
    match actual {
        FillResult::Regex(r) => assert_eq!(r, expected),
        FillResult::List(items) => panic!("expected a regex, got list {items:?}"),
    }
}

/// Run expand with non-strict default options.
pub fn run(start: Value, end: Option<Value>, step: Step) -> FillResult {
    fill(start, end, step, Options::new())
}

/// Run expand with the given options.
pub fn run_opts(start: Value, end: Option<Value>, step: Step, opts: Options) -> FillResult {
    fill(start, end, step, opts)
}

/// Run the checked entry, returning the strict-mode error if any.
pub fn run_checked(
    start: Value,
    end: Option<Value>,
    step: Step,
    opts: Options,
) -> Result<FillResult, FillError> {
    fill_checked(start, end, step, opts)
}

/// Build a regex from a numeric range and test a candidate against it.
///
/// Mirrors `new RegExp('^(' + fill(...) + ')$').test(input)`.
pub fn is_match(start: Value, end: Value, opts: Options, input: &str) -> bool {
    let source = match fill(start, Some(end), Step::Absent, opts) {
        FillResult::Regex(r) => r,
        FillResult::List(_) => panic!("expected a regex result"),
    };
    let re = regex::Regex::new(&format!("^({source})$")).expect("valid regex");
    re.is_match(input)
}

/// Naive inclusive numeric enumerator, used by the match-verification oracle.
pub fn enumerate(start: i64, stop: i64) -> Vec<i64> {
    let mut out = vec![];
    let mut i = start;
    while i <= stop {
        out.push(i);
        i += 1;
    }
    out
}

/// Strict options.
fn strict() -> Options {
    let mut o = Options::new();
    o.strict_ranges = true;
    o
}

/// Run the checked entry in strict mode and return the error.
fn err(start: Value, end: Value, step: Step) -> FillError {
    fill_checked(start, Some(end), step, strict()).expect_err("expected an error")
}

#[test]
fn range_error_on_invalid_bounds() {
    assert_eq!(
        err(Value::from("0a"), Value::from("0z"), Step::Absent),
        FillError::Range("Invalid range arguments: [ '0a', '0z' ]".to_string())
    );
    // Empty start with a step argument and strict mode.
    let e = fill_checked(
        Value::from(""),
        Some(Value::from("*")),
        Step::from(2),
        strict(),
    )
    .expect_err("expected an error");
    assert_eq!(
        e,
        FillError::Range("Invalid range arguments: [ '', '*' ]".to_string())
    );
}

#[test]
fn range_error_on_incompatible_args() {
    assert_eq!(
        err(Value::from("a8"), Value::from(10), Step::Absent),
        FillError::Range("Invalid range arguments: [ 'a8', 10 ]".to_string())
    );
    assert_eq!(
        err(Value::from(1), Value::from("zz"), Step::Absent),
        FillError::Range("Invalid range arguments: [ 1, 'zz' ]".to_string())
    );
}

#[test]
fn step_error_on_bad_step() {
    assert_eq!(
        err(Value::from("1"), Value::from("10"), Step::from("z")),
        FillError::Step("Expected step \"z\" to be a number".to_string())
    );
    assert_eq!(
        err(Value::from("a"), Value::from("z"), Step::from("a")),
        FillError::Step("Expected step \"a\" to be a number".to_string())
    );
    assert_eq!(
        err(Value::from("a"), Value::from("z"), Step::from("0a")),
        FillError::Step("Expected step \"0a\" to be a number".to_string())
    );
}
