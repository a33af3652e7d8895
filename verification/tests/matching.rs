//! Semantic correctness: compile the generated regex and test membership.

#![allow(dead_code)]
#![allow(unused_imports)]

use expand_range::{fill, fill_checked, FillError, FillResult, Item, Options, Step, Value};

// Shared helpers.

/// Build a numeric item.
pub fn n(x: i64) -> Item {
    Item::Num(x)
}

/// Build a string item.
pub fn s(x: &str) -> Item {
    Item::Str(x.to_string())
}

/// Assert a list result equals the expected items, type and value.
pub fn exact(actual: FillResult, expected: &[Item]) {
    match actual {
        FillResult::List(items) => {
            assert_eq!(items.len(), expected.len(), "length mismatch: {items:?}");
            for (i, (a, e)) in items.iter().zip(expected.iter()).enumerate() {
                assert_eq!(a, e, "element {i} mismatch");
            }
        }
        FillResult::Regex(r) => panic!("expected a list, got regex {r:?}"),
    }
}

/// Assert a regex result equals the expected source string.
pub fn regex_eq(actual: FillResult, expected: &str) {
    match actual {
        FillResult::Regex(r) => assert_eq!(r, expected),
        FillResult::List(items) => panic!("expected a regex, got list {items:?}"),
    }
}

/// Run expand with non-strict default options.
pub fn run(start: Value, end: Option<Value>, step: Step) -> FillResult {
    fill(start, end, step, Options::new())
}

/// Run expand with the given options.
pub fn run_opts(start: Value, end: Option<Value>, step: Step, opts: Options) -> FillResult {
    fill(start, end, step, opts)
}

/// Run the checked entry, returning the strict-mode error if any.
pub fn run_checked(
    start: Value,
    end: Option<Value>,
    step: Step,
    opts: Options,
) -> Result<FillResult, FillError> {
    fill_checked(start, end, step, opts)
}

/// Build a regex from a numeric range and test a candidate against it.
///
/// Mirrors `new RegExp('^(' + fill(...) + ')$').test(input)`.
pub fn is_match(start: Value, end: Value, opts: Options, input: &str) -> bool {
    let source = match fill(start, Some(end), Step::Absent, opts) {
        FillResult::Regex(r) => r,
        FillResult::List(_) => panic!("expected a regex result"),
    };
    let re = regex::Regex::new(&format!("^({source})$")).expect("valid regex");
    re.is_match(input)
}

/// Naive inclusive numeric enumerator, used by the match-verification oracle.
pub fn enumerate(start: i64, stop: i64) -> Vec<i64> {
    let mut out = vec![];
    let mut i = start;
    while i <= stop {
        out.push(i);
        i += 1;
    }
    out
}

/// Options with to_regex set.
fn regex_opts() -> Options {
    let mut o = Options::new();
    o.to_regex = true;
    o
}

/// Options with to_regex and a step.
fn regex_step(step: i64) -> Options {
    let mut o = Options::new();
    o.to_regex = true;
    o.step = Some(step);
    o
}

/// Test membership for a numeric range against a string input.
fn m(a: i64, b: i64, opts: Options, input: &str) -> bool {
    is_match(Value::from(a), Value::from(b), opts, input)
}

#[test]
fn numbers_ascending() {
    assert!(!m(2, 8, regex_opts(), "10"));
    assert!(m(2, 8, regex_opts(), "3"));
    assert!(m(2, 10, regex_opts(), "10"));
    assert!(m(2, 100, regex_opts(), "10"));
    assert!(!m(2, 100, regex_opts(), "101"));
}

#[test]
fn positive_and_negative() {
    assert!(m(-10, 10, regex_opts(), "10"));
    assert!(m(-10, 10, regex_step(2), "10"));
}

#[test]
fn numbers_descending() {
    assert!(m(8, 2, regex_opts(), "2"));
    assert!(m(8, 2, regex_opts(), "8"));
    assert!(!m(8, 2, regex_opts(), "10"));
}

#[test]
fn with_step() {
    assert!(!m(8, 2, regex_step(2), "10"));
    assert!(!m(8, 2, regex_step(2), "3"));
    assert!(!m(8, 2, regex_step(2), "5"));
    assert!(m(8, 2, regex_step(2), "8"));
    assert!(!m(2, 8, regex_step(2), "10"));
    assert!(!m(2, 8, regex_step(2), "3"));
    assert!(m(2, 8, regex_step(2), "8"));
}
