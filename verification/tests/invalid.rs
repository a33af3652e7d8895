//! Invalid input returns an empty list when strict mode is off.

#![allow(dead_code)]
#![allow(unused_imports)]

use expand_range::{fill, fill_checked, FillError, FillResult, Item, Options, Step, Value};

// Shared helpers.

/// Build a numeric item.
pub fn n(x: i64) -> Item {
    Item::Num(x)
}

/// Build a string item.
pub fn s(x: &str) -> Item {
    Item::Str(x.to_string())
}

/// Assert a list result equals the expected items, type and value.
pub fn exact(actual: FillResult, expected: &[Item]) {
    match actual {
        FillResult::List(items) => {
            assert_eq!(items.len(), expected.len(), "length mismatch: {items:?}");
            for (i, (a, e)) in items.iter().zip(expected.iter()).enumerate() {
                assert_eq!(a, e, "element {i} mismatch");
            }
        }
        FillResult::Regex(r) => panic!("expected a list, got regex {r:?}"),
    }
}

/// Assert a regex result equals the expected source string.
pub fn regex_eq(actual: FillResult, expected: &str) {
    match actual {
        FillResult::Regex(r) => assert_eq!(r, expected),
        FillResult::List(items) => panic!("expected a regex, got list {items:?}"),
    }
}

/// Run expand with non-strict default options.
pub fn run(start: Value, end: Option<Value>, step: Step) -> FillResult {
    fill(start, end, step, Options::new())
}

/// Run expand with the given options.
pub fn run_opts(start: Value, end: Option<Value>, step: Step, opts: Options) -> FillResult {
    fill(start, end, step, opts)
}

/// Run the checked entry, returning the strict-mode error if any.
pub fn run_checked(
    start: Value,
    end: Option<Value>,
    step: Step,
    opts: Options,
) -> Result<FillResult, FillError> {
    fill_checked(start, end, step, opts)
}

/// Build a regex from a numeric range and test a candidate against it.
///
/// Mirrors `new RegExp('^(' + fill(...) + ')$').test(input)`.
pub fn is_match(start: Value, end: Value, opts: Options, input: &str) -> bool {
    let source = match fill(start, Some(end), Step::Absent, opts) {
        FillResult::Regex(r) => r,
        FillResult::List(_) => panic!("expected a regex result"),
    };
    let re = regex::Regex::new(&format!("^({source})$")).expect("valid regex");
    re.is_match(input)
}

/// Naive inclusive numeric enumerator, used by the match-verification oracle.
pub fn enumerate(start: i64, stop: i64) -> Vec<i64> {
    let mut out = vec![];
    let mut i = start;
    while i <= stop {
        out.push(i);
        i += 1;
    }
    out
}

/// fill(start, end) with no step.
fn f2(start: &str, end: &str) -> expand_range::FillResult {
    fill(
        Value::from(start),
        Some(Value::from(end)),
        Step::Absent,
        Options::new(),
    )
}

/// fill(start, end, step).
fn f3(start: &str, end: &str, step: &str) -> expand_range::FillResult {
    fill(
        Value::from(start),
        Some(Value::from(end)),
        Step::from(step),
        Options::new(),
    )
}

#[test]
fn invalid_returns_empty() {
    exact(f2("1", "0f"), &[]);
    exact(f3("1", "10", "ff"), &[]);
    exact(f2("1", "10.f"), &[]);
    exact(f2("1", "10f"), &[]);
    exact(f3("1", "20", "2f"), &[]);
    exact(f3("1", "20", "f2"), &[]);
    exact(f2("1", "2f"), &[]);
    exact(f3("1", "2f", "2"), &[]);
    exact(f2("1", "f2"), &[]);
    exact(f2("1", "ff"), &[]);
    exact(f3("1", "ff", "2"), &[]);
    exact(f2("1.1", "2.1"), &[]);
    exact(f2("1.2", "2"), &[]);
    exact(f2("1.20", "2"), &[]);
}
