//! Transform callback passed as the step argument.

#![allow(dead_code)]
#![allow(unused_imports)]

use expand_range::{fill, fill_checked, FillError, FillResult, Item, Options, Step, Value};

// Shared helpers.

/// Build a numeric item.
pub fn n(x: i64) -> Item {
    Item::Num(x)
}

/// Build a string item.
pub fn s(x: &str) -> Item {
    Item::Str(x.to_string())
}

/// Assert a list result equals the expected items, type and value.
pub fn exact(actual: FillResult, expected: &[Item]) {
    match actual {
        FillResult::List(items) => {
            assert_eq!(items.len(), expected.len(), "length mismatch: {items:?}");
            for (i, (a, e)) in items.iter().zip(expected.iter()).enumerate() {
                assert_eq!(a, e, "element {i} mismatch");
            }
        }
        FillResult::Regex(r) => panic!("expected a list, got regex {r:?}"),
    }
}

/// Assert a regex result equals the expected source string.
pub fn regex_eq(actual: FillResult, expected: &str) {
    match actual {
        FillResult::Regex(r) => assert_eq!(r, expected),
        FillResult::List(items) => panic!("expected a regex, got list {items:?}"),
    }
}

/// Run expand with non-strict default options.
pub fn run(start: Value, end: Option<Value>, step: Step) -> FillResult {
    fill(start, end, step, Options::new())
}

/// Run expand with the given options.
pub fn run_opts(start: Value, end: Option<Value>, step: Step, opts: Options) -> FillResult {
    fill(start, end, step, opts)
}

/// Run the checked entry, returning the strict-mode error if any.
pub fn run_checked(
    start: Value,
    end: Option<Value>,
    step: Step,
    opts: Options,
) -> Result<FillResult, FillError> {
    fill_checked(start, end, step, opts)
}

/// Build a regex from a numeric range and test a candidate against it.
///
/// Mirrors `new RegExp('^(' + fill(...) + ')$').test(input)`.
pub fn is_match(start: Value, end: Value, opts: Options, input: &str) -> bool {
    let source = match fill(start, Some(end), Step::Absent, opts) {
        FillResult::Regex(r) => r,
        FillResult::List(_) => panic!("expected a regex result"),
    };
    let re = regex::Regex::new(&format!("^({source})$")).expect("valid regex");
    re.is_match(input)
}

/// Naive inclusive numeric enumerator, used by the match-verification oracle.
pub fn enumerate(start: i64, stop: i64) -> Vec<i64> {
    let mut out = vec![];
    let mut i = start;
    while i <= stop {
        out.push(i);
        i += 1;
    }
    out
}

#[test]
fn current_value_is_first_param() {
    // Identity transform returns the numeric value unchanged.
    let r = fill(
        Value::from(1),
        Some(Value::from(5)),
        Step::Func(Box::new(|v: Item, _i: usize| v)),
        Options::new(),
    );
    exact(r, &[n(1), n(2), n(3), n(4), n(5)]);
}

#[test]
fn character_code_for_non_integers() {
    // Letter mode passes the character code as the value.
    let r = fill(
        Value::from("a"),
        Some(Value::from("e")),
        Step::Func(Box::new(|v: Item, _i: usize| {
            let code = match v {
                Item::Num(n) => n as u32,
                Item::Str(_) => 0,
            };
            Item::Str(char::from_u32(code).unwrap().to_string())
        })),
        Options::new(),
    );
    exact(r, &[s("a"), s("b"), s("c"), s("d"), s("e")]);
}

#[test]
fn transform_can_pad() {
    let r = fill(
        Value::from("01"),
        Some(Value::from("05")),
        Step::Func(Box::new(|v: Item, _i: usize| {
            let text = v.to_string();
            let width = text.len() + 3;
            let padded = format!("{text:0>width$}");
            Item::Str(padded)
        })),
        Options::new(),
    );
    exact(r, &[s("0001"), s("0002"), s("0003"), s("0004"), s("0005")]);
}

#[test]
fn index_is_second_param() {
    let r = fill(
        Value::from("a"),
        Some(Value::from("e")),
        Step::Func(Box::new(|v: Item, i: usize| {
            let code = match v {
                Item::Num(n) => n as u32,
                Item::Str(_) => 0,
            };
            let ch = char::from_u32(code).unwrap();
            Item::Str(format!("{ch}{i}"))
        })),
        Options::new(),
    );
    exact(r, &[s("a0"), s("b1"), s("c2"), s("d3"), s("e4")]);
}
