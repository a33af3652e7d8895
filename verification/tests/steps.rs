//! Explicit step argument: numeric and string steps, sign, options.step.

#![allow(dead_code)]
#![allow(unused_imports)]

use expand_range::{fill, fill_checked, FillError, FillResult, Item, Options, Step, Value};

// Shared helpers.

/// Build a numeric item.
pub fn n(x: i64) -> Item {
    Item::Num(x)
}

/// Build a string item.
pub fn s(x: &str) -> Item {
    Item::Str(x.to_string())
}

/// Assert a list result equals the expected items, type and value.
pub fn exact(actual: FillResult, expected: &[Item]) {
    match actual {
        FillResult::List(items) => {
            assert_eq!(items.len(), expected.len(), "length mismatch: {items:?}");
            for (i, (a, e)) in items.iter().zip(expected.iter()).enumerate() {
                assert_eq!(a, e, "element {i} mismatch");
            }
        }
        FillResult::Regex(r) => panic!("expected a list, got regex {r:?}"),
    }
}

/// Assert a regex result equals the expected source string.
pub fn regex_eq(actual: FillResult, expected: &str) {
    match actual {
        FillResult::Regex(r) => assert_eq!(r, expected),
        FillResult::List(items) => panic!("expected a regex, got list {items:?}"),
    }
}

/// Run expand with non-strict default options.
pub fn run(start: Value, end: Option<Value>, step: Step) -> FillResult {
    fill(start, end, step, Options::new())
}

/// Run expand with the given options.
pub fn run_opts(start: Value, end: Option<Value>, step: Step, opts: Options) -> FillResult {
    fill(start, end, step, opts)
}

/// Run the checked entry, returning the strict-mode error if any.
pub fn run_checked(
    start: Value,
    end: Option<Value>,
    step: Step,
    opts: Options,
) -> Result<FillResult, FillError> {
    fill_checked(start, end, step, opts)
}

/// Build a regex from a numeric range and test a candidate against it.
///
/// Mirrors `new RegExp('^(' + fill(...) + ')$').test(input)`.
pub fn is_match(start: Value, end: Value, opts: Options, input: &str) -> bool {
    let source = match fill(start, Some(end), Step::Absent, opts) {
        FillResult::Regex(r) => r,
        FillResult::List(_) => panic!("expected a regex result"),
    };
    let re = regex::Regex::new(&format!("^({source})$")).expect("valid regex");
    re.is_match(input)
}

/// Naive inclusive numeric enumerator, used by the match-verification oracle.
pub fn enumerate(start: i64, stop: i64) -> Vec<i64> {
    let mut out = vec![];
    let mut i = start;
    while i <= stop {
        out.push(i);
        i += 1;
    }
    out
}

/// fill(start, end, step) where all three are strings.
fn fs(start: &str, end: &str, step: &str) -> FillResult {
    fill(
        Value::from(start),
        Some(Value::from(end)),
        Step::from(step),
        Options::new(),
    )
}

/// fill(num, num, num).
fn fnnn(start: i64, end: i64, step: i64) -> FillResult {
    fill(
        Value::from(start),
        Some(Value::from(end)),
        Step::from(step),
        Options::new(),
    )
}

#[test]
fn increment_with_given_step() {
    exact(
        fs("1", "10", "1"),
        &[
            s("1"),
            s("2"),
            s("3"),
            s("4"),
            s("5"),
            s("6"),
            s("7"),
            s("8"),
            s("9"),
            s("10"),
        ],
    );
    exact(
        fs("1", "10", "2"),
        &[s("1"), s("3"), s("5"), s("7"), s("9")],
    );
    exact(
        fs("0", "1000", "200"),
        &[s("0"), s("200"), s("400"), s("600"), s("800"), s("1000")],
    );
    exact(
        fill(
            Value::from("1"),
            Some(Value::from("10")),
            Step::from(2),
            Options::new(),
        ),
        &[s("1"), s("3"), s("5"), s("7"), s("9")],
    );
    exact(
        fs("1", "20", "2"),
        &[
            s("1"),
            s("3"),
            s("5"),
            s("7"),
            s("9"),
            s("11"),
            s("13"),
            s("15"),
            s("17"),
            s("19"),
        ],
    );
    exact(fs("1", "20", "20"), &[s("1")]);
    // Step sign is ignored.
    exact(
        fs("10", "1", "2"),
        &[s("10"), s("8"), s("6"), s("4"), s("2")],
    );
    exact(
        fs("10", "1", "-2"),
        &[s("10"), s("8"), s("6"), s("4"), s("2")],
    );

    // Number inputs keep number output unless a bound is a string.
    exact(
        fill(
            Value::from(2),
            Some(Value::from(10)),
            Step::from("2"),
            Options::new(),
        ),
        &[n(2), n(4), n(6), n(8), n(10)],
    );
    exact(
        fnnn(2, 10, 1),
        &[
            n(2),
            n(3),
            n(4),
            n(5),
            n(6),
            n(7),
            n(8),
            n(9),
            n(10),
        ],
    );
    exact(fnnn(2, 10, 2), &[n(2), n(4), n(6), n(8), n(10)]);
    exact(fnnn(2, 10, 3), &[n(2), n(5), n(8)]);
    exact(fnnn(0, 5, 2), &[n(0), n(2), n(4)]);
    exact(fnnn(5, 0, 2), &[n(5), n(3), n(1)]);
    exact(fnnn(1, 5, 2), &[n(1), n(3), n(5)]);

    // End is a string, so output is strings.
    exact(
        fill(
            Value::from(2),
            Some(Value::from("10")),
            Step::from(2),
            Options::new(),
        ),
        &[s("2"), s("4"), s("6"), s("8"), s("10")],
    );
    exact(
        fill(
            Value::from(2),
            Some(Value::from("10")),
            Step::from(1),
            Options::new(),
        ),
        &[
            s("2"),
            s("3"),
            s("4"),
            s("5"),
            s("6"),
            s("7"),
            s("8"),
            s("9"),
            s("10"),
        ],
    );
    exact(
        fill(
            Value::from(2),
            Some(Value::from("10")),
            Step::from("2"),
            Options::new(),
        ),
        &[s("2"), s("4"), s("6"), s("8"), s("10")],
    );
    exact(
        fill(
            Value::from("2"),
            Some(Value::from(10)),
            Step::from("3"),
            Options::new(),
        ),
        &[s("2"), s("5"), s("8")],
    );
}

#[test]
fn negative_ranges_strings() {
    exact(
        fs("0", "-10", "-2"),
        &[s("0"), s("-2"), s("-4"), s("-6"), s("-8"), s("-10")],
    );
    exact(
        fs("-0", "-10", "-2"),
        &[s("0"), s("-2"), s("-4"), s("-6"), s("-8"), s("-10")],
    );
    exact(
        fs("-1", "-10", "-2"),
        &[s("-1"), s("-3"), s("-5"), s("-7"), s("-9")],
    );
    exact(
        fs("-1", "-10", "2"),
        &[s("-1"), s("-3"), s("-5"), s("-7"), s("-9")],
    );
    exact(
        fs("1", "10", "2"),
        &[s("1"), s("3"), s("5"), s("7"), s("9")],
    );
    exact(
        fs("1", "20", "2"),
        &[
            s("1"),
            s("3"),
            s("5"),
            s("7"),
            s("9"),
            s("11"),
            s("13"),
            s("15"),
            s("17"),
            s("19"),
        ],
    );
    exact(fs("1", "20", "20"), &[s("1")]);
    exact(
        fs("10", "1", "-2"),
        &[s("10"), s("8"), s("6"), s("4"), s("2")],
    );
    exact(
        fs("-10", "0", "2"),
        &[s("-10"), s("-8"), s("-6"), s("-4"), s("-2"), s("0")],
    );
    exact(
        fs("-10", "-0", "2"),
        &[s("-10"), s("-8"), s("-6"), s("-4"), s("-2"), s("0")],
    );
    // Step "0" is truthy, then clamps to 1.
    exact(
        fs("-0", "-10", "0"),
        &[
            s("0"),
            s("-1"),
            s("-2"),
            s("-3"),
            s("-4"),
            s("-5"),
            s("-6"),
            s("-7"),
            s("-8"),
            s("-9"),
            s("-10"),
        ],
    );
    exact(
        fs("0", "-10", "-0"),
        &[
            s("0"),
            s("-1"),
            s("-2"),
            s("-3"),
            s("-4"),
            s("-5"),
            s("-6"),
            s("-7"),
            s("-8"),
            s("-9"),
            s("-10"),
        ],
    );
}

#[test]
fn negative_ranges_numbers() {
    exact(
        fnnn(-10, 0, 2),
        &[n(-10), n(-8), n(-6), n(-4), n(-2), n(0)],
    );
    exact(
        fnnn(-10, -2, 2),
        &[n(-10), n(-8), n(-6), n(-4), n(-2)],
    );
    exact(
        fnnn(-2, -10, 1),
        &[
            n(-2),
            n(-3),
            n(-4),
            n(-5),
            n(-6),
            n(-7),
            n(-8),
            n(-9),
            n(-10),
        ],
    );
    exact(
        fnnn(0, -10, 2),
        &[n(0), n(-2), n(-4), n(-6), n(-8), n(-10)],
    );
    exact(
        fnnn(-2, -10, 2),
        &[n(-2), n(-4), n(-6), n(-8), n(-10)],
    );
    exact(fnnn(-2, -10, 3), &[n(-2), n(-5), n(-8)]);
    exact(
        fnnn(-9, 9, 3),
        &[n(-9), n(-6), n(-3), n(0), n(3), n(6), n(9)],
    );
}

#[test]
fn negative_zero_passed() {
    // -0 normalizes to 0 in output.
    exact(
        fnnn(-10, 0, 2),
        &[n(-10), n(-8), n(-6), n(-4), n(-2), n(0)],
    );
    exact(
        fnnn(0, -10, 2),
        &[n(0), n(-2), n(-4), n(-6), n(-8), n(-10)],
    );
}

#[test]
fn steps_letters() {
    exact(
        fill(
            Value::from("z"),
            Some(Value::from("a")),
            Step::from(-2),
            Options::new(),
        ),
        &[
            s("z"),
            s("x"),
            s("v"),
            s("t"),
            s("r"),
            s("p"),
            s("n"),
            s("l"),
            s("j"),
            s("h"),
            s("f"),
            s("d"),
            s("b"),
        ],
    );
    exact(
        fill(
            Value::from("a"),
            Some(Value::from("e")),
            Step::from(2),
            Options::new(),
        ),
        &[s("a"), s("c"), s("e")],
    );
    exact(
        fill(
            Value::from("E"),
            Some(Value::from("A")),
            Step::from(2),
            Options::new(),
        ),
        &[s("E"), s("C"), s("A")],
    );
}

#[test]
fn options_step() {
    // An options object in step position carries step and dispatches.
    let opts = || {
        let mut o = Options::new();
        o.step = Some(2);
        o
    };
    exact(
        fill(
            Value::from("a"),
            Some(Value::from("e")),
            Step::Opts(opts()),
            Options::new(),
        ),
        &[s("a"), s("c"), s("e")],
    );
    exact(
        fill(
            Value::from("E"),
            Some(Value::from("A")),
            Step::Opts(opts()),
            Options::new(),
        ),
        &[s("E"), s("C"), s("A")],
    );
}
