//! Zero padding of generated values and of regex output.

#![allow(dead_code)]
#![allow(unused_imports)]

use expand_range::{fill, fill_checked, FillError, FillResult, Item, Options, Step, Value};

// Shared helpers.

/// Build a numeric item.
pub fn n(x: i64) -> Item {
    Item::Num(x)
}

/// Build a string item.
pub fn s(x: &str) -> Item {
    Item::Str(x.to_string())
}

/// Assert a list result equals the expected items, type and value.
pub fn exact(actual: FillResult, expected: &[Item]) {
    match actual {
        FillResult::List(items) => {
            assert_eq!(items.len(), expected.len(), "length mismatch: {items:?}");
            for (i, (a, e)) in items.iter().zip(expected.iter()).enumerate() {
                assert_eq!(a, e, "element {i} mismatch");
            }
        }
        FillResult::Regex(r) => panic!("expected a list, got regex {r:?}"),
    }
}

/// Assert a regex result equals the expected source string.
pub fn regex_eq(actual: FillResult, expected: &str) {
    match actual {
        FillResult::Regex(r) => assert_eq!(r, expected),
        FillResult::List(items) => panic!("expected a regex, got list {items:?}"),
    }
}

/// Run expand with non-strict default options.
pub fn run(start: Value, end: Option<Value>, step: Step) -> FillResult {
    fill(start, end, step, Options::new())
}

/// Run expand with the given options.
pub fn run_opts(start: Value, end: Option<Value>, step: Step, opts: Options) -> FillResult {
    fill(start, end, step, opts)
}

/// Run the checked entry, returning the strict-mode error if any.
pub fn run_checked(
    start: Value,
    end: Option<Value>,
    step: Step,
    opts: Options,
) -> Result<FillResult, FillError> {
    fill_checked(start, end, step, opts)
}

/// Build a regex from a numeric range and test a candidate against it.
///
/// Mirrors `new RegExp('^(' + fill(...) + ')$').test(input)`.
pub fn is_match(start: Value, end: Value, opts: Options, input: &str) -> bool {
    let source = match fill(start, Some(end), Step::Absent, opts) {
        FillResult::Regex(r) => r,
        FillResult::List(_) => panic!("expected a regex result"),
    };
    let re = regex::Regex::new(&format!("^({source})$")).expect("valid regex");
    re.is_match(input)
}

/// Naive inclusive numeric enumerator, used by the match-verification oracle.
pub fn enumerate(start: i64, stop: i64) -> Vec<i64> {
    let mut out = vec![];
    let mut i = start;
    while i <= stop {
        out.push(i);
        i += 1;
    }
    out
}

/// fill(start, end) with no step.
fn f2(start: &str, end: &str) -> FillResult {
    fill(
        Value::from(start),
        Some(Value::from(end)),
        Step::Absent,
        Options::new(),
    )
}

/// fill(start, end, step).
fn f3(start: &str, end: &str, step: &str) -> FillResult {
    fill(
        Value::from(start),
        Some(Value::from(end)),
        Step::from(step),
        Options::new(),
    )
}

/// fill(start, end, num_step).
fn f3n(start: &str, end: &str, step: i64) -> FillResult {
    fill(
        Value::from(start),
        Some(Value::from(end)),
        Step::from(step),
        Options::new(),
    )
}

/// fill(start, end, {toRegex:true}).
fn fre(start: &str, end: &str) -> FillResult {
    let mut o = Options::new();
    o.to_regex = true;
    fill(Value::from(start), Some(Value::from(end)), Step::Absent, o)
}

/// fill(start, end, {toRegex:true, strictZeros:true}).
fn fre_strict(start: &str, end: &str) -> FillResult {
    let mut o = Options::new();
    o.to_regex = true;
    o.strict_zeros = true;
    fill(Value::from(start), Some(Value::from(end)), Step::Absent, o)
}

#[test]
fn pad_incremented_numbers() {
    exact(f2("01", "03"), &[s("01"), s("02"), s("03")]);
    exact(f2("01", "3"), &[s("01"), s("02"), s("03")]);
    exact(f2("1", "03"), &[s("01"), s("02"), s("03")]);
    exact(f2("0001", "0003"), &[s("0001"), s("0002"), s("0003")]);
    exact(
        f2("-10", "00"),
        &[
            s("-10"),
            s("-09"),
            s("-08"),
            s("-07"),
            s("-06"),
            s("-05"),
            s("-04"),
            s("-03"),
            s("-02"),
            s("-01"),
            s("000"),
        ],
    );
    exact(
        f2("05", "010"),
        &[s("005"), s("006"), s("007"), s("008"), s("009"), s("010")],
    );
    // Spot-check a long padded run.
    let r = f2("05", "100");
    let items = r.expect_list();
    assert_eq!(items.len(), 96);
    assert_eq!(items.first(), Some(&s("005")));
    assert_eq!(items.last(), Some(&s("100")));
    assert_eq!(items[5], s("010"));
}

#[test]
fn pad_decremented_numbers() {
    exact(f2("03", "01"), &[s("03"), s("02"), s("01")]);
    exact(f2("3", "01"), &[s("03"), s("02"), s("01")]);
    exact(f2("003", "1"), &[s("003"), s("002"), s("001")]);
    exact(f2("003", "001"), &[s("003"), s("002"), s("001")]);
    exact(f2("3", "001"), &[s("003"), s("002"), s("001")]);
    exact(f2("03", "001"), &[s("003"), s("002"), s("001")]);
}

#[test]
fn pad_decremented_with_regex() {
    regex_eq(fre("03", "01"), "0?[1-3]");
    regex_eq(fre("3", "01"), "0?[1-3]");
    regex_eq(fre("003", "1"), "0{0,2}[1-3]");
    regex_eq(fre("003", "001"), "0{0,2}[1-3]");
    regex_eq(fre("3", "001"), "0{0,2}[1-3]");
    regex_eq(fre("03", "001"), "0{0,2}[1-3]");
    regex_eq(fre("001", "020"), "0{0,2}[1-9]|0?1[0-9]|0?20");
}

#[test]
fn pad_with_strict_zeros() {
    regex_eq(fre_strict("03", "01"), "0[1-3]");
    regex_eq(fre_strict("3", "01"), "0[1-3]");
    regex_eq(fre_strict("003", "1"), "00[1-3]");
    regex_eq(fre_strict("003", "001"), "00[1-3]");
    regex_eq(fre_strict("3", "001"), "00[1-3]");
    regex_eq(fre_strict("03", "001"), "00[1-3]");
    regex_eq(fre_strict("001", "020"), "00[1-9]|01[0-9]|020");
}

#[test]
fn pad_stepped_numbers() {
    exact(f3("1", "05", "3"), &[s("01"), s("04")]);
    exact(f3("1", "5", "03"), &[s("01"), s("04")]);
    exact(f3("1", "5", "0003"), &[s("0001"), s("0004")]);
    exact(f3("1", "005", "3"), &[s("001"), s("004")]);
    exact(
        f3("00", "1000", "200"),
        &[
            s("0000"),
            s("0200"),
            s("0400"),
            s("0600"),
            s("0800"),
            s("1000"),
        ],
    );
    exact(
        f3("0", "01000", "200"),
        &[
            s("00000"),
            s("00200"),
            s("00400"),
            s("00600"),
            s("00800"),
            s("01000"),
        ],
    );
    exact(f3("001", "5", "3"), &[s("001"), s("004")]);
    exact(
        f3n("02", "10", 2),
        &[s("02"), s("04"), s("06"), s("08"), s("10")],
    );
    exact(
        f3n("002", "10", 2),
        &[s("002"), s("004"), s("006"), s("008"), s("010")],
    );
    exact(
        f3n("002", "010", 2),
        &[s("002"), s("004"), s("006"), s("008"), s("010")],
    );
    exact(
        fill(
            Value::from("-04"),
            Some(Value::from(4)),
            Step::from(2),
            Options::new(),
        ),
        &[s("-04"), s("-02"), s("000"), s("002"), s("004")],
    );
}
