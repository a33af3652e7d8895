//! Properties of the library as a whole, checked on concrete values, and the
//! edges of coercion, stepping and the accessors.

use expand_range::regex_range::{to_regex_range, RegexOptions};
use expand_range::{fill, fill_checked, fill_range, FillError, FillResult, Item, Options, Step, Value};

fn list(r: FillResult) -> Vec<Item> {
    match r {
        FillResult::List(items) => items,
        FillResult::Regex(src) => panic!("expected a list, got regex {src:?}"),
    }
}

fn regex(r: FillResult) -> String {
    match r {
        FillResult::Regex(src) => src,
        FillResult::List(items) => panic!("expected a regex, got list {items:?}"),
    }
}

fn strs(xs: &[&str]) -> Vec<Item> {
    xs.iter().map(|x| Item::Str(x.to_string())).collect()
}

fn nums(xs: &[i64]) -> Vec<Item> {
    xs.iter().map(|x| Item::Num(*x)).collect()
}

fn regex_opts() -> Options {
    let mut o = Options::new();
    o.to_regex = true;
    o
}

#[test]
fn swapped_bounds_reverse_the_list() {
    let up = list(fill(Value::from("-3"), Some(Value::from("04")), Step::Absent, Options::new()));
    let mut down = list(fill(Value::from("04"), Some(Value::from("-3")), Step::Absent, Options::new()));
    down.reverse();
    assert_eq!(up, down);
    assert_eq!(up, strs(&["-3", "-2", "-1", "00", "01", "02", "03", "04"]));
    let mut desc = list(fill_range(7, 2));
    desc.reverse();
    assert_eq!(list(fill_range(2, 7)), desc);
}

#[test]
fn step_sign_is_ignored() {
    let pos = list(fill(Value::from(1), Some(Value::from(10)), Step::from(3), Options::new()));
    let neg = list(fill(Value::from(1), Some(Value::from(10)), Step::from(-3), Options::new()));
    assert_eq!(pos, neg);
    assert_eq!(pos, nums(&[1, 4, 7, 10]));
    // A padded range whose step text is wider than the bounds pads to the step.
    let wide = list(fill(Value::from("01"), Some(Value::from("03")), Step::from(-100), Options::new()));
    assert_eq!(wide, strs(&["0001"]));
    let narrow = list(fill(Value::from("01"), Some(Value::from("03")), Step::from(100), Options::new()));
    assert_eq!(narrow, strs(&["001"]));
}

#[test]
fn non_strict_calls_never_fail() {
    let cases: Vec<(Value, Option<Value>, Step)> = vec![
        (Value::from(""), Some(Value::from("5")), Step::Absent),
        (Value::from("a1"), Some(Value::from("b")), Step::Absent),
        (Value::from("1"), Some(Value::from("9")), Step::from("x")),
        (Value::from(""), None, Step::Absent),
    ];
    for (start, end, step) in cases {
        let r = fill_checked(start, end, step, Options::new()).expect("no error without strict mode");
        assert_eq!(list(r), vec![]);
    }
}

#[test]
fn string_bounds_give_strings() {
    let items = list(fill(Value::from("2"), Some(Value::from(5)), Step::from(2), Options::new()));
    assert_eq!(items, strs(&["2", "4"]));
    let items = list(fill(Value::from(2), Some(Value::from("b")), Step::Absent, Options::new()));
    assert!(items.iter().all(|i| matches!(i, Item::Str(_))));
}

#[test]
fn fill_range_lists_integers() {
    assert_eq!(list(fill_range(2, 5)), nums(&[2, 3, 4, 5]));
    assert_eq!(list(fill_range(-1, -3)), nums(&[-1, -2, -3]));
    assert_eq!(list(fill_range(4, 4)), nums(&[4]));
}

#[test]
fn string_bounds_coerce_like_numbers() {
    // Surrounding whitespace, a trailing point and exponents that stay whole.
    let r = list(fill(Value::from(" 2 "), Some(Value::from("4.")), Step::Absent, Options::new()));
    assert_eq!(r, strs(&["2", "3", "4"]));
    let r = list(fill(Value::from("1e1"), Some(Value::from("12"), ), Step::Absent, Options::new()));
    assert_eq!(r, strs(&["10", "11", "12"]));
    let r = list(fill(Value::from("2.50e1"), Some(Value::from("26.0E0")), Step::Absent, Options::new()));
    assert_eq!(r, strs(&["25", "26"]));
    // A negative exponent that leaves a fraction is no number.
    let r = list(fill(Value::from("15e-1"), Some(Value::from("3")), Step::Absent, Options::new()));
    assert_eq!(r, vec![]);
    // Hex is no number, and so is a value beyond i64.
    let r = list(fill(Value::from("0x10"), Some(Value::from("3")), Step::Absent, Options::new()));
    assert_eq!(r, vec![]);
    let r = list(fill(Value::from("1e30"), Some(Value::from("3")), Step::Absent, Options::new()));
    assert_eq!(r, vec![]);
    // A huge negative exponent on zero is still zero.
    let r = list(fill(Value::from(".0e-99999999999999999999999"), Some(Value::from("1")), Step::Absent, Options::new()));
    assert_eq!(r, strs(&["0", "1"]));
}

#[test]
fn regex_for_coerced_bounds_uses_the_value() {
    regex_eq_str(fill(Value::from("+2"), Some(Value::from("+3")), Step::Absent, regex_opts()), "2|3");
    regex_eq_str(fill(Value::from("1."), Some(Value::from("1")), Step::Absent, regex_opts()), "1");
}

fn regex_eq_str(r: FillResult, want: &str) {
    assert_eq!(regex(r), want);
}

#[test]
fn stepped_regex_reaches_i64_min() {
    let src = regex(fill(
        Value::from(i64::MIN),
        Some(Value::from(i64::MIN + 4)),
        Step::from(2),
        regex_opts(),
    ));
    assert_eq!(src, "-(?:9223372036854775804|9223372036854775806|9223372036854775808)");
    let re = regex::Regex::new(&format!("^({src})$")).unwrap();
    assert!(re.is_match(&i64::MIN.to_string()));
    assert!(!re.is_match(&(i64::MIN + 1).to_string()));
}

#[test]
fn wide_numeric_ranges_keep_exact_endpoints() {
    let items = list(fill_range(i64::MAX - 2, i64::MAX));
    assert_eq!(items, nums(&[i64::MAX - 2, i64::MAX - 1, i64::MAX]));
    let items = list(fill(Value::from(i64::MIN), Some(Value::from(i64::MAX)), Step::from(i64::MAX), Options::new()));
    assert_eq!(items, nums(&[i64::MIN, -1, i64::MAX - 1]));
}

#[test]
fn letter_step_beyond_codes_stops_cleanly() {
    let items = list(fill(Value::from("a"), Some(Value::from("z")), Step::from(i64::MAX), Options::new()));
    assert_eq!(items, strs(&["a"]));
    let items = list(fill(Value::from("z"), Some(Value::from("a")), Step::from(i64::MIN), Options::new()));
    assert_eq!(items, strs(&["z"]));
}

#[test]
fn letters_across_the_surrogate_gap() {
    let items = list(fill(Value::from("\u{d7ff}"), Some(Value::from("\u{e000}")), Step::Absent, Options::new()));
    assert_eq!(items.len(), 0xe000 - 0xd7ff + 1);
    assert_eq!(items[0], Item::Str("\u{d7ff}".to_string()));
    assert_eq!(items[1], Item::Str(String::new()));
    assert_eq!(items[items.len() - 1], Item::Str("\u{e000}".to_string()));
}

#[test]
fn letter_class_escapes_a_hyphen_endpoint() {
    let src = regex(fill(Value::from("-"), Some(Value::from("/")), Step::Absent, regex_opts()));
    assert_eq!(src, "[\\--/]");
    let re = regex::Regex::new(&format!("^({src})$")).unwrap();
    assert!(re.is_match("-"));
    assert!(re.is_match("."));
    assert!(re.is_match("/"));
    assert!(!re.is_match(","));
}

#[test]
fn shorthand_and_strict_zero_options() {
    let mut o = regex_opts();
    o.shorthand = true;
    assert_eq!(regex(fill(Value::from(1), Some(Value::from(100)), Step::Absent, o)), "[1-9]|[1-9]\\d|100");
    let mut o = regex_opts();
    o.strict_zeros = true;
    assert_eq!(regex(fill(Value::from("01"), Some(Value::from("12")), Step::Absent, o)), "0[1-9]|1[0-2]");
}

#[test]
fn unpadded_regex_merges_lengths() {
    assert_eq!(regex(fill(Value::from(1), Some(Value::from(1000)), Step::Absent, regex_opts())), "[1-9]|[1-9][0-9]{1,2}|1000");
}

#[test]
fn stepped_regex_pads_members() {
    let src = regex(fill(Value::from("-04"), Some(Value::from("04")), Step::from(4), regex_opts()));
    assert_eq!(src, "000|004|-(?:004)");
}

#[test]
fn error_messages() {
    let mut strict = Options::new();
    strict.strict_ranges = true;
    let e = fill_checked(Value::from("ab"), None, Step::Absent, strict).unwrap();
    assert_eq!(list(e), strs(&["ab"]));
    let mut strict = Options::new();
    strict.strict_ranges = true;
    let e = fill_checked(Value::from(""), None, Step::Absent, strict).unwrap_err();
    assert_eq!(e, FillError::Range("Invalid range arguments: [ '', '' ]".to_string()));
    assert_eq!(e.message(), "Invalid range arguments: [ '', '' ]");
    let mut strict = Options::new();
    strict.strict_ranges = true;
    let e = fill_checked(Value::from(-3), Some(Value::from("é!")), Step::Absent, strict).unwrap_err();
    assert_eq!(e.message(), "Invalid range arguments: [ -3, 'é!' ]");
    let mut strict = Options::new();
    strict.strict_ranges = true;
    let e = fill_checked(Value::from(1), Some(Value::from(2)), Step::from("2.5"), strict).unwrap_err();
    assert_eq!(e, FillError::Step("Expected step \"2.5\" to be a number".to_string()));
}

#[test]
fn options_in_step_position_replace_the_options() {
    let mut strict = Options::new();
    strict.strict_ranges = true;
    // The options in step position are not strict, so the bad bound is no error.
    let r = fill_checked(Value::from("ab"), Some(Value::from("c")), Step::Opts(Options::new()), strict);
    assert_eq!(list(r.unwrap()), vec![]);
    let mut o = Options::new();
    o.step = Some(0);
    assert_eq!(list(fill(Value::from(1), Some(Value::from(3)), Step::Opts(o), Options::new())), nums(&[1, 2, 3]));
}

#[test]
fn transform_in_step_position_drops_other_options() {
    let mut o = Options::new();
    o.to_regex = true;
    o.stringify = true;
    let items = list(fill(
        Value::from(1),
        Some(Value::from(3)),
        Step::Func(Box::new(|v: Item, i: usize| match v {
            Item::Num(n) => Item::Num(n * 10 + i as i64),
            other => other,
        })),
        o,
    ));
    assert_eq!(items, nums(&[10, 21, 32]));
}

#[test]
fn transformed_letters_in_a_stepped_regex_are_escaped() {
    let mut o = regex_opts();
    o.transform = Some(Box::new(|_v: Item, i: usize| Item::Str(format!("{i}.+"))));
    let src = regex(fill(Value::from("a"), Some(Value::from("e")), Step::from(2), o));
    assert_eq!(src, "0\\.\\+|1\\.\\+|2\\.\\+");
}

#[test]
fn accessors() {
    let r = fill_range(1, 2);
    assert_eq!(r.as_list(), Some(&nums(&[1, 2])[..]));
    assert_eq!(r.as_regex(), None);
    assert_eq!(r.expect_list(), &nums(&[1, 2])[..]);
    assert_eq!(r.to_string_list(), Some(vec!["1".to_string(), "2".to_string()]));
    assert_eq!(r.into_list(), Some(nums(&[1, 2])));
    let r = fill(Value::from(1), Some(Value::from(2)), Step::Absent, regex_opts());
    assert_eq!(r.as_regex(), Some("1|2"));
    assert_eq!(r.expect_regex(), "1|2");
    assert_eq!(r.as_list(), None);
    assert_eq!(r.to_string_list(), None);
    assert_eq!(r.into_regex(), Some("1|2".to_string()));
    assert_eq!(Item::Num(-7).to_string(), "-7");
    assert_eq!(Item::Str("x".to_string()).to_string(), "x");
}

#[test]
fn regex_range_on_its_own() {
    let opts = RegexOptions { relax_zeros: true, shorthand: false, capture: false, wrap: false };
    assert_eq!(to_regex_range("5", "5", &opts), Some("5".to_string()));
    assert_eq!(to_regex_range("12", "9", &opts), Some("9|1[0-2]".to_string()));
    assert_eq!(to_regex_range("x", "9", &opts), None);
    assert_eq!(to_regex_range("-5", "-1", &opts), Some("-[1-5]".to_string()));
    assert_eq!(to_regex_range("0", "9223372036854775807", &opts).map(|s| s.ends_with("922337203685477580[0-7]")), Some(true));
}

#[test]
fn range_pattern_matches_exactly_the_range() {
    let pairs: [(i64, i64); 12] = [
        (0, 9),
        (7, 7),
        (8, 9),
        (1, 1000),
        (-35, 12),
        (-100, -3),
        (2, 100),
        (95, 1002),
        (0, 0),
        (-1, 0),
        (120, 19),
        (-9, 9),
    ];
    for &(x, y) in pairs.iter() {
        let (lo, hi) = if x <= y { (x, y) } else { (y, x) };
        for bits in 0..8u32 {
            let opts = RegexOptions {
                relax_zeros: false,
                shorthand: bits & 1 != 0,
                capture: bits & 2 != 0,
                wrap: bits & 4 != 0,
            };
            let src = to_regex_range(&x.to_string(), &y.to_string(), &opts).unwrap();
            let re = regex::Regex::new(&format!("^(?:{})$", src)).unwrap();
            for v in (lo - 40)..=(hi + 40) {
                assert_eq!(re.is_match(&v.to_string()), lo <= v && v <= hi, "{src} on {v}");
            }
            for junk in ["", "-", "-0", "00", "01", "+1"].iter() {
                assert!(!re.is_match(junk), "{src} on {junk:?}");
            }
        }
    }
}

#[test]
fn padding_gives_common_width() {
    let cases: [(&str, &str); 4] = [("01", "10"), ("-05", "3"), ("0003", "-12"), ("7", "010")];
    for &(a, b) in cases.iter() {
        let width = a.len().max(b.len());
        let items = list(fill(Value::from(a), Some(Value::from(b)), Step::Absent, Options::new()));
        assert!(!items.is_empty());
        for item in items.iter() {
            match item {
                Item::Str(t) => assert_eq!(t.len(), width, "{a}..{b}: {t}"),
                Item::Num(v) => panic!("{a}..{b}: unpadded {v}"),
            }
        }
    }
    let items = list(fill(Value::from("-05"), Some(Value::from("3")), Step::Absent, Options::new()));
    assert_eq!(items, strs(&["-05", "-04", "-03", "-02", "-01", "000", "001", "002", "003"]));
}

#[test]
fn regex_output_matches_exactly() {
    let pairs: [(i64, i64); 6] = [(-12, 31), (40, -7), (3, 3), (998, 1003), (i64::MIN, i64::MIN + 25), (i64::MAX, i64::MAX - 25)];
    for &(x, y) in pairs.iter() {
        let src = regex(fill(Value::from(x), Some(Value::from(y)), Step::Absent, regex_opts()));
        let re = regex::Regex::new(&format!("^(?:{})$", src)).unwrap();
        let (lo, hi) = if x <= y { (x as i128, y as i128) } else { (y as i128, x as i128) };
        for v in (lo - 30)..=(hi + 30) {
            assert_eq!(re.is_match(&v.to_string()), lo <= v && v <= hi, "{src} on {v}");
        }
    }
}

#[test]
fn padded_range_pattern_matches_padded_texts() {
    let cases: [(u64, u64, usize); 6] = [(5, 10, 3), (0, 10, 2), (1, 100000, 6), (7, 8, 3), (42, 42, 4), (130, 9, 5)];
    for &(x, y, width) in cases.iter() {
        let (lo, hi) = if x <= y { (x, y) } else { (y, x) };
        for strict in [false, true].iter() {
            let opts = RegexOptions { relax_zeros: !strict, shorthand: false, capture: false, wrap: false };
            let px = format!("{:0>w$}", x, w = width);
            let py = format!("{:0>w$}", y, w = width);
            let src = to_regex_range(&px, &py, &opts).unwrap();
            let re = regex::Regex::new(&format!("^(?:{})$", src)).unwrap();
            let top = if hi + 30 < 10u64.pow(width as u32) { hi + 30 } else { 10u64.pow(width as u32) - 1 };
            let start = if lo > 30 { lo - 30 } else { 0 };
            for v in start..=top.min(start + 3000) {
                let text = v.to_string();
                for zeros in 0..=(width - text.len()) {
                    let w = format!("{}{}", "0".repeat(zeros), text);
                    let full = zeros + text.len() == width;
                    if lo <= v && v <= hi && full {
                        assert!(re.is_match(&w), "{src} should match {w}");
                    }
                    if re.is_match(&w) {
                        assert!(lo <= v && v <= hi, "{src} matched {w}");
                        if *strict {
                            assert!(full, "{src} matched unpadded {w}");
                        }
                    }
                }
            }
        }
    }
}

#[test]
fn string_bounds_read_as_numbers() {
    let pairs: [(i64, i64); 4] = [(-3, 4), (10, 1), (0, 0), (i64::MAX - 2, i64::MAX)];
    for &(a, b) in pairs.iter() {
        for step in [None, Some(2i64), Some(-3i64)].iter() {
            let mut opts = Options::new();
            opts.step = *step;
            let mut opts2 = Options::new();
            opts2.step = *step;
            let from_text = list(fill(Value::from(a.to_string()), Some(Value::from(b.to_string())), Step::Absent, opts));
            let from_num = list(fill(Value::from(a), Some(Value::from(b)), Step::Absent, opts2));
            assert_eq!(from_text.len(), from_num.len());
            for (x, y) in from_text.iter().zip(from_num.iter()) {
                assert_eq!(x, &Item::Str(y.to_string()));
            }
        }
    }
}

fn pad_int(v: i64, width: usize) -> String {
    if v < 0 {
        format!("-{:0>w$}", v.unsigned_abs(), w = width - 1)
    } else {
        format!("{:0>w$}", v, w = width)
    }
}

#[test]
fn padded_negative_range_pattern_matches_padded_texts() {
    let cases: [(i64, i64, usize); 6] = [(-10, 0, 3), (-5, 12, 3), (-120, -3, 5), (-7, -6, 3), (-9, 9, 2), (-2, -100, 4)];
    for &(x, y, width) in cases.iter() {
        let (lo, hi) = if x <= y { (x, y) } else { (y, x) };
        for strict in [false, true].iter() {
            let opts = RegexOptions { relax_zeros: !strict, shorthand: false, capture: false, wrap: false };
            let src = to_regex_range(&pad_int(x, width), &pad_int(y, width), &opts).unwrap();
            let re = regex::Regex::new(&format!("^(?:{})$", src)).unwrap();
            for v in (lo - 30)..=(hi + 30) {
                if lo <= v && v <= hi {
                    assert!(re.is_match(&pad_int(v, width)), "{src} should match {}", pad_int(v, width));
                }
                let digits = v.unsigned_abs().to_string();
                let sign = if v < 0 { "-" } else { "" };
                for zeros in 0..=width.saturating_sub(digits.len()) {
                    let w = format!("{}{}{}", sign, "0".repeat(zeros), digits);
                    if re.is_match(&w) {
                        assert!(lo <= v && v <= hi, "{src} matched {w}");
                        if *strict {
                            assert_eq!(w.len(), width, "{src} matched {w}");
                        }
                    }
                }
            }
        }
    }
}

#[test]
fn strict_zeros_count_the_sign_in_the_width_of_negatives() {
    let opts = RegexOptions { relax_zeros: false, shorthand: false, capture: false, wrap: false };
    let src = to_regex_range("-10", "000", &opts).unwrap();
    assert_eq!(src, "-0[1-9]|-10|000");
    let re = regex::Regex::new(&format!("^(?:{})$", src)).unwrap();
    assert!(re.is_match("-09"));
    assert!(re.is_match("-10"));
    assert!(!re.is_match("-009"));
    assert!(!re.is_match("-010"));
}

#[test]
fn strict_zeros_match_negative_padded_bounds_exactly() {
    let opts = RegexOptions { relax_zeros: false, shorthand: false, capture: false, wrap: false };
    let src = to_regex_range("-002", "-100", &opts).unwrap();
    let re = regex::Regex::new(&format!("^(?:{})$", src)).unwrap();
    for v in 2..=100i64 {
        let text = format!("-{:03}", v);
        assert!(re.is_match(&text), "{} should match {}", src, text);
    }
    assert!(!re.is_match("-0002"));
    assert!(!re.is_match("-02"));
    assert!(!re.is_match("-001"));
    assert!(!re.is_match("-101"));
}

#[test]
fn swapped_letter_bounds_reverse_the_list() {
    let pairs: [(&str, &str); 3] = [("a", "e"), ("Z", "a"), ("5", "b")];
    for &(x, y) in pairs.iter() {
        let forward = list(fill(Value::from(x), Some(Value::from(y)), Step::Absent, Options::new()));
        let mut backward = list(fill(Value::from(y), Some(Value::from(x)), Step::Absent, Options::new()));
        backward.reverse();
        assert!(!forward.is_empty());
        assert_eq!(forward, backward);
    }
}

#[test]
fn a_bound_written_shorter_than_its_number_widens_the_last_element() {
    let items = list(fill(Value::from("01"), Some(Value::from("1e3")), Step::Absent, Options::new()));
    assert_eq!(items.first(), Some(&Item::Str("001".to_string())));
    assert_eq!(items.last(), Some(&Item::Str("1000".to_string())));
}

#[test]
fn a_number_and_a_letter_reverse_when_swapped() {
    let forward = list(fill(Value::from(10), Some(Value::from("a")), Step::Absent, Options::new()));
    let mut backward = list(fill(Value::from("a"), Some(Value::from(10)), Step::Absent, Options::new()));
    backward.reverse();
    assert_eq!(forward.first(), Some(&Item::Str("1".to_string())));
    assert_eq!(forward.last(), Some(&Item::Str("a".to_string())));
    assert_eq!(forward, backward);
}

#[test]
fn bounds_that_name_no_range_give_nothing_both_ways() {
    assert_eq!(list(fill(Value::from("ab"), Some(Value::from("c")), Step::Absent, Options::new())), vec![]);
    assert_eq!(list(fill(Value::from("c"), Some(Value::from("ab")), Step::Absent, Options::new())), vec![]);
    let mut strict = Options::new();
    strict.strict_ranges = true;
    let mut strict2 = Options::new();
    strict2.strict_ranges = true;
    assert!(fill_checked(Value::from("ab"), Some(Value::from("c")), Step::Absent, strict).is_err());
    assert!(fill_checked(Value::from("c"), Some(Value::from("ab")), Step::Absent, strict2).is_err());
}

fn tens(v: Item, i: usize) -> Item {
    match v {
        Item::Num(n) => Item::Num(n * 10 + i as i64),
        other => other,
    }
}

#[test]
fn transform_in_step_position_equals_transform_as_only_option() {
    let mut o = Options::new();
    o.to_regex = true;
    o.strict_ranges = true;
    o.step = Some(2);
    let stepped = fill_checked(Value::from(1), Some(Value::from(4)), Step::Func(Box::new(tens)), o).unwrap();
    let mut alone = Options::new();
    alone.transform = Some(Box::new(tens));
    let plain = fill_checked(Value::from(1), Some(Value::from(4)), Step::Absent, alone).unwrap();
    assert_eq!(list(stepped), list(plain));
}

#[test]
fn zero_and_empty_steps_fall_back_to_the_options_step() {
    for fallback in [None, Some(0i64), Some(3i64), Some(-2i64)].iter() {
        let make = || {
            let mut o = Options::new();
            o.step = *fallback;
            o
        };
        let d = match fallback {
            Some(n) if *n != 0 => *n,
            _ => 1,
        };
        let zero = list(fill(Value::from(1), Some(Value::from(10)), Step::Num(0), make()));
        let empty = list(fill(Value::from(1), Some(Value::from(10)), Step::from(""), make()));
        let explicit = list(fill(Value::from(1), Some(Value::from(10)), Step::Num(d), make()));
        assert_eq!(zero, empty);
        assert_eq!(zero, explicit);
    }
}

#[test]
fn grouping_only_wraps_the_alternation() {
    let bare = RegexOptions { relax_zeros: false, shorthand: false, capture: false, wrap: false };
    let base = to_regex_range("1", "25", &bare).unwrap();
    let captured = RegexOptions { relax_zeros: false, shorthand: false, capture: true, wrap: false };
    assert_eq!(to_regex_range("1", "25", &captured).unwrap(), format!("({base})"));
    let wrapped = RegexOptions { relax_zeros: false, shorthand: false, capture: false, wrap: true };
    assert_eq!(to_regex_range("1", "25", &wrapped).unwrap(), format!("(?:{base})"));
    assert_eq!(to_regex_range("3", "4", &wrapped).unwrap(), "(?:3|4)");
    assert_eq!(to_regex_range("1", "5", &wrapped).unwrap(), to_regex_range("1", "5", &bare).unwrap());
}

#[test]
fn step_text_beyond_i64_walks_the_widest_step() {
    let mut strict = Options::new();
    strict.strict_ranges = true;
    let r = fill_checked(Value::from(1), Some(Value::from(5)), Step::from("1e30"), strict).unwrap();
    assert_eq!(list(r), nums(&[1]));
    let down = list(fill(Value::from(5), Some(Value::from(1)), Step::from("-1e30"), Options::new()));
    assert_eq!(down, nums(&[5]));
    let wide = list(fill(
        Value::from(i64::MIN),
        Some(Value::from(i64::MAX)),
        Step::from("99999999999999999999"),
        Options::new(),
    ));
    assert_eq!(wide, nums(&[i64::MIN, -1, i64::MAX - 1]));
    let letters = list(fill(Value::from("a"), Some(Value::from("e")), Step::from("1e30"), Options::new()));
    assert_eq!(letters, strs(&["a"]));
}
