//! Generate numeric and alphabetic ranges with steps and zero padding.
//!
//! This expands a pair of bounds into the values between them, the way shell
//! brace expansion does. `{1..5}` becomes `1 2 3 4 5`. `{a..e}` becomes
//! `a b c d e`. `{01..03}` keeps the padding and yields `01 02 03`. With the
//! `to_regex` option it returns one regex source string that matches every value
//! in the range instead of the list.
//!
//! - Direction is inferred from the bounds. `fill(5, 1)` descends.
//! - The step magnitude is used. A step of `-2` and `2` behave the same.
//! - Leading zeros on any bound or the step pad every output to a common width.
//! - Bounds may be numbers or single characters. Letter ranges walk character
//!   codes, so `'a'..'C'` passes through ASCII punctuation.
//! - Invalid input returns an empty list, or an error when `strict_ranges` is set.

use vstd::prelude::*;

pub mod text;
pub mod value;
pub mod regex_range;
pub mod options;
pub mod laws;
pub mod regex_lang;

pub use options::{Options, OptionsModel, Step, StepModel, Transform};
pub use value::{FillResult, Item, ItemModel, ResultModel, Value, ValueModel};

use regex_range::{regex_range_spec, to_regex_range_chars, RegexOptions};
use text::{
    chars_of, escape_char, escape_text, has_leading_zero, int_chars, int_text, is_digit, join,
    join_chars, leading_zero, push_all, push_escaped, push_escaped_text, string_of,
    to_max_len, to_max_len_chars, unsigned_part,
};
use value::{item_text, value_int, value_is_number, value_text, value_valid};

verus! {

/// An error returned when `strict_ranges` is set and the input is invalid.
#[derive(Clone, Debug, PartialEq, Eq)]
pub enum FillError {
    /// The bounds do not form a valid range.
    Range(String),
    /// The step is not a number.
    Step(String),
}

/// The mathematical content of a [`FillError`].
pub enum ErrorModel {
    Range(Seq<char>),
    Step(Seq<char>),
}

impl View for FillError {
    type V = ErrorModel;

    open spec fn view(&self) -> ErrorModel {
        match self {
            FillError::Range(m) => ErrorModel::Range(m@),
            FillError::Step(m) => ErrorModel::Step(m@),
        }
    }
}

impl FillError {
    /// The error message.
    pub fn message(&self) -> (s: String)
        ensures
            s@ == match self@ {
                ErrorModel::Range(m) => m,
                ErrorModel::Step(m) => m,
            },
    {
        match self {
            FillError::Range(m) => m.clone(),
            FillError::Step(m) => m.clone(),
        }
    }
}

/// The mathematical content of a call's outcome.
pub open spec fn outcome(r: Result<FillResult, FillError>) -> Result<ResultModel, ErrorModel> {
    match r {
        Ok(v) => Ok(v@),
        Err(e) => Err(e@),
    }
}

/// The mathematical content of an optional bound.
pub open spec fn bound_model(v: Option<Value>) -> Option<ValueModel> {
    match v {
        Some(x) => Some(x@),
        None => None,
    }
}

// ---------------------------------------------------------------------------
// Specification.
// ---------------------------------------------------------------------------

/// A bound as it appears in an error message: strings single quoted, numbers
/// bare.
pub open spec fn inspect_spec(v: ValueModel) -> Seq<char> {
    match v {
        ValueModel::Num(n) => int_text(n as int),
        ValueModel::Str(s) => seq!['\''] + s + seq!['\''],
    }
}

/// The message for an invalid pair of bounds.
pub open spec fn range_message(start: ValueModel, end: ValueModel) -> Seq<char> {
    "Invalid range arguments: [ "@ + inspect_spec(start) + ", "@ + inspect_spec(end) + " ]"@
}

/// The message for an invalid step.
pub open spec fn step_message(step: Seq<char>) -> Seq<char> {
    "Expected step \""@ + step + "\" to be a number"@
}

/// The outcome of invalid bounds: an error in strict mode, else an empty list.
pub open spec fn invalid_range_spec(start: ValueModel, end: ValueModel, strict: bool) -> Result<
    ResultModel,
    ErrorModel,
> {
    if strict {
        Err(ErrorModel::Range(range_message(start, end)))
    } else {
        Ok(ResultModel::List(Seq::empty()))
    }
}

/// The outcome of an invalid step: an error in strict mode, else an empty list.
pub open spec fn invalid_step_spec(step: Seq<char>, strict: bool) -> Result<
    ResultModel,
    ErrorModel,
> {
    if strict {
        Err(ErrorModel::Step(step_message(step)))
    } else {
        Ok(ResultModel::List(Seq::empty()))
    }
}

/// Output stays textual when a bound is a string or `stringify` is set.
pub open spec fn stringify_spec(start: ValueModel, end: ValueModel, o: OptionsModel) -> bool {
    start is Str || end is Str || o.stringify
}

/// Pad an element to `max_len` characters, or turn it into a string when the
/// output is textual.
pub open spec fn pad_spec(input: ItemModel, max_len: int, to_number: bool) -> ItemModel {
    if max_len > 0 {
        ItemModel::Str(to_max_len(item_text(input), max_len))
    } else if !to_number {
        ItemModel::Str(item_text(input))
    } else {
        input
    }
}

/// The default element for the number `v`.
pub open spec fn number_format_spec(v: int, to_number: bool) -> ItemModel {
    if to_number {
        ItemModel::Num(v as i64)
    } else {
        ItemModel::Str(int_text(v))
    }
}

/// A measure that shrinks with every step of a walk.
pub open spec fn walk_measure(cur: int, end: int, desc: bool) -> int {
    if desc {
        if cur >= end {
            cur - end + 1
        } else {
            0
        }
    } else {
        if cur <= end {
            end - cur + 1
        } else {
            0
        }
    }
}

/// The values from `cur` towards `end` by `step`, never passing `end`.
pub open spec fn walk(cur: int, end: int, step: int, desc: bool) -> Seq<int>
    decreases walk_measure(cur, end, desc),
{
    if step >= 1 && (if desc {
        cur >= end
    } else {
        cur <= end
    }) {
        seq![cur] + walk(if desc { cur - step } else { cur + step }, end, step, desc)
    } else {
        Seq::empty()
    }
}

/// The elements of `s` that are at least zero, in order.
pub open spec fn nonnegatives(s: Seq<int>) -> Seq<int>
    decreases s.len(),
{
    if s.len() == 0 {
        Seq::empty()
    } else {
        let r = nonnegatives(s.drop_last());
        if s.last() >= 0 {
            r.push(s.last())
        } else {
            r
        }
    }
}

/// The magnitudes of the negative elements of `s`, in order.
pub open spec fn negative_magnitudes(s: Seq<int>) -> Seq<int>
    decreases s.len(),
{
    if s.len() == 0 {
        Seq::empty()
    } else {
        let r = negative_magnitudes(s.drop_last());
        if s.last() < 0 {
            r.push(-s.last())
        } else {
            r
        }
    }
}

/// Numbers as padded texts joined by `|`.
pub open spec fn join_padded(values: Seq<int>, max_len: int) -> Seq<char> {
    join(values.map_values(|v: int| to_max_len(int_text(v), max_len)), seq!['|'])
}

/// `?:` unless the group captures.
pub open spec fn group_prefix(capture: bool) -> Seq<char> {
    if capture {
        Seq::empty()
    } else {
        seq!['?', ':']
    }
}

/// `s` with `x` inserted before its first element that is at least `x`.
pub open spec fn insert_sorted_spec(s: Seq<int>, x: int) -> Seq<int>
    decreases s.len(),
{
    if s.len() == 0 {
        seq![x]
    } else if x <= s[0] {
        seq![x] + s
    } else {
        seq![s[0]] + insert_sorted_spec(s.drop_first(), x)
    }
}

/// The elements of `s` in non-decreasing order.
pub open spec fn sort_spec(s: Seq<int>) -> Seq<int>
    decreases s.len(),
{
    if s.len() == 0 {
        Seq::empty()
    } else {
        insert_sorted_spec(sort_spec(s.drop_last()), s.last())
    }
}

/// The alternation for a stepped numeric regex: the non-negative values in
/// increasing order, then the negative ones by increasing magnitude behind a
/// shared `-`.
pub open spec fn sequence_spec(
    positives: Seq<int>,
    negatives: Seq<int>,
    capture: bool,
    wrap: bool,
    max_len: int,
) -> Seq<char> {
    let prefix = group_prefix(capture);
    let pos = if positives.len() == 0 {
        Seq::empty()
    } else {
        join_padded(positives, max_len)
    };
    let neg = if negatives.len() == 0 {
        Seq::empty()
    } else {
        seq!['-', '('] + prefix + join_padded(negatives, max_len) + seq![')']
    };
    let result = if positives.len() > 0 && negatives.len() > 0 {
        pos + seq!['|'] + neg
    } else if positives.len() == 0 {
        neg
    } else {
        pos
    };
    if wrap {
        seq!['('] + prefix + result + seq![')']
    } else {
        result
    }
}

/// Literal members joined by `|`, each escaped, optionally grouped.
pub open spec fn regex_array_spec(members: Seq<Seq<char>>, wrap: bool, capture: bool) -> Seq<
    char,
> {
    let joined = join(members.map_values(|m: Seq<char>| escape_text(m)), seq!['|']);
    if wrap {
        seq!['('] + group_prefix(capture) + joined + seq![')']
    } else {
        joined
    }
}

/// A valid character code.
pub open spec fn valid_code(c: int) -> bool {
    0 <= c <= 0x10FFFF && !(0xD800 <= c <= 0xDFFF)
}

/// The text of the character with code `c`, empty when there is none.
pub open spec fn code_text(c: int) -> Seq<char> {
    if valid_code(c) {
        seq![(c as u32) as char]
    } else {
        Seq::empty()
    }
}

/// Regex source for the letters from code `a` up to code `b`: the single
/// character when they are equal, else a class.
pub open spec fn letter_range_spec(a: u32, b: u32) -> Seq<char> {
    if a == b {
        escape_char(a as char)
    } else {
        seq!['['] + escape_char(a as char) + seq!['-'] + escape_char(b as char) + seq![']']
    }
}

/// A numeric text written as an optional `-` and digits only.
pub open spec fn plain_integer(s: Seq<char>) -> bool {
    let u = unsigned_part(s);
    u.len() > 0 && forall|i: int| 0 <= i < u.len() ==> is_digit(#[trigger] u[i])
}

/// The text that stands for a bound in regex output: the bound's own text when
/// it is plain digits (so padding survives), else the decimal of its value.
pub open spec fn regex_text(text: Seq<char>, v: int) -> Seq<char> {
    if plain_integer(text) {
        text
    } else {
        int_text(v)
    }
}

/// The larger of two integers.
pub open spec fn max2(a: int, b: int) -> int {
    if a >= b {
        a
    } else {
        b
    }
}

/// The step size actually walked: the magnitude of the step, at least one.
pub open spec fn step_size(step: int) -> int {
    let m = if step < 0 { -step } else { step };
    if m >= 1 {
        m
    } else {
        1
    }
}

/// The elements of a numeric range: the default formatter's elements, or the
/// transform's outputs `outs`, each padded.
pub open spec fn number_items(
    values: Seq<int>,
    max_len: int,
    to_number: bool,
    has_transform: bool,
    outs: Seq<ItemModel>,
) -> Seq<ItemModel> {
    Seq::new(
        values.len(),
        |k: int|
            pad_spec(
                if has_transform {
                    outs[k]
                } else {
                    number_format_spec(values[k], to_number)
                },
                max_len,
                to_number,
            ),
    )
}

/// The outcome of a numeric range between the integers `a` and `b` of the
/// bounds `start` and `end`, walked by `step` whose text is `step_text`. When
/// a transform is set, `outs` are its outputs, one per element.
pub open spec fn numbers_spec(
    start: ValueModel,
    end: ValueModel,
    a: int,
    b: int,
    step: int,
    step_text: Seq<char>,
    o: OptionsModel,
    outs: Seq<ItemModel>,
) -> Result<ResultModel, ErrorModel> {
    let st = value_text(start);
    let et = value_text(end);
    let desc = a > b;
    let size = step_size(step);
    let padded = has_leading_zero(st) || has_leading_zero(et) || has_leading_zero(step_text);
    let max_len = if padded {
        max2(max2(st.len() as int, et.len() as int), step_text.len() as int)
    } else {
        0
    };
    let to_number = !padded && !stringify_spec(start, end, o);
    if o.to_regex && size == 1 {
        let lo = to_max_len(regex_text(st, a), max_len);
        let hi = to_max_len(regex_text(et, b), max_len);
        match regex_range_spec(lo, hi, !o.strict_zeros, o.shorthand, o.capture, o.wrap) {
            Some(r) => Ok(ResultModel::Regex(r)),
            None => invalid_range_spec(start, end, o.strict_ranges),
        }
    } else {
        let values = walk(a, b, size, desc);
        if o.to_regex {
            let positives = nonnegatives(values);
            let negatives = negative_magnitudes(values);
            Ok(
                ResultModel::Regex(
                    sequence_spec(
                        sort_spec(positives),
                        sort_spec(negatives),
                        o.capture,
                        o.wrap,
                        max_len,
                    ),
                ),
            )
        } else {
            Ok(ResultModel::List(number_items(values, max_len, to_number, o.has_transform, outs)))
        }
    }
}

/// The code of the first character of a text, zero for an empty text.
pub open spec fn first_code(s: Seq<char>) -> u32 {
    if s.len() > 0 {
        s[0] as u32
    } else {
        0
    }
}

/// The elements of a letter range: the characters, or the transform's outputs.
pub open spec fn letter_items(codes: Seq<int>, has_transform: bool, outs: Seq<ItemModel>) -> Seq<
    ItemModel,
> {
    Seq::new(
        codes.len(),
        |k: int|
            if has_transform {
                outs[k]
            } else {
                ItemModel::Str(code_text(codes[k]))
            },
    )
}

/// The outcome of a letter range walked by `size` (at least one).
pub open spec fn letters_spec(
    start: ValueModel,
    end: ValueModel,
    size: int,
    o: OptionsModel,
    outs: Seq<ItemModel>,
) -> Result<ResultModel, ErrorModel> {
    let st = value_text(start);
    let et = value_text(end);
    let start_bad = !value_is_number(start) && st.len() > 1;
    let end_bad = !value_is_number(end) && et.len() > 1;
    if start_bad || end_bad {
        invalid_range_spec(start, end, o.strict_ranges)
    } else {
        let a = first_code(st);
        let b = first_code(et);
        let desc = a > b;
        if o.to_regex && size == 1 {
            Ok(
                ResultModel::Regex(
                    letter_range_spec(
                        if a <= b {
                            a
                        } else {
                            b
                        },
                        if a <= b {
                            b
                        } else {
                            a
                        },
                    ),
                ),
            )
        } else {
            let items = letter_items(walk(a as int, b as int, size, desc), o.has_transform, outs);
            if o.to_regex {
                Ok(
                    ResultModel::Regex(
                        regex_array_spec(
                            items.map_values(|i: ItemModel| item_text(i)),
                            false,
                            false,
                        ),
                    ),
                )
            } else {
                Ok(ResultModel::List(items))
            }
        }
    }
}

/// `capture` implies `wrap`.
pub open spec fn adjust(o: OptionsModel) -> OptionsModel {
    if o.capture {
        OptionsModel { wrap: true, ..o }
    } else {
        o
    }
}

/// Numbers when both bounds are integers, else letters.
pub open spec fn finish_spec(
    start: ValueModel,
    end: ValueModel,
    step: int,
    step_text: Seq<char>,
    o: OptionsModel,
    outs: Seq<ItemModel>,
) -> Result<ResultModel, ErrorModel> {
    if value_is_number(start) && value_is_number(end) {
        numbers_spec(
            start,
            end,
            value_int(start)->Some_0 as int,
            value_int(end)->Some_0 as int,
            step,
            step_text,
            o,
            outs,
        )
    } else {
        letters_spec(start, end, step_size(step), o, outs)
    }
}

/// Without a positional step: the options' non-zero step, else one.
pub open spec fn with_options_spec(
    start: ValueModel,
    end: ValueModel,
    o: OptionsModel,
    outs: Seq<ItemModel>,
) -> Result<ResultModel, ErrorModel> {
    let step: int = match o.step {
        Some(n) => if n != 0 {
            n as int
        } else {
            1
        },
        None => 1,
    };
    finish_spec(start, end, step, int_text(step), adjust(o), outs)
}

/// The step a step text whose value is `v` walks by: `v` itself within
/// `i64`, else the widest `i64` step of the same sign (any such step reaches
/// past every other `i64` after the first element).
pub open spec fn text_step(v: int) -> int {
    if v > i64::MAX {
        i64::MAX as int
    } else if v < i64::MIN {
        -(i64::MAX as int)
    } else {
        v
    }
}

/// With a positional number or string step. A zero number or an empty string
/// falls back to the options' step; a string step must be an integer, and
/// one beyond `i64` walks as the widest `i64` step (see `text_step`).
pub open spec fn numeric_step_spec(
    start: ValueModel,
    end: ValueModel,
    step: StepModel,
    o: OptionsModel,
    outs: Seq<ItemModel>,
) -> Result<ResultModel, ErrorModel> {
    let fallback = match o.step {
        Some(n) => if n != 0 {
            n as int
        } else {
            1
        },
        None => 1,
    };
    match step {
        StepModel::Str(s) => if s.len() > 0 {
            match value::coerce_int(s) {
                Some(v) => finish_spec(start, end, text_step(v), s, adjust(o), outs),
                None => invalid_step_spec(s, o.strict_ranges),
            }
        } else {
            finish_spec(start, end, fallback, int_text(fallback), adjust(o), outs)
        },
        StepModel::Num(n) => if n != 0 {
            finish_spec(start, end, n as int, int_text(n as int), adjust(o), outs)
        } else {
            finish_spec(start, end, fallback, int_text(fallback), adjust(o), outs)
        },
        _ => finish_spec(start, end, fallback, int_text(fallback), adjust(o), outs),
    }
}

/// The element a lone bound stands for.
pub open spec fn value_item(v: ValueModel) -> ItemModel {
    match v {
        ValueModel::Num(n) => ItemModel::Num(n),
        ValueModel::Str(s) => ItemModel::Str(s),
    }
}

/// The outcome of a fill call. When a transform is in effect, `outs` are its
/// outputs, one per element, in order.
pub open spec fn checked_spec(
    start: ValueModel,
    end: Option<ValueModel>,
    step: StepModel,
    options: OptionsModel,
    outs: Seq<ItemModel>,
) -> Result<ResultModel, ErrorModel> {
    match end {
        None => if value_valid(start) {
            Ok(ResultModel::List(seq![value_item(start)]))
        } else {
            invalid_range_spec(start, ValueModel::Str(Seq::empty()), options.strict_ranges)
        },
        Some(e) => if !value_valid(start) || !value_valid(e) {
            invalid_range_spec(start, e, options.strict_ranges)
        } else {
            match step {
                StepModel::Func => finish_spec(
                    start,
                    e,
                    1,
                    seq!['1'],
                    OptionsModel { has_transform: true, ..options::default_options() },
                    outs,
                ),
                StepModel::Opts(o) => with_options_spec(start, e, o, outs),
                StepModel::Absent => with_options_spec(start, e, options, outs),
                _ => numeric_step_spec(start, e, step, options, outs),
            }
        },
    }
}

// ---------------------------------------------------------------------------
// What a transform is handed.
// ---------------------------------------------------------------------------

/// The transform of `opts` gives `r` for the number `v` at position `k`
/// (nothing is claimed without a transform).
pub open spec fn opts_gives(opts: Options, v: int, k: int, r: ItemModel) -> bool {
    match opts.transform {
        Some(f) => f.gives(ItemModel::Num(v as i64), k, r),
        None => true,
    }
}

/// `outs` are the results of the transform of `opts` called on each of
/// `args` in turn, the `k`-th call with index `k`.
pub open spec fn gives_all(opts: Options, args: Seq<int>, outs: Seq<ItemModel>) -> bool {
    &&& outs.len() == args.len()
    &&& forall|k: int| 0 <= k < args.len() ==> opts_gives(opts, args[k], k, #[trigger] outs[k])
}

/// The transform in effect for a call gives `r` for the number `v` at
/// position `k`: a transform in step position, else that of the options in
/// step position, else that of the options argument.
pub open spec fn step_gives(step: Step, options: Options, v: int, k: int, r: ItemModel) -> bool {
    match step {
        Step::Func(f) => f.gives(ItemModel::Num(v as i64), k, r),
        Step::Opts(o) => opts_gives(o, v, k, r),
        _ => opts_gives(options, v, k, r),
    }
}

/// The transform of `opts` may be called with the number `v` at position `k`
/// (any call is fine without a transform).
pub open spec fn opts_accepts(opts: Options, v: int, k: int) -> bool {
    match opts.transform {
        Some(f) => f.accepts(ItemModel::Num(v as i64), k),
        None => true,
    }
}

/// The transform of `opts` may be called with each of `args` in turn, the
/// `k`-th with index `k`.
pub open spec fn accepts_all(opts: Options, args: Seq<int>) -> bool {
    forall|k: int| 0 <= k < args.len() ==> opts_accepts(opts, #[trigger] args[k], k)
}

/// The transform in effect for a call may be called with the number `v` at
/// position `k`.
pub open spec fn step_accepts(step: Step, options: Options, v: int, k: int) -> bool {
    match step {
        Step::Func(f) => f.accepts(ItemModel::Num(v as i64), k),
        Step::Opts(o) => opts_accepts(o, v, k),
        _ => opts_accepts(options, v, k),
    }
}

/// The transform in effect may be called with each of `args` in turn, the
/// `k`-th with index `k`.
pub open spec fn all_accepted(step: Step, options: Options, args: Seq<int>) -> bool {
    forall|k: int| 0 <= k < args.len() ==> step_accepts(step, options, #[trigger] args[k], k)
}

/// `outs` are the results of the transform in effect called on each of
/// `args` in turn, the `k`-th call with index `k`.
pub open spec fn all_given(step: Step, options: Options, args: Seq<int>, outs: Seq<ItemModel>) -> bool {
    &&& outs.len() == args.len()
    &&& forall|k: int|
        0 <= k < args.len() ==> step_gives(step, options, args[k], k, #[trigger] outs[k])
}

/// The numbers a transform is handed in a numeric range: the values of the
/// walk, when a transform is set and no regex is asked for.
pub open spec fn numbers_inputs(a: int, b: int, step: int, o: OptionsModel) -> Seq<int> {
    if o.has_transform && !o.to_regex {
        walk(a, b, step_size(step), a > b)
    } else {
        Seq::empty()
    }
}

/// The character codes a transform is handed in a letter range.
pub open spec fn letters_inputs(
    start: ValueModel,
    end: ValueModel,
    size: int,
    o: OptionsModel,
) -> Seq<int> {
    let st = value_text(start);
    let et = value_text(end);
    let start_bad = !value_is_number(start) && st.len() > 1;
    let end_bad = !value_is_number(end) && et.len() > 1;
    let a = first_code(st);
    let b = first_code(et);
    if start_bad || end_bad || !o.has_transform || (o.to_regex && size == 1) {
        Seq::empty()
    } else {
        walk(a as int, b as int, size, a > b)
    }
}

/// What a transform is handed once the step is known.
pub open spec fn finish_inputs(
    start: ValueModel,
    end: ValueModel,
    step: int,
    o: OptionsModel,
) -> Seq<int> {
    if value_is_number(start) && value_is_number(end) {
        numbers_inputs(
            value_int(start)->Some_0 as int,
            value_int(end)->Some_0 as int,
            step,
            o,
        )
    } else {
        letters_inputs(start, end, step_size(step), o)
    }
}

/// What a transform is handed without a positional step.
pub open spec fn with_options_inputs(start: ValueModel, end: ValueModel, o: OptionsModel) -> Seq<
    int,
> {
    let step: int = match o.step {
        Some(n) => if n != 0 {
            n as int
        } else {
            1
        },
        None => 1,
    };
    finish_inputs(start, end, step, adjust(o))
}

/// What a transform is handed with a positional number or string step.
pub open spec fn numeric_step_inputs(
    start: ValueModel,
    end: ValueModel,
    step: StepModel,
    o: OptionsModel,
) -> Seq<int> {
    let fallback = match o.step {
        Some(n) => if n != 0 {
            n as int
        } else {
            1
        },
        None => 1,
    };
    match step {
        StepModel::Str(s) => if s.len() > 0 {
            match value::coerce_int(s) {
                Some(v) => finish_inputs(start, end, text_step(v), adjust(o)),
                None => Seq::empty(),
            }
        } else {
            finish_inputs(start, end, fallback, adjust(o))
        },
        StepModel::Num(n) => if n != 0 {
            finish_inputs(start, end, n as int, adjust(o))
        } else {
            finish_inputs(start, end, fallback, adjust(o))
        },
        _ => finish_inputs(start, end, fallback, adjust(o)),
    }
}

/// The numbers a transform is handed by a fill call, in call order; empty
/// when no transform is called.
pub open spec fn checked_inputs(
    start: ValueModel,
    end: Option<ValueModel>,
    step: StepModel,
    options: OptionsModel,
) -> Seq<int> {
    match end {
        None => Seq::empty(),
        Some(e) => if !value_valid(start) || !value_valid(e) {
            Seq::empty()
        } else {
            match step {
                StepModel::Func => finish_inputs(
                    start,
                    e,
                    1,
                    OptionsModel { has_transform: true, ..options::default_options() },
                ),
                StepModel::Opts(o) => with_options_inputs(start, e, o),
                StepModel::Absent => with_options_inputs(start, e, options),
                _ => numeric_step_inputs(start, e, step, options),
            }
        },
    }
}

/// True when the elements come from a transform.
pub open spec fn uses_transform(step: StepModel, options: OptionsModel) -> bool {
    match step {
        StepModel::Func => true,
        StepModel::Opts(o) => o.has_transform,
        _ => options.has_transform,
    }
}

/// `res` is an outcome of a call on these arguments: the outcome for
/// results that the transform in effect gives on the numbers it is handed.
#[verifier::opaque]
pub open spec fn checked_outcome(
    start: ValueModel,
    end: Option<ValueModel>,
    step: Step,
    options: Options,
    res: Result<ResultModel, ErrorModel>,
) -> bool {
    exists|outs: Seq<ItemModel>|
        all_given(step, options, checked_inputs(start, end, step@, options@), outs) && res
            == checked_spec(start, end, step@, options@, outs)
}

/// The transform in effect gives at most one result for each number and
/// position.
pub open spec fn gives_one_result(step: Step, options: Options) -> bool {
    forall|v: int, k: int, r1: ItemModel, r2: ItemModel|
        #![trigger step_gives(step, options, v, k, r1), step_gives(step, options, v, k, r2)]
        step_gives(step, options, v, k, r1) && step_gives(step, options, v, k, r2) ==> r1 == r2
}

/// The outcome of the non-failing entry: an error becomes an empty list.
pub open spec fn fill_spec(r: Result<ResultModel, ErrorModel>) -> ResultModel {
    match r {
        Ok(v) => v,
        Err(_) => ResultModel::List(Seq::empty()),
    }
}

// ---------------------------------------------------------------------------
// Executable code.
// ---------------------------------------------------------------------------

/// The character with code `c`, when there is one.
#[verifier::external_body]
fn char_from_code(c: u32) -> (r: Option<char>)
    ensures
        r == (if valid_code(c as int) {
            Some(c as char)
        } else {
            None::<char>
        }),
{
    char::from_u32(c)
}

/// Render a bound for error messages: strings single quoted, numbers bare.
fn inspect(value: &Value) -> (s: Vec<char>)
    ensures
        s@ == inspect_spec(value@),
{
    match value {
        Value::Num(n) => int_chars(*n as i128),
        Value::Str(s) => {
            let mut v: Vec<char> = Vec::new();
            v.push('\'');
            push_all(&mut v, &chars_of(s.as_str()));
            v.push('\'');
            assert(v@ =~= inspect_spec(value@));
            v
        },
    }
}

/// Build the range-error for a pair of bounds.
fn range_error(start: &Value, end: &Value) -> (e: FillError)
    ensures
        e@ == ErrorModel::Range(range_message(start@, end@)),
{
    let mut m = chars_of("Invalid range arguments: [ ");
    push_all(&mut m, &inspect(start));
    push_all(&mut m, &chars_of(", "));
    push_all(&mut m, &inspect(end));
    push_all(&mut m, &chars_of(" ]"));
    FillError::Range(string_of(&m))
}

/// Outcome of an invalid range: error under strict mode, else an empty list.
fn invalid_range(start: &Value, end: &Value, strict: bool) -> (r: Result<FillResult, FillError>)
    ensures
        outcome(r) == invalid_range_spec(start@, end@, strict),
{
    if strict {
        Err(range_error(start, end))
    } else {
        let v: Vec<Item> = Vec::new();
        assert(v.deep_view() =~= Seq::<ItemModel>::empty());
        Ok(FillResult::List(v))
    }
}

/// Outcome of an invalid step: error under strict mode, else an empty list.
fn invalid_step(step: &Vec<char>, strict: bool) -> (r: Result<FillResult, FillError>)
    ensures
        outcome(r) == invalid_step_spec(step@, strict),
{
    if strict {
        let mut m = chars_of("Expected step \"");
        push_all(&mut m, step);
        push_all(&mut m, &chars_of("\" to be a number"));
        Err(FillError::Step(string_of(&m)))
    } else {
        let v: Vec<Item> = Vec::new();
        assert(v.deep_view() =~= Seq::<ItemModel>::empty());
        Ok(FillResult::List(v))
    }
}

/// Left-pad an element to `max_len` characters, keeping a leading sign, or
/// turn it into a string when the output is textual.
fn pad(input: Item, max_len: usize, to_number: bool) -> (r: Item)
    ensures
        r@ == pad_spec(input@, max_len as int, to_number),
{
    if max_len > 0 {
        let text = input.text();
        return Item::Str(string_of(&to_max_len_chars(&text, max_len)));
    }
    if !to_number {
        let text = input.text();
        return Item::Str(string_of(&text));
    }
    input
}

/// True when either bound is a string, or `stringify` is set.
fn stringify_flag(start: &Value, end: &Value, opts: &Options) -> (r: bool)
    ensures
        r == stringify_spec(start@, end@, opts@),
{
    let s = match start {
        Value::Str(_) => true,
        Value::Num(_) => false,
    };
    let e = match end {
        Value::Str(_) => true,
        Value::Num(_) => false,
    };
    s || e || opts.stringify
}

/// Numbers as padded texts joined by `|`.
fn join_padded_exec(values: &Vec<i128>, max_len: usize) -> (v: Vec<char>)
    requires
        forall|i: int| 0 <= i < values@.len() ==> #[trigger] values@[i] > i128::MIN,
    ensures
        v@ == join_padded(regex_range::ints(values@), max_len as int),
{
    let mut parts: Vec<Vec<char>> = Vec::new();
    let mut i: usize = 0;
    let ghost vs = regex_range::ints(values@);
    while i < values.len()
        invariant
            i <= values@.len(),
            vs == regex_range::ints(values@),
            forall|q: int| 0 <= q < values@.len() ==> #[trigger] values@[q] > i128::MIN,
            parts@.map_values(|p: Vec<char>| p@) == vs.take(i as int).map_values(
                |v: int| to_max_len(int_text(v), max_len as int),
            ),
        decreases values@.len() - i,
    {
        let t = to_max_len_chars(&int_chars(values[i]), max_len);
        let ghost before = parts@;
        parts.push(t);
        proof {
            assert(vs[i as int] == values@[i as int]);
            assert(vs.take(i + 1) =~= vs.take(i as int).push(vs[i as int]));
            assert(parts@.map_values(|p: Vec<char>| p@) =~= before.map_values(|p: Vec<char>| p@).push(t@));
        }
        i += 1;
        assert(parts@.map_values(|p: Vec<char>| p@) =~= vs.take(i as int).map_values(
            |v: int| to_max_len(int_text(v), max_len as int),
        ));
    }
    assert(vs.take(values@.len() as int) =~= vs);
    let bar = vec!['|'];
    assert(bar@ =~= seq!['|']);
    join_chars(&parts, &bar)
}

/// Build the alternation for a stepped numeric regex range.
fn to_sequence(
    positives: &Vec<i128>,
    negatives: &Vec<i128>,
    capture: bool,
    wrap: bool,
    max_len: usize,
) -> (v: Vec<char>)
    requires
        forall|i: int| 0 <= i < positives@.len() ==> #[trigger] positives@[i] > i128::MIN,
        forall|i: int| 0 <= i < negatives@.len() ==> #[trigger] negatives@[i] > i128::MIN,
    ensures
        v@ == sequence_spec(
            sort_spec(regex_range::ints(positives@)),
            sort_spec(regex_range::ints(negatives@)),
            capture,
            wrap,
            max_len as int,
        ),
{
    let ghost pos_in = regex_range::ints(positives@);
    let ghost neg_in = regex_range::ints(negatives@);
    let positives = sorted_copy(positives);
    let negatives = sorted_copy(negatives);
    let positives = &positives;
    let negatives = &negatives;
    let prefix: Vec<char> = if capture {
        Vec::new()
    } else {
        vec!['?', ':']
    };
    assert(prefix@ =~= group_prefix(capture));
    let pos: Vec<char> = if positives.len() == 0 {
        Vec::new()
    } else {
        join_padded_exec(positives, max_len)
    };
    let neg: Vec<char> = if negatives.len() == 0 {
        Vec::new()
    } else {
        let mut n = vec!['-', '('];
        push_all(&mut n, &prefix);
        push_all(&mut n, &join_padded_exec(negatives, max_len));
        n.push(')');
        n
    };
    let result: Vec<char> = if positives.len() > 0 && negatives.len() > 0 {
        let mut r = pos;
        r.push('|');
        push_all(&mut r, &neg);
        r
    } else if positives.len() == 0 {
        neg
    } else {
        pos
    };
    let out = if wrap {
        let mut w = vec!['('];
        push_all(&mut w, &prefix);
        push_all(&mut w, &result);
        w.push(')');
        w
    } else {
        result
    };
    assert(out@ =~= sequence_spec(
        sort_spec(pos_in),
        sort_spec(neg_in),
        capture,
        wrap,
        max_len as int,
    ));
    out
}

/// Inserting `x` at the first position whose element is at least `x`.
proof fn lemma_insert_sorted_at(s: Seq<int>, x: int, p: int)
    requires
        0 <= p <= s.len(),
        forall|q: int| 0 <= q < p ==> s[q] < x,
        p < s.len() ==> x <= s[p],
    ensures
        insert_sorted_spec(s, x) == s.insert(p, x),
    decreases p,
{
    if p == 0 {
        assert(insert_sorted_spec(s, x) =~= s.insert(0, x));
    } else {
        let t = s.drop_first();
        assert forall|q: int| 0 <= q < p - 1 implies t[q] < x by {
            assert(t[q] == s[q + 1]);
        }
        if p - 1 < t.len() {
            assert(t[p - 1] == s[p]);
        }
        lemma_insert_sorted_at(t, x, p - 1);
        assert(insert_sorted_spec(s, x) =~= s.insert(p, x));
    }
}

/// A sorted copy of the values.
fn sorted_copy(v: &Vec<i128>) -> (r: Vec<i128>)
    requires
        forall|i: int| 0 <= i < v@.len() ==> #[trigger] v@[i] > i128::MIN,
    ensures
        regex_range::ints(r@) == sort_spec(regex_range::ints(v@)),
        forall|i: int| 0 <= i < r@.len() ==> #[trigger] r@[i] > i128::MIN,
{
    let mut r: Vec<i128> = Vec::new();
    let mut i: usize = 0;
    assert(regex_range::ints(v@).take(0) =~= Seq::<int>::empty());
    while i < v.len()
        invariant
            i <= v@.len(),
            regex_range::ints(r@) == sort_spec(regex_range::ints(v@).take(i as int)),
            forall|k: int| 0 <= k < v@.len() ==> #[trigger] v@[k] > i128::MIN,
            forall|k: int| 0 <= k < r@.len() ==> #[trigger] r@[k] > i128::MIN,
        decreases v@.len() - i,
    {
        let x = v[i];
        let mut p: usize = 0;
        while p < r.len() && r[p] < x
            invariant
                p <= r@.len(),
                forall|q: int| 0 <= q < p ==> r@[q] < x,
            decreases r@.len() - p,
        {
            p += 1;
        }
        let ghost before = regex_range::ints(r@);
        let ghost rv = r@;
        proof {
            assert forall|q: int| 0 <= q < p implies before[q] < x by {}
            lemma_insert_sorted_at(before, x as int, p as int);
        }
        r.insert(p, x);
        assert(r@ == rv.insert(p as int, x));
        proof {
            let vi = regex_range::ints(v@);
            assert(vi.take(i + 1).drop_last() =~= vi.take(i as int));
            assert(vi.take(i + 1).last() == x);
            assert(regex_range::ints(r@) =~= before.insert(p as int, x as int));
        }
        assert forall|k: int| 0 <= k < r@.len() implies #[trigger] r@[k] > i128::MIN by {
            if k < p {
                assert(r@[k] == rv[k]);
            } else if k > p {
                assert(r@[k] == rv[k - 1]);
            }
        }
        i += 1;
    }
    assert(regex_range::ints(v@).take(v@.len() as int) =~= regex_range::ints(v@));
    r
}

/// Regex source for a letter range with step one.
fn letter_range(a: char, b: char) -> (v: Vec<char>)
    ensures
        v@ == letter_range_spec(a as u32, b as u32),
{
    proof {
        vstd::utf8::char_u32_cast(a, a as u32);
        vstd::utf8::char_u32_cast(b, b as u32);
    }
    let mut v: Vec<char> = Vec::new();
    if a == b {
        push_escaped(&mut v, a);
    } else {
        v.push('[');
        push_escaped(&mut v, a);
        v.push('-');
        push_escaped(&mut v, b);
        v.push(']');
    }
    assert(v@ =~= letter_range_spec(a as u32, b as u32));
    v
}

/// Regex source for a list of literal members, each escaped, joined with `|`.
fn to_regex_array(members: &Vec<Vec<char>>, wrap: bool, capture: bool) -> (v: Vec<char>)
    ensures
        v@ == regex_array_spec(members@.map_values(|m: Vec<char>| m@), wrap, capture),
{
    let mut escaped: Vec<Vec<char>> = Vec::new();
    let ghost ms = members@.map_values(|m: Vec<char>| m@);
    let mut i: usize = 0;
    while i < members.len()
        invariant
            i <= members@.len(),
            ms == members@.map_values(|m: Vec<char>| m@),
            escaped@.map_values(|p: Vec<char>| p@) == ms.take(i as int).map_values(
                |m: Seq<char>| escape_text(m),
            ),
        decreases members@.len() - i,
    {
        let mut e: Vec<char> = Vec::new();
        push_escaped_text(&mut e, &members[i]);
        let ghost before = escaped@;
        escaped.push(e);
        proof {
            assert(ms[i as int] == members@[i as int]@);
            assert(ms.take(i + 1) =~= ms.take(i as int).push(ms[i as int]));
            assert(escaped@.map_values(|p: Vec<char>| p@) =~= before.map_values(|p: Vec<char>| p@).push(e@));
        }
        i += 1;
        assert(escaped@.map_values(|p: Vec<char>| p@) =~= ms.take(i as int).map_values(
            |m: Seq<char>| escape_text(m),
        ));
    }
    assert(ms.take(members@.len() as int) =~= ms);
    let bar = vec!['|'];
    assert(bar@ =~= seq!['|']);
    let joined = join_chars(&escaped, &bar);
    if wrap {
        let mut w = vec!['('];
        if !capture {
            w.push('?');
            w.push(':');
        }
        push_all(&mut w, &joined);
        w.push(')');
        assert(w@ =~= regex_array_spec(ms, wrap, capture));
        w
    } else {
        joined
    }
}

/// Default formatter for a numeric element.
fn number_format(value: i64, to_number: bool) -> (i: Item)
    ensures
        i@ == number_format_spec(value as int, to_number),
{
    if to_number {
        Item::num(value)
    } else {
        Item::Str(string_of(&int_chars(value as i128)))
    }
}

/// The text that stands for a bound in regex output.
fn regex_text_chars(text: &Vec<char>, v: i64) -> (r: Vec<char>)
    ensures
        r@ == regex_text(text@, v as int),
{
    let from: usize = if text.len() > 0 && text[0] == '-' { 1 } else { 0 };
    let ghost u = unsigned_part(text@);
    assert(u =~= text@.skip(from as int));
    let mut plain = from < text.len();
    let mut i: usize = from;
    while i < text.len()
        invariant
            from <= i <= text@.len(),
            u == text@.skip(from as int),
            plain == (from < text@.len() && forall|q: int| from <= q < i ==> is_digit(
                #[trigger] text@[q],
            )),
        decreases text@.len() - i,
    {
        if !('0' <= text[i] && text[i] <= '9') {
            plain = false;
        }
        i += 1;
    }
    proof {
        if plain {
            assert forall|q: int| 0 <= q < u.len() implies is_digit(#[trigger] u[q]) by {
                assert(u[q] == text@[from + q]);
            }
        } else if from < text@.len() {
            let q = choose|q: int| from <= q < text@.len() && !is_digit(#[trigger] text@[q]);
            assert(u[q - from] == text@[q]);
        }
    }
    if plain {
        let mut r: Vec<char> = Vec::new();
        push_all(&mut r, text);
        assert(r@ =~= text@);
        r
    } else {
        int_chars(v as i128)
    }
}

/// The walk from `cur` takes one step and carries on from the next value.
proof fn lemma_walk_step(cur: int, end: int, step: int, desc: bool)
    requires
        step >= 1,
        if desc {
            cur >= end
        } else {
            cur <= end
        },
    ensures
        walk(cur, end, step, desc) == seq![cur] + walk(
            if desc {
                cur - step
            } else {
                cur + step
            },
            end,
            step,
            desc,
        ),
{
}

/// The elements of a walk from `a` lie between `a` and `end`.
proof fn lemma_walk_empty(cur: int, end: int, step: int, desc: bool)
    requires
        !(if desc {
            cur >= end
        } else {
            cur <= end
        }),
    ensures
        walk(cur, end, step, desc) == Seq::<int>::empty(),
{
}

/// Generate a numeric range between the integers `a` and `b`.
fn fill_numbers(
    start: &Value,
    end: &Value,
    a: i64,
    b: i64,
    step: i64,
    step_text: &Vec<char>,
    opts: &Options,
) -> (r: (Result<FillResult, FillError>, Ghost<Seq<ItemModel>>))
    requires
        accepts_all(*opts, numbers_inputs(a as int, b as int, step as int, opts@)),
    ensures
        outcome(r.0) == numbers_spec(
            start@,
            end@,
            a as int,
            b as int,
            step as int,
            step_text@,
            opts@,
            r.1@,
        ),
        !opts@.has_transform ==> r.1@ == Seq::<ItemModel>::empty(),
        gives_all(*opts, numbers_inputs(a as int, b as int, step as int, opts@), r.1@),
{
    let start_text = start.as_text();
    let end_text = end.as_text();
    let desc = a > b;
    let magnitude: i128 = if step < 0 { -(step as i128) } else { step as i128 };
    let size: i128 = if magnitude >= 1 { magnitude } else { 1 };
    let padded = leading_zero(&start_text) || leading_zero(&end_text) || leading_zero(step_text);
    let max_len: usize = if padded {
        let m = if start_text.len() >= end_text.len() { start_text.len() } else { end_text.len() };
        if m >= step_text.len() { m } else { step_text.len() }
    } else {
        0
    };
    let to_number = !padded && !stringify_flag(start, end, opts);
    let ghost o = opts@;
    if opts.to_regex && size == 1 {
        let lo = to_max_len_chars(&regex_text_chars(&start_text, a), max_len);
        let hi = to_max_len_chars(&regex_text_chars(&end_text, b), max_len);
        let ro = RegexOptions {
            relax_zeros: !opts.strict_zeros,
            shorthand: opts.shorthand,
            capture: opts.capture,
            wrap: opts.wrap,
        };
        return match to_regex_range_chars(&lo, &hi, &ro) {
            Some(v) => (Ok(FillResult::Regex(string_of(&v))), Ghost(Seq::empty())),
            None => (invalid_range(start, end, opts.strict_ranges), Ghost(Seq::empty())),
        };
    }
    let ghost all = walk(a as int, b as int, size as int, desc);
    let mut positives: Vec<i128> = Vec::new();
    let mut negatives: Vec<i128> = Vec::new();
    let mut items: Vec<Item> = Vec::new();
    let ghost mut outs: Seq<ItemModel> = Seq::empty();
    let ghost mut done: Seq<int> = Seq::empty();
    let mut current: i128 = a as i128;
    assert(done + walk(current as int, b as int, size as int, desc) =~= all);
    while (desc && current >= b as i128) || (!desc && current <= b as i128)
        invariant
            1 <= size <= 9223372036854775808,
            desc == (a > b),
            desc ==> b - size <= current <= a,
            !desc ==> a <= current <= b + size,
            done + walk(current as int, b as int, size as int, desc) == all,
            opts.to_regex ==> regex_range::ints(positives@) == nonnegatives(done),
            opts.to_regex ==> regex_range::ints(negatives@) == negative_magnitudes(done),
            forall|i: int| 0 <= i < positives@.len() ==> #[trigger] positives@[i] > i128::MIN,
            forall|i: int| 0 <= i < negatives@.len() ==> #[trigger] negatives@[i] > i128::MIN,
            !opts.to_regex ==> items.deep_view() == number_items(
                done,
                max_len as int,
                to_number,
                o.has_transform,
                outs,
            ),
            o == opts@,
            o.has_transform && !opts.to_regex ==> outs.len() == done.len(),
            !o.has_transform ==> outs == Seq::<ItemModel>::empty(),
            opts.to_regex ==> outs == Seq::<ItemModel>::empty(),
            !opts.to_regex ==> items@.len() == done.len(),
            forall|k: int|
                0 <= k < outs.len() ==> opts_gives(*opts, done[k], k, #[trigger] outs[k]),
            o.has_transform && !opts.to_regex ==> accepts_all(*opts, all),
        decreases walk_measure(current as int, b as int, desc),
    {
        proof {
            lemma_walk_step(current as int, b as int, size as int, desc);
            assert(done.push(current as int) + walk(
                (if desc {
                    current - size
                } else {
                    current + size
                }) as int,
                b as int,
                size as int,
                desc,
            ) =~= done + walk(current as int, b as int, size as int, desc));
        }
        let ghost next_done = done.push(current as int);
        if opts.to_regex {
            if current < 0 {
                negatives.push(-current);
            } else {
                positives.push(current);
            }
            proof {
                assert(next_done.drop_last() =~= done);
                assert(regex_range::ints(positives@) =~= nonnegatives(next_done));
                assert(regex_range::ints(negatives@) =~= negative_magnitudes(next_done));
            }
        } else {
            let value = current as i64;
            let index = items.len();
            let formatted = match &opts.transform {
                Some(f) => {
                    proof {
                        assert(all[done.len() as int] == next_done[done.len() as int]);
                        assert(opts_accepts(*opts, all[done.len() as int], done.len() as int));
                    }
                    let r = f.call(Item::num(value), index);
                    proof {
                        assert(index == done.len());
                        assert(opts_gives(*opts, next_done[done.len() as int], done.len() as int, r@));
                        let ghost prev = outs;
                        outs = outs.push(r@);
                        assert forall|k: int| 0 <= k < outs.len() implies opts_gives(
                            *opts,
                            next_done[k],
                            k,
                            #[trigger] outs[k],
                        ) by {
                            if k < prev.len() {
                                assert(outs[k] == prev[k]);
                                assert(next_done[k] == done[k]);
                            }
                        }
                    }
                    r
                },
                None => number_format(value, to_number),
            };
            let ghost before = items.deep_view();
            items.push(pad(formatted, max_len, to_number));
            proof {
                assert(items.deep_view() =~= before.push(items@.last().deep_view()));
                assert(items@.len() == next_done.len());
                assert(items.deep_view() =~= number_items(
                    next_done,
                    max_len as int,
                    to_number,
                    o.has_transform,
                    outs,
                ));
            }
        }
        proof {
            done = next_done;
        }
        current = if desc {
            current - size
        } else {
            current + size
        };
    }
    proof {
        lemma_walk_empty(current as int, b as int, size as int, desc);
        assert(done + Seq::<int>::empty() =~= done);
    }
    if opts.to_regex {
        let source = to_sequence(&positives, &negatives, opts.capture, opts.wrap, max_len);
        return (Ok(FillResult::Regex(string_of(&source))), Ghost(outs));
    }
    (Ok(FillResult::List(items)), Ghost(outs))
}

/// Generate a letter range over character codes, walked by `size`.
fn fill_letters(start: &Value, end: &Value, size: i128, opts: &Options) -> (r: (
    Result<FillResult, FillError>,
    Ghost<Seq<ItemModel>>,
))
    requires
        1 <= size <= 9223372036854775808,
        accepts_all(*opts, letters_inputs(start@, end@, size as int, opts@)),
    ensures
        outcome(r.0) == letters_spec(start@, end@, size as int, opts@, r.1@),
        !opts@.has_transform ==> r.1@ == Seq::<ItemModel>::empty(),
        gives_all(*opts, letters_inputs(start@, end@, size as int, opts@), r.1@),
{
    let start_text = start.as_text();
    let end_text = end.as_text();
    let start_bad = !start.is_number() && start_text.len() > 1;
    let end_bad = !end.is_number() && end_text.len() > 1;
    if start_bad || end_bad {
        return (invalid_range(start, end, opts.strict_ranges), Ghost(Seq::empty()));
    }
    let ca: char = if start_text.len() > 0 { start_text[0] } else { '\0' };
    let cb: char = if end_text.len() > 0 { end_text[0] } else { '\0' };
    proof {
        vstd::utf8::char_is_scalar(ca);
        vstd::utf8::char_is_scalar(cb);
    }
    let a0: i128 = ca as u32 as i128;
    let b0: i128 = cb as u32 as i128;
    assert(ca as u32 == first_code(start_text@));
    assert(cb as u32 == first_code(end_text@));
    let desc = a0 > b0;
    if opts.to_regex && size == 1 {
        let source = if a0 <= b0 {
            letter_range(ca, cb)
        } else {
            letter_range(cb, ca)
        };
        return (Ok(FillResult::Regex(string_of(&source))), Ghost(Seq::empty()));
    }
    let ghost o = opts@;
    let ghost all = walk(a0 as int, b0 as int, size as int, desc);
    let mut items: Vec<Item> = Vec::new();
    let ghost mut outs: Seq<ItemModel> = Seq::empty();
    let ghost mut done: Seq<int> = Seq::empty();
    let mut current: i128 = a0;
    assert(done + walk(current as int, b0 as int, size as int, desc) =~= all);
    while (desc && current >= b0) || (!desc && current <= b0)
        invariant
            1 <= size <= 9223372036854775808,
            0 <= a0 <= 0x10FFFF,
            0 <= b0 <= 0x10FFFF,
            desc == (a0 > b0),
            desc ==> b0 - size <= current <= a0,
            !desc ==> a0 <= current <= b0 + size,
            done + walk(current as int, b0 as int, size as int, desc) == all,
            items.deep_view() == letter_items(done, o.has_transform, outs),
            o == opts@,
            o.has_transform ==> outs.len() == done.len(),
            !o.has_transform ==> outs == Seq::<ItemModel>::empty(),
            items@.len() == done.len(),
            forall|k: int|
                0 <= k < outs.len() ==> opts_gives(*opts, done[k], k, #[trigger] outs[k]),
            !(opts.to_regex && size == 1),
            o.has_transform ==> accepts_all(*opts, all),
        decreases walk_measure(current as int, b0 as int, desc),
    {
        proof {
            lemma_walk_step(current as int, b0 as int, size as int, desc);
            assert(done.push(current as int) + walk(
                (if desc {
                    current - size
                } else {
                    current + size
                }) as int,
                b0 as int,
                size as int,
                desc,
            ) =~= done + walk(current as int, b0 as int, size as int, desc));
        }
        let ghost next_done = done.push(current as int);
        let index = items.len();
        let item = match &opts.transform {
            Some(f) => {
                proof {
                    assert(all[done.len() as int] == next_done[done.len() as int]);
                    assert(opts_accepts(*opts, all[done.len() as int], done.len() as int));
                }
                let r = f.call(Item::num(current as i64), index);
                proof {
                    assert(index == done.len());
                    let ghost prev = outs;
                    outs = outs.push(r@);
                    assert forall|k: int| 0 <= k < outs.len() implies opts_gives(
                        *opts,
                        next_done[k],
                        k,
                        #[trigger] outs[k],
                    ) by {
                        if k < prev.len() {
                            assert(outs[k] == prev[k]);
                            assert(next_done[k] == done[k]);
                        }
                    }
                }
                r
            },
            None => {
                let mut t: Vec<char> = Vec::new();
                match char_from_code(current as u32) {
                    Some(c) => t.push(c),
                    None => {},
                }
                assert(t@ =~= code_text(current as int));
                Item::Str(string_of(&t))
            },
        };
        let ghost before = items.deep_view();
        items.push(item);
        proof {
            assert(items.deep_view() =~= before.push(items@.last().deep_view()));
            assert(items@.len() == next_done.len());
            assert(items.deep_view() =~= letter_items(next_done, o.has_transform, outs));
            done = next_done;
        }
        current = if desc {
            current - size
        } else {
            current + size
        };
    }
    proof {
        lemma_walk_empty(current as int, b0 as int, size as int, desc);
        assert(done + Seq::<int>::empty() =~= done);
    }
    if opts.to_regex {
        let mut members: Vec<Vec<char>> = Vec::new();
        let mut i: usize = 0;
        while i < items.len()
            invariant
                i <= items@.len(),
                members@.map_values(|m: Vec<char>| m@) == items.deep_view().take(i as int).map_values(
                    |it: ItemModel| item_text(it),
                ),
            decreases items@.len() - i,
        {
            let t = items[i].text();
            let ghost before = members@;
            members.push(t);
            proof {
                assert(items.deep_view().take(i + 1) =~= items.deep_view().take(i as int).push(
                    items.deep_view()[i as int],
                ));
                assert(members@.map_values(|m: Vec<char>| m@) =~= before.map_values(
                    |m: Vec<char>| m@,
                ).push(t@));
            }
            i += 1;
            assert(members@.map_values(|m: Vec<char>| m@) =~= items.deep_view().take(
                i as int,
            ).map_values(|it: ItemModel| item_text(it)));
        }
        assert(items.deep_view().take(items@.len() as int) =~= items.deep_view());
        let source = to_regex_array(&members, false, false);
        return (Ok(FillResult::Regex(string_of(&source))), Ghost(outs));
    }
    (Ok(FillResult::List(items)), Ghost(outs))
}

/// Final numbers-versus-letters split with a known step and its text.
fn finish_dispatch(start: Value, end: Value, step: i64, step_text: &Vec<char>, opts: Options) -> (r: (
    Result<FillResult, FillError>,
    Ghost<Seq<ItemModel>>,
))
    requires
        accepts_all(opts, finish_inputs(start@, end@, step as int, opts@)),
    ensures
        outcome(r.0) == finish_spec(start@, end@, step as int, step_text@, opts@, r.1@),
        !opts@.has_transform ==> r.1@ == Seq::<ItemModel>::empty(),
        gives_all(opts, finish_inputs(start@, end@, step as int, opts@), r.1@),
{
    let a = start.to_i64();
    let b = end.to_i64();
    match (a, b) {
        (Some(a), Some(b)) => fill_numbers(&start, &end, a, b, step, step_text, &opts),
        _ => {
            let magnitude: i128 = if step < 0 { -(step as i128) } else { step as i128 };
            let size: i128 = if magnitude >= 1 { magnitude } else { 1 };
            fill_letters(&start, &end, size, &opts)
        },
    }
}

/// `capture` implies `wrap`, then dispatch with a known step.
fn dispatch(start: Value, end: Value, step: i64, step_text: &Vec<char>, opts: Options) -> (r: (
    Result<FillResult, FillError>,
    Ghost<Seq<ItemModel>>,
))
    requires
        accepts_all(opts, finish_inputs(start@, end@, step as int, adjust(opts@))),
    ensures
        outcome(r.0) == finish_spec(start@, end@, step as int, step_text@, adjust(opts@), r.1@),
        !opts@.has_transform ==> r.1@ == Seq::<ItemModel>::empty(),
        gives_all(opts, finish_inputs(start@, end@, step as int, adjust(opts@)), r.1@),
{
    let mut opts = opts;
    if opts.capture {
        opts.wrap = true;
    }
    finish_dispatch(start, end, step, step_text, opts)
}

/// The fallback when no usable positional step is given: the options' non-zero
/// step, else one.
fn fallback_step(opts: &Options) -> (n: i64)
    ensures
        n == match opts.step {
            Some(s) => if s != 0 {
                s
            } else {
                1
            },
            None => 1,
        },
{
    match opts.step {
        Some(s) => if s != 0 {
            s
        } else {
            1
        },
        None => 1,
    }
}

/// Resolve the step when no positional step was given, then dispatch.
fn dispatch_with_options(start: Value, end: Value, opts: Options) -> (r: (
    Result<FillResult, FillError>,
    Ghost<Seq<ItemModel>>,
))
    requires
        accepts_all(opts, with_options_inputs(start@, end@, opts@)),
    ensures
        outcome(r.0) == with_options_spec(start@, end@, opts@, r.1@),
        !opts@.has_transform ==> r.1@ == Seq::<ItemModel>::empty(),
        gives_all(opts, with_options_inputs(start@, end@, opts@), r.1@),
{
    let step = fallback_step(&opts);
    let text = int_chars(step as i128);
    dispatch(start, end, step, &text, opts)
}

/// Resolve a positional numeric or string step, then dispatch.
fn resolve_numeric_step(start: Value, end: Value, step: Step, opts: Options) -> (r: (
    Result<FillResult, FillError>,
    Ghost<Seq<ItemModel>>,
))
    requires
        accepts_all(opts, numeric_step_inputs(start@, end@, step@, opts@)),
    ensures
        outcome(r.0) == numeric_step_spec(start@, end@, step@, opts@, r.1@),
        !opts@.has_transform ==> r.1@ == Seq::<ItemModel>::empty(),
        gives_all(opts, numeric_step_inputs(start@, end@, step@, opts@), r.1@),
{
    let fallback = fallback_step(&opts);
    match step {
        Step::Str(s) => {
            let text = chars_of(s.as_str());
            if text.len() > 0 {
                match value::coerce_wide(&text) {
                    Some(v) => {
                        let n: i64 = if v > 9223372036854775807 {
                            9223372036854775807
                        } else if v < -9223372036854775808 {
                            -9223372036854775807
                        } else {
                            v as i64
                        };
                        dispatch(start, end, n, &text, opts)
                    },
                    None => (invalid_step(&text, opts.strict_ranges), Ghost(Seq::empty())),
                }
            } else {
                let t = int_chars(fallback as i128);
                dispatch(start, end, fallback, &t, opts)
            }
        },
        Step::Num(n) => {
            if n != 0 {
                let t = int_chars(n as i128);
                dispatch(start, end, n, &t, opts)
            } else {
                let t = int_chars(fallback as i128);
                dispatch(start, end, fallback, &t, opts)
            }
        },
        _ => {
            let t = int_chars(fallback as i128);
            dispatch(start, end, fallback, &t, opts)
        },
    }
}

/// Convert a bound into the element the single-argument form returns.
fn value_to_item(value: &Value) -> (i: Item)
    ensures
        i@ == value_item(value@),
{
    match value {
        Value::Num(n) => Item::Num(*n),
        Value::Str(s) => Item::Str(s.clone()),
    }
}

/// The dispatch of [`fill_checked`], with the transform outputs as a ghost.
fn fill_impl(start: Value, end: Option<Value>, step: Step, options: Options) -> (r: (
    Result<FillResult, FillError>,
    Ghost<Seq<ItemModel>>,
))
    requires
        all_accepted(step, options, checked_inputs(start@, bound_model(end), step@, options@)),
    ensures
        outcome(r.0) == checked_spec(start@, bound_model(end), step@, options@, r.1@),
        !uses_transform(step@, options@) ==> r.1@ == Seq::<ItemModel>::empty(),
        all_given(step, options, checked_inputs(start@, bound_model(end), step@, options@), r.1@),
{
    let end = match end {
        None => {
            if start.is_valid() {
                let mut items: Vec<Item> = Vec::new();
                items.push(value_to_item(&start));
                assert(items.deep_view() =~= seq![value_item(start@)]);
                return (Ok(FillResult::List(items)), Ghost(Seq::empty()));
            }
            let placeholder = Value::Str(String::new());
            assert(placeholder@ == ValueModel::Str(Seq::empty()));
            return (
                invalid_range(&start, &placeholder, options.strict_ranges),
                Ghost(Seq::empty()),
            );
        },
        Some(e) => e,
    };
    if !start.is_valid() || !end.is_valid() {
        return (invalid_range(&start, &end, options.strict_ranges), Ghost(Seq::empty()));
    }
    match step {
        Step::Func(f) => {
            let mut opts = Options::new();
            opts.transform = Some(f);
            let one = vec!['1'];
            assert(one@ =~= seq!['1']);
            assert(opts@ == OptionsModel { has_transform: true, ..options::default_options() });
            assert(adjust(opts@) == opts@);
            dispatch(start, end, 1, &one, opts)
        },
        Step::Opts(o) => dispatch_with_options(start, end, o),
        Step::Absent => dispatch_with_options(start, end, options),
        Step::Num(n) => resolve_numeric_step(start, end, Step::Num(n), options),
        Step::Str(s) => resolve_numeric_step(start, end, Step::Str(s), options),
    }
}

/// Expand a range between two bounds, reporting strict-mode errors.
///
/// `start` and `end` are numeric or string bounds; without `end` a valid lone
/// bound yields itself. `step` is the overloaded step argument and `options`
/// carries the rest. Returns a list of elements, or a regex source string when
/// `to_regex` is set. Invalid input yields an empty list, or an error when
/// `strict_ranges` is set. Padding widths are counted in characters, not in
/// bytes.
///
/// The transform in effect must accept every number and index it is handed
/// (see [`Transform::accepts`]).
///
/// When a transform is in effect, it is called once per element, in order:
/// the `k`-th call is handed the `k`-th value of [`checked_inputs`] as a number
/// and the index `k`, and the elements are what the calls returned. Of those
/// results only what [`Transform::gives`] says is known.
pub fn fill_checked(start: Value, end: Option<Value>, step: Step, options: Options) -> (r: Result<
    FillResult,
    FillError,
>)
    requires
        all_accepted(step, options, checked_inputs(start@, bound_model(end), step@, options@)),
    ensures
        checked_outcome(start@, bound_model(end), step, options, outcome(r)),
        !uses_transform(step@, options@) ==> outcome(r) == checked_spec(
            start@,
            bound_model(end),
            step@,
            options@,
            Seq::empty(),
        ),
{
    let ghost sv = start@;
    let ghost ev = bound_model(end);
    let ghost stv = step@;
    let ghost ov = options@;
    let ghost gs = step;
    let ghost go = options;
    let (r, outs) = fill_impl(start, end, step, options);
    assert(outcome(r) == checked_spec(sv, ev, stv, ov, outs@));
    proof {
        reveal(checked_outcome);
        assert(all_given(gs, go, checked_inputs(sv, ev, stv, ov), outs@));
    }
    r
}

/// Expand a range between two bounds. Invalid input yields an empty list.
/// A transform in effect is called as [`fill_checked`] describes, and must
/// accept what it is handed.
pub fn fill(start: Value, end: Option<Value>, step: Step, options: Options) -> (r: FillResult)
    requires
        all_accepted(step, options, checked_inputs(start@, bound_model(end), step@, options@)),
    ensures
        exists|res: Result<ResultModel, ErrorModel>|
            checked_outcome(start@, bound_model(end), step, options, res) && r@ == fill_spec(res),
        !uses_transform(step@, options@) ==> r@ == fill_spec(
            checked_spec(start@, bound_model(end), step@, options@, Seq::empty()),
        ),
{
    let ghost sv = start@;
    let ghost ev = bound_model(end);
    let ghost gs = step;
    let ghost go = options;
    let r = fill_checked(start, end, step, options);
    let ghost res = outcome(r);
    assert(checked_outcome(sv, ev, gs, go, res));
    let out = match r {
        Ok(v) => v,
        Err(_) => {
            let v: Vec<Item> = Vec::new();
            assert(v.deep_view() =~= Seq::<ItemModel>::empty());
            FillResult::List(v)
        },
    };
    assert(out@ == fill_spec(res));
    assert(checked_outcome(sv, ev, gs, go, res) && out@ == fill_spec(res));
    out
}

/// Expand an integer range with default options.
pub fn fill_range(start: i64, end: i64) -> (r: FillResult)
    ensures
        r@ == fill_spec(
            checked_spec(
                ValueModel::Num(start),
                Some(ValueModel::Num(end)),
                StepModel::Absent,
                options::default_options(),
                Seq::empty(),
            ),
        ),
{
    fill(Value::Num(start), Some(Value::Num(end)), Step::Absent, Options::new())
}

} // verus!
