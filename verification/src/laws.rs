//! Properties of range generation as a whole, proved over the specifications
//! that the public functions' contracts use.

use vstd::prelude::*;

use crate::options::{default_options, Options, OptionsModel, Step, StepModel};
use crate::regex_lang::{
    law_range_pattern_matches_exactly, lemma_nat_text_len_mono, names_int, pattern_matches,
    pattern_source, Signed,
};
use crate::regex_range::{group, plain_group};
use crate::text::{has_leading_zero, int_text, left_pad, nat_text, to_max_len, unsigned_part};
use crate::value::{item_text, value_is_number, value_text, ItemModel, ResultModel, ValueModel};
use crate::{
    all_given, checked_inputs, checked_outcome, checked_spec, fill_spec, gives_one_result, max2,
    number_items, step_gives, step_size, uses_transform, walk, ErrorModel,
};

verus! {

/// The decimal text of a natural number starts with a non-zero digit unless
/// the number is zero.
proof fn lemma_nat_text_first(n: nat)
    ensures
        nat_text(n).len() >= 1,
        '0' <= nat_text(n)[0] <= '9',
        n >= 1 ==> nat_text(n)[0] != '0',
        n == 0 ==> nat_text(n) == seq!['0'],
    decreases n,
{
    if n >= 10 {
        lemma_nat_text_first(n / 10);
        assert(nat_text(n)[0] == nat_text(n / 10)[0]);
    } else if n >= 1 {
        assert(nat_text(n)[0] == ((n + 48) as char));
    } else {
        assert(nat_text(0) =~= seq!['0']);
    }
}

/// The decimal text of an integer never has a meaningful leading zero.
pub proof fn lemma_int_text_unpadded(n: int)
    ensures
        !has_leading_zero(int_text(n)),
{
    let m: nat = if n < 0 { (-n) as nat } else { n as nat };
    lemma_nat_text_first(m);
    if n < 0 {
        assert(unsigned_part(int_text(n)) =~= nat_text(m));
    } else {
        assert(unsigned_part(int_text(n)) =~= nat_text(m));
    }
}

/// With strict mode off in every options value that takes part, an expand
/// call never fails.
pub proof fn law_non_strict_never_fails(
    start: ValueModel,
    end: Option<ValueModel>,
    step: StepModel,
    options: OptionsModel,
    outs: Seq<ItemModel>,
)
    requires
        !options.strict_ranges,
        step matches StepModel::Opts(o) ==> !o.strict_ranges,
    ensures
        checked_spec(start, end, step, options, outs) is Ok,
{
}

/// A unit walk upwards lists `a, a + 1, ..., b`.
proof fn lemma_walk_up(a: int, b: int)
    requires
        a <= b,
    ensures
        walk(a, b, 1, false) == Seq::new((b - a + 1) as nat, |i: int| a + i),
    decreases b - a,
{
    assert(walk(a, b, 1, false) == seq![a] + walk(a + 1, b, 1, false));
    if a < b {
        lemma_walk_up(a + 1, b);
    } else {
        assert(walk(a + 1, b, 1, false) == Seq::<int>::empty());
    }
    assert(walk(a, b, 1, false) =~= Seq::new((b - a + 1) as nat, |i: int| a + i));
}

/// A unit walk downwards lists `a, a - 1, ..., b`.
proof fn lemma_walk_down(a: int, b: int)
    requires
        a >= b,
    ensures
        walk(a, b, 1, true) == Seq::new((a - b + 1) as nat, |i: int| a - i),
    decreases a - b,
{
    assert(walk(a, b, 1, true) == seq![a] + walk(a - 1, b, 1, true));
    if a > b {
        lemma_walk_down(a - 1, b);
    } else {
        assert(walk(a - 1, b, 1, true) == Seq::<int>::empty());
    }
    assert(walk(a, b, 1, true) =~= Seq::new((a - b + 1) as nat, |i: int| a - i));
}

/// Walking from `b` to `a` by one visits the values of the walk from `a` to
/// `b` in reverse.
proof fn lemma_walk_reverse(a: int, b: int)
    ensures
        walk(a, b, 1, a > b) == walk(b, a, 1, b > a).reverse(),
{
    if a <= b {
        lemma_walk_up(a, b);
        if b > a {
            lemma_walk_down(b, a);
        } else {
            lemma_walk_up(b, a);
        }
    } else {
        lemma_walk_down(a, b);
        lemma_walk_up(b, a);
    }
    assert(walk(a, b, 1, a > b) =~= walk(b, a, 1, b > a).reverse());
}

/// Swapping the bounds of a unit-step list range reverses the list: the
/// direction comes from the bounds alone. Numeric bounds walk the integers,
/// other bounds walk the codes of their first characters, and bounds that
/// name no range give an empty list both ways (or, in strict mode, fail both
/// ways).
pub proof fn law_swapped_bounds_reverse(
    start: ValueModel,
    end: ValueModel,
    options: OptionsModel,
)
    requires
        options.step is None,
        !options.to_regex,
        !options.has_transform,
    ensures
        ({
            let r1 = checked_spec(start, Some(end), StepModel::Absent, options, Seq::empty());
            let r2 = checked_spec(end, Some(start), StepModel::Absent, options, Seq::empty());
            &&& r1 is Ok <==> r2 is Ok
            &&& r1 is Ok ==> r1->Ok_0 is List && r2->Ok_0 is List && r1->Ok_0->List_0
                == r2->Ok_0->List_0.reverse()
        }),
{
    let o = crate::adjust(options);
    let st = value_text(start);
    let et = value_text(end);
    lemma_int_text_unpadded(1);
    if !crate::value::value_valid(start) || !crate::value::value_valid(end) {
        assert(Seq::<ItemModel>::empty() =~= Seq::<ItemModel>::empty().reverse());
    } else if value_is_number(start) && value_is_number(end) {
        let a = crate::value::value_int(start)->Some_0 as int;
        let b = crate::value::value_int(end)->Some_0 as int;
        lemma_walk_reverse(a, b);
        let padded = has_leading_zero(st) || has_leading_zero(et) || has_leading_zero(int_text(1));
        let ml = if padded {
            max2(max2(st.len() as int, et.len() as int), int_text(1).len() as int)
        } else {
            0
        };
        let ml2 = if padded {
            max2(max2(et.len() as int, st.len() as int), int_text(1).len() as int)
        } else {
            0
        };
        assert(ml == ml2);
        let to_number = !padded && !crate::stringify_spec(start, end, o);
        assert(to_number == (!padded && !crate::stringify_spec(end, start, o)));
        let v1 = walk(a, b, 1, a > b);
        let v2 = walk(b, a, 1, b > a);
        let x = number_items(v1, ml, to_number, false, Seq::empty());
        let y = number_items(v2, ml, to_number, false, Seq::empty());
        assert(x =~= y.reverse());
    } else {
        let start_bad = !value_is_number(start) && st.len() > 1;
        let end_bad = !value_is_number(end) && et.len() > 1;
        if start_bad || end_bad {
            assert(Seq::<ItemModel>::empty() =~= Seq::<ItemModel>::empty().reverse());
        } else {
            let a = crate::first_code(st);
            let b = crate::first_code(et);
            lemma_walk_reverse(a as int, b as int);
            let v1 = walk(a as int, b as int, 1, a > b);
            let v2 = walk(b as int, a as int, 1, b > a);
            let x = crate::letter_items(v1, false, Seq::empty());
            let y = crate::letter_items(v2, false, Seq::empty());
            assert(x =~= y.reverse());
        }
    }
}

/// The sign of a numeric step does not matter, as long as the step's text is
/// no wider than the bounds when they are padded: for the same transform
/// results the outcome is the same, and a transform is handed the same
/// numbers.
pub proof fn law_step_sign_ignored(
    start: ValueModel,
    end: ValueModel,
    n: i64,
    options: OptionsModel,
    outs: Seq<ItemModel>,
)
    requires
        n != 0,
        n > i64::MIN,
        !(has_leading_zero(value_text(start)) || has_leading_zero(value_text(end)))
            || int_text(-(if n < 0 { -n } else { n as int })).len() <= max2(
            value_text(start).len() as int,
            value_text(end).len() as int,
        ),
    ensures
        checked_spec(start, Some(end), StepModel::Num(n), options, outs) == checked_spec(
            start,
            Some(end),
            StepModel::Num((-n) as i64),
            options,
            outs,
        ),
        crate::checked_inputs(start, Some(end), StepModel::Num(n), options)
            == crate::checked_inputs(start, Some(end), StepModel::Num((-n) as i64), options),
{
    lemma_int_text_unpadded(n as int);
    lemma_int_text_unpadded(-n);
    let m = if n < 0 { -n } else { n as int };
    assert(int_text(n as int).len() <= int_text(-m).len()) by {
        if n < 0 {
        } else {
            assert(int_text(-m) == seq!['-'] + nat_text(m as nat));
        }
    }
    assert(int_text(-n).len() <= int_text(-m).len()) by {
        if n < 0 {
            assert(int_text(-m) == seq!['-'] + nat_text(m as nat));
        }
    }
    assert(step_size(n as int) == step_size(-n));
}

/// When a bound is a string and no transform is set, every listed element is
/// a string.
#[verifier::rlimit(20)]
pub proof fn law_string_bounds_give_strings(
    start: ValueModel,
    end: ValueModel,
    step: StepModel,
    options: OptionsModel,
)
    requires
        start is Str || end is Str,
        !crate::uses_transform(step, options),
    ensures
        checked_spec(start, Some(end), step, options, Seq::empty()) matches Ok(
            ResultModel::List(items),
        ) ==> forall|i: int| 0 <= i < items.len() ==> #[trigger] items[i] is Str,
{
}

/// A number between two others has a text no wider than the wider of theirs.
proof fn lemma_int_text_between(a: int, b: int, v: int)
    requires
        a <= v <= b,
    ensures
        int_text(v).len() <= max2(int_text(a).len() as int, int_text(b).len() as int),
{
    if v >= 0 {
        lemma_nat_text_len_mono(v as nat, b as nat);
    } else {
        lemma_nat_text_len_mono((-v) as nat, (-a) as nat);
    }
}

/// Padding a text no wider than `w` to `w` characters gives exactly `w`.
proof fn lemma_to_max_len_width(s: Seq<char>, w: int)
    requires
        s.len() <= w,
    ensures
        to_max_len(s, w).len() == w,
{
    if crate::text::has_dash(s) {
        assert(left_pad(s.drop_first(), w - 1).len() == w - 1);
    }
}

/// A leading zero on a bound pads every element of a unit-step list range
/// to one common width, the width of the wider bound, as long as neither
/// bound's number has a text wider than the bound's own text.
pub proof fn law_padding_gives_common_width(
    start: ValueModel,
    end: ValueModel,
    options: OptionsModel,
)
    requires
        value_is_number(start),
        value_is_number(end),
        value_text(start).len() > 0,
        value_text(end).len() > 0,
        has_leading_zero(value_text(start)) || has_leading_zero(value_text(end)),
        int_text(crate::value::value_int(start)->Some_0 as int).len() <= value_text(start).len(),
        int_text(crate::value::value_int(end)->Some_0 as int).len() <= value_text(end).len(),
        options.step is None,
        !options.to_regex,
        !options.has_transform,
    ensures
        checked_spec(start, Some(end), StepModel::Absent, options, Seq::empty()) matches Ok(
            ResultModel::List(items),
        ) && forall|i: int|
            0 <= i < items.len() ==> #[trigger] items[i] is Str && items[i]->Str_0.len() == max2(
                value_text(start).len() as int,
                value_text(end).len() as int,
            ),
{
    let a = crate::value::value_int(start)->Some_0 as int;
    let b = crate::value::value_int(end)->Some_0 as int;
    lemma_int_text_unpadded(1);
    let st = value_text(start);
    let et = value_text(end);
    let ml = max2(max2(st.len() as int, et.len() as int), int_text(1).len() as int);
    assert(int_text(1) == nat_text(1));
    assert(nat_text(1).len() == 1);
    assert(ml == max2(st.len() as int, et.len() as int));
    let values = walk(a, b, 1, a > b);
    let lo = if a <= b {
        a
    } else {
        b
    };
    let hi = if a <= b {
        b
    } else {
        a
    };
    assert forall|k: int| 0 <= k < values.len() implies lo <= #[trigger] values[k] <= hi by {
        if a <= b {
            lemma_walk_up(a, b);
        } else {
            lemma_walk_down(a, b);
        }
    }
    let items = number_items(values, ml, false, false, Seq::empty());
    assert forall|i: int| 0 <= i < items.len() implies #[trigger] items[i] is Str
        && items[i]->Str_0.len() == ml by {
        let v = values[i];
        lemma_int_text_between(lo, hi, v);
        lemma_to_max_len_width(int_text(v), ml);
    }
}

/// Asked for a regex over two integer bounds with no step, a fill call
/// returns the source of an alternation of signed pieces, alone or inside
/// one group, that matches the decimal text of every integer between the
/// bounds and no other text.
pub proof fn law_regex_output_matches_exactly(
    x: i64,
    y: i64,
    options: OptionsModel,
    outs: Seq<ItemModel>,
) -> (sps: Seq<Signed>)
    requires
        options.to_regex,
        options.step is None,
    ensures
        checked_spec(
            ValueModel::Num(x),
            Some(ValueModel::Num(y)),
            StepModel::Absent,
            options,
            outs,
        ) matches Ok(ResultModel::Regex(r)) && (r == pattern_source(sps, options.shorthand) || r
            == group(pattern_source(sps, options.shorthand)) || r == plain_group(
            pattern_source(sps, options.shorthand),
        )),
        forall|w: Seq<char>|
            #[trigger] pattern_matches(sps, w) <==> names_int(
                if x <= y {
                    x as int
                } else {
                    y as int
                },
                if x <= y {
                    y as int
                } else {
                    x as int
                },
                w,
            ),
{
    let o = crate::adjust(options);
    lemma_int_text_unpadded(x as int);
    lemma_int_text_unpadded(y as int);
    lemma_int_text_unpadded(1);
    let tx = int_text(x as int);
    let ty = int_text(y as int);
    assert(to_max_len(crate::regex_text(tx, x as int), 0) =~= tx) by {
        if crate::text::has_dash(tx) {
            assert(seq!['-'] + tx.drop_first() =~= tx);
        }
    }
    assert(to_max_len(crate::regex_text(ty, y as int), 0) =~= ty) by {
        if crate::text::has_dash(ty) {
            assert(seq!['-'] + ty.drop_first() =~= ty);
        }
    }
    law_range_pattern_matches_exactly(
        x as int,
        y as int,
        !o.strict_zeros,
        o.shorthand,
        o.capture,
        o.wrap,
    )
}

/// Every value of a walk lies between its start and its end.
proof fn lemma_walk_within(cur: int, end: int, step: int, desc: bool)
    ensures
        forall|k: int|
            0 <= k < walk(cur, end, step, desc).len() ==> (if desc {
                end <= #[trigger] walk(cur, end, step, desc)[k] <= cur
            } else {
                cur <= walk(cur, end, step, desc)[k] <= end
            }),
    decreases crate::walk_measure(cur, end, desc),
{
    if step >= 1 && (if desc {
        cur >= end
    } else {
        cur <= end
    }) {
        let next = if desc {
            cur - step
        } else {
            cur + step
        };
        lemma_walk_within(next, end, step, desc);
        let rest = walk(next, end, step, desc);
        assert forall|k: int| 0 <= k < walk(cur, end, step, desc).len() implies (if desc {
            end <= #[trigger] walk(cur, end, step, desc)[k] <= cur
        } else {
            cur <= walk(cur, end, step, desc)[k] <= end
        }) by {
            if k > 0 {
                assert(walk(cur, end, step, desc)[k] == rest[k - 1]);
            }
        }
    }
}

/// A string bound that holds an integer's decimal text lists the same
/// elements as that integer, each written as its text: string bounds keep
/// the output textual and change nothing else.
pub proof fn law_string_bounds_read_as_numbers(a: i64, b: i64, options: OptionsModel)
    requires
        !options.to_regex,
        !options.has_transform,
    ensures
        ({
            let xs = checked_spec(
                ValueModel::Str(int_text(a as int)),
                Some(ValueModel::Str(int_text(b as int))),
                StepModel::Absent,
                options,
                Seq::empty(),
            );
            let ys = checked_spec(
                ValueModel::Num(a),
                Some(ValueModel::Num(b)),
                StepModel::Absent,
                options,
                Seq::empty(),
            );
            &&& xs matches Ok(ResultModel::List(l1))
            &&& ys matches Ok(ResultModel::List(l2))
            &&& l1.len() == l2.len()
            &&& forall|i: int|
                0 <= i < l1.len() ==> #[trigger] l1[i] == ItemModel::Str(
                    crate::value::item_text(l2[i]),
                )
        }),
{
    crate::value::lemma_coerce_int_text(a as int);
    crate::value::lemma_coerce_int_text(b as int);
    lemma_int_text_unpadded(a as int);
    lemma_int_text_unpadded(b as int);
    assert(int_text(a as int).len() > 0) by {
        crate::regex_lang::lemma_nat_text_value(if a < 0 { (-a) as nat } else { a as nat });
    }
    assert(int_text(b as int).len() > 0) by {
        crate::regex_lang::lemma_nat_text_value(if b < 0 { (-b) as nat } else { b as nat });
    }
    let o = crate::adjust(options);
    let step: int = match options.step {
        Some(n) => if n != 0 {
            n as int
        } else {
            1
        },
        None => 1,
    };
    lemma_int_text_unpadded(step);
    let values = walk(a as int, b as int, step_size(step), a > b);
    let l1 = number_items(values, 0, false, false, Seq::empty());
    let l2 = number_items(values, 0, !o.stringify, false, Seq::empty());
    assert(checked_spec(
        ValueModel::Str(int_text(a as int)),
        Some(ValueModel::Str(int_text(b as int))),
        StepModel::Absent,
        options,
        Seq::empty(),
    ) == Ok::<ResultModel, ErrorModel>(ResultModel::List(l1)));
    assert(checked_spec(
        ValueModel::Num(a),
        Some(ValueModel::Num(b)),
        StepModel::Absent,
        options,
        Seq::empty(),
    ) == Ok::<ResultModel, ErrorModel>(ResultModel::List(l2)));
    assert forall|i: int| 0 <= i < l1.len() implies #[trigger] l1[i] == ItemModel::Str(
        crate::value::item_text(l2[i]),
    ) by {
        lemma_walk_within(a as int, b as int, step_size(step), a > b);
        let v = values[i];
        assert(i64::MIN <= v <= i64::MAX);
    }
}

/// A transform passed in step position is the only option in effect: every
/// setting of the options argument is dropped. (`alone` holds the transform
/// and nothing else.) For the same transform
/// results the outcome is that of the transform alone as the options, and
/// the transform is handed the same numbers.
pub proof fn law_transform_step_drops_options(
    start: ValueModel,
    end: ValueModel,
    options: Options,
    alone: Options,
    outs: Seq<ItemModel>,
)
    requires
        crate::value::value_valid(start),
        crate::value::value_valid(end),
        alone.transform is Some,
        alone@ == (OptionsModel { has_transform: true, ..default_options() }),
    ensures
        checked_spec(start, Some(end), StepModel::Func, options@, outs) == checked_spec(
            start,
            Some(end),
            StepModel::Absent,
            alone@,
            outs,
        ),
        checked_inputs(start, Some(end), StepModel::Func, options@) == checked_inputs(
            start,
            Some(end),
            StepModel::Absent,
            alone@,
        ),
        forall|args: Seq<int>, rs: Seq<ItemModel>|
            all_given(Step::Func(alone.transform->Some_0), options, args, rs) == #[trigger] all_given(
                Step::Absent,
                alone,
                args,
                rs,
            ),
{
    assert(int_text(1) == seq!['1']) by {
        assert(nat_text(1) =~= seq!['1']);
    }
}

/// An options value passed in step position replaces the options argument.
/// For valid bounds and the same transform results the outcome is that of
/// those options passed as the options argument, and a transform is handed
/// the same numbers.
pub proof fn law_options_step_replaces_options(
    start: ValueModel,
    end: ValueModel,
    stepped: Options,
    options: Options,
    outs: Seq<ItemModel>,
)
    requires
        crate::value::value_valid(start),
        crate::value::value_valid(end),
    ensures
        checked_spec(start, Some(end), StepModel::Opts(stepped@), options@, outs) == checked_spec(
            start,
            Some(end),
            StepModel::Absent,
            stepped@,
            outs,
        ),
        checked_inputs(start, Some(end), StepModel::Opts(stepped@), options@) == checked_inputs(
            start,
            Some(end),
            StepModel::Absent,
            stepped@,
        ),
        forall|args: Seq<int>, rs: Seq<ItemModel>|
            all_given(Step::Opts(stepped), options, args, rs) == #[trigger] all_given(
                Step::Absent,
                stepped,
                args,
                rs,
            ),
{
}

/// A numeric step of zero and an empty step text both fall back to the
/// options' non-zero step, else to one: for the same transform results all
/// three calls have one outcome, and a transform is handed the same numbers.
pub proof fn law_empty_step_falls_back(
    start: ValueModel,
    end: Option<ValueModel>,
    options: OptionsModel,
    outs: Seq<ItemModel>,
)
    ensures
        ({
            let d: i64 = match options.step {
                Some(n) => if n != 0 {
                    n
                } else {
                    1
                },
                None => 1,
            };
            &&& checked_spec(start, end, StepModel::Num(0), options, outs) == checked_spec(
                start,
                end,
                StepModel::Str(Seq::empty()),
                options,
                outs,
            )
            &&& checked_spec(start, end, StepModel::Num(0), options, outs) == checked_spec(
                start,
                end,
                StepModel::Num(d),
                options,
                outs,
            )
            &&& checked_inputs(start, end, StepModel::Num(0), options) == checked_inputs(
                start,
                end,
                StepModel::Str(Seq::empty()),
                options,
            )
            &&& checked_inputs(start, end, StepModel::Num(0), options) == checked_inputs(
                start,
                end,
                StepModel::Num(d),
                options,
            )
        }),
{
}

/// Grouping options only wrap the alternation of integer bounds: with
/// `capture` the ungrouped source is put in a capturing group (whatever
/// `wrap` says), with neither option it is returned as it is, and with
/// `wrap` alone it is put in a non-capturing group or left as it is, always
/// put in one when the bounds are neighbours.
pub proof fn law_regex_grouping(
    min: Seq<char>,
    max: Seq<char>,
    relax: bool,
    shorthand: bool,
    capture: bool,
    wrap: bool,
)
    requires
        min != max,
        crate::regex_range::parse_i64_spec(min) is Some,
        crate::regex_range::parse_i64_spec(max) is Some,
    ensures
        ({
            let base = crate::regex_range::regex_range_spec(min, max, relax, shorthand, false, false);
            let r = crate::regex_range::regex_range_spec(min, max, relax, shorthand, capture, wrap);
            let x = crate::regex_range::parse_i64_spec(min)->Some_0;
            let y = crate::regex_range::parse_i64_spec(max)->Some_0;
            &&& base is Some
            &&& capture ==> r == Some(group(base->Some_0))
            &&& !capture && !wrap ==> r == base
            &&& !capture && wrap ==> r == Some(plain_group(base->Some_0)) || r == base
            &&& !capture && wrap && (x - y == 1 || y - x == 1) ==> r == Some(
                plain_group(base->Some_0),
            )
        }),
{
}

// ---------------------------------------------------------------------------
// The same laws between whole calls.
// ---------------------------------------------------------------------------

/// A transform is handed numbers only when one is in effect.
proof fn lemma_inputs_need_transform(
    start: ValueModel,
    end: Option<ValueModel>,
    step: StepModel,
    options: OptionsModel,
)
    ensures
        checked_inputs(start, end, step, options).len() > 0 ==> uses_transform(step, options),
{
}

/// Two runs of transforms that give the same results, handed the same
/// numbers, the first giving one result per number and position, return the
/// same results.
proof fn lemma_same_results(
    step1: Step,
    options1: Options,
    step2: Step,
    options2: Options,
    args: Seq<int>,
    outs1: Seq<ItemModel>,
    outs2: Seq<ItemModel>,
)
    requires
        all_given(step1, options1, args, outs1),
        all_given(step2, options2, args, outs2),
        forall|v: int, k: int, r: ItemModel|
            #[trigger] step_gives(step1, options1, v, k, r) == step_gives(step2, options2, v, k, r),
        args.len() > 0 ==> gives_one_result(step1, options1),
    ensures
        outs1 == outs2,
{
    assert forall|k: int| 0 <= k < args.len() implies outs1[k] == outs2[k] by {
        assert(step_gives(step1, options1, args[k], k, outs1[k]));
        assert(step_gives(step2, options2, args[k], k, outs2[k]));
        assert(step_gives(step1, options1, args[k], k, outs2[k]));
    }
    assert(outs1 =~= outs2);
}

/// Two calls on the same arguments, with a transform in effect that gives
/// one result per number and position (or none in effect), have one outcome.
proof fn lemma_one_outcome(
    start: ValueModel,
    end: Option<ValueModel>,
    step: Step,
    options: Options,
    res1: Result<ResultModel, ErrorModel>,
    res2: Result<ResultModel, ErrorModel>,
)
    requires
        checked_outcome(start, end, step, options, res1),
        checked_outcome(start, end, step, options, res2),
        uses_transform(step@, options@) ==> gives_one_result(step, options),
    ensures
        res1 == res2,
{
    reveal(checked_outcome);
    let args = checked_inputs(start, end, step@, options@);
    let outs1 = choose|outs: Seq<ItemModel>|
        all_given(step, options, args, outs) && res1 == checked_spec(start, end, step@, options@, outs);
    let outs2 = choose|outs: Seq<ItemModel>|
        all_given(step, options, args, outs) && res2 == checked_spec(start, end, step@, options@, outs);
    lemma_inputs_need_transform(start, end, step@, options@);
    lemma_same_results(step, options, step, options, args, outs1, outs2);
}

/// `fill` returns what `fill_checked` returns on the same arguments, an
/// error turned into an empty list, when the transform in effect gives one
/// result per number and position (or none is in effect).
pub proof fn law_fill_is_checked_without_errors(
    start: ValueModel,
    end: Option<ValueModel>,
    step: Step,
    options: Options,
    filled: ResultModel,
    checked: Result<ResultModel, ErrorModel>,
)
    requires
        exists|res: Result<ResultModel, ErrorModel>|
            checked_outcome(start, end, step, options, res) && filled == fill_spec(res),
        checked_outcome(start, end, step, options, checked),
        uses_transform(step@, options@) ==> gives_one_result(step, options),
    ensures
        filled == match checked {
            Ok(r) => r,
            Err(_) => ResultModel::List(Seq::empty()),
        },
{
    let res = choose|res: Result<ResultModel, ErrorModel>|
        checked_outcome(start, end, step, options, res) && filled == fill_spec(res);
    lemma_one_outcome(start, end, step, options, res, checked);
}

/// A call with a transform in step position and a call with that transform
/// as the only option have one outcome, whatever the other options say, when
/// the transform gives one result per number and position.
pub proof fn law_transform_step_calls_agree(
    start: ValueModel,
    end: ValueModel,
    options: Options,
    alone: Options,
    res1: Result<ResultModel, ErrorModel>,
    res2: Result<ResultModel, ErrorModel>,
)
    requires
        crate::value::value_valid(start),
        crate::value::value_valid(end),
        alone.transform is Some,
        alone@ == (OptionsModel { has_transform: true, ..default_options() }),
        checked_outcome(start, Some(end), Step::Func(alone.transform->Some_0), options, res1),
        checked_outcome(start, Some(end), Step::Absent, alone, res2),
        gives_one_result(Step::Func(alone.transform->Some_0), options),
    ensures
        res1 == res2,
{
    reveal(checked_outcome);
    let args = checked_inputs(start, Some(end), StepModel::Func, options@);
    let outs1 = choose|outs: Seq<ItemModel>|
        all_given(Step::Func(alone.transform->Some_0), options, args, outs) && res1 == checked_spec(
            start,
            Some(end),
            StepModel::Func,
            options@,
            outs,
        );
    law_transform_step_drops_options(start, end, options, alone, outs1);
    let outs2 = choose|outs: Seq<ItemModel>|
        all_given(Step::Absent, alone, args, outs) && res2 == checked_spec(
            start,
            Some(end),
            StepModel::Absent,
            alone@,
            outs,
        );
    lemma_same_results(Step::Func(alone.transform->Some_0), options, Step::Absent, alone, args, outs1, outs2);
}

/// A call with options in step position and a call with those options as
/// the options argument have one outcome, for valid bounds, when a transform
/// in them gives one result per number and position.
pub proof fn law_options_step_calls_agree(
    start: ValueModel,
    end: ValueModel,
    stepped: Options,
    options: Options,
    res1: Result<ResultModel, ErrorModel>,
    res2: Result<ResultModel, ErrorModel>,
)
    requires
        crate::value::value_valid(start),
        crate::value::value_valid(end),
        checked_outcome(start, Some(end), Step::Opts(stepped), options, res1),
        checked_outcome(start, Some(end), Step::Absent, stepped, res2),
        stepped@.has_transform ==> gives_one_result(Step::Absent, stepped),
    ensures
        res1 == res2,
{
    reveal(checked_outcome);
    let args = checked_inputs(start, Some(end), StepModel::Opts(stepped@), options@);
    let outs1 = choose|outs: Seq<ItemModel>|
        all_given(Step::Opts(stepped), options, args, outs) && res1 == checked_spec(
            start,
            Some(end),
            StepModel::Opts(stepped@),
            options@,
            outs,
        );
    law_options_step_replaces_options(start, end, stepped, options, outs1);
    let outs2 = choose|outs: Seq<ItemModel>|
        all_given(Step::Absent, stepped, args, outs) && res2 == checked_spec(
            start,
            Some(end),
            StepModel::Absent,
            stepped@,
            outs,
        );
    lemma_inputs_need_transform(start, Some(end), StepModel::Absent, stepped@);
    lemma_same_results(Step::Absent, stepped, Step::Opts(stepped), options, args, outs2, outs1);
}

/// Calls with a numeric step of zero, an empty step text, and the options'
/// non-zero step (else one) have one outcome, when a transform in the options
/// gives one result per number and position.
pub proof fn law_empty_step_calls_agree(
    start: ValueModel,
    end: Option<ValueModel>,
    zero: Step,
    empty: Step,
    fallback: Step,
    options: Options,
    r0: Result<ResultModel, ErrorModel>,
    r1: Result<ResultModel, ErrorModel>,
    r2: Result<ResultModel, ErrorModel>,
)
    requires
        zero@ == StepModel::Num(0),
        empty@ == StepModel::Str(Seq::empty()),
        fallback@ == StepModel::Num(
            match options@.step {
                Some(n) => if n != 0 {
                    n
                } else {
                    1
                },
                None => 1,
            },
        ),
        checked_outcome(start, end, zero, options, r0),
        checked_outcome(start, end, empty, options, r1),
        checked_outcome(start, end, fallback, options, r2),
        options@.has_transform ==> gives_one_result(Step::Absent, options),
    ensures
        r0 == r1,
        r0 == r2,
{
    reveal(checked_outcome);
    law_empty_step_falls_back(start, end, options@, Seq::empty());
    let args = checked_inputs(start, end, zero@, options@);
    let o0 = choose|outs: Seq<ItemModel>|
        all_given(zero, options, args, outs) && r0 == checked_spec(start, end, zero@, options@, outs);
    let o1 = choose|outs: Seq<ItemModel>|
        all_given(empty, options, args, outs) && r1 == checked_spec(start, end, empty@, options@, outs);
    let o2 = choose|outs: Seq<ItemModel>|
        all_given(fallback, options, args, outs) && r2 == checked_spec(
            start,
            end,
            fallback@,
            options@,
            outs,
        );
    law_empty_step_falls_back(start, end, options@, o0);
    lemma_inputs_need_transform(start, end, zero@, options@);
    assert(forall|v: int, k: int, r: ItemModel|
        #[trigger] step_gives(zero, options, v, k, r) == step_gives(Step::Absent, options, v, k, r));
    assert(forall|v: int, k: int, r: ItemModel|
        #[trigger] step_gives(empty, options, v, k, r) == step_gives(Step::Absent, options, v, k, r));
    assert(forall|v: int, k: int, r: ItemModel|
        #[trigger] step_gives(fallback, options, v, k, r) == step_gives(Step::Absent, options, v, k, r));
    lemma_same_results(zero, options, empty, options, args, o0, o1);
    lemma_same_results(zero, options, fallback, options, args, o0, o2);
}

/// Calls with a numeric step and with its negation have one outcome, under
/// the conditions of [`law_step_sign_ignored`], when a transform in the
/// options gives one result per number and position.
pub proof fn law_step_sign_calls_agree(
    start: ValueModel,
    end: ValueModel,
    n: i64,
    up: Step,
    down: Step,
    options: Options,
    r1: Result<ResultModel, ErrorModel>,
    r2: Result<ResultModel, ErrorModel>,
)
    requires
        n != 0,
        n > i64::MIN,
        !(has_leading_zero(value_text(start)) || has_leading_zero(value_text(end)))
            || int_text(-(if n < 0 { -n } else { n as int })).len() <= max2(
            value_text(start).len() as int,
            value_text(end).len() as int,
        ),
        up@ == StepModel::Num(n),
        down@ == StepModel::Num((-n) as i64),
        checked_outcome(start, Some(end), up, options, r1),
        checked_outcome(start, Some(end), down, options, r2),
        options@.has_transform ==> gives_one_result(Step::Absent, options),
    ensures
        r1 == r2,
{
    reveal(checked_outcome);
    let args = checked_inputs(start, Some(end), up@, options@);
    let o1 = choose|outs: Seq<ItemModel>|
        all_given(up, options, args, outs) && r1 == checked_spec(start, Some(end), up@, options@, outs);
    law_step_sign_ignored(start, end, n, options@, o1);
    let o2 = choose|outs: Seq<ItemModel>|
        all_given(down, options, args, outs) && r2 == checked_spec(
            start,
            Some(end),
            down@,
            options@,
            outs,
        );
    lemma_inputs_need_transform(start, Some(end), up@, options@);
    assert(forall|v: int, k: int, r: ItemModel|
        #[trigger] step_gives(up, options, v, k, r) == step_gives(Step::Absent, options, v, k, r));
    assert(forall|v: int, k: int, r: ItemModel|
        #[trigger] step_gives(down, options, v, k, r) == step_gives(Step::Absent, options, v, k, r));
    lemma_same_results(up, options, down, options, args, o1, o2);
}

// ---------------------------------------------------------------------------
// What the elements are.
// ---------------------------------------------------------------------------

/// Two one-character bounds that are no numbers give, with a unit step, the
/// list of the characters whose codes run from the first bound's code to the
/// second's, one per code, in order: the `k`-th element is the character with
/// code `a + k` (or `a - k` walking down), whatever the characters are.
pub proof fn law_single_characters_walk_codes(s: Seq<char>, t: Seq<char>, options: OptionsModel)
    requires
        s.len() == 1,
        t.len() == 1,
        !value_is_number(ValueModel::Str(s)),
        !value_is_number(ValueModel::Str(t)),
        options.step is None,
        !options.to_regex,
        !options.has_transform,
    ensures
        ({
            let a = (s[0] as u32) as int;
            let b = (t[0] as u32) as int;
            checked_spec(
                ValueModel::Str(s),
                Some(ValueModel::Str(t)),
                StepModel::Absent,
                options,
                Seq::empty(),
            ) matches Ok(ResultModel::List(items)) && items.len() == (if a <= b {
                b - a + 1
            } else {
                a - b + 1
            }) && forall|k: int|
                #![trigger items[k]]
                0 <= k < items.len() ==> {
                    let code = if a <= b {
                        a + k
                    } else {
                        a - k
                    };
                    &&& items[k] is Str
                    &&& crate::valid_code(code) ==> items[k] == ItemModel::Str(
                        seq![(code as u32) as char],
                    )
                }
        }),
{
    let a = crate::first_code(s);
    let b = crate::first_code(t);
    lemma_int_text_unpadded(1);
    if a <= b {
        lemma_walk_up(a as int, b as int);
    } else {
        lemma_walk_down(a as int, b as int);
    }
}

/// The elements of a unit-step numeric list range are the numbers from the
/// first bound to the second, or what a transform gives for them, shaped the
/// same way whichever it is: with a leading zero on a bound each element is
/// its text left-padded with zeros (after any sign) to the wider bound's
/// width; otherwise with a string bound or `stringify` each element is its
/// text; otherwise it is left as it is.
pub proof fn law_number_elements_are_shaped(
    start: ValueModel,
    end: ValueModel,
    options: OptionsModel,
    outs: Seq<ItemModel>,
)
    requires
        crate::value::value_valid(start),
        crate::value::value_valid(end),
        value_is_number(start),
        value_is_number(end),
        options.step is None,
        !options.to_regex,
    ensures
        ({
            let a = crate::value::value_int(start)->Some_0 as int;
            let b = crate::value::value_int(end)->Some_0 as int;
            let st = value_text(start);
            let et = value_text(end);
            let padded = has_leading_zero(st) || has_leading_zero(et);
            let width = max2(st.len() as int, et.len() as int);
            let textual = start is Str || end is Str || options.stringify;
            checked_spec(start, Some(end), StepModel::Absent, options, outs) matches Ok(
                ResultModel::List(items),
            ) && items.len() == (if a <= b {
                b - a + 1
            } else {
                a - b + 1
            }) && forall|k: int|
                #![trigger items[k]]
                0 <= k < items.len() ==> {
                    let x = if options.has_transform {
                        outs[k]
                    } else {
                        ItemModel::Num(
                            (if a <= b {
                                a + k
                            } else {
                                a - k
                            }) as i64,
                        )
                    };
                    &&& padded ==> items[k] == ItemModel::Str(to_max_len(item_text(x), width))
                    &&& !padded && textual ==> items[k] == ItemModel::Str(item_text(x))
                    &&& !padded && !textual ==> items[k] == x
                }
        }),
{
    let a = crate::value::value_int(start)->Some_0 as int;
    let b = crate::value::value_int(end)->Some_0 as int;
    lemma_int_text_unpadded(1);
    assert(int_text(1) == nat_text(1));
    assert(nat_text(1).len() == 1);
    if a <= b {
        lemma_walk_up(a, b);
    } else {
        lemma_walk_down(a, b);
    }
}

/// `s` with every non-capturing group opener `(?:` turned into a capturing
/// `(`.
pub open spec fn open_groups(s: Seq<char>) -> Seq<char>
    decreases s.len(),
{
    if s.len() == 0 {
        s
    } else if s.len() >= 3 && s[0] == '(' && s[1] == '?' && s[2] == ':' {
        seq!['('] + open_groups(s.skip(3))
    } else {
        seq![s[0]] + open_groups(s.skip(1))
    }
}

/// No `(` in `s`.
spec fn no_paren(s: Seq<char>) -> bool {
    forall|i: int| 0 <= i < s.len() ==> #[trigger] s[i] != '('
}

/// Text without a `(` passes through `open_groups` unchanged, whatever
/// follows it.
proof fn lemma_open_groups_plain(x: Seq<char>, y: Seq<char>)
    requires
        no_paren(x),
    ensures
        open_groups(x + y) == x + open_groups(y),
    decreases x.len(),
{
    if x.len() > 0 {
        let z = x + y;
        assert(z[0] == x[0]);
        assert(z.skip(1) =~= x.skip(1) + y);
        lemma_open_groups_plain(x.skip(1), y);
        assert(seq![x[0]] + (x.skip(1) + open_groups(y)) =~= x + open_groups(y));
    } else {
        assert(x + y =~= y);
    }
}

/// A padded decimal text holds no `(`.
proof fn lemma_padded_text_no_paren(v: int, width: int)
    ensures
        no_paren(to_max_len(int_text(v), width)),
{
    let u: nat = if v < 0 { (-v) as nat } else { v as nat };
    crate::regex_lang::lemma_nat_text_value(u);
    let t = int_text(v);
    assert(no_paren(t)) by {
        assert forall|i: int| 0 <= i < t.len() implies #[trigger] t[i] != '(' by {
            if v < 0 {
                if i > 0 {
                    assert(t[i] == nat_text(u)[i - 1]);
                    assert(crate::text::is_digit(nat_text(u)[i - 1]));
                }
            } else {
                assert(crate::text::is_digit(nat_text(u)[i]));
            }
        }
    }
    let p = to_max_len(t, width);
    assert forall|i: int| 0 <= i < p.len() implies #[trigger] p[i] != '(' by {
        if crate::text::has_dash(t) {
            let body = t.drop_first();
            if i > 0 {
                let q = left_pad(body, width - 1);
                assert(p[i] == q[i - 1]);
                if body.len() < width - 1 {
                    let z = crate::text::zero_run(width - 1 - body.len());
                    if i - 1 >= z.len() {
                        assert(q[i - 1] == body[i - 1 - z.len()]);
                        assert(body[i - 1 - z.len()] == t[i - z.len()]);
                    }
                } else {
                    assert(q[i - 1] == t[i]);
                }
            }
        } else {
            if t.len() < width {
                let z = crate::text::zero_run(width - t.len());
                if i >= z.len() {
                    assert(p[i] == t[i - z.len()]);
                }
            }
        }
    }
}

/// Padded decimal texts joined by `|` hold no `(`.
proof fn lemma_join_padded_no_paren(values: Seq<int>, width: int)
    ensures
        no_paren(crate::join_padded(values, width)),
    decreases values.len(),
{
    let parts = values.map_values(|v: int| to_max_len(int_text(v), width));
    if values.len() == 1 {
        lemma_padded_text_no_paren(values[0], width);
        assert(parts[0] == to_max_len(int_text(values[0]), width));
    } else if values.len() > 1 {
        lemma_join_padded_no_paren(values.drop_last(), width);
        assert(parts.drop_last() =~= values.drop_last().map_values(
            |v: int| to_max_len(int_text(v), width),
        ));
        lemma_padded_text_no_paren(values.last(), width);
        let head = crate::text::join(parts.drop_last(), seq!['|']);
        let tail = parts.last();
        assert(tail == to_max_len(int_text(values.last()), width));
        let whole = head + seq!['|'] + tail;
        assert forall|i: int| 0 <= i < whole.len() implies #[trigger] whole[i] != '(' by {
            if i < head.len() {
                assert(whole[i] == head[i]);
            } else if i > head.len() {
                assert(whole[i] == tail[i - head.len() - 1]);
            }
        }
    }
}

/// The two group openers of a stepped alternation: opening the non-capturing
/// ones of the plain alternation gives the alternation built for capturing.
#[verifier::rlimit(30)]
#[verifier::spinoff_prover]
proof fn lemma_sequence_open_groups(pos: Seq<int>, neg: Seq<int>, width: int)
    ensures
        open_groups(crate::sequence_spec(pos, neg, false, false, width)) == crate::sequence_spec(
            pos,
            neg,
            true,
            false,
            width,
        ),
{
    let p = crate::join_padded(pos, width);
    let j = crate::join_padded(neg, width);
    lemma_join_padded_no_paren(pos, width);
    lemma_join_padded_no_paren(neg, width);
    let close = seq![')'];
    assert(no_paren(close));
    lemma_open_groups_plain(close, Seq::empty());
    assert(open_groups(Seq::<char>::empty()) == Seq::<char>::empty());
    assert(close + Seq::<char>::empty() =~= close);
    lemma_open_groups_plain(j, close);
    let opener = seq!['(', '?', ':'];
    assert((opener + (j + close)).skip(3) =~= j + close);
    assert(open_groups(opener + (j + close)) == seq!['('] + open_groups(j + close));
    let dash = seq!['-'];
    assert(no_paren(dash));
    lemma_open_groups_plain(dash, opener + (j + close));
    let neg_plain = seq!['-', '('] + seq!['?', ':'] + j + close;
    let neg_cap = seq!['-', '('] + Seq::<char>::empty() + j + close;
    assert(neg_plain =~= dash + (opener + (j + close)));
    assert(open_groups(neg_plain) =~= neg_cap);
    if pos.len() > 0 && neg.len() > 0 {
        let bar_p = p + seq!['|'];
        assert(no_paren(bar_p)) by {
            assert forall|i: int| 0 <= i < bar_p.len() implies #[trigger] bar_p[i] != '(' by {
                if i < p.len() {
                    assert(bar_p[i] == p[i]);
                }
            }
        }
        lemma_open_groups_plain(bar_p, neg_plain);
        assert(p + seq!['|'] + neg_plain =~= bar_p + neg_plain);
        assert(p + seq!['|'] + neg_cap =~= bar_p + neg_cap);
    } else if pos.len() == 0 {
        if neg.len() == 0 {
            assert(open_groups(Seq::<char>::empty()) == Seq::<char>::empty());
        }
    } else {
        lemma_open_groups_plain(p, Seq::empty());
        assert(p + Seq::<char>::empty() =~= p);
    }
}

/// A stepped numeric regex is grouped as a whole whenever grouping is asked
/// for, whatever the signs of its members: with `wrap` alone the plain
/// alternation goes inside `(?:` and `)`; with `capture` it goes inside `(`
/// and `)`, its inner non-capturing group becoming capturing too.
#[verifier::rlimit(30)]
#[verifier::spinoff_prover]
pub proof fn law_stepped_regex_grouping(
    start: ValueModel,
    end: ValueModel,
    n: i64,
    options: OptionsModel,
    outs: Seq<ItemModel>,
)
    requires
        crate::value::value_valid(start),
        crate::value::value_valid(end),
        value_is_number(start),
        value_is_number(end),
        n != 0,
        n != 1,
        n != -1,
        options.to_regex,
    ensures
        ({
            let plain = OptionsModel { capture: false, wrap: false, ..options };
            let r = checked_spec(start, Some(end), StepModel::Num(n), options, outs);
            let r0 = checked_spec(start, Some(end), StepModel::Num(n), plain, outs);
            &&& r0 matches Ok(ResultModel::Regex(s0)) && {
                &&& options.capture ==> r == Ok::<ResultModel, ErrorModel>(
                    ResultModel::Regex(seq!['('] + open_groups(s0) + seq![')']),
                )
                &&& !options.capture && options.wrap ==> r == Ok::<ResultModel, ErrorModel>(
                    ResultModel::Regex(seq!['(', '?', ':'] + s0 + seq![')']),
                )
                &&& !options.capture && !options.wrap ==> r == r0
            }
        }),
{
    let a = crate::value::value_int(start)->Some_0 as int;
    let b = crate::value::value_int(end)->Some_0 as int;
    let st = value_text(start);
    let et = value_text(end);
    let tn = int_text(n as int);
    let padded = has_leading_zero(st) || has_leading_zero(et) || has_leading_zero(tn);
    let width = if padded {
        max2(max2(st.len() as int, et.len() as int), tn.len() as int)
    } else {
        0
    };
    let values = walk(a, b, step_size(n as int), a > b);
    let pos = crate::sort_spec(crate::nonnegatives(values));
    let neg = crate::sort_spec(crate::negative_magnitudes(values));
    assert(step_size(n as int) > 1);
    lemma_sequence_open_groups(pos, neg, width);
    let plain = OptionsModel { capture: false, wrap: false, ..options };
    let s0 = crate::sequence_spec(pos, neg, false, false, width);
    assert(checked_spec(start, Some(end), StepModel::Num(n), plain, outs) == Ok::<
        ResultModel,
        ErrorModel,
    >(ResultModel::Regex(s0)));
    let body_c = crate::sequence_spec(pos, neg, true, false, width);
    let body_w = crate::sequence_spec(pos, neg, false, false, width);
    assert(crate::sequence_spec(pos, neg, true, true, width) =~= seq!['('] + body_c + seq![')']);
    assert(crate::sequence_spec(pos, neg, false, true, width) =~= seq!['(', '?', ':'] + body_w
        + seq![')']);
    if options.capture {
        assert(crate::adjust(options).wrap);
        assert(checked_spec(start, Some(end), StepModel::Num(n), options, outs) == Ok::<
            ResultModel,
            ErrorModel,
        >(ResultModel::Regex(crate::sequence_spec(pos, neg, true, true, width))));
    } else if options.wrap {
        assert(checked_spec(start, Some(end), StepModel::Num(n), options, outs) == Ok::<
            ResultModel,
            ErrorModel,
        >(ResultModel::Regex(crate::sequence_spec(pos, neg, false, true, width))));
    } else {
        assert(options == plain);
    }
}

/// An upward walk by `size` lists `a, a + size, a + 2 * size, ...` up to `b`.
#[verifier::rlimit(30)]
#[verifier::spinoff_prover]
proof fn lemma_walk_up_by(a: int, b: int, size: int)
    requires
        size >= 1,
        a <= b,
    ensures
        walk(a, b, size, false) =~= Seq::new(
            ((b - a) / size + 1) as nat,
            |k: int| a + k * size,
        ),
    decreases b - a,
{
    assert(walk(a, b, size, false) == seq![a] + walk(a + size, b, size, false));
    if a + size <= b {
        lemma_walk_up_by(a + size, b, size);
        let q = (b - a) / size;
        let r = (b - a) % size;
        vstd::arithmetic::div_mod::lemma_fundamental_div_mod(b - a, size);
        assert(b - a - size == size * (q - 1) + r) by (nonlinear_arith)
            requires
                b - a == size * q + r,
        ;
        vstd::arithmetic::div_mod::lemma_fundamental_div_mod_converse(b - a - size, size, q - 1, r);
        let w = walk(a, b, size, false);
        let t = walk(a + size, b, size, false);
        assert(w == seq![a] + t);
        assert forall|k: int| 0 <= k < (b - a) / size + 1 implies #[trigger] w[k] == a + k * size by {
            if k == 0 {
                assert(w[0] == a);
                assert(0 * size == 0) by (nonlinear_arith);
            } else {
                assert(w[k] == t[k - 1]);
                assert(t[k - 1] == (a + size) + (k - 1) * size);
                assert(size + (k - 1) * size == k * size) by (nonlinear_arith);
            }
        }
    } else {
        assert(walk(a + size, b, size, false) == Seq::<int>::empty());
        vstd::arithmetic::div_mod::lemma_fundamental_div_mod_converse(b - a, size, 0, b - a);
    }
}

/// Non-negative values keep all their members and have no negative ones.
proof fn lemma_signs_of_nonnegatives(s: Seq<int>)
    requires
        forall|i: int| 0 <= i < s.len() ==> s[i] >= 0,
    ensures
        crate::nonnegatives(s) == s,
        crate::negative_magnitudes(s) == Seq::<int>::empty(),
    decreases s.len(),
{
    if s.len() > 0 {
        lemma_signs_of_nonnegatives(s.drop_last());
        assert(s.drop_last().push(s.last()) =~= s);
    }
}

/// Inserting a value above every member appends it.
proof fn lemma_insert_above(t: Seq<int>, x: int)
    requires
        forall|i: int| 0 <= i < t.len() ==> t[i] < x,
    ensures
        crate::insert_sorted_spec(t, x) == t.push(x),
    decreases t.len(),
{
    if t.len() > 0 {
        lemma_insert_above(t.drop_first(), x);
        assert(seq![t[0]] + t.drop_first().push(x) =~= t.push(x));
    }
}

/// Sorting an increasing sequence leaves it as it is.
proof fn lemma_sort_increasing(s: Seq<int>)
    requires
        forall|i: int, j: int| 0 <= i < j < s.len() ==> s[i] < s[j],
    ensures
        crate::sort_spec(s) == s,
    decreases s.len(),
{
    if s.len() > 0 {
        lemma_sort_increasing(s.drop_last());
        lemma_insert_above(s.drop_last(), s.last());
        assert(s.drop_last().push(s.last()) =~= s);
    }
}

/// A stepped regex over non-negative bounds written without leading zeros,
/// with no grouping asked for, is the decimal texts of the walk's members
/// `a, a + size, ...` (up to `b`), in that order, joined by `|`.
#[verifier::rlimit(30)]
#[verifier::spinoff_prover]
pub proof fn law_stepped_regex_lists_members(
    start: ValueModel,
    end: ValueModel,
    n: i64,
    options: OptionsModel,
    outs: Seq<ItemModel>,
)
    requires
        crate::value::value_valid(start),
        crate::value::value_valid(end),
        value_is_number(start),
        value_is_number(end),
        0 <= crate::value::value_int(start)->Some_0 <= crate::value::value_int(end)->Some_0,
        !has_leading_zero(value_text(start)),
        !has_leading_zero(value_text(end)),
        n != 0,
        n != 1,
        n != -1,
        options.to_regex,
        !options.capture,
        !options.wrap,
    ensures
        ({
            let a = crate::value::value_int(start)->Some_0 as int;
            let b = crate::value::value_int(end)->Some_0 as int;
            let size = step_size(n as int);
            checked_spec(start, Some(end), StepModel::Num(n), options, outs) == Ok::<
                ResultModel,
                ErrorModel,
            >(
                ResultModel::Regex(
                    crate::text::join(
                        Seq::new(((b - a) / size + 1) as nat, |k: int| int_text(a + k * size)),
                        seq!['|'],
                    ),
                ),
            )
        }),
{
    let a = crate::value::value_int(start)->Some_0 as int;
    let b = crate::value::value_int(end)->Some_0 as int;
    let size = step_size(n as int);
    lemma_int_text_unpadded(n as int);
    lemma_walk_up_by(a, b, size);
    let values = walk(a, b, size, false);
    assert forall|i: int, j: int| 0 <= i < j < values.len() implies values[i] < values[j] by {
        assert(i * size < j * size) by (nonlinear_arith)
            requires
                i < j,
                size >= 1,
        ;
    }
    assert forall|i: int| 0 <= i < values.len() implies values[i] >= 0 by {
        assert(i * size >= 0) by (nonlinear_arith)
            requires
                i >= 0,
                size >= 1,
        ;
    }
    lemma_signs_of_nonnegatives(values);
    lemma_sort_increasing(values);
    assert(crate::sort_spec(Seq::<int>::empty()) == Seq::<int>::empty());
    let texts = Seq::new(((b - a) / size + 1) as nat, |k: int| int_text(a + k * size));
    assert(values.map_values(|v: int| to_max_len(int_text(v), 0)) =~= texts) by {
        assert forall|k: int| 0 <= k < texts.len() implies #[trigger] to_max_len(
            int_text(values[k]),
            0,
        ) == texts[k] by {
            let t = int_text(values[k]);
            assert(values[k] >= 0);
            if t.len() > 0 && t[0] == '-' {
                crate::regex_lang::lemma_nat_text_value(values[k] as nat);
                assert(crate::text::is_digit(t[0]));
            }
        }
    }
    assert(values.len() > 0);
    let body = crate::join_padded(values, 0);
    assert(crate::sequence_spec(values, Seq::empty(), false, false, 0) == body);
}

/// A downward walk by `size` lists `a, a - size, a - 2 * size, ...` down to
/// `b`.
#[verifier::rlimit(30)]
#[verifier::spinoff_prover]
proof fn lemma_walk_down_by(a: int, b: int, size: int)
    requires
        size >= 1,
        b <= a,
    ensures
        walk(a, b, size, true) =~= Seq::new(((a - b) / size + 1) as nat, |k: int| a - k * size),
    decreases a - b,
{
    assert(walk(a, b, size, true) == seq![a] + walk(a - size, b, size, true));
    if b <= a - size {
        lemma_walk_down_by(a - size, b, size);
        let q = (a - b) / size;
        let r = (a - b) % size;
        vstd::arithmetic::div_mod::lemma_fundamental_div_mod(a - b, size);
        assert(a - b - size == size * (q - 1) + r) by (nonlinear_arith)
            requires
                a - b == size * q + r,
        ;
        vstd::arithmetic::div_mod::lemma_fundamental_div_mod_converse(a - b - size, size, q - 1, r);
        let w = walk(a, b, size, true);
        let t = walk(a - size, b, size, true);
        assert(w == seq![a] + t);
        assert forall|k: int| 0 <= k < (a - b) / size + 1 implies #[trigger] w[k] == a - k * size by {
            if k == 0 {
                assert(w[0] == a);
                assert(0 * size == 0) by (nonlinear_arith);
            } else {
                assert(w[k] == t[k - 1]);
                assert(t[k - 1] == (a - size) - (k - 1) * size);
                assert(size + (k - 1) * size == k * size) by (nonlinear_arith);
            }
        }
    } else {
        assert(walk(a - size, b, size, true) == Seq::<int>::empty());
        vstd::arithmetic::div_mod::lemma_fundamental_div_mod_converse(a - b, size, 0, a - b);
    }
}

/// Negative values have no non-negative members, and their magnitudes are
/// their negations in order.
proof fn lemma_signs_of_negatives(s: Seq<int>)
    requires
        forall|i: int| 0 <= i < s.len() ==> s[i] < 0,
    ensures
        crate::nonnegatives(s) == Seq::<int>::empty(),
        crate::negative_magnitudes(s) == s.map_values(|v: int| -v),
    decreases s.len(),
{
    if s.len() > 0 {
        lemma_signs_of_negatives(s.drop_last());
        assert(s.drop_last().map_values(|v: int| -v).push(-s.last()) =~= s.map_values(
            |v: int| -v,
        ));
    }
}

/// A stepped regex over negative bounds written without leading zeros,
/// walked downwards from the first, with no grouping asked for, is a `-`
/// followed by one non-capturing group of the magnitudes of the walk's
/// members `a, a - size, ...` (down to `b`), in that order, joined by `|`.
#[verifier::rlimit(30)]
#[verifier::spinoff_prover]
pub proof fn law_stepped_regex_lists_negative_members(
    start: ValueModel,
    end: ValueModel,
    n: i64,
    options: OptionsModel,
    outs: Seq<ItemModel>,
)
    requires
        crate::value::value_valid(start),
        crate::value::value_valid(end),
        value_is_number(start),
        value_is_number(end),
        crate::value::value_int(end)->Some_0 <= crate::value::value_int(start)->Some_0 < 0,
        !has_leading_zero(value_text(start)),
        !has_leading_zero(value_text(end)),
        n != 0,
        n != 1,
        n != -1,
        options.to_regex,
        !options.capture,
        !options.wrap,
    ensures
        ({
            let a = crate::value::value_int(start)->Some_0 as int;
            let b = crate::value::value_int(end)->Some_0 as int;
            let size = step_size(n as int);
            checked_spec(start, Some(end), StepModel::Num(n), options, outs) == Ok::<
                ResultModel,
                ErrorModel,
            >(
                ResultModel::Regex(
                    seq!['-', '(', '?', ':'] + crate::text::join(
                        Seq::new(((a - b) / size + 1) as nat, |k: int| int_text(-a + k * size)),
                        seq!['|'],
                    ) + seq![')'],
                ),
            )
        }),
{
    let a = crate::value::value_int(start)->Some_0 as int;
    let b = crate::value::value_int(end)->Some_0 as int;
    let size = step_size(n as int);
    lemma_int_text_unpadded(n as int);
    lemma_walk_down_by(a, b, size);
    if a == b {
        assert(walk(a + size, b, size, false) == Seq::<int>::empty());
        assert(walk(a - size, b, size, true) == Seq::<int>::empty());
        assert(walk(a, b, size, false) =~= walk(a, b, size, true));
    }
    let values = walk(a, b, size, true);
    assert(walk(a, b, size, a > b) == values);
    assert forall|i: int| 0 <= i < values.len() implies values[i] < 0 by {
        assert(i * size >= 0) by (nonlinear_arith)
            requires
                i >= 0,
                size >= 1,
        ;
    }
    lemma_signs_of_negatives(values);
    let mags = values.map_values(|v: int| -v);
    assert forall|i: int, j: int| 0 <= i < j < mags.len() implies mags[i] < mags[j] by {
        assert(i * size < j * size) by (nonlinear_arith)
            requires
                i < j,
                size >= 1,
        ;
    }
    lemma_sort_increasing(mags);
    assert(crate::sort_spec(Seq::<int>::empty()) == Seq::<int>::empty());
    let texts = Seq::new(((a - b) / size + 1) as nat, |k: int| int_text(-a + k * size));
    assert(mags.map_values(|v: int| to_max_len(int_text(v), 0)) =~= texts) by {
        assert forall|k: int| 0 <= k < texts.len() implies #[trigger] to_max_len(
            int_text(mags[k]),
            0,
        ) == texts[k] by {
            let t = int_text(mags[k]);
            assert(mags[k] == -a + k * size);
            assert(mags[k] > 0);
            if t.len() > 0 && t[0] == '-' {
                crate::regex_lang::lemma_nat_text_value(mags[k] as nat);
                assert(crate::text::is_digit(t[0]));
            }
        }
    }
    assert(mags.len() > 0);
    let body = crate::join_padded(mags, 0);
    assert(crate::sequence_spec(Seq::empty(), mags, false, false, 0) =~= seq!['-', '(']
        + seq!['?', ':'] + body + seq![')']);
    assert(seq!['-', '('] + seq!['?', ':'] + body + seq![')'] =~= seq!['-', '(', '?', ':'] + body
        + seq![')']);
}

} // verus!
