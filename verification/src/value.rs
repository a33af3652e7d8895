//! Input and output value types, and the numeric reading of string bounds.
//!
//! A range bound is a number or a string. The library keeps the raw string form
//! because zero padding and length depend on the exact text the caller passed.

use vstd::prelude::*;
use vstd::arithmetic::div_mod::lemma_fundamental_div_mod_converse;

use crate::text::{chars_of, digit_value, int_chars, int_text, is_digit, string_of};

verus! {

/// A range bound. Callers pass numbers or strings interchangeably.
///
/// A string bound counts as a number when it reads as a decimal (optional sign,
/// digits, optional fraction, optional exponent, surrounding whitespace allowed)
/// whose exact value is an integer that fits in `i64`. Hex, octal and binary
/// literals such as `"0x10"` are not numbers.
#[derive(Clone, Debug, PartialEq, Eq, Hash)]
pub enum Value {
    /// A numeric bound such as `5` or `-10`.
    Num(i64),
    /// A string bound such as `"01"`, `"a"`, or `"-0"`.
    Str(String),
}

/// The mathematical content of a [`Value`].
pub enum ValueModel {
    Num(i64),
    Str(Seq<char>),
}

impl View for Value {
    type V = ValueModel;

    open spec fn view(&self) -> ValueModel {
        match self {
            Value::Num(n) => ValueModel::Num(*n),
            Value::Str(s) => ValueModel::Str(s@),
        }
    }
}

/// One produced element of a range. `1` and `"1"` are different elements.
#[derive(Clone, Debug, PartialEq, Eq, Hash)]
pub enum Item {
    /// A numeric element.
    Num(i64),
    /// A string element.
    Str(String),
}

/// The mathematical content of an [`Item`].
pub enum ItemModel {
    Num(i64),
    Str(Seq<char>),
}

impl View for Item {
    type V = ItemModel;

    open spec fn view(&self) -> ItemModel {
        match self {
            Item::Num(n) => ItemModel::Num(*n),
            Item::Str(s) => ItemModel::Str(s@),
        }
    }
}

impl DeepView for Item {
    type V = ItemModel;

    open spec fn deep_view(&self) -> ItemModel {
        self@
    }
}

/// The text of an item: the decimal form of a number, or the string itself.
pub open spec fn item_text(i: ItemModel) -> Seq<char> {
    match i {
        ItemModel::Num(n) => int_text(n as int),
        ItemModel::Str(s) => s,
    }
}

/// The result of an expand call.
#[derive(Clone, Debug, PartialEq)]
pub enum FillResult {
    /// A list of range elements.
    List(Vec<Item>),
    /// A regex source string, produced when `to_regex` is set.
    Regex(String),
}

/// The mathematical content of a [`FillResult`].
pub enum ResultModel {
    List(Seq<ItemModel>),
    Regex(Seq<char>),
}

impl View for FillResult {
    type V = ResultModel;

    open spec fn view(&self) -> ResultModel {
        match self {
            FillResult::List(items) => ResultModel::List(items.deep_view()),
            FillResult::Regex(s) => ResultModel::Regex(s@),
        }
    }
}

/// The text of a bound: the decimal form of a number, or the string itself.
pub open spec fn value_text(v: ValueModel) -> Seq<char> {
    match v {
        ValueModel::Num(n) => int_text(n as int),
        ValueModel::Str(s) => s,
    }
}

/// A bound is valid when it is a number or a non-empty string.
pub open spec fn value_valid(v: ValueModel) -> bool {
    match v {
        ValueModel::Num(_) => true,
        ValueModel::Str(s) => s.len() > 0,
    }
}

/// The integer a bound stands for, when it stands for one.
pub open spec fn value_int(v: ValueModel) -> Option<i64> {
    match v {
        ValueModel::Num(n) => Some(n),
        ValueModel::Str(s) => coerce_i64(s),
    }
}

/// True when a bound stands for an integer.
pub open spec fn value_is_number(v: ValueModel) -> bool {
    value_int(v) is Some
}

// ---------------------------------------------------------------------------
// Numeric coercion of strings.
// ---------------------------------------------------------------------------

/// Unicode `White_Space` characters, which surround a numeric string freely.
pub open spec fn is_space(c: char) -> bool {
    ('\u{9}' <= c && c <= '\u{d}') || c == ' ' || c == '\u{85}' || c == '\u{a0}'
        || c == '\u{1680}' || ('\u{2000}' <= c && c <= '\u{200a}') || c == '\u{2028}'
        || c == '\u{2029}' || c == '\u{202f}' || c == '\u{205f}' || c == '\u{3000}'
}

/// The text without leading whitespace.
pub open spec fn trim_start(s: Seq<char>) -> Seq<char>
    decreases s.len(),
{
    if s.len() > 0 && is_space(s[0]) {
        trim_start(s.drop_first())
    } else {
        s
    }
}

/// The text without trailing whitespace.
pub open spec fn trim_end(s: Seq<char>) -> Seq<char>
    decreases s.len(),
{
    if s.len() > 0 && is_space(s.last()) {
        trim_end(s.drop_last())
    } else {
        s
    }
}

/// The text without surrounding whitespace.
pub open spec fn trim(s: Seq<char>) -> Seq<char> {
    trim_end(trim_start(s))
}

/// `10^n`.
pub open spec fn pow10(n: nat) -> int
    decreases n,
{
    if n == 0 {
        1
    } else {
        10 * pow10((n - 1) as nat)
    }
}

/// The value of a string of decimal digits (`0` for the empty string).
pub open spec fn digits_value(s: Seq<char>) -> int
    decreases s.len(),
{
    if s.len() == 0 {
        0
    } else {
        digits_value(s.drop_last()) * 10 + digit_value(s.last())
    }
}

/// True when every character is an ASCII digit.
pub open spec fn all_digits(s: Seq<char>) -> bool {
    forall|i: int| 0 <= i < s.len() ==> is_digit(#[trigger] s[i])
}

/// The number of consecutive digits starting at position `i`.
pub open spec fn digit_run(t: Seq<char>, i: int) -> nat
    decreases t.len() - i,
{
    if 0 <= i < t.len() && is_digit(t[i]) {
        1 + digit_run(t, i + 1)
    } else {
        0
    }
}

/// One when position `i` holds a `+` or `-` sign, else zero.
pub open spec fn sign_len(t: Seq<char>, i: int) -> nat {
    if 0 <= i < t.len() && (t[i] == '+' || t[i] == '-') {
        1
    } else {
        0
    }
}

/// A decimal literal split into its parts: the value is
/// `(-1 if negative) * digits_value(mantissa) * 10^(exponent - frac_len)`.
pub struct DecimalParts {
    pub negative: bool,
    pub mantissa: Seq<char>,
    pub frac_len: nat,
    pub exponent: int,
}

/// Read a whole text as a decimal literal: an optional sign, digits with an
/// optional `.` and fraction (at least one digit in all), and an optional
/// exponent `e` or `E` with an optional sign and at least one digit.
pub open spec fn parse_decimal(t: Seq<char>) -> Option<DecimalParts> {
    let i0 = sign_len(t, 0) as int;
    let ni = digit_run(t, i0) as int;
    let i1 = i0 + ni;
    let dot = i1 < t.len() && t[i1] == '.';
    let nf = if dot { digit_run(t, i1 + 1) as int } else { 0 };
    let i2 = if dot { i1 + 1 + nf } else { i1 };
    let mantissa = t.subrange(i0, i1) + (if dot { t.subrange(i1 + 1, i2) } else { Seq::empty() });
    let negative = i0 == 1 && t[0] == '-';
    if ni + nf == 0 {
        None
    } else if i2 == t.len() {
        Some(DecimalParts { negative, mantissa, frac_len: nf as nat, exponent: 0 })
    } else if t[i2] == 'e' || t[i2] == 'E' {
        let j = i2 + 1;
        let es = sign_len(t, j) as int;
        let ne = digit_run(t, j + es) as int;
        if ne > 0 && j + es + ne == t.len() {
            let magnitude = digits_value(t.subrange(j + es, t.len() as int)) as int;
            let exponent = if es == 1 && t[j] == '-' { -magnitude } else { magnitude };
            Some(DecimalParts { negative, mantissa, frac_len: nf as nat, exponent })
        } else {
            None
        }
    } else {
        None
    }
}

/// The integer a decimal literal denotes, when its exact value is an integer.
pub open spec fn decimal_integer(p: DecimalParts) -> Option<int> {
    let m = digits_value(p.mantissa) as int;
    let f = p.frac_len as int;
    let e = p.exponent;
    let magnitude = if e >= f {
        Some(m * pow10((e - f) as nat))
    } else if m % (pow10((f - e) as nat) as int) == 0 {
        Some(m / (pow10((f - e) as nat) as int))
    } else {
        None
    };
    match magnitude {
        Some(x) => Some(if p.negative { -x } else { x }),
        None => None,
    }
}

/// The integer a string reads as when taken as a decimal number: surrounding
/// whitespace is ignored and an empty or blank string is zero. `None` when the
/// text is no decimal literal or its value is not an integer.
pub open spec fn coerce_int(s: Seq<char>) -> Option<int> {
    let t = trim(s);
    if t.len() == 0 {
        Some(0)
    } else {
        match parse_decimal(t) {
            Some(p) => decimal_integer(p),
            None => None,
        }
    }
}

/// [`coerce_int`] restricted to the integers that fit in `i64`.
pub open spec fn coerce_i64(s: Seq<char>) -> Option<i64> {
    match coerce_int(s) {
        Some(v) => if i64::MIN <= v <= i64::MAX {
            Some(v as i64)
        } else {
            None
        },
        None => None,
    }
}

// --- lemmas ----------------------------------------------------------------

pub(crate) proof fn lemma_pow10_pos(n: nat)
    ensures
        pow10(n) >= 1,
    decreases n,
{
    if n > 0 {
        lemma_pow10_pos((n - 1) as nat);
    }
}

pub(crate) proof fn lemma_pow10_add(a: nat, b: nat)
    ensures
        pow10(a + b) == pow10(a) * pow10(b),
    decreases b,
{
    if b > 0 {
        let b1 = (b - 1) as nat;
        lemma_pow10_add(a, b1);
        assert((a + b - 1) as nat == a + b1);
        assert(pow10(a + b) == 10 * pow10(a + b1));
        assert(pow10(b) == 10 * pow10(b1));
        let x = pow10(a) as int;
        let y = pow10(b1) as int;
        assert(pow10(a + b1) == x * y);
        assert(10 * (x * y) == x * (10 * y)) by (nonlinear_arith);
        assert(pow10(a + b) == x * (10 * y));
    }
}

pub(crate) proof fn lemma_pow10_19()
    ensures
        pow10(19) == 10000000000000000000nat,
{
    reveal_with_fuel(pow10, 20);
}

pub(crate) proof fn lemma_pow10_mono(a: nat, b: nat)
    requires
        a <= b,
    ensures
        pow10(a) <= pow10(b),
    decreases b,
{
    if a < b {
        lemma_pow10_mono(a, (b - 1) as nat);
        lemma_pow10_pos((b - 1) as nat);
    }
}

/// The digits of a concatenation.
pub(crate) proof fn lemma_digits_value_append(a: Seq<char>, b: Seq<char>)
    requires
        all_digits(b),
    ensures
        digits_value(a + b) == digits_value(a) * pow10(b.len()) + digits_value(b),
    decreases b.len(),
{
    if b.len() == 0 {
        assert(a + b =~= a);
    } else {
        let b0 = b.drop_last();
        assert(all_digits(b0)) by {
            assert forall|i: int| 0 <= i < b0.len() implies is_digit(#[trigger] b0[i]) by {
                assert(b0[i] == b[i]);
            }
        }
        lemma_digits_value_append(a, b0);
        assert((a + b).drop_last() =~= a + b0);
        assert((a + b).last() == b.last());
        let x = digits_value(a) as int;
        let p = pow10(b0.len()) as int;
        let y = digits_value(b0) as int;
        let d = digit_value(b.last());
        assert(pow10(b.len()) == 10 * pow10(b0.len()));
        assert(digits_value(a + b) == digits_value(a + b0) * 10 + d);
        assert(digits_value(b) == y * 10 + d);
        assert((x * p + y) * 10 == x * (10 * p) + y * 10) by (nonlinear_arith);
    }
}

/// A digit string of length `n` is below `10^n`.
pub(crate) proof fn lemma_digits_value_bound(s: Seq<char>)
    requires
        all_digits(s),
    ensures
        0 <= digits_value(s) < pow10(s.len()),
    decreases s.len(),
{
    if s.len() > 0 {
        let s0 = s.drop_last();
        assert(all_digits(s0)) by {
            assert forall|i: int| 0 <= i < s0.len() implies is_digit(#[trigger] s0[i]) by {
                assert(s0[i] == s[i]);
            }
        }
        lemma_digits_value_bound(s0);
        assert(is_digit(s[s.len() - 1]));
        let x = digits_value(s0);
        let p = pow10(s0.len());
        assert(x + 1 <= p);
        assert(pow10(s.len()) == 10 * p);
        assert(x * 10 + 10 <= p * 10) by (nonlinear_arith)
            requires
                x + 1 <= p,
        ;
    }
}

/// A digit string made only of zeros is worth zero.
pub(crate) proof fn lemma_digits_value_zeros(s: Seq<char>)
    requires
        forall|i: int| 0 <= i < s.len() ==> #[trigger] s[i] == '0',
    ensures
        digits_value(s) == 0,
    decreases s.len(),
{
    if s.len() > 0 {
        let s0 = s.drop_last();
        assert forall|i: int| 0 <= i < s0.len() implies #[trigger] s0[i] == '0' by {
            assert(s0[i] == s[i]);
        }
        lemma_digits_value_zeros(s0);
        assert(s[s.len() - 1] == '0');
    }
}

/// A digit string with a nonzero digit is worth at least one.
pub(crate) proof fn lemma_digits_value_nonzero(s: Seq<char>, k: int)
    requires
        all_digits(s),
        0 <= k < s.len(),
        s[k] != '0',
    ensures
        digits_value(s) >= 1,
    decreases s.len(),
{
    let s0 = s.drop_last();
    assert(all_digits(s0)) by {
        assert forall|i: int| 0 <= i < s0.len() implies is_digit(#[trigger] s0[i]) by {
            assert(s0[i] == s[i]);
        }
    }
    lemma_digits_value_bound(s0);
    if k == s.len() - 1 {
        assert(is_digit(s[k]));
    } else {
        assert(s0[k] == s[k]);
        lemma_digits_value_nonzero(s0, k);
        assert(is_digit(s[s.len() - 1]));
    }
}

proof fn lemma_digit_run_digits(t: Seq<char>, i: int)
    requires
        0 <= i <= t.len(),
    ensures
        i + digit_run(t, i) <= t.len(),
        forall|k: int| i <= k < i + digit_run(t, i) ==> is_digit(#[trigger] t[k]),
        i + digit_run(t, i) < t.len() ==> !is_digit(t[i + digit_run(t, i)]),
    decreases t.len() - i,
{
    if i < t.len() && is_digit(t[i]) {
        lemma_digit_run_digits(t, i + 1);
    }
}

/// A run of digits to the end of the text is as long as the rest.
proof fn lemma_digit_run_full(t: Seq<char>, i: int)
    requires
        0 <= i <= t.len(),
        forall|k: int| i <= k < t.len() ==> is_digit(#[trigger] t[k]),
    ensures
        digit_run(t, i) == t.len() - i,
    decreases t.len() - i,
{
    if i < t.len() {
        lemma_digit_run_full(t, i + 1);
    }
}

/// The decimal text of an `i64` reads back as that integer.
pub proof fn lemma_coerce_int_text(n: int)
    requires
        i64::MIN <= n <= i64::MAX,
    ensures
        coerce_i64(int_text(n)) == Some(n as i64),
{
    let t = int_text(n);
    let u: nat = if n < 0 {
        (-n) as nat
    } else {
        n as nat
    };
    crate::regex_lang::lemma_nat_text_value(u);
    let d = crate::text::nat_text(u);
    let i0: int = if n < 0 {
        1
    } else {
        0
    };
    assert(t.subrange(i0, t.len() as int) =~= d);
    assert forall|k: int| i0 <= k < t.len() implies is_digit(#[trigger] t[k]) by {
        assert(t[k] == d[k - i0]);
    }
    assert(!is_space(t[0]));
    assert(trim_start(t) == t);
    assert(!is_space(t.last())) by {
        assert(is_digit(t[t.len() - 1]));
    }
    assert(trim_end(t) == t);
    assert(sign_len(t, 0) == i0);
    lemma_digit_run_full(t, i0);
    assert(t.subrange(i0, t.len() as int) + Seq::<char>::empty() =~= d);
    assert(pow10(0) == 1);
}

// --- executable coercion --------------------------------------------------

/// True for Unicode `White_Space`.
fn space(c: char) -> (r: bool)
    ensures
        r == is_space(c),
{
    ('\u{9}' <= c && c <= '\u{d}') || c == ' ' || c == '\u{85}' || c == '\u{a0}' || c
        == '\u{1680}' || ('\u{2000}' <= c && c <= '\u{200a}') || c == '\u{2028}' || c
        == '\u{2029}' || c == '\u{202f}' || c == '\u{205f}' || c == '\u{3000}'
}

/// The characters of `s` without surrounding whitespace.
fn trim_chars(s: &Vec<char>) -> (t: Vec<char>)
    ensures
        t@ == trim(s@),
{
    let mut lo: usize = 0;
    assert(s@.skip(0) =~= s@);
    while lo < s.len() && space(s[lo])
        invariant
            lo <= s@.len(),
            trim_start(s@) == trim_start(s@.skip(lo as int)),
        decreases s@.len() - lo,
    {
        assert(s@.skip(lo as int).drop_first() =~= s@.skip(lo + 1));
        lo += 1;
    }
    assert(trim_start(s@) == s@.skip(lo as int));
    let mut hi: usize = s.len();
    while hi > lo && space(s[hi - 1])
        invariant
            lo <= hi <= s@.len(),
            trim_end(s@.skip(lo as int)) == trim_end(s@.subrange(lo as int, hi as int)),
        decreases hi,
    {
        assert(s@.subrange(lo as int, hi as int).drop_last() =~= s@.subrange(
            lo as int,
            hi - 1,
        ));
        hi -= 1;
    }
    assert(s@.skip(lo as int).subrange(0, s@.len() - lo) =~= s@.subrange(
        lo as int,
        s@.len() as int,
    ));
    assert(s@.subrange(lo as int, s@.len() as int) =~= s@.skip(lo as int));
    let mut t: Vec<char> = Vec::new();
    let mut i: usize = lo;
    while i < hi
        invariant
            lo <= i <= hi <= s@.len(),
            t@ == s@.subrange(lo as int, i as int),
        decreases hi - i,
    {
        t.push(s[i]);
        i += 1;
        assert(t@ =~= s@.subrange(lo as int, i as int));
    }
    t
}

/// Counts consecutive digits starting at `i`.
fn run_of_digits(t: &Vec<char>, i: usize) -> (n: usize)
    requires
        i <= t@.len(),
    ensures
        n == digit_run(t@, i as int),
{
    let mut j: usize = i;
    while j < t.len() && '0' <= t[j] && t[j] <= '9'
        invariant
            i <= j <= t@.len(),
            digit_run(t@, i as int) == (j - i) + digit_run(t@, j as int),
        decreases t@.len() - j,
    {
        j += 1;
    }
    j - i
}

/// The cap beyond which a magnitude no longer fits in `i64` either way.
pub const CAP: i128 = 9223372036854775809;

/// The cap on an exponent, far beyond any text length.
pub const EXP_CAP: i128 = 1000000000000000000000000000000;

/// `min(digits_value(t[from..to]), cap)`.
pub fn capped_digits_value(t: &Vec<char>, from: usize, to: usize, cap: i128) -> (r: i128)
    requires
        from <= to <= t@.len(),
        all_digits(t@.subrange(from as int, to as int)),
        1 <= cap <= EXP_CAP,
    ensures
        0 <= r,
        r as int == if digits_value(t@.subrange(from as int, to as int)) < cap {
            digits_value(t@.subrange(from as int, to as int)) as int
        } else {
            cap as int
        },
{
    let mut acc: i128 = 0;
    let mut i: usize = from;
    while i < to
        invariant
            from <= i <= to <= t@.len(),
            all_digits(t@.subrange(from as int, to as int)),
            1 <= cap <= EXP_CAP,
            0 <= acc,
            acc as int == if digits_value(t@.subrange(from as int, i as int)) < cap {
                digits_value(t@.subrange(from as int, i as int)) as int
            } else {
                cap as int
            },
        decreases to - i,
    {
        let ghost prev = t@.subrange(from as int, i as int);
        let ghost next = t@.subrange(from as int, i + 1);
        assert(next.drop_last() =~= prev);
        proof {
            let whole = t@.subrange(from as int, to as int);
            assert(all_digits(prev)) by {
                assert forall|q: int| 0 <= q < prev.len() implies is_digit(#[trigger] prev[q]) by {
                    assert(prev[q] == whole[q]);
                }
            }
            lemma_digits_value_bound(prev);
        }
        assert(t@.subrange(from as int, to as int)[i - from] == t@[i as int]);
        assert(is_digit(t@[i as int]));
        let d = (t[i] as u32 - 48) as i128;
        assert(d == digit_value(next.last()));
        assert(next.last() == t@[i as int]);
        assert(digits_value(next) == digits_value(prev) * 10 + d);
        if acc >= cap {
            assert(digits_value(prev) >= cap);
            assert(digits_value(next) >= cap) by (nonlinear_arith)
                requires
                    digits_value(next) == digits_value(prev) * 10 + d,
                    digits_value(prev) >= cap,
                    d >= 0,
                    cap >= 1,
            ;
        } else {
            let v = acc * 10 + d;
            acc = if v < cap { v } else { cap };
        }
        i += 1;
    }
    acc
}

/// `min(x * 10^k, CAP)` for `x` in `0..=CAP`.
fn capped_shift(x: i128, k: usize) -> (r: i128)
    requires
        0 <= x <= CAP,
    ensures
        r as int == if x * pow10(k as nat) < CAP {
            x * pow10(k as nat)
        } else {
            CAP as int
        },
{
    let mut acc: i128 = x;
    let mut i: usize = 0;
    assert(pow10(0) == 1);
    assert(x * pow10(0) == x);
    while i < k
        invariant
            0 <= x <= CAP,
            i <= k,
            acc as int == if x * pow10(i as nat) < CAP {
                x * pow10(i as nat)
            } else {
                CAP as int
            },
        decreases k - i,
    {
        proof {
            lemma_pow10_pos(i as nat);
            assert(pow10((i + 1) as nat) == 10 * pow10(i as nat));
            assert(x * pow10((i + 1) as nat) == (x * pow10(i as nat)) * 10) by (nonlinear_arith)
                requires
                    pow10((i + 1) as nat) == 10 * pow10(i as nat),
            ;
            assert(x * pow10(i as nat) >= 0) by (nonlinear_arith)
                requires
                    x >= 0,
                    pow10(i as nat) >= 1,
            ;
        }
        if acc < CAP {
            let v = acc * 10;
            acc = if v < CAP { v } else { CAP };
        }
        i += 1;
    }
    acc
}

proof fn lemma_run_is_digits(t: Seq<char>, i: int)
    requires
        0 <= i <= t.len(),
    ensures
        i + digit_run(t, i) <= t.len(),
        all_digits(t.subrange(i, i + digit_run(t, i))),
{
    lemma_digit_run_digits(t, i);
    let s = t.subrange(i, i + digit_run(t, i));
    assert forall|k: int| 0 <= k < s.len() implies is_digit(#[trigger] s[k]) by {
        assert(s[k] == t[i + k]);
    }
}

/// `e` is `x` with its magnitude capped at `EXP_CAP`.
spec fn saturated(e: int, x: int) -> bool {
    if x >= EXP_CAP {
        e == EXP_CAP
    } else if x <= -EXP_CAP {
        e == -EXP_CAP
    } else {
        e == x
    }
}

/// `v` with its magnitude capped at `CAP`, just beyond `i64` on both sides.
pub open spec fn clamp_cap(v: int) -> int {
    if v > CAP {
        CAP as int
    } else if v < -CAP {
        -CAP
    } else {
        v
    }
}

/// `v` when it fits in `i64`.
spec fn fit_i64(v: Option<int>) -> Option<i64> {
    match v {
        Some(x) => if i64::MIN <= x <= i64::MAX {
            Some(x as i64)
        } else {
            None
        },
        None => None,
    }
}

/// Copy `t[from..to]` onto the end of `out`.
fn push_range(out: &mut Vec<char>, t: &Vec<char>, from: usize, to: usize)
    requires
        from <= to <= t@.len(),
    ensures
        final(out)@ == old(out)@ + t@.subrange(from as int, to as int),
{
    let ghost start = out@;
    let mut k: usize = from;
    while k < to
        invariant
            from <= k <= to <= t@.len(),
            out@ == start + t@.subrange(from as int, k as int),
        decreases to - k,
    {
        out.push(t[k]);
        k += 1;
        assert(out@ =~= start + t@.subrange(from as int, k as int));
    }
}

/// Split a non-empty text into the parts of a decimal literal.
#[verifier::rlimit(40)]
fn scan_decimal(t: &Vec<char>) -> (r: Option<(bool, Vec<char>, usize, i128)>)
    requires
        t@.len() > 0,
    ensures
        r is None <==> parse_decimal(t@) is None,
        r matches Some((neg, mant, nf, e)) ==> {
            let p = parse_decimal(t@)->Some_0;
            &&& neg == p.negative
            &&& mant@ == p.mantissa
            &&& nf == p.frac_len
            &&& nf <= mant@.len() <= t@.len()
            &&& all_digits(mant@)
            &&& saturated(e as int, p.exponent)
        },
{
    let ghost tv = t@;
    let tlen = t.len();
    let i0: usize = if t[0] == '+' || t[0] == '-' { 1 } else { 0 };
    let negative = i0 == 1 && t[0] == '-';
    proof {
        lemma_run_is_digits(t@, i0 as int);
    }
    let ni = run_of_digits(t, i0);
    assert(i0 + ni <= t@.len());
    let i1 = i0 + ni;
    let dot = i1 < t.len() && t[i1] == '.';
    if dot {
        proof {
            lemma_run_is_digits(tv, i1 + 1);
        }
    }
    let nf: usize = if dot {
        run_of_digits(t, i1 + 1)
    } else {
        0
    };
    let i2: usize = if dot { i1 + 1 + nf } else { i1 };
    assert(sign_len(tv, 0) == i0);
    assert(digit_run(tv, i0 as int) == ni);
    assert(dot == (i1 < tv.len() && tv[i1 as int] == '.'));
    if ni + nf == 0 {
        return None;
    }
    let mut mant: Vec<char> = Vec::new();
    push_range(&mut mant, t, i0, i1);
    if dot {
        push_range(&mut mant, t, i1 + 1, i2);
    }
    let ghost mantissa = t@.subrange(i0 as int, i1 as int) + (if dot {
        t@.subrange(i1 + 1, i2 as int)
    } else {
        Seq::empty()
    });
    assert(mant@ =~= mantissa);
    assert(all_digits(mant@)) by {
        assert forall|q: int| 0 <= q < mant@.len() implies is_digit(#[trigger] mant@[q]) by {
            if q < ni {
                assert(mant@[q] == t@.subrange(i0 as int, i1 as int)[q]);
            } else {
                assert(mant@[q] == t@.subrange(i1 + 1, i2 as int)[q - ni]);
            }
        }
    }
    let mut exponent: i128 = 0;
    if i2 < t.len() {
        if !(t[i2] == 'e' || t[i2] == 'E') {
            return None;
        }
        let j = i2 + 1;
        let es: usize = if j < t.len() && (t[j] == '+' || t[j] == '-') { 1 } else { 0 };
        proof {
            lemma_run_is_digits(tv, (j + es) as int);
        }
        let ne = run_of_digits(t, j + es);
        if !(ne > 0 && j + es + ne == t.len()) {
            return None;
        }
        let magnitude = capped_digits_value(t, j + es, t.len(), EXP_CAP);
        exponent = if es == 1 && t[j] == '-' { -magnitude } else { magnitude };
    }
    Some((negative, mant, nf, exponent))
}

/// The integer a decimal literal denotes, given its parts with the exponent
/// capped in magnitude, when that integer fits in `i64`.
fn integer_of(negative: bool, mant: &Vec<char>, nf: usize, e: i128, Ghost(x): Ghost<int>) -> (r:
    Option<i128>)
    requires
        all_digits(mant@),
        nf <= mant@.len(),
        saturated(e as int, x),
    ensures
        r == (match decimal_integer(
            DecimalParts { negative, mantissa: mant@, frac_len: nf as nat, exponent: x },
        ) {
            Some(v) => Some(clamp_cap(v) as i128),
            None => None,
        }),
{
    let ghost p = DecimalParts { negative, mantissa: mant@, frac_len: nf as nat, exponent: x };
    let len = mant.len();
    let ghost m = digits_value(mant@);
    proof {
        lemma_digits_value_bound(mant@);
        assert(mant@.subrange(0, len as int) =~= mant@);
    }
    let shift: i128 = e - nf as i128;
    let magnitude: i128;
    if shift >= 0 {
        // The value is m * 10^(x - f).
        assert(x >= nf);
        let mv = capped_digits_value(mant, 0, len, CAP);
        if mv == 0 {
            proof {
                assert(m == 0);
                assert(m * pow10((x - nf) as nat) == 0);
            }
            magnitude = 0;
        } else if shift > 19 {
            proof {
                assert(x - nf >= 20);
                lemma_pow10_mono(19, (x - nf) as nat);
                lemma_pow10_19();
                assert(m >= 1);
                lemma_pow10_pos((x - nf) as nat);
                assert(m * pow10((x - nf) as nat) >= pow10((x - nf) as nat)) by (nonlinear_arith)
                    requires
                        m >= 1,
                        pow10((x - nf) as nat) >= 1,
                ;
                assert(pow10((x - nf) as nat) >= CAP);
            }
            magnitude = CAP;
        } else {
            assert(x == e);
            magnitude = capped_shift(mv, shift as usize);
            proof {
                lemma_pow10_pos(shift as nat);
                if m >= CAP {
                    assert(m * pow10(shift as nat) >= m) by (nonlinear_arith)
                        requires
                            pow10(shift as nat) >= 1,
                            m >= 0,
                    ;
                    assert(mv as int * pow10(shift as nat) >= CAP) by (nonlinear_arith)
                        requires
                            mv == CAP,
                            pow10(shift as nat) >= 1,
                    ;
                }
            }
        }
    } else {
        // The value is m / 10^(f - x) when that division is exact.
        let n: i128 = -shift;
        assert(x < nf);
        assert(n == nf - x || (x <= -EXP_CAP && n > len));
        if n > len as i128 {
            // m < 10^len <= 10^(f - x), so m divides evenly only when it is zero.
            let mut all_zero = true;
            let mut q: usize = 0;
            while q < len
                invariant
                    q <= len == mant@.len(),
                    all_zero == (forall|r: int| 0 <= r < q ==> mant@[r] == '0'),
                decreases len - q,
            {
                if mant[q] != '0' {
                    all_zero = false;
                }
                q += 1;
            }
            proof {
                let d = pow10((nf - x) as nat) as int;
                lemma_pow10_mono(len as nat, (nf - x) as nat);
                lemma_pow10_pos((nf - x) as nat);
                if all_zero {
                    lemma_digits_value_zeros(mant@);
                    lemma_fundamental_div_mod_converse(0, d, 0, 0);
                } else {
                    let r = choose|r: int| 0 <= r < len && mant@[r] != '0';
                    lemma_digits_value_nonzero(mant@, r);
                    lemma_fundamental_div_mod_converse(m as int, d, 0, m as int);
                }
            }
            if all_zero {
                return Some(0);
            }
            return None;
        }
        assert(n == nf - x);
        // The last n digits must all be zeros.

        let cut: usize = len - n as usize;
        let mut tail_zero = true;
        let mut q: usize = cut;
        while q < len
            invariant
                cut <= q <= len == mant@.len(),
                tail_zero == (forall|r: int| cut <= r < q ==> mant@[r] == '0'),
            decreases len - q,
        {
            if mant[q] != '0' {
                tail_zero = false;
            }
            q += 1;
        }
        let ghost head = mant@.subrange(0, cut as int);
        let ghost tail = mant@.subrange(cut as int, len as int);
        proof {
            assert(mant@ =~= head + tail);
            lemma_digits_value_append(head, tail);
            assert(all_digits(tail)) by {
                assert forall|r: int| 0 <= r < tail.len() implies is_digit(#[trigger] tail[r]) by {
                    assert(tail[r] == mant@[cut + r]);
                }
            }
            lemma_digits_value_bound(tail);
            assert(tail.len() == n);
            lemma_pow10_pos(n as nat);
        }
        if !tail_zero {
            proof {
                let d = pow10(n as nat) as int;
                let r = choose|r: int| cut <= r < len && mant@[r] != '0';
                assert(tail[r - cut] == mant@[r]);
                lemma_digits_value_nonzero(tail, r - cut);
                lemma_fundamental_div_mod_converse(
                    m as int,
                    d,
                    digits_value(head) as int,
                    digits_value(tail) as int,
                );
            }
            return None;
        }
        assert(all_digits(head)) by {
            assert forall|r: int| 0 <= r < head.len() implies is_digit(#[trigger] head[r]) by {
                assert(head[r] == mant@[r]);
            }
        }
        let mv = capped_digits_value(mant, 0, cut, CAP);
        proof {
            let d = pow10(n as nat) as int;
            assert forall|r: int| 0 <= r < tail.len() implies #[trigger] tail[r] == '0' by {
                assert(tail[r] == mant@[cut + r]);
            }
            lemma_digits_value_zeros(tail);
            lemma_fundamental_div_mod_converse(m as int, d, digits_value(head) as int, 0);
        }
        magnitude = mv;
    }
    if negative {
        Some(-magnitude)
    } else {
        Some(magnitude)
    }
}

/// The decimal integer a trimmed, non-empty text denotes.
fn decimal_value(t: &Vec<char>) -> (r: Option<i64>)
    requires
        t@.len() > 0,
    ensures
        r == (match parse_decimal(t@) {
            Some(p) => fit_i64(decimal_integer(p)),
            None => None,
        }),
{
    match wide_decimal_value(t) {
        None => None,
        Some(v) => if -9223372036854775808 <= v && v <= 9223372036854775807 {
            Some(v as i64)
        } else {
            None
        },
    }
}

/// The decimal integer a trimmed, non-empty text denotes, its magnitude
/// capped just beyond `i64`.
fn wide_decimal_value(t: &Vec<char>) -> (r: Option<i128>)
    requires
        t@.len() > 0,
    ensures
        r == (match parse_decimal(t@) {
            Some(p) => match decimal_integer(p) {
                Some(v) => Some(clamp_cap(v) as i128),
                None => None,
            },
            None => None,
        }),
{
    match scan_decimal(t) {
        None => None,
        Some((negative, mant, nf, e)) => {
            let ghost p = parse_decimal(t@)->Some_0;
            let r = integer_of(negative, &mant, nf, e, Ghost(p.exponent));
            assert(p == DecimalParts { negative, mantissa: mant@, frac_len: nf as nat, exponent: p.exponent });
            r
        },
    }
}

/// The integer `s` coerces to, its magnitude capped just beyond `i64`.
pub fn coerce_wide(s: &Vec<char>) -> (r: Option<i128>)
    ensures
        r == (match coerce_int(s@) {
            Some(v) => Some(clamp_cap(v) as i128),
            None => None,
        }),
{
    let t = trim_chars(s);
    if t.len() == 0 {
        return Some(0);
    }
    wide_decimal_value(&t)
}

/// The integer `s` coerces to, when it fits in `i64`.
pub fn coerce(s: &Vec<char>) -> (r: Option<i64>)
    ensures
        r == coerce_i64(s@),
{
    let t = trim_chars(s);
    if t.len() == 0 {
        return Some(0);
    }
    decimal_value(&t)
}

// ---------------------------------------------------------------------------
// Executable views of bounds.
// ---------------------------------------------------------------------------

impl Value {
    /// The text used for length and padding decisions.
    pub fn as_text(&self) -> (t: Vec<char>)
        ensures
            t@ == value_text(self@),
    {
        match self {
            Value::Num(n) => int_chars(*n as i128),
            Value::Str(s) => chars_of(s.as_str()),
        }
    }

    /// True when the value is a non-empty string or any number.
    pub fn is_valid(&self) -> (r: bool)
        ensures
            r == value_valid(self@),
    {
        match self {
            Value::Num(_) => true,
            Value::Str(s) => {
                let c = chars_of(s.as_str());
                c.len() > 0
            },
        }
    }

    /// The integer view. String bounds are read as decimal numbers.
    pub fn to_i64(&self) -> (r: Option<i64>)
        ensures
            r == value_int(self@),
    {
        match self {
            Value::Num(n) => Some(*n),
            Value::Str(s) => coerce(&chars_of(s.as_str())),
        }
    }

    /// True when the value coerces to an integer.
    pub fn is_number(&self) -> (r: bool)
        ensures
            r == value_is_number(self@),
    {
        self.to_i64().is_some()
    }
}

impl Item {
    /// Build a numeric item.
    pub fn num(n: i64) -> (i: Item)
        ensures
            i@ == ItemModel::Num(n),
    {
        Item::Num(n)
    }

    /// The text of the item: the decimal form of a number, or the string.
    pub fn text(&self) -> (t: Vec<char>)
        ensures
            t@ == item_text(self@),
    {
        match self {
            Item::Num(n) => int_chars(*n as i128),
            Item::Str(s) => chars_of(s.as_str()),
        }
    }

    /// The text of the item as a `String`.
    pub fn to_string(&self) -> (s: String)
        ensures
            s@ == item_text(self@),
    {
        string_of(&self.text())
    }
}

impl FillResult {
    /// Borrow the list, or `None` when the result is a regex.
    pub fn as_list(&self) -> (r: Option<&[Item]>)
        ensures
            r is Some <==> self is List,
            self matches FillResult::List(items) ==> r.unwrap()@ == items@,
    {
        match self {
            FillResult::List(items) => Some(items.as_slice()),
            FillResult::Regex(_) => None,
        }
    }

    /// Borrow the regex source, or `None` when the result is a list.
    pub fn as_regex(&self) -> (r: Option<&str>)
        ensures
            r is Some <==> self is Regex,
            self matches FillResult::Regex(s) ==> r.unwrap()@ == s@,
    {
        match self {
            FillResult::Regex(s) => Some(s.as_str()),
            FillResult::List(_) => None,
        }
    }

    /// Take the list, or `None` when the result is a regex.
    pub fn into_list(self) -> (r: Option<Vec<Item>>)
        ensures
            r is Some <==> self is List,
            self matches FillResult::List(items) ==> r.unwrap() == items,
    {
        match self {
            FillResult::List(items) => Some(items),
            FillResult::Regex(_) => None,
        }
    }

    /// Take the regex source, or `None` when the result is a list.
    pub fn into_regex(self) -> (r: Option<String>)
        ensures
            r is Some <==> self is Regex,
            self matches FillResult::Regex(s) ==> r.unwrap() == s,
    {
        match self {
            FillResult::Regex(s) => Some(s),
            FillResult::List(_) => None,
        }
    }

    /// Borrow the list of a result that is known to be a list.
    pub fn expect_list(&self) -> (r: &[Item])
        requires
            self is List,
        ensures
            self matches FillResult::List(items) && r@ == items@,
    {
        match self {
            FillResult::List(items) => items.as_slice(),
            FillResult::Regex(_) => {
                proof {
                    assert(false);
                }
                &[]
            },
        }
    }

    /// Borrow the regex source of a result that is known to be a regex.
    pub fn expect_regex(&self) -> (r: &str)
        requires
            self is Regex,
        ensures
            self matches FillResult::Regex(s) && r@ == s@,
    {
        match self {
            FillResult::Regex(s) => s.as_str(),
            FillResult::List(_) => {
                proof {
                    assert(false);
                }
                ""
            },
        }
    }

    /// Collect the list as plain strings, or `None` when the result is a regex.
    pub fn to_string_list(&self) -> (r: Option<Vec<String>>)
        ensures
            r is Some <==> self is List,
            self matches FillResult::List(items) ==> r.unwrap()@.len() == items@.len()
                && forall|i: int|
                0 <= i < items@.len() ==> #[trigger] r.unwrap()@[i]@ == item_text(items@[i]@),
    {
        match self {
            FillResult::List(items) => {
                let mut out: Vec<String> = Vec::new();
                let mut i: usize = 0;
                while i < items.len()
                    invariant
                        i <= items@.len(),
                        out@.len() == i,
                        forall|j: int| 0 <= j < i ==> #[trigger] out@[j]@ == item_text(items@[j]@),
                    decreases items@.len() - i,
                {
                    out.push(items[i].to_string());
                    i += 1;
                }
                Some(out)
            },
            FillResult::Regex(_) => None,
        }
    }
}

impl vstd::std_specs::convert::FromSpecImpl<i64> for Value {
    open spec fn obeys_from_spec() -> bool {
        true
    }

    open spec fn from_spec(v: i64) -> Value {
        Value::Num(v)
    }
}

impl From<i64> for Value {
    fn from(n: i64) -> (v: Value)
        ensures
            v == Value::Num(n),
    {
        Value::Num(n)
    }
}

impl vstd::std_specs::convert::FromSpecImpl<&str> for Value {
    open spec fn obeys_from_spec() -> bool {
        false
    }

    open spec fn from_spec(v: &str) -> Value {
        Value::Str(choose|s: String| s@ == v@)
    }
}

impl From<&str> for Value {
    fn from(s: &str) -> (v: Value)
        ensures
            v@ == ValueModel::Str(s@),
    {
        Value::Str(String::from_str(s))
    }
}

impl vstd::std_specs::convert::FromSpecImpl<String> for Value {
    open spec fn obeys_from_spec() -> bool {
        true
    }

    open spec fn from_spec(v: String) -> Value {
        Value::Str(v)
    }
}

impl From<String> for Value {
    fn from(s: String) -> (v: Value)
        ensures
            v == Value::Str(s),
    {
        Value::Str(s)
    }
}

} // verus!
