//! What the patterns built for a range of integers match.
//!
//! A pattern is an alternation of signed pieces. Each piece is an optional
//! minus sign, a run of zeros, a run of literal digits, at most one digit
//! class, and a run of free digits repeated between two counts. This module
//! gives that shape a source text and a meaning, and proves that the pattern
//! built for `[x, y]` is the source of such an alternation whose pieces
//! together match the decimal texts of `x..=y` and nothing else, and what
//! the pattern for zero-padded bounds matches.

use vstd::prelude::*;

use crate::regex_range::{
    collate_spec, contains_string, filter_spec, zero_prefix, abs, group, has_padding_spec, increasing,
    parse_i64_spec, plain_group, ranges_spec, regex_range_spec, sorted_listing, split_spec,
    tokens_from, add_token, any_digit, char_class, common_len, quantifier, range_pattern, scan_digits,
    TokenModel, lemma_concat_contains, lemma_nines_above, lemma_round_down_below,
    lemma_single_contains, nine_stops, nines, round_down, stop_set, zero_stops,
};
use crate::text::{digit_char, digit_value, int_text, is_digit, join, left_pad, nat_text, zero_run};
use crate::value::{
    all_digits, digits_value, lemma_digits_value_append, lemma_digits_value_bound,
    lemma_digits_value_nonzero, lemma_pow10_19, lemma_pow10_add, lemma_pow10_mono, lemma_pow10_pos,
    pow10,
};
use vstd::arithmetic::div_mod::{
    lemma_div_denominator, lemma_div_is_ordered, lemma_fundamental_div_mod,
    lemma_fundamental_div_mod_converse, lemma_mod_bound, lemma_mod_multiples_basic,
};

verus! {

// ---------------------------------------------------------------------------
// The shape of a generated alternative and its meaning.
// ---------------------------------------------------------------------------

/// One alternative of a generated pattern: the digits `lits`, matched
/// literally, then one digit from the class `lo..=hi` when there is one, then
/// between `fewest` and `most` arbitrary digits.
pub struct Piece {
    pub lits: Seq<char>,
    pub class: Option<(char, char)>,
    pub fewest: nat,
    pub most: nat,
}

/// The source of the digit class of a piece.
pub open spec fn class_source(class: Option<(char, char)>) -> Seq<char> {
    match class {
        Some((lo, hi)) => char_class(lo, hi),
        None => Seq::empty(),
    }
}

/// The number of characters the class of a piece matches.
pub open spec fn class_width(class: Option<(char, char)>) -> nat {
    if class is Some {
        1
    } else {
        0
    }
}

/// The source of a piece without its repetition count.
pub open spec fn piece_head(p: Piece, shorthand: bool) -> Seq<char> {
    p.lits + class_source(p.class) + (if p.most > 0 {
        any_digit(shorthand)
    } else {
        Seq::empty()
    })
}

/// The repetition count of the free digits: `{f,m}`, `{m}`, or nothing for a
/// single digit.
pub open spec fn repeat_source(fewest: nat, most: nat) -> Seq<char> {
    if fewest < most {
        seq!['{'] + nat_text(fewest) + seq![','] + nat_text(most) + seq!['}']
    } else if most > 1 {
        seq!['{'] + nat_text(most) + seq!['}']
    } else {
        Seq::empty()
    }
}

/// The regex source of a piece.
pub open spec fn piece_source(p: Piece, shorthand: bool) -> Seq<char> {
    piece_head(p, shorthand) + repeat_source(p.fewest, p.most)
}

/// True when the piece matches the whole of `w`.
pub open spec fn piece_matches(p: Piece, w: Seq<char>) -> bool {
    let head = p.lits.len() + class_width(p.class);
    &&& head <= w.len()
    &&& p.fewest <= w.len() - head <= p.most
    &&& w.take(p.lits.len() as int) == p.lits
    &&& match p.class {
        Some((lo, hi)) => lo <= w[p.lits.len() as int] <= hi,
        None => true,
    }
    &&& forall|i: int| head <= i < w.len() ==> is_digit(#[trigger] w[i])
}

/// True when some piece of `ps` matches the whole of `w`.
pub open spec fn alternation_matches(ps: Seq<Piece>, w: Seq<char>) -> bool {
    exists|i: int| 0 <= i < ps.len() && piece_matches(ps[i], w)
}

/// True when `w` is the decimal text of an integer in `lo..=hi`.
pub open spec fn names_one_of(lo: int, hi: int, w: Seq<char>) -> bool {
    exists|v: nat| lo <= v <= hi && w == #[trigger] nat_text(v)
}

// ---------------------------------------------------------------------------
// Decimal texts.
// ---------------------------------------------------------------------------

/// `n` copies of `'9'`.
pub open spec fn nine_run(n: nat) -> Seq<char> {
    Seq::new(n, |i: int| '9')
}

/// `n` copies of `'0'`.
pub open spec fn zeros(n: nat) -> Seq<char> {
    Seq::new(n, |i: int| '0')
}

/// The decimal text of `n` is a non-empty digit string worth `n`, with no
/// leading zero.
pub(crate) proof fn lemma_nat_text_value(n: nat)
    ensures
        all_digits(nat_text(n)),
        digits_value(nat_text(n)) == n,
        nat_text(n).len() >= 1,
        nat_text(n).len() > 1 ==> nat_text(n)[0] != '0',
        n >= 1 ==> nat_text(n)[0] != '0',
    decreases n,
{
    if n < 10 {
        let s = nat_text(n);
        assert(s =~= seq![digit_char(n as int)]);
        assert(s.drop_last() =~= Seq::<char>::empty());
        assert(digits_value(s.drop_last()) == 0);
        assert(s.last() == digit_char(n as int));
        assert(is_digit(s[0]));
    } else {
        let q = n / 10;
        lemma_nat_text_value(q);
        let s = nat_text(n);
        let c = digit_char((n % 10) as int);
        assert(s == nat_text(q).push(c));
        assert(s.drop_last() =~= nat_text(q));
        assert(digit_value(c) == n % 10);
        assert forall|i: int| 0 <= i < s.len() implies is_digit(#[trigger] s[i]) by {
            if i < s.len() - 1 {
                assert(s[i] == nat_text(q)[i]);
            }
        }
        assert(s[0] == nat_text(q)[0]);
    }
}

/// A non-empty digit string without a leading zero is the decimal text of its
/// value.
proof fn lemma_text_canonical(w: Seq<char>)
    requires
        all_digits(w),
        w.len() >= 1,
        w.len() > 1 ==> w[0] != '0',
    ensures
        digits_value(w) >= 0,
        nat_text(digits_value(w) as nat) == w,
    decreases w.len(),
{
    lemma_digits_value_bound(w);
    let w0 = w.drop_last();
    let c = w.last();
    assert(is_digit(w[w.len() - 1]));
    if w.len() == 1 {
        assert(w0 =~= Seq::<char>::empty());
        assert(digits_value(w0) == 0);
        assert(digits_value(w) == digit_value(c));
        assert(digit_char(digit_value(c)) == c);
        assert(nat_text(digits_value(w) as nat) =~= w);
    } else {
        assert(all_digits(w0)) by {
            assert forall|i: int| 0 <= i < w0.len() implies is_digit(#[trigger] w0[i]) by {
                assert(w0[i] == w[i]);
            }
        }
        assert(w0[0] == w[0]);
        lemma_text_canonical(w0);
        lemma_digits_value_nonzero(w0, 0);
        let v = digits_value(w);
        let v0 = digits_value(w0);
        assert(v == v0 * 10 + digit_value(c));
        assert(v >= 10);
        assert(v / 10 == v0);
        assert(v % 10 == digit_value(c));
        assert(digit_char(digit_value(c)) == c);
        assert(nat_text(v as nat) == nat_text(v0 as nat).push(c));
        assert(w =~= w0.push(c));
    }
}

/// A larger natural number never has a shorter decimal text.
pub(crate) proof fn lemma_nat_text_len_mono(u: nat, v: nat)
    requires
        u <= v,
    ensures
        nat_text(u).len() <= nat_text(v).len(),
{
    lemma_nat_text_len(u);
    lemma_nat_text_len(v);
    if nat_text(u).len() > nat_text(v).len() {
        lemma_pow10_mono(nat_text(v).len(), (nat_text(u).len() - 1) as nat);
    }
}

/// The length of a decimal text bounds the number.
pub(crate) proof fn lemma_nat_text_len(n: nat)
    ensures
        n < pow10(nat_text(n).len()),
        nat_text(n).len() >= 2 ==> pow10((nat_text(n).len() - 1) as nat) <= n,
    decreases n,
{
    if n < 10 {
        assert(pow10(1) == 10) by {
            reveal_with_fuel(pow10, 2);
        }
    } else {
        let q = n / 10;
        lemma_nat_text_len(q);
        let l = nat_text(q).len();
        assert(nat_text(n).len() == l + 1);
        assert(pow10(l + 1) == 10 * pow10(l));
        if l >= 2 {
            assert(pow10(l) == 10 * pow10((l - 1) as nat));
        } else {
            lemma_nat_text_value(q);
            assert(pow10(1) == 10) by {
                reveal_with_fuel(pow10, 2);
            }
        }
    }
}

// ---------------------------------------------------------------------------
// Arithmetic on multiples of powers of ten.
// ---------------------------------------------------------------------------

/// Floor division by a positive `d` brackets `x`.
proof fn lemma_floor(x: int, d: int)
    requires
        d > 0,
    ensures
        (x / d) * d <= x < (x / d) * d + d,
        x % d == x - (x / d) * d,
{
    lemma_fundamental_div_mod(x, d);
    lemma_mod_bound(x, d);
    assert(d * (x / d) == (x / d) * d) by (nonlinear_arith);
}

/// The quotient of an `x` that lies in `[q * d, q * d + d)`.
proof fn lemma_quotient(x: int, d: int, q: int)
    requires
        d > 0,
        q * d <= x < q * d + d,
    ensures
        x / d == q,
        x % d == x - q * d,
{
    lemma_fundamental_div_mod_converse(x, d, q, x - q * d);
}

/// Two multiples of `d`, the first below the second, lie at least `d` apart.
proof fn lemma_multiples_apart(a: int, b: int, d: int)
    requires
        d > 0,
        a % d == 0,
        b % d == 0,
        a < b,
    ensures
        a + d <= b,
{
    lemma_floor(a, d);
    lemma_floor(b, d);
    let qa = a / d;
    let qb = b / d;
    assert(qa < qb) by (nonlinear_arith)
        requires
            a == qa * d,
            b == qb * d,
            a < b,
            d > 0,
    ;
    assert((qa + 1) * d <= qb * d) by (nonlinear_arith)
        requires
            qa + 1 <= qb,
            d > 0,
    ;
    assert((qa + 1) * d == qa * d + d) by (nonlinear_arith);
}

/// `q * d` is a multiple of `d`.
proof fn lemma_multiple(q: int, d: int)
    requires
        d > 0,
    ensures
        (q * d) % d == 0,
{
    lemma_mod_multiples_basic(q, d);
}

/// `10^(k+1) = 10 * 10^k`, and powers of ten grow strictly.
proof fn lemma_pow10_next(k: nat)
    ensures
        pow10(k + 1) == 10 * pow10(k),
        pow10(k) < pow10(k + 1),
        pow10(k) >= 1,
{
    lemma_pow10_pos(k);
}

/// Powers of ten grow strictly.
proof fn lemma_pow10_strict(i: nat, j: nat)
    requires
        i < j,
    ensures
        pow10(i) < pow10(j),
{
    lemma_pow10_next(i);
    lemma_pow10_mono(i + 1, j);
}

/// A multiple of `10^j` is a multiple of `10^i` for `i <= j`.
proof fn lemma_aligned_down(x: int, i: nat, j: nat)
    requires
        i <= j,
        x % pow10(j) == 0,
    ensures
        x % pow10(i) == 0,
{
    let e = (j - i) as nat;
    lemma_pow10_add(i, e);
    assert(i + e == j);
    lemma_pow10_pos(i);
    lemma_pow10_pos(j);
    lemma_floor(x, pow10(j));
    let q = x / pow10(j);
    let pi = pow10(i);
    let pe = pow10(e);
    assert(x == (q * pe) * pi) by (nonlinear_arith)
        requires
            x == q * pow10(j),
            pow10(j) == pi * pe,
    ;
    lemma_multiple(q * pe, pi);
}

/// Rounding down to a multiple of `10^z`.
proof fn lemma_round_down(x: int, z: nat)
    ensures
        round_down(x, z) == (x / pow10(z)) * pow10(z),
        round_down(x, z) <= x < round_down(x, z) + pow10(z),
        round_down(x, z) % pow10(z) == 0,
{
    lemma_pow10_pos(z);
    lemma_floor(x, pow10(z));
    lemma_multiple(x / pow10(z), pow10(z));
}

/// The end of the run of `10^k` numbers that holds `m`.
proof fn lemma_nines_shape(m: int, k: nat)
    ensures
        nines(m, k) + 1 == (m / pow10(k)) * pow10(k) + pow10(k),
        nines(m, k) - pow10(k) < m <= nines(m, k),
        (nines(m, k) + 1) % pow10(k) == 0,
{
    lemma_pow10_pos(k);
    lemma_floor(m, pow10(k));
    lemma_multiple(m / pow10(k) + 1, pow10(k));
    assert((m / pow10(k) + 1) * pow10(k) == (m / pow10(k)) * pow10(k) + pow10(k)) by (nonlinear_arith);
}

/// The split points of the form `...9` rise with the number of nines.
proof fn lemma_nines_step(m: int, k: nat)
    requires
        m >= 0,
    ensures
        nines(m, k) <= nines(m, k + 1),
{
    let p = pow10(k);
    lemma_pow10_next(k);
    lemma_nines_shape(m, k);
    lemma_nines_shape(m, k + 1);
    lemma_div_denominator(m, p, 10);
    assert(pow10(k + 1) == p * 10);
    let q = m / p;
    let q1 = q / 10;
    assert(m / pow10(k + 1) == q1);
    assert(q >= 0) by (nonlinear_arith)
        requires
            m >= 0,
            p > 0,
            q == m / p,
    ;
    assert(q + 1 <= (q1 + 1) * 10);
    assert((q + 1) * p <= ((q1 + 1) * 10) * p) by (nonlinear_arith)
        requires
            q + 1 <= (q1 + 1) * 10,
            p > 0,
    ;
    assert(q * p + p == (q + 1) * p) by (nonlinear_arith);
    assert(q1 * (p * 10) + p * 10 == ((q1 + 1) * 10) * p) by (nonlinear_arith);
}

/// [`lemma_nines_step`] over any distance.
proof fn lemma_nines_mono(m: int, i: nat, j: nat)
    requires
        m >= 0,
        i <= j,
    ensures
        nines(m, i) <= nines(m, j),
    decreases j - i,
{
    if i < j {
        lemma_nines_step(m, i);
        lemma_nines_mono(m, i + 1, j);
    }
}

/// Rounding down to more zeros never rises.
proof fn lemma_round_down_step(x: int, z: nat)
    requires
        x >= 0,
    ensures
        round_down(x, z + 1) <= round_down(x, z),
{
    let p = pow10(z);
    lemma_pow10_next(z);
    lemma_round_down(x, z);
    lemma_round_down(x, z + 1);
    lemma_div_denominator(x, p, 10);
    assert(pow10(z + 1) == p * 10);
    let q = x / p;
    let q1 = q / 10;
    assert(x / pow10(z + 1) == q1);
    assert(q1 * 10 <= q);
    assert((q1 * 10) * p <= q * p) by (nonlinear_arith)
        requires
            q1 * 10 <= q,
            p > 0,
    ;
    assert(q1 * (p * 10) == (q1 * 10) * p) by (nonlinear_arith);
}

/// [`lemma_round_down_step`] over any distance.
proof fn lemma_round_down_mono(x: int, i: nat, j: nat)
    requires
        x >= 0,
        i <= j,
    ensures
        round_down(x, j) <= round_down(x, i),
    decreases j - i,
{
    if i < j {
        lemma_round_down_step(x, i);
        lemma_round_down_mono(x, i + 1, j);
    }
}

// ---------------------------------------------------------------------------
// The split points.
// ---------------------------------------------------------------------------

/// The split points that `nine_stops` lists from `k` nines on.
proof fn lemma_nine_stops_members(m: int, hi: int, k: nat)
    requires
        0 <= m,
        1 <= k,
    ensures
        forall|v: int|
            nine_stops(m, hi, k).contains(v) ==> exists|j: nat|
                k <= j <= 19 && v == #[trigger] nines(m, j) && v <= hi,
        forall|j: nat|
            k <= j <= 19 && #[trigger] nines(m, j) <= hi ==> nine_stops(m, hi, k).contains(
                nines(m, j),
            ),
    decreases 20 - k,
{
    let q = nine_stops(m, hi, k);
    lemma_nines_above(m, k);
    if k <= 19 && m <= nines(m, k) && nines(m, k) <= hi {
        lemma_nine_stops_members(m, hi, k + 1);
        let rest = nine_stops(m, hi, k + 1);
        assert(q == seq![nines(m, k)] + rest);
        assert forall|v: int| q.contains(v) implies exists|j: nat|
            k <= j <= 19 && v == #[trigger] nines(m, j) && v <= hi by {
            lemma_concat_contains(seq![nines(m, k)], rest, v);
            lemma_single_contains(nines(m, k), v);
        }
        assert forall|j: nat| k <= j <= 19 && #[trigger] nines(m, j) <= hi implies q.contains(
            nines(m, j),
        ) by {
            lemma_concat_contains(seq![nines(m, k)], rest, nines(m, j));
            lemma_single_contains(nines(m, k), nines(m, j));
        }
    } else {
        assert(q =~= Seq::<int>::empty());
        assert forall|j: nat| k <= j <= 19 && #[trigger] nines(m, j) <= hi implies q.contains(
            nines(m, j),
        ) by {
            lemma_nines_mono(m, k, j);
        }
    }
}

/// The split points that `zero_stops` lists from `z` zeros on.
proof fn lemma_zero_stops_members(m: int, hi: int, z: nat)
    requires
        0 <= m <= hi,
        1 <= z,
    ensures
        forall|v: int|
            zero_stops(m, hi, z).contains(v) ==> exists|w: nat|
                z <= w <= 19 && v == #[trigger] round_down(hi + 1, w) - 1 && m < v,
        forall|w: nat|
            z <= w <= 19 && m < #[trigger] round_down(hi + 1, w) - 1 ==> zero_stops(
                m,
                hi,
                z,
            ).contains(round_down(hi + 1, w) - 1),
    decreases 20 - z,
{
    let q = zero_stops(m, hi, z);
    lemma_round_down_below(hi + 1, z);
    let c = round_down(hi + 1, z) - 1;
    if z <= 19 && m < c && c <= hi {
        lemma_zero_stops_members(m, hi, z + 1);
        let rest = zero_stops(m, hi, z + 1);
        assert(q == seq![c] + rest);
        assert forall|v: int| q.contains(v) implies exists|w: nat|
            z <= w <= 19 && v == #[trigger] round_down(hi + 1, w) - 1 && m < v by {
            lemma_concat_contains(seq![c], rest, v);
            lemma_single_contains(c, v);
        }
        assert forall|w: nat|
            z <= w <= 19 && m < #[trigger] round_down(hi + 1, w) - 1 implies q.contains(
            round_down(hi + 1, w) - 1,
        ) by {
            lemma_concat_contains(seq![c], rest, round_down(hi + 1, w) - 1);
            lemma_single_contains(c, round_down(hi + 1, w) - 1);
        }
    } else {
        assert(q =~= Seq::<int>::empty());
        assert forall|w: nat|
            z <= w <= 19 && m < #[trigger] round_down(hi + 1, w) - 1 implies q.contains(
            round_down(hi + 1, w) - 1,
        ) by {
            lemma_round_down_mono(hi + 1, z, w);
        }
    }
}

/// True when `v` is one of the split points of `[m, hi]`: the top, the end of
/// a run of nines that starts from `m`, or the number just below a round
/// number that `hi + 1` reaches.
pub open spec fn is_stop(m: int, hi: int, v: int) -> bool {
    ||| v == hi
    ||| exists|j: nat| 1 <= j <= 19 && #[trigger] nines(m, j) <= hi && v == nines(m, j)
    ||| exists|z: nat|
        1 <= z <= 19 && m < #[trigger] round_down(hi + 1, z) - 1 && v == round_down(hi + 1, z) - 1
}

/// The split-point set, described point by point.
proof fn lemma_stop_set(m: int, hi: int)
    requires
        0 <= m <= hi,
    ensures
        forall|v: int| #[trigger] stop_set(m, hi).contains(v) <==> is_stop(m, hi, v),
{
    lemma_nine_stops_members(m, hi, 1);
    lemma_zero_stops_members(m, hi, 1);
    let a = seq![hi];
    let b = nine_stops(m, hi, 1);
    let c = zero_stops(m, hi, 1);
    assert forall|v: int| #[trigger] stop_set(m, hi).contains(v) <==> is_stop(m, hi, v) by {
        lemma_concat_contains(a + b, c, v);
        lemma_concat_contains(a, b, v);
        lemma_single_contains(hi, v);
        if is_stop(m, hi, v) {
            if v != hi {
                if exists|j: nat| 1 <= j <= 19 && #[trigger] nines(m, j) <= hi && v == nines(m, j) {
                    let j = choose|j: nat| 1 <= j <= 19 && #[trigger] nines(m, j) <= hi && v == nines(m, j);
                    assert(b.contains(nines(m, j)));
                } else {
                    let z = choose|z: nat|
                        1 <= z <= 19 && m < #[trigger] round_down(hi + 1, z) - 1 && v == round_down(hi + 1, z) - 1;
                    assert(c.contains(round_down(hi + 1, z) - 1));
                }
            }
        }
    }
}


// ---------------------------------------------------------------------------
// Consecutive split points bound aligned blocks.
// ---------------------------------------------------------------------------

/// `[s, t]` is one aligned block: `s` and `t` agree above digit `k`, `s` ends
/// in `k` zeros and `t + 1` in `k` zeros, and a block starting at zero stays
/// within one digit.
pub open spec fn block(s: int, t: int, k: nat) -> bool {
    &&& s % pow10(k) == 0
    &&& (t + 1) % pow10(k) == 0
    &&& s / pow10(k + 1) == t / pow10(k + 1)
    &&& (s == 0 ==> t <= 9)
}

/// `s` is a multiple of `10^j` and the whole run of `10^j` numbers from `s`
/// lies at or below `t`.
spec fn fits(s: int, t: int, j: nat) -> bool {
    s % pow10(j) == 0 && s + pow10(j) - 1 <= t
}

/// The largest `j` from which [`fits`] stops holding, up to 18.
spec fn top_align(s: int, t: int, j: nat) -> nat
    decreases 18 - j,
{
    if j < 18 && fits(s, t, j + 1) {
        top_align(s, t, j + 1)
    } else {
        j
    }
}

/// `top_align` stops at the largest run that fits.
proof fn lemma_top_align(s: int, t: int, j: nat)
    requires
        0 <= s <= t <= 9223372036854775808,
        j <= 18,
        fits(s, t, j),
    ensures
        j <= top_align(s, t, j) <= 18,
        fits(s, t, top_align(s, t, j)),
        !fits(s, t, top_align(s, t, j) + 1),
    decreases 18 - j,
{
    if j < 18 && fits(s, t, j + 1) {
        lemma_top_align(s, t, j + 1);
    } else if j == 18 {
        lemma_pow10_19();
    }
}

/// Below the top of a block no split point hides the next multiple of
/// `10^(k+1)`: `s` and `t` agree above digit `k`.
proof fn lemma_block_prefix(m: int, hi: int, s: int, t: int, k: nat)
    requires
        0 <= m <= s <= t <= hi <= 9223372036854775808,
        s == m || is_stop(m, hi, s - 1),
        forall|v: int| s <= v < t ==> !#[trigger] is_stop(m, hi, v),
        k <= 18,
        fits(s, t, k),
        !fits(s, t, k + 1),
    ensures
        s / pow10(k + 1) == t / pow10(k + 1),
{
    let p = pow10(k);
    let p1 = pow10(k + 1);
    lemma_pow10_next(k);
    lemma_floor(s, p1);
    lemma_floor(t, p1);
    let qs = s / p1;
    let qt = t / p1;
    lemma_div_is_ordered(s, t, p1);
    if qs < qt {
        let b = qs * p1;
        let e = b + p1 - 1;
        assert(qt * p1 >= (qs + 1) * p1) by (nonlinear_arith)
            requires
                qs + 1 <= qt,
                p1 > 0,
        ;
        assert((qs + 1) * p1 == b + p1) by (nonlinear_arith)
            requires
                b == qs * p1,
        ;
        assert(t > e);
        if s % p1 == 0 {
            assert(s == b);
            assert(fits(s, t, k + 1));
        } else if m >= b {
            lemma_quotient(m, p1, qs);
            lemma_nines_shape(m, k + 1);
            assert(nines(m, k + 1) == e);
            assert(is_stop(m, hi, e));
            assert(!is_stop(m, hi, e));
        } else {
            assert(is_stop(m, hi, s - 1));
            lemma_multiple(qs, p1);
            lemma_aligned_down(b, k, k + 1);
            lemma_multiples_apart(b, s, p);
            if s - 1 == hi {
            } else if exists|j: nat|
                1 <= j <= 19 && #[trigger] nines(m, j) <= hi && s - 1 == nines(m, j) {
                let j = choose|j: nat|
                    1 <= j <= 19 && #[trigger] nines(m, j) <= hi && s - 1 == nines(m, j);
                lemma_nines_shape(m, j);
                if j >= k + 1 {
                    lemma_aligned_down(s, k + 1, j);
                } else {
                    lemma_pow10_mono(j, k);
                }
            } else {
                let z = choose|z: nat|
                    1 <= z <= 19 && m < #[trigger] round_down(hi + 1, z) - 1 && s - 1 == round_down(
                        hi + 1,
                        z,
                    ) - 1;
                lemma_round_down(hi + 1, z);
                if z >= k + 1 {
                    lemma_aligned_down(s, k + 1, z);
                } else {
                    lemma_pow10_mono(z, k);
                }
            }
        }
    }
}

/// The top of a block ends a run of `10^k` numbers.
proof fn lemma_block_top(m: int, hi: int, s: int, t: int, k: nat)
    requires
        0 <= m <= s <= t <= hi <= 9223372036854775808,
        is_stop(m, hi, t),
        forall|v: int| s <= v < t ==> !#[trigger] is_stop(m, hi, v),
        k <= 18,
        fits(s, t, k),
    ensures
        (t + 1) % pow10(k) == 0,
{
    let p = pow10(k);
    lemma_pow10_pos(k);
    if k == 0 {
        assert(p == 1);
        lemma_multiple(t + 1, 1);
    } else if (t + 1) % p != 0 {
        lemma_pow10_mono(1, k);
        assert(pow10(1) == 10) by {
            reveal_with_fuel(pow10, 2);
        }
        lemma_floor(t, p);
        lemma_floor(s, p);
        let qt = t / p;
        let t0 = qt * p;
        lemma_multiple(qt, p);
        lemma_multiple(qt + 1, p);
        assert((qt + 1) * p == t0 + p) by (nonlinear_arith)
            requires
                t0 == qt * p,
        ;
        lemma_div_is_ordered(s, t, p);
        assert((s / p) * p <= qt * p) by (nonlinear_arith)
            requires
                s / p <= qt,
                p > 0,
        ;
        assert(s <= t0);
        if t0 == s {
            assert(t + 1 == t0 + p);
        }
        lemma_multiples_apart(s, t0, p);
        assert(t + 1 < t0 + p);
        if t == hi {
            lemma_quotient(hi + 1, p, qt);
        } else if exists|j: nat| 1 <= j <= 19 && #[trigger] nines(m, j) <= hi && t == nines(m, j) {
            let j = choose|j: nat| 1 <= j <= 19 && #[trigger] nines(m, j) <= hi && t == nines(m, j);
            lemma_nines_shape(m, j);
            if j >= k {
                lemma_aligned_down(t + 1, k, j);
            } else {
                lemma_pow10_strict(j, k);
            }
            assert(false);
        } else {
            let z = choose|z: nat|
                1 <= z <= 19 && m < #[trigger] round_down(hi + 1, z) - 1 && t == round_down(hi + 1, z)
                    - 1;
            lemma_round_down(hi + 1, z);
            if z >= k {
                lemma_aligned_down(t + 1, k, z);
            } else {
                lemma_pow10_pos(z);
                lemma_aligned_down(t0 + p, z, k);
                lemma_multiples_apart(t + 1, t0 + p, pow10(z));
                lemma_quotient(hi + 1, p, qt);
            }
        }
        lemma_round_down(hi + 1, k);
        assert(round_down(hi + 1, k) == t0);
        assert(is_stop(m, hi, t0 - 1));
        assert(!is_stop(m, hi, t0 - 1));
    }
}

/// Consecutive split points bound an aligned block.
proof fn lemma_block(m: int, hi: int, s: int, t: int) -> (k: nat)
    requires
        0 <= m <= s <= t <= hi <= 9223372036854775808,
        is_stop(m, hi, t),
        s == m || is_stop(m, hi, s - 1),
        forall|v: int| s <= v < t ==> !#[trigger] is_stop(m, hi, v),
    ensures
        k <= 18,
        block(s, t, k),
{
    assert(pow10(0) == 1);
    assert(fits(s, t, 0));
    lemma_top_align(s, t, 0);
    let k = top_align(s, t, 0);
    lemma_block_prefix(m, hi, s, t, k);
    lemma_block_top(m, hi, s, t, k);
    if s == 0 && t > 9 {
        assert(pow10(1) == 10) by {
            reveal_with_fuel(pow10, 2);
        }
        assert(nines(m, 1) == 9);
        assert(is_stop(m, hi, 9));
        assert(!is_stop(m, hi, 9));
    }
    k
}


// ---------------------------------------------------------------------------
// The texts of a block.
// ---------------------------------------------------------------------------

/// The texts `s` and `t` of a block: a shared prefix `lits` without a leading
/// zero, one digit running from `a` to `b`, then `k` zeros in `s` and `k`
/// nines in `t`.
pub open spec fn text_block(
    lits: Seq<char>,
    a: char,
    b: char,
    k: nat,
    s: Seq<char>,
    t: Seq<char>,
) -> bool {
    &&& all_digits(lits)
    &&& is_digit(a)
    &&& is_digit(b)
    &&& a <= b
    &&& (lits.len() > 0 ==> lits[0] != '0')
    &&& (lits.len() == 0 && a == '0' ==> k == 0)
    &&& s == lits.push(a) + zeros(k)
    &&& t == lits.push(b) + nine_run(k)
}

/// The `k` lowest digits of `r`, with leading zeros.
pub open spec fn padded_text(r: nat, k: nat) -> Seq<char>
    decreases k,
{
    if k == 0 {
        Seq::empty()
    } else {
        padded_text(r / 10, (k - 1) as nat).push(digit_char((r % 10) as int))
    }
}

/// `padded_text(r, k)` is `k` digits worth `r`.
proof fn lemma_padded_text(r: nat, k: nat)
    requires
        r < pow10(k),
    ensures
        all_digits(padded_text(r, k)),
        padded_text(r, k).len() == k,
        digits_value(padded_text(r, k)) == r,
    decreases k,
{
    let w = padded_text(r, k);
    if k == 0 {
        assert(r == 0);
    } else {
        let k1 = (k - 1) as nat;
        assert(pow10(k) == 10 * pow10(k1));
        assert(r / 10 < pow10(k1));
        lemma_padded_text(r / 10, k1);
        let w0 = padded_text(r / 10, k1);
        assert(w.drop_last() =~= w0);
        assert(digit_value(w.last()) == r % 10);
        assert forall|i: int| 0 <= i < w.len() implies is_digit(#[trigger] w[i]) by {
            if i < w.len() - 1 {
                assert(w[i] == w0[i]);
            }
        }
    }
}

/// A run of zeros is digits worth zero.
proof fn lemma_zeros_value(k: nat)
    ensures
        all_digits(zeros(k)),
        digits_value(zeros(k)) == 0,
    decreases k,
{
    if k > 0 {
        let k1 = (k - 1) as nat;
        lemma_zeros_value(k1);
        assert(zeros(k).drop_last() =~= zeros(k1));
    } else {
        assert(zeros(k) =~= Seq::<char>::empty());
    }
}

/// A run of `k` nines is digits worth `10^k - 1`.
proof fn lemma_nine_run_value(k: nat)
    ensures
        all_digits(nine_run(k)),
        digits_value(nine_run(k)) == pow10(k) - 1,
    decreases k,
{
    if k > 0 {
        let k1 = (k - 1) as nat;
        lemma_nine_run_value(k1);
        assert(nine_run(k).drop_last() =~= nine_run(k1));
        assert(pow10(k) == 10 * pow10(k1));
    } else {
        assert(nine_run(k) =~= Seq::<char>::empty());
    }
}

/// The value of `lits`, one more digit, and a tail of `k` digits.
proof fn lemma_split_value(lits: Seq<char>, c: char, tail: Seq<char>)
    requires
        all_digits(lits),
        is_digit(c),
        all_digits(tail),
    ensures
        all_digits(lits.push(c) + tail),
        digits_value(lits.push(c) + tail) == (digits_value(lits) * 10 + digit_value(c)) * pow10(
            tail.len(),
        ) + digits_value(tail),
{
    let head = lits.push(c);
    assert(head.drop_last() =~= lits);
    assert(all_digits(head)) by {
        assert forall|i: int| 0 <= i < head.len() implies is_digit(#[trigger] head[i]) by {
            if i < lits.len() {
                assert(head[i] == lits[i]);
            }
        }
    }
    lemma_digits_value_append(head, tail);
    let w = head + tail;
    assert forall|i: int| 0 <= i < w.len() implies is_digit(#[trigger] w[i]) by {
        if i < head.len() {
            assert(w[i] == head[i]);
        } else {
            assert(w[i] == tail[i - head.len()]);
        }
    }
}

/// The decimal texts of the ends of an aligned block form a text block.
proof fn lemma_block_texts(s: int, t: int, k: nat) -> (r: (Seq<char>, char, char, nat))
    requires
        0 <= s <= t,
        block(s, t, k),
    ensures
        text_block(r.0, r.1, r.2, r.3, nat_text(s as nat), nat_text(t as nat)),
{
    if s == 0 {
        assert(t <= 9);
        let b = digit_char(t);
        assert(nat_text(0) =~= seq!['0']);
        assert(nat_text(t as nat) =~= seq![b]);
        assert(Seq::<char>::empty().push('0') + zeros(0) =~= seq!['0']);
        assert(Seq::<char>::empty().push(b) + nine_run(0) =~= seq![b]);
        (Seq::empty(), '0', b, 0)
    } else {
        let p = pow10(k);
        let p1 = pow10(k + 1);
        lemma_pow10_next(k);
        assert(p1 == p * 10);
        lemma_floor(s, p);
        lemma_floor(t, p);
        let us = s / p;
        let ut = t / p;
        lemma_div_denominator(s, p, 10);
        lemma_div_denominator(t, p, 10);
        let q = us / 10;
        assert(q == ut / 10);
        let da = us % 10;
        let db = ut % 10;
        assert(us == 10 * q + da);
        assert(ut == 10 * q + db);
        assert(s == us * p);
        let c = (t + 1) / p;
        lemma_floor(t + 1, p);
        assert(t + 1 == c * p);
        assert(t == (c - 1) * p + (p - 1)) by (nonlinear_arith)
            requires
                t + 1 == c * p,
        ;
        lemma_quotient(t, p, c - 1);
        assert(ut == c - 1);
        assert(t == ut * p + p - 1);
        lemma_div_is_ordered(s, t, p);
        assert(da <= db);
        assert(q >= 0) by (nonlinear_arith)
            requires
                s >= 0,
                p > 0,
                us == s / p,
                us == 10 * q + da,
                0 <= da < 10,
        ;
        if q == 0 {
            assert(da >= 1) by (nonlinear_arith)
                requires
                    s == us * p,
                    us == da,
                    s >= 1,
                    p > 0,
                    da >= 0,
            ;
        }
        let lits = if q >= 1 {
            nat_text(q as nat)
        } else {
            Seq::<char>::empty()
        };
        lemma_nat_text_value(q as nat);
        assert(all_digits(lits));
        assert(digits_value(lits) == q);
        let a = digit_char(da);
        let b = digit_char(db);
        assert(digit_value(a) == da);
        assert(digit_value(b) == db);
        lemma_zeros_value(k);
        lemma_nine_run_value(k);
        lemma_split_value(lits, a, zeros(k));
        lemma_split_value(lits, b, nine_run(k));
        let ws = lits.push(a) + zeros(k);
        let wt = lits.push(b) + nine_run(k);
        assert(ws[0] != '0' || ws.len() == 1) by {
            if lits.len() > 0 {
                assert(ws[0] == lits[0]);
            } else {
                assert(ws[0] == a);
            }
        }
        assert(wt[0] != '0' || wt.len() == 1) by {
            if lits.len() > 0 {
                assert(wt[0] == lits[0]);
            } else {
                assert(wt[0] == b);
            }
        }
        lemma_text_canonical(ws);
        lemma_text_canonical(wt);
        assert(digits_value(ws) == s);
        assert(digits_value(wt) == t);
        (lits, a, b, k)
    }
}


// ---------------------------------------------------------------------------
// The piece of a block matches exactly the texts of the block.
// ---------------------------------------------------------------------------

/// The piece that stands for a text block: the varying digit becomes a
/// literal when it is fixed, a free digit when it runs over all ten, and a
/// class otherwise.
pub open spec fn block_piece(lits: Seq<char>, a: char, b: char, k: nat) -> Piece {
    if a == b {
        Piece { lits: lits.push(a), class: None, fewest: k, most: k }
    } else if a == '0' && b == '9' {
        Piece { lits, class: None, fewest: k + 1, most: k + 1 }
    } else {
        Piece { lits, class: Some((a, b)), fewest: k, most: k }
    }
}

/// The smallest text of the longest words a piece matches.
pub open spec fn piece_bottom(p: Piece) -> Seq<char> {
    p.lits + (match p.class {
        Some((lo, hi)) => seq![lo],
        None => Seq::empty(),
    }) + zeros(p.most)
}

/// The largest text of the longest words a piece matches.
pub open spec fn piece_top(p: Piece) -> Seq<char> {
    p.lits + (match p.class {
        Some((lo, hi)) => seq![hi],
        None => Seq::empty(),
    }) + nine_run(p.most)
}

/// True when `w` has the shape of the texts of a block.
pub open spec fn in_text_block(lits: Seq<char>, a: char, b: char, k: nat, w: Seq<char>) -> bool {
    &&& w.len() == lits.len() + 1 + k
    &&& w.take(lits.len() as int) == lits
    &&& a <= w[lits.len() as int] <= b
    &&& forall|i: int| lits.len() < i < w.len() ==> is_digit(#[trigger] w[i])
}

/// The piece of a block matches the words of the block's shape.
proof fn lemma_block_piece_shape(lits: Seq<char>, a: char, b: char, k: nat, w: Seq<char>)
    requires
        is_digit(a),
        is_digit(b),
        a <= b,
    ensures
        piece_matches(block_piece(lits, a, b, k), w) <==> in_text_block(lits, a, b, k, w),
{
    let n = lits.len() as int;
    let p = block_piece(lits, a, b, k);
    if a == b {
        if piece_matches(p, w) {
            assert(w.take(n + 1) == lits.push(a));
            assert(w.take(n) =~= w.take(n + 1).drop_last());
            assert(lits.push(a).drop_last() =~= lits);
            assert(w[n] == w.take(n + 1)[n]);
        }
        if in_text_block(lits, a, b, k, w) {
            assert(w.take(n + 1) =~= lits.push(a)) by {
                assert forall|i: int| 0 <= i < n + 1 implies #[trigger] w.take(n + 1)[i] == lits.push(
                    a,
                )[i] by {
                    if i < n {
                        assert(w.take(n)[i] == w[i]);
                    }
                }
            }
        }
    } else if a == '0' && b == '9' {
        if piece_matches(p, w) {
            assert(is_digit(w[n]));
        }
    } else {
    }
}

/// The texts of the shape of a block are exactly the decimal texts of the
/// numbers between its ends.
proof fn lemma_text_block_lang(
    lits: Seq<char>,
    a: char,
    b: char,
    k: nat,
    sv: nat,
    tv: nat,
    w: Seq<char>,
)
    requires
        text_block(lits, a, b, k, nat_text(sv), nat_text(tv)),
    ensures
        in_text_block(lits, a, b, k, w) <==> names_one_of(sv as int, tv as int, w),
{
    let n = lits.len() as int;
    let pk = pow10(k);
    lemma_pow10_pos(k);
    let lv = digits_value(lits);
    lemma_digits_value_bound(lits);
    lemma_zeros_value(k);
    lemma_nine_run_value(k);
    lemma_split_value(lits, a, zeros(k));
    lemma_split_value(lits, b, nine_run(k));
    lemma_nat_text_value(sv);
    lemma_nat_text_value(tv);
    let da = digit_value(a);
    let db = digit_value(b);
    assert(sv == (lv * 10 + da) * pk);
    assert(tv == (lv * 10 + db) * pk + pk - 1);
    if in_text_block(lits, a, b, k, w) {
        let x = w[n];
        let d = w.subrange(n + 1, w.len() as int);
        assert(w =~= lits.push(x) + d) by {
            assert forall|i: int| 0 <= i < w.len() implies #[trigger] w[i] == (lits.push(x) + d)[i] by {
                if i < n {
                    assert(w.take(n)[i] == w[i]);
                }
            }
        }
        assert(all_digits(d)) by {
            assert forall|i: int| 0 <= i < d.len() implies is_digit(#[trigger] d[i]) by {
                assert(d[i] == w[n + 1 + i]);
            }
        }
        assert(is_digit(x));
        lemma_split_value(lits, x, d);
        lemma_digits_value_bound(d);
        let dx = digit_value(x);
        let v = digits_value(w);
        let dd = digits_value(d);
        assert(v == (lv * 10 + dx) * pk + dd);
        assert(sv <= v <= tv) by (nonlinear_arith)
            requires
                sv == (lv * 10 + da) * pk,
                tv == (lv * 10 + db) * pk + pk - 1,
                v == (lv * 10 + dx) * pk + dd,
                da <= dx <= db,
                0 <= dd < pk,
                pk > 0,
        ;
        assert(w[0] != '0' || w.len() == 1) by {
            if n > 0 {
                assert(w[0] == w.take(n)[0]);
            }
        }
        lemma_text_canonical(w);
        assert(nat_text(v as nat) == w);
        assert(names_one_of(sv as int, tv as int, w));
    }
    if names_one_of(sv as int, tv as int, w) {
        let v = choose|v: nat| sv <= v <= tv && w == #[trigger] nat_text(v);
        lemma_floor(v as int, pk);
        let u = (v as int) / pk;
        let r = (v as int) % pk;
        assert(lv * 10 + da <= u <= lv * 10 + db) by (nonlinear_arith)
            requires
                (lv * 10 + da) * pk <= v <= (lv * 10 + db) * pk + pk - 1,
                u * pk <= v < u * pk + pk,
                pk > 0,
        ;
        let dx = u - lv * 10;
        let x = digit_char(dx);
        assert(digit_value(x) == dx);
        lemma_padded_text(r as nat, k);
        let d = padded_text(r as nat, k);
        lemma_split_value(lits, x, d);
        let w2 = lits.push(x) + d;
        assert(digits_value(w2) == v);
        assert(w2[0] != '0' || w2.len() == 1) by {
            if n > 0 {
                assert(w2[0] == lits[0]);
            }
        }
        lemma_text_canonical(w2);
        assert(w == w2);
        assert(w.take(n) =~= lits);
        assert(w[n] == x);
        assert forall|i: int| n < i < w.len() implies is_digit(#[trigger] w[i]) by {
            assert(w[i] == d[i - n - 1]);
        }
    }
}


// ---------------------------------------------------------------------------
// The token of a block.
// ---------------------------------------------------------------------------

/// Over a shared prefix the scan emits the prefix and counts nothing.
proof fn lemma_scan_common(s: Seq<char>, t: Seq<char>, pre: Seq<char>, i: int)
    requires
        0 <= i <= pre.len(),
        pre.len() <= s.len(),
        pre.len() <= t.len(),
        forall|j: int| 0 <= j < pre.len() ==> s[j] == pre[j] && t[j] == pre[j],
    ensures
        scan_digits(s, t, i) == (pre.take(i), 0int),
    decreases i,
{
    if i > 0 {
        lemma_scan_common(s, t, pre, i - 1);
        assert(pre.take(i - 1).push(pre[i - 1]) =~= pre.take(i));
    } else {
        assert(pre.take(0) =~= Seq::<char>::empty());
    }
}

/// Over positions where `s` has `0` and `t` has `9` the scan only counts.
proof fn lemma_scan_free(s: Seq<char>, t: Seq<char>, i0: int, j: int)
    requires
        0 <= i0,
        0 <= j,
        i0 + j <= s.len(),
        i0 + j <= t.len(),
        forall|q: int| i0 <= q < i0 + j ==> s[q] == '0' && t[q] == '9',
    ensures
        scan_digits(s, t, i0 + j) == (scan_digits(s, t, i0).0, scan_digits(s, t, i0).1 + j),
    decreases j,
{
    if j > 0 {
        lemma_scan_free(s, t, i0, j - 1);
        assert(s[i0 + j - 1] == '0' && t[i0 + j - 1] == '9');
    }
}

/// The texts of a block scan to the head of its piece.
proof fn lemma_block_pattern(
    lits: Seq<char>,
    a: char,
    b: char,
    k: nat,
    s: Seq<char>,
    t: Seq<char>,
    shorthand: bool,
)
    requires
        text_block(lits, a, b, k, s, t),
    ensures
        s == t <==> (a == b && k == 0),
        s == t ==> range_pattern(s, t, shorthand) == (TokenModel {
            pattern: s,
            count: Seq::empty(),
            string: Seq::empty(),
        }),
        s != t ==> range_pattern(s, t, shorthand).pattern == piece_head(
            block_piece(lits, a, b, k),
            shorthand,
        ),
        s != t ==> range_pattern(s, t, shorthand).count == seq![block_piece(lits, a, b, k).most as int],
        s == piece_bottom(block_piece(lits, a, b, k)),
        t == piece_top(block_piece(lits, a, b, k)),
{
    let n = lits.len() as int;
    let p = block_piece(lits, a, b, k);
    assert(s[n] == a && t[n] == b);
    if a == b && k == 0 {
        assert(s =~= t);
    }
    if s == t && k > 0 {
        assert(s[n + 1] == t[n + 1]);
    }
    assert(s.len() == t.len());
    assert(common_len(s, t) == n + 1 + k);
    lemma_scan_common(s, t, lits, n);
    assert(lits.take(n) =~= lits);
    let (p1, c1) = scan_digits(s, t, n + 1);
    if a == b {
        assert(p1 =~= lits.push(a));
        assert(c1 == 0);
    } else if a == '0' && b == '9' {
        assert(p1 =~= lits);
        assert(c1 == 1);
    } else {
        assert(p1 =~= lits + char_class(a, b));
        assert(c1 == 0);
    }
    lemma_scan_free(s, t, n + 1, k as int);
    assert(piece_bottom(p) =~= s);
    assert(piece_top(p) =~= t);
}


// ---------------------------------------------------------------------------
// Equal heads mean equal pieces up to the repetition counts.
// ---------------------------------------------------------------------------

/// A well-formed piece: literal digits, a class of at least two but fewer
/// than ten digits, and an ordered repetition range.
pub open spec fn piece_ok(p: Piece) -> bool {
    &&& all_digits(p.lits)
    &&& p.fewest <= p.most
    &&& match p.class {
        Some((lo, hi)) => is_digit(lo) && is_digit(hi) && lo < hi && !(lo == '0' && hi == '9'),
        None => true,
    }
}

/// The part of a head after the literal digits.
spec fn head_tail(class: Option<(char, char)>, digits: bool, shorthand: bool) -> Seq<char> {
    class_source(class) + (if digits {
        any_digit(shorthand)
    } else {
        Seq::empty()
    })
}

/// The characters of a digit class.
proof fn lemma_class_shape(lo: char, hi: char)
    ensures
        char_class(lo, hi).len() == 4 || char_class(lo, hi).len() == 5,
        char_class(lo, hi)[0] == '[',
        char_class(lo, hi)[1] == lo,
        char_class(lo, hi).len() == 4 ==> char_class(lo, hi)[2] == hi,
        char_class(lo, hi).len() == 5 ==> char_class(lo, hi)[3] == hi,
{
    if (hi as int) == (lo as int) + 1 {
        assert(char_class(lo, hi) =~= seq!['[', lo, hi, ']']);
    } else {
        assert(char_class(lo, hi) =~= seq!['[', lo, '-', hi, ']']);
    }
}

/// The part of a head after its digits starts with no digit, and is empty
/// only without a class and free digits.
proof fn lemma_tail_shape(class: Option<(char, char)>, digits: bool, shorthand: bool)
    ensures
        head_tail(class, digits, shorthand).len() > 0 ==> !is_digit(
            head_tail(class, digits, shorthand)[0],
        ),
        (class is None && !digits) <==> head_tail(class, digits, shorthand).len() == 0,
{
    let tl = head_tail(class, digits, shorthand);
    let ad = any_digit(shorthand);
    if shorthand {
        assert(ad =~= seq!['\\', 'd']);
    } else {
        assert(ad =~= seq!['[', '0', '-', '9', ']']);
    }
    match class {
        Some((lo, hi)) => {
            lemma_class_shape(lo, hi);
            assert(tl[0] == char_class(lo, hi)[0]);
        },
        None => {
            if digits {
                assert(tl =~= ad);
            } else {
                assert(tl =~= Seq::<char>::empty());
            }
        },
    }
}

/// The part of a head after its digits names the class and whether free
/// digits follow.
proof fn lemma_tail_injective(
    c1: Option<(char, char)>,
    d1: bool,
    c2: Option<(char, char)>,
    d2: bool,
    shorthand: bool,
)
    requires
        piece_ok(Piece { lits: Seq::empty(), class: c1, fewest: 0, most: 0 }),
        piece_ok(Piece { lits: Seq::empty(), class: c2, fewest: 0, most: 0 }),
        head_tail(c1, d1, shorthand) == head_tail(c2, d2, shorthand),
    ensures
        c1 == c2,
        d1 == d2,
{
    let ad = any_digit(shorthand);
    let t1 = head_tail(c1, d1, shorthand);
    if shorthand {
        assert(ad =~= seq!['\\', 'd']);
    } else {
        assert(ad =~= seq!['[', '0', '-', '9', ']']);
    }
    match (c1, c2) {
        (Some((l1, h1)), Some((l2, h2))) => {
            lemma_class_shape(l1, h1);
            lemma_class_shape(l2, h2);
            let k1 = char_class(l1, h1);
            let k2 = char_class(l2, h2);
            let x: Seq<char> = if d1 {
                ad
            } else {
                Seq::empty()
            };
            if d1 == d2 {
                assert(t1 =~= k1 + x);
                assert(head_tail(c2, d2, shorthand) =~= k2 + x);
                assert(k1.len() == k2.len());
                assert(t1[1] == k1[1] && t1[1] == k2[1]);
                if k1.len() == 4 {
                    assert(t1[2] == k1[2] && t1[2] == k2[2]);
                } else {
                    assert(t1[3] == k1[3] && t1[3] == k2[3]);
                }
            }
        },
        (Some((l1, h1)), None) => {
            lemma_class_shape(l1, h1);
            let k1 = char_class(l1, h1);
            if d2 && !d1 {
                if !shorthand {
                    assert(t1[1] == k1[1]);
                    assert(t1[3] == k1[3]);
                }
            }
        },
        (None, Some((l2, h2))) => {
            lemma_class_shape(l2, h2);
            let k2 = char_class(l2, h2);
            if d1 && !d2 {
                if !shorthand {
                    assert(t1[1] == k2[1]);
                    assert(t1[3] == k2[3]);
                }
            }
        },
        (None, None) => {},
    }
}

/// Two well-formed pieces with the same head share their literal digits,
/// their class, and whether they have free digits.
proof fn lemma_head_injective(p1: Piece, p2: Piece, shorthand: bool)
    requires
        piece_ok(p1),
        piece_ok(p2),
        piece_head(p1, shorthand) == piece_head(p2, shorthand),
    ensures
        p1.lits == p2.lits,
        p1.class == p2.class,
        (p1.most > 0) == (p2.most > 0),
{
    let h = piece_head(p1, shorthand);
    let t1 = head_tail(p1.class, p1.most > 0, shorthand);
    let t2 = head_tail(p2.class, p2.most > 0, shorthand);
    assert(h =~= p1.lits + t1);
    assert(h =~= p2.lits + t2);
    lemma_tail_shape(p1.class, p1.most > 0, shorthand);
    lemma_tail_shape(p2.class, p2.most > 0, shorthand);
    let n1 = p1.lits.len() as int;
    let n2 = p2.lits.len() as int;
    if n1 < n2 {
        assert(h[n1] == p2.lits[n1]);
        assert(is_digit(p2.lits[n1]));
        if t1.len() > 0 {
            assert(h[n1] == t1[0]);
        }
    } else if n2 < n1 {
        assert(h[n2] == p1.lits[n2]);
        assert(is_digit(p1.lits[n2]));
        if t2.len() > 0 {
            assert(h[n2] == t2[0]);
        }
    }
    assert(p1.lits =~= h.take(n1));
    assert(p2.lits =~= h.take(n2));
    assert(t1 =~= h.skip(n1));
    assert(t2 =~= h.skip(n2));
    lemma_tail_injective(p1.class, p1.most > 0, p2.class, p2.most > 0, shorthand);
}


// ---------------------------------------------------------------------------
// Tokens and pieces in step.
// ---------------------------------------------------------------------------

/// The repetition counts a token records for a piece: none for a literal.
pub open spec fn count_of(p: Piece) -> Seq<int> {
    if p.class is None && p.most == 0 {
        Seq::empty()
    } else if p.fewest == p.most {
        seq![p.most as int]
    } else {
        seq![p.fewest as int, p.most as int]
    }
}

/// The token `t` is the piece `p` written out.
pub open spec fn token_of(t: TokenModel, p: Piece, shorthand: bool) -> bool {
    &&& t.pattern == piece_head(p, shorthand)
    &&& t.count == count_of(p)
    &&& t.string == piece_source(p, shorthand)
}

/// `tokens` write out the pieces `ps`, which together match the texts of
/// `m..next`, and the last piece ends at the text of `next - 1`.
pub open spec fn tokens_cover(
    tokens: Seq<TokenModel>,
    ps: Seq<Piece>,
    m: int,
    next: int,
    shorthand: bool,
) -> bool {
    &&& tokens.len() == ps.len()
    &&& forall|i: int|
        0 <= i < ps.len() ==> piece_ok(#[trigger] ps[i]) && token_of(tokens[i], ps[i], shorthand)
    &&& forall|w: Seq<char>| #[trigger]
        alternation_matches(ps, w) <==> names_one_of(m, next - 1, w)
    &&& ps.len() == 0 ==> next == m
    &&& ps.len() > 0 ==> m < next && nat_text((next - 1) as nat) == piece_top(ps.last())
}

/// Texts of `m..s` and of `s..=t` are the texts of `m..=t`.
proof fn lemma_names_union(m: int, s: int, t: int, w: Seq<char>)
    requires
        m <= s <= t + 1,
    ensures
        names_one_of(m, s - 1, w) || names_one_of(s, t, w) <==> names_one_of(m, t, w),
{
    if names_one_of(m, t, w) {
        let v = choose|v: nat| m <= v <= t && w == #[trigger] nat_text(v);
        if v < s {
            assert(names_one_of(m, s - 1, w));
        } else {
            assert(names_one_of(s, t, w));
        }
    }
}

/// Matching an alternation with one more piece.
proof fn lemma_alternation_push(ps: Seq<Piece>, p: Piece, w: Seq<char>)
    ensures
        alternation_matches(ps.push(p), w) <==> alternation_matches(ps, w) || piece_matches(p, w),
{
    let q = ps.push(p);
    if alternation_matches(q, w) {
        let i = choose|i: int| 0 <= i < q.len() && piece_matches(q[i], w);
        if i < ps.len() {
            assert(q[i] == ps[i]);
        }
    }
    if alternation_matches(ps, w) {
        let i = choose|i: int| 0 <= i < ps.len() && piece_matches(ps[i], w);
        assert(q[i] == ps[i]);
    }
    if piece_matches(p, w) {
        assert(q[ps.len() as int] == p);
    }
}

/// A piece whose count range is the union of two adjacent ranges.
proof fn lemma_piece_widen(last: Piece, fresh: Piece, w: Seq<char>)
    requires
        last.lits == fresh.lits,
        last.class == fresh.class,
        last.fewest <= last.most,
        fresh.fewest == fresh.most == last.most + 1,
    ensures
        piece_matches(Piece { fewest: last.fewest, most: fresh.most, ..last }, w) <==> piece_matches(
            last,
            w,
        ) || piece_matches(fresh, w),
{
}

/// The ends of two neighbouring blocks with the same head differ in length by
/// one free digit.
proof fn lemma_merge_count(last: Piece, fresh: Piece, s: nat)
    requires
        s >= 1,
        piece_ok(last),
        piece_ok(fresh),
        last.lits == fresh.lits,
        last.class == fresh.class,
        nat_text((s - 1) as nat) == piece_top(last),
        nat_text(s) == piece_bottom(fresh),
    ensures
        fresh.most == last.most + 1,
{
    let c = last.most;
    let c2 = fresh.most;
    let top = piece_top(last);
    let bot = piece_bottom(fresh);
    lemma_nat_text_len((s - 1) as nat);
    lemma_nat_text_len(s);
    let lt = top.len();
    let ls = bot.len();
    assert(ls - lt == c2 - c);
    if c2 >= c + 2 {
        lemma_pow10_mono(lt + 1, (ls - 1) as nat);
        lemma_pow10_next(lt);
    } else if c2 < c {
        lemma_pow10_mono(ls, (lt - 1) as nat);
    } else if c2 == c {
        lemma_zeros_value(c);
        lemma_nine_run_value(c);
        lemma_nat_text_value(s);
        lemma_nat_text_value((s - 1) as nat);
        lemma_pow10_pos(c);
        match last.class {
            Some((lo, hi)) => {
                assert(bot =~= last.lits.push(lo) + zeros(c));
                assert(top =~= last.lits.push(hi) + nine_run(c));
                lemma_split_value(last.lits, lo, zeros(c));
                lemma_split_value(last.lits, hi, nine_run(c));
                let lv = digits_value(last.lits);
                let pk = pow10(c);
                assert((lv * 10 + digit_value(lo)) * pk <= (lv * 10 + digit_value(hi)) * pk)
                    by (nonlinear_arith)
                    requires
                        digit_value(lo) <= digit_value(hi),
                        pk > 0,
                ;
            },
            None => {
                assert(bot =~= last.lits + zeros(c));
                assert(top =~= last.lits + nine_run(c));
                lemma_digits_value_append(last.lits, zeros(c));
                lemma_digits_value_append(last.lits, nine_run(c));
            },
        }
    }
}

/// Adding the token of the next block keeps tokens and pieces in step.
#[verifier::rlimit(40)]
#[verifier::spinoff_prover]
proof fn lemma_add_block(
    tokens: Seq<TokenModel>,
    ps: Seq<Piece>,
    m: int,
    s: int,
    t: int,
    k: nat,
    relax: bool,
    shorthand: bool,
) -> (ps2: Seq<Piece>)
    requires
        0 <= m <= s <= t,
        block(s, t, k),
        tokens_cover(tokens, ps, m, s, shorthand),
    ensures
        tokens_cover(
            add_token(
                tokens,
                range_pattern(nat_text(s as nat), nat_text(t as nat), shorthand),
                t,
                false,
                0,
                relax,
            ),
            ps2,
            m,
            t + 1,
            shorthand,
        ),
{
    let tx = lemma_block_texts(s, t, k);
    let (lits, a, b, kk) = tx;
    let st = nat_text(s as nat);
    let tt = nat_text(t as nat);
    let obj = range_pattern(st, tt, shorthand);
    let pn = block_piece(lits, a, b, kk);
    lemma_block_pattern(lits, a, b, kk, st, tt, shorthand);
    assert(piece_ok(pn));
    assert(obj.pattern == piece_head(pn, shorthand)) by {
        if st == tt {
            assert(piece_head(pn, shorthand) =~= lits.push(a));
            assert(st =~= lits.push(a));
        }
    }
    assert(obj.count == count_of(pn));
    assert forall|w: Seq<char>| piece_matches(pn, w) <==> names_one_of(s, t, w) by {
        lemma_block_piece_shape(lits, a, b, kk, w);
        lemma_text_block_lang(lits, a, b, kk, s as nat, t as nat, w);
    }
    let result = add_token(tokens, obj, t, false, 0, relax);
    if tokens.len() > 0 && tokens.last().pattern == obj.pattern {
        let last = ps.last();
        let li = ps.len() - 1;
        assert(piece_ok(ps[li]) && token_of(tokens[li], ps[li], shorthand));
        lemma_head_injective(last, pn, shorthand);
        lemma_merge_count(last, pn, s as nat);
        let merged = Piece { fewest: last.fewest, most: pn.most, ..last };
        let ps2 = ps.drop_last().push(merged);
        let prev = tokens.last();
        assert(prev.count == count_of(last));
        assert(st != tt);
        assert(obj.count == seq![pn.most as int]);
        let kept = if prev.count.len() > 1 {
            prev.count.drop_last()
        } else {
            prev.count
        };
        assert(kept =~= seq![last.fewest as int]);
        let count = kept.push(obj.count[0]);
        assert(count =~= count_of(merged));
        assert(piece_head(merged, shorthand) == piece_head(last, shorthand));
        assert(quantifier(count) =~= repeat_source(merged.fewest, merged.most));
        assert(result == tokens.drop_last().push(
            TokenModel { pattern: prev.pattern, count, string: prev.pattern + quantifier(count) },
        ));
        assert(piece_ok(merged));
        assert forall|i: int| 0 <= i < ps2.len() implies piece_ok(#[trigger] ps2[i]) && token_of(
            result[i],
            ps2[i],
            shorthand,
        ) by {
            if i < li {
                assert(ps2[i] == ps[i]);
                assert(result[i] == tokens[i]);
            }
        }
        assert forall|w: Seq<char>| #[trigger]
            alternation_matches(ps2, w) <==> names_one_of(m, t, w) by {
            lemma_alternation_push(ps.drop_last(), merged, w);
            lemma_alternation_push(ps.drop_last(), last, w);
            assert(ps.drop_last().push(last) =~= ps);
            lemma_piece_widen(last, pn, w);
            lemma_names_union(m, s, t, w);
        }
        assert(piece_top(merged) == piece_top(pn));
        ps2
    } else {
        let ps2 = ps.push(pn);
        assert(quantifier(obj.count) =~= repeat_source(pn.fewest, pn.most));
        assert(result == tokens.push(
            TokenModel {
                pattern: obj.pattern,
                count: obj.count,
                string: Seq::empty() + obj.pattern + quantifier(obj.count),
            },
        ));
        assert(Seq::<char>::empty() + obj.pattern + quantifier(obj.count) =~= piece_source(
            pn,
            shorthand,
        ));
        assert forall|i: int| 0 <= i < ps2.len() implies piece_ok(#[trigger] ps2[i]) && token_of(
            result[i],
            ps2[i],
            shorthand,
        ) by {
            if i < ps.len() {
                assert(ps2[i] == ps[i]);
                assert(result[i] == tokens[i]);
            }
        }
        assert forall|w: Seq<char>| #[trigger]
            alternation_matches(ps2, w) <==> names_one_of(m, t, w) by {
            lemma_alternation_push(ps, pn, w);
            lemma_names_union(m, s, t, w);
        }
        ps2
    }
}


// ---------------------------------------------------------------------------
// Walking the split points.
// ---------------------------------------------------------------------------

/// `q` with `x` inserted in order, unless it is there already.
spec fn insert_in_order(q: Seq<int>, x: int) -> Seq<int>
    decreases q.len(),
{
    if q.len() == 0 {
        seq![x]
    } else if x < q[0] {
        seq![x] + q
    } else if x == q[0] {
        q
    } else {
        seq![q[0]] + insert_in_order(q.drop_first(), x)
    }
}

/// Inserting in order keeps a sequence increasing and adds `x`.
proof fn lemma_insert_in_order(q: Seq<int>, x: int)
    requires
        increasing(q),
    ensures
        increasing(insert_in_order(q, x)),
        forall|y: int| insert_in_order(q, x).contains(y) <==> (q.contains(y) || y == x),
        insert_in_order(q, x).len() > 0 && insert_in_order(q, x)[0] == (if q.len() > 0 && q[0] < x {
            q[0]
        } else {
            x
        }),
    decreases q.len(),
{
    let r = insert_in_order(q, x);
    if q.len() == 0 {
        assert forall|y: int| r.contains(y) <==> (q.contains(y) || y == x) by {
            lemma_single_contains(x, y);
        }
    } else if x < q[0] {
        assert forall|y: int| r.contains(y) <==> (q.contains(y) || y == x) by {
            lemma_concat_contains(seq![x], q, y);
            lemma_single_contains(x, y);
        }
        assert forall|i: int, j: int| 0 <= i < j < r.len() implies r[i] < r[j] by {
            if i == 0 {
                assert(q[0] <= q[j - 1]);
            } else {
                assert(r[i] == q[i - 1] && r[j] == q[j - 1]);
            }
        }
    } else if x == q[0] {
        assert(q.contains(q[0]));
    } else {
        let t = q.drop_first();
        assert(increasing(t));
        lemma_insert_in_order(t, x);
        let rt = insert_in_order(t, x);
        assert forall|y: int| r.contains(y) <==> (q.contains(y) || y == x) by {
            lemma_concat_contains(seq![q[0]], rt, y);
            lemma_single_contains(q[0], y);
            assert(q =~= seq![q[0]] + t);
            lemma_concat_contains(seq![q[0]], t, y);
        }
        assert forall|i: int, j: int| 0 <= i < j < r.len() implies r[i] < r[j] by {
            if i == 0 {
                assert(r[j] == rt[j - 1]);
                assert(rt.contains(rt[j - 1]));
                if t.contains(rt[j - 1]) {
                    let k = choose|k: int| 0 <= k < t.len() && t[k] == rt[j - 1];
                    assert(q[0] < q[k + 1]);
                }
            } else {
                assert(r[i] == rt[i - 1] && r[j] == rt[j - 1]);
            }
        }
    }
}

/// The elements of `s` in increasing order.
spec fn in_order(s: Seq<int>) -> Seq<int>
    decreases s.len(),
{
    if s.len() == 0 {
        Seq::empty()
    } else {
        insert_in_order(in_order(s.drop_last()), s.last())
    }
}

/// `in_order(s)` lists the elements of `s` increasingly.
proof fn lemma_in_order(s: Seq<int>)
    ensures
        increasing(in_order(s)),
        forall|y: int| in_order(s).contains(y) <==> s.contains(y),
    decreases s.len(),
{
    if s.len() > 0 {
        let s0 = s.drop_last();
        lemma_in_order(s0);
        lemma_insert_in_order(in_order(s0), s.last());
        assert(s =~= s0.push(s.last()));
        assert forall|y: int| in_order(s).contains(y) <==> s.contains(y) by {
            lemma_concat_contains(s0, seq![s.last()], y);
            lemma_single_contains(s.last(), y);
            assert(s0.push(s.last()) =~= s0 + seq![s.last()]);
        }
    }
}

/// The split points have an increasing listing, so `ranges_spec` lists them.
proof fn lemma_ranges_listing(m: int, hi: int)
    ensures
        sorted_listing(ranges_spec(m, hi), stop_set(m, hi)),
{
    let all = seq![hi] + nine_stops(m, hi, 1) + zero_stops(m, hi, 1);
    lemma_in_order(all);
    assert(sorted_listing(in_order(all), stop_set(m, hi)));
}

/// Where the block ending at the `i`-th split point starts.
spec fn start_at(m: int, q: Seq<int>, i: int) -> int {
    if i == 0 {
        m
    } else {
        q[i - 1] + 1
    }
}

/// Adding the tokens of the blocks from the `i`-th split point on.
proof fn lemma_walk_stops(
    m: int,
    hi: int,
    q: Seq<int>,
    i: int,
    tokens: Seq<TokenModel>,
    ps: Seq<Piece>,
    relax: bool,
    shorthand: bool,
) -> (ps2: Seq<Piece>)
    requires
        0 <= m <= hi <= 9223372036854775808,
        sorted_listing(q, stop_set(m, hi)),
        0 <= i <= q.len(),
        tokens_cover(tokens, ps, m, start_at(m, q, i), shorthand),
    ensures
        tokens_cover(
            tokens_from(tokens, start_at(m, q, i), q.skip(i), false, 0, relax, shorthand),
            ps2,
            m,
            hi + 1,
            shorthand,
        ),
    decreases q.len() - i,
{
    lemma_stop_set(m, hi);
    assert forall|v: int| is_stop(m, hi, v) implies m <= v <= hi by {
        if v != hi {
            if exists|j: nat| 1 <= j <= 19 && #[trigger] nines(m, j) <= hi && v == nines(m, j) {
                let j = choose|j: nat| 1 <= j <= 19 && #[trigger] nines(m, j) <= hi && v == nines(m, j);
                lemma_nines_above(m, j);
            } else {
                let z = choose|z: nat|
                    1 <= z <= 19 && m < #[trigger] round_down(hi + 1, z) - 1 && v == round_down(hi + 1, z) - 1;
                lemma_round_down_below(hi + 1, z);
            }
        }
    }
    let s = start_at(m, q, i);
    if i == q.len() {
        assert(stop_set(m, hi).contains(hi));
        assert(q.contains(hi));
        let j = choose|j: int| 0 <= j < q.len() && q[j] == hi;
        assert(q.contains(q[q.len() - 1]));
        assert(stop_set(m, hi).contains(q[q.len() - 1]));
        if j < q.len() - 1 {
            assert(q[j] < q[q.len() - 1]);
        }
        assert(q.skip(i) =~= Seq::<int>::empty());
        ps
    } else {
        let t = q[i];
        assert(q.contains(t));
        assert(stop_set(m, hi).contains(t));
        assert(is_stop(m, hi, t));
        if i > 0 {
            assert(q.contains(q[i - 1]));
            assert(stop_set(m, hi).contains(q[i - 1]));
            assert(q[i - 1] < t);
        }
        assert forall|v: int| s <= v < t implies !#[trigger] is_stop(m, hi, v) by {
            if is_stop(m, hi, v) {
                assert(stop_set(m, hi).contains(v));
                assert(q.contains(v));
                let j = choose|j: int| 0 <= j < q.len() && q[j] == v;
                if j < i {
                    if j < i - 1 {
                        assert(q[j] < q[i - 1]);
                    }
                } else if j > i {
                    assert(q[i] < q[j]);
                }
            }
        }
        let k = lemma_block(m, hi, s, t);
        let ps1 = lemma_add_block(tokens, ps, m, s, t, k, relax, shorthand);
        assert(q.skip(i).drop_first() =~= q.skip(i + 1));
        assert(q.skip(i)[0] == t);
        lemma_walk_stops(
            m,
            hi,
            q,
            i + 1,
            add_token(
                tokens,
                range_pattern(nat_text(s as nat), nat_text(t as nat), shorthand),
                t,
                false,
                0,
                relax,
            ),
            ps1,
            relax,
            shorthand,
        )
    }
}

/// The tokens for `[m, hi]` write out pieces that match exactly its texts.
proof fn lemma_split_cover(m: int, hi: int, relax: bool, shorthand: bool) -> (ps: Seq<Piece>)
    requires
        0 <= m <= hi <= 9223372036854775808,
    ensures
        tokens_cover(split_spec(m, hi, false, 0, relax, shorthand), ps, m, hi + 1, shorthand),
{
    lemma_ranges_listing(m, hi);
    let q = ranges_spec(m, hi);
    assert(q.skip(0) =~= q);
    assert forall|w: Seq<char>| #[trigger]
        alternation_matches(Seq::<Piece>::empty(), w) <==> names_one_of(m, m - 1, w) by {
    }
    lemma_walk_stops(m, hi, q, 0, Seq::empty(), Seq::empty(), relax, shorthand)
}


// ---------------------------------------------------------------------------
// The law.
// ---------------------------------------------------------------------------

/// The piece that matches the text `x` and nothing else.
pub open spec fn literal_piece(x: Seq<char>) -> Piece {
    Piece { lits: x, class: None, fewest: 0, most: 0 }
}

/// A literal piece matches and reads as its text.
proof fn lemma_literal_piece(x: Seq<char>, w: Seq<char>)
    ensures
        piece_matches(literal_piece(x), w) <==> w == x,
        piece_source(literal_piece(x), false) == x,
        piece_source(literal_piece(x), true) == x,
{
    if piece_matches(literal_piece(x), w) {
        assert(w =~= w.take(x.len() as int));
    }
    if w == x {
        assert(w.take(x.len() as int) =~= x);
    }
    assert(piece_source(literal_piece(x), false) =~= x);
    assert(piece_source(literal_piece(x), true) =~= x);
}

/// The text of a non-negative `i64` parses back to it and is not padded.
proof fn lemma_plain_text(x: int)
    requires
        0 <= x <= 9223372036854775807,
    ensures
        int_text(x) == nat_text(x as nat),
        parse_i64_spec(int_text(x)) == Some(x),
        !has_padding_spec(int_text(x)),
{
    let s = nat_text(x as nat);
    lemma_nat_text_value(x as nat);
    assert(is_digit(s[0]));
    assert(crate::text::unsigned_part(s) == s);
}

/// Keeping every token, with no prefix, lists their texts.
proof fn lemma_filter_all(arr: Seq<TokenModel>, none: Seq<TokenModel>)
    requires
        none.len() == 0,
    ensures
        filter_spec(arr, none, Seq::empty(), false) == arr.map_values(|t: TokenModel| t.string),
    decreases arr.len(),
{
    if arr.len() > 0 {
        lemma_filter_all(arr.drop_last(), none);
        assert(!contains_string(none, arr.last().string));
        assert(Seq::<char>::empty() + arr.last().string =~= arr.last().string);
        assert(arr.map_values(|t: TokenModel| t.string) =~= arr.drop_last().map_values(
            |t: TokenModel| t.string,
        ).push(arr.last().string));
    } else {
        assert(arr.map_values(|t: TokenModel| t.string) =~= Seq::<Seq<char>>::empty());
    }
}

// ---------------------------------------------------------------------------
// The source of a well-formed piece determines the piece.
// ---------------------------------------------------------------------------

/// No `{` occurs in `s`.
spec fn no_brace(s: Seq<char>) -> bool {
    forall|i: int| 0 <= i < s.len() ==> s[i] != '{'
}

/// Two texts without `{` concatenate to one without `{`.
proof fn lemma_no_brace_concat(a: Seq<char>, b: Seq<char>)
    requires
        no_brace(a),
        no_brace(b),
    ensures
        no_brace(a + b),
{
    assert forall|i: int| 0 <= i < (a + b).len() implies (a + b)[i] != '{' by {
        if i < a.len() {
            assert((a + b)[i] == a[i]);
        } else {
            assert((a + b)[i] == b[i - a.len()]);
        }
    }
}

/// The head of a well-formed piece holds no `{`.
proof fn lemma_head_no_brace(p: Piece, shorthand: bool)
    requires
        piece_ok(p),
    ensures
        no_brace(piece_head(p, shorthand)),
{
    assert(no_brace(p.lits)) by {
        assert forall|i: int| 0 <= i < p.lits.len() implies p.lits[i] != '{' by {
            assert(is_digit(p.lits[i]));
        }
    }
    let c = class_source(p.class);
    assert(no_brace(c)) by {
        match p.class {
            Some((lo, hi)) => {
                assert forall|i: int| 0 <= i < c.len() implies c[i] != '{' by {
                    if (hi as int) == (lo as int) + 1 {
                        assert(c =~= seq!['[', lo, hi, ']']);
                        assert(i == 0 || i == 1 || i == 2 || i == 3);
                    } else {
                        assert(c =~= seq!['[', lo, '-', hi, ']']);
                        assert(i == 0 || i == 1 || i == 2 || i == 3 || i == 4);
                    }
                }
            },
            None => {},
        }
    }
    let d: Seq<char> = if p.most > 0 {
        any_digit(shorthand)
    } else {
        Seq::empty()
    };
    assert(no_brace(d)) by {
        assert forall|i: int| 0 <= i < d.len() implies d[i] != '{' by {
            if shorthand {
                assert(any_digit(shorthand) =~= seq!['\\', 'd']);
                assert(i == 0 || i == 1);
            } else {
                assert(any_digit(shorthand) =~= seq!['[', '0', '-', '9', ']']);
                assert(i == 0 || i == 1 || i == 2 || i == 3 || i == 4);
            }
        }
    }
    lemma_no_brace_concat(p.lits, c);
    lemma_no_brace_concat(p.lits + c, d);
}

/// Equal decimal texts name equal numbers.
proof fn lemma_nat_text_injective(a: nat, b: nat)
    requires
        nat_text(a) == nat_text(b),
    ensures
        a == b,
{
    lemma_nat_text_value(a);
    lemma_nat_text_value(b);
}

/// The repetition text names its counts.
#[verifier::rlimit(30)]
#[verifier::spinoff_prover]
proof fn lemma_repeat_injective(f1: nat, m1: nat, f2: nat, m2: nat)
    requires
        f1 <= m1,
        f2 <= m2,
        m1 > 0,
        m2 > 0,
        repeat_source(f1, m1) == repeat_source(f2, m2),
    ensures
        f1 == f2,
        m1 == m2,
{
    let r = repeat_source(f1, m1);
    let tf1 = nat_text(f1);
    let tm1 = nat_text(m1);
    let tf2 = nat_text(f2);
    let tm2 = nat_text(m2);
    lemma_nat_text_value(f1);
    lemma_nat_text_value(m1);
    lemma_nat_text_value(f2);
    lemma_nat_text_value(m2);
    if f1 < m1 && f2 < m2 {
        let i1: int = 1 + tf1.len() as int;
        let i2: int = 1 + tf2.len() as int;
        assert(r[i1] == ',');
        assert(repeat_source(f2, m2)[i2] == ',');
        if i1 < i2 {
            assert(r[i1] == tf2[i1 - 1]);
            assert(is_digit(tf2[i1 - 1]));
        } else if i2 < i1 {
            assert(r[i2] == tf1[i2 - 1]);
            assert(is_digit(tf1[i2 - 1]));
        }
        assert(tf1 =~= r.subrange(1, i1));
        assert(tf2 =~= r.subrange(1, i2));
        assert(tm1 =~= r.subrange(i1 + 1, r.len() - 1));
        assert(tm2 =~= r.subrange(i2 + 1, r.len() - 1));
        lemma_nat_text_injective(f1, f2);
        lemma_nat_text_injective(m1, m2);
    } else if f1 < m1 && f2 == m2 && m2 > 1 {
        let i1: int = 1 + tf1.len() as int;
        assert(r[i1] == ',');
        assert(r =~= seq!['{'] + tm2 + seq!['}']);
        if i1 < r.len() - 1 {
            assert(r[i1] == tm2[i1 - 1]);
            assert(is_digit(tm2[i1 - 1]));
        }
    } else if f2 < m2 && f1 == m1 && m1 > 1 {
        let r2 = repeat_source(f2, m2);
        let i2: int = 1 + tf2.len() as int;
        assert(r2[i2] == ',');
        assert(r =~= seq!['{'] + tm1 + seq!['}']);
        if i2 < r.len() - 1 {
            assert(r[i2] == tm1[i2 - 1]);
            assert(is_digit(tm1[i2 - 1]));
        }
    } else if f1 == m1 && m1 > 1 && f2 == m2 && m2 > 1 {
        assert(tm1 =~= r.subrange(1, r.len() - 1));
        assert(tm2 =~= r.subrange(1, r.len() - 1));
        lemma_nat_text_injective(m1, m2);
    } else {
        assert(r.len() == 0 || repeat_source(f2, m2).len() > 0);
    }
}

/// Two well-formed pieces with the same source are the same piece.
proof fn lemma_source_injective(p1: Piece, p2: Piece, shorthand: bool)
    requires
        piece_ok(p1),
        piece_ok(p2),
        piece_source(p1, shorthand) == piece_source(p2, shorthand),
    ensures
        p1 == p2,
{
    let h1 = piece_head(p1, shorthand);
    let h2 = piece_head(p2, shorthand);
    let r1 = repeat_source(p1.fewest, p1.most);
    let r2 = repeat_source(p2.fewest, p2.most);
    let src = h1 + r1;
    assert(src == h2 + r2);
    lemma_head_no_brace(p1, shorthand);
    lemma_head_no_brace(p2, shorthand);
    if r1.len() > 0 {
        assert(r1[0] == '{');
        assert(src[h1.len() as int] == '{');
    }
    if r2.len() > 0 {
        assert(r2[0] == '{');
        assert(src[h2.len() as int] == '{');
    }
    if h1.len() < h2.len() && r1.len() > 0 {
        assert(src[h1.len() as int] == h2[h1.len() as int]);
    }
    if h2.len() < h1.len() && r2.len() > 0 {
        assert(src[h2.len() as int] == h1[h2.len() as int]);
    }
    if r1.len() > 0 && r2.len() == 0 {
        assert(src[h1.len() as int] == h2[h1.len() as int]);
    }
    if r2.len() > 0 && r1.len() == 0 {
        assert(src[h2.len() as int] == h1[h2.len() as int]);
    }
    assert(h1.len() == h2.len());
    assert(h1 =~= src.take(h1.len() as int));
    assert(h2 =~= src.take(h2.len() as int));
    assert(r1 =~= src.skip(h1.len() as int));
    assert(r2 =~= src.skip(h2.len() as int));
    lemma_head_injective(p1, p2, shorthand);
    if p1.most > 0 {
        lemma_repeat_injective(p1.fewest, p1.most, p2.fewest, p2.most);
    }
}


// ---------------------------------------------------------------------------
// Signs, and the law for any two `i64` bounds.
// ---------------------------------------------------------------------------

/// What precedes a piece: nothing, a minus sign, or an optional minus sign.
pub enum Sign {
    Plus,
    Minus,
    Either,
}

/// A piece, with its run of zeros, and the sign in front of it.
pub struct Signed {
    pub sign: Sign,
    pub piece: ZPiece,
}

/// The source of a sign.
pub open spec fn sign_source(sign: Sign) -> Seq<char> {
    match sign {
        Sign::Plus => Seq::empty(),
        Sign::Minus => seq!['-'],
        Sign::Either => seq!['-', '?'],
    }
}

/// The regex source of a signed piece.
pub open spec fn signed_source(sp: Signed, shorthand: bool) -> Seq<char> {
    sign_source(sp.sign) + zpiece_source(sp.piece, shorthand)
}

/// True when the signed piece matches the whole of `w`.
pub open spec fn signed_matches(sp: Signed, w: Seq<char>) -> bool {
    let negative = w.len() > 0 && w[0] == '-' && zpiece_matches(sp.piece, w.drop_first());
    match sp.sign {
        Sign::Plus => zpiece_matches(sp.piece, w),
        Sign::Minus => negative,
        Sign::Either => negative || zpiece_matches(sp.piece, w),
    }
}

/// The source of the alternation of `sps`, joined by `|`.
pub open spec fn pattern_source(sps: Seq<Signed>, shorthand: bool) -> Seq<char> {
    join(sps.map_values(|sp: Signed| signed_source(sp, shorthand)), seq!['|'])
}

/// True when some signed piece of `sps` matches the whole of `w`.
pub open spec fn pattern_matches(sps: Seq<Signed>, w: Seq<char>) -> bool {
    exists|i: int| 0 <= i < sps.len() && signed_matches(sps[i], w)
}

/// True when `w` is the decimal text of an integer in `lo..=hi`.
pub open spec fn names_int(lo: int, hi: int, w: Seq<char>) -> bool {
    exists|v: int| lo <= v <= hi && w == #[trigger] int_text(v)
}

/// `src` is the source of an alternation of signed pieces, alone or inside
/// one group, that matches the decimal text of every integer in `lo..=hi`
/// and no other text.
pub open spec fn source_names_ints(src: Seq<char>, lo: int, hi: int, shorthand: bool) -> bool {
    exists|sps: Seq<Signed>|
        (src == #[trigger] pattern_source(sps, shorthand) || src == group(
            pattern_source(sps, shorthand),
        ) || src == plain_group(pattern_source(sps, shorthand))) && forall|w: Seq<char>|
            #[trigger] pattern_matches(sps, w) <==> names_int(lo, hi, w)
}

/// The signed pieces for the tokens of `arr` that `filter_spec` keeps.
spec fn filter_pieces(
    arr: Seq<TokenModel>,
    ps: Seq<ZPiece>,
    comparison: Seq<TokenModel>,
    sign: Sign,
    intersection: bool,
) -> Seq<Signed>
    decreases arr.len(),
{
    if arr.len() == 0 || ps.len() == 0 {
        Seq::empty()
    } else {
        let rest = filter_pieces(arr.drop_last(), ps.drop_last(), comparison, sign, intersection);
        if contains_string(comparison, arr.last().string) == intersection {
            rest.push(Signed { sign, piece: ps.last() })
        } else {
            rest
        }
    }
}

/// Matching a concatenation of alternations.
proof fn lemma_pattern_concat(a: Seq<Signed>, b: Seq<Signed>, w: Seq<char>)
    ensures
        pattern_matches(a + b, w) <==> pattern_matches(a, w) || pattern_matches(b, w),
{
    if pattern_matches(a + b, w) {
        let i = choose|i: int| 0 <= i < (a + b).len() && signed_matches((a + b)[i], w);
        if i < a.len() {
            assert((a + b)[i] == a[i]);
        } else {
            assert((a + b)[i] == b[i - a.len()]);
        }
    }
    if pattern_matches(a, w) {
        let i = choose|i: int| 0 <= i < a.len() && signed_matches(a[i], w);
        assert((a + b)[i] == a[i]);
    }
    if pattern_matches(b, w) {
        let i = choose|i: int| 0 <= i < b.len() && signed_matches(b[i], w);
        assert((a + b)[i + a.len()] == b[i]);
    }
}

/// The kept texts of `filter_spec` are the sources of the kept pieces, and
/// the kept pieces match what the kept tokens' pieces match under the sign.
proof fn lemma_filter_pieces(
    arr: Seq<TokenModel>,
    ps: Seq<ZPiece>,
    comparison: Seq<TokenModel>,
    sign: Sign,
    intersection: bool,
    shorthand: bool,
    w: Seq<char>,
)
    requires
        arr.len() == ps.len(),
        forall|i: int| 0 <= i < arr.len() ==> arr[i].string == zpiece_source(ps[i], shorthand),
    ensures
        filter_spec(arr, comparison, sign_source(sign), intersection) == filter_pieces(
            arr,
            ps,
            comparison,
            sign,
            intersection,
        ).map_values(|sp: Signed| signed_source(sp, shorthand)),
        pattern_matches(filter_pieces(arr, ps, comparison, sign, intersection), w) <==> exists|
            i: int,
        |
            0 <= i < arr.len() && contains_string(comparison, arr[i].string) == intersection
                && signed_matches(Signed { sign, piece: ps[i] }, w),
        forall|k: int|
            #![trigger filter_pieces(arr, ps, comparison, sign, intersection)[k]]
            0 <= k < filter_pieces(arr, ps, comparison, sign, intersection).len() ==> filter_pieces(
                arr,
                ps,
                comparison,
                sign,
                intersection,
            )[k].sign == sign && exists|i: int|
                0 <= i < ps.len() && filter_pieces(arr, ps, comparison, sign, intersection)[k].piece
                    == #[trigger] ps[i],
    decreases arr.len(),
{
    let kept = filter_pieces(arr, ps, comparison, sign, intersection);
    if arr.len() == 0 {
        assert(kept.map_values(|sp: Signed| signed_source(sp, shorthand)) =~= Seq::<
            Seq<char>,
        >::empty());
    } else {
        let a0 = arr.drop_last();
        let p0 = ps.drop_last();
        lemma_filter_pieces(a0, p0, comparison, sign, intersection, shorthand, w);
        let rest = filter_pieces(a0, p0, comparison, sign, intersection);
        let n = arr.len() - 1;
        assert(arr.last() == arr[n]);
        assert(ps.last() == ps[n]);
        let sp = Signed { sign, piece: ps.last() };
        let keep = contains_string(comparison, arr.last().string) == intersection;
        if keep {
            assert(kept == rest.push(sp));
            assert(kept.map_values(|sp: Signed| signed_source(sp, shorthand)) =~= rest.map_values(
                |sp: Signed| signed_source(sp, shorthand),
            ).push(signed_source(sp, shorthand)));
            assert(sign_source(sign) + arr.last().string == signed_source(sp, shorthand));
            lemma_pattern_concat(rest, seq![sp], w);
            assert(rest.push(sp) =~= rest + seq![sp]);
            if pattern_matches(seq![sp], w) {
                assert(seq![sp][0] == sp);
            }
            if signed_matches(sp, w) {
                assert(seq![sp][0] == sp);
            }
        }
        let ex_all = exists|i: int|
            0 <= i < arr.len() && contains_string(comparison, arr[i].string) == intersection
                && signed_matches(Signed { sign, piece: ps[i] }, w);
        let ex_rest = exists|i: int|
            0 <= i < a0.len() && contains_string(comparison, a0[i].string) == intersection
                && signed_matches(Signed { sign, piece: p0[i] }, w);
        if ex_all {
            let i = choose|i: int|
                0 <= i < arr.len() && contains_string(comparison, arr[i].string) == intersection
                    && signed_matches(Signed { sign, piece: ps[i] }, w);
            if i < n {
                assert(a0[i] == arr[i] && p0[i] == ps[i]);
            }
        }
        if ex_rest {
            let i = choose|i: int|
                0 <= i < a0.len() && contains_string(comparison, a0[i].string) == intersection
                    && signed_matches(Signed { sign, piece: p0[i] }, w);
            assert(a0[i] == arr[i] && p0[i] == ps[i]);
        }
        assert forall|k: int| 0 <= k < kept.len() implies kept[k].sign == sign && exists|i: int|
            0 <= i < ps.len() && kept[k].piece == #[trigger] ps[i] by {
            if k < rest.len() {
                assert(kept[k] == rest[k]);
                let i = choose|i: int| 0 <= i < p0.len() && rest[k].piece == #[trigger] p0[i];
                assert(p0[i] == ps[i]);
            } else {
                assert(kept[k] == sp);
                assert(sp.piece == ps[n]);
            }
        }
    }
}

/// The texts of `lo..=hi` split into negative and non-negative texts.
proof fn lemma_names_int_split(a: int, b: int, w: Seq<char>)
    requires
        a <= b,
    ensures
        names_int(a, b, w) <==> (a < 0 && w.len() > 0 && w[0] == '-' && names_one_of(
            if b < 0 {
                -b
            } else {
                1
            },
            -a,
            w.drop_first(),
        )) || (b >= 0 && names_one_of(
            if a < 0 {
                0
            } else {
                a
            },
            b,
            w,
        )),
{
    let nlo = if b < 0 {
        -b
    } else {
        1
    };
    let plo = if a < 0 {
        0
    } else {
        a
    };
    if names_int(a, b, w) {
        let v = choose|v: int| a <= v <= b && w == #[trigger] int_text(v);
        if v < 0 {
            let u = (-v) as nat;
            assert(w.drop_first() =~= nat_text(u));
            assert(names_one_of(nlo, -a, w.drop_first()));
        } else {
            assert(names_one_of(plo, b, w)) by {
                assert(w == nat_text(v as nat));
            }
        }
    }
    if a < 0 && w.len() > 0 && w[0] == '-' && names_one_of(nlo, -a, w.drop_first()) {
        let u = choose|u: nat| nlo <= u <= -a && w.drop_first() == #[trigger] nat_text(u);
        let v = -(u as int);
        assert(w =~= seq!['-'] + nat_text(u));
        assert(int_text(v) == seq!['-'] + nat_text(u));
        assert(names_int(a, b, w));
    }
    if b >= 0 && names_one_of(plo, b, w) {
        let u = choose|u: nat| plo <= u <= b && w == #[trigger] nat_text(u);
        assert(int_text(u as int) == nat_text(u));
        assert(names_int(a, b, w));
    }
}

/// The text of an `i64` parses back to it and is not padded.
proof fn lemma_int_text_plain(x: int)
    requires
        -9223372036854775808 <= x <= 9223372036854775807,
    ensures
        parse_i64_spec(int_text(x)) == Some(x),
        !has_padding_spec(int_text(x)),
{
    let s = int_text(x);
    if x >= 0 {
        lemma_plain_text(x);
    } else {
        let u = (-x) as nat;
        lemma_nat_text_value(u);
        assert(s.drop_first() =~= nat_text(u));
        assert(crate::text::unsigned_part(s) == nat_text(u));
        assert(is_digit(nat_text(u)[0]));
    }
}

/// Equal texts of integers name the same integer.
proof fn lemma_int_text_injective(x: int, y: int)
    requires
        int_text(x) == int_text(y),
    ensures
        x == y,
{
    let ux: nat = if x < 0 {
        (-x) as nat
    } else {
        x as nat
    };
    let uy: nat = if y < 0 {
        (-y) as nat
    } else {
        y as nat
    };
    lemma_nat_text_value(ux);
    lemma_nat_text_value(uy);
    if x < 0 {
        assert(int_text(x)[0] == '-');
        assert(int_text(x).drop_first() =~= nat_text(ux));
    }
    if y < 0 {
        assert(int_text(y)[0] == '-');
        assert(int_text(y).drop_first() =~= nat_text(uy));
    }
    if x < 0 && y < 0 {
        lemma_nat_text_injective(ux, uy);
    } else if x >= 0 && y >= 0 {
        lemma_nat_text_injective(ux, uy);
    } else if x < 0 {
        assert(is_digit(nat_text(uy)[0]));
    } else {
        assert(is_digit(nat_text(ux)[0]));
    }
}

/// The collated pieces match the negated texts of the negative pieces and
/// the texts of the non-negative pieces, when tokens with equal texts stand
/// for equal pieces.
#[verifier::rlimit(30)]
#[verifier::spinoff_prover]
proof fn lemma_collate_lang(
    neg: Seq<TokenModel>,
    nps: Seq<ZPiece>,
    pos: Seq<TokenModel>,
    pps: Seq<ZPiece>,
    shorthand: bool,
    w: Seq<char>,
)
    requires
        neg.len() == nps.len(),
        pos.len() == pps.len(),
        forall|i: int| 0 <= i < neg.len() ==> neg[i].string == zpiece_source(nps[i], shorthand),
        forall|i: int| 0 <= i < pos.len() ==> pos[i].string == zpiece_source(pps[i], shorthand),
        forall|i: int, j: int|
            #![trigger neg[i], pos[j]]
            0 <= i < neg.len() && 0 <= j < pos.len() && neg[i].string == pos[j].string ==> nps[i]
                == pps[j],
    ensures
        pattern_matches(
            filter_pieces(neg, nps, pos, Sign::Minus, false) + filter_pieces(
                neg,
                nps,
                pos,
                Sign::Either,
                true,
            ) + filter_pieces(pos, pps, neg, Sign::Plus, false),
            w,
        ) <==> (w.len() > 0 && w[0] == '-' && zpattern_matches(nps, w.drop_first()))
            || zpattern_matches(pps, w),
{
    let fa = filter_pieces(neg, nps, pos, Sign::Minus, false);
    let fb = filter_pieces(neg, nps, pos, Sign::Either, true);
    let fc = filter_pieces(pos, pps, neg, Sign::Plus, false);
    let sps = fa + fb + fc;
    lemma_filter_pieces(neg, nps, pos, Sign::Minus, false, shorthand, w);
    lemma_filter_pieces(neg, nps, pos, Sign::Either, true, shorthand, w);
    lemma_filter_pieces(pos, pps, neg, Sign::Plus, false, shorthand, w);
    lemma_pattern_concat(fa + fb, fc, w);
    lemma_pattern_concat(fa, fb, w);
    let tail = w.drop_first();
    let negw = w.len() > 0 && w[0] == '-' && zpattern_matches(nps, tail);
    let posw = zpattern_matches(pps, w);
    if pattern_matches(sps, w) {
        if pattern_matches(fa, w) {
            let i = choose|i: int|
                0 <= i < neg.len() && contains_string(pos, neg[i].string) == false
                    && signed_matches(Signed { sign: Sign::Minus, piece: nps[i] }, w);
            assert(zpiece_matches(nps[i], tail));
            assert(negw);
        } else if pattern_matches(fb, w) {
            let i = choose|i: int|
                0 <= i < neg.len() && contains_string(pos, neg[i].string) == true
                    && signed_matches(Signed { sign: Sign::Either, piece: nps[i] }, w);
            if w.len() > 0 && w[0] == '-' && zpiece_matches(nps[i], tail) {
                assert(negw);
            } else {
                let j = choose|j: int| 0 <= j < pos.len() && pos[j].string == neg[i].string;
                assert(nps[i] == pps[j]);
                assert(posw);
            }
        } else {
            let j = choose|j: int|
                0 <= j < pos.len() && contains_string(neg, pos[j].string) == false
                    && signed_matches(Signed { sign: Sign::Plus, piece: pps[j] }, w);
            assert(posw);
        }
    }
    if negw {
        let i = choose|i: int| 0 <= i < nps.len() && zpiece_matches(nps[i], tail);
        if contains_string(pos, neg[i].string) {
            assert(signed_matches(Signed { sign: Sign::Either, piece: nps[i] }, w));
            assert(pattern_matches(fb, w));
        } else {
            assert(signed_matches(Signed { sign: Sign::Minus, piece: nps[i] }, w));
            assert(pattern_matches(fa, w));
        }
    }
    if posw {
        let j = choose|j: int| 0 <= j < pps.len() && zpiece_matches(pps[j], w);
        if contains_string(neg, pos[j].string) {
            let i = choose|i: int| 0 <= i < neg.len() && neg[i].string == pos[j].string;
            assert(nps[i] == pps[j]);
            assert(contains_string(pos, neg[i].string));
            assert(signed_matches(Signed { sign: Sign::Either, piece: nps[i] }, w));
            assert(pattern_matches(fb, w));
        } else {
            assert(signed_matches(Signed { sign: Sign::Plus, piece: pps[j] }, w));
            assert(pattern_matches(fc, w));
        }
    }
}

/// A piece without zeros of its own.
pub open spec fn bare(p: Piece) -> ZPiece {
    ZPiece { zfewest: 0, zmost: 0, piece: p }
}

/// A piece without zeros matches and reads as the piece itself.
proof fn lemma_bare(p: Piece, w: Seq<char>, shorthand: bool)
    ensures
        zpiece_matches(bare(p), w) <==> piece_matches(p, w),
        zpiece_source(bare(p), shorthand) == piece_source(p, shorthand),
{
    assert(w.skip(0) =~= w);
    assert(w.take(0) =~= zeros(0));
    assert(Seq::<char>::empty() + piece_source(p, shorthand) =~= piece_source(p, shorthand));
    if piece_matches(p, w) {
        assert(w.take(0int) == zeros(0));
        assert(piece_matches(p, w.skip(0int)));
    }
}

/// The pieces of `ps` without zeros.
pub open spec fn bare_all(ps: Seq<Piece>) -> Seq<ZPiece> {
    ps.map_values(|p: Piece| bare(p))
}

/// An alternation of pieces without zeros matches what the pieces match.
proof fn lemma_bare_all(ps: Seq<Piece>, w: Seq<char>)
    ensures
        zpattern_matches(bare_all(ps), w) <==> alternation_matches(ps, w),
{
    let zs = bare_all(ps);
    if zpattern_matches(zs, w) {
        let i = choose|i: int| 0 <= i < zs.len() && zpiece_matches(zs[i], w);
        lemma_bare(ps[i], w, false);
    }
    if alternation_matches(ps, w) {
        let i = choose|i: int| 0 <= i < ps.len() && piece_matches(ps[i], w);
        lemma_bare(ps[i], w, false);
        assert(zs[i] == bare(ps[i]));
    }
}

/// The pattern for a single integer is its text.
proof fn lemma_plain_one(x: int, shorthand: bool) -> (sps: Seq<Signed>)
    requires
        -9223372036854775808 <= x <= 9223372036854775807,
    ensures
        pattern_source(sps, shorthand) == int_text(x),
        forall|i: int| 0 <= i < sps.len() ==> (#[trigger] sps[i]).piece.zmost == 0,
        forall|w: Seq<char>| #[trigger] pattern_matches(sps, w) <==> names_int(x, x, w),
{
    let tx = int_text(x);
    let a = x;
    let b = x;
    let sp = Signed { sign: Sign::Plus, piece: literal_zpiece(tx) };
    let sps = seq![sp];
    lemma_literal_zpiece(tx, tx, shorthand);
    assert(sps.map_values(|sp: Signed| signed_source(sp, shorthand)) =~= seq![tx]);
    assert forall|w: Seq<char>| #[trigger] pattern_matches(sps, w) <==> names_int(a, b, w) by {
        lemma_literal_zpiece(tx, w, shorthand);
        if names_int(a, b, w) {
            let v = choose|v: int| a <= v <= b && w == #[trigger] int_text(v);
            assert(v == x);
        }
        if w == tx {
            assert(sps[0] == sp);
            assert(int_text(x) == w);
        }
    }
    sps
}

/// The pattern for two neighbouring integers lists both texts.
proof fn lemma_plain_two(x: int, y: int, shorthand: bool) -> (sps: Seq<Signed>)
    requires
        -9223372036854775808 <= x <= 9223372036854775807,
        -9223372036854775808 <= y <= 9223372036854775807,
        x == y + 1 || y == x + 1,
    ensures
        pattern_source(sps, shorthand) == int_text(x) + seq!['|'] + int_text(y),
        forall|i: int| 0 <= i < sps.len() ==> (#[trigger] sps[i]).piece.zmost == 0,
        forall|w: Seq<char>|
            #[trigger] pattern_matches(sps, w) <==> names_int(
                if x <= y {
                    x
                } else {
                    y
                },
                if x <= y {
                    y
                } else {
                    x
                },
                w,
            ),
{
    let tx = int_text(x);
    let ty = int_text(y);
    let a = if x <= y {
        x
    } else {
        y
    };
    let b = if x <= y {
        y
    } else {
        x
    };
    let s0 = Signed { sign: Sign::Plus, piece: literal_zpiece(tx) };
    let s1 = Signed { sign: Sign::Plus, piece: literal_zpiece(ty) };
    let sps = seq![s0, s1];
    lemma_literal_zpiece(tx, tx, shorthand);
    lemma_literal_zpiece(ty, ty, shorthand);
    let parts = sps.map_values(|sp: Signed| signed_source(sp, shorthand));
    assert(parts =~= seq![tx, ty]);
    assert(parts.drop_last() =~= seq![tx]);
    assert(join(parts.drop_last(), seq!['|']) == tx);
    assert(parts.last() == ty);
    assert(pattern_source(sps, shorthand) == tx + seq!['|'] + ty);
    assert forall|w: Seq<char>| #[trigger] pattern_matches(sps, w) <==> names_int(a, b, w) by {
        lemma_literal_zpiece(tx, w, shorthand);
        lemma_literal_zpiece(ty, w, shorthand);
        if pattern_matches(sps, w) {
            let i = choose|i: int| 0 <= i < sps.len() && signed_matches(sps[i], w);
            if i == 0 {
                assert(w == int_text(x));
            } else {
                assert(w == int_text(y));
            }
        }
        if names_int(a, b, w) {
            let v = choose|v: int| a <= v <= b && w == #[trigger] int_text(v);
            if v == x {
                assert(signed_matches(sps[0], w));
            } else {
                assert(v == y);
                assert(signed_matches(sps[1], w));
            }
        }
    }
    sps
}

/// The collated pattern for an interval of integers matches exactly its
/// texts.
#[verifier::rlimit(30)]
#[verifier::spinoff_prover]
proof fn lemma_plain_general(a: int, b: int, relax: bool, shorthand: bool) -> (sps: Seq<Signed>)
    requires
        -9223372036854775808 <= a <= b <= 9223372036854775807,
    ensures
        collate_spec(
            if a < 0 {
                split_spec(
                    if b < 0 {
                        -b
                    } else {
                        1
                    },
                    -a,
                    false,
                    0,
                    relax,
                    shorthand,
                )
            } else {
                Seq::empty()
            },
            if b >= 0 {
                split_spec(
                    if a < 0 {
                        0
                    } else {
                        a
                    },
                    b,
                    false,
                    0,
                    relax,
                    shorthand,
                )
            } else {
                Seq::empty()
            },
        ) == pattern_source(sps, shorthand),
        forall|i: int| 0 <= i < sps.len() ==> (#[trigger] sps[i]).piece.zmost == 0,
        forall|w: Seq<char>| #[trigger] pattern_matches(sps, w) <==> names_int(a, b, w),
{
    let nlo = if b < 0 {
        -b
    } else {
        1
    };
    let plo = if a < 0 {
        0
    } else {
        a
    };
    let neg = if a < 0 {
        split_spec(nlo, -a, false, 0, relax, shorthand)
    } else {
        Seq::empty()
    };
    let pos = if b >= 0 {
        split_spec(plo, b, false, 0, relax, shorthand)
    } else {
        Seq::empty()
    };
    let nps = if a < 0 {
        lemma_split_cover(nlo, -a, relax, shorthand)
    } else {
        Seq::empty()
    };
    let pps = if b >= 0 {
        lemma_split_cover(plo, b, relax, shorthand)
    } else {
        Seq::empty()
    };
    assert(neg.len() == nps.len());
    assert(pos.len() == pps.len());
    let nzs = bare_all(nps);
    let pzs = bare_all(pps);
    assert forall|i: int| 0 <= i < neg.len() implies neg[i].string == zpiece_source(
        nzs[i],
        shorthand,
    ) by {
        assert(piece_ok(nps[i]) && token_of(neg[i], nps[i], shorthand));
        lemma_bare(nps[i], Seq::empty(), shorthand);
    }
    assert forall|i: int| 0 <= i < pos.len() implies pos[i].string == zpiece_source(
        pzs[i],
        shorthand,
    ) by {
        assert(piece_ok(pps[i]) && token_of(pos[i], pps[i], shorthand));
        lemma_bare(pps[i], Seq::empty(), shorthand);
    }
    assert forall|i: int, j: int|
        #![trigger neg[i], pos[j]]
        0 <= i < neg.len() && 0 <= j < pos.len() && neg[i].string == pos[j].string implies nzs[i]
        == pzs[j] by {
        assert(piece_ok(nps[i]) && token_of(neg[i], nps[i], shorthand));
        assert(piece_ok(pps[j]) && token_of(pos[j], pps[j], shorthand));
        lemma_source_injective(nps[i], pps[j], shorthand);
    }
    let fa = filter_pieces(neg, nzs, pos, Sign::Minus, false);
    let fb = filter_pieces(neg, nzs, pos, Sign::Either, true);
    let fc = filter_pieces(pos, pzs, neg, Sign::Plus, false);
    let sps = fa + fb + fc;
    lemma_filter_pieces(neg, nzs, pos, Sign::Minus, false, shorthand, Seq::empty());
    lemma_filter_pieces(neg, nzs, pos, Sign::Either, true, shorthand, Seq::empty());
    lemma_filter_pieces(pos, pzs, neg, Sign::Plus, false, shorthand, Seq::empty());
    assert(sign_source(Sign::Minus) == seq!['-']);
    assert(sign_source(Sign::Either) == seq!['-', '?']);
    assert(sign_source(Sign::Plus) == Seq::<char>::empty());
    assert(sps.map_values(|sp: Signed| signed_source(sp, shorthand)) =~= fa.map_values(
        |sp: Signed| signed_source(sp, shorthand),
    ) + fb.map_values(|sp: Signed| signed_source(sp, shorthand)) + fc.map_values(
        |sp: Signed| signed_source(sp, shorthand),
    ));
    assert(collate_spec(neg, pos) == pattern_source(sps, shorthand));
    assert forall|k: int| 0 <= k < sps.len() implies (#[trigger] sps[k]).piece.zmost == 0 by {
        if k < fa.len() {
            assert(sps[k] == fa[k]);
            let i = choose|i: int| 0 <= i < nzs.len() && fa[k].piece == #[trigger] nzs[i];
        } else if k < fa.len() + fb.len() {
            assert(sps[k] == fb[k - fa.len()]);
            let i = choose|i: int|
                0 <= i < nzs.len() && fb[k - fa.len()].piece == #[trigger] nzs[i];
        } else {
            assert(sps[k] == fc[k - fa.len() - fb.len()]);
            let i = choose|i: int|
                0 <= i < pzs.len() && fc[k - fa.len() - fb.len()].piece == #[trigger] pzs[i];
        }
    }
    assert forall|w: Seq<char>| #[trigger] pattern_matches(sps, w) <==> names_int(a, b, w) by {
        lemma_collate_lang(neg, nzs, pos, pzs, shorthand, w);
        lemma_names_int_split(a, b, w);
        let tail = w.drop_first();
        lemma_bare_all(nps, tail);
        lemma_bare_all(pps, w);
        assert(a < 0 ==> (alternation_matches(nps, tail) <==> names_one_of(nlo, -a, tail)));
        assert(b >= 0 ==> (alternation_matches(pps, w) <==> names_one_of(plo, b, w)));
        assert(a >= 0 ==> !alternation_matches(nps, tail));
        assert(b < 0 ==> !alternation_matches(pps, w));
    }
    sps
}

/// The pattern built for two `i64` bounds, in either order, is the source of
/// an alternation of signed pieces without zero runs, alone or inside one
/// group, and a text is matched by one of those pieces exactly when it is the
/// decimal text of an integer between the bounds.
#[verifier::rlimit(30)]
#[verifier::spinoff_prover]
pub proof fn law_range_pattern_matches_exactly(
    x: int,
    y: int,
    relax: bool,
    shorthand: bool,
    capture: bool,
    wrap: bool,
) -> (sps: Seq<Signed>)
    requires
        -9223372036854775808 <= x <= 9223372036854775807,
        -9223372036854775808 <= y <= 9223372036854775807,
    ensures
        regex_range_spec(int_text(x), int_text(y), relax, shorthand, capture, wrap) matches Some(r)
            && (r == pattern_source(sps, shorthand) || r == group(pattern_source(sps, shorthand))
            || r == plain_group(pattern_source(sps, shorthand))),
        forall|i: int| 0 <= i < sps.len() ==> (#[trigger] sps[i]).piece.zmost == 0,
        forall|w: Seq<char>|
            #[trigger] pattern_matches(sps, w) <==> names_int(
                if x <= y {
                    x
                } else {
                    y
                },
                if x <= y {
                    y
                } else {
                    x
                },
                w,
            ),
{
    lemma_int_text_plain(x);
    lemma_int_text_plain(y);
    let tx = int_text(x);
    let ty = int_text(y);
    let a = if x <= y {
        x
    } else {
        y
    };
    let b = if x <= y {
        y
    } else {
        x
    };
    if tx == ty {
        lemma_int_text_injective(x, y);
        lemma_plain_one(x, shorthand)
    } else if b - a == 1 {
        lemma_plain_two(x, y, shorthand)
    } else {
        lemma_plain_general(a, b, relax, shorthand)
    }
}

// ---------------------------------------------------------------------------
// Padded bounds.
// ---------------------------------------------------------------------------

/// A piece preceded by between `zfewest` and `zmost` zeros.
pub struct ZPiece {
    pub zfewest: nat,
    pub zmost: nat,
    pub piece: Piece,
}

/// The source of a run of between `fewest` and `most` zeros.
pub open spec fn zeros_source(fewest: nat, most: nat) -> Seq<char> {
    if most == 0 {
        Seq::empty()
    } else if fewest == most {
        if most == 1 {
            seq!['0']
        } else if most == 2 {
            seq!['0', '0']
        } else {
            seq!['0', '{'] + nat_text(most) + seq!['}']
        }
    } else if most == 1 {
        seq!['0', '?']
    } else {
        seq!['0', '{'] + nat_text(fewest) + seq![','] + nat_text(most) + seq!['}']
    }
}

/// The regex source of a piece with its zeros.
pub open spec fn zpiece_source(zp: ZPiece, shorthand: bool) -> Seq<char> {
    zeros_source(zp.zfewest, zp.zmost) + piece_source(zp.piece, shorthand)
}

/// True when the piece with its zeros matches the whole of `w`.
pub open spec fn zpiece_matches(zp: ZPiece, w: Seq<char>) -> bool {
    exists|j: nat|
        zp.zfewest <= j <= zp.zmost && j <= w.len() && w.take(j as int) == #[trigger] zeros(j)
            && piece_matches(zp.piece, w.skip(j as int))
}

/// True when some piece of `zps` matches the whole of `w`.
pub open spec fn zpattern_matches(zps: Seq<ZPiece>, w: Seq<char>) -> bool {
    exists|i: int| 0 <= i < zps.len() && zpiece_matches(zps[i], w)
}

/// True when `w` is the decimal text of a number in `lo..=hi` behind at most
/// as many zeros as pad it to `width` characters (exactly as many when
/// `exact`).
pub open spec fn padded_names(lo: int, hi: int, width: int, exact: bool, w: Seq<char>) -> bool {
    exists|v: nat, j: nat|
        #![trigger nat_text(v), zeros(j)]
        lo <= v <= hi && j + nat_text(v).len() <= width && (exact ==> j + nat_text(v).len()
            == width) && w == zeros(j) + nat_text(v)
}

/// The zeros that pad the block ending at `stop` are a run of zeros.
proof fn lemma_zero_prefix(stop: int, width: int, relax: bool)
    requires
        0 <= stop,
        nat_text(stop as nat).len() <= width,
    ensures
        zero_prefix(stop, width, relax) == zeros_source(
            if relax {
                0
            } else {
                (width - nat_text(stop as nat).len()) as nat
            },
            (width - nat_text(stop as nat).len()) as nat,
        ),
{
    let d = (width - nat_text(stop as nat).len()) as nat;
    assert(abs(stop) == stop);
    assert(abs(width - nat_text(abs(stop) as nat).len()) == d);
    assert(nat_text(0) =~= seq!['0']);
    assert(int_text(d as int) == nat_text(d));
    if d == 2 {
        assert(nat_text(2) =~= seq!['2']);
        assert(seq!['0', '{'] + nat_text(0) + seq![','] + nat_text(2) + seq!['}'] =~= seq![
            '0',
            '{',
            '0',
            ',',
            '2',
            '}',
        ]);
    }
    if d > 2 && relax {
        assert(seq!['0', '{'] + nat_text(0) + seq![','] + nat_text(d) + seq!['}'] =~= seq![
            '0',
            '{',
            '0',
            ',',
        ] + int_text(d as int) + seq!['}']);
    }
}

/// A piece whose source starts with something and starts with a zero only
/// when it is the literal `0`.
pub open spec fn piece_starts_well(p: Piece) -> bool {
    &&& (p.lits.len() > 0 || p.class is Some || p.most > 0)
    &&& (p.lits.len() > 0 && p.lits[0] == '0') ==> (p.lits == seq!['0'] && p.class is None
        && p.most == 0)
}

/// The token of a block, its source and its language.
proof fn lemma_block_token(s: int, t: int, k: nat, shorthand: bool) -> (pn: Piece)
    requires
        0 <= s <= t,
        block(s, t, k),
    ensures
        piece_ok(pn),
        pn.fewest == pn.most,
        range_pattern(nat_text(s as nat), nat_text(t as nat), shorthand).pattern == piece_head(
            pn,
            shorthand,
        ),
        range_pattern(nat_text(s as nat), nat_text(t as nat), shorthand).count == count_of(pn),
        range_pattern(nat_text(s as nat), nat_text(t as nat), shorthand).pattern + quantifier(
            range_pattern(nat_text(s as nat), nat_text(t as nat), shorthand).count,
        ) == piece_source(pn, shorthand),
        forall|w: Seq<char>| piece_matches(pn, w) <==> names_one_of(s, t, w),
        forall|w: Seq<char>| piece_matches(pn, w) ==> w.len() == nat_text(t as nat).len(),
        piece_starts_well(pn),
{
    let tx = lemma_block_texts(s, t, k);
    let (lits, a, b, kk) = tx;
    let st = nat_text(s as nat);
    let tt = nat_text(t as nat);
    let obj = range_pattern(st, tt, shorthand);
    let pn = block_piece(lits, a, b, kk);
    lemma_block_pattern(lits, a, b, kk, st, tt, shorthand);
    assert(obj.pattern == piece_head(pn, shorthand)) by {
        if st == tt {
            assert(piece_head(pn, shorthand) =~= lits.push(a));
            assert(st =~= lits.push(a));
        }
    }
    assert(quantifier(obj.count) =~= repeat_source(pn.fewest, pn.most));
    assert(obj.pattern + quantifier(obj.count) =~= piece_source(pn, shorthand));
    assert forall|w: Seq<char>| piece_matches(pn, w) <==> names_one_of(s, t, w) by {
        lemma_block_piece_shape(lits, a, b, kk, w);
        lemma_text_block_lang(lits, a, b, kk, s as nat, t as nat, w);
    }
    assert forall|w: Seq<char>| piece_matches(pn, w) implies w.len() == tt.len() by {
        lemma_block_piece_shape(lits, a, b, kk, w);
    }
    assert(piece_starts_well(pn)) by {
        if a == b {
            assert(pn.lits[0] == (if lits.len() > 0 {
                lits[0]
            } else {
                a
            }));
            if lits.len() == 0 && a == '0' {
                assert(pn.lits =~= seq!['0']);
            }
        }
    }
    pn
}

/// `tokens` write out the padded pieces `zps`, which match texts of numbers
/// in `m..next` behind zeros, and match every such text padded to `width`.
pub open spec fn padded_cover(
    tokens: Seq<TokenModel>,
    zps: Seq<ZPiece>,
    m: int,
    next: int,
    width: int,
    relax: bool,
    shorthand: bool,
) -> bool {
    &&& tokens.len() == zps.len()
    &&& forall|i: int| 0 <= i < zps.len() ==> #[trigger] tokens[i].string == zpiece_source(zps[i], shorthand)
    &&& forall|i: int|
        0 <= i < zps.len() ==> piece_ok(#[trigger] zps[i].piece) && piece_starts_well(
            zps[i].piece,
        ) && (relax ==> zps[i].zfewest == 0) && (!relax ==> zps[i].zfewest == zps[i].zmost)
    &&& forall|w: Seq<char>| #[trigger]
        zpattern_matches(zps, w) ==> padded_names(m, next - 1, width, !relax, w)
    &&& forall|v: nat| m <= v < next ==> zpattern_matches(zps, #[trigger] left_pad(nat_text(v), width))
    &&& relax ==> forall|v: nat, j: nat|
        #![trigger nat_text(v), zeros(j)]
        m <= v < next && j + nat_text(v).len() <= width ==> zpattern_matches(
            zps,
            zeros(j) + nat_text(v),
        )
}

/// Matching an alternation of padded pieces with one more piece.
proof fn lemma_zpattern_push(zps: Seq<ZPiece>, zp: ZPiece, w: Seq<char>)
    ensures
        zpattern_matches(zps.push(zp), w) <==> zpattern_matches(zps, w) || zpiece_matches(zp, w),
{
    let q = zps.push(zp);
    if zpattern_matches(q, w) {
        let i = choose|i: int| 0 <= i < q.len() && zpiece_matches(q[i], w);
        if i < zps.len() {
            assert(q[i] == zps[i]);
        }
    }
    if zpattern_matches(zps, w) {
        let i = choose|i: int| 0 <= i < zps.len() && zpiece_matches(zps[i], w);
        assert(q[i] == zps[i]);
    }
    if zpiece_matches(zp, w) {
        assert(q[zps.len() as int] == zp);
    }
}

/// A padded text of a number whose text is no wider than `width`.
proof fn lemma_left_pad_nat(v: nat, width: int)
    requires
        nat_text(v).len() <= width,
    ensures
        left_pad(nat_text(v), width) == zeros((width - nat_text(v).len()) as nat) + nat_text(v),
{
    let d = (width - nat_text(v).len()) as nat;
    assert(zero_run(width - nat_text(v).len()) =~= zeros(d));
    if nat_text(v).len() == width {
        assert(zeros(0) + nat_text(v) =~= nat_text(v));
    }
}

/// Adding the padded token of the next block keeps tokens and pieces in step.
#[verifier::rlimit(30)]
#[verifier::spinoff_prover]
proof fn lemma_padded_add_block(
    tokens: Seq<TokenModel>,
    zps: Seq<ZPiece>,
    m: int,
    s: int,
    t: int,
    k: nat,
    width: int,
    relax: bool,
    shorthand: bool,
) -> (zps2: Seq<ZPiece>)
    requires
        0 <= m <= s <= t,
        block(s, t, k),
        nat_text(t as nat).len() <= width,
        padded_cover(tokens, zps, m, s, width, relax, shorthand),
    ensures
        padded_cover(
            add_token(
                tokens,
                range_pattern(nat_text(s as nat), nat_text(t as nat), shorthand),
                t,
                true,
                width,
                relax,
            ),
            zps2,
            m,
            t + 1,
            width,
            relax,
            shorthand,
        ),
{
    let pn = lemma_block_token(s, t, k, shorthand);
    let obj = range_pattern(nat_text(s as nat), nat_text(t as nat), shorthand);
    let n = nat_text(t as nat).len();
    let d = (width - n) as nat;
    let zf: nat = if relax {
        0
    } else {
        d
    };
    let zp = ZPiece { zfewest: zf, zmost: d, piece: pn };
    lemma_zero_prefix(t, width, relax);
    let result = add_token(tokens, obj, t, true, width, relax);
    assert(result == tokens.push(
        TokenModel {
            pattern: obj.pattern,
            count: obj.count,
            string: zero_prefix(t, width, relax) + obj.pattern + quantifier(obj.count),
        },
    ));
    assert(zero_prefix(t, width, relax) + obj.pattern + quantifier(obj.count) =~= zpiece_source(
        zp,
        shorthand,
    ));
    let zps2 = zps.push(zp);
    assert forall|i: int| 0 <= i < zps2.len() implies #[trigger] result[i].string == zpiece_source(
        zps2[i],
        shorthand,
    ) by {
        if i < zps.len() {
            assert(result[i] == tokens[i]);
            assert(zps2[i] == zps[i]);
        }
    }
    assert forall|w: Seq<char>| #[trigger]
        zpattern_matches(zps2, w) implies padded_names(m, t, width, !relax, w) by {
        lemma_zpattern_push(zps, zp, w);
        if zpattern_matches(zps, w) {
            assert(padded_names(m, s - 1, width, !relax, w));
            let (v, j) = choose|v: nat, j: nat|
                #![trigger nat_text(v), zeros(j)]
                m <= v <= s - 1 && j + nat_text(v).len() <= width && (!relax ==> j + nat_text(
                    v,
                ).len() == width) && w == zeros(j) + nat_text(v);
            assert(padded_names(m, t, width, !relax, w));
        } else {
            let j = choose|j: nat|
                zp.zfewest <= j <= zp.zmost && j <= w.len() && w.take(j as int) == #[trigger] zeros(
                    j,
                ) && piece_matches(zp.piece, w.skip(j as int));
            let u = w.skip(j as int);
            assert(names_one_of(s, t, u));
            let v = choose|v: nat| s <= v <= t && u == #[trigger] nat_text(v);
            assert(u.len() == n);
            assert(w =~= zeros(j) + nat_text(v));
            assert(padded_names(m, t, width, !relax, w));
        }
    }
    assert forall|i: int| 0 <= i < zps2.len() implies piece_ok(#[trigger] zps2[i].piece)
        && piece_starts_well(zps2[i].piece) && (relax ==> zps2[i].zfewest == 0) && (!relax
        ==> zps2[i].zfewest == zps2[i].zmost) by {
        if i < zps.len() {
            assert(zps2[i] == zps[i]);
        }
    }
    if relax {
        assert forall|v: nat, j: nat|
            #![trigger nat_text(v), zeros(j)]
            m <= v < t + 1 && j + nat_text(v).len() <= width implies zpattern_matches(
            zps2,
            zeros(j) + nat_text(v),
        ) by {
            let w = zeros(j) + nat_text(v);
            lemma_zpattern_push(zps, zp, w);
            if v >= s {
                lemma_nat_text_len_mono(v, t as nat);
                assert(names_one_of(s, t, nat_text(v)));
                assert(piece_matches(pn, nat_text(v)));
                assert(w.take(j as int) =~= zeros(j));
                assert(w.skip(j as int) =~= nat_text(v));
                assert(zpiece_matches(zp, w));
            }
        }
    }
    assert forall|v: nat| m <= v < t + 1 implies zpattern_matches(
        zps2,
        #[trigger] left_pad(nat_text(v), width),
    ) by {
        let w = left_pad(nat_text(v), width);
        lemma_zpattern_push(zps, zp, w);
        if v >= s {
            lemma_nat_text_len_mono(v, t as nat);
            lemma_left_pad_nat(v, width);
            assert(names_one_of(s, t, nat_text(v)));
            assert(piece_matches(pn, nat_text(v)));
            assert(nat_text(v).len() == n);
            assert(w.take(d as int) =~= zeros(d));
            assert(w.skip(d as int) =~= nat_text(v));
            assert(zpiece_matches(zp, w));
        }
    }
    zps2
}

/// Adding the padded tokens of the blocks from the `i`-th split point on.
proof fn lemma_padded_walk(
    m: int,
    hi: int,
    q: Seq<int>,
    i: int,
    tokens: Seq<TokenModel>,
    zps: Seq<ZPiece>,
    width: int,
    relax: bool,
    shorthand: bool,
) -> (zps2: Seq<ZPiece>)
    requires
        0 <= m <= hi <= 9223372036854775808,
        nat_text(hi as nat).len() <= width,
        sorted_listing(q, stop_set(m, hi)),
        0 <= i <= q.len(),
        padded_cover(tokens, zps, m, start_at(m, q, i), width, relax, shorthand),
    ensures
        padded_cover(
            tokens_from(tokens, start_at(m, q, i), q.skip(i), true, width, relax, shorthand),
            zps2,
            m,
            hi + 1,
            width,
            relax,
            shorthand,
        ),
    decreases q.len() - i,
{
    lemma_stop_set(m, hi);
    assert forall|v: int| is_stop(m, hi, v) implies m <= v <= hi by {
        if v != hi {
            if exists|j: nat| 1 <= j <= 19 && #[trigger] nines(m, j) <= hi && v == nines(m, j) {
                let j = choose|j: nat| 1 <= j <= 19 && #[trigger] nines(m, j) <= hi && v == nines(m, j);
                lemma_nines_above(m, j);
            } else {
                let z = choose|z: nat|
                    1 <= z <= 19 && m < #[trigger] round_down(hi + 1, z) - 1 && v == round_down(hi + 1, z) - 1;
                lemma_round_down_below(hi + 1, z);
            }
        }
    }
    let s = start_at(m, q, i);
    if i == q.len() {
        assert(stop_set(m, hi).contains(hi));
        assert(q.contains(hi));
        let j = choose|j: int| 0 <= j < q.len() && q[j] == hi;
        assert(q.contains(q[q.len() - 1]));
        assert(stop_set(m, hi).contains(q[q.len() - 1]));
        if j < q.len() - 1 {
            assert(q[j] < q[q.len() - 1]);
        }
        assert(q.skip(i) =~= Seq::<int>::empty());
        zps
    } else {
        let t = q[i];
        assert(q.contains(t));
        assert(stop_set(m, hi).contains(t));
        assert(is_stop(m, hi, t));
        if i > 0 {
            assert(q.contains(q[i - 1]));
            assert(stop_set(m, hi).contains(q[i - 1]));
            assert(q[i - 1] < t);
        }
        assert forall|v: int| s <= v < t implies !#[trigger] is_stop(m, hi, v) by {
            if is_stop(m, hi, v) {
                assert(stop_set(m, hi).contains(v));
                assert(q.contains(v));
                let j = choose|j: int| 0 <= j < q.len() && q[j] == v;
                if j < i {
                    if j < i - 1 {
                        assert(q[j] < q[i - 1]);
                    }
                } else if j > i {
                    assert(q[i] < q[j]);
                }
            }
        }
        let k = lemma_block(m, hi, s, t);
        lemma_nat_text_len_mono(t as nat, hi as nat);
        let zps1 = lemma_padded_add_block(tokens, zps, m, s, t, k, width, relax, shorthand);
        assert(q.skip(i).drop_first() =~= q.skip(i + 1));
        assert(q.skip(i)[0] == t);
        lemma_padded_walk(
            m,
            hi,
            q,
            i + 1,
            add_token(
                tokens,
                range_pattern(nat_text(s as nat), nat_text(t as nat), shorthand),
                t,
                true,
                width,
                relax,
            ),
            zps1,
            width,
            relax,
            shorthand,
        )
    }
}


/// The padded tokens for `[m, hi]` write out pieces that match its padded
/// texts.
proof fn lemma_padded_split(m: int, hi: int, width: int, relax: bool, shorthand: bool) -> (zps: Seq<
    ZPiece,
>)
    requires
        0 <= m <= hi <= 9223372036854775808,
        nat_text(hi as nat).len() <= width,
    ensures
        padded_cover(split_spec(m, hi, true, width, relax, shorthand), zps, m, hi + 1, width, relax, shorthand),
{
    lemma_ranges_listing(m, hi);
    let q = ranges_spec(m, hi);
    assert(q.skip(0) =~= q);
    lemma_padded_walk(m, hi, q, 0, Seq::empty(), Seq::empty(), width, relax, shorthand)
}

/// The literal piece for `x`, without zeros of its own.
pub open spec fn literal_zpiece(x: Seq<char>) -> ZPiece {
    ZPiece { zfewest: 0, zmost: 0, piece: literal_piece(x) }
}

/// A literal piece without zeros matches and reads as its text.
proof fn lemma_literal_zpiece(x: Seq<char>, w: Seq<char>, shorthand: bool)
    ensures
        zpiece_matches(literal_zpiece(x), w) <==> w == x,
        zpiece_source(literal_zpiece(x), shorthand) == x,
{
    lemma_literal_piece(x, w);
    lemma_literal_piece(x, x);
    assert(w.skip(0) =~= w);
    assert(w.take(0) =~= zeros(0));
    assert(Seq::<char>::empty() + x =~= x);
    if w == x {
        assert(w.take(0int) == zeros(0));
        assert(piece_matches(literal_zpiece(x).piece, w.skip(0int)));
    }
}

/// The source of a well-started piece is non-empty, and starts with a zero
/// only when it is the literal `0`.
proof fn lemma_piece_source_first(p: Piece, shorthand: bool)
    requires
        piece_ok(p),
        piece_starts_well(p),
    ensures
        piece_source(p, shorthand).len() >= 1,
        piece_source(p, shorthand)[0] == '0' ==> piece_source(p, shorthand) == seq!['0'],
        piece_source(p, shorthand)[0] != '{',
{
    let h = piece_head(p, shorthand);
    let src = piece_source(p, shorthand);
    let c = class_source(p.class);
    let d: Seq<char> = if p.most > 0 {
        any_digit(shorthand)
    } else {
        Seq::empty()
    };
    assert(h == p.lits + c + d);
    if shorthand {
        assert(any_digit(shorthand) =~= seq!['\\', 'd']);
    } else {
        assert(any_digit(shorthand) =~= seq!['[', '0', '-', '9', ']']);
    }
    if p.lits.len() > 0 {
        assert(src[0] == p.lits[0]);
        if p.lits[0] == '0' {
            assert(h =~= seq!['0']);
            assert(repeat_source(p.fewest, p.most) =~= Seq::<char>::empty());
            assert(src =~= seq!['0']);
        }
    } else {
        match p.class {
            Some((lo, hi)) => {
                lemma_class_shape(lo, hi);
                assert(src[0] == c[0]);
            },
            None => {
                assert(src[0] == d[0]);
            },
        }
    }
}

/// The source of a run of at most `d` zeros.
proof fn lemma_zeros_source_shape(d: nat)
    ensures
        d == 0 ==> zeros_source(0, d) == Seq::<char>::empty(),
        d == 1 ==> zeros_source(0, d) == seq!['0', '?'],
        d >= 2 ==> zeros_source(0, d) == seq!['0', '{', '0', ','] + nat_text(d) + seq!['}'],
{
    if d >= 2 {
        assert(nat_text(0) =~= seq!['0']);
        assert(seq!['0', '{'] + nat_text(0) + seq![','] + nat_text(d) + seq!['}'] =~= seq![
            '0',
            '{',
            '0',
            ',',
        ] + nat_text(d) + seq!['}']);
    }
}

/// Two pieces with optional zero runs and the same source are the same.
#[verifier::rlimit(30)]
#[verifier::spinoff_prover]
proof fn lemma_zsource_injective(z1: ZPiece, z2: ZPiece, shorthand: bool)
    requires
        piece_ok(z1.piece),
        piece_ok(z2.piece),
        piece_starts_well(z1.piece),
        piece_starts_well(z2.piece),
        z1.zfewest == 0,
        z2.zfewest == 0,
        zpiece_source(z1, shorthand) == zpiece_source(z2, shorthand),
    ensures
        z1 == z2,
{
    let d1 = z1.zmost;
    let d2 = z2.zmost;
    let p1 = piece_source(z1.piece, shorthand);
    let p2 = piece_source(z2.piece, shorthand);
    let e1 = zeros_source(0, d1);
    let e2 = zeros_source(0, d2);
    let src = e1 + p1;
    assert(src == e2 + p2);
    lemma_zeros_source_shape(d1);
    lemma_zeros_source_shape(d2);
    lemma_piece_source_first(z1.piece, shorthand);
    lemma_piece_source_first(z2.piece, shorthand);
    lemma_nat_text_value(d1);
    lemma_nat_text_value(d2);
    if d1 == 0 && d2 >= 1 {
        assert(src[0] == e2[0]);
        assert(src[0] == p1[0]);
    } else if d2 == 0 && d1 >= 1 {
        assert(src[0] == e1[0]);
        assert(src[0] == p2[0]);
    } else if d1 == 1 && d2 >= 2 {
        assert(src[1] == e1[1]);
        assert(src[1] == e2[1]);
    } else if d2 == 1 && d1 >= 2 {
        assert(src[1] == e1[1]);
        assert(src[1] == e2[1]);
    } else if d1 >= 2 && d2 >= 2 {
        let t1 = nat_text(d1);
        let t2 = nat_text(d2);
        let i1: int = 4 + t1.len() as int;
        let i2: int = 4 + t2.len() as int;
        assert(src[i1] == e1[i1]);
        assert(e1[i1] == '}');
        assert(e2[i2] == '}');
        assert(src[i2] == e2[i2]);
        if i1 < i2 {
            assert(src[i1] == e2[i1]);
            assert(e2[i1] == t2[i1 - 4]);
            assert(is_digit(t2[i1 - 4]));
        } else if i2 < i1 {
            assert(src[i2] == e1[i2]);
            assert(e1[i2] == t1[i2 - 4]);
            assert(is_digit(t1[i2 - 4]));
        } else {
            assert(t1 =~= src.subrange(4, i1));
            assert(t2 =~= src.subrange(4, i2));
            lemma_nat_text_injective(d1, d2);
        }
    }
    assert(d1 == d2);
    assert(e1 == e2);
    assert(p1 =~= src.skip(e1.len() as int));
    assert(p2 =~= src.skip(e2.len() as int));
    lemma_source_injective(z1.piece, z2.piece, shorthand);
}


/// Two pieces with exact zero runs and the same source are the same.
#[verifier::rlimit(30)]
#[verifier::spinoff_prover]
proof fn lemma_zsource_injective_exact(z1: ZPiece, z2: ZPiece, shorthand: bool)
    requires
        piece_ok(z1.piece),
        piece_ok(z2.piece),
        piece_starts_well(z1.piece),
        piece_starts_well(z2.piece),
        z1.zfewest == z1.zmost,
        z2.zfewest == z2.zmost,
        zpiece_source(z1, shorthand) == zpiece_source(z2, shorthand),
    ensures
        z1 == z2,
{
    let d1 = z1.zmost;
    let d2 = z2.zmost;
    let p1 = piece_source(z1.piece, shorthand);
    let p2 = piece_source(z2.piece, shorthand);
    let e1 = zeros_source(d1, d1);
    let e2 = zeros_source(d2, d2);
    let src = e1 + p1;
    assert(src == e2 + p2);
    lemma_piece_source_first(z1.piece, shorthand);
    lemma_piece_source_first(z2.piece, shorthand);
    lemma_nat_text_value(d1);
    lemma_nat_text_value(d2);
    if d1 <= 2 {
        assert(e1 =~= zeros(d1)) by {
            if d1 == 1 {
                assert(e1 =~= seq!['0']);
            } else if d1 == 2 {
                assert(e1 =~= seq!['0', '0']);
            }
        }
    }
    if d2 <= 2 {
        assert(e2 =~= zeros(d2)) by {
            if d2 == 1 {
                assert(e2 =~= seq!['0']);
            } else if d2 == 2 {
                assert(e2 =~= seq!['0', '0']);
            }
        }
    }
    if d1 >= 3 && d2 >= 3 {
        let t1 = nat_text(d1);
        let t2 = nat_text(d2);
        assert(e1 == seq!['0', '{'] + t1 + seq!['}']);
        assert(e2 == seq!['0', '{'] + t2 + seq!['}']);
        let i1: int = 2 + t1.len() as int;
        let i2: int = 2 + t2.len() as int;
        assert(src[i1] == e1[i1]);
        assert(e1[i1] == '}');
        assert(e2[i2] == '}');
        assert(src[i2] == e2[i2]);
        if i1 < i2 {
            assert(src[i1] == e2[i1]);
            assert(e2[i1] == t2[i1 - 2]);
            assert(is_digit(t2[i1 - 2]));
        } else if i2 < i1 {
            assert(src[i2] == e1[i2]);
            assert(e1[i2] == t1[i2 - 2]);
            assert(is_digit(t1[i2 - 2]));
        } else {
            assert(t1 =~= src.subrange(2, i1));
            assert(t2 =~= src.subrange(2, i2));
            lemma_nat_text_injective(d1, d2);
        }
    } else if d1 >= 3 {
        assert(e1 == seq!['0', '{'] + nat_text(d1) + seq!['}']);
        assert(src[1] == '{');
        if d2 == 0 {
            assert(src[0] == p2[0]);
        } else if d2 == 1 {
            assert(src[1] == p2[0]);
        } else {
            assert(src[1] == e2[1]);
        }
    } else if d2 >= 3 {
        assert(e2 == seq!['0', '{'] + nat_text(d2) + seq!['}']);
        assert(src[1] == '{');
        if d1 == 0 {
            assert(src[0] == p1[0]);
        } else if d1 == 1 {
            assert(src[1] == p1[0]);
        } else {
            assert(src[1] == e1[1]);
        }
    } else if d1 < d2 {
        assert(src[d1 as int] == p1[0]);
        assert(src[d1 as int] == e2[d1 as int]);
    } else if d2 < d1 {
        assert(src[d2 as int] == p2[0]);
        assert(src[d2 as int] == e1[d2 as int]);
    }
    assert(d1 == d2);
    assert(e1 == e2);
    assert(p1 =~= src.skip(e1.len() as int));
    assert(p2 =~= src.skip(e2.len() as int));
    lemma_source_injective(z1.piece, z2.piece, shorthand);
}

// ---------------------------------------------------------------------------
// The law for padded bounds.
// ---------------------------------------------------------------------------

/// The digits of the magnitude of `v`.
pub open spec fn magnitude_text(v: int) -> Seq<char> {
    nat_text(if v < 0 {
        (-v) as nat
    } else {
        v as nat
    })
}

/// A minus sign for a negative `v`, else nothing.
pub open spec fn sign_text(v: int) -> Seq<char> {
    if v < 0 {
        seq!['-']
    } else {
        Seq::empty()
    }
}

/// True when `w` is an integer in `lo..=hi` written as its sign, then zeros,
/// then its digits, with digits and zeros together at most `width` long
/// (and, when `exact`, sign, zeros and digits together exactly `width`).
pub open spec fn padded_int_names(lo: int, hi: int, width: int, exact: bool, w: Seq<char>) -> bool {
    exists|v: int, j: nat|
        #![trigger magnitude_text(v), zeros(j)]
        lo <= v <= hi && j + magnitude_text(v).len() <= width && (exact ==> sign_text(v).len() + j
            + magnitude_text(v).len() == width) && w == sign_text(v) + zeros(j) + magnitude_text(v)
}

/// `src` is the source of an alternation of signed pieces, alone or inside
/// one group, that matches the text of every integer in `lo..=hi` padded to
/// `width`, and only integers of `lo..=hi` behind zeros (see
/// `padded_int_names`).
pub open spec fn source_names_padded_ints(
    src: Seq<char>,
    lo: int,
    hi: int,
    width: int,
    exact: bool,
    shorthand: bool,
) -> bool {
    exists|sps: Seq<Signed>|
        (src == #[trigger] pattern_source(sps, shorthand) || src == group(
            pattern_source(sps, shorthand),
        ) || src == plain_group(pattern_source(sps, shorthand))) && (forall|v: int|
            lo <= v <= hi ==> pattern_matches(
                sps,
                #[trigger] crate::text::to_max_len(int_text(v), width),
            )) && forall|w: Seq<char>| #[trigger]
            pattern_matches(sps, w) ==> padded_int_names(lo, hi, width, exact, w)
}

/// The text of an integer padded to `width`: its sign, zeros, its digits.
proof fn lemma_padded_int_text(v: int, width: int)
    requires
        int_text(v).len() <= width,
    ensures
        crate::text::to_max_len(int_text(v), width) == sign_text(v) + zeros(
            (width - int_text(v).len()) as nat,
        ) + magnitude_text(v),
        int_text(v) == sign_text(v) + magnitude_text(v),
        crate::text::to_max_len(int_text(v), width).len() == width,
{
    let u: nat = if v < 0 {
        (-v) as nat
    } else {
        v as nat
    };
    lemma_nat_text_value(u);
    let t = int_text(v);
    if v < 0 {
        assert(crate::text::has_dash(t));
        assert(t.drop_first() =~= nat_text(u));
        lemma_left_pad_nat(u, width - 1);
        assert(crate::text::to_max_len(t, width) =~= seq!['-'] + zeros(
            (width - t.len()) as nat,
        ) + nat_text(u));
    } else {
        assert(!crate::text::has_dash(t)) by {
            assert(is_digit(t[0]));
        }
        lemma_left_pad_nat(u, width);
        assert(Seq::<char>::empty() + zeros((width - t.len()) as nat) + nat_text(u) =~= zeros(
            (width - t.len()) as nat,
        ) + nat_text(u));
    }
    assert(sign_text(v) + magnitude_text(v) =~= t);
}

/// A padded text parses back to its integer, is padded when it gained a
/// zero, and is named by `padded_int_names`.
#[verifier::rlimit(30)]
#[verifier::spinoff_prover]
proof fn lemma_padded_int(x: int, width: int, lo: int, hi: int, relax: bool)
    requires
        -9223372036854775808 <= x <= 9223372036854775807,
        int_text(x).len() <= width,
        lo <= x <= hi,
    ensures
        parse_i64_spec(crate::text::to_max_len(int_text(x), width)) == Some(x),
        padded_int_names(lo, hi, width, !relax, crate::text::to_max_len(int_text(x), width)),
{
    let px = crate::text::to_max_len(int_text(x), width);
    lemma_padded_int_text(x, width);
    let k = (width - int_text(x).len()) as nat;
    let m = magnitude_text(x);
    assert(sign_text(x).len() + k + m.len() == width);
    let u: nat = if x < 0 {
        (-x) as nat
    } else {
        x as nat
    };
    lemma_nat_text_value(u);
    lemma_zeros_value(k);
    lemma_digits_value_append(zeros(k), m);
    let body = zeros(k) + m;
    assert(all_digits(body)) by {
        assert forall|i: int| 0 <= i < body.len() implies is_digit(#[trigger] body[i]) by {
            if i < k {
                assert(body[i] == '0');
            } else {
                assert(body[i] == m[i - k]);
            }
        }
    }
    assert(digits_value(body) == u);
    if x < 0 {
        assert(px =~= seq!['-'] + body);
        assert(px.drop_first() =~= body);
        assert(padded_int_names(lo, hi, width, !relax, px)) by {
            assert(px == sign_text(x) + zeros(k) + magnitude_text(x));
        }
    } else {
        assert(px =~= body);
        assert(is_digit(body[0]));
        assert(padded_int_names(lo, hi, width, !relax, px)) by {
            assert(px == sign_text(x) + zeros(k) + magnitude_text(x));
        }
    }
}

/// The pattern for a single padded integer is its padded text.
#[verifier::rlimit(30)]
#[verifier::spinoff_prover]
proof fn lemma_padded_single(x: int, width: int, relax: bool, shorthand: bool) -> (sps: Seq<Signed>)
    requires
        -9223372036854775808 <= x <= 9223372036854775807,
        int_text(x).len() <= width,
    ensures
        pattern_source(sps, shorthand) == crate::text::to_max_len(int_text(x), width),
        forall|v: int| x <= v <= x ==> pattern_matches(sps, #[trigger] crate::text::to_max_len(int_text(v), width)),
        forall|w: Seq<char>| #[trigger] pattern_matches(sps, w) ==> padded_int_names(x, x, width, !relax, w),
{
    let px = crate::text::to_max_len(int_text(x), width);
    let sp = Signed { sign: Sign::Plus, piece: literal_zpiece(px) };
    let sps = seq![sp];
    lemma_literal_zpiece(px, px, shorthand);
    assert(sps.map_values(|sp: Signed| signed_source(sp, shorthand)) =~= seq![px]);
    assert(signed_matches(sps[0], px));
    assert forall|w: Seq<char>| #[trigger] pattern_matches(sps, w) implies padded_int_names(
        x,
        x,
        width,
        !relax,
        w,
    ) by {
        lemma_literal_zpiece(px, w, shorthand);
        if w == px {
            lemma_padded_int(x, width, x, x, relax);
        }
    }
    sps
}

/// The pattern for two neighbouring padded integers lists both padded texts.
#[verifier::rlimit(30)]
#[verifier::spinoff_prover]
proof fn lemma_padded_pair(x: int, y: int, width: int, relax: bool, shorthand: bool) -> (sps: Seq<
    Signed,
>)
    requires
        -9223372036854775808 <= x <= 9223372036854775807,
        -9223372036854775808 <= y <= 9223372036854775807,
        int_text(x).len() <= width,
        int_text(y).len() <= width,
        x == y + 1 || y == x + 1,
    ensures
        pattern_source(sps, shorthand) == crate::text::to_max_len(int_text(x), width) + seq!['|']
            + crate::text::to_max_len(int_text(y), width),
        forall|v: int|
            (if x <= y {
                x
            } else {
                y
            }) <= v <= (if x <= y {
                y
            } else {
                x
            }) ==> pattern_matches(sps, #[trigger] crate::text::to_max_len(int_text(v), width)),
        forall|w: Seq<char>|
            #[trigger] pattern_matches(sps, w) ==> padded_int_names(
                if x <= y {
                    x
                } else {
                    y
                },
                if x <= y {
                    y
                } else {
                    x
                },
                width,
                !relax,
                w,
            ),
{
    let px = crate::text::to_max_len(int_text(x), width);
    let py = crate::text::to_max_len(int_text(y), width);
    let a = if x <= y {
        x
    } else {
        y
    };
    let b = if x <= y {
        y
    } else {
        x
    };
    let s0 = Signed { sign: Sign::Plus, piece: literal_zpiece(px) };
    let s1 = Signed { sign: Sign::Plus, piece: literal_zpiece(py) };
    let sps = seq![s0, s1];
    lemma_literal_zpiece(px, px, shorthand);
    lemma_literal_zpiece(py, py, shorthand);
    let parts = sps.map_values(|sp: Signed| signed_source(sp, shorthand));
    assert(parts =~= seq![px, py]);
    assert(parts.drop_last() =~= seq![px]);
    assert(join(parts.drop_last(), seq!['|']) == px);
    assert(parts.last() == py);
    assert forall|v: int| a <= v <= b implies pattern_matches(
        sps,
        #[trigger] crate::text::to_max_len(int_text(v), width),
    ) by {
        if v == x {
            assert(signed_matches(sps[0], px));
        } else {
            assert(v == y);
            assert(signed_matches(sps[1], py));
        }
    }
    assert forall|w: Seq<char>| #[trigger] pattern_matches(sps, w) implies padded_int_names(
        a,
        b,
        width,
        !relax,
        w,
    ) by {
        lemma_literal_zpiece(px, w, shorthand);
        lemma_literal_zpiece(py, w, shorthand);
        let i = choose|i: int| 0 <= i < sps.len() && signed_matches(sps[i], w);
        if i == 0 {
            assert(w == px);
            lemma_padded_int(x, width, a, b, relax);
        } else {
            assert(w == py);
            lemma_padded_int(y, width, a, b, relax);
        }
    }
    sps
}

/// The collated padded pieces match the padded text of an integer of the
/// interval.
#[verifier::rlimit(30)]
#[verifier::spinoff_prover]
proof fn lemma_padded_complete(
    a: int,
    b: int,
    width: int,
    relax: bool,
    shorthand: bool,
    neg: Seq<TokenModel>,
    nzs: Seq<ZPiece>,
    pos: Seq<TokenModel>,
    pzs: Seq<ZPiece>,
    v: int,
)
    requires
        -9223372036854775808 <= a <= b <= 9223372036854775807,
        int_text(a).len() <= width,
        int_text(b).len() <= width,
        neg.len() == nzs.len(),
        pos.len() == pzs.len(),
        forall|i: int| 0 <= i < neg.len() ==> neg[i].string == zpiece_source(nzs[i], shorthand),
        forall|i: int| 0 <= i < pos.len() ==> pos[i].string == zpiece_source(pzs[i], shorthand),
        forall|i: int, j: int|
            #![trigger neg[i], pos[j]]
            0 <= i < neg.len() && 0 <= j < pos.len() && neg[i].string == pos[j].string ==> nzs[i]
                == pzs[j],
        a >= 0 ==> nzs.len() == 0,
        b < 0 ==> pzs.len() == 0,
        a < 0 && relax ==> forall|u: nat, j: nat|
            #![trigger nat_text(u), zeros(j)]
            (if b < 0 {
                -b
            } else {
                1
            }) <= u <= -a && j + nat_text(u).len() <= width ==> zpattern_matches(
                nzs,
                zeros(j) + nat_text(u),
            ),
        a < 0 && !relax ==> forall|u: nat|
            (if b < 0 {
                -b
            } else {
                1
            }) <= u <= -a ==> zpattern_matches(nzs, #[trigger] left_pad(nat_text(u), width - 1)),
        b >= 0 ==> forall|u: nat|
            (if a < 0 {
                0
            } else {
                a
            }) <= u <= b ==> zpattern_matches(pzs, #[trigger] left_pad(nat_text(u), width)),
        a <= v <= b,
    ensures
        pattern_matches(
            filter_pieces(neg, nzs, pos, Sign::Minus, false) + filter_pieces(
                neg,
                nzs,
                pos,
                Sign::Either,
                true,
            ) + filter_pieces(pos, pzs, neg, Sign::Plus, false),
            crate::text::to_max_len(int_text(v), width),
        ),
{
    let w = crate::text::to_max_len(int_text(v), width);
    lemma_collate_lang(neg, nzs, pos, pzs, shorthand, w);
    lemma_int_text_between_len(a, b, v);
    lemma_padded_int_text(v, width);
    let k = (width - int_text(v).len()) as nat;
    if v < 0 {
        let u = (-v) as nat;
        assert(w =~= seq!['-'] + (zeros(k) + nat_text(u)));
        assert(w.drop_first() =~= zeros(k) + nat_text(u));
        assert(k + nat_text(u).len() <= width);
        if relax {
            assert(zpattern_matches(nzs, zeros(k) + nat_text(u)));
        } else {
            lemma_left_pad_nat(u, width - 1);
            assert(left_pad(nat_text(u), width - 1) == zeros(k) + nat_text(u));
            assert(zpattern_matches(nzs, left_pad(nat_text(u), width - 1)));
        }
    } else {
        let u = v as nat;
        lemma_left_pad_nat(u, width);
        assert(w == left_pad(nat_text(u), width));
        assert(zpattern_matches(pzs, left_pad(nat_text(u), width)));
    }
}

/// What the collated padded pieces match is an integer of the interval
/// behind zeros.
#[verifier::rlimit(30)]
#[verifier::spinoff_prover]
proof fn lemma_padded_sound(
    a: int,
    b: int,
    width: int,
    relax: bool,
    shorthand: bool,
    neg: Seq<TokenModel>,
    nzs: Seq<ZPiece>,
    pos: Seq<TokenModel>,
    pzs: Seq<ZPiece>,
    w: Seq<char>,
)
    requires
        -9223372036854775808 <= a <= b <= 9223372036854775807,
        int_text(a).len() <= width,
        int_text(b).len() <= width,
        neg.len() == nzs.len(),
        pos.len() == pzs.len(),
        forall|i: int| 0 <= i < neg.len() ==> neg[i].string == zpiece_source(nzs[i], shorthand),
        forall|i: int| 0 <= i < pos.len() ==> pos[i].string == zpiece_source(pzs[i], shorthand),
        forall|i: int, j: int|
            #![trigger neg[i], pos[j]]
            0 <= i < neg.len() && 0 <= j < pos.len() && neg[i].string == pos[j].string ==> nzs[i]
                == pzs[j],
        a >= 0 ==> nzs.len() == 0,
        b < 0 ==> pzs.len() == 0,
        a < 0 ==> forall|t: Seq<char>| #[trigger]
            zpattern_matches(nzs, t) ==> padded_names(
                if b < 0 {
                    -b
                } else {
                    1
                },
                -a,
                if relax {
                    width
                } else {
                    width - 1
                },
                !relax,
                t,
            ),
        b >= 0 ==> forall|t: Seq<char>| #[trigger]
            zpattern_matches(pzs, t) ==> padded_names(
                if a < 0 {
                    0
                } else {
                    a
                },
                b,
                width,
                !relax,
                t,
            ),
        pattern_matches(
            filter_pieces(neg, nzs, pos, Sign::Minus, false) + filter_pieces(
                neg,
                nzs,
                pos,
                Sign::Either,
                true,
            ) + filter_pieces(pos, pzs, neg, Sign::Plus, false),
            w,
        ),
    ensures
        padded_int_names(a, b, width, !relax, w),
{
    let nlo = if b < 0 {
        -b
    } else {
        1
    };
    let plo = if a < 0 {
        0
    } else {
        a
    };
    lemma_collate_lang(neg, nzs, pos, pzs, shorthand, w);
    let tail = w.drop_first();
    let wn = if relax {
        width
    } else {
        width - 1
    };
    if w.len() > 0 && w[0] == '-' && zpattern_matches(nzs, tail) {
        assert(a < 0);
        assert(padded_names(nlo, -a, wn, !relax, tail));
        let (u, j) = choose|u: nat, j: nat|
            #![trigger nat_text(u), zeros(j)]
            nlo <= u <= -a && j + nat_text(u).len() <= wn && (!relax ==> j + nat_text(u).len()
                == wn) && tail == zeros(j) + nat_text(u);
        let v = -(u as int);
        assert(magnitude_text(v) == nat_text(u));
        assert(w =~= seq!['-'] + tail);
        assert(sign_text(v) == seq!['-']);
        assert(sign_text(v).len() == 1);
        assert(w =~= sign_text(v) + zeros(j) + magnitude_text(v));
    } else {
        assert(zpattern_matches(pzs, w));
        assert(b >= 0);
        assert(padded_names(plo, b, width, !relax, w));
        let (u, j) = choose|u: nat, j: nat|
            #![trigger nat_text(u), zeros(j)]
            plo <= u <= b && j + nat_text(u).len() <= width && (!relax ==> j + nat_text(u).len()
                == width) && w == zeros(j) + nat_text(u);
        let v = u as int;
        assert(magnitude_text(v) == nat_text(u));
        assert(sign_text(v).len() == 0);
        assert(w =~= sign_text(v) + zeros(j) + magnitude_text(v));
    }
}

/// The collated padded pattern for an interval of integers matches every
/// padded text of it, and only integers of it behind zeros.
#[verifier::rlimit(30)]
#[verifier::spinoff_prover]
proof fn lemma_padded_general(a: int, b: int, width: int, relax: bool, shorthand: bool) -> (sps: Seq<
    Signed,
>)
    requires
        -9223372036854775808 <= a <= b <= 9223372036854775807,
        int_text(a).len() <= width,
        int_text(b).len() <= width,
    ensures
        collate_spec(
            if a < 0 {
                split_spec(
                    if b < 0 {
                        -b
                    } else {
                        1
                    },
                    -a,
                    true,
                    if relax {
                        width
                    } else {
                        width - 1
                    },
                    relax,
                    shorthand,
                )
            } else {
                Seq::empty()
            },
            if b >= 0 {
                split_spec(
                    if a < 0 {
                        0
                    } else {
                        a
                    },
                    b,
                    true,
                    width,
                    relax,
                    shorthand,
                )
            } else {
                Seq::empty()
            },
        ) == pattern_source(sps, shorthand),
        forall|v: int| a <= v <= b ==> pattern_matches(sps, #[trigger] crate::text::to_max_len(int_text(v), width)),
        forall|w: Seq<char>| #[trigger] pattern_matches(sps, w) ==> padded_int_names(a, b, width, !relax, w),
{
    let nlo = if b < 0 {
        -b
    } else {
        1
    };
    let plo = if a < 0 {
        0
    } else {
        a
    };
    let wn = if relax {
        width
    } else {
        width - 1
    };
    let neg = if a < 0 {
        split_spec(nlo, -a, true, wn, relax, shorthand)
    } else {
        Seq::empty()
    };
    let pos = if b >= 0 {
        split_spec(plo, b, true, width, relax, shorthand)
    } else {
        Seq::empty()
    };
    if a < 0 {
        assert(int_text(a) == seq!['-'] + nat_text((-a) as nat));
    }
    let nzs = if a < 0 {
        lemma_padded_split(nlo, -a, wn, relax, shorthand)
    } else {
        Seq::empty()
    };
    let pzs = if b >= 0 {
        lemma_padded_split(plo, b, width, relax, shorthand)
    } else {
        Seq::empty()
    };
    assert(neg.len() == nzs.len());
    assert(pos.len() == pzs.len());
    assert forall|i: int, j: int|
        #![trigger neg[i], pos[j]]
        0 <= i < neg.len() && 0 <= j < pos.len() && neg[i].string == pos[j].string implies nzs[i]
        == pzs[j] by {
        assert(piece_ok(nzs[i].piece) && piece_starts_well(nzs[i].piece));
        assert(piece_ok(pzs[j].piece) && piece_starts_well(pzs[j].piece));
        assert(neg[i].string == zpiece_source(nzs[i], shorthand));
        assert(pos[j].string == zpiece_source(pzs[j], shorthand));
        if relax {
            lemma_zsource_injective(nzs[i], pzs[j], shorthand);
        } else {
            lemma_zsource_injective_exact(nzs[i], pzs[j], shorthand);
        }
    }
    let fa = filter_pieces(neg, nzs, pos, Sign::Minus, false);
    let fb = filter_pieces(neg, nzs, pos, Sign::Either, true);
    let fc = filter_pieces(pos, pzs, neg, Sign::Plus, false);
    let sps = fa + fb + fc;
    lemma_filter_pieces(neg, nzs, pos, Sign::Minus, false, shorthand, Seq::empty());
    lemma_filter_pieces(neg, nzs, pos, Sign::Either, true, shorthand, Seq::empty());
    lemma_filter_pieces(pos, pzs, neg, Sign::Plus, false, shorthand, Seq::empty());
    assert(sign_source(Sign::Minus) == seq!['-']);
    assert(sign_source(Sign::Either) == seq!['-', '?']);
    assert(sign_source(Sign::Plus) == Seq::<char>::empty());
    assert(sps.map_values(|sp: Signed| signed_source(sp, shorthand)) =~= fa.map_values(
        |sp: Signed| signed_source(sp, shorthand),
    ) + fb.map_values(|sp: Signed| signed_source(sp, shorthand)) + fc.map_values(
        |sp: Signed| signed_source(sp, shorthand),
    ));
    assert(collate_spec(neg, pos) == pattern_source(sps, shorthand));
    assert forall|v: int| a <= v <= b implies pattern_matches(
        sps,
        #[trigger] crate::text::to_max_len(int_text(v), width),
    ) by {
        lemma_padded_complete(a, b, width, relax, shorthand, neg, nzs, pos, pzs, v);
    }
    assert forall|w: Seq<char>| #[trigger] pattern_matches(sps, w) implies padded_int_names(
        a,
        b,
        width,
        !relax,
        w,
    ) by {
        lemma_padded_sound(a, b, width, relax, shorthand, neg, nzs, pos, pzs, w);
    }
    sps
}

/// A number between two others has a text no wider than the wider of theirs.
proof fn lemma_int_text_between_len(a: int, b: int, v: int)
    requires
        a <= v <= b,
    ensures
        int_text(v).len() <= int_text(a).len() || int_text(v).len() <= int_text(b).len(),
{
    if v >= 0 {
        lemma_nat_text_len_mono(v as nat, b as nat);
    } else {
        lemma_nat_text_len_mono((-v) as nat, (-a) as nat);
    }
}

/// Integer bounds written with leading zeros to a common width give a
/// pattern that matches the padded text of every integer between them, and
/// whatever it matches is such an integer written as its sign, zeros and its
/// digits, with no more zeros than fit the width (exactly the padded text,
/// sign included in the width, when zeros are not relaxed).
#[verifier::rlimit(30)]
#[verifier::spinoff_prover]
pub proof fn law_padded_range_pattern(
    x: int,
    y: int,
    width: int,
    relax: bool,
    shorthand: bool,
    capture: bool,
    wrap: bool,
) -> (sps: Seq<Signed>)
    requires
        -9223372036854775808 <= x <= 9223372036854775807,
        -9223372036854775808 <= y <= 9223372036854775807,
        int_text(x).len() <= width,
        int_text(y).len() <= width,
        has_padding_spec(crate::text::to_max_len(int_text(x), width)) || has_padding_spec(
            crate::text::to_max_len(int_text(y), width),
        ),
    ensures
        regex_range_spec(
            crate::text::to_max_len(int_text(x), width),
            crate::text::to_max_len(int_text(y), width),
            relax,
            shorthand,
            capture,
            wrap,
        ) matches Some(r) && (r == pattern_source(sps, shorthand) || r == group(
            pattern_source(sps, shorthand),
        ) || r == plain_group(pattern_source(sps, shorthand))),
        forall|v: int|
            (if x <= y {
                x
            } else {
                y
            }) <= v <= (if x <= y {
                y
            } else {
                x
            }) ==> pattern_matches(sps, #[trigger] crate::text::to_max_len(int_text(v), width)),
        forall|w: Seq<char>|
            #[trigger] pattern_matches(sps, w) ==> padded_int_names(
                if x <= y {
                    x
                } else {
                    y
                },
                if x <= y {
                    y
                } else {
                    x
                },
                width,
                !relax,
                w,
            ),
{
    let a = if x <= y {
        x
    } else {
        y
    };
    let b = if x <= y {
        y
    } else {
        x
    };
    lemma_padded_int(x, width, a, b, relax);
    lemma_padded_int(y, width, a, b, relax);
    lemma_padded_int_text(x, width);
    lemma_padded_int_text(y, width);
    let px = crate::text::to_max_len(int_text(x), width);
    let py = crate::text::to_max_len(int_text(y), width);
    if px == py {
        assert(x == y);
        lemma_padded_single(x, width, relax, shorthand)
    } else if b - a == 1 {
        lemma_padded_pair(x, y, width, relax, shorthand)
    } else {
        lemma_padded_general(a, b, width, relax, shorthand)
    }
}


} // verus!
