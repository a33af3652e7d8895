//! Compile a numeric interval into a compact regex source string.
//!
//! The interval is split at the points where the digit patterns change, each
//! piece becomes a run of literal digits, digit classes and a `[0-9]` tail,
//! neighbouring pieces that differ only in length are merged with a quantifier,
//! and negative and positive halves are combined. Inputs arrive as strings so
//! leading zeros survive and drive the padding of the output.

use vstd::prelude::*;

use crate::text::{chars_eq, int_chars, int_text, is_digit, nat_text, push_all, unsigned_part};
use crate::value::{all_digits, capped_digits_value, digits_value, lemma_pow10_pos, pow10, CAP};

verus! {

/// Settings that change the emitted pattern.
pub struct RegexOptions {
    /// Allow optional leading zeros (`0?`, `0{0,2}`) when padded.
    pub relax_zeros: bool,
    /// Use `\d` instead of `[0-9]`.
    pub shorthand: bool,
    /// Wrap the whole pattern in a capturing group.
    pub capture: bool,
    /// Wrap a pattern of more than one alternative in a non-capturing group.
    pub wrap: bool,
}

/// One generated sub-pattern.
pub struct Token {
    pub pattern: Vec<char>,
    /// Quantifier counts: `[n]` or `[start, stop]`; empty for a literal.
    pub count: Vec<i128>,
    pub string: Vec<char>,
}

/// The mathematical content of a [`Token`].
pub struct TokenModel {
    pub pattern: Seq<char>,
    pub count: Seq<int>,
    pub string: Seq<char>,
}

impl View for Token {
    type V = TokenModel;

    open spec fn view(&self) -> TokenModel {
        TokenModel {
            pattern: self.pattern@,
            count: self.count@.map_values(|c: i128| c as int),
            string: self.string@,
        }
    }
}

/// The token views of a vector of tokens.
pub open spec fn tokens_view(v: Seq<Token>) -> Seq<TokenModel> {
    v.map_values(|t: Token| t@)
}

// ---------------------------------------------------------------------------
// Specification.
// ---------------------------------------------------------------------------

/// Matches `/^-?(0+)\d/`: an optional sign, a zero, then another digit.
pub open spec fn has_padding_spec(s: Seq<char>) -> bool {
    let b = unsigned_part(s);
    b.len() >= 2 && b[0] == '0' && is_digit(b[1])
}

/// The integer `str::parse::<i64>` reads from `s`: an optional `+` or `-`
/// followed by at least one ASCII digit, in range.
pub open spec fn parse_i64_spec(s: Seq<char>) -> Option<int> {
    if s.len() == 0 {
        None
    } else {
        let signed = s[0] == '+' || s[0] == '-';
        let body = if signed { s.drop_first() } else { s };
        let v = if s[0] == '-' { -digits_value(body) } else { digits_value(body) };
        if body.len() > 0 && all_digits(body) && i64::MIN <= v <= i64::MAX {
            Some(v)
        } else {
            None
        }
    }
}

/// The largest number at or above `min` that ends in `k` nines and keeps the
/// digits of `min` above them.
pub open spec fn nines(min: int, k: nat) -> int {
    min - min % pow10(k) + pow10(k) - 1
}

/// `x` rounded down to a multiple of `10^z`.
pub open spec fn round_down(x: int, z: nat) -> int {
    x - x % pow10(z)
}

/// The split points of the form `...999` inside `[min, max]`, from `k` nines on.
pub open spec fn nine_stops(min: int, max: int, k: nat) -> Seq<int>
    decreases 20 - k,
{
    if k <= 19 && min <= nines(min, k) && nines(min, k) <= max {
        seq![nines(min, k)] + nine_stops(min, max, k + 1)
    } else {
        Seq::empty()
    }
}

/// The split points of the form `...999` just below a round number, from
/// `z` zeros on.
pub open spec fn zero_stops(min: int, max: int, z: nat) -> Seq<int>
    decreases 20 - z,
{
    if z <= 19 && min < round_down(max + 1, z) - 1 && round_down(max + 1, z) - 1 <= max {
        seq![round_down(max + 1, z) - 1] + zero_stops(min, max, z + 1)
    } else {
        Seq::empty()
    }
}

/// All split points of `[min, max]`.
pub open spec fn stop_set(min: int, max: int) -> Set<int> {
    (seq![max] + nine_stops(min, max, 1) + zero_stops(min, max, 1)).to_set()
}

/// Strictly increasing.
pub open spec fn increasing(q: Seq<int>) -> bool {
    forall|i: int, j: int| 0 <= i < j < q.len() ==> q[i] < q[j]
}

/// `q` lists the elements of `s` in increasing order.
pub open spec fn sorted_listing(q: Seq<int>, s: Set<int>) -> bool {
    increasing(q) && forall|x: int| q.contains(x) <==> s.contains(x)
}

/// The split points of `[min, max]` in increasing order.
pub open spec fn ranges_spec(min: int, max: int) -> Seq<int> {
    choose|q: Seq<int>| sorted_listing(q, stop_set(min, max))
}

/// A digit class for `a..=b`, written `[ab]` when the digits are adjacent.
pub open spec fn char_class(a: char, b: char) -> Seq<char> {
    seq!['[', a] + (if (b as int) == (a as int) + 1 {
        Seq::empty()
    } else {
        seq!['-']
    }) + seq![b, ']']
}

/// The pattern prefix and the count of full `0-9` positions for the first
/// `i` digit positions of the range `s..=t`.
pub open spec fn scan_digits(s: Seq<char>, t: Seq<char>, i: int) -> (Seq<char>, int)
    decreases i,
{
    if i <= 0 {
        (Seq::empty(), 0)
    } else {
        let (p, c) = scan_digits(s, t, i - 1);
        let a = s[i - 1];
        let b = t[i - 1];
        if a == b {
            (p.push(a), c)
        } else if a != '0' || b != '9' {
            (p + char_class(a, b), c)
        } else {
            (p, c + 1)
        }
    }
}

/// The source of one full digit position.
pub open spec fn any_digit(shorthand: bool) -> Seq<char> {
    if shorthand {
        seq!['\\', 'd']
    } else {
        seq!['[', '0', '-', '9', ']']
    }
}

/// The number of positions both texts have.
pub open spec fn common_len(s: Seq<char>, t: Seq<char>) -> int {
    if s.len() <= t.len() {
        s.len() as int
    } else {
        t.len() as int
    }
}

/// The token for a single digit range `s..=t`.
pub open spec fn range_pattern(s: Seq<char>, t: Seq<char>, shorthand: bool) -> TokenModel {
    if s == t {
        TokenModel { pattern: s, count: Seq::empty(), string: Seq::empty() }
    } else {
        let (p, c) = scan_digits(s, t, common_len(s, t));
        TokenModel {
            pattern: p + (if c > 0 { any_digit(shorthand) } else { Seq::empty() }),
            count: seq![c],
            string: Seq::empty(),
        }
    }
}

/// The quantifier text for a count pair.
pub open spec fn quantifier(digits: Seq<int>) -> Seq<char> {
    let start = if digits.len() > 0 { digits[0] } else { 0 };
    if digits.len() > 1 && digits[1] != 0 {
        seq!['{'] + int_text(start) + seq![','] + int_text(digits[1]) + seq!['}']
    } else if start > 1 {
        seq!['{'] + int_text(start) + seq!['}']
    } else {
        Seq::empty()
    }
}

/// The absolute value.
pub open spec fn abs(x: int) -> int {
    if x < 0 {
        -x
    } else {
        x
    }
}

/// The zero prefix that pads `value` to `max_len` digits.
pub open spec fn zero_prefix(value: int, max_len: int, relax: bool) -> Seq<char> {
    let len = nat_text(abs(value) as nat).len() as int;
    let diff = abs(max_len - len);
    if diff == 0 {
        Seq::empty()
    } else if diff == 1 {
        if relax {
            seq!['0', '?']
        } else {
            seq!['0']
        }
    } else if diff == 2 {
        if relax {
            seq!['0', '{', '0', ',', '2', '}']
        } else {
            seq!['0', '0']
        }
    } else if relax {
        seq!['0', '{', '0', ','] + int_text(diff) + seq!['}']
    } else {
        seq!['0', '{'] + int_text(diff) + seq!['}']
    }
}

/// Add the token for the digit range ending at `stop` to `tokens`, merging it
/// into the previous token when both have the same pattern and no padding is
/// in play.
pub open spec fn add_token(
    tokens: Seq<TokenModel>,
    obj: TokenModel,
    stop: int,
    padded: bool,
    max_len: int,
    relax: bool,
) -> Seq<TokenModel> {
    if !padded && tokens.len() > 0 && tokens.last().pattern == obj.pattern {
        let prev = tokens.last();
        let kept = if prev.count.len() > 1 { prev.count.drop_last() } else { prev.count };
        let count = if obj.count.len() > 0 { kept.push(obj.count[0]) } else { kept };
        tokens.drop_last().push(
            TokenModel {
                pattern: prev.pattern,
                count,
                string: prev.pattern + quantifier(count),
            },
        )
    } else {
        let zeros = if padded { zero_prefix(stop, max_len, relax) } else { Seq::empty() };
        tokens.push(
            TokenModel {
                pattern: obj.pattern,
                count: obj.count,
                string: zeros + obj.pattern + quantifier(obj.count),
            },
        )
    }
}

/// The tokens for the digit ranges that start at `start` and end at each of
/// `stops` in turn, added to `tokens`.
pub open spec fn tokens_from(
    tokens: Seq<TokenModel>,
    start: int,
    stops: Seq<int>,
    padded: bool,
    max_len: int,
    relax: bool,
    shorthand: bool,
) -> Seq<TokenModel>
    decreases stops.len(),
{
    if stops.len() == 0 {
        tokens
    } else {
        let stop = stops[0];
        let obj = range_pattern(int_text(start), int_text(stop), shorthand);
        tokens_from(
            add_token(tokens, obj, stop, padded, max_len, relax),
            stop + 1,
            stops.drop_first(),
            padded,
            max_len,
            relax,
            shorthand,
        )
    }
}

/// The tokens that together cover `[min, max]`.
pub open spec fn split_spec(
    min: int,
    max: int,
    padded: bool,
    max_len: int,
    relax: bool,
    shorthand: bool,
) -> Seq<TokenModel> {
    tokens_from(Seq::empty(), min, ranges_spec(min, max), padded, max_len, relax, shorthand)
}

/// True when some token of `arr` has the text `val`.
pub open spec fn contains_string(arr: Seq<TokenModel>, val: Seq<char>) -> bool {
    exists|i: int| 0 <= i < arr.len() && arr[i].string == val
}

/// The prefixed texts of the tokens of `arr` that do (`intersection`) or do
/// not share their text with a token of `comparison`.
pub open spec fn filter_spec(
    arr: Seq<TokenModel>,
    comparison: Seq<TokenModel>,
    prefix: Seq<char>,
    intersection: bool,
) -> Seq<Seq<char>>
    decreases arr.len(),
{
    if arr.len() == 0 {
        Seq::empty()
    } else {
        let rest = filter_spec(arr.drop_last(), comparison, prefix, intersection);
        let ele = arr.last();
        if contains_string(comparison, ele.string) == intersection {
            rest.push(prefix + ele.string)
        } else {
            rest
        }
    }
}

/// Negative-only, shared (`-?`) and positive-only sub-patterns, joined by `|`.
pub open spec fn collate_spec(neg: Seq<TokenModel>, pos: Seq<TokenModel>) -> Seq<char> {
    crate::text::join(
        filter_spec(neg, pos, seq!['-'], false) + filter_spec(neg, pos, seq!['-', '?'], true)
            + filter_spec(pos, neg, Seq::empty(), false),
        seq!['|'],
    )
}

/// `(` + `s` + `)`.
pub open spec fn group(s: Seq<char>) -> Seq<char> {
    seq!['('] + s + seq![')']
}

/// `(?:` + `s` + `)`.
pub open spec fn plain_group(s: Seq<char>) -> Seq<char> {
    seq!['(', '?', ':'] + s + seq![')']
}

/// The regex source for the integers between `min` and `max` (in either
/// order), written as texts so that leading zeros ask for padded output: to
/// the width of `max`, and in strict zero mode the digits of a negative
/// number to one less, so that with its sign it keeps that width. `None` when
/// a bound is no `i64`.
pub open spec fn regex_range_spec(
    min: Seq<char>,
    max: Seq<char>,
    relax: bool,
    shorthand: bool,
    capture: bool,
    wrap: bool,
) -> Option<Seq<char>> {
    if min == max {
        Some(min)
    } else {
        match (parse_i64_spec(min), parse_i64_spec(max)) {
            (Some(x), Some(y)) => {
                let a = if x <= y { x } else { y };
                let b = if x <= y { y } else { x };
                if b - a == 1 {
                    let r = min + seq!['|'] + max;
                    Some(
                        if capture {
                            group(r)
                        } else if !wrap {
                            r
                        } else {
                            plain_group(r)
                        },
                    )
                } else {
                    let padded = has_padding_spec(min) || has_padding_spec(max);
                    let max_len = if padded { max.len() as int } else { 0 };
                    let neg_len = if padded && !relax { max_len - 1 } else { max_len };
                    let negatives = if a < 0 {
                        split_spec(
                            if b < 0 { -b } else { 1 },
                            -a,
                            padded,
                            neg_len,
                            relax,
                            shorthand,
                        )
                    } else {
                        Seq::empty()
                    };
                    let positives = if b >= 0 {
                        split_spec(
                            if a < 0 { 0 } else { a },
                            b,
                            padded,
                            max_len,
                            relax,
                            shorthand,
                        )
                    } else {
                        Seq::empty()
                    };
                    let r = collate_spec(negatives, positives);
                    Some(
                        if capture {
                            group(r)
                        } else if wrap && positives.len() + negatives.len() > 1 {
                            plain_group(r)
                        } else {
                            r
                        },
                    )
                }
            },
            _ => None,
        }
    }
}


// ---------------------------------------------------------------------------
// Lemmas.
// ---------------------------------------------------------------------------

/// The integer views of a vector of `i128`.
pub open spec fn ints(v: Seq<i128>) -> Seq<int> {
    v.map_values(|x: i128| x as int)
}

/// Two increasing listings of one set are equal.
proof fn lemma_sorted_listing_unique(q1: Seq<int>, q2: Seq<int>, s: Set<int>)
    requires
        sorted_listing(q1, s),
        sorted_listing(q2, s),
    ensures
        q1 == q2,
    decreases q1.len(),
{
    if q1.len() == 0 {
        if q2.len() > 0 {
            assert(q2.contains(q2[0]));
        }
        assert(q1 =~= q2);
    } else {
        assert(q1.contains(q1[0]));
        assert(q2.len() > 0);
        assert(q2.contains(q2[0]));
        let a = q1[0];
        let b = q2[0];
        let i = choose|i: int| 0 <= i < q2.len() && q2[i] == a;
        let j = choose|j: int| 0 <= j < q1.len() && q1[j] == b;
        if a != b {
            assert(i > 0 && j > 0);
            assert(q2[0] < q2[i]);
            assert(q1[0] < q1[j]);
        }
        let r1 = q1.drop_first();
        let r2 = q2.drop_first();
        let s2 = s.remove(a);
        assert(sorted_listing(r1, s2)) by {
            assert forall|x: int| r1.contains(x) <==> s2.contains(x) by {
                if r1.contains(x) {
                    let k = choose|k: int| 0 <= k < r1.len() && r1[k] == x;
                    assert(q1[k + 1] == x);
                    assert(q1.contains(x));
                    assert(q1[0] < q1[k + 1]);
                }
                if s2.contains(x) {
                    assert(q1.contains(x));
                    let k = choose|k: int| 0 <= k < q1.len() && q1[k] == x;
                    assert(k != 0);
                    assert(r1[k - 1] == x);
                }
            }
        }
        assert(sorted_listing(r2, s2)) by {
            assert forall|x: int| r2.contains(x) <==> s2.contains(x) by {
                if r2.contains(x) {
                    let k = choose|k: int| 0 <= k < r2.len() && r2[k] == x;
                    assert(q2[k + 1] == x);
                    assert(q2.contains(x));
                    assert(q2[0] < q2[k + 1]);
                }
                if s2.contains(x) {
                    assert(q2.contains(x));
                    let k = choose|k: int| 0 <= k < q2.len() && q2[k] == x;
                    assert(k != 0);
                    assert(r2[k - 1] == x);
                }
            }
        }
        lemma_sorted_listing_unique(r1, r2, s2);
        assert(q1 =~= seq![a] + r1);
        assert(q2 =~= seq![b] + r2);
    }
}

/// Membership in a one-element sequence.
pub(crate) proof fn lemma_single_contains(x: int, y: int)
    ensures
        seq![x].contains(y) <==> y == x,
{
    if y == x {
        assert(seq![x][0] == y);
    }
}

/// Membership in a concatenation.
pub(crate) proof fn lemma_concat_contains(a: Seq<int>, b: Seq<int>, y: int)
    ensures
        (a + b).contains(y) <==> (a.contains(y) || b.contains(y)),
{
    if (a + b).contains(y) {
        let k = choose|k: int| 0 <= k < (a + b).len() && (a + b)[k] == y;
        if k < a.len() {
            assert(a[k] == y);
        } else {
            assert(b[k - a.len()] == y);
        }
    }
    if a.contains(y) {
        let k = choose|k: int| 0 <= k < a.len() && a[k] == y;
        assert((a + b)[k] == y);
    }
    if b.contains(y) {
        let k = choose|k: int| 0 <= k < b.len() && b[k] == y;
        assert((a + b)[k + a.len()] == y);
    }
}

/// `nines(min, k)` lies at or above `min`.
pub(crate) proof fn lemma_nines_above(min: int, k: nat)
    requires
        min >= 0,
    ensures
        nines(min, k) >= min,
{
    lemma_pow10_pos(k);
    assert(min % pow10(k) < pow10(k));
}

/// `round_down(x, z) - 1` lies below `x`.
pub(crate) proof fn lemma_round_down_below(x: int, z: nat)
    ensures
        round_down(x, z) <= x,
{
    lemma_pow10_pos(z);
    assert(x % pow10(z) >= 0);
}

// ---------------------------------------------------------------------------
// Executable code.
// ---------------------------------------------------------------------------

/// True when a numeric string has a leading zero followed by another digit.
pub fn has_padding(s: &str) -> (r: bool)
    ensures
        r == has_padding_spec(s@),
{
    has_padding_chars(&crate::text::chars_of(s))
}

/// [`has_padding`] on characters.
pub fn has_padding_chars(s: &Vec<char>) -> (r: bool)
    ensures
        r == has_padding_spec(s@),
{
    let start: usize = if s.len() > 0 && s[0] == '-' { 1 } else { 0 };
    let ghost b = unsigned_part(s@);
    assert(b =~= s@.skip(start as int));
    if s.len() >= start + 2 {
        assert(b[0] == s@[start as int]);
        assert(b[1] == s@[start + 1]);
        s[start] == '0' && '0' <= s[start + 1] && s[start + 1] <= '9'
    } else {
        false
    }
}

/// The integer `str::parse::<i64>` reads from the characters.
pub fn parse_i64(s: &Vec<char>) -> (r: Option<i128>)
    ensures
        match parse_i64_spec(s@) {
            Some(v) => r == Some(v as i128),
            None => r is None,
        },
{
    if s.len() == 0 {
        return None;
    }
    let signed = s[0] == '+' || s[0] == '-';
    let from: usize = if signed { 1 } else { 0 };
    let ghost body = if signed { s@.drop_first() } else { s@ };
    assert(body =~= s@.subrange(from as int, s@.len() as int));
    if from == s.len() {
        return None;
    }
    let mut k: usize = from;
    while k < s.len()
        invariant
            from <= k <= s@.len(),
            s@.len() > 0,
            body == s@.subrange(from as int, s@.len() as int),
            body == (if s@[0] == '+' || s@[0] == '-' { s@.drop_first() } else { s@ }),
            forall|q: int| from <= q < k ==> is_digit(#[trigger] s@[q]),
        decreases s@.len() - k,
    {
        if !('0' <= s[k] && s[k] <= '9') {
            proof {
                assert(s@.subrange(from as int, s@.len() as int)[k - from] == s@[k as int]);
                assert(!is_digit(body[k - from]));
                assert(!all_digits(body));
            }
            return None;
        }
        k += 1;
    }
    assert(all_digits(body)) by {
        assert forall|q: int| 0 <= q < body.len() implies is_digit(#[trigger] body[q]) by {
            assert(body[q] == s@[from + q]);
        }
    }
    let mag = capped_digits_value(s, from, s.len(), CAP);
    if s[0] == '-' {
        if mag > 9223372036854775808 {
            return None;
        }
        Some(-mag)
    } else {
        if mag > 9223372036854775807 {
            return None;
        }
        Some(mag)
    }
}

/// `10^k` for small `k`.
fn pow10_exec(k: u32) -> (r: i128)
    requires
        k <= 20,
    ensures
        r == pow10(k as nat),
        1 <= r <= pow10_20(),
{
    let mut r: i128 = 1;
    let mut i: u32 = 0;
    while i < k
        invariant
            i <= k <= 20,
            r == pow10(i as nat),
            1 <= r <= pow10_20(),
        decreases k - i,
    {
        proof {
            lemma_pow10_mono_20((i + 1) as nat);
        }
        r = r * 10;
        i += 1;
    }
    r
}

spec fn pow10_20() -> int {
    100000000000000000000
}

proof fn lemma_pow10_mono_20(n: nat)
    requires
        n <= 20,
    ensures
        pow10(n) <= pow10_20(),
    decreases 20 - n,
{
    if n < 20 {
        lemma_pow10_mono_20(n + 1);
        lemma_pow10_pos(n);
    } else {
        reveal_with_fuel(pow10, 21);
    }
}

/// Insert `x` into an increasing vector unless it is already there.
fn insert_sorted(v: &mut Vec<i128>, x: i128)
    requires
        increasing(ints(old(v)@)),
    ensures
        increasing(ints(final(v)@)),
        forall|y: int| ints(final(v)@).contains(y) <==> (ints(old(v)@).contains(y) || y == x),
{
    let ghost old_ints = ints(v@);
    let mut i: usize = 0;
    while i < v.len() && v[i] < x
        invariant
            i <= v@.len(),
            old_ints == ints(v@),
            forall|j: int| 0 <= j < i ==> v@[j] < x,
        decreases v@.len() - i,
    {
        i += 1;
    }
    if i < v.len() && v[i] == x {
        assert(ints(v@)[i as int] == x);
        return;
    }
    assert(i < v@.len() ==> old_ints[i as int] > x);
    v.insert(i, x);
    proof {
        let n = ints(v@);
        assert(n =~= old_ints.insert(i as int, x as int));
        assert forall|a: int, b: int| 0 <= a < b < n.len() implies n[a] < n[b] by {
            if b < i {
            } else if b == i {
                assert(old_ints[a] == v@[a] && v@[a] < x);
            } else if a < i {
                assert(old_ints[a] < x);
                if b - 1 > i {
                    assert(old_ints[i as int] < old_ints[b - 1]);
                }
            } else if a == i {
                if b - 1 > i {
                    assert(old_ints[i as int] < old_ints[b - 1]);
                }
            } else {
                assert(old_ints[a - 1] < old_ints[b - 1]);
            }
        }
        assert forall|y: int| n.contains(y) <==> (old_ints.contains(y) || y == x) by {
            if n.contains(y) {
                let k = choose|k: int| 0 <= k < n.len() && n[k] == y;
                if k < i {
                    assert(old_ints[k] == y);
                } else if k > i {
                    assert(old_ints[k - 1] == y);
                }
            }
            if old_ints.contains(y) {
                let k = choose|k: int| 0 <= k < old_ints.len() && old_ints[k] == y;
                if k < i {
                    assert(n[k] == y);
                } else {
                    assert(n[k + 1] == y);
                }
            }
            if y == x {
                assert(n[i as int] == y);
            }
        }
    }
}

/// Split `[min, max]` at the boundaries where digit patterns change.
fn split_to_ranges(min: i128, max: i128) -> (r: Vec<i128>)
    requires
        0 <= min <= max <= 9223372036854775808,
    ensures
        ints(r@) == ranges_spec(min as int, max as int),
        sorted_listing(ints(r@), stop_set(min as int, max as int)),
{
    let ghost target = stop_set(min as int, max as int);
    let mut stops: Vec<i128> = Vec::new();
    stops.push(max);
    assert(ints(stops@) =~= seq![max as int]);
    let mut nines_k: u32 = 1;
    proof {
        assert forall|y: int|
            (ints(stops@).contains(y) || nine_stops(min as int, max as int, 1).contains(y))
                <==> (seq![max as int] + nine_stops(min as int, max as int, 1)).contains(y) by {
            lemma_concat_contains(seq![max as int], nine_stops(min as int, max as int, 1), y);
            lemma_single_contains(max as int, y);
        }
    }
    let mut stop = min - min % 10 + 9;
    assert(stop == nines(min as int, 1)) by {
        reveal_with_fuel(pow10, 2);
    }
    while nines_k <= 19 && min <= stop && stop <= max
        invariant
            1 <= nines_k <= 20,
            0 <= min <= max <= 9223372036854775808,
            stop == nines(min as int, nines_k as nat),
            increasing(ints(stops@)),
            forall|y: int|
                (ints(stops@).contains(y) || nine_stops(min as int, max as int, nines_k as nat).contains(y))
                    <==> (seq![max as int] + nine_stops(min as int, max as int, 1)).contains(y),
        decreases 20 - nines_k,
    {
        let ghost k = nines_k as nat;
        assert(nine_stops(min as int, max as int, k) =~= seq![stop as int] + nine_stops(
            min as int,
            max as int,
            k + 1,
        ));
        let ghost before = ints(stops@);
        let ghost cur = stop as int;
        insert_sorted(&mut stops, stop);
        nines_k += 1;
        let p = pow10_exec(nines_k);
        stop = min - min % p + p - 1;
        proof {
            assert forall|y: int|
                (ints(stops@).contains(y) || nine_stops(min as int, max as int, nines_k as nat).contains(y))
                    <==> (seq![max as int] + nine_stops(min as int, max as int, 1)).contains(y) by {
                let s2 = nine_stops(min as int, max as int, k + 1);
                assert((before.contains(y) || nine_stops(min as int, max as int, k).contains(y))
                    <==> (seq![max as int] + nine_stops(min as int, max as int, 1)).contains(y));
                lemma_concat_contains(seq![cur], s2, y);
                lemma_single_contains(cur, y);
            }
        }
    }
    assert(nine_stops(min as int, max as int, nines_k as nat) =~= Seq::empty());
    let mut zeros_z: u32 = 1;
    proof {
        assert forall|y: int|
            (ints(stops@).contains(y) || zero_stops(min as int, max as int, 1).contains(y))
                <==> target.contains(y) by {
            let head = seq![max as int] + nine_stops(min as int, max as int, 1);
            lemma_concat_contains(head, zero_stops(min as int, max as int, 1), y);
            assert(ints(stops@).contains(y) <==> head.contains(y));
        }
    }
    let ceiling: i128 = max + 1;
    let mut stop = ceiling - ceiling % 10 - 1;
    assert(stop == round_down(max + 1, 1) - 1) by {
        reveal_with_fuel(pow10, 2);
    }
    while zeros_z <= 19 && min < stop && stop <= max
        invariant
            1 <= zeros_z <= 20,
            0 <= min <= max <= 9223372036854775808,
            ceiling == max + 1,
            stop == round_down(max + 1, zeros_z as nat) - 1,
            increasing(ints(stops@)),
            forall|y: int|
                (ints(stops@).contains(y) || zero_stops(min as int, max as int, zeros_z as nat).contains(y))
                    <==> target.contains(y),
        decreases 20 - zeros_z,
    {
        let ghost z = zeros_z as nat;
        assert(zero_stops(min as int, max as int, z) =~= seq![stop as int] + zero_stops(
            min as int,
            max as int,
            z + 1,
        ));
        let ghost before = ints(stops@);
        let ghost cur = stop as int;
        insert_sorted(&mut stops, stop);
        zeros_z += 1;
        let p = pow10_exec(zeros_z);
        stop = ceiling - ceiling % p - 1;
        proof {
            assert forall|y: int|
                (ints(stops@).contains(y) || zero_stops(min as int, max as int, zeros_z as nat).contains(y))
                    <==> target.contains(y) by {
                let s2 = zero_stops(min as int, max as int, z + 1);
                assert((before.contains(y) || zero_stops(min as int, max as int, z).contains(y))
                    <==> target.contains(y));
                lemma_concat_contains(seq![cur], s2, y);
                lemma_single_contains(cur, y);
            }
        }
    }
    proof {
        assert(zero_stops(min as int, max as int, zeros_z as nat) =~= Seq::empty());
        assert(sorted_listing(ints(stops@), target)) by {
            assert forall|y: int| ints(stops@).contains(y) <==> target.contains(y) by {
                if ints(stops@).contains(y) {
                    assert(target.contains(y));
                }
            }
        }
        lemma_sorted_listing_unique(ints(stops@), ranges_spec(min as int, max as int), target);
    }
    stops
}

/// Character class for a digit range, collapsing adjacent pairs.
fn to_character_class(a: char, b: char) -> (v: Vec<char>)
    ensures
        v@ == char_class(a, b),
{
    let mut v: Vec<char> = Vec::new();
    v.push('[');
    v.push(a);
    if !((b as u32) == (a as u32) + 1) {
        v.push('-');
    }
    v.push(b);
    v.push(']');
    assert(v@ =~= char_class(a, b));
    v
}

/// Build the pattern for a single `[start, stop]` digit range.
fn range_to_pattern(start: &Vec<char>, stop: &Vec<char>, shorthand: bool) -> (tok: Token)
    ensures
        tok@ == range_pattern(start@, stop@, shorthand),
        counts_ok(tok),
{
    if chars_eq(start, stop) {
        let mut pattern: Vec<char> = Vec::new();
        push_all(&mut pattern, start);
        assert(pattern@ =~= start@);
        let tok = Token { pattern, count: Vec::new(), string: Vec::new() };
        assert(tok@.count =~= Seq::<int>::empty());
        return tok;
    }
    let digits: usize = if start.len() <= stop.len() { start.len() } else { stop.len() };
    let mut pattern: Vec<char> = Vec::new();
    let mut count: i128 = 0;
    let mut i: usize = 0;
    while i < digits
        invariant
            i <= digits == common_len(start@, stop@),
            digits <= start@.len(),
            digits <= stop@.len(),
            (pattern@, count as int) == scan_digits(start@, stop@, i as int),
            0 <= count <= i,
        decreases digits - i,
    {
        let sd = start[i];
        let td = stop[i];
        if sd == td {
            pattern.push(sd);
        } else if sd != '0' || td != '9' {
            let class = to_character_class(sd, td);
            push_all(&mut pattern, &class);
        } else {
            count += 1;
        }
        i += 1;
    }
    if count > 0 {
        if shorthand {
            pattern.push('\\');
            pattern.push('d');
        } else {
            let tail = vec!['[', '0', '-', '9', ']'];
            push_all(&mut pattern, &tail);
        }
    }
    let mut counts: Vec<i128> = Vec::new();
    counts.push(count);
    let tok = Token { pattern, count: counts, string: Vec::new() };
    assert(tok@.pattern =~= range_pattern(start@, stop@, shorthand).pattern);
    assert(tok@.count =~= seq![count as int]);
    tok
}

/// Build the quantifier text for a count pair.
fn to_quantifier(digits: &Vec<i128>) -> (v: Vec<char>)
    requires
        forall|i: int| 0 <= i < digits@.len() ==> #[trigger] digits@[i] > i128::MIN,
    ensures
        v@ == quantifier(digits@.map_values(|c: i128| c as int)),
{
    let ghost d = digits@.map_values(|c: i128| c as int);
    let start: i128 = if digits.len() > 0 { digits[0] } else { 0 };
    let mut v: Vec<char> = Vec::new();
    if digits.len() > 1 && digits[1] != 0 {
        v.push('{');
        push_all(&mut v, &int_chars(start));
        v.push(',');
        push_all(&mut v, &int_chars(digits[1]));
        v.push('}');
    } else if start > 1 {
        v.push('{');
        push_all(&mut v, &int_chars(start));
        v.push('}');
    }
    assert(v@ =~= quantifier(d));
    v
}

/// Padding prefix for a value given the target width.
fn pad_zeros(value: i128, padded: bool, max_len: usize, relax: bool) -> (v: Vec<char>)
    requires
        value > i128::MIN,
    ensures
        padded ==> v@ == zero_prefix(value as int, max_len as int, relax),
        !padded ==> v@ == int_text(value as int),
{
    if !padded {
        return int_chars(value);
    }
    let mag: i128 = if value < 0 { -value } else { value };
    let len = int_chars(mag).len();
    assert(int_text(mag as int) == nat_text(abs(value as int) as nat));
    let diff: usize = if max_len >= len { max_len - len } else { len - max_len };
    let mut v: Vec<char> = Vec::new();
    if diff == 0 {
    } else if diff == 1 {
        v.push('0');
        if relax {
            v.push('?');
        }
    } else if diff == 2 {
        if relax {
            v = vec!['0', '{', '0', ',', '2', '}'];
        } else {
            v = vec!['0', '0'];
        }
    } else if relax {
        v = vec!['0', '{', '0', ','];
        push_all(&mut v, &int_chars(diff as i128));
        v.push('}');
    } else {
        v = vec!['0', '{'];
        push_all(&mut v, &int_chars(diff as i128));
        v.push('}');
    }
    assert(v@ =~= zero_prefix(value as int, max_len as int, relax));
    v
}

/// A copy of a character vector.
fn copy_chars(s: &Vec<char>) -> (v: Vec<char>)
    ensures
        v@ == s@,
{
    let mut v: Vec<char> = Vec::new();
    push_all(&mut v, s);
    assert(v@ =~= s@);
    v
}

/// The count values of a token are not negative.
pub open spec fn counts_ok(t: Token) -> bool {
    forall|i: int| 0 <= i < t.count@.len() ==> 0 <= #[trigger] t.count@[i]
}

/// Every split point of `[min, max]` lies in it.
proof fn lemma_stops_in_range(min: int, max: int)
    requires
        0 <= min <= max,
    ensures
        forall|x: int| stop_set(min, max).contains(x) ==> min <= x <= max,
        stop_set(min, max).contains(max),
{
    lemma_nine_stops_in_range(min, max, 1);
    lemma_zero_stops_in_range(min, max, 1);
    assert forall|x: int| stop_set(min, max).contains(x) implies min <= x <= max by {
        let h = seq![max] + nine_stops(min, max, 1);
        lemma_concat_contains(h, zero_stops(min, max, 1), x);
        lemma_concat_contains(seq![max], nine_stops(min, max, 1), x);
        lemma_single_contains(max, x);
    }
    let h = seq![max] + nine_stops(min, max, 1);
    lemma_concat_contains(h, zero_stops(min, max, 1), max);
    lemma_concat_contains(seq![max], nine_stops(min, max, 1), max);
    lemma_single_contains(max, max);
}

proof fn lemma_nine_stops_in_range(min: int, max: int, k: nat)
    ensures
        forall|x: int| nine_stops(min, max, k).contains(x) ==> min <= x <= max,
    decreases 20 - k,
{
    if k <= 19 && min <= nines(min, k) && nines(min, k) <= max {
        lemma_nine_stops_in_range(min, max, k + 1);
        assert forall|x: int| nine_stops(min, max, k).contains(x) implies min <= x <= max by {
            lemma_concat_contains(seq![nines(min, k)], nine_stops(min, max, k + 1), x);
            lemma_single_contains(nines(min, k), x);
        }
    }
}

proof fn lemma_zero_stops_in_range(min: int, max: int, z: nat)
    ensures
        forall|x: int| zero_stops(min, max, z).contains(x) ==> min <= x <= max,
    decreases 20 - z,
{
    if z <= 19 && min < round_down(max + 1, z) - 1 && round_down(max + 1, z) - 1 <= max {
        lemma_zero_stops_in_range(min, max, z + 1);
        let v = round_down(max + 1, z) - 1;
        assert forall|x: int| zero_stops(min, max, z).contains(x) implies min <= x <= max by {
            lemma_concat_contains(seq![v], zero_stops(min, max, z + 1), x);
            lemma_single_contains(v, x);
        }
    }
}

/// Add the token for the digit range that ends at `stop`.
fn add_token_exec(
    tokens: &mut Vec<Token>,
    obj: Token,
    stop: i128,
    padded: bool,
    max_len: usize,
    relax: bool,
)
    requires
        stop > i128::MIN,
        counts_ok(obj),
        forall|i: int| 0 <= i < old(tokens)@.len() ==> counts_ok(#[trigger] old(tokens)@[i]),
    ensures
        tokens_view(final(tokens)@) == add_token(
            tokens_view(old(tokens)@),
            obj@,
            stop as int,
            padded,
            max_len as int,
            relax,
        ),
        forall|i: int| 0 <= i < final(tokens)@.len() ==> counts_ok(#[trigger] final(tokens)@[i]),
{
    let ghost before = tokens_view(tokens@);
    let n = tokens.len();
    if !padded && n > 0 && chars_eq(&tokens[n - 1].pattern, &obj.pattern) {
        let prev = tokens.pop().unwrap();
        assert(before.last() == prev@);
        assert(tokens_view(tokens@) =~= before.drop_last());
        assert(counts_ok(prev));
        let mut count: Vec<i128> = Vec::new();
        let keep: usize = if prev.count.len() > 1 {
            prev.count.len() - 1
        } else {
            prev.count.len()
        };
        let mut q: usize = 0;
        while q < keep
            invariant
                q <= keep <= prev.count@.len(),
                count@ == prev.count@.take(q as int),
            decreases keep - q,
        {
            count.push(prev.count[q]);
            q += 1;
            assert(count@ =~= prev.count@.take(q as int));
        }
        if obj.count.len() > 0 {
            count.push(obj.count[0]);
        }
        let ghost pc = prev@.count;
        let ghost kept = if pc.len() > 1 { pc.drop_last() } else { pc };
        let ghost want = if obj@.count.len() > 0 { kept.push(obj@.count[0]) } else { kept };
        assert(count@.map_values(|c: i128| c as int) =~= want);
        let mut string = copy_chars(&prev.pattern);
        let quant = to_quantifier(&count);
        push_all(&mut string, &quant);
        let tok = Token { pattern: prev.pattern, count, string };
        assert(counts_ok(tok));
        tokens.push(tok);
        assert(tokens_view(tokens@) =~= add_token(
            before,
            obj@,
            stop as int,
            padded,
            max_len as int,
            relax,
        ));
    } else {
        let zeros = if padded {
            pad_zeros(stop, padded, max_len, relax)
        } else {
            Vec::new()
        };
        let mut string = copy_chars(&zeros);
        push_all(&mut string, &obj.pattern);
        let quant = to_quantifier(&obj.count);
        push_all(&mut string, &quant);
        let tok = Token { pattern: obj.pattern, count: obj.count, string };
        tokens.push(tok);
        assert(tokens_view(tokens@) =~= add_token(
            before,
            obj@,
            stop as int,
            padded,
            max_len as int,
            relax,
        ));
    }
}

/// Build tokens spanning `[min, max]`, merging repeats and applying padding.
fn split_to_patterns(
    min: i128,
    max: i128,
    padded: bool,
    max_len: usize,
    relax: bool,
    shorthand: bool,
) -> (tokens: Vec<Token>)
    requires
        0 <= min <= max <= 9223372036854775808,
    ensures
        tokens_view(tokens@) == split_spec(
            min as int,
            max as int,
            padded,
            max_len as int,
            relax,
            shorthand,
        ),
        forall|i: int| 0 <= i < tokens@.len() ==> counts_ok(#[trigger] tokens@[i]),
{
    let ranges = split_to_ranges(min, max);
    let ghost rs = ints(ranges@);
    let ghost goal = split_spec(min as int, max as int, padded, max_len as int, relax, shorthand);
    let mut tokens: Vec<Token> = Vec::new();
    let mut start: i128 = min;
    let mut r: usize = 0;
    proof {
        assert(rs.skip(0) =~= rs);
        lemma_stops_in_range(min as int, max as int);
        assert(tokens_view(tokens@) =~= Seq::<TokenModel>::empty());
        if rs.len() > 0 {
            assert(rs.contains(rs[0]));
        }
    }
    while r < ranges.len()
        invariant
            0 <= min <= max <= 9223372036854775808,
            rs == ints(ranges@),
            increasing(rs),
            forall|x: int| rs.contains(x) ==> min <= x <= max,
            r <= rs.len(),
            r < rs.len() ==> start <= rs[r as int],
            0 <= start <= max + 1,
            tokens_from(
                tokens_view(tokens@),
                start as int,
                rs.skip(r as int),
                padded,
                max_len as int,
                relax,
                shorthand,
            ) == goal,
            forall|i: int| 0 <= i < tokens@.len() ==> counts_ok(#[trigger] tokens@[i]),
        decreases rs.len() - r,
    {
        let stop = ranges[r];
        proof {
            let stops = rs.skip(r as int);
            assert(stops[0] == stop);
            assert(stops.drop_first() =~= rs.skip(r + 1));
            assert(rs.contains(rs[r as int]));
            if r + 1 < rs.len() {
                assert(rs[r as int] < rs[r + 1]);
            }
        }
        let s_text = int_chars(start);
        let t_text = int_chars(stop);
        let obj = range_to_pattern(&s_text, &t_text, shorthand);
        add_token_exec(&mut tokens, obj, stop, padded, max_len, relax);
        start = stop + 1;
        r += 1;
    }
    assert(rs.skip(r as int) =~= Seq::<int>::empty());
    tokens
}

/// Whether any token in `arr` has the text `val`.
fn contains(arr: &Vec<Token>, val: &Vec<char>) -> (r: bool)
    ensures
        r == contains_string(tokens_view(arr@), val@),
{
    let mut i: usize = 0;
    while i < arr.len()
        invariant
            i <= arr@.len(),
            forall|j: int| 0 <= j < i ==> arr@[j].string@ != val@,
        decreases arr@.len() - i,
    {
        if chars_eq(&arr[i].string, val) {
            assert(tokens_view(arr@)[i as int].string == val@);
            return true;
        }
        i += 1;
    }
    proof {
        if contains_string(tokens_view(arr@), val@) {
            let j = choose|j: int|
                0 <= j < tokens_view(arr@).len() && tokens_view(arr@)[j].string == val@;
            assert(tokens_view(arr@)[j] == arr@[j]@);
        }
    }
    false
}

/// Keep tokens that do or do not share their text with `comparison`,
/// prefixing each.
fn filter_patterns(
    arr: &Vec<Token>,
    comparison: &Vec<Token>,
    prefix: &Vec<char>,
    intersection: bool,
) -> (r: Vec<Vec<char>>)
    ensures
        r@.map_values(|p: Vec<char>| p@) == filter_spec(
            tokens_view(arr@),
            tokens_view(comparison@),
            prefix@,
            intersection,
        ),
{
    let ghost av = tokens_view(arr@);
    let ghost cv = tokens_view(comparison@);
    let mut result: Vec<Vec<char>> = Vec::new();
    let mut i: usize = 0;
    while i < arr.len()
        invariant
            i <= arr@.len(),
            av == tokens_view(arr@),
            cv == tokens_view(comparison@),
            result@.map_values(|p: Vec<char>| p@) == filter_spec(
                av.take(i as int),
                cv,
                prefix@,
                intersection,
            ),
        decreases arr@.len() - i,
    {
        let present = contains(comparison, &arr[i].string);
        assert(av.take(i + 1).drop_last() =~= av.take(i as int));
        assert(av.take(i + 1).last() == arr@[i as int]@);
        if present == intersection {
            let mut item = copy_chars(prefix);
            push_all(&mut item, &arr[i].string);
            result.push(item);
        }
        i += 1;
        assert(result@.map_values(|p: Vec<char>| p@) =~= filter_spec(
            av.take(i as int),
            cv,
            prefix@,
            intersection,
        ));
    }
    assert(av.take(arr@.len() as int) =~= av);
    result
}

/// Append all texts of `src` onto `dst`.
fn append_texts(dst: &mut Vec<Vec<char>>, src: Vec<Vec<char>>)
    ensures
        final(dst)@.map_values(|p: Vec<char>| p@) == old(dst)@.map_values(|p: Vec<char>| p@)
            + src@.map_values(|p: Vec<char>| p@),
{
    let mut src = src;
    let ghost a = dst@.map_values(|p: Vec<char>| p@);
    let ghost b = src@.map_values(|p: Vec<char>| p@);
    dst.append(&mut src);
    assert(dst@.map_values(|p: Vec<char>| p@) =~= a + b);
}

/// Combine negative-only, shared, and positive-only sub-patterns.
fn collate_patterns(neg: &Vec<Token>, pos: &Vec<Token>) -> (r: Vec<char>)
    ensures
        r@ == collate_spec(tokens_view(neg@), tokens_view(pos@)),
{
    let dash = vec!['-'];
    let maybe_dash = vec!['-', '?'];
    let nothing: Vec<char> = Vec::new();
    let bar = vec!['|'];
    assert(dash@ =~= seq!['-']);
    assert(maybe_dash@ =~= seq!['-', '?']);
    assert(nothing@ =~= Seq::<char>::empty());
    assert(bar@ =~= seq!['|']);
    let only_negative = filter_patterns(neg, pos, &dash, false);
    let intersected = filter_patterns(neg, pos, &maybe_dash, true);
    let only_positive = filter_patterns(pos, neg, &nothing, false);
    let mut subpatterns = only_negative;
    append_texts(&mut subpatterns, intersected);
    append_texts(&mut subpatterns, only_positive);
    crate::text::join_chars(&subpatterns, &bar)
}

/// `(` + `s` + `)`.
fn group_chars(s: &Vec<char>, plain: bool) -> (v: Vec<char>)
    ensures
        v@ == if plain {
            plain_group(s@)
        } else {
            group(s@)
        },
{
    let mut v: Vec<char> = if plain {
        vec!['(', '?', ':']
    } else {
        vec!['(']
    };
    push_all(&mut v, s);
    v.push(')');
    assert(v@ =~= (if plain {
        plain_group(s@)
    } else {
        group(s@)
    }));
    v
}

/// Compile the interval between `min` and `max` into a regex source string.
pub fn to_regex_range_chars(min: &Vec<char>, max: &Vec<char>, opts: &RegexOptions) -> (r: Option<
    Vec<char>,
>)
    ensures
        match r {
            Some(v) => regex_range_spec(
                min@,
                max@,
                opts.relax_zeros,
                opts.shorthand,
                opts.capture,
                opts.wrap,
            ) == Some(v@),
            None => regex_range_spec(
                min@,
                max@,
                opts.relax_zeros,
                opts.shorthand,
                opts.capture,
                opts.wrap,
            ) is None,
        },
{
    if chars_eq(min, max) {
        return Some(copy_chars(min));
    }
    let x = match parse_i64(min) {
        Some(x) => x,
        None => {
            return None;
        },
    };
    let y = match parse_i64(max) {
        Some(y) => y,
        None => {
            return None;
        },
    };
    let a = if x <= y { x } else { y };
    let b = if x <= y { y } else { x };
    if b - a == 1 {
        let mut result = copy_chars(min);
        result.push('|');
        push_all(&mut result, max);
        if opts.capture {
            return Some(group_chars(&result, false));
        }
        if !opts.wrap {
            return Some(result);
        }
        return Some(group_chars(&result, true));
    }
    let padded = has_padding_chars(min) || has_padding_chars(max);
    let max_len: usize = if padded { max.len() } else { 0 };
    let relax = opts.relax_zeros;
    let shorthand = opts.shorthand;
    assert(max@.len() > 0);
    let neg_len: usize = if padded && !relax { max_len - 1 } else { max_len };
    let negatives = if a < 0 {
        let new_min: i128 = if b < 0 { -b } else { 1 };
        split_to_patterns(new_min, -a, padded, neg_len, relax, shorthand)
    } else {
        Vec::new()
    };
    let positives = if b >= 0 {
        split_to_patterns(if a < 0 { 0 } else { a }, b, padded, max_len, relax, shorthand)
    } else {
        Vec::new()
    };
    assert(a >= 0 ==> tokens_view(negatives@) =~= Seq::<TokenModel>::empty());
    assert(b < 0 ==> tokens_view(positives@) =~= Seq::<TokenModel>::empty());
    let result = collate_patterns(&negatives, &positives);
    if opts.capture {
        Some(group_chars(&result, false))
    } else if opts.wrap && (positives.len() as u128) + (negatives.len() as u128) > 1 {
        Some(group_chars(&result, true))
    } else {
        Some(result)
    }
}

/// Compile `[min, max]` into a regex source string that matches the integers
/// between the two bounds, taken in either order.
///
/// `min` and `max` are textual so leading zeros drive padding. Returns `None`
/// when a bound does not read as an `i64`. For bounds written as plain
/// decimal integers the source matches exactly the texts of the integers
/// between them. For bounds padded with zeros to one width it matches the
/// padded text of every integer between them, and only such integers behind
/// zeros: with strict zeros, exactly their padded texts.
pub fn to_regex_range(min: &str, max: &str, opts: &RegexOptions) -> (r: Option<String>)
    ensures
        forall|x: int, y: int|
            #![trigger int_text(x), int_text(y)]
            -9223372036854775808 <= x <= 9223372036854775807 && -9223372036854775808 <= y
                <= 9223372036854775807 && min@ == int_text(x) && max@ == int_text(y) ==> (r matches Some(
                v,
            ) && crate::regex_lang::source_names_ints(
                v@,
                if x <= y {
                    x
                } else {
                    y
                },
                if x <= y {
                    y
                } else {
                    x
                },
                opts.shorthand,
            )),
        forall|x: int, y: int, width: int|
            #![trigger crate::text::to_max_len(int_text(x), width), crate::text::to_max_len(int_text(y), width)]
            -9223372036854775808 <= x <= 9223372036854775807 && -9223372036854775808 <= y
                <= 9223372036854775807 && int_text(x).len() <= width && int_text(y).len() <= width
                && min@ == crate::text::to_max_len(int_text(x), width) && max@ == crate::text::to_max_len(
                int_text(y),
                width,
            ) && (has_padding_spec(min@) || has_padding_spec(max@)) ==> (r matches Some(v)
                && crate::regex_lang::source_names_padded_ints(
                v@,
                if x <= y {
                    x
                } else {
                    y
                },
                if x <= y {
                    y
                } else {
                    x
                },
                width,
                !opts.relax_zeros,
                opts.shorthand,
            )),
        match r {
            Some(v) => regex_range_spec(
                min@,
                max@,
                opts.relax_zeros,
                opts.shorthand,
                opts.capture,
                opts.wrap,
            ) == Some(v@),
            None => regex_range_spec(
                min@,
                max@,
                opts.relax_zeros,
                opts.shorthand,
                opts.capture,
                opts.wrap,
            ) is None,
        },
{
    let lo = crate::text::chars_of(min);
    let hi = crate::text::chars_of(max);
    let r = match to_regex_range_chars(&lo, &hi, opts) {
        Some(v) => Some(crate::text::string_of(&v)),
        None => None,
    };
    proof {
        assert forall|x: int, y: int|
            #![trigger int_text(x), int_text(y)]
            -9223372036854775808 <= x <= 9223372036854775807 && -9223372036854775808 <= y
                <= 9223372036854775807 && min@ == int_text(x) && max@ == int_text(
                y,
            ) implies (r matches Some(v) && crate::regex_lang::source_names_ints(
            v@,
            if x <= y {
                x
            } else {
                y
            },
            if x <= y {
                y
            } else {
                x
            },
            opts.shorthand,
        )) by {
            crate::regex_lang::law_range_pattern_matches_exactly(
                x,
                y,
                opts.relax_zeros,
                opts.shorthand,
                opts.capture,
                opts.wrap,
            );
        }
        assert forall|x: int, y: int, width: int|
            #![trigger crate::text::to_max_len(int_text(x), width), crate::text::to_max_len(int_text(y), width)]
            -9223372036854775808 <= x <= 9223372036854775807 && -9223372036854775808 <= y
                <= 9223372036854775807 && int_text(x).len() <= width && int_text(y).len() <= width
                && min@ == crate::text::to_max_len(int_text(x), width) && max@ == crate::text::to_max_len(
                int_text(y),
                width,
            ) && (has_padding_spec(min@) || has_padding_spec(max@)) implies (r matches Some(v)
            && crate::regex_lang::source_names_padded_ints(
            v@,
            if x <= y {
                x
            } else {
                y
            },
            if x <= y {
                y
            } else {
                x
            },
            width,
            !opts.relax_zeros,
            opts.shorthand,
        )) by {
            crate::regex_lang::law_padded_range_pattern(
                x,
                y,
                width,
                opts.relax_zeros,
                opts.shorthand,
                opts.capture,
                opts.wrap,
            );
        }
    }
    r
}

} // verus!
