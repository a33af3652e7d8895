//! Character-sequence helpers: decimal rendering, zero padding, joining and
//! regex escaping, each with the mathematical definition it is proved against.

use vstd::prelude::*;

verus! {

broadcast use vstd::string::group_string_axioms;

/// The ASCII digit for `d` in `0..10`.
pub open spec fn digit_char(d: int) -> char {
    (d + 48) as char
}

/// True for the ASCII digits `'0'..='9'`.
pub open spec fn is_digit(c: char) -> bool {
    '0' <= c && c <= '9'
}

/// The numeric value of an ASCII digit.
pub open spec fn digit_value(c: char) -> int {
    (c as int) - 48
}

/// Decimal digits of a natural number, without leading zeros.
pub open spec fn nat_text(n: nat) -> Seq<char>
    decreases n,
{
    if n < 10 {
        seq![digit_char(n as int)]
    } else {
        nat_text(n / 10).push(digit_char((n % 10) as int))
    }
}

/// Decimal text of an integer, with a leading `-` for negatives.
pub open spec fn int_text(n: int) -> Seq<char> {
    if n < 0 {
        seq!['-'] + nat_text((-n) as nat)
    } else {
        nat_text(n as nat)
    }
}

/// `n` copies of `'0'`.
pub open spec fn zero_run(n: int) -> Seq<char> {
    Seq::new(if n > 0 { n as nat } else { 0 }, |i: int| '0')
}

/// Left-pad `body` with zeros up to `target` characters. Never truncates.
pub open spec fn left_pad(body: Seq<char>, target: int) -> Seq<char> {
    if body.len() < target {
        zero_run(target - body.len()) + body
    } else {
        body
    }
}

/// True when the text starts with a minus sign.
pub open spec fn has_dash(s: Seq<char>) -> bool {
    s.len() > 0 && s[0] == '-'
}

/// Left-pad a numeric text to `max_len` characters, keeping a leading `-` in
/// front of the zeros.
pub open spec fn to_max_len(s: Seq<char>, max_len: int) -> Seq<char> {
    if has_dash(s) {
        seq!['-'] + left_pad(s.drop_first(), max_len - 1)
    } else {
        left_pad(s, max_len)
    }
}

/// The text without one leading `-`.
pub open spec fn unsigned_part(s: Seq<char>) -> Seq<char> {
    if has_dash(s) {
        s.drop_first()
    } else {
        s
    }
}

/// True when a numeric text has a meaningful leading zero: `"01"` and `"-007"`
/// do, `"0"`, `"-0"` and `"10"` do not.
pub open spec fn has_leading_zero(s: Seq<char>) -> bool {
    let v = unsigned_part(s);
    v != seq!['0'] && v.len() > 0 && v[0] == '0'
}

/// Characters that have a meaning in regex syntax and are escaped with `\`.
pub open spec fn is_meta(c: char) -> bool {
    c == '\\' || c == '.' || c == '+' || c == '*' || c == '?' || c == '(' || c == ')'
        || c == '|' || c == '[' || c == ']' || c == '{' || c == '}' || c == '^' || c == '$'
        || c == '#' || c == '&' || c == '-' || c == '~'
}

/// The regex source that matches exactly the character `c`.
pub open spec fn escape_char(c: char) -> Seq<char> {
    if is_meta(c) {
        seq!['\\', c]
    } else {
        seq![c]
    }
}

/// The regex source that matches exactly the text `s`.
pub open spec fn escape_text(s: Seq<char>) -> Seq<char>
    decreases s.len(),
{
    if s.len() == 0 {
        Seq::empty()
    } else {
        escape_text(s.drop_last()) + escape_char(s.last())
    }
}

/// Join `parts` with `sep` between neighbours.
pub open spec fn join(parts: Seq<Seq<char>>, sep: Seq<char>) -> Seq<char>
    decreases parts.len(),
{
    if parts.len() == 0 {
        Seq::empty()
    } else if parts.len() == 1 {
        parts[0]
    } else {
        join(parts.drop_last(), sep) + sep + parts.last()
    }
}

/// Append one character to a `String`.
#[verifier::external_body]
pub fn push_char(s: &mut String, c: char)
    ensures
        final(s)@ == old(s)@.push(c),
{
    s.push(c);
}

/// The characters of a string slice.
pub fn chars_of(s: &str) -> (v: Vec<char>)
    ensures
        v@ == s@,
{
    let mut v: Vec<char> = Vec::new();
    for c in it: s.chars()
        invariant
            v@ == it.seq().take(it.index() as int),
            it.seq() == s@,
    {
        v.push(c);
    }
    v
}

/// A `String` holding the given characters.
pub fn string_of(v: &Vec<char>) -> (s: String)
    ensures
        s@ == v@,
{
    let mut s = String::new();
    let mut i: usize = 0;
    while i < v.len()
        invariant
            i <= v@.len(),
            s@ == v@.take(i as int),
        decreases v@.len() - i,
    {
        push_char(&mut s, v[i]);
        i += 1;
        assert(s@ =~= v@.take(i as int));
    }
    assert(v@.take(v@.len() as int) =~= v@);
    s
}

/// Append all of `src` to `dst`.
pub fn push_all(dst: &mut Vec<char>, src: &Vec<char>)
    ensures
        final(dst)@ == old(dst)@ + src@,
{
    let ghost start = dst@;
    let mut i: usize = 0;
    while i < src.len()
        invariant
            i <= src@.len(),
            dst@ == start + src@.take(i as int),
        decreases src@.len() - i,
    {
        dst.push(src[i]);
        i += 1;
        assert(dst@ =~= start + src@.take(i as int));
    }
    assert(src@.take(src@.len() as int) =~= src@);
}

/// Equality of two character vectors.
pub fn chars_eq(a: &Vec<char>, b: &Vec<char>) -> (r: bool)
    ensures
        r == (a@ == b@),
{
    if a.len() != b.len() {
        return false;
    }
    let mut i: usize = 0;
    while i < a.len()
        invariant
            a@.len() == b@.len(),
            i <= a@.len(),
            forall|j: int| 0 <= j < i ==> a@[j] == b@[j],
        decreases a@.len() - i,
    {
        if a[i] != b[i] {
            return false;
        }
        i += 1;
    }
    assert(a@ =~= b@);
    true
}

/// The ASCII digit for `d`.
pub fn digit_of(d: u8) -> (c: char)
    requires
        d < 10,
    ensures
        c == digit_char(d as int),
{
    ((d + 48) as char)
}

/// Append the decimal digits of `n`.
pub fn push_nat(out: &mut Vec<char>, n: u128)
    ensures
        final(out)@ == old(out)@ + nat_text(n as nat),
    decreases n,
{
    if n >= 10 {
        push_nat(out, n / 10);
    }
    out.push(digit_of((n % 10) as u8));
    if n >= 10 {
        assert(final(out)@ =~= old(out)@ + nat_text(n as nat));
    } else {
        assert(final(out)@ =~= old(out)@ + nat_text(n as nat));
    }
}

/// The decimal text of `n`.
pub fn int_chars(n: i128) -> (v: Vec<char>)
    requires
        n > i128::MIN,
    ensures
        v@ == int_text(n as int),
{
    let mut v: Vec<char> = Vec::new();
    if n < 0 {
        v.push('-');
        push_nat(&mut v, (-n) as u128);
    } else {
        push_nat(&mut v, n as u128);
    }
    assert(v@ =~= int_text(n as int));
    v
}

/// `n` zeros followed by `body`.
fn zeros_then(n: usize, body: &Vec<char>) -> (v: Vec<char>)
    ensures
        v@ == zero_run(n as int) + body@,
{
    let mut v: Vec<char> = Vec::new();
    let mut i: usize = 0;
    while i < n
        invariant
            i <= n,
            v@ == zero_run(i as int),
        decreases n - i,
    {
        v.push('0');
        i += 1;
        assert(v@ =~= zero_run(i as int));
    }
    push_all(&mut v, body);
    v
}

/// Left-pad `body` with zeros up to `target` characters.
pub fn left_pad_chars(body: &Vec<char>, target: usize) -> (v: Vec<char>)
    ensures
        v@ == left_pad(body@, target as int),
{
    if body.len() < target {
        zeros_then(target - body.len(), body)
    } else {
        let mut v: Vec<char> = Vec::new();
        push_all(&mut v, body);
        assert(v@ =~= body@);
        v
    }
}

/// The characters of `s` from index `from` on.
pub fn skip_chars(s: &Vec<char>, from: usize) -> (v: Vec<char>)
    requires
        from <= s@.len(),
    ensures
        v@ == s@.skip(from as int),
{
    let mut v: Vec<char> = Vec::new();
    let mut i: usize = from;
    while i < s.len()
        invariant
            from <= i <= s@.len(),
            v@ == s@.subrange(from as int, i as int),
        decreases s@.len() - i,
    {
        v.push(s[i]);
        i += 1;
        assert(v@ =~= s@.subrange(from as int, i as int));
    }
    assert(v@ =~= s@.skip(from as int));
    v
}

/// Left-pad a numeric text to `max_len` characters (not bytes), keeping a
/// leading `-` in front.
pub fn to_max_len_chars(s: &Vec<char>, max_len: usize) -> (v: Vec<char>)
    ensures
        v@ == to_max_len(s@, max_len as int),
{
    if s.len() > 0 && s[0] == '-' {
        let body = skip_chars(s, 1);
        let target: usize = if max_len > 0 { max_len - 1 } else { 0 };
        let padded = left_pad_chars(&body, target);
        let mut v: Vec<char> = Vec::new();
        v.push('-');
        push_all(&mut v, &padded);
        assert(body@ =~= s@.drop_first());
        assert(left_pad(body@, target as int) == left_pad(body@, max_len - 1));
        v
    } else {
        left_pad_chars(s, max_len)
    }
}

/// True when a numeric text has a meaningful leading zero.
pub fn leading_zero(s: &Vec<char>) -> (r: bool)
    ensures
        r == has_leading_zero(s@),
{
    let start: usize = if s.len() > 0 && s[0] == '-' { 1 } else { 0 };
    let ghost v = unsigned_part(s@);
    assert(v =~= s@.skip(start as int));
    if s.len() == start + 1 && s[start] == '0' {
        assert(v =~= seq!['0']);
        return false;
    }
    if s.len() > start && s[start] == '0' {
        return true;
    }
    false
}

/// Append the escaped form of `c`.
pub fn push_escaped(out: &mut Vec<char>, c: char)
    ensures
        final(out)@ == old(out)@ + escape_char(c),
{
    if c == '\\' || c == '.' || c == '+' || c == '*' || c == '?' || c == '(' || c == ')'
        || c == '|' || c == '[' || c == ']' || c == '{' || c == '}' || c == '^' || c == '$'
        || c == '#' || c == '&' || c == '-' || c == '~' {
        out.push('\\');
        out.push(c);
    } else {
        out.push(c);
    }
    assert(final(out)@ =~= old(out)@ + escape_char(c));
}

/// Append the escaped form of every character of `s`.
pub fn push_escaped_text(out: &mut Vec<char>, s: &Vec<char>)
    ensures
        final(out)@ == old(out)@ + escape_text(s@),
{
    let ghost start = out@;
    let mut i: usize = 0;
    while i < s.len()
        invariant
            i <= s@.len(),
            out@ == start + escape_text(s@.take(i as int)),
        decreases s@.len() - i,
    {
        push_escaped(out, s[i]);
        assert(s@.take(i + 1).drop_last() =~= s@.take(i as int));
        i += 1;
        assert(out@ =~= start + escape_text(s@.take(i as int)));
    }
    assert(s@.take(s@.len() as int) =~= s@);
}

/// Join the given texts with `sep` between neighbours.
pub fn join_chars(parts: &Vec<Vec<char>>, sep: &Vec<char>) -> (v: Vec<char>)
    ensures
        v@ == join(parts@.map_values(|p: Vec<char>| p@), sep@),
{
    let ghost views = parts@.map_values(|p: Vec<char>| p@);
    let mut v: Vec<char> = Vec::new();
    let mut i: usize = 0;
    while i < parts.len()
        invariant
            i <= parts@.len(),
            views == parts@.map_values(|p: Vec<char>| p@),
            v@ == join(views.take(i as int), sep@),
        decreases parts@.len() - i,
    {
        let ghost before = v@;
        if i > 0 {
            push_all(&mut v, sep);
        }
        push_all(&mut v, &parts[i]);
        assert(views.take(i + 1).drop_last() =~= views.take(i as int));
        if i == 0 {
            assert(v@ =~= join(views.take(1), sep@));
        }
        i += 1;
    }
    assert(views.take(parts@.len() as int) =~= views);
    v
}

} // verus!
