//! Scanning runs of digits and amounts in a sequence of characters.
use vstd::prelude::*;

verus! {

pub open spec fn is_digit(c: char) -> bool {
    '0' <= c <= '9'
}

/// The value of a decimal digit.
pub open spec fn digit_value(c: char) -> nat {
    (c as int - '0' as int) as nat
}

/// The suffix of `t` from index `i`.
pub open spec fn rest(t: Seq<char>, i: int) -> Seq<char> {
    t.subrange(i, t.len() as int)
}

/// Length of the run of digits at the front of `s`.
pub open spec fn digits_len(s: Seq<char>) -> nat
    decreases s.len(),
{
    if s.len() > 0 && is_digit(s[0]) {
        1 + digits_len(s.drop_first())
    } else {
        0
    }
}

/// May `c` stand inside an amount: a digit, a comma, or a point where
/// `points` holds.
pub open spec fn in_amount(c: char, points: bool) -> bool {
    is_digit(c) || c == ',' || (points && c == '.')
}

/// Length of the longest prefix of `s` made of amount characters that ends
/// with a digit; zero if there is none.
pub open spec fn amount_len(s: Seq<char>, points: bool) -> nat
    decreases s.len(),
{
    if s.len() > 0 && in_amount(s[0], points) {
        let r = amount_len(s.drop_first(), points);
        if r > 0 {
            r + 1
        } else if is_digit(s[0]) {
            1
        } else {
            0
        }
    } else {
        0
    }
}

/// Every character of `s` is a digit.
pub open spec fn all_digits(s: Seq<char>) -> bool {
    forall|k: int| 0 <= k < s.len() ==> is_digit(#[trigger] s[k])
}

/// The decimal value of a run of digits.
pub open spec fn value(s: Seq<char>) -> nat
    decreases s.len(),
{
    if s.len() == 0 {
        0
    } else {
        value(s.drop_last()) * 10 + digit_value(s.last())
    }
}

/// `s` reads as an integer no greater than `max`: a non-empty run of digits.
pub open spec fn parses_within(s: Seq<char>, max: nat) -> bool {
    s.len() > 0 && all_digits(s) && value(s) <= max
}

/// `s` without its leading zeros.
pub open spec fn strip_zeros(s: Seq<char>) -> Seq<char>
    decreases s.len(),
{
    if s.len() > 0 && s[0] == '0' {
        strip_zeros(s.drop_first())
    } else {
        s
    }
}

/// `s` without its commas.
pub open spec fn strip_commas(s: Seq<char>) -> Seq<char>
    decreases s.len(),
{
    if s.len() == 0 {
        s
    } else if s.last() == ',' {
        strip_commas(s.drop_last())
    } else {
        strip_commas(s.drop_last()).push(s.last())
    }
}

/// Number of points in `s`.
pub open spec fn count_points(s: Seq<char>) -> nat
    decreases s.len(),
{
    if s.len() == 0 {
        0
    } else {
        count_points(s.drop_last()) + if s.last() == '.' { 1nat } else { 0nat }
    }
}

/// Index of the first point of `s`, or its length if it has none.
pub open spec fn point_pos(s: Seq<char>) -> nat
    decreases s.len(),
{
    if s.len() == 0 || s[0] == '.' {
        0
    } else {
        1 + point_pos(s.drop_first())
    }
}

pub proof fn lemma_digits_len(s: Seq<char>)
    ensures
        digits_len(s) <= s.len(),
        s.len() > 0 && is_digit(s[0]) ==> digits_len(s) >= 1,
    decreases s.len(),
{
    if s.len() > 0 {
        lemma_digits_len(s.drop_first());
    }
}

pub proof fn lemma_amount_len(s: Seq<char>, points: bool)
    ensures
        amount_len(s, points) <= s.len(),
        s.len() > 0 && is_digit(s[0]) ==> amount_len(s, points) >= 1,
    decreases s.len(),
{
    if s.len() > 0 {
        lemma_amount_len(s.drop_first(), points);
    }
}

pub fn is_digit_char(c: char) -> (r: bool)
    ensures
        r == is_digit(c),
{
    c >= '0' && c <= '9'
}

/// The run of digits that starts at `i`.
pub fn digits_len_at(t: &Vec<char>, i: usize) -> (r: usize)
    requires
        i <= t.len(),
    ensures
        r == digits_len(rest(t@, i as int)),
        i + r <= t.len(),
{
    let mut j = i;
    while j < t.len() && is_digit_char(t[j])
        invariant
            i <= j <= t.len(),
            digits_len(rest(t@, i as int)) == (j - i) + digits_len(rest(t@, j as int)),
        decreases t.len() - j,
    {
        assert(rest(t@, j as int).drop_first() =~= rest(t@, j + 1));
        j = j + 1;
    }
    j - i
}

/// The amount that starts at `i`.
pub fn amount_len_at(t: &Vec<char>, i: usize, points: bool) -> (r: usize)
    requires
        i <= t.len(),
    ensures
        r == amount_len(rest(t@, i as int), points),
        i + r <= t.len(),
{
    let mut j = i;
    let mut last = i;
    while j < t.len() && (is_digit_char(t[j]) || t[j] == ',' || (points && t[j] == '.'))
        invariant
            i <= last <= j <= t.len(),
            amount_len(rest(t@, i as int), points) == if amount_len(rest(t@, j as int), points)
                > 0 {
                (j - i) + amount_len(rest(t@, j as int), points)
            } else {
                last - i
            },
        decreases t.len() - j,
    {
        assert(rest(t@, j as int).drop_first() =~= rest(t@, j + 1));
        if is_digit_char(t[j]) {
            last = j + 1;
        }
        j = j + 1;
    }
    last - i
}

proof fn lemma_value_prefix(s: Seq<char>, m: int)
    requires
        0 <= m <= s.len(),
    ensures
        value(s.subrange(0, m)) <= value(s),
    decreases s.len(),
{
    if m < s.len() {
        lemma_value_prefix(s.drop_last(), m);
        assert(s.drop_last().subrange(0, m) =~= s.subrange(0, m));
    } else {
        assert(s.subrange(0, m) =~= s);
    }
}

/// Reads `t[i..j]` as an integer no greater than `max`.
pub fn parse_digits(t: &Vec<char>, i: usize, j: usize, max: u64) -> (r: Option<u64>)
    requires
        i <= j <= t.len(),
        max <= i64::MAX,
    ensures
        r is Some <==> parses_within(t@.subrange(i as int, j as int), max as nat),
        r is Some ==> r->0 == value(t@.subrange(i as int, j as int)),
{
    if i == j {
        return None;
    }
    let ghost s = t@.subrange(i as int, j as int);
    let mut k = i;
    let mut v: u64 = 0;
    while k < j
        invariant
            i <= k <= j <= t.len(),
            s == t@.subrange(i as int, j as int),
            max <= i64::MAX,
            v <= max,
            v == value(s.subrange(0, k - i)),
            all_digits(s.subrange(0, k - i)),
        decreases j - k,
    {
        let c = t[k];
        assert(s.subrange(0, k + 1 - i).drop_last() =~= s.subrange(0, k - i));
        assert(s[k - i] == c);
        if !is_digit_char(c) {
            return None;
        }
        let d = (c as u32 - '0' as u32) as u64;
        assert(value(s.subrange(0, k + 1 - i)) == v * 10 + d);
        if d > max || v > (max - d) / 10 {
            assert(v * 10 + d > max) by (nonlinear_arith)
                requires
                    d > max || v > (max - d) / 10,
            ;
            proof {
                lemma_value_prefix(s, k + 1 - i);
            }
            return None;
        }
        assert(v * 10 + d <= max) by (nonlinear_arith)
            requires
                d <= max,
                v <= (max - d) / 10,
        ;
        v = v * 10 + d;
        k = k + 1;
        assert(all_digits(s.subrange(0, k - i)));
    }
    assert(s.subrange(0, j - i) =~= s);
    Some(v)
}

/// Appends `t[i..j]` to `out`.
pub fn push_range(out: &mut Vec<char>, t: &Vec<char>, i: usize, j: usize)
    requires
        i <= j <= t.len(),
    ensures
        final(out)@ == old(out)@ + t@.subrange(i as int, j as int),
{
    let mut k = i;
    while k < j
        invariant
            i <= k <= j <= t.len(),
            out@ == old(out)@ + t@.subrange(i as int, k as int),
        decreases j - k,
    {
        out.push(t[k]);
        k = k + 1;
        assert(out@ =~= old(out)@ + t@.subrange(i as int, k as int));
    }
}

/// Appends `t[i..j]` without its commas to `out`.
pub fn push_strip_commas(out: &mut Vec<char>, t: &Vec<char>, i: usize, j: usize)
    requires
        i <= j <= t.len(),
    ensures
        final(out)@ == old(out)@ + strip_commas(t@.subrange(i as int, j as int)),
{
    let mut k = i;
    while k < j
        invariant
            i <= k <= j <= t.len(),
            out@ == old(out)@ + strip_commas(t@.subrange(i as int, k as int)),
        decreases j - k,
    {
        assert(t@.subrange(i as int, k + 1).drop_last() =~= t@.subrange(i as int, k as int));
        if t[k] != ',' {
            out.push(t[k]);
        }
        k = k + 1;
        assert(out@ =~= old(out)@ + strip_commas(t@.subrange(i as int, k as int)));
    }
}

/// Appends `t[i..j]` without its leading zeros to `out`.
pub fn push_strip_zeros(out: &mut Vec<char>, t: &Vec<char>, i: usize, j: usize)
    requires
        i <= j <= t.len(),
    ensures
        final(out)@ == old(out)@ + strip_zeros(t@.subrange(i as int, j as int)),
{
    let mut k = i;
    while k < j && t[k] == '0'
        invariant
            i <= k <= j <= t.len(),
            strip_zeros(t@.subrange(i as int, j as int)) == strip_zeros(
                t@.subrange(k as int, j as int),
            ),
        decreases j - k,
    {
        assert(t@.subrange(k as int, j as int).drop_first() =~= t@.subrange(k + 1, j as int));
        k = k + 1;
    }
    push_range(out, t, k, j);
}

/// Whether `t[i..j]` holds two points or more.
pub fn has_two_points(t: &Vec<char>, i: usize, j: usize) -> (r: bool)
    requires
        i <= j <= t.len(),
    ensures
        r == (count_points(t@.subrange(i as int, j as int)) >= 2),
{
    let mut k = i;
    let mut n: usize = 0;
    while k < j
        invariant
            i <= k <= j <= t.len(),
            n <= 2,
            n == if count_points(t@.subrange(i as int, k as int)) >= 2 {
                2
            } else {
                count_points(t@.subrange(i as int, k as int))
            },
        decreases j - k,
    {
        assert(t@.subrange(i as int, k + 1).drop_last() =~= t@.subrange(i as int, k as int));
        if t[k] == '.' && n < 2 {
            n = n + 1;
        }
        k = k + 1;
    }
    n == 2
}

/// Index, relative to `i`, of the first point of `t[i..j]`, or `j - i`.
pub fn point_pos_in(t: &Vec<char>, i: usize, j: usize) -> (r: usize)
    requires
        i <= j <= t.len(),
    ensures
        r == point_pos(t@.subrange(i as int, j as int)),
        i + r <= j,
{
    let mut k = i;
    while k < j && t[k] != '.'
        invariant
            i <= k <= j <= t.len(),
            point_pos(t@.subrange(i as int, j as int)) == (k - i) + point_pos(
                t@.subrange(k as int, j as int),
            ),
        decreases j - k,
    {
        assert(t@.subrange(k as int, j as int).drop_first() =~= t@.subrange(k + 1, j as int));
        k = k + 1;
    }
    k - i
}

} // verus!
