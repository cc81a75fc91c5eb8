//! Spelling numbers out as words, and rewriting the numbers of a text.
use vstd::prelude::*;
use crate::text::{join, join_words, lemma_join_front, views, push_str, string_of_chars};
use crate::scan::{
    amount_len, amount_len_at, digits_len, digits_len_at, has_two_points, is_digit,
    is_digit_char, lemma_amount_len, lemma_digits_len, parse_digits, parses_within, point_pos,
    point_pos_in, push_range, push_strip_commas, push_strip_zeros, rest, strip_commas,
    strip_zeros, value, count_points,
};

verus! {

/// Why a number could not be spelled out.
#[derive(Debug, Clone, Copy, PartialEq, Eq, Structural)]
pub enum InflectError {
    /// The magnitude is beyond the supported scale words.
    ConversionError,
    /// A numeric-looking piece of text is not an integer that fits.
    ParsingError,
}

/// The words for zero to nineteen.
pub open spec fn base_word(n: nat) -> Seq<char> {
    if n == 0 { "zero"@ }
    else if n == 1 { "one"@ }
    else if n == 2 { "two"@ }
    else if n == 3 { "three"@ }
    else if n == 4 { "four"@ }
    else if n == 5 { "five"@ }
    else if n == 6 { "six"@ }
    else if n == 7 { "seven"@ }
    else if n == 8 { "eight"@ }
    else if n == 9 { "nine"@ }
    else if n == 10 { "ten"@ }
    else if n == 11 { "eleven"@ }
    else if n == 12 { "twelve"@ }
    else if n == 13 { "thirteen"@ }
    else if n == 14 { "fourteen"@ }
    else if n == 15 { "fifteen"@ }
    else if n == 16 { "sixteen"@ }
    else if n == 17 { "seventeen"@ }
    else if n == 18 { "eighteen"@ }
    else { "nineteen"@ }
}

/// The word for `10 * d`, for `2 <= d <= 9`.
pub open spec fn tens_word(d: nat) -> Seq<char> {
    if d == 2 { "twenty"@ }
    else if d == 3 { "thirty"@ }
    else if d == 4 { "forty"@ }
    else if d == 5 { "fifty"@ }
    else if d == 6 { "sixty"@ }
    else if d == 7 { "seventy"@ }
    else if d == 8 { "eighty"@ }
    else { "ninety"@ }
}

/// The word for `1000^k`, for `1 <= k <= 6`.
pub open spec fn scale_word(k: nat) -> Seq<char> {
    if k == 1 { "thousand"@ }
    else if k == 2 { "million"@ }
    else if k == 3 { "billion"@ }
    else if k == 4 { "trillion"@ }
    else if k == 5 { "quadrillion"@ }
    else { "quintillion"@ }
}

/// `1000^k`, for `1 <= k <= 6`.
pub open spec fn magnitude(k: nat) -> nat {
    if k == 1 { 1_000 }
    else if k == 2 { 1_000_000 }
    else if k == 3 { 1_000_000_000 }
    else if k == 4 { 1_000_000_000_000 }
    else if k == 5 { 1_000_000_000_000_000 }
    else { 1_000_000_000_000_000_000 }
}

/// The largest scale whose magnitude does not exceed `n`, for `n >= 1000`.
pub open spec fn scale_of(n: nat) -> nat {
    if n >= magnitude(6) { 6 }
    else if n >= magnitude(5) { 5 }
    else if n >= magnitude(4) { 4 }
    else if n >= magnitude(3) { 3 }
    else if n >= magnitude(2) { 2 }
    else { 1 }
}

/// Words of a number below one hundred.
pub open spec fn nn_words(n: nat) -> Seq<Seq<char>> {
    if n < 20 {
        seq![base_word(n)]
    } else if n % 10 == 0 {
        seq![tens_word(n / 10)]
    } else {
        seq![tens_word(n / 10), base_word(n % 10)]
    }
}

/// Words of a number below one thousand; zero has none.
pub open spec fn nnn_words(n: nat) -> Seq<Seq<char>> {
    (if n / 100 > 0 { seq![base_word(n / 100), "hundred"@] } else { Seq::empty() })
        + (if n % 100 > 0 { nn_words(n % 100) } else { Seq::empty() })
}

/// Words of a number: the leading group of the largest scale, its scale
/// word, then the words of the remainder.
pub open spec fn large_words(n: nat) -> Seq<Seq<char>>
    decreases n,
{
    if n < 1000 {
        nnn_words(n)
    } else {
        let k = scale_of(n);
        let q = n / magnitude(k);
        let r = n % magnitude(k);
        nnn_words(q) + seq![scale_word(k)] + (if r > 0 { large_words(r) } else { Seq::empty() })
    }
}

/// The cardinal words of a non-negative number.
pub open spec fn cardinal_words(n: nat) -> Seq<Seq<char>> {
    if n < 100 {
        nn_words(n)
    } else if n < 1000 {
        nnn_words(n)
    } else {
        large_words(n)
    }
}

/// The cardinal words of an integer, with `minus` before a negative one.
pub open spec fn signed_words(n: int) -> Seq<Seq<char>> {
    if n < 0 {
        seq!["minus"@] + cardinal_words((-n) as nat)
    } else {
        cardinal_words(n as nat)
    }
}

/// The spoken form of an integer.
pub open spec fn spoken(n: int) -> Seq<char> {
    join_words(signed_words(n), ' ')
}

/// A positive number has at least one word.
pub proof fn lemma_cardinal_nonempty(n: nat)
    requires
        n > 0,
    ensures
        cardinal_words(n).len() > 0,
{
    if n >= 1000 {
        reveal_with_fuel(large_words, 1);
        assert(large_words(n).len() > 0);
    }
}

/// Negating a positive number puts the word `minus` and one space in front
/// of its spoken form.
pub proof fn law_sign_round_trip(n: int)
    requires
        0 < n <= i64::MAX,
    ensures
        spoken(-n) == "minus"@ + seq![' '] + spoken(n),
{
    lemma_cardinal_nonempty(n as nat);
    assert((-(-n)) as nat == n as nat);
    lemma_join_front("minus"@, cardinal_words(n as nat), ' ');
}

/// `p` in front of a successful result; an error stays as it is.
pub open spec fn prefixed(p: Seq<char>, r: Result<Seq<char>, InflectError>) -> Result<
    Seq<char>,
    InflectError,
> {
    match r {
        Ok(x) => Ok(p + x),
        Err(e) => Err(e),
    }
}

proof fn lemma_prefixed_assoc(a: Seq<char>, b: Seq<char>, r: Result<Seq<char>, InflectError>)
    ensures
        prefixed(a, prefixed(b, r)) == prefixed(a + b, r),
{
    if let Ok(x) = r {
        assert(a + (b + x) =~= (a + b) + x);
    }
}

/// Grouped digits lose their separators: each run of digits and commas
/// that starts and ends with a digit is written without its commas.
pub open spec fn collapsed(s: Seq<char>) -> Seq<char>
    decreases s.len(),
    via collapsed_decreases
{
    if s.len() == 0 {
        s
    } else if is_digit(s[0]) {
        let m = amount_len(s, false);
        strip_commas(s.subrange(0, m as int)) + collapsed(rest(s, m as int))
    } else {
        seq![s[0]] + collapsed(s.drop_first())
    }
}

#[via_fn]
proof fn collapsed_decreases(s: Seq<char>) {
    lemma_amount_len(s, false);
}

/// The pound sign.
pub open spec fn pound_sign() -> char {
    '\u{a3}'
}

/// A pound sign followed by an amount becomes the amount and `pounds`.
pub open spec fn pounds_expanded(s: Seq<char>) -> Seq<char>
    decreases s.len(),
    via pounds_expanded_decreases
{
    if s.len() == 0 {
        s
    } else if s[0] == pound_sign() && amount_len(s.drop_first(), false) > 0 {
        let m = amount_len(s.drop_first(), false) as int;
        s.subrange(1, m + 1) + " pounds"@ + pounds_expanded(rest(s, m + 1))
    } else {
        seq![s[0]] + pounds_expanded(s.drop_first())
    }
}

#[via_fn]
proof fn pounds_expanded_decreases(s: Seq<char>) {
    lemma_amount_len(s.drop_first(), false);
}

/// The largest value of a dollar or cent component.
pub open spec fn component_max() -> nat {
    u32::MAX as nat
}

/// The words for a dollar amount `a` (digits, commas and points that end
/// with a digit).
pub open spec fn dollar_words(a: Seq<char>) -> Result<Seq<char>, InflectError> {
    if count_points(a) >= 2 {
        Ok(a + " dollars"@)
    } else {
        let p = point_pos(a) as int;
        let whole = a.subrange(0, p);
        let has_frac = p < a.len();
        let frac = a.subrange(p + 1, a.len() as int);
        if !parses_within(whole, component_max()) || (has_frac && !parses_within(
            frac,
            component_max(),
        )) {
            Err(InflectError::ParsingError)
        } else {
            let dollars = value(whole);
            let cents = if has_frac { value(frac) } else { 0 };
            if dollars > 0 && cents > 0 {
                Ok(strip_zeros(whole) + " dollars "@ + strip_zeros(frac) + " cents "@)
            } else if dollars > 0 {
                Ok(strip_zeros(whole) + " dollars"@)
            } else if cents > 0 {
                Ok(strip_zeros(frac) + " cents"@)
            } else {
                Ok("zero dollars"@)
            }
        }
    }
}

/// A dollar sign followed by an amount becomes its words.
pub open spec fn dollars_expanded(s: Seq<char>) -> Result<Seq<char>, InflectError>
    decreases s.len(),
    via dollars_expanded_decreases
{
    if s.len() == 0 {
        Ok(s)
    } else if s[0] == '$' && amount_len(s.drop_first(), true) > 0 {
        let m = amount_len(s.drop_first(), true) as int;
        match dollar_words(s.subrange(1, m + 1)) {
            Ok(w) => prefixed(w, dollars_expanded(rest(s, m + 1))),
            Err(e) => Err(e),
        }
    } else {
        prefixed(seq![s[0]], dollars_expanded(s.drop_first()))
    }
}

#[via_fn]
proof fn dollars_expanded_decreases(s: Seq<char>) {
    lemma_amount_len(s.drop_first(), true);
}

/// Two runs of digits joined by a point are read with the word `point`.
pub open spec fn decimals_expanded(s: Seq<char>) -> Seq<char>
    decreases s.len(),
    via decimals_expanded_decreases
{
    if s.len() == 0 {
        s
    } else if is_digit(s[0]) {
        let d1 = digits_len(s) as int;
        let d2 = digits_len(rest(s, d1 + 1)) as int;
        if d1 < s.len() && s[d1] == '.' && d2 > 0 {
            s.subrange(0, d1) + " point "@ + s.subrange(d1 + 1, d1 + 1 + d2) + decimals_expanded(
                rest(s, d1 + 1 + d2),
            )
        } else {
            s.subrange(0, d1) + decimals_expanded(rest(s, d1))
        }
    } else {
        seq![s[0]] + decimals_expanded(s.drop_first())
    }
}

#[via_fn]
proof fn decimals_expanded_decreases(s: Seq<char>) {
    lemma_digits_len(s);
    if s.len() > 0 {
        lemma_digits_len(rest(s, digits_len(s) as int + 1));
    }
}

/// `a` and `b` make one of the suffixes `st`, `nd`, `rd`.
pub open spec fn short_suffix(a: char, b: char) -> bool {
    (a == 's' && b == 't') || (a == 'n' && b == 'd') || (a == 'r' && b == 'd')
}

/// The words for `1st`, `2nd` and `3rd`; any other run of digits with such a
/// suffix stays as it is.
pub open spec fn short_ordinal(m: Seq<char>) -> Seq<char> {
    if m.len() == 3 && m[0] == '1' && m[1] == 's' && m[2] == 't' {
        "first"@
    } else if m.len() == 3 && m[0] == '2' && m[1] == 'n' && m[2] == 'd' {
        "second"@
    } else if m.len() == 3 && m[0] == '3' && m[1] == 'r' && m[2] == 'd' {
        "third"@
    } else {
        m
    }
}

/// Runs of digits followed by `st`, `nd` or `rd` are read as ordinals.
pub open spec fn short_ordinals_expanded(s: Seq<char>) -> Seq<char>
    decreases s.len(),
    via short_ordinals_expanded_decreases
{
    if s.len() == 0 {
        s
    } else if is_digit(s[0]) {
        let d = digits_len(s) as int;
        if d + 2 <= s.len() && short_suffix(s[d], s[d + 1]) {
            short_ordinal(s.subrange(0, d + 2)) + short_ordinals_expanded(rest(s, d + 2))
        } else {
            s.subrange(0, d) + short_ordinals_expanded(rest(s, d))
        }
    } else {
        seq![s[0]] + short_ordinals_expanded(s.drop_first())
    }
}

#[via_fn]
proof fn short_ordinals_expanded_decreases(s: Seq<char>) {
    lemma_digits_len(s);
}

/// The ordinal of a number read with the suffix `th`.
pub open spec fn th_ordinal(n: int) -> Seq<char> {
    (if spoken(n) == "five"@ { "fif"@ } else { spoken(n) }) + "th"@
}

/// Runs of digits followed by `th` are read as ordinals.
pub open spec fn ordinals_expanded(s: Seq<char>) -> Result<Seq<char>, InflectError>
    decreases s.len(),
    via ordinals_expanded_decreases
{
    if s.len() == 0 {
        Ok(s)
    } else if is_digit(s[0]) {
        let d = digits_len(s) as int;
        if d + 2 <= s.len() && s[d] == 't' && s[d + 1] == 'h' {
            if parses_within(s.subrange(0, d), i64::MAX as nat) {
                prefixed(
                    th_ordinal(value(s.subrange(0, d)) as int),
                    ordinals_expanded(rest(s, d + 2)),
                )
            } else {
                Err(InflectError::ParsingError)
            }
        } else {
            prefixed(s.subrange(0, d), ordinals_expanded(rest(s, d)))
        }
    } else {
        prefixed(seq![s[0]], ordinals_expanded(s.drop_first()))
    }
}

#[via_fn]
proof fn ordinals_expanded_decreases(s: Seq<char>) {
    lemma_digits_len(s);
}

/// Every run of digits is read as a cardinal number.
pub open spec fn numbers_expanded(s: Seq<char>) -> Result<Seq<char>, InflectError>
    decreases s.len(),
    via numbers_expanded_decreases
{
    if s.len() == 0 {
        Ok(s)
    } else if is_digit(s[0]) {
        let d = digits_len(s) as int;
        if parses_within(s.subrange(0, d), i64::MAX as nat) {
            prefixed(spoken(value(s.subrange(0, d)) as int), numbers_expanded(rest(s, d)))
        } else {
            Err(InflectError::ParsingError)
        }
    } else {
        prefixed(seq![s[0]], numbers_expanded(s.drop_first()))
    }
}

#[via_fn]
proof fn numbers_expanded_decreases(s: Seq<char>) {
    lemma_digits_len(s);
}

/// The passes of number normalization, in order.
pub open spec fn normalized(s: Seq<char>) -> Result<Seq<char>, InflectError> {
    match dollars_expanded(pounds_expanded(collapsed(s))) {
        Ok(a) => match ordinals_expanded(short_ordinals_expanded(decimals_expanded(a))) {
            Ok(b) => numbers_expanded(b),
            Err(e) => Err(e),
        },
        Err(e) => Err(e),
    }
}

/// Removes the separators of grouped digits.
pub fn collapse_groups(t: &Vec<char>) -> (r: Vec<char>)
    ensures
        r@ == collapsed(t@),
{
    let mut out: Vec<char> = Vec::new();
    let mut i: usize = 0;
    assert(rest(t@, 0) =~= t@);
    assert(out@ + collapsed(t@) =~= collapsed(t@));
    while i < t.len()
        invariant
            i <= t.len(),
            collapsed(t@) == out@ + collapsed(rest(t@, i as int)),
        decreases t.len() - i,
    {
        let ghost s = rest(t@, i as int);
        assert(s[0] == t@[i as int]);
        if is_digit_char(t[i]) {
            let m = amount_len_at(t, i, false);
            push_strip_commas(&mut out, t, i, i + m);
            assert(s.subrange(0, m as int) =~= t@.subrange(i as int, (i + m) as int));
            assert(rest(s, m as int) =~= rest(t@, (i + m) as int));
            i = i + m;
        } else {
            out.push(t[i]);
            assert(s.drop_first() =~= rest(t@, i + 1));
            i = i + 1;
        }
        assert(collapsed(t@) == out@ + collapsed(rest(t@, i as int)));
    }
    assert(collapsed(rest(t@, i as int)) =~= Seq::empty());
    assert(out@ =~= out@ + Seq::<char>::empty());
    out
}

/// Reads amounts after a pound sign.
pub fn expand_pounds(t: &Vec<char>) -> (r: Vec<char>)
    ensures
        r@ == pounds_expanded(t@),
{
    let mut out: Vec<char> = Vec::new();
    let mut i: usize = 0;
    assert(rest(t@, 0) =~= t@);
    assert(out@ + pounds_expanded(t@) =~= pounds_expanded(t@));
    while i < t.len()
        invariant
            i <= t.len(),
            pounds_expanded(t@) == out@ + pounds_expanded(rest(t@, i as int)),
        decreases t.len() - i,
    {
        let ghost s = rest(t@, i as int);
        assert(s[0] == t@[i as int]);
        assert(s.drop_first() =~= rest(t@, i + 1));
        let m = if t[i] == '\u{a3}' { amount_len_at(t, i + 1, false) } else { 0 };
        if m > 0 {
            push_range(&mut out, t, i + 1, i + 1 + m);
            push_str(&mut out, " pounds");
            assert(s.subrange(1, m + 1) =~= t@.subrange(i + 1, (i + 1 + m) as int));
            assert(rest(s, m + 1) =~= rest(t@, (i + 1 + m) as int));
            i = i + 1 + m;
        } else {
            out.push(t[i]);
            i = i + 1;
        }
        assert(pounds_expanded(t@) == out@ + pounds_expanded(rest(t@, i as int)));
    }
    assert(pounds_expanded(rest(t@, i as int)) =~= Seq::empty());
    assert(out@ =~= out@ + Seq::<char>::empty());
    out
}

/// Reads a point between two runs of digits as the word `point`.
pub fn expand_decimals(t: &Vec<char>) -> (r: Vec<char>)
    ensures
        r@ == decimals_expanded(t@),
{
    let mut out: Vec<char> = Vec::new();
    let mut i: usize = 0;
    assert(rest(t@, 0) =~= t@);
    assert(out@ + decimals_expanded(t@) =~= decimals_expanded(t@));
    while i < t.len()
        invariant
            i <= t.len(),
            decimals_expanded(t@) == out@ + decimals_expanded(rest(t@, i as int)),
        decreases t.len() - i,
    {
        let ghost s = rest(t@, i as int);
        assert(s[0] == t@[i as int]);
        if is_digit_char(t[i]) {
            let d1 = digits_len_at(t, i);
            let d2 = if i + d1 < t.len() { digits_len_at(t, i + d1 + 1) } else { 0 };
            assert(i + d1 < t.len() ==> rest(s, d1 + 1) =~= rest(t@, (i + d1 + 1) as int));
            push_range(&mut out, t, i, i + d1);
            assert(s.subrange(0, d1 as int) =~= t@.subrange(i as int, (i + d1) as int));
            if i + d1 < t.len() && t[i + d1] == '.' && d2 > 0 {
                push_str(&mut out, " point ");
                push_range(&mut out, t, i + d1 + 1, i + d1 + 1 + d2);
                assert(s.subrange(d1 + 1, d1 + 1 + d2) =~= t@.subrange(
                    (i + d1 + 1) as int,
                    (i + d1 + 1 + d2) as int,
                ));
                assert(rest(s, d1 + 1 + d2) =~= rest(t@, (i + d1 + 1 + d2) as int));
                i = i + d1 + 1 + d2;
            } else {
                assert(rest(s, d1 as int) =~= rest(t@, (i + d1) as int));
                i = i + d1;
            }
        } else {
            out.push(t[i]);
            assert(s.drop_first() =~= rest(t@, i + 1));
            i = i + 1;
        }
        assert(decimals_expanded(t@) == out@ + decimals_expanded(rest(t@, i as int)));
    }
    assert(decimals_expanded(rest(t@, i as int)) =~= Seq::empty());
    assert(out@ =~= out@ + Seq::<char>::empty());
    out
}

/// The characters of a result.
pub open spec fn chars_view(r: Result<Vec<char>, InflectError>) -> Result<Seq<char>, InflectError> {
    match r {
        Ok(v) => Ok(v@),
        Err(e) => Err(e),
    }
}

/// The characters of a textual result.
pub open spec fn text_view(r: Result<String, InflectError>) -> Result<Seq<char>, InflectError> {
    match r {
        Ok(v) => Ok(v@),
        Err(e) => Err(e),
    }
}

/// Reads `1st`, `2nd` and `3rd` as words.
pub fn expand_short_ordinals(t: &Vec<char>) -> (r: Vec<char>)
    ensures
        r@ == short_ordinals_expanded(t@),
{
    let mut out: Vec<char> = Vec::new();
    let mut i: usize = 0;
    assert(rest(t@, 0) =~= t@);
    assert(out@ + short_ordinals_expanded(t@) =~= short_ordinals_expanded(t@));
    while i < t.len()
        invariant
            i <= t.len(),
            short_ordinals_expanded(t@) == out@ + short_ordinals_expanded(rest(t@, i as int)),
        decreases t.len() - i,
    {
        let ghost s = rest(t@, i as int);
        assert(s[0] == t@[i as int]);
        if is_digit_char(t[i]) {
            let d = digits_len_at(t, i);
            let e = i + d;
            if t.len() - e >= 2 && ((t[e] == 's' && t[e + 1] == 't') || (t[e] == 'n' && t[e + 1]
                == 'd') || (t[e] == 'r' && t[e + 1] == 'd')) {
                let ghost m = s.subrange(0, d + 2);
                assert(m =~= t@.subrange(i as int, (e + 2) as int));
                if d == 1 && t[i] == '1' && t[e] == 's' {
                    push_str(&mut out, "first");
                } else if d == 1 && t[i] == '2' && t[e] == 'n' {
                    push_str(&mut out, "second");
                } else if d == 1 && t[i] == '3' && t[e] == 'r' {
                    push_str(&mut out, "third");
                } else {
                    push_range(&mut out, t, i, e + 2);
                }
                assert(rest(s, d + 2) =~= rest(t@, (e + 2) as int));
                i = e + 2;
            } else {
                push_range(&mut out, t, i, e);
                assert(s.subrange(0, d as int) =~= t@.subrange(i as int, e as int));
                assert(rest(s, d as int) =~= rest(t@, e as int));
                i = e;
            }
        } else {
            out.push(t[i]);
            assert(s.drop_first() =~= rest(t@, i + 1));
            i = i + 1;
        }
        assert(short_ordinals_expanded(t@) == out@ + short_ordinals_expanded(rest(t@, i as int)));
    }
    assert(short_ordinals_expanded(rest(t@, i as int)) =~= Seq::empty());
    assert(out@ =~= out@ + Seq::<char>::empty());
    out
}

/// Reads runs of digits followed by `th` as ordinals.
pub fn expand_ordinals(t: &Vec<char>) -> (r: Result<Vec<char>, InflectError>)
    ensures
        chars_view(r) == ordinals_expanded(t@),
{
    let mut out: Vec<char> = Vec::new();
    let mut i: usize = 0;
    assert(rest(t@, 0) =~= t@);
    assert(out@ + Seq::<char>::empty() =~= out@);
    while i < t.len()
        invariant
            i <= t.len(),
            ordinals_expanded(t@) == prefixed(out@, ordinals_expanded(rest(t@, i as int))),
        decreases t.len() - i,
    {
        let ghost s = rest(t@, i as int);
        let ghost before = out@;
        let ghost mut piece: Seq<char> = seq![t@[i as int]];
        assert(s[0] == t@[i as int]);
        if is_digit_char(t[i]) {
            let d = digits_len_at(t, i);
            let e = i + d;
            assert(s.subrange(0, d as int) =~= t@.subrange(i as int, e as int));
            if t.len() - e >= 2 && t[e] == 't' && t[e + 1] == 'h' {
                match parse_digits(t, i, e, i64::MAX as u64) {
                    Some(v) => {
                        let w = convert_number(v as i64);
                        let five = "five".to_owned();
                        if w == five {
                            push_str(&mut out, "fif");
                        } else {
                            push_str(&mut out, w.as_str());
                        }
                        push_str(&mut out, "th");
                        proof {
                            piece = th_ordinal(v as int);
                        }
                        assert(out@ =~= before + piece);
                        assert(rest(s, d + 2) =~= rest(t@, (e + 2) as int));
                        i = e + 2;
                    },
                    None => {
                        assert(ordinals_expanded(s) == Err::<Seq<char>, InflectError>(
                            InflectError::ParsingError,
                        ));
                        return Err(InflectError::ParsingError);
                    },
                }
            } else {
                push_range(&mut out, t, i, e);
                proof {
                    piece = t@.subrange(i as int, e as int);
                }
                assert(rest(s, d as int) =~= rest(t@, e as int));
                i = e;
            }
        } else {
            out.push(t[i]);
            assert(s.drop_first() =~= rest(t@, i + 1));
            i = i + 1;
        }
        proof {
            assert(before + piece =~= out@);
            assert(ordinals_expanded(s) == prefixed(piece, ordinals_expanded(rest(t@, i as int))));
            lemma_prefixed_assoc(before, piece, ordinals_expanded(rest(t@, i as int)));
        }
    }
    assert(rest(t@, i as int) =~= Seq::<char>::empty());
    assert(out@ + Seq::<char>::empty() =~= out@);
    Ok(out)
}

/// Reads every run of digits as a cardinal number.
pub fn expand_numbers(t: &Vec<char>) -> (r: Result<Vec<char>, InflectError>)
    ensures
        chars_view(r) == numbers_expanded(t@),
{
    let mut out: Vec<char> = Vec::new();
    let mut i: usize = 0;
    assert(rest(t@, 0) =~= t@);
    assert(out@ + Seq::<char>::empty() =~= out@);
    while i < t.len()
        invariant
            i <= t.len(),
            numbers_expanded(t@) == prefixed(out@, numbers_expanded(rest(t@, i as int))),
        decreases t.len() - i,
    {
        let ghost s = rest(t@, i as int);
        let ghost before = out@;
        let ghost mut piece: Seq<char> = seq![t@[i as int]];
        assert(s[0] == t@[i as int]);
        if is_digit_char(t[i]) {
            let d = digits_len_at(t, i);
            let e = i + d;
            assert(s.subrange(0, d as int) =~= t@.subrange(i as int, e as int));
            match parse_digits(t, i, e, i64::MAX as u64) {
                Some(v) => {
                    let w = convert_number(v as i64);
                    push_str(&mut out, w.as_str());
                    proof {
                        piece = w@;
                    }
                    assert(rest(s, d as int) =~= rest(t@, e as int));
                    i = e;
                },
                None => {
                    assert(numbers_expanded(s) == Err::<Seq<char>, InflectError>(
                        InflectError::ParsingError,
                    ));
                    return Err(InflectError::ParsingError);
                },
            }
        } else {
            out.push(t[i]);
            assert(s.drop_first() =~= rest(t@, i + 1));
            i = i + 1;
        }
        proof {
            assert(before + piece =~= out@);
            assert(numbers_expanded(s) == prefixed(piece, numbers_expanded(rest(t@, i as int))));
            lemma_prefixed_assoc(before, piece, numbers_expanded(rest(t@, i as int)));
        }
    }
    assert(rest(t@, i as int) =~= Seq::<char>::empty());
    assert(out@ + Seq::<char>::empty() =~= out@);
    Ok(out)
}

/// Appends the words of the dollar amount `t[i..j]`.
fn push_dollar_words(out: &mut Vec<char>, t: &Vec<char>, i: usize, j: usize) -> (r: Result<
    (),
    InflectError,
>)
    requires
        i <= j <= t.len(),
    ensures
        match dollar_words(t@.subrange(i as int, j as int)) {
            Ok(w) => r is Ok && final(out)@ == old(out)@ + w,
            Err(e) => r == Err::<(), InflectError>(e),
        },
{
    let ghost a = t@.subrange(i as int, j as int);
    if has_two_points(t, i, j) {
        push_range(out, t, i, j);
        push_str(out, " dollars");
        assert(final(out)@ =~= old(out)@ + (a + " dollars"@));
        return Ok(());
    }
    let p = point_pos_in(t, i, j);
    let has_frac = i + p < j;
    assert(a.subrange(0, p as int) =~= t@.subrange(i as int, (i + p) as int));
    let whole = parse_digits(t, i, i + p, u32::MAX as u64);
    let frac = if has_frac {
        assert(a.subrange(p + 1, a.len() as int) =~= t@.subrange((i + p + 1) as int, j as int));
        parse_digits(t, i + p + 1, j, u32::MAX as u64)
    } else {
        Some(0)
    };
    match (whole, frac) {
        (Some(dollars), Some(cents)) => {
            if dollars > 0 && cents > 0 {
                push_strip_zeros(out, t, i, i + p);
                push_str(out, " dollars ");
                push_strip_zeros(out, t, i + p + 1, j);
                push_str(out, " cents ");
            } else if dollars > 0 {
                push_strip_zeros(out, t, i, i + p);
                push_str(out, " dollars");
            } else if cents > 0 {
                push_strip_zeros(out, t, i + p + 1, j);
                push_str(out, " cents");
            } else {
                push_str(out, "zero dollars");
            }
            assert(dollar_words(a) is Ok);
            assert(final(out)@ =~= old(out)@ + dollar_words(a)->Ok_0);
            Ok(())
        },
        _ => Err(InflectError::ParsingError),
    }
}

/// Reads amounts after a dollar sign as dollars and cents.
pub fn expand_dollars(t: &Vec<char>) -> (r: Result<Vec<char>, InflectError>)
    ensures
        chars_view(r) == dollars_expanded(t@),
{
    let mut out: Vec<char> = Vec::new();
    let mut i: usize = 0;
    assert(rest(t@, 0) =~= t@);
    assert(out@ + Seq::<char>::empty() =~= out@);
    while i < t.len()
        invariant
            i <= t.len(),
            dollars_expanded(t@) == prefixed(out@, dollars_expanded(rest(t@, i as int))),
        decreases t.len() - i,
    {
        let ghost s = rest(t@, i as int);
        let ghost before = out@;
        let ghost mut piece: Seq<char> = seq![t@[i as int]];
        assert(s[0] == t@[i as int]);
        assert(s.drop_first() =~= rest(t@, i + 1));
        let m = if t[i] == '$' { amount_len_at(t, i + 1, true) } else { 0 };
        if m > 0 {
            assert(s.subrange(1, m + 1) =~= t@.subrange(i + 1, (i + 1 + m) as int));
            match push_dollar_words(&mut out, t, i + 1, i + 1 + m) {
                Ok(()) => {
                    proof {
                        piece = dollar_words(s.subrange(1, m + 1))->Ok_0;
                    }
                    assert(rest(s, m + 1) =~= rest(t@, (i + 1 + m) as int));
                    i = i + 1 + m;
                },
                Err(e) => {
                    return Err(e);
                },
            }
        } else {
            out.push(t[i]);
            i = i + 1;
        }
        proof {
            assert(before + piece =~= out@);
            assert(dollars_expanded(s) == prefixed(piece, dollars_expanded(rest(t@, i as int))));
            lemma_prefixed_assoc(before, piece, dollars_expanded(rest(t@, i as int)));
        }
    }
    assert(rest(t@, i as int) =~= Seq::<char>::empty());
    assert(out@ + Seq::<char>::empty() =~= out@);
    Ok(out)
}

/// Rewrites the numbers of a text as words: grouped digits, amounts of
/// pounds and dollars, decimals, ordinals and cardinals, in that order.
pub fn normalize_number(text: &str) -> (r: Result<String, InflectError>)
    ensures
        text_view(r) == normalized(text@),
{
    let mut t: Vec<char> = Vec::new();
    push_str(&mut t, text);
    assert(t@ =~= text@);
    let a = expand_pounds(&collapse_groups(&t));
    let b = match expand_dollars(&a) {
        Ok(b) => b,
        Err(e) => {
            return Err(e);
        },
    };
    let c = match expand_ordinals(&expand_short_ordinals(&expand_decimals(&b))) {
        Ok(c) => c,
        Err(e) => {
            return Err(e);
        },
    };
    match expand_numbers(&c) {
        Ok(d) => Ok(string_of_chars(&d)),
        Err(e) => Err(e),
    }
}

fn base_str(n: u64) -> (r: &'static str)
    requires
        n < 20,
    ensures
        r@ == base_word(n as nat),
{
    match n {
        0 => "zero",
        1 => "one",
        2 => "two",
        3 => "three",
        4 => "four",
        5 => "five",
        6 => "six",
        7 => "seven",
        8 => "eight",
        9 => "nine",
        10 => "ten",
        11 => "eleven",
        12 => "twelve",
        13 => "thirteen",
        14 => "fourteen",
        15 => "fifteen",
        16 => "sixteen",
        17 => "seventeen",
        18 => "eighteen",
        _ => "nineteen",
    }
}

fn tens_str(d: u64) -> (r: &'static str)
    requires
        2 <= d <= 9,
    ensures
        r@ == tens_word(d as nat),
{
    match d {
        2 => "twenty",
        3 => "thirty",
        4 => "forty",
        5 => "fifty",
        6 => "sixty",
        7 => "seventy",
        8 => "eighty",
        _ => "ninety",
    }
}

fn scale_str(k: u64) -> (r: &'static str)
    requires
        1 <= k <= 6,
    ensures
        r@ == scale_word(k as nat),
{
    match k {
        1 => "thousand",
        2 => "million",
        3 => "billion",
        4 => "trillion",
        5 => "quadrillion",
        _ => "quintillion",
    }
}

fn magnitude_of(k: u64) -> (r: u64)
    requires
        1 <= k <= 6,
    ensures
        r == magnitude(k as nat),
{
    match k {
        1 => 1_000,
        2 => 1_000_000,
        3 => 1_000_000_000,
        4 => 1_000_000_000_000,
        5 => 1_000_000_000_000_000,
        _ => 1_000_000_000_000_000_000,
    }
}

fn push_word(words: &mut Vec<String>, w: &str)
    ensures
        views(final(words)@) == views(old(words)@).push(w@),
{
    words.push(w.to_owned());
    assert(views(words@) =~= views(old(words)@).push(w@));
}

/// Appends the words of a number below one hundred.
pub fn convert_nn(number: u64, words: &mut Vec<String>) -> (r: Result<(), InflectError>)
    requires
        number < 100,
    ensures
        r is Ok,
        views(final(words)@) == views(old(words)@) + nn_words(number as nat),
{
    if number < 20 {
        push_word(words, base_str(number));
        assert(views(words@) =~= views(old(words)@) + nn_words(number as nat));
        return Ok(());
    }
    push_word(words, tens_str(number / 10));
    if number % 10 != 0 {
        push_word(words, base_str(number % 10));
    }
    assert(views(words@) =~= views(old(words)@) + nn_words(number as nat));
    Ok(())
}

/// Appends the words of a number below one thousand (none for zero).
pub fn convert_nnn(number: u64, words: &mut Vec<String>) -> (r: Result<(), InflectError>)
    requires
        number < 1000,
    ensures
        r is Ok,
        views(final(words)@) == views(old(words)@) + nnn_words(number as nat),
{
    let hundreds = number / 100;
    if hundreds > 0 {
        push_word(words, base_str(hundreds));
        push_word(words, "hundred");
    }
    let md = number % 100;
    if md > 0 {
        let _ = convert_nn(md, words);
    }
    assert(views(words@) =~= views(old(words)@) + nnn_words(number as nat));
    Ok(())
}

/// Appends the words of any number, by scale groups.
pub fn convert_large(number: u64, words: &mut Vec<String>) -> (r: Result<(), InflectError>)
    ensures
        r is Ok,
        views(final(words)@) == views(old(words)@) + large_words(number as nat),
    decreases number,
{
    if number < 1000 {
        return convert_nnn(number, words);
    }
    let mut k: u64 = 6;
    while number < magnitude_of(k)
        invariant
            1 <= k <= 6,
            number >= 1000,
            forall|j: nat| k < j <= 6 ==> number < magnitude(j),
        decreases k,
    {
        k = k - 1;
    }
    assert(scale_of(number as nat) == k);
    let mag = magnitude_of(k);
    let quo = number / mag;
    let rem = number % mag;
    assert(number < 1000 * mag) by {
        if k < 6 {
            assert(number < magnitude((k + 1) as nat));
        }
    }
    assert(quo < 1000) by (nonlinear_arith)
        requires
            quo == number / mag,
            number < 1000 * mag,
            mag > 0,
    ;
    let _ = convert_nnn(quo, words);
    push_word(words, scale_str(k));
    if rem > 0 {
        let _ = convert_large(rem, words);
    }
    assert(views(words@) =~= views(old(words)@) + large_words(number as nat));
    Ok(())
}

/// The spoken form of an integer: `convert_number(-21)` is `"minus twenty one"`.
pub fn convert_number(num: i64) -> (r: String)
    ensures
        r@ == spoken(num as int),
{
    let mut words: Vec<String> = Vec::new();
    if num < 0 {
        push_word(&mut words, "minus");
    }
    let n: u64 = if num < 0 { ((-(num + 1)) as u64) + 1 } else { num as u64 };
    if n < 100 {
        let _ = convert_nn(n, &mut words);
    } else if n < 1000 {
        let _ = convert_nnn(n, &mut words);
    } else {
        let _ = convert_large(n, &mut words);
    }
    assert(views(words@) =~= signed_words(num as int));
    join(&words, ' ')
}

} // verus!
