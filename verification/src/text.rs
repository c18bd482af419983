//! Reading text: patterns, white space, and decimal numbers.

use vstd::prelude::*;

verus! {

/// What capturing the regular expression `pattern` in `text` gives: `None`
/// where the pattern is refused, `Some(None)` where it does not occur, else
/// the text of each group of the first occurrence, the whole occurrence
/// first, and `None` for a group that took no part in it.
pub uninterp spec fn regex_captures(pattern: Seq<char>, text: Seq<char>) -> Option<
    Option<Seq<Option<Seq<char>>>>,
>;

/// Whether `c` is white space in the sense of `char::is_whitespace`.
pub uninterp spec fn white_space(c: char) -> bool;

/// `regex::Regex::captures` on `text`, for the expression that
/// `regex::Regex::new` makes of `pattern`, each group of the result copied
/// out with `Match::as_str`. Nothing is claimed of the answer but that it
/// depends on the pattern and the text alone.
#[verifier::external_body]
pub(crate) fn pattern_captures(pattern: &str, text: &str) -> (r: Option<Option<Vec<Option<String>>>>)
    ensures
        r.deep_view() == regex_captures(pattern@, text@),
{
    match regex::Regex::new(pattern) {
        Ok(re) => Some(
            re.captures(text).map(
                |caps| caps.iter().map(|group| group.map(|m| m.as_str().to_string())).collect(),
            ),
        ),
        Err(_) => None,
    }
}

/// `char::is_whitespace`.
#[verifier::external_body]
pub(crate) fn is_white_space(c: char) -> (b: bool)
    ensures
        b == white_space(c),
{
    c.is_whitespace()
}

/// The characters of `text`.
pub fn chars_of(text: &str) -> (chars: Vec<char>)
    ensures
        chars@ == text@,
{
    let mut chars: Vec<char> = Vec::new();
    for c in it: text.chars()
        invariant
            chars@ == it.seq().take(it.index() as int),
    {
        chars.push(c);
    }
    chars
}

/// `c` is one of the ten decimal digits.
pub open spec fn is_digit(c: char) -> bool {
    '0' <= c <= '9'
}

/// Every character of `digits` is a decimal digit.
pub open spec fn all_digits(digits: Seq<char>) -> bool {
    forall|k: int| 0 <= k < digits.len() ==> is_digit(#[trigger] digits[k])
}

/// The number that decimal digits stand for.
pub open spec fn digits_value(digits: Seq<char>) -> nat
    decreases digits.len(),
{
    if digits.len() == 0 {
        0
    } else {
        digits_value(digits.drop_last()) * 10 + (digits.last() as u32 - '0' as u32) as nat
    }
}

/// `token` without a plus sign in front.
pub open spec fn unsigned_part(token: Seq<char>) -> Seq<char> {
    if token.len() > 0 && token[0] == '+' {
        token.drop_first()
    } else {
        token
    }
}

/// The number up to `max` that `token` stands for: one or more decimal
/// digits, with or without a plus sign before them.
pub open spec fn decimal(token: Seq<char>, max: nat) -> Option<nat> {
    let digits = unsigned_part(token);
    if digits.len() > 0 && all_digits(digits) && digits_value(digits) <= max {
        Some(digits_value(digits))
    } else {
        None
    }
}

/// Digits that follow raise the number.
pub proof fn lemma_digits_value_grows(digits: Seq<char>, n: int)
    requires
        0 <= n <= digits.len(),
    ensures
        digits_value(digits.take(n)) <= digits_value(digits),
    decreases digits.len(),
{
    if n < digits.len() {
        assert(digits.drop_last().take(n) == digits.take(n));
        lemma_digits_value_grows(digits.drop_last(), n);
    } else {
        assert(digits.take(n) == digits);
    }
}

/// Reads characters `from..to` of `chars` as a decimal number up to `max`.
pub fn parse_decimal(chars: &Vec<char>, from: usize, to: usize, max: u64) -> (r: Option<u64>)
    requires
        from <= to <= chars.len(),
    ensures
        match decimal(chars@.subrange(from as int, to as int), max as nat) {
            Some(value) => r == Some(value as u64),
            None => r is None,
        },
{
    let start = if from < to && chars[from] == '+' {
        from + 1
    } else {
        from
    };
    let ghost digits = chars@.subrange(start as int, to as int);
    if start == to {
        return None;
    }
    let mut value: u128 = 0;
    let mut k: usize = start;
    while k < to
        invariant
            from <= start <= k <= to <= chars.len(),
            digits == chars@.subrange(start as int, to as int),
            digits == unsigned_part(chars@.subrange(from as int, to as int)),
            all_digits(digits.take(k - start)),
            value == digits_value(digits.take(k - start)),
            value <= max,
        decreases to - k,
    {
        let c = chars[k];
        assert(digits[k - start] == c);
        assert(digits.take(k - start + 1).drop_last() == digits.take(k - start));
        if !('0' <= c && c <= '9') {
            return None;
        }
        value = value * 10 + (c as u32 - '0' as u32) as u128;
        if value > max as u128 {
            proof {
                lemma_digits_value_grows(digits, k - start + 1);
            }
            return None;
        }
        k += 1;
    }
    assert(digits.take(to - start) == digits);
    Some(value as u64)
}

/// Where the run of characters that are not white space ends that
/// starts at `from`.
pub open spec fn token_end(text: Seq<char>, from: int) -> int
    decreases text.len() - from,
{
    if from < 0 || from >= text.len() || white_space(text[from]) {
        from
    } else {
        token_end(text, from + 1)
    }
}

/// A run ends inside the text, holds no white space, and stops before
/// white space or at the end of the text.
pub proof fn lemma_token_end(text: Seq<char>, from: int)
    requires
        0 <= from <= text.len(),
    ensures
        from <= token_end(text, from) <= text.len(),
        from < text.len() && !white_space(text[from]) ==> from < token_end(text, from),
        forall|k: int| from <= k < token_end(text, from) ==> !white_space(#[trigger] text[k]),
        token_end(text, from) < text.len() ==> white_space(text[token_end(text, from)]),
    decreases text.len() - from,
{
    if from < text.len() && !white_space(text[from]) {
        lemma_token_end(text, from + 1);
    }
}

/// The indices that stand in `text` from `from` on, set apart by white
/// space; `None` where something else stands there.
pub open spec fn indices_from(text: Seq<char>, from: int) -> Option<Seq<u32>>
    decreases text.len() - from,
{
    if from < 0 || from >= text.len() {
        Some(Seq::empty())
    } else if white_space(text[from]) {
        indices_from(text, from + 1)
    } else {
        let end = token_end(text, from);
        proof {
            lemma_token_end(text, from);
        }
        match (decimal(text.subrange(from, end), u32::MAX as nat), indices_from(text, end)) {
            (Some(first), Some(rest)) => Some(seq![first as u32] + rest),
            _ => None,
        }
    }
}

/// The indices that stand in `text`, set apart by white space: each a
/// decimal number that fits a `u32`.
pub open spec fn indices(text: Seq<char>) -> Option<Seq<u32>> {
    indices_from(text, 0)
}

/// Reads `text` as indices set apart by white space.
pub fn parse_indices(text: &str) -> (r: Option<Vec<u32>>)
    ensures
        match indices(text@) {
            Some(list) => r is Some && r->0@ == list,
            None => r is None,
        },
{
    let chars = chars_of(text);
    let ghost goal = indices(text@);
    let mut list: Vec<u32> = Vec::new();
    let mut i: usize = 0;
    while i < chars.len()
        invariant
            i <= chars.len(),
            chars@ == text@,
            goal == indices(text@),
            goal == match indices_from(chars@, i as int) {
                Some(rest) => Some(list@ + rest),
                None => None,
            },
        decreases chars.len() - i,
    {
        if is_white_space(chars[i]) {
            i += 1;
        } else {
            let mut end: usize = i + 1;
            while end < chars.len() && !is_white_space(chars[end])
                invariant
                    i < end <= chars.len(),
                    token_end(chars@, end as int) == token_end(chars@, i as int),
                decreases chars.len() - end,
            {
                end += 1;
            }
            match parse_decimal(&chars, i, end, u32::MAX as u64) {
                Some(value) => {
                    list.push(value as u32);
                },
                None => {
                    return None;
                },
            }
            i = end;
        }
    }
    Some(list)
}

} // verus!
