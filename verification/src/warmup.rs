//! Small exercises on numbers and strings.

use vstd::prelude::*;
use vstd::string::{StrSliceExecFns, StringExecFns};

verus! {

/// The sum of the numbers from 1 to `n`.
pub open spec fn sum_to(n: nat) -> nat
    decreases n,
{
    if n == 0 {
        0
    } else {
        n + sum_to((n - 1) as nat)
    }
}

/// Twice the sum of the numbers from 1 to `n` is `n * (n + 1)`.
pub proof fn lemma_sum_to(n: nat)
    ensures
        2 * sum_to(n) == n * (n + 1),
    decreases n,
{
    if n > 0 {
        lemma_sum_to((n - 1) as nat);
        assert(2 * (n + sum_to((n - 1) as nat)) == n * (n + 1)) by (nonlinear_arith)
            requires
                n > 0,
                2 * sum_to((n - 1) as nat) == (n - 1) * n,
        ;
    } else {
        assert(n * (n + 1) == 0) by (nonlinear_arith)
            requires
                n == 0,
        ;
    }
}

/// The sum of the numbers from 1 to `n`, that is `n * (n + 1) / 2`, for a
/// positive `n` whose sum fits an `i32`; `None` for any other `n`.
pub fn gauss(n: i32) -> (r: Option<i32>)
    ensures
        n > 0 && n * (n + 1) / 2 <= i32::MAX ==> r == Some((n * (n + 1) / 2) as i32),
        n <= 0 || n * (n + 1) / 2 > i32::MAX ==> r is None,
        r matches Some(sum) ==> sum == sum_to(n as nat),
{
    if n <= 0 {
        None
    } else {
        let wide: i64 = n as i64;
        proof {
            lemma_sum_to(n as nat);
            assert(0 < wide * (wide + 1) <= 0x7fff_ffff * 0x8000_0000) by (nonlinear_arith)
                requires
                    0 < wide <= 0x7fff_ffff,
            ;
        }
        let sum: i64 = wide * (wide + 1) / 2;
        if sum > i32::MAX as i64 {
            None
        } else {
            Some(sum as i32)
        }
    }
}

/// The digit that stands for `bit`.
pub open spec fn bit_char(bit: nat) -> char {
    if bit == 0 {
        '0'
    } else {
        '1'
    }
}

/// The binary digits of `n`, the highest first, without zeros in front.
pub open spec fn binary(n: nat) -> Seq<char>
    decreases n,
{
    if n < 2 {
        seq![bit_char(n)]
    } else {
        binary(n / 2).push(bit_char(n % 2))
    }
}

/// The digits of `bits`, the last of them first.
pub open spec fn bits_text(bits: Seq<bool>) -> Seq<char>
    decreases bits.len(),
{
    if bits.len() == 0 {
        Seq::empty()
    } else {
        seq![bit_char(if bits.last() { 1nat } else { 0nat })] + bits_text(bits.drop_last())
    }
}

/// `num` in binary.
pub fn to_binstring(num: u32) -> (s: String)
    ensures
        s@ == binary(num as nat),
{
    let mut bits: Vec<bool> = Vec::new();
    let mut rest = num;
    while rest >= 2
        invariant
            binary(num as nat) == binary(rest as nat) + bits_text(bits@),
        decreases rest,
    {
        let ghost before = bits@;
        bits.push(rest % 2 == 1);
        assert(bits@.drop_last() == before);
        rest = rest / 2;
    }
    proof {
        reveal_strlit("0");
        reveal_strlit("1");
    }
    let mut s = String::new();
    s.append(if rest == 1 { "1" } else { "0" });
    let mut k: usize = bits.len();
    assert(bits@.take(k as int) == bits@);
    while k > 0
        invariant
            k <= bits.len(),
            "0"@ == seq!['0'],
            "1"@ == seq!['1'],
            s@ + bits_text(bits@.take(k as int)) == binary(num as nat),
        decreases k,
    {
        assert(bits@.take(k as int).drop_last() == bits@.take(k - 1));
        k -= 1;
        s.append(if bits[k] { "1" } else { "0" });
    }
    s
}

/// How many of `items` lie from `start` up to, but not at, `end`.
pub open spec fn count_within(items: Seq<i32>, start: int, end: int) -> nat
    decreases items.len(),
{
    if items.len() == 0 {
        0
    } else {
        count_within(items.drop_last(), start, end) + if start <= items.last() < end {
            1nat
        } else {
            0nat
        }
    }
}

/// How many of the items lie in `range`.
pub fn in_range(itemlist: Vec<i32>, range: core::ops::Range<i32>) -> (n: usize)
    ensures
        n == count_within(itemlist@, range.start as int, range.end as int),
{
    let mut n: usize = 0;
    let mut i: usize = 0;
    while i < itemlist.len()
        invariant
            i <= itemlist.len(),
            n <= i,
            n == count_within(itemlist@.take(i as int), range.start as int, range.end as int),
        decreases itemlist.len() - i,
    {
        assert(itemlist@.take(i + 1).drop_last() == itemlist@.take(i as int));
        if range.start <= itemlist[i] && itemlist[i] < range.end {
            n += 1;
        }
        i += 1;
    }
    assert(itemlist@.take(itemlist.len() as int) == itemlist@);
    n
}

/// What `char::to_uppercase` turns `c` into: one character or several.
pub uninterp spec fn uppercase(c: char) -> Seq<char>;

/// `char::to_uppercase`, its characters gathered in a string. Nothing is
/// claimed of them but that they depend on `c` alone.
#[verifier::external_body]
pub(crate) fn to_uppercase(c: char) -> (r: String)
    ensures
        r@ == uppercase(c),
{
    c.to_uppercase().to_string()
}

/// `word` with `head` in place of its first character; an empty word
/// stays empty.
pub open spec fn with_head(word: Seq<char>, head: Seq<char>) -> Seq<char> {
    if word.len() == 0 {
        word
    } else {
        head + word.drop_first()
    }
}

/// `word` with its first character in upper case.
pub open spec fn capitalized(word: Seq<char>) -> Seq<char> {
    if word.len() == 0 {
        word
    } else {
        with_head(word, uppercase(word[0]))
    }
}

/// `word` with `head` in place of its first character; an empty word stays
/// empty.
pub fn replace_first(word: &str, head: &str) -> (r: String)
    ensures
        r@ == with_head(word@, head@),
{
    if word.is_empty() {
        return word.to_owned();
    }
    let n = word.unicode_len();
    let tail = word.substring_char(1, n);
    let mut r = head.to_owned();
    r.append(tail);
    r
}

/// Puts the first character of each word in upper case.
pub fn capitalize_words(wordlist: &mut Vec<String>)
    ensures
        final(wordlist).len() == old(wordlist).len(),
        forall|i: int|
            0 <= i < old(wordlist).len() ==> (#[trigger] final(wordlist)[i])@ == capitalized(
                old(wordlist)[i]@,
            ),
{
    let mut i: usize = 0;
    while i < wordlist.len()
        invariant
            i <= wordlist.len(),
            wordlist.len() == old(wordlist).len(),
            forall|j: int| 0 <= j < i ==> (#[trigger] wordlist[j])@ == capitalized(old(wordlist)[j]@),
            forall|j: int| i <= j < wordlist.len() ==> wordlist[j] == old(wordlist)[j],
        decreases wordlist.len() - i,
    {
        if !wordlist[i].as_str().is_empty() {
            let first = wordlist[i].as_str().get_char(0);
            let upper = to_uppercase(first);
            let word = replace_first(wordlist[i].as_str(), upper.as_str());
            wordlist[i] = word;
        }
        i += 1;
    }
}

} // verus!
