//! Price lists: one item and its price in cents on each line.

use vstd::prelude::*;
use vstd::string::StrSliceExecFns;
use crate::text::{
    chars_of, decimal, is_white_space, parse_decimal, pattern_captures, regex_captures, white_space,
};
use crate::trace::group_text;

verus! {

/// A line of a price list: a name of letters and blanks, a semicolon, the
/// price, and `cents` or `c`.
pub const PRICE_PATTERN: &'static str = r"^\s*([a-zA-Z ]+)\s*;\s*(\d+)\s*(cents|c)\s*$";

/// The lowest price that a list may hold.
pub const MIN_PRICE: u32 = 1;

/// The highest price that a list may hold.
pub const MAX_PRICE: u32 = 50;

/// Where the white space ends that starts at `from`.
pub open spec fn space_end(text: Seq<char>, from: int) -> int
    decreases text.len() - from,
{
    if from < 0 || from >= text.len() || !white_space(text[from]) {
        from
    } else {
        space_end(text, from + 1)
    }
}

/// Where the white space starts that ends before `to`.
pub open spec fn space_start(text: Seq<char>, to: int) -> int
    decreases to,
{
    if to <= 0 || to > text.len() || !white_space(text[to - 1]) {
        to
    } else {
        space_start(text, to - 1)
    }
}

/// `text` without the white space at its start and at its end.
pub open spec fn trimmed(text: Seq<char>) -> Seq<char> {
    let from = space_end(text, 0);
    let to = space_start(text, text.len() as int);
    if from < to {
        text.subrange(from, to)
    } else {
        Seq::empty()
    }
}

/// `text` without the white space at its start and at its end.
pub fn trim(text: &str) -> (r: String)
    ensures
        r@ == trimmed(text@),
{
    let chars = chars_of(text);
    let mut from: usize = 0;
    while from < chars.len() && is_white_space(chars[from])
        invariant
            from <= chars.len(),
            space_end(chars@, from as int) == space_end(chars@, 0),
        decreases chars.len() - from,
    {
        from += 1;
    }
    let mut to: usize = chars.len();
    while to > 0 && is_white_space(chars[to - 1])
        invariant
            to <= chars.len(),
            space_start(chars@, to as int) == space_start(chars@, chars.len() as int),
        decreases to,
    {
        to -= 1;
    }
    if from < to {
        text.substring_char(from, to).to_owned()
    } else {
        String::new()
    }
}

/// The entry that the groups of `PRICE_PATTERN` stand for: the first one is
/// the name, the second the price, which lies from `MIN_PRICE` to
/// `MAX_PRICE`.
pub open spec fn entry_of(groups: Seq<Option<Seq<char>>>) -> Option<(Seq<char>, u32)> {
    match (group_text(groups, 1), group_text(groups, 2)) {
        (Some(name), Some(amount)) => match decimal(amount, MAX_PRICE as nat) {
            Some(price) => if price >= MIN_PRICE {
                Some((trimmed(name), price as u32))
            } else {
                None
            },
            None => None,
        },
        _ => None,
    }
}

/// The entry that the groups of a match of `PRICE_PATTERN` stand for.
pub fn price_entry(groups: &Vec<Option<String>>) -> (r: Option<(String, u32)>)
    ensures
        r.deep_view() == entry_of(groups.deep_view()),
{
    if groups.len() < 3 {
        return None;
    }
    match (&groups[1], &groups[2]) {
        (Some(name), Some(amount)) => {
            let chars = chars_of(amount.as_str());
            assert(chars@.subrange(0, chars.len() as int) == chars@);
            match parse_decimal(&chars, 0, chars.len(), MAX_PRICE as u64) {
                Some(price) => {
                    if price >= MIN_PRICE as u64 {
                        Some((trim(name.as_str()), price as u32))
                    } else {
                        None
                    }
                },
                None => None,
            }
        },
        _ => None,
    }
}

/// A line that starts with a semicolon is a comment.
pub open spec fn is_comment(line: Seq<char>) -> bool {
    line.len() > 0 && line[0] == ';'
}

/// What a line of a price list holds: `None` where it is neither a comment
/// nor an entry, `Some(None)` for a comment, else the entry.
pub open spec fn line_entry(line: Seq<char>) -> Option<Option<(Seq<char>, u32)>> {
    if is_comment(line) {
        Some(None)
    } else {
        match regex_captures(PRICE_PATTERN@, line) {
            Some(Some(groups)) => match entry_of(groups) {
                Some(entry) => Some(Some(entry)),
                None => None,
            },
            _ => None,
        }
    }
}

/// Reads one line of a price list.
pub fn price_line(line: &str) -> (r: Option<Option<(String, u32)>>)
    ensures
        r.deep_view() == line_entry(line@),
{
    if !line.is_empty() && line.get_char(0) == ';' {
        return Some(None);
    }
    match pattern_captures(PRICE_PATTERN, line) {
        Some(Some(groups)) => match price_entry(&groups) {
            Some(entry) => Some(Some(entry)),
            None => None,
        },
        _ => None,
    }
}

/// Some entry of `list` has the name `name`.
pub open spec fn has_name(list: Seq<(Seq<char>, u32)>, name: Seq<char>) -> bool {
    exists|k: int| 0 <= k < list.len() && (#[trigger] list[k]).0 == name
}

/// No name stands twice in `list`.
pub open spec fn names_differ(list: Seq<(Seq<char>, u32)>) -> bool {
    forall|i: int, j: int| 0 <= i < j < list.len() ==> (#[trigger] list[i]).0 != (#[trigger] list[j]).0
}

/// The entries of `lines` after those of `list`, in their order; `None`
/// where a line is neither a comment nor an entry, or names an item again.
pub open spec fn entries_after(list: Seq<(Seq<char>, u32)>, lines: Seq<Seq<char>>) -> Option<
    Seq<(Seq<char>, u32)>,
>
    decreases lines.len(),
{
    if lines.len() == 0 {
        Some(list)
    } else {
        match line_entry(lines[0]) {
            None => None,
            Some(None) => entries_after(list, lines.drop_first()),
            Some(Some(entry)) => if has_name(list, entry.0) {
                None
            } else {
                entries_after(list.push(entry), lines.drop_first())
            },
        }
    }
}

/// The price list that `lines` hold.
pub open spec fn price_list(lines: Seq<Seq<char>>) -> Option<Seq<(Seq<char>, u32)>> {
    entries_after(Seq::empty(), lines)
}

/// Whether some entry of `list` has the name `name`.
pub fn holds_name(list: &Vec<(String, u32)>, name: &String) -> (b: bool)
    ensures
        b == has_name(list.deep_view(), name@),
{
    let mut k: usize = 0;
    while k < list.len()
        invariant
            k <= list.len(),
            forall|j: int| 0 <= j < k ==> list[j].0@ != name@,
        decreases list.len() - k,
    {
        if list[k].0 == *name {
            assert(list.deep_view()[k as int].0 == name@);
            return true;
        }
        k += 1;
    }
    false
}

/// Reads a price list from its lines: the items with their prices, in the
/// order of the lines, no item twice.
///
/// A line that starts with a semicolon is passed over. Every other line
/// holds a name of letters and blanks, a semicolon, a price from
/// `MIN_PRICE` to `MAX_PRICE`, and `cents` or `c`. One line that holds
/// something else, or an item that the list holds already, and there is no
/// list.
pub fn read_prices(lines: &Vec<String>) -> (r: Option<Vec<(String, u32)>>)
    ensures
        r.deep_view() == price_list(lines.deep_view()),
        r matches Some(list) ==> names_differ(list.deep_view()),
{
    let ghost all = lines.deep_view();
    let mut list: Vec<(String, u32)> = Vec::new();
    let mut i: usize = 0;
    assert(all.skip(0) =~= all);
    assert(list.deep_view() =~= Seq::empty());
    while i < lines.len()
        invariant
            i <= lines.len(),
            all == lines.deep_view(),
            entries_after(list.deep_view(), all.skip(i as int)) == price_list(all),
            names_differ(list.deep_view()),
        decreases lines.len() - i,
    {
        assert(all.skip(i as int).drop_first() =~= all.skip(i + 1));
        match price_line(lines[i].as_str()) {
            None => {
                return None;
            },
            Some(None) => {},
            Some(Some(entry)) => {
                if holds_name(&list, &entry.0) {
                    return None;
                }
                let ghost before = list.deep_view();
                let ghost added = entry.deep_view();
                list.push(entry);
                assert(list.deep_view() =~= before.push(added));
            },
        }
        i += 1;
    }
    Some(list)
}

} // verus!
