use gc_model::{price_entry, price_line, read_prices, trim};

fn lines(text: &[&str]) -> Vec<String> {
    text.iter().map(|line| line.to_string()).collect()
}

fn entry(name: &str, price: u32) -> (String, u32) {
    (name.to_string(), price)
}

#[test]
fn a_list_is_read_in_the_order_of_its_lines() {
    let list = read_prices(&lines(&["a; 20 cents", "b;15c", "  c ;30 c  ", "e; 45cents"]));
    assert_eq!(list, Some(vec![entry("a", 20), entry("b", 15), entry("c", 30), entry("e", 45)]));
}

#[test]
fn comments_are_passed_over() {
    let list = read_prices(&lines(&["; prices", "tea; 5c", ";coffee; 7c", "milk ; 1 cents"]));
    assert_eq!(list, Some(vec![entry("tea", 5), entry("milk", 1)]));
}

#[test]
fn names_may_hold_blanks() {
    assert_eq!(read_prices(&lines(&[" ice  tea  ; 50c"])), Some(vec![entry("ice  tea", 50)]));
    assert_eq!(read_prices(&lines(&["   ;5c"])), Some(vec![entry("", 5)]));
}

#[test]
fn no_lines_make_an_empty_list() {
    assert_eq!(read_prices(&lines(&[])), Some(vec![]));
    assert_eq!(read_prices(&lines(&[";", "; nothing"])), Some(vec![]));
}

#[test]
fn an_item_named_twice_spoils_the_list() {
    assert_eq!(read_prices(&lines(&["a; 20c", "b; 1c", "a ; 3c"])), None);
    assert_eq!(read_prices(&lines(&["a; 20c", "A; 20c"])), Some(vec![entry("a", 20), entry("A", 20)]));
}

#[test]
fn a_price_out_of_range_spoils_the_list() {
    assert_eq!(read_prices(&lines(&["a; 0c"])), None);
    assert_eq!(read_prices(&lines(&["a; 51c"])), None);
    assert_eq!(read_prices(&lines(&["a; 99999999999999999999c"])), None);
    assert_eq!(read_prices(&lines(&["a; 1c", "b; 50c"])), Some(vec![entry("a", 1), entry("b", 50)]));
    assert_eq!(read_prices(&lines(&["a; 007c"])), Some(vec![entry("a", 7)]));
}

#[test]
fn a_line_of_another_shape_spoils_the_list() {
    assert_eq!(read_prices(&lines(&["a; 20"])), None);
    assert_eq!(read_prices(&lines(&["a 20c"])), None);
    assert_eq!(read_prices(&lines(&["a1; 20c"])), None);
    assert_eq!(read_prices(&lines(&["a; 20 dollars"])), None);
    assert_eq!(read_prices(&lines(&["a; 20c", ""])), None);
    assert_eq!(read_prices(&lines(&[" ; a comment that starts late"])), None);
}

#[test]
fn lines_are_told_apart() {
    assert_eq!(price_line("; note"), Some(None));
    assert_eq!(price_line("nut; 12 cents"), Some(Some(entry("nut", 12))));
    assert_eq!(price_line("nut: 12 cents"), None);
}

#[test]
fn groups_are_read_as_an_entry() {
    let some = |text: &str| Some(text.to_string());
    assert_eq!(price_entry(&vec![some("x"), some(" nut  "), some("12"), some("c")]), Some(entry("nut", 12)));
    assert_eq!(price_entry(&vec![some("x"), some("nut"), some("+12"), some("c")]), Some(entry("nut", 12)));
    assert_eq!(price_entry(&vec![some("x"), some("nut"), some("60"), some("c")]), None);
    assert_eq!(price_entry(&vec![some("x"), some("nut"), None, some("c")]), None);
    assert_eq!(price_entry(&vec![some("x"), some("nut")]), None);
}

#[test]
fn trim_strips_white_space_at_both_ends() {
    assert_eq!(trim("  a b \t\n"), "a b");
    assert_eq!(trim("a"), "a");
    assert_eq!(trim(" \u{2003}x\u{a0}"), "x");
    assert_eq!(trim("   "), "");
    assert_eq!(trim(""), "");
}
