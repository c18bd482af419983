use gc_model::copying::{redirect, relocate};
use gc_model::memory::{all_below, check_bounds};
use gc_model::prices::holds_name;
use gc_model::reach::mark;
use gc_model::refcount::remove_all;
use gc_model::text::{chars_of, parse_decimal, parse_indices};

fn object(label: &str, children: Vec<u32>) -> Option<(String, Vec<u32>)> {
    Some((label.to_string(), children))
}

#[test]
fn all_below_compares_every_index() {
    assert!(all_below(&vec![], 0));
    assert!(all_below(&vec![0, 2, 1], 3));
    assert!(!all_below(&vec![0, 3, 1], 3));
    assert!(!all_below(&vec![0], 0));
}

#[test]
fn check_bounds_looks_at_roots_and_children() {
    let heap = vec![object("a", vec![1]), None];
    assert!(check_bounds(&vec![vec![0], vec![1, 1]], &heap));
    assert!(!check_bounds(&vec![vec![0], vec![2]], &heap));
    assert!(!check_bounds(&vec![], &vec![object("a", vec![1])]));
    assert!(check_bounds(&vec![], &vec![]));
}

#[test]
fn mark_stays_inside_the_range() {
    let stack = vec![vec![0, 3]];
    let heap = vec![object("a", vec![1, 2]), object("b", vec![]), object("c", vec![1]), object("d", vec![0])];
    assert_eq!(mark(&stack, &heap, 0, 4), vec![true, true, true, true]);
    assert_eq!(mark(&stack, &heap, 0, 2), vec![true, true, false, false]);
    assert_eq!(mark(&stack, &heap, 2, 4), vec![false, false, false, true]);
    assert_eq!(mark(&stack, &heap, 1, 1), vec![false, false, false, false]);
}

#[test]
fn relocate_forwards_or_drops() {
    let table = vec![Some(7), None, Some(8)];
    assert_eq!(relocate(&vec![2, 0, 1, 0, 5], &table), vec![8, 7, 7]);
    assert_eq!(relocate(&vec![], &table), Vec::<u32>::new());
    assert_eq!(relocate(&vec![1, 1], &table), Vec::<u32>::new());
}

#[test]
fn remove_all_lets_go_in_order() {
    let mut heap = vec![(Some(vec![2]), 1), (Some(vec![2]), 1), (Some(vec![]), 2), (None, 0)];
    remove_all(&mut heap, &vec![0, 1, 3]);
    assert_eq!(heap, vec![(None, 0), (None, 0), (None, 0), (None, 0)]);
    let mut heap = vec![(Some(vec![0]), 3)];
    remove_all(&mut heap, &vec![0, 0]);
    assert_eq!(heap, vec![(Some(vec![0]), 1)]);
    remove_all(&mut heap, &vec![]);
    assert_eq!(heap, vec![(Some(vec![0]), 1)]);
}

#[test]
fn chars_of_lists_the_characters() {
    assert_eq!(chars_of("aß€"), vec!['a', 'ß', '€']);
    assert_eq!(chars_of(""), Vec::<char>::new());
}

#[test]
fn parse_decimal_reads_digits() {
    let chars = chars_of("x+0420y");
    assert_eq!(parse_decimal(&chars, 1, 6, 1000), Some(420));
    assert_eq!(parse_decimal(&chars, 2, 6, 420), Some(420));
    assert_eq!(parse_decimal(&chars, 2, 6, 419), None);
    assert_eq!(parse_decimal(&chars, 2, 3, 0), Some(0));
    assert_eq!(parse_decimal(&chars, 1, 2, 9), None);
    assert_eq!(parse_decimal(&chars, 3, 3, 9), None);
    assert_eq!(parse_decimal(&chars, 0, 6, 1000), None);
    assert_eq!(parse_decimal(&chars, 2, 7, 1000), None);
}

#[test]
fn parse_decimal_reads_up_to_the_largest_number() {
    let chars = chars_of("18446744073709551615");
    assert_eq!(parse_decimal(&chars, 0, 20, u64::MAX), Some(u64::MAX));
    let chars = chars_of("18446744073709551616");
    assert_eq!(parse_decimal(&chars, 0, 20, u64::MAX), None);
    let chars = chars_of("99999999999999999999999999999999999999999999");
    assert_eq!(parse_decimal(&chars, 0, chars.len(), u64::MAX), None);
    let chars = chars_of("٣");
    assert_eq!(parse_decimal(&chars, 0, 1, 9), None);
}

#[test]
fn parse_indices_splits_at_white_space() {
    assert_eq!(parse_indices("1 2 3"), Some(vec![1, 2, 3]));
    assert_eq!(parse_indices("  10\t+7\u{a0}4294967295\n"), Some(vec![10, 7, 4294967295]));
    assert_eq!(parse_indices(""), Some(vec![]));
    assert_eq!(parse_indices(" \t "), Some(vec![]));
    assert_eq!(parse_indices("1,2"), None);
    assert_eq!(parse_indices("1 4294967296"), None);
    assert_eq!(parse_indices("1 -2"), None);
    assert_eq!(parse_indices("1 2.0"), None);
}

#[test]
fn holds_name_compares_whole_names() {
    let list = vec![("tea".to_string(), 3), ("ice tea".to_string(), 4)];
    assert!(holds_name(&list, &"tea".to_string()));
    assert!(holds_name(&list, &"ice tea".to_string()));
    assert!(!holds_name(&list, &"ice".to_string()));
    assert!(!holds_name(&vec![], &"tea".to_string()));
}

#[test]
fn redirect_forwards_or_keeps() {
    let table = vec![Some(7), None, Some(8)];
    assert_eq!(redirect(&vec![2, 0, 1, 0, 5], &table), vec![8, 7, 1, 7, 5]);
    assert_eq!(redirect(&vec![], &table), Vec::<u32>::new());
    assert_eq!(redirect(&vec![1, 9], &vec![]), vec![1, 9]);
}
