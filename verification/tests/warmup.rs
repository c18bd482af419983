use gc_model::{capitalize_words, gauss, in_range, replace_first, to_binstring};

#[test]
fn student_test1() {
    assert_eq!(gauss(3), Some(6));
    assert_eq!(gauss(10), Some(55));
    assert_eq!(gauss(-1), None);
    assert_eq!(gauss(0), None);
}

#[test]
fn gauss_of_one_is_one() {
    assert_eq!(gauss(1), Some(1));
}

#[test]
fn gauss_up_to_the_largest_sum_that_fits() {
    assert_eq!(gauss(65535), Some(2147450880));
    assert_eq!(gauss(65536), None);
    assert_eq!(gauss(i32::MAX), None);
    assert_eq!(gauss(i32::MIN), None);
}

#[test]
fn binary_of_small_numbers() {
    assert_eq!(to_binstring(0), "0");
    assert_eq!(to_binstring(1), "1");
    assert_eq!(to_binstring(2), "10");
    assert_eq!(to_binstring(5), "101");
    assert_eq!(to_binstring(12), "1100");
}

#[test]
fn binary_of_the_largest_number() {
    assert_eq!(to_binstring(u32::MAX), "11111111111111111111111111111111");
    assert_eq!(to_binstring(1 << 31), "10000000000000000000000000000000");
}

#[test]
fn binary_agrees_with_the_formatter() {
    for n in [0u32, 3, 7, 8, 255, 256, 1000, 65535, 123456789] {
        assert_eq!(to_binstring(n), format!("{:b}", n));
    }
}

#[test]
fn in_range_counts_what_lies_inside() {
    assert_eq!(in_range(vec![1, 2, 3, 4, 5], 2..4), 2);
    assert_eq!(in_range(vec![1, 2, 3, 4, 5], 0..10), 5);
    assert_eq!(in_range(vec![-3, -2, 7, 7, 8], -2..8), 3);
}

#[test]
fn in_range_leaves_the_end_out() {
    assert_eq!(in_range(vec![4, 4, 5], 4..5), 2);
    assert_eq!(in_range(vec![5], 4..5), 0);
}

#[test]
fn in_range_of_nothing() {
    assert_eq!(in_range(vec![], 0..10), 0);
    assert_eq!(in_range(vec![1, 2, 3], 3..3), 0);
    assert_eq!(in_range(vec![1, 2, 3], 5..1), 0);
}

#[test]
fn capitalize_words_raises_first_letters() {
    let mut words = vec!["hello".to_string(), "World".to_string(), "x".to_string()];
    capitalize_words(&mut words);
    assert_eq!(words, vec!["Hello".to_string(), "World".to_string(), "X".to_string()]);
}

#[test]
fn capitalize_words_keeps_empty_words() {
    let mut words = vec!["".to_string(), "a".to_string()];
    capitalize_words(&mut words);
    assert_eq!(words, vec!["".to_string(), "A".to_string()]);
}

#[test]
fn capitalize_words_beyond_ascii() {
    let mut words = vec!["élan".to_string(), "ßa".to_string(), "1up".to_string(), " b".to_string()];
    capitalize_words(&mut words);
    assert_eq!(
        words,
        vec!["Élan".to_string(), "SSa".to_string(), "1up".to_string(), " b".to_string()]
    );
}

#[test]
fn capitalize_words_of_no_words() {
    let mut words: Vec<String> = Vec::new();
    capitalize_words(&mut words);
    assert!(words.is_empty());
}

#[test]
fn replace_first_puts_the_head_in_front() {
    assert_eq!(replace_first("word", "W"), "Word");
    assert_eq!(replace_first("word", "ABC"), "ABCord");
    assert_eq!(replace_first("w", ""), "");
    assert_eq!(replace_first("", "W"), "");
    assert_eq!(replace_first("éa", "E"), "Ea");
}
