use sort_zh::bytes::{bytes_sort_after, text_sorts_after};
use sort_zh::{sort_ascii_word, sort_zh_number, StableSorter, UpperCaseOrder, ZhNumberOption};

#[test]
fn ascii_words_sort_in_byte_order() {
    let bucket = vec![
        (0, String::from("b")),
        (2, String::from("a")),
        (5, String::from("B")),
        (7, String::from("ab")),
    ];
    assert_eq!(sort_ascii_word(bucket), vec![5, 2, 7, 0]);
}

#[test]
fn equal_words_stay_in_bucket_order() {
    let bucket = vec![
        (9, String::from("x")),
        (4, String::from("a")),
        (1, String::from("x")),
        (6, String::from("a")),
    ];
    assert_eq!(sort_ascii_word(bucket), vec![4, 6, 9, 1]);
}

#[test]
fn empty_bucket_sorts_to_nothing() {
    assert_eq!(sort_ascii_word(Vec::new()), Vec::<usize>::new());
    assert_eq!(
        sort_zh_number(Vec::new(), Vec::new(), ZhNumberOption::Definition),
        Vec::<usize>::new()
    );
}

#[test]
fn numerals_sort_by_value_with_upper_after() {
    let upper = vec![(0, 4), (5, 3)];
    let lower = vec![(2, 1), (4, 2)];
    let option = ZhNumberOption::DefinitionWithUpperCase(UpperCaseOrder::After);
    assert_eq!(sort_zh_number(upper, lower, option), vec![2, 4, 5, 0]);
}

#[test]
fn numerals_sort_by_value_with_upper_before() {
    let upper = vec![(0, 4), (5, 3)];
    let lower = vec![(2, 1), (4, 2)];
    let option = ZhNumberOption::DefinitionWithUpperCase(UpperCaseOrder::Before);
    assert_eq!(sort_zh_number(upper, lower, option), vec![5, 0, 2, 4]);
}

#[test]
fn upper_bucket_is_left_out_without_case() {
    let upper = vec![(0, 4), (5, 3)];
    let lower = vec![(2, 7), (4, -2), (6, 7)];
    assert_eq!(
        sort_zh_number(upper.clone(), lower.clone(), ZhNumberOption::Definition),
        vec![4, 2, 6]
    );
    assert_eq!(sort_zh_number(upper, lower, ZhNumberOption::ICUDefault), vec![4, 2, 6]);
}

#[test]
fn numerals_of_equal_value_stay_in_bucket_order() {
    let lower = vec![(8, 5), (3, 5), (1, 2), (7, 5)];
    assert_eq!(sort_zh_number(Vec::new(), lower, ZhNumberOption::Definition), vec![1, 8, 3, 7]);
}

#[test]
fn bytes_compare_lexicographically() {
    assert!(bytes_sort_after(b"b", b"a"));
    assert!(!bytes_sort_after(b"a", b"b"));
    assert!(!bytes_sort_after(b"a", b"a"));
    assert!(bytes_sort_after(b"ab", b"a"));
    assert!(!bytes_sort_after(b"a", b"ab"));
    assert!(bytes_sort_after(b"b", b"ab"));
    assert!(bytes_sort_after(b"a", b""));
    assert!(!bytes_sort_after(b"", b""));
    assert!(!bytes_sort_after(b"", b"a"));
    assert!(bytes_sort_after(&[0xff], &[0x7f, 0xff]));
}

#[test]
fn texts_compare_by_their_bytes() {
    assert!(text_sorts_after("a", "B"));
    assert!(text_sorts_after("一", "z"));
    assert!(text_sorts_after("二", "一"));
    assert!(!text_sorts_after("一", "一"));
}

#[test]
fn sorter_asks_for_each_item_in_turn() {
    let mut sorter = StableSorter::new(3);
    assert!(!sorter.is_done());
    assert_eq!(sorter.next_pair(), Some((0, 1)));
    sorter.answer(true);
    assert_eq!(sorter.placed(), &vec![1, 0]);
    assert_eq!(sorter.next_pair(), Some((0, 2)));
    sorter.answer(true);
    assert_eq!(sorter.next_pair(), Some((1, 2)));
    sorter.answer(false);
    assert!(sorter.is_done());
    assert_eq!(sorter.next_pair(), None);
    assert_eq!(sorter.into_order(), vec![1, 2, 0]);
}

#[test]
fn sorter_of_nothing_is_done() {
    let sorter = StableSorter::new(0);
    assert!(sorter.is_done());
    assert_eq!(sorter.into_order(), Vec::<usize>::new());
    let sorter = StableSorter::new(1);
    assert!(sorter.is_done());
    assert_eq!(sorter.into_order(), vec![0]);
}

#[test]
fn sorter_sorts_stably_by_the_answers() {
    let keys = [5, 3, 5, 1, 3, 5, 0, 3];
    let mut sorter = StableSorter::new(keys.len());
    let mut asked = 0;
    while let Some((left, right)) = sorter.next_pair() {
        sorter.answer(keys[left] > keys[right]);
        asked += 1;
    }
    assert!(asked <= 8 * 3);
    assert_eq!(sorter.into_order(), vec![6, 3, 1, 4, 7, 0, 2, 5]);
}
