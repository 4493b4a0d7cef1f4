use sort_zh::{
    ChineseVariant, CollationOrder, SortError, SortSession, SortZhOptions, UpperCaseOrder,
    ZhNumberOption,
};

fn labels(texts: &[&str]) -> Vec<String> {
    texts.iter().map(|text| text.to_string()).collect()
}

fn options(zh_number_option: ZhNumberOption) -> SortZhOptions {
    SortZhOptions { variant: ChineseVariant::Traditional, zh_number_option }
}

fn by_code_point(left: &str, right: &str) -> CollationOrder {
    if left < right {
        CollationOrder::Less
    } else if left > right {
        CollationOrder::Greater
    } else {
        CollationOrder::Equal
    }
}

fn run(input: &[&str], zh_number_option: ZhNumberOption) -> (Vec<String>, Vec<usize>) {
    let mut session = SortSession::new(labels(input), options(zh_number_option));
    let mut asked = 0;
    loop {
        let order = match session.next_comparison() {
            Some((left, right)) => by_code_point(left, right),
            None => break,
        };
        session.answer(order);
        asked += 1;
        assert!(asked <= input.len() * input.len());
    }
    (session.finish().unwrap(), session.permutation().unwrap())
}

const MIXED: [&str; 7] = ["肆", "1", "一", "2", "二", "參", "正"];

#[test]
fn collation_default_puts_ascii_first() {
    let (sorted, order) = run(&MIXED, ZhNumberOption::ICUDefault);
    assert_eq!(sorted[..2], labels(&["1", "2"])[..]);
    assert_eq!(order[..2], [1, 3]);
    let mut rest = sorted[2..].to_vec();
    rest.sort();
    let mut expected = labels(&["肆", "一", "二", "參", "正"]);
    expected.sort();
    assert_eq!(rest, expected);
}

#[test]
fn collation_default_orders_words_as_answered() {
    let (sorted, _) = run(&MIXED, ZhNumberOption::ICUDefault);
    let mut words = labels(&["肆", "一", "二", "參", "正"]);
    words.sort();
    assert_eq!(sorted[2..], words[..]);
}

#[test]
fn by_value_is_blind_to_case() {
    let (sorted, order) = run(&MIXED, ZhNumberOption::Definition);
    assert_eq!(sorted, labels(&["1", "2", "一", "二", "參", "肆", "正"]));
    assert_eq!(order, vec![1, 3, 2, 4, 5, 0, 6]);
}

#[test]
fn upper_case_before_lower_case() {
    let option = ZhNumberOption::DefinitionWithUpperCase(UpperCaseOrder::Before);
    let (sorted, _) = run(&MIXED, option);
    assert_eq!(sorted, labels(&["1", "2", "參", "肆", "一", "二", "正"]));
}

#[test]
fn upper_case_after_lower_case() {
    let option = ZhNumberOption::DefinitionWithUpperCase(UpperCaseOrder::After);
    let (sorted, _) = run(&MIXED, option);
    assert_eq!(sorted, labels(&["1", "2", "一", "二", "參", "肆", "正"]));
}

#[test]
fn output_is_a_permutation_of_the_input() {
    let input = ["乙", "b", "十", "", "a", "甲", "b", "拾", "十二測試"];
    let option = ZhNumberOption::DefinitionWithUpperCase(UpperCaseOrder::After);
    let (sorted, order) = run(&input, option);
    assert_eq!(sorted.len(), input.len());
    let mut seen = order.clone();
    seen.sort();
    assert_eq!(seen, (0..input.len()).collect::<Vec<usize>>());
    for (place, position) in order.iter().enumerate() {
        assert_eq!(sorted[place], input[*position]);
    }
}

#[test]
fn sorting_twice_changes_nothing() {
    let input = ["乙", "b", "十", "", "a", "甲", "b", "拾", "十二測試", "一"];
    let option = ZhNumberOption::DefinitionWithUpperCase(UpperCaseOrder::Before);
    let (once, _) = run(&input, option);
    let again: Vec<&str> = once.iter().map(|text| text.as_str()).collect();
    let (twice, order) = run(&again, option);
    assert_eq!(twice, once);
    assert_eq!(order, (0..input.len()).collect::<Vec<usize>>());
}

#[test]
fn upper_and_lower_numerals_are_not_interleaved() {
    let input = ["三", "壹", "一", "參", "二", "貳"];
    let before = ZhNumberOption::DefinitionWithUpperCase(UpperCaseOrder::Before);
    assert_eq!(run(&input, before).0, labels(&["壹", "貳", "參", "一", "二", "三"]));
    let after = ZhNumberOption::DefinitionWithUpperCase(UpperCaseOrder::After);
    assert_eq!(run(&input, after).0, labels(&["一", "二", "三", "壹", "貳", "參"]));
}

#[test]
fn ascii_stands_before_everything_else() {
    let input = ["甲", "z", "一", "A", "壹", "~"];
    for option in [
        ZhNumberOption::ICUDefault,
        ZhNumberOption::Definition,
        ZhNumberOption::DefinitionWithUpperCase(UpperCaseOrder::Before),
        ZhNumberOption::DefinitionWithUpperCase(UpperCaseOrder::After),
    ] {
        let (sorted, _) = run(&input, option);
        assert_eq!(sorted[..3], labels(&["A", "z", "~"])[..]);
    }
}

#[test]
fn numerals_ascend_by_value() {
    let input = ["一百", "十二", "九", "一千零一", "二十"];
    let (sorted, _) = run(&input, ZhNumberOption::Definition);
    assert_eq!(sorted, labels(&["九", "十二", "二十", "一百", "一千零一"]));
}

#[test]
fn equal_values_keep_their_order() {
    let (first, order) = run(&["壹", "一", "二"], ZhNumberOption::Definition);
    assert_eq!(first, labels(&["壹", "一", "二"]));
    assert_eq!(order, vec![0, 1, 2]);
    let (second, order) = run(&["二", "一", "壹"], ZhNumberOption::Definition);
    assert_eq!(second, labels(&["一", "壹", "二"]));
    assert_eq!(order, vec![1, 2, 0]);
}

#[test]
fn equal_ascii_words_keep_their_order() {
    let (_, order) = run(&["b", "a", "b", "a"], ZhNumberOption::ICUDefault);
    assert_eq!(order, vec![1, 3, 0, 2]);
}

#[test]
fn words_that_collate_equal_keep_their_order() {
    let mut session =
        SortSession::new(labels(&["丙", "甲", "乙"]), options(ZhNumberOption::ICUDefault));
    while session.next_comparison().is_some() {
        session.answer(CollationOrder::Equal);
    }
    assert_eq!(session.permutation().unwrap(), vec![0, 1, 2]);
    assert_eq!(session.finish().unwrap(), labels(&["丙", "甲", "乙"]));
}

#[test]
fn empty_label_is_a_generic_word() {
    let (sorted, order) = run(&["甲", "", "a"], ZhNumberOption::Definition);
    assert_eq!(sorted, labels(&["a", "", "甲"]));
    assert_eq!(order, vec![2, 1, 0]);
}

#[test]
fn numeral_with_trailing_text_sorts_by_its_numeral() {
    let (sorted, _) = run(&["十二測試", "十三", "二"], ZhNumberOption::Definition);
    assert_eq!(sorted, labels(&["二", "十二測試", "十三"]));
    let (sorted, _) = run(&["十班", "二班", "一班", "三班"], ZhNumberOption::Definition);
    assert_eq!(sorted, labels(&["一班", "二班", "三班", "十班"]));
}

#[test]
fn text_after_the_numeral_plays_no_part_in_the_order() {
    let (sorted, order) = run(&["十二測試", "十二", "十二甲"], ZhNumberOption::Definition);
    assert_eq!(sorted, labels(&["十二測試", "十二", "十二甲"]));
    assert_eq!(order, vec![0, 1, 2]);
}

#[test]
fn run_without_a_value_makes_a_generic_word() {
    let (sorted, _) = run(&["一一測試", "十三", "a"], ZhNumberOption::Definition);
    assert_eq!(sorted, labels(&["a", "十三", "一一測試"]));
}

#[test]
fn no_labels_need_no_comparison() {
    let session = SortSession::new(Vec::new(), SortZhOptions::default());
    assert!(session.done());
    assert!(session.next_comparison().is_none());
    assert_eq!(session.finish().unwrap(), Vec::<String>::new());
}

#[test]
fn one_generic_word_needs_no_comparison() {
    let session = SortSession::new(labels(&["正", "1"]), options(ZhNumberOption::Definition));
    assert!(session.done());
    assert_eq!(session.finish().unwrap(), labels(&["1", "正"]));
}

#[test]
fn unfinished_session_returns_nothing() {
    let mut session =
        SortSession::new(labels(&["乙", "甲", "丙"]), options(ZhNumberOption::ICUDefault));
    assert!(!session.done());
    assert_eq!(session.finish(), Err(SortError::Unfinished));
    assert_eq!(session.permutation(), Err(SortError::Unfinished));
    let (left, right) = session.next_comparison().unwrap();
    assert_eq!((left, right), ("乙", "甲"));
    session.answer(CollationOrder::Greater);
    assert_eq!(session.finish(), Err(SortError::Unfinished));
    let (left, right) = session.next_comparison().unwrap();
    assert_eq!((left, right), ("乙", "丙"));
    session.answer(CollationOrder::Less);
    assert!(session.done());
    assert_eq!(session.permutation().unwrap(), vec![1, 0, 2]);
    assert_eq!(session.finish().unwrap(), labels(&["甲", "乙", "丙"]));
}

#[test]
fn answer_after_the_end_is_ignored() {
    let mut session = SortSession::new(labels(&["乙", "甲"]), options(ZhNumberOption::ICUDefault));
    session.answer(CollationOrder::Greater);
    assert!(session.done());
    session.answer(CollationOrder::Less);
    assert_eq!(session.finish().unwrap(), labels(&["甲", "乙"]));
}

#[test]
fn locale_follows_the_variant() {
    let traditional = SortSession::new(Vec::new(), SortZhOptions::default());
    assert_eq!(traditional.locale(), "zh-TW");
    let simplified = SortSession::new(
        Vec::new(),
        SortZhOptions {
            variant: ChineseVariant::Simplified,
            zh_number_option: ZhNumberOption::Definition,
        },
    );
    assert_eq!(simplified.locale(), "zh-CN");
}

#[test]
fn defaults_are_traditional_and_collation() {
    let options = SortZhOptions::default();
    assert_eq!(options.variant, ChineseVariant::Traditional);
    assert_eq!(options.zh_number_option, ZhNumberOption::ICUDefault);
    assert_eq!(ZhNumberOption::default(), ZhNumberOption::ICUDefault);
    assert_eq!(UpperCaseOrder::default(), UpperCaseOrder::After);
}

#[test]
fn failed_collation_loses_the_sort() {
    let mut session =
        SortSession::new(labels(&["乙", "a", "甲"]), options(ZhNumberOption::ICUDefault));
    assert!(session.next_comparison().is_some());
    session.fail();
    assert!(session.next_comparison().is_none());
    assert_eq!(session.finish(), Err(SortError::CollationFailed));
    assert_eq!(session.permutation(), Err(SortError::CollationFailed));
    session.answer(CollationOrder::Greater);
    assert!(!session.done());
    assert_eq!(session.finish(), Err(SortError::CollationFailed));
}

#[test]
fn failure_after_the_end_still_loses_the_sort() {
    let mut session = SortSession::new(labels(&["a", "b"]), options(ZhNumberOption::ICUDefault));
    assert_eq!(session.finish(), Ok(labels(&["a", "b"])));
    session.fail();
    assert!(session.done());
    assert_eq!(session.finish(), Err(SortError::CollationFailed));
}

#[test]
fn only_generic_words_are_compared() {
    let input = ["乙", "b", "十", "", "a", "甲", "丙", "拾", "十二測試"];
    let words = ["乙", "", "甲", "丙"];
    let option = ZhNumberOption::DefinitionWithUpperCase(UpperCaseOrder::After);
    let mut session = SortSession::new(labels(&input), options(option));
    let mut asked = 0;
    loop {
        let order = match session.next_comparison() {
            Some((left, right)) => {
                let first = words.iter().position(|word| *word == left).unwrap();
                let second = words.iter().position(|word| *word == right).unwrap();
                assert!(first < second);
                by_code_point(left, right)
            },
            None => break,
        };
        session.answer(order);
        asked += 1;
    }
    assert!(asked >= words.len() - 1);
    assert!(asked <= words.len() * 3);
    assert_eq!(
        session.finish(),
        Ok(labels(&["a", "b", "十", "十二測試", "拾", "", "丙", "乙", "甲"]))
    );
}
