use sort_zh::numeral::{lower_numeral, numeral_run_len, upper_numeral};
use sort_zh::classify::route_numeral;
use sort_zh::{
    classify, classify_label, parse_zh_number, Category, NumeralParseError, ParsedNumeral,
    UpperCaseOrder, ZhNumberOption,
};

#[test]
fn digits_parse_to_their_values() {
    assert_eq!(parse_zh_number("一"), (false, Ok(1)));
    assert_eq!(parse_zh_number("二"), (false, Ok(2)));
    assert_eq!(parse_zh_number("參"), (true, Ok(3)));
    assert_eq!(parse_zh_number("肆"), (true, Ok(4)));
    assert_eq!(parse_zh_number("零"), (true, Ok(0)));
}

#[test]
fn whole_run_is_parsed() {
    assert_eq!(parse_zh_number("十二"), (false, Ok(12)));
    assert_eq!(parse_zh_number("一千零一"), (false, Ok(1001)));
    assert_eq!(parse_zh_number("壹佰貳拾參"), (true, Ok(123)));
    assert_eq!(parse_zh_number("一萬"), (false, Ok(10_000)));
    assert_eq!(parse_zh_number("一億"), (false, Ok(100_000_000)));
    assert_eq!(parse_zh_number("三万二千"), (false, Ok(32_000)));
}

#[test]
fn text_without_numeral_is_empty() {
    assert_eq!(parse_zh_number(""), (false, Err(NumeralParseError::Empty)));
    assert_eq!(parse_zh_number("測試"), (false, Err(NumeralParseError::Empty)));
    assert_eq!(parse_zh_number("a一"), (false, Err(NumeralParseError::Empty)));
}

#[test]
fn numeral_run_is_read_whatever_follows() {
    assert_eq!(parse_zh_number("十二測試"), (false, Ok(12)));
    assert_eq!(parse_zh_number("十二測"), (false, Ok(12)));
    assert_eq!(parse_zh_number("十二月"), (false, Ok(12)));
    assert_eq!(parse_zh_number("壹 "), (true, Ok(1)));
    assert_eq!(parse_zh_number("參a"), (true, Ok(3)));
    assert_eq!(parse_zh_number("一千零一夜"), (false, Ok(1001)));
    assert_eq!(parse_zh_number("十二測三"), (false, Ok(12)));
}

#[test]
fn run_without_a_value_fails_whatever_follows() {
    assert_eq!(
        parse_zh_number("一一測試"),
        (false, Err(NumeralParseError::Incorrect { char_index: 0 }))
    );
    let (upper, parsed) = parse_zh_number("萬歲");
    assert!(upper);
    assert!(matches!(parsed, Err(NumeralParseError::Incorrect { .. })));
    assert_eq!(parse_zh_number("九千京人"), (false, Err(NumeralParseError::Overflow)));
}

#[test]
fn lone_unit_is_no_numeral() {
    let (upper, parsed) = parse_zh_number("正");
    assert!(upper);
    assert!(parsed.is_err());
    let (upper, parsed) = parse_zh_number("萬");
    assert!(upper);
    assert!(matches!(parsed, Err(NumeralParseError::Incorrect { .. })));
}

#[test]
fn digits_in_a_row_are_incorrect() {
    assert_eq!(
        parse_zh_number("一一"),
        (false, Err(NumeralParseError::Incorrect { char_index: 0 }))
    );
    let (_, parsed) = parse_zh_number("一萬零一一一一一一");
    assert!(matches!(parsed, Err(NumeralParseError::Incorrect { .. })));
    let (_, parsed) = parse_zh_number("九千九百九十九萬九千九百九十九一");
    assert!(matches!(parsed, Err(NumeralParseError::Incorrect { .. })));
}

#[test]
fn long_numerals_are_read_to_their_end() {
    assert_eq!(parse_zh_number("一萬二千三百四十五"), (false, Ok(12_345)));
    assert_eq!(parse_zh_number("九千九百九十九萬九千九百九十九"), (false, Ok(99_999_999)));
    assert_eq!(
        parse_zh_number("九百二十二京三千三百七十二兆零三百六十八億五千四百七十七萬五千八百零七"),
        (false, Ok(i64::MAX))
    );
    assert_eq!(
        parse_zh_number("九百二十二京三千三百七十二兆零三百六十八億五千四百七十七萬五千八百零八"),
        (false, Err(NumeralParseError::Overflow))
    );
    let endless = "一".repeat(100);
    let (_, parsed) = parse_zh_number(&endless);
    assert!(matches!(parsed, Err(NumeralParseError::Incorrect { .. })));
    let units = "極".repeat(50);
    let (upper, parsed) = parse_zh_number(&units);
    assert!(upper);
    assert!(parsed.is_err());
    assert!(parse_zh_number("一正").1.is_err());
}

#[test]
fn too_large_a_numeral_overflows() {
    assert_eq!(parse_zh_number("九千京"), (false, Err(NumeralParseError::Overflow)));
    assert_eq!(parse_zh_number("九百京"), (false, Ok(9_000_000_000_000_000_000)));
}

#[test]
fn numeral_run_stops_at_other_text() {
    assert_eq!(numeral_run_len(""), 0);
    assert_eq!(numeral_run_len("abc"), 0);
    assert_eq!(numeral_run_len("十二"), 2);
    assert_eq!(numeral_run_len("十二測試"), 2);
    assert_eq!(numeral_run_len("十二測三"), 2);
    assert_eq!(numeral_run_len("壹萬a"), 2);
}

#[test]
fn glyph_sets_share_zero_and_large_units() {
    for c in ['零', '萬', '億', '兆', '京', '垓', '秭', '穰', '溝', '澗', '正', '載', '極'] {
        assert!(lower_numeral(c) && upper_numeral(c));
    }
    for c in ['万', '亿', '沟', '涧', '载', '极'] {
        assert!(lower_numeral(c) && upper_numeral(c));
    }
    for c in ['一', '二', '三', '四', '五', '六', '七', '八', '九', '十', '百', '千'] {
        assert!(lower_numeral(c) && !upper_numeral(c));
    }
    for c in ['壹', '貳', '參', '肆', '伍', '陸', '柒', '捌', '玖', '拾', '佰', '仟'] {
        assert!(upper_numeral(c) && !lower_numeral(c));
    }
    for c in ['贰', '参', '陆'] {
        assert!(upper_numeral(c) && !lower_numeral(c));
    }
    for c in ['a', '0', '測', '負', ' '] {
        assert!(!upper_numeral(c) && !lower_numeral(c));
    }
}

#[test]
fn labels_are_classified_by_first_character_and_policy() {
    let cased = ZhNumberOption::DefinitionWithUpperCase(UpperCaseOrder::After);
    assert_eq!(classify_label("a一", cased).category, Category::AsciiWord);
    assert_eq!(classify_label("1", cased).category, Category::AsciiWord);
    assert_eq!(classify_label("", cased).category, Category::GenericWord);
    assert_eq!(classify_label("測試", cased).category, Category::GenericWord);
    assert_eq!(classify_label("十二測試", cased).category, Category::LowerNumeral);
    assert_eq!(classify_label("拾貳測試", cased).category, Category::UpperNumeral);
    assert_eq!(classify_label("測試十二", cased).category, Category::GenericWord);
    assert_eq!(classify_label("一一測試", cased).category, Category::GenericWord);
    assert_eq!(classify_label("正", cased).category, Category::GenericWord);
    assert_eq!(classify_label("一", cased).category, Category::LowerNumeral);
    assert_eq!(classify_label("壹", cased).category, Category::UpperNumeral);
    assert_eq!(classify_label("壹", ZhNumberOption::Definition).category, Category::LowerNumeral);
    assert_eq!(classify_label("壹", ZhNumberOption::ICUDefault).category, Category::GenericWord);
    assert_eq!(classify_label("一", ZhNumberOption::ICUDefault).category, Category::GenericWord);
}

#[test]
fn numeral_is_attached_to_numeral_labels_only() {
    let cased = ZhNumberOption::DefinitionWithUpperCase(UpperCaseOrder::Before);
    assert_eq!(
        classify_label("貳拾", cased).numeral,
        Some(ParsedNumeral { is_upper_case: true, value: 20 })
    );
    assert_eq!(
        classify_label("貳拾", ZhNumberOption::Definition).numeral,
        Some(ParsedNumeral { is_upper_case: true, value: 20 })
    );
    assert_eq!(classify_label("貳拾", ZhNumberOption::ICUDefault).numeral, None);
    assert_eq!(
        classify_label("貳拾個", cased).numeral,
        Some(ParsedNumeral { is_upper_case: true, value: 20 })
    );
    assert_eq!(classify_label("個貳拾", cased).numeral, None);
    assert_eq!(classify_label("貳貳個", cased).numeral, None);
    assert_eq!(classify_label("20", cased).numeral, None);
}

#[test]
fn buckets_keep_positions_and_keys() {
    let labels: Vec<String> =
        ["肆", "1", "一", "2", "二", "參", "正"].iter().map(|text| text.to_string()).collect();
    let cased = ZhNumberOption::DefinitionWithUpperCase(UpperCaseOrder::After);
    let buckets = classify(&labels, cased);
    assert_eq!(buckets.ascii_word, vec![(1, "1".to_string()), (3, "2".to_string())]);
    assert_eq!(buckets.zh_upper_number, vec![(0, 4), (5, 3)]);
    assert_eq!(buckets.zh_lower_number, vec![(2, 1), (4, 2)]);
    assert_eq!(buckets.zh_word, vec![(6, "正".to_string())]);
    let blind = classify(&labels, ZhNumberOption::Definition);
    assert!(blind.zh_upper_number.is_empty());
    assert_eq!(blind.zh_lower_number, vec![(0, 4), (2, 1), (4, 2), (5, 3)]);
    let plain = classify(&labels, ZhNumberOption::ICUDefault);
    assert!(plain.zh_lower_number.is_empty());
    assert_eq!(plain.zh_word.len(), 5);
}

#[test]
fn failed_parse_routes_to_generic_words() {
    let cased = ZhNumberOption::DefinitionWithUpperCase(UpperCaseOrder::Before);
    for error in [
        NumeralParseError::Empty,
        NumeralParseError::Incorrect { char_index: 3 },
        NumeralParseError::Overflow,
        NumeralParseError::Underflow,
    ] {
        assert_eq!(route_numeral(cased, true, Err(error)), Category::GenericWord);
        assert_eq!(route_numeral(ZhNumberOption::Definition, false, Err(error)), Category::GenericWord);
    }
}

#[test]
fn parsed_numeral_routes_by_case_and_policy() {
    let before = ZhNumberOption::DefinitionWithUpperCase(UpperCaseOrder::Before);
    let after = ZhNumberOption::DefinitionWithUpperCase(UpperCaseOrder::After);
    assert_eq!(route_numeral(before, true, Ok(7)), Category::UpperNumeral);
    assert_eq!(route_numeral(after, true, Ok(7)), Category::UpperNumeral);
    assert_eq!(route_numeral(before, false, Ok(7)), Category::LowerNumeral);
    assert_eq!(route_numeral(ZhNumberOption::Definition, true, Ok(7)), Category::LowerNumeral);
    assert_eq!(route_numeral(ZhNumberOption::Definition, false, Ok(-7)), Category::LowerNumeral);
}

#[test]
fn every_short_run_of_glyphs_is_read() {
    let glyphs = ['零', '一', '九', '十', '百', '千', '萬', '億', '京', '正', '極', '壹', '拾'];
    let mut numerals = 0;
    let mut current: Vec<usize> = Vec::new();
    for len in 1..=4usize {
        current.clear();
        current.resize(len, 0);
        loop {
            let text: String = current.iter().map(|i| glyphs[*i]).collect();
            let (upper_case, parsed) = parse_zh_number(&text);
            assert_eq!(upper_case, upper_numeral(glyphs[current[0]]));
            if parsed.is_ok() {
                numerals += 1;
            }
            let mut k = 0;
            while k < len {
                current[k] += 1;
                if current[k] < glyphs.len() {
                    break;
                }
                current[k] = 0;
                k += 1;
            }
            if k == len {
                break;
            }
        }
    }
    assert!(numerals > 100);
}

#[test]
fn long_runs_of_glyphs_are_read() {
    let glyphs = [
        '零', '一', '二', '三', '四', '五', '六', '七', '八', '九', '十', '百', '千', '萬', '億',
        '兆', '京', '垓', '秭', '穰', '溝', '澗', '正', '載', '極', '万', '亿', '沟', '涧', '载',
        '极', '壹', '貳', '參', '肆', '伍', '陸', '柒', '捌', '玖', '拾', '佰', '仟', '贰', '参',
        '陆',
    ];
    let mut state: u64 = 0x2545_f491_4f6c_dd1d;
    for _ in 0..20_000 {
        let mut text = String::new();
        state ^= state << 13;
        state ^= state >> 7;
        state ^= state << 17;
        let len = 1 + (state % 45) as usize;
        for _ in 0..len {
            state ^= state << 13;
            state ^= state >> 7;
            state ^= state << 17;
            text.push(glyphs[(state % 46) as usize]);
        }
        assert_eq!(numeral_run_len(&text), len);
        let (upper_case, _) = parse_zh_number(&text);
        assert_eq!(upper_case, upper_numeral(text.chars().next().unwrap()));
    }
}
