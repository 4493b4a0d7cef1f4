//! Classification: the bucket that a label belongs to, and the numeral that
//! it stands for if it is one.

use vstd::prelude::*;
use crate::bucket::positions;
use crate::numeral::{numeral_value, parse_zh_number, starts_upper, NumeralParseError};
use crate::options::ZhNumberOption;

verus! {

/// The bucket of a label. Every label has exactly one.
#[derive(Clone, Copy, Debug, PartialEq, Eq, Structural)]
pub enum Category {
    /// The label starts with an ASCII character.
    AsciiWord,
    /// The label starts with a numeral whose first glyph is a formal one,
    /// under a policy that keeps formal numerals apart.
    UpperNumeral,
    /// The label starts with any other numeral that is ordered by value.
    LowerNumeral,
    /// Every other label, the empty one among them.
    GenericWord,
}

/// The numeral that a label starts with.
#[derive(Clone, Copy, Debug, PartialEq, Eq, Structural)]
pub struct ParsedNumeral {
    /// Whether the label starts with a formal numeral glyph.
    pub is_upper_case: bool,
    /// The value that the numeral run of the label stands for.
    pub value: i64,
}

/// What classification finds out about one label.
#[derive(Clone, Copy, Debug, PartialEq, Eq, Structural)]
pub struct Classified {
    pub category: Category,
    /// The numeral, for a label in one of the two numeral buckets.
    pub numeral: Option<ParsedNumeral>,
}

/// Whether `c` is an ASCII character.
pub open spec fn is_ascii_char(c: char) -> bool {
    (c as u32) < 128
}

/// Whether a label goes by its first character to the ASCII words.
pub open spec fn is_ascii_label(text: Seq<char>) -> bool {
    text.len() > 0 && is_ascii_char(text[0])
}

/// The bucket of a label that does not start with an ASCII character, under a
/// policy that orders numerals by value, given what the numeral parser said of
/// its numeral run. A label whose run has no value is a generic word; a
/// numeral is a formal one only where the policy keeps formal numerals apart.
pub open spec fn numeral_category(
    option: ZhNumberOption,
    upper_case: bool,
    parsed: Result<i64, NumeralParseError>,
) -> Category {
    match parsed {
        Err(_) => Category::GenericWord,
        Ok(_) => if option.distinguishes_case() && upper_case {
            Category::UpperNumeral
        } else {
            Category::LowerNumeral
        },
    }
}

/// The bucket of a label.
pub open spec fn category_of(text: Seq<char>, option: ZhNumberOption) -> Category {
    if is_ascii_label(text) {
        Category::AsciiWord
    } else if !option.by_value() {
        Category::GenericWord
    } else {
        numeral_category(option, starts_upper(text), numeral_value(text))
    }
}

/// Whether a bucket holds numerals.
pub open spec fn is_numeral_category(category: Category) -> bool {
    category == Category::UpperNumeral || category == Category::LowerNumeral
}

/// The value by which a label in a numeral bucket is ordered: that of its
/// numeral run. Text after the run plays no part in the order.
pub open spec fn value_of(text: Seq<char>) -> i64 {
    match numeral_value(text) {
        Ok(value) => value,
        Err(_) => 0,
    }
}

/// The numeral that classification attaches to a label: present exactly for
/// the labels of the two numeral buckets.
pub open spec fn numeral_of(text: Seq<char>, option: ZhNumberOption) -> Option<ParsedNumeral> {
    if is_numeral_category(category_of(text, option)) {
        Some(ParsedNumeral { is_upper_case: starts_upper(text), value: value_of(text) })
    } else {
        None
    }
}

/// Tells whether `c` is an ASCII character.
pub fn ascii_char(c: char) -> (r: bool)
    ensures
        r == is_ascii_char(c),
{
    (c as u32) < 128
}

/// Decides the bucket of a label from what the numeral parser said of it.
pub fn route_numeral(
    option: ZhNumberOption,
    upper_case: bool,
    parsed: Result<i64, NumeralParseError>,
) -> (category: Category)
    ensures
        category == numeral_category(option, upper_case, parsed),
{
    match parsed {
        Err(_) => Category::GenericWord,
        Ok(_) => match option {
            ZhNumberOption::DefinitionWithUpperCase(_) => if upper_case {
                Category::UpperNumeral
            } else {
                Category::LowerNumeral
            },
            _ => Category::LowerNumeral,
        },
    }
}

/// Classifies one label.
pub fn classify_label(text: &str, option: ZhNumberOption) -> (found: Classified)
    ensures
        found.category == category_of(text@, option),
        found.numeral == numeral_of(text@, option),
{
    if !text.is_empty() && ascii_char(text.get_char(0)) {
        return Classified { category: Category::AsciiWord, numeral: None };
    }
    match option {
        ZhNumberOption::ICUDefault => Classified { category: Category::GenericWord, numeral: None },
        _ => {
            let (upper_case, parsed) = parse_zh_number(text);
            let category = route_numeral(option, upper_case, parsed);
            match parsed {
                Ok(value) => Classified {
                    category,
                    numeral: Some(ParsedNumeral { is_upper_case: upper_case, value }),
                },
                Err(_) => Classified { category, numeral: None },
            }
        },
    }
}

/// The texts of a list of labels.
pub open spec fn texts(labels: Seq<String>) -> Seq<Seq<char>> {
    Seq::new(labels.len(), |i: int| labels[i]@)
}

/// Whether `found` lists, in the order of the input, exactly those of the first
/// `upto` labels that belong to `category`.
pub open spec fn lists_category(
    found: Seq<usize>,
    labels: Seq<Seq<char>>,
    option: ZhNumberOption,
    category: Category,
    upto: int,
) -> bool {
    &&& forall|a: int, b: int| 0 <= a < b < found.len() ==> found[a] < found[b]
    &&& forall|k: int|
        0 <= k < found.len() ==> (#[trigger] found[k]) < upto && category_of(
            labels[found[k] as int],
            option,
        ) == category
    &&& forall|i: usize|
        i < upto && category_of(#[trigger] labels[i as int], option) == category
            ==> found.contains(i)
}

/// The four buckets of a list of labels. Each entry holds the position of a
/// label and the key that its bucket is sorted by: the text for a word, the
/// value for a numeral.
pub struct Buckets {
    pub ascii_word: Vec<(usize, String)>,
    pub zh_upper_number: Vec<(usize, i64)>,
    pub zh_lower_number: Vec<(usize, i64)>,
    pub zh_word: Vec<(usize, String)>,
}

/// Whether each word of a bucket is the text of the label at its position.
pub open spec fn keyed_by_text(entries: Seq<(usize, String)>, labels: Seq<Seq<char>>) -> bool {
    forall|k: int|
        0 <= k < entries.len() ==> (#[trigger] entries[k]).1@ == labels[entries[k].0 as int]
}

/// Whether each value of a bucket is the value of the label at its position.
pub open spec fn keyed_by_value(entries: Seq<(usize, i64)>, labels: Seq<Seq<char>>) -> bool {
    forall|k: int|
        0 <= k < entries.len() ==> (#[trigger] entries[k]).1 == value_of(
            labels[entries[k].0 as int],
        )
}

impl Buckets {
    /// Whether the buckets hold the first `upto` labels: each label in the
    /// bucket of its category, in the order of the input, with its key.
    pub open spec fn holds(
        &self,
        labels: Seq<Seq<char>>,
        option: ZhNumberOption,
        upto: int,
    ) -> bool {
        &&& self.ascii_word@.len() + self.zh_upper_number@.len() + self.zh_lower_number@.len()
            + self.zh_word@.len() == upto
        &&& lists_category(positions(self.ascii_word@), labels, option, Category::AsciiWord, upto)
        &&& lists_category(
            positions(self.zh_upper_number@),
            labels,
            option,
            Category::UpperNumeral,
            upto,
        )
        &&& lists_category(
            positions(self.zh_lower_number@),
            labels,
            option,
            Category::LowerNumeral,
            upto,
        )
        &&& lists_category(positions(self.zh_word@), labels, option, Category::GenericWord, upto)
        &&& keyed_by_text(self.ascii_word@, labels)
        &&& keyed_by_text(self.zh_word@, labels)
        &&& keyed_by_value(self.zh_upper_number@, labels)
        &&& keyed_by_value(self.zh_lower_number@, labels)
    }
}

/// A bucket that takes in the next label of its category lists one label
/// more.
proof fn lemma_lists_one_more<K>(
    entries: Seq<(usize, K)>,
    key: K,
    labels: Seq<Seq<char>>,
    option: ZhNumberOption,
    category: Category,
    upto: usize,
)
    requires
        lists_category(positions(entries), labels, option, category, upto as int),
        upto < labels.len(),
        category_of(labels[upto as int], option) == category,
    ensures
        lists_category(
            positions(entries.push((upto, key))),
            labels,
            option,
            category,
            upto + 1,
        ),
{
    let before = positions(entries);
    let after = positions(entries.push((upto, key)));
    assert(after =~= before.push(upto));
    assert forall|i: usize|
        i < upto + 1 && category_of(#[trigger] labels[i as int], option)
            == category implies after.contains(i) by {
        if i < upto {
            assert(before.contains(i));
            let k = choose|k: int| 0 <= k < before.len() && before[k] == i;
            assert(after[k] == i);
        } else {
            assert(after[before.len() as int] == i);
        }
    }
}

/// A bucket that passes over a label of another category still lists its
/// own.
proof fn lemma_lists_passes_over(
    found: Seq<usize>,
    labels: Seq<Seq<char>>,
    option: ZhNumberOption,
    category: Category,
    upto: usize,
)
    requires
        lists_category(found, labels, option, category, upto as int),
        upto < labels.len(),
        category_of(labels[upto as int], option) != category,
    ensures
        lists_category(found, labels, option, category, upto + 1),
{
}

/// Puts each label into the bucket of its category.
pub fn classify(labels: &Vec<String>, option: ZhNumberOption) -> (buckets: Buckets)
    ensures
        buckets.holds(texts(labels@), option, labels@.len() as int),
{
    let mut buckets = Buckets {
        ascii_word: Vec::new(),
        zh_upper_number: Vec::new(),
        zh_lower_number: Vec::new(),
        zh_word: Vec::new(),
    };
    let ghost all = texts(labels@);
    let mut i: usize = 0;
    while i < labels.len()
        invariant
            i <= labels@.len(),
            all == texts(labels@),
            buckets.holds(all, option, i as int),
        decreases labels@.len() - i,
    {
        let found = classify_label(labels[i].as_str(), option);
        let ghost before = buckets;
        proof {
            assert(all[i as int] == labels@[i as int]@);
            if found.category != Category::AsciiWord {
                lemma_lists_passes_over(
                    positions(before.ascii_word@),
                    all,
                    option,
                    Category::AsciiWord,
                    i,
                );
            }
            if found.category != Category::UpperNumeral {
                lemma_lists_passes_over(
                    positions(before.zh_upper_number@),
                    all,
                    option,
                    Category::UpperNumeral,
                    i,
                );
            }
            if found.category != Category::LowerNumeral {
                lemma_lists_passes_over(
                    positions(before.zh_lower_number@),
                    all,
                    option,
                    Category::LowerNumeral,
                    i,
                );
            }
            if found.category != Category::GenericWord {
                lemma_lists_passes_over(
                    positions(before.zh_word@),
                    all,
                    option,
                    Category::GenericWord,
                    i,
                );
            }
        }
        match found.category {
            Category::AsciiWord => {
                let word = labels[i].clone();
                proof {
                    lemma_lists_one_more(before.ascii_word@, word, all, option, found.category, i);
                }
                buckets.ascii_word.push((i, word));
            },
            Category::GenericWord => {
                let word = labels[i].clone();
                proof {
                    lemma_lists_one_more(before.zh_word@, word, all, option, found.category, i);
                }
                buckets.zh_word.push((i, word));
            },
            Category::UpperNumeral => {
                let value: i64 = match found.numeral {
                    Some(numeral) => numeral.value,
                    None => 0,
                };
                proof {
                    lemma_lists_one_more(
                        before.zh_upper_number@,
                        value,
                        all,
                        option,
                        found.category,
                        i,
                    );
                }
                buckets.zh_upper_number.push((i, value));
            },
            Category::LowerNumeral => {
                let value: i64 = match found.numeral {
                    Some(numeral) => numeral.value,
                    None => 0,
                };
                proof {
                    lemma_lists_one_more(
                        before.zh_lower_number@,
                        value,
                        all,
                        option,
                        found.category,
                        i,
                    );
                }
                buckets.zh_lower_number.push((i, value));
            },
        }
        i = i + 1;
    }
    buckets
}

} // verus!
