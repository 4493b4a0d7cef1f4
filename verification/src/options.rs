//! What a caller can choose about a sort: the script variant, which picks the
//! collation locale, and the policy for Chinese numerals.

use vstd::prelude::*;

verus! {

/// The script a list of labels is written in. It selects the locale whose
/// collation rules order the words that are neither ASCII nor numerals.
#[derive(Clone, Copy, Debug, PartialEq, Eq, Structural)]
pub enum ChineseVariant {
    /// Traditional Chinese, collated as `zh-TW`.
    Traditional,
    /// Simplified Chinese, collated as `zh-CN`.
    Simplified,
}

/// Where the formal ("upper-case") numerals such as 壹 and 貳 stand relative to
/// the everyday ones such as 一 and 二.
#[derive(Clone, Copy, Debug, PartialEq, Eq, Structural)]
pub enum UpperCaseOrder {
    /// Formal numerals first: `["壹", "貳", "一", "二"]`.
    Before,
    /// Everyday numerals first: `["一", "二", "壹", "貳"]`.
    After,
}

/// How labels that are Chinese numerals are ordered.
#[derive(Clone, Copy, Debug, PartialEq, Eq, Structural)]
pub enum ZhNumberOption {
    /// No numeral bucket: every label that does not start with an ASCII
    /// character is ordered by collation alone.
    ICUDefault,
    /// Numerals are ordered by their value, formal and everyday ones together,
    /// and stand before the other Chinese words.
    Definition,
    /// Numerals are ordered by their value, formal and everyday ones apart, in
    /// the given order.
    DefinitionWithUpperCase(UpperCaseOrder),
}

/// The configuration of one sort.
#[derive(Clone, Copy, Debug)]
pub struct SortZhOptions {
    /// The script variant; `Traditional` by default.
    pub variant: ChineseVariant,
    /// The numeral policy; `ICUDefault` by default.
    pub zh_number_option: ZhNumberOption,
}

impl Default for UpperCaseOrder {
    /// Everyday numerals come first unless the caller says otherwise.
    fn default() -> (r: Self)
        ensures
            r == UpperCaseOrder::After,
    {
        UpperCaseOrder::After
    }
}

impl Default for ZhNumberOption {
    /// Without a choice, numerals are left to the collation.
    fn default() -> (r: Self)
        ensures
            r == ZhNumberOption::ICUDefault,
    {
        ZhNumberOption::ICUDefault
    }
}

impl Default for SortZhOptions {
    /// Traditional Chinese with numerals left to the collation.
    fn default() -> (r: Self)
        ensures
            r.variant == ChineseVariant::Traditional,
            r.zh_number_option == ZhNumberOption::ICUDefault,
    {
        SortZhOptions {
            variant: ChineseVariant::Traditional,
            zh_number_option: ZhNumberOption::ICUDefault,
        }
    }
}

/// The locale tag of a script variant.
pub open spec fn locale_of(variant: ChineseVariant) -> Seq<char> {
    match variant {
        ChineseVariant::Traditional => "zh-TW"@,
        ChineseVariant::Simplified => "zh-CN"@,
    }
}

impl ChineseVariant {
    /// The tag of the locale whose collation orders the generic words.
    pub fn locale(&self) -> (tag: &'static str)
        ensures
            tag@ == locale_of(*self),
    {
        match self {
            ChineseVariant::Traditional => "zh-TW",
            ChineseVariant::Simplified => "zh-CN",
        }
    }
}

impl ZhNumberOption {
    /// Whether numerals get buckets of their own.
    pub open spec fn by_value(self) -> bool {
        self != ZhNumberOption::ICUDefault
    }

    /// Whether formal numerals are kept apart from everyday ones.
    pub open spec fn distinguishes_case(self) -> bool {
        self is DefinitionWithUpperCase
    }

    /// Whether the formal numerals stand before the everyday ones.
    pub open spec fn upper_first(self) -> bool {
        self == ZhNumberOption::DefinitionWithUpperCase(UpperCaseOrder::Before)
    }
}

} // verus!
