//! Chinese numerals: which characters count as numeral glyphs, how far the
//! numeral run at the start of a label reaches, and what value the run stands
//! for.

use vstd::prelude::*;

verus! {

/// Whether `c` is a glyph of the everyday numeral set, in its traditional or
/// its simplified form: the digits, the positional markers and the units from
/// ten thousand upwards.
pub open spec fn is_lower_numeral(c: char) -> bool {
    c == '零' || c == '一' || c == '二' || c == '三' || c == '四' || c == '五' || c == '六'
        || c == '七' || c == '八' || c == '九' || c == '十' || c == '百' || c == '千'
        || is_large_unit(c)
}

/// Whether `c` is a glyph of the formal numeral set, in its traditional or its
/// simplified form. Zero and the large units have no formal form of their own
/// and belong to both sets.
pub open spec fn is_upper_numeral(c: char) -> bool {
    c == '零' || c == '壹' || c == '貳' || c == '參' || c == '肆' || c == '伍' || c == '陸'
        || c == '柒' || c == '捌' || c == '玖' || c == '拾' || c == '佰' || c == '仟'
        || c == '贰' || c == '参' || c == '陆' || is_large_unit(c)
}

/// Whether `c` is a unit of ten thousand or more, in either form.
pub open spec fn is_large_unit(c: char) -> bool {
    c == '萬' || c == '億' || c == '兆' || c == '京' || c == '垓' || c == '秭' || c == '穰'
        || c == '溝' || c == '澗' || c == '正' || c == '載' || c == '極' || c == '万'
        || c == '亿' || c == '沟' || c == '涧' || c == '载' || c == '极'
}

/// Whether `c` is a numeral glyph of either set.
pub open spec fn is_numeral_glyph(c: char) -> bool {
    is_upper_numeral(c) || is_lower_numeral(c)
}

fn large_unit(c: char) -> (r: bool)
    ensures
        r == is_large_unit(c),
{
    c == '萬' || c == '億' || c == '兆' || c == '京' || c == '垓' || c == '秭' || c == '穰'
        || c == '溝' || c == '澗' || c == '正' || c == '載' || c == '極' || c == '万'
        || c == '亿' || c == '沟' || c == '涧' || c == '载' || c == '极'
}

/// Tells whether `c` belongs to the everyday numeral set.
pub fn lower_numeral(c: char) -> (r: bool)
    ensures
        r == is_lower_numeral(c),
{
    c == '零' || c == '一' || c == '二' || c == '三' || c == '四' || c == '五' || c == '六'
        || c == '七' || c == '八' || c == '九' || c == '十' || c == '百' || c == '千'
        || large_unit(c)
}

/// Tells whether `c` belongs to the formal numeral set.
pub fn upper_numeral(c: char) -> (r: bool)
    ensures
        r == is_upper_numeral(c),
{
    c == '零' || c == '壹' || c == '貳' || c == '參' || c == '肆' || c == '伍' || c == '陸'
        || c == '柒' || c == '捌' || c == '玖' || c == '拾' || c == '佰' || c == '仟'
        || c == '贰' || c == '参' || c == '陆' || large_unit(c)
}

/// The length of the longest prefix of `text` made of numeral glyphs only.
pub open spec fn numeral_run(text: Seq<char>) -> nat
    decreases text.len(),
{
    if text.len() > 0 && is_numeral_glyph(text[0]) {
        1 + numeral_run(text.drop_first())
    } else {
        0
    }
}

/// What the numeral run says about its own extent: every character before its
/// end is a numeral glyph, and the character at its end, if there is one, is
/// not.
pub proof fn lemma_numeral_run(text: Seq<char>)
    ensures
        numeral_run(text) <= text.len(),
        forall|i: int| 0 <= i < numeral_run(text) ==> is_numeral_glyph(#[trigger] text[i]),
        numeral_run(text) < text.len() ==> !is_numeral_glyph(text[numeral_run(text) as int]),
    decreases text.len(),
{
    if text.len() > 0 && is_numeral_glyph(text[0]) {
        let rest = text.drop_first();
        lemma_numeral_run(rest);
        assert forall|i: int| 0 <= i < numeral_run(text) implies is_numeral_glyph(
            #[trigger] text[i],
        ) by {
            if i > 0 {
                assert(text[i] == rest[i - 1]);
            }
        }
        if numeral_run(text) < text.len() {
            assert(text[numeral_run(text) as int] == rest[numeral_run(rest) as int]);
        }
    }
}

/// A prefix of numeral glyphs that ends at the end of the text or at another
/// character is the numeral run.
pub proof fn lemma_numeral_run_is(text: Seq<char>, n: int)
    requires
        0 <= n <= text.len(),
        forall|i: int| 0 <= i < n ==> is_numeral_glyph(#[trigger] text[i]),
        n < text.len() ==> !is_numeral_glyph(text[n]),
    ensures
        numeral_run(text) == n,
    decreases text.len(),
{
    if text.len() > 0 && is_numeral_glyph(text[0]) {
        let rest = text.drop_first();
        assert(n > 0);
        assert forall|i: int| 0 <= i < n - 1 implies is_numeral_glyph(#[trigger] rest[i]) by {
            assert(rest[i] == text[i + 1]);
        }
        if n - 1 < rest.len() {
            assert(rest[n - 1] == text[n]);
        }
        lemma_numeral_run_is(rest, n - 1);
    } else if text.len() > 0 {
        if n > 0 {
            assert(is_numeral_glyph(text[0]));
        }
    }
}

/// Measures the numeral run at the start of `text`.
pub fn numeral_run_len(text: &str) -> (n: usize)
    ensures
        n == numeral_run(text@),
{
    let len: usize = text.unicode_len();
    let mut n: usize = 0;
    for c in chars: text.chars()
        invariant
            len == text@.len(),
            chars.seq() == text@,
            n == chars.index(),
            forall|i: int| 0 <= i < n ==> is_numeral_glyph(#[trigger] text@[i]),
    {
        if !(upper_numeral(c) || lower_numeral(c)) {
            proof {
                lemma_numeral_run_is(text@, n as int);
            }
            return n;
        }
        n = n + 1;
    }
    proof {
        lemma_numeral_run_is(text@, n as int);
    }
    n
}

/// Why a label is not a numeral.
#[derive(Clone, Copy, Debug, PartialEq, Eq, Structural)]
pub enum NumeralParseError {
    /// There is no numeral to read.
    Empty,
    /// The character at `char_index` cannot stand where it does.
    Incorrect { char_index: usize },
    /// The value is above what a signed 64-bit integer holds.
    Overflow,
    /// The value is below what a signed 64-bit integer holds.
    Underflow,
}

/// What `chinese_number::from_chinese_to_i64_ten_thousand` returns for `text`:
/// the value of the numeral where each large unit is ten thousand times the
/// one before it, or the reason why the text has none.
pub uninterp spec fn chinese_number_value(text: Seq<char>) -> Result<i64, NumeralParseError>;

/// Whether `text` is made of numeral glyphs only.
pub open spec fn all_numeral_glyphs(text: Seq<char>) -> bool {
    forall|i: int| 0 <= i < text.len() ==> is_numeral_glyph(#[trigger] text[i])
}

/// Calls `chinese_number::from_chinese_to_i64_ten_thousand`. The parser is a
/// pure function of the text, so the contract only names its result; the
/// parser's four errors are handed on one for one.
///
/// The text must hold numeral glyphs only. The parser also reads the units
/// below one, 分 and 角, and has no power of ten thousand for them: on a text
/// with one of them it may fail an assertion instead of returning. No numeral
/// glyph is one of the two.
#[verifier::external_body]
fn chinese_number_to_i64(text: &str) -> (r: Result<i64, NumeralParseError>)
    requires
        all_numeral_glyphs(text@),
    ensures
        r == chinese_number_value(text@),
{
    match chinese_number::from_chinese_to_i64_ten_thousand(text) {
        Ok(value) => Ok(value),
        Err(chinese_number::ChineseToNumberError::ChineseNumberEmpty) => Err(
            NumeralParseError::Empty,
        ),
        Err(chinese_number::ChineseToNumberError::ChineseNumberIncorrect { char_index }) => Err(
            NumeralParseError::Incorrect { char_index },
        ),
        Err(chinese_number::ChineseToNumberError::Overflow) => Err(NumeralParseError::Overflow),
        Err(chinese_number::ChineseToNumberError::Underflow) => Err(NumeralParseError::Underflow),
    }
}

/// Whether the first character of `text` is a formal numeral glyph.
pub open spec fn starts_upper(text: Seq<char>) -> bool {
    text.len() > 0 && is_upper_numeral(text[0])
}

/// The numeral run of `text`: its longest prefix of numeral glyphs.
pub open spec fn numeral_prefix(text: Seq<char>) -> Seq<char> {
    text.take(numeral_run(text) as int)
}

/// The value of `text` read as a Chinese numeral.
///
/// The numeral of a label is its numeral run, whatever follows it: a label
/// with no numeral glyph at its start is `Empty`, any other label has the
/// value, or the error, that the numeral grammar gives its run.
pub open spec fn numeral_value(text: Seq<char>) -> Result<i64, NumeralParseError> {
    if numeral_run(text) == 0 {
        Err(NumeralParseError::Empty)
    } else {
        chinese_number_value(numeral_prefix(text))
    }
}

/// Reads the numeral run of `text` as a Chinese numeral. The flag tells
/// whether the text starts with a formal numeral glyph, whatever the outcome
/// of the parse.
pub fn parse_zh_number(text: &str) -> (r: (bool, Result<i64, NumeralParseError>))
    ensures
        r.0 == starts_upper(text@),
        r.1 == numeral_value(text@),
{
    let run: usize = numeral_run_len(text);
    proof {
        lemma_numeral_run(text@);
    }
    if run == 0 {
        return (false, Err(NumeralParseError::Empty));
    }
    let upper_case: bool = upper_numeral(text.get_char(0));
    let prefix = text.substring_char(0, run);
    (upper_case, chinese_number_to_i64(prefix))
}

} // verus!
