//! Sorting of short labels that mix ASCII and Chinese text into the order a
//! reader expects: ASCII words first, then Chinese numerals by value, then the
//! remaining Chinese words by the collation of the chosen locale.
//!
//! The crate holds no collation data. A [`SortSession`] sorts what it can from
//! the labels alone and asks its caller for each comparison of two generic
//! words, which the caller answers from a collation service.

pub mod bucket;
pub mod bytes;
pub mod classify;
pub mod display;
pub mod laws;
pub mod numeral;
pub mod options;
pub mod order;
pub mod session;
pub mod sorter;

pub use bucket::{sort_ascii_word, sort_zh_number};
pub use classify::{classify, classify_label, Buckets, Category, Classified, ParsedNumeral};
pub use numeral::{parse_zh_number, NumeralParseError};
pub use options::{ChineseVariant, SortZhOptions, UpperCaseOrder, ZhNumberOption};
pub use session::{CollationOrder, SortError, SortSession};
pub use sorter::StableSorter;
