//! The buckets that are sorted from keys held in memory: the ASCII words, in
//! ordinal order, and the numerals, by value.

use vstd::prelude::*;
use crate::bytes::{
    lemma_bytes_after_asymmetric, lemma_bytes_not_after_transitive, text_after, text_sorts_after,
};
use crate::options::{UpperCaseOrder, ZhNumberOption};
use crate::order::{
    arrange, is_stable_order, is_strict_weak_order, lemma_permutation_bound,
    lemma_stable_order_is, stable_order,
};
use crate::sorter::{
    lemma_done_is_stable_order, lemma_start_agrees, lemma_step_agrees, lemma_step_decreases,
    StableSorter,
};

verus! {

/// The label positions of a bucket, in the order of its entries.
pub open spec fn positions<K>(entries: Seq<(usize, K)>) -> Seq<usize> {
    Seq::new(entries.len(), |k: int| entries[k].0)
}

/// The order of the entries of a bucket of words: the ordinal order of their
/// texts.
pub open spec fn words_after(entries: Seq<(usize, String)>) -> spec_fn(usize, usize) -> bool {
    |i: usize, j: usize| text_after(entries[i as int].1@, entries[j as int].1@)
}

/// The order of the entries of a bucket of numerals: the order of their
/// values.
pub open spec fn values_after(entries: Seq<(usize, i64)>) -> spec_fn(usize, usize) -> bool {
    |i: usize, j: usize| entries[i as int].1 > entries[j as int].1
}

/// The positions of a bucket of words in stable ordinal order.
pub open spec fn sorted_words(entries: Seq<(usize, String)>) -> Seq<usize> {
    arrange(positions(entries), stable_order(entries.len(), words_after(entries)))
}

/// The positions of a bucket of numerals in stable order of value.
pub open spec fn sorted_values(entries: Seq<(usize, i64)>) -> Seq<usize> {
    arrange(positions(entries), stable_order(entries.len(), values_after(entries)))
}

/// The positions of the two numeral buckets, each in stable order of value,
/// one bucket after the other. Unless the policy keeps formal numerals apart,
/// the bucket of everyday numerals is the only one.
pub open spec fn sorted_numbers(
    upper: Seq<(usize, i64)>,
    lower: Seq<(usize, i64)>,
    option: ZhNumberOption,
) -> Seq<usize> {
    match option {
        ZhNumberOption::DefinitionWithUpperCase(UpperCaseOrder::Before) => sorted_values(upper)
            + sorted_values(lower),
        ZhNumberOption::DefinitionWithUpperCase(UpperCaseOrder::After) => sorted_values(lower)
            + sorted_values(upper),
        _ => sorted_values(lower),
    }
}

/// The ordinal order of a bucket's texts is the strict side of a total
/// preorder of its entries.
pub proof fn lemma_words_after_is_order(entries: Seq<(usize, String)>)
    ensures
        is_strict_weak_order(words_after(entries)),
{
    let after = words_after(entries);
    assert forall|a: usize, b: usize| #[trigger] after(a, b) implies !after(b, a) by {
        lemma_bytes_after_asymmetric(
            vstd::utf8::encode_utf8(entries[a as int].1@),
            vstd::utf8::encode_utf8(entries[b as int].1@),
        );
    }
    assert forall|a: usize, b: usize, c: usize|
        !(#[trigger] after(a, b)) && !(#[trigger] after(b, c)) implies !after(a, c) by {
        lemma_bytes_not_after_transitive(
            vstd::utf8::encode_utf8(entries[a as int].1@),
            vstd::utf8::encode_utf8(entries[b as int].1@),
            vstd::utf8::encode_utf8(entries[c as int].1@),
        );
    }
}

/// The order of a bucket's values is the strict side of a total preorder of
/// its entries.
pub proof fn lemma_values_after_is_order(entries: Seq<(usize, i64)>)
    ensures
        is_strict_weak_order(values_after(entries)),
{
}

fn pick_positions<K>(entries: &Vec<(usize, K)>, order: &Vec<usize>) -> (picked: Vec<usize>)
    requires
        forall|k: int| 0 <= k < order@.len() ==> (#[trigger] order@[k]) < entries@.len(),
    ensures
        picked@ == arrange(positions(entries@), order@),
{
    let mut picked: Vec<usize> = Vec::new();
    let mut k: usize = 0;
    while k < order.len()
        invariant
            k <= order@.len(),
            picked@.len() == k,
            forall|i: int| 0 <= i < order@.len() ==> (#[trigger] order@[i]) < entries@.len(),
            forall|i: int| 0 <= i < k ==> picked@[i] == entries@[order@[i] as int].0,
        decreases order@.len() - k,
    {
        picked.push(entries[order[k]].0);
        k = k + 1;
    }
    assert(picked@ =~= arrange(positions(entries@), order@));
    picked
}

fn order_words(entries: &Vec<(usize, String)>) -> (order: Vec<usize>)
    ensures
        order@ == stable_order(entries@.len(), words_after(entries@)),
        is_stable_order(order@, entries@.len(), words_after(entries@)),
{
    let ghost after = words_after(entries@);
    let mut sorter = StableSorter::new(entries.len());
    proof {
        lemma_words_after_is_order(entries@);
        lemma_start_agrees(entries@.len(), after);
    }
    while !sorter.is_done()
        invariant
            sorter@.wf(),
            sorter@.total == entries@.len(),
            sorter@.agrees_with(after),
            after == words_after(entries@),
        decreases sorter@.steps_left(),
    {
        match sorter.next_pair() {
            Some((left, right)) => {
                let left_after: bool = text_sorts_after(
                    entries[left].1.as_str(),
                    entries[right].1.as_str(),
                );
                proof {
                    lemma_step_agrees(sorter@, after, left_after);
                    lemma_step_decreases(sorter@, left_after);
                }
                sorter.answer(left_after);
            },
            None => {},
        }
    }
    proof {
        lemma_done_is_stable_order(sorter@, after);
        lemma_stable_order_is(sorter@.placed, entries@.len(), after);
    }
    sorter.into_order()
}

fn order_values(entries: &Vec<(usize, i64)>) -> (order: Vec<usize>)
    ensures
        order@ == stable_order(entries@.len(), values_after(entries@)),
        is_stable_order(order@, entries@.len(), values_after(entries@)),
{
    let ghost after = values_after(entries@);
    let mut sorter = StableSorter::new(entries.len());
    proof {
        lemma_values_after_is_order(entries@);
        lemma_start_agrees(entries@.len(), after);
    }
    while !sorter.is_done()
        invariant
            sorter@.wf(),
            sorter@.total == entries@.len(),
            sorter@.agrees_with(after),
            after == values_after(entries@),
        decreases sorter@.steps_left(),
    {
        match sorter.next_pair() {
            Some((left, right)) => {
                let left_after: bool = entries[left].1 > entries[right].1;
                proof {
                    lemma_step_agrees(sorter@, after, left_after);
                    lemma_step_decreases(sorter@, left_after);
                }
                sorter.answer(left_after);
            },
            None => {},
        }
    }
    proof {
        lemma_done_is_stable_order(sorter@, after);
        lemma_stable_order_is(sorter@.placed, entries@.len(), after);
    }
    sorter.into_order()
}

/// Sorts a bucket of words in ordinal order, the lexicographic order of their
/// bytes, and returns their positions. Equal words keep the order in which
/// they stand in the bucket.
pub fn sort_ascii_word(ascii_word_vec: Vec<(usize, String)>) -> (sorted: Vec<usize>)
    ensures
        sorted@ == sorted_words(ascii_word_vec@),
        is_stable_order(
            stable_order(ascii_word_vec@.len(), words_after(ascii_word_vec@)),
            ascii_word_vec@.len(),
            words_after(ascii_word_vec@),
        ),
{
    let order = order_words(&ascii_word_vec);
    proof {
        lemma_permutation_bound(order@, ascii_word_vec@.len());
    }
    pick_positions(&ascii_word_vec, &order)
}

fn sort_values(entries: &Vec<(usize, i64)>) -> (sorted: Vec<usize>)
    ensures
        sorted@ == sorted_values(entries@),
        is_stable_order(
            stable_order(entries@.len(), values_after(entries@)),
            entries@.len(),
            values_after(entries@),
        ),
{
    let order = order_values(entries);
    proof {
        lemma_permutation_bound(order@, entries@.len());
    }
    pick_positions(entries, &order)
}

/// Sorts the two numeral buckets by value, each for itself, and returns their
/// positions: the formal numerals first or last as the policy says. Under a
/// policy that does not keep them apart only the everyday bucket is returned.
/// Numerals of equal value keep the order in which they stand in their bucket.
pub fn sort_zh_number(
    zh_upper_number_vec: Vec<(usize, i64)>,
    zh_lower_number_vec: Vec<(usize, i64)>,
    zh_number_option: ZhNumberOption,
) -> (sorted: Vec<usize>)
    ensures
        sorted@ == sorted_numbers(zh_upper_number_vec@, zh_lower_number_vec@, zh_number_option),
        is_stable_order(
            stable_order(zh_lower_number_vec@.len(), values_after(zh_lower_number_vec@)),
            zh_lower_number_vec@.len(),
            values_after(zh_lower_number_vec@),
        ),
        is_stable_order(
            stable_order(zh_upper_number_vec@.len(), values_after(zh_upper_number_vec@)),
            zh_upper_number_vec@.len(),
            values_after(zh_upper_number_vec@),
        ),
{
    let mut upper = sort_values(&zh_upper_number_vec);
    let mut lower = sort_values(&zh_lower_number_vec);
    match zh_number_option {
        ZhNumberOption::DefinitionWithUpperCase(upper_case_order) => {
            match upper_case_order {
                UpperCaseOrder::Before => {
                    upper.append(&mut lower);
                    upper
                },
                UpperCaseOrder::After => {
                    lower.append(&mut upper);
                    lower
                },
            }
        },
        _ => lower,
    }
}

} // verus!
