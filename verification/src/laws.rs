//! What holds of every finished sort.

use vstd::prelude::*;
use crate::bytes::lemma_text_not_after_itself;
use crate::classify::{category_of, is_ascii_label, is_numeral_category, value_of};
use crate::display::{
    collation_of, displayed, labels_after, lemma_collation_is_order, lemma_displayed_is_sorted,
    lemma_labels_after_is_order, rank_at, sorts_after,
};
use crate::order::{
    lemma_stable_keeps_ties, lemma_stable_larger_later, lemma_stable_never_after,
};
use crate::session::SortSession;

verus! {

/// Buckets are not interleaved: between two labels of one bucket stand only
/// labels of that bucket. In particular no formal numeral stands among the
/// everyday ones, nor an everyday one among the formal ones, whatever the
/// collation service answered.
pub proof fn lemma_buckets_stand_apart(session: &SortSession)
    requires
        session.wf(),
        session.is_done(),
    ensures
        forall|a: int, b: int, c: int|
            #![trigger session.output()[a], session.output()[b], session.output()[c]]
            0 <= a < b < c < session.output().len() && category_of(
                session.output()[a],
                session.options().zh_number_option,
            ) == category_of(session.output()[c], session.options().zh_number_option)
                ==> category_of(session.output()[b], session.options().zh_number_option)
                == category_of(session.output()[a], session.options().zh_number_option),
{
    let out = session.output();
    let order = session.order();
    let labels = session.labels();
    let option = session.options().zh_number_option;
    let words_after = session.lemma_finished_is_stable();
    let after = labels_after(labels, option, words_after);
    lemma_labels_after_is_order(labels, option, words_after);
    assert forall|a: int, b: int, c: int|
        #![trigger out[a], out[b], out[c]]
        0 <= a < b < c < out.len() && category_of(out[a], option) == category_of(
            out[c],
            option,
        ) implies category_of(out[b], option) == category_of(out[a], option) by {
        lemma_stable_never_after(order, after, a, b);
        lemma_stable_never_after(order, after, b, c);
        assert(rank_at(labels, option, order[a]) <= rank_at(labels, option, order[b]));
        assert(rank_at(labels, option, order[b]) <= rank_at(labels, option, order[c]));
    }
}

/// Every label that starts with an ASCII character stands before every label
/// that does not, whatever the options and whatever the collation service
/// answered.
pub proof fn lemma_ascii_stands_first(session: &SortSession)
    requires
        session.wf(),
        session.is_done(),
    ensures
        forall|a: int, b: int|
            0 <= a < b < session.output().len() && is_ascii_label(
                #[trigger] session.output()[b],
            ) ==> is_ascii_label(#[trigger] session.output()[a]),
{
    let out = session.output();
    let order = session.order();
    let labels = session.labels();
    let option = session.options().zh_number_option;
    let words_after = session.lemma_finished_is_stable();
    let after = labels_after(labels, option, words_after);
    lemma_labels_after_is_order(labels, option, words_after);
    assert forall|a: int, b: int|
        0 <= a < b < out.len() && is_ascii_label(#[trigger] out[b]) implies is_ascii_label(
        #[trigger] out[a],
    ) by {
        lemma_stable_never_after(order, after, a, b);
        assert(rank_at(labels, option, order[a]) <= rank_at(labels, option, order[b]));
    }
}

/// Within a numeral bucket the smaller value stands first, wherever the two
/// labels stood in the input and whatever the collation service answered.
/// Under a policy that does not keep formal numerals apart all numerals are in
/// one bucket.
pub proof fn lemma_numerals_ascend(session: &SortSession)
    requires
        session.wf(),
        session.is_done(),
    ensures
        forall|a: int, b: int|
            0 <= a < session.output().len() && 0 <= b < session.output().len()
                && is_numeral_category(
                category_of(#[trigger] session.output()[a], session.options().zh_number_option),
            ) && category_of(session.output()[a], session.options().zh_number_option)
                == category_of(#[trigger] session.output()[b], session.options().zh_number_option)
                && value_of(session.output()[a]) < value_of(session.output()[b]) ==> a < b,
{
    let out = session.output();
    let order = session.order();
    let labels = session.labels();
    let option = session.options().zh_number_option;
    let words_after = session.lemma_finished_is_stable();
    let after = labels_after(labels, option, words_after);
    lemma_labels_after_is_order(labels, option, words_after);
    assert forall|a: int, b: int|
        0 <= a < out.len() && 0 <= b < out.len() && is_numeral_category(
            category_of(#[trigger] out[a], option),
        ) && category_of(out[a], option) == category_of(#[trigger] out[b], option) && value_of(
            out[a],
        ) < value_of(out[b]) implies a < b by {
        assert(after(order[b], order[a]));
        lemma_stable_larger_later(order, after, a, b);
    }
}

/// Equal ASCII words, and numerals of one bucket with equal values, keep the
/// order in which they stood in the input, whatever the collation service
/// answered.
pub proof fn lemma_equal_keys_keep_order(session: &SortSession)
    requires
        session.wf(),
        session.is_done(),
    ensures
        forall|a: int, b: int|
            0 <= a < session.output().len() && 0 <= b < session.output().len() && (
            #[trigger] session.order()[a]) < (#[trigger] session.order()[b]) && category_of(
                session.output()[a],
                session.options().zh_number_option,
            ) == category_of(session.output()[b], session.options().zh_number_option) && (
            if is_numeral_category(
                category_of(session.output()[a], session.options().zh_number_option),
            ) {
                value_of(session.output()[a]) == value_of(session.output()[b])
            } else {
                &&& is_ascii_label(session.output()[a])
                &&& session.output()[a] == session.output()[b]
            }) ==> a < b,
{
    let out = session.output();
    let order = session.order();
    let labels = session.labels();
    let option = session.options().zh_number_option;
    let words_after = session.lemma_finished_is_stable();
    let after = labels_after(labels, option, words_after);
    lemma_labels_after_is_order(labels, option, words_after);
    assert forall|a: int, b: int|
        0 <= a < out.len() && 0 <= b < out.len() && (#[trigger] order[a]) < (#[trigger] order[b])
            && category_of(out[a], option) == category_of(out[b], option) && (
        if is_numeral_category(category_of(out[a], option)) {
            value_of(out[a]) == value_of(out[b])
        } else {
            &&& is_ascii_label(out[a])
            &&& out[a] == out[b]
        }) implies a < b by {
        if !is_numeral_category(category_of(out[a], option)) {
            lemma_text_not_after_itself(out[a]);
        }
        lemma_stable_keeps_ties(order, after, a, b);
    }
}

/// Where every answer was the one that an order of texts gives, two labels
/// that the display order does not tell apart keep the order in which they
/// stood in the input. For generic words these are the ones that collate as
/// equal.
pub proof fn lemma_ties_keep_order(
    session: &SortSession,
    collates_after: spec_fn(Seq<char>, Seq<char>) -> bool,
)
    requires
        session.wf(),
        session.is_done(),
        session.agrees_with(collates_after),
    ensures
        forall|a: int, b: int|
            0 <= a < session.output().len() && 0 <= b < session.output().len() && (
            #[trigger] session.order()[a]) < (#[trigger] session.order()[b]) && !sorts_after(
                session.output()[a],
                session.output()[b],
                session.options().zh_number_option,
                collates_after,
            ) && !sorts_after(
                session.output()[b],
                session.output()[a],
                session.options().zh_number_option,
                collates_after,
            ) ==> a < b,
{
    let out = session.output();
    let order = session.order();
    let labels = session.labels();
    let option = session.options().zh_number_option;
    let words_after = collation_of(labels, collates_after);
    session.lemma_finished_order(collates_after);
    session.lemma_agreement_is_order(collates_after);
    lemma_collation_is_order(labels, collates_after);
    let after = labels_after(labels, option, words_after);
    lemma_labels_after_is_order(labels, option, words_after);
    assert forall|a: int, b: int|
        0 <= a < out.len() && 0 <= b < out.len() && (#[trigger] order[a]) < (#[trigger] order[b])
            && !sorts_after(out[a], out[b], option, collates_after) && !sorts_after(
            out[b],
            out[a],
            option,
            collates_after,
        ) implies a < b by {
        assert(after(order[a], order[b]) == sorts_after(out[a], out[b], option, collates_after));
        assert(after(order[b], order[a]) == sorts_after(out[b], out[a], option, collates_after));
        lemma_stable_keeps_ties(order, after, a, b);
    }
}

/// Where every answer was the one that an order of texts gives, the output is
/// in display order: no label sorts after one that follows it.
pub proof fn lemma_output_is_sorted(
    session: &SortSession,
    collates_after: spec_fn(Seq<char>, Seq<char>) -> bool,
)
    requires
        session.wf(),
        session.is_done(),
        session.agrees_with(collates_after),
    ensures
        session.output() == displayed(
            session.labels(),
            session.options().zh_number_option,
            collates_after,
        ),
        forall|a: int, b: int|
            0 <= a < b < session.output().len() ==> !sorts_after(
                #[trigger] session.output()[a],
                #[trigger] session.output()[b],
                session.options().zh_number_option,
                collates_after,
            ),
{
    session.lemma_finished_order(collates_after);
    session.lemma_agreement_is_order(collates_after);
    session.lemma_output_is_permutation();
    lemma_displayed_is_sorted(
        session.labels(),
        session.options().zh_number_option,
        collates_after,
    );
}

/// Sorting what a sort has returned, with the same numeral policy and under
/// the same collation, returns it unchanged.
pub proof fn lemma_sorting_again_changes_nothing(
    first: &SortSession,
    second: &SortSession,
    collates_after: spec_fn(Seq<char>, Seq<char>) -> bool,
)
    requires
        first.wf(),
        first.is_done(),
        first.agrees_with(collates_after),
        second.wf(),
        second.is_done(),
        second.agrees_with(collates_after),
        second.labels() == first.output(),
        second.options().zh_number_option == first.options().zh_number_option,
    ensures
        second.output() == first.output(),
{
    lemma_output_is_sorted(first, collates_after);
    lemma_output_is_sorted(second, collates_after);
    first.lemma_agreement_is_order(collates_after);
    first.lemma_output_is_permutation();
    lemma_displayed_is_sorted(
        first.labels(),
        first.options().zh_number_option,
        collates_after,
    );
}

} // verus!
