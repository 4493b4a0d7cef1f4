//! A sort from its first label to its last: the labels are classified, the
//! ASCII words and the numerals are sorted at once, and the generic words are
//! sorted by the answers of a collation service that the caller consults.
//!
//! A session never calls the collation service. It names two texts, the
//! caller has them compared under the locale of the session, and hands the
//! answer back, or reports that the service has failed:
//!
//! ```text
//! let mut session = SortSession::new(labels, options);
//! while let Some((left, right)) = session.next_comparison() {
//!     match /* compare left with right under session.locale() */ {
//!         Ok(order) => session.answer(order),
//!         Err(_) => session.fail(),
//!     }
//! }
//! let sorted = session.finish()?;
//! ```

use vstd::prelude::*;
use crate::bucket::{
    lemma_values_after_is_order, lemma_words_after_is_order, positions, sort_ascii_word,
    sort_zh_number, sorted_numbers, sorted_values, sorted_words, values_after, words_after,
};
use crate::classify::{
    category_of, classify, keyed_by_text, lists_category, texts, Buckets, Category,
};
use crate::display::{
    collation_of, display_order, displayed, holds_ranks, labels_after, lemma_arranged_bucket,
    lemma_arranged_names, lemma_category_holds_rank, lemma_collation_is_order,
    lemma_joined_ranks, lemma_labels_after_is_order, lemma_order_without_words,
    lemma_whole_is_stable_order, lemma_words_in_display_order, no_order,
};
use crate::options::{locale_of, SortZhOptions, ZhNumberOption};
use crate::order::{
    arrange, in_stable_order, is_permutation, is_stable_order, is_strict_weak_order,
    lemma_arranged_multiset, lemma_permutation_bound, lemma_shown_order, lemma_stable_order_is,
    shown_after, stable_order,
};
use crate::sorter::{
    lemma_done_is_stable_order, lemma_stable_order_exists, lemma_start_agrees, lemma_step_agrees,
    Insertion, StableSorter,
};

verus! {

/// What the collation service says of two texts, the first relative to the
/// second.
#[derive(Clone, Copy, Debug, PartialEq, Eq, Structural)]
pub enum CollationOrder {
    Less,
    Equal,
    Greater,
}

/// Why a session has no result.
#[derive(Clone, Copy, Debug, PartialEq, Eq, Structural)]
pub enum SortError {
    /// The collation service failed. The sort is lost as a whole: there is no
    /// order to fall back on for the generic words.
    CollationFailed,
    /// Comparisons are still waiting for their answers.
    Unfinished,
}

/// The order of the entries of a bucket of words that an order of texts
/// gives.
pub open spec fn words_order(
    entries: Seq<(usize, String)>,
    collates_after: spec_fn(Seq<char>, Seq<char>) -> bool,
) -> spec_fn(usize, usize) -> bool {
    |a: usize, b: usize| collates_after(entries[a as int].1@, entries[b as int].1@)
}

/// An order of texts orders the entries of a bucket.
pub proof fn lemma_words_order_is_order(
    entries: Seq<(usize, String)>,
    collates_after: spec_fn(Seq<char>, Seq<char>) -> bool,
)
    requires
        is_strict_weak_order(collates_after),
    ensures
        is_strict_weak_order(words_order(entries, collates_after)),
{
    let after = words_order(entries, collates_after);
    assert forall|a: usize, b: usize| #[trigger] after(a, b) implies !after(b, a) by {
        assert(collates_after(entries[a as int].1@, entries[b as int].1@));
    }
    assert forall|a: usize, b: usize, c: usize|
        !(#[trigger] after(a, b)) && !(#[trigger] after(b, c)) implies !after(a, c) by {
        assert(!collates_after(entries[a as int].1@, entries[b as int].1@));
        assert(!collates_after(entries[b as int].1@, entries[c as int].1@));
    }
}

/// The sorted buckets of ASCII words and numerals, one after the other, are
/// in stable display order and name every label that is not a generic word.
proof fn lemma_head(
    buckets: Buckets,
    labels: Seq<Seq<char>>,
    option: ZhNumberOption,
)
    requires
        labels.len() <= usize::MAX,
        buckets.holds(labels, option, labels.len() as int),
    ensures
        holds_ranks(
            sorted_words(buckets.ascii_word@) + sorted_numbers(
                buckets.zh_upper_number@,
                buckets.zh_lower_number@,
                option,
            ),
            labels,
            option,
            0,
            3,
        ),
        in_stable_order(
            sorted_words(buckets.ascii_word@) + sorted_numbers(
                buckets.zh_upper_number@,
                buckets.zh_lower_number@,
                option,
            ),
            labels_after(labels, option, no_order()),
        ),
        (sorted_words(buckets.ascii_word@) + sorted_numbers(
            buckets.zh_upper_number@,
            buckets.zh_lower_number@,
            option,
        )).len() + buckets.zh_word@.len() == labels.len(),
{
    let after = labels_after(labels, option, no_order());
    let ascii = buckets.ascii_word@;
    let upper = buckets.zh_upper_number@;
    let lower = buckets.zh_lower_number@;

    lemma_words_after_is_order(ascii);
    lemma_stable_order_exists(ascii.len(), words_after(ascii));
    lemma_arranged_bucket(
        positions(ascii),
        stable_order(ascii.len(), words_after(ascii)),
        words_after(ascii),
        after,
    );
    lemma_category_holds_rank(
        sorted_words(ascii),
        positions(ascii),
        labels,
        option,
        Category::AsciiWord,
    );

    lemma_values_after_is_order(upper);
    lemma_stable_order_exists(upper.len(), values_after(upper));
    lemma_arranged_bucket(
        positions(upper),
        stable_order(upper.len(), values_after(upper)),
        values_after(upper),
        after,
    );
    lemma_category_holds_rank(
        sorted_values(upper),
        positions(upper),
        labels,
        option,
        Category::UpperNumeral,
    );

    lemma_values_after_is_order(lower);
    lemma_stable_order_exists(lower.len(), values_after(lower));
    lemma_arranged_bucket(
        positions(lower),
        stable_order(lower.len(), values_after(lower)),
        values_after(lower),
        after,
    );
    lemma_category_holds_rank(
        sorted_values(lower),
        positions(lower),
        labels,
        option,
        Category::LowerNumeral,
    );

    let numbers = sorted_numbers(upper, lower, option);
    if option.upper_first() {
        lemma_joined_ranks(
            sorted_values(upper),
            sorted_values(lower),
            labels,
            option,
            no_order(),
            1,
            2,
            3,
        );
    } else if option.distinguishes_case() {
        lemma_joined_ranks(
            sorted_values(lower),
            sorted_values(upper),
            labels,
            option,
            no_order(),
            1,
            2,
            3,
        );
    } else {
        let none = Seq::<usize>::empty();
        assert(upper.len() == 0) by {
            if upper.len() > 0 {
                assert(category_of(labels[positions(upper)[0] as int], option)
                    == Category::UpperNumeral);
            }
        }
        assert(holds_ranks(none, labels, option, 2, 3));
        lemma_joined_ranks(sorted_values(lower), none, labels, option, no_order(), 1, 2, 3);
        assert(sorted_values(lower) + none =~= sorted_values(lower));
    }
    lemma_joined_ranks(sorted_words(ascii), numbers, labels, option, no_order(), 0, 1, 3);
}

/// A sort in progress.
pub struct SortSession {
    labels: Vec<String>,
    options: SortZhOptions,
    /// The positions of the ASCII words and of the numerals, in display order.
    head: Vec<usize>,
    /// The bucket of generic words.
    zh_word_vec: Vec<(usize, String)>,
    /// The sort of the generic words, over the entries of their bucket.
    sorter: StableSorter,
    /// Whether the collation service was reported to have failed.
    failed: bool,
}

impl SortSession {
    /// The texts of the labels that are being sorted.
    pub closed spec fn labels(&self) -> Seq<Seq<char>> {
        texts(self.labels@)
    }

    /// The options of the sort.
    pub closed spec fn options(&self) -> SortZhOptions {
        self.options
    }

    /// The positions of the generic words, in the order of the input.
    pub closed spec fn word_positions(&self) -> Seq<usize> {
        positions(self.zh_word_vec@)
    }

    /// How far the sort of the generic words has come. Its items are the
    /// indices into `word_positions()`.
    pub closed spec fn progress(&self) -> Insertion {
        self.sorter@
    }

    /// Whether the collation service was reported to have failed.
    pub closed spec fn has_failed(&self) -> bool {
        self.failed
    }

    /// Whether every label is placed.
    pub open spec fn is_done(&self) -> bool {
        self.progress().is_done()
    }

    /// The result that the session has at this point.
    pub open spec fn outcome(&self) -> Result<Seq<usize>, SortError> {
        if self.has_failed() {
            Err(SortError::CollationFailed)
        } else if !self.is_done() {
            Err(SortError::Unfinished)
        } else {
            Ok(self.order())
        }
    }

    /// The positions of the two labels that are to be compared next.
    pub open spec fn pending(&self) -> (usize, usize) {
        (
            self.word_positions()[self.progress().pending().0 as int],
            self.word_positions()[self.progress().pending().1 as int],
        )
    }

    /// The positions of the labels in the order found: the ASCII words, the
    /// numerals, and the generic words as far as they are placed.
    pub closed spec fn order(&self) -> Seq<usize> {
        self.head@ + arrange(self.word_positions(), self.progress().placed)
    }

    /// The texts of the labels in the order found.
    pub open spec fn output(&self) -> Seq<Seq<char>> {
        arrange(self.labels(), self.order())
    }

    /// The invariant of a session.
    pub closed spec fn wf(&self) -> bool {
        &&& self.labels().len() <= usize::MAX
        &&& self.sorter@.wf()
        &&& self.sorter@.total == self.zh_word_vec@.len()
        &&& self.head@.len() + self.zh_word_vec@.len() == self.labels().len()
        &&& holds_ranks(self.head@, self.labels(), self.options.zh_number_option, 0, 3)
        &&& in_stable_order(
            self.head@,
            labels_after(self.labels(), self.options.zh_number_option, no_order()),
        )
        &&& lists_category(
            self.word_positions(),
            self.labels(),
            self.options.zh_number_option,
            Category::GenericWord,
            self.labels().len() as int,
        )
        &&& keyed_by_text(self.zh_word_vec@, self.labels())
    }

    /// Whether the sort of the generic words stands as the order
    /// `collates_after` of texts would have it. A session starts in this state
    /// and stays in it as long as each answer is the one that the order gives.
    pub closed spec fn agrees_with(
        &self,
        collates_after: spec_fn(Seq<char>, Seq<char>) -> bool,
    ) -> bool {
        &&& is_strict_weak_order(collates_after)
        &&& self.sorter@.agrees_with(words_order(self.zh_word_vec@, collates_after))
    }

    /// Starts a sort: classifies the labels, sorts the ASCII words and the
    /// numerals, and prepares the sort of the generic words.
    pub fn new(labels: Vec<String>, options: SortZhOptions) -> (session: Self)
        ensures
            session.wf(),
            session.labels() == texts(labels@),
            session.options() == options,
            lists_category(
                session.word_positions(),
                texts(labels@),
                options.zh_number_option,
                Category::GenericWord,
                labels@.len() as int,
            ),
            session.progress() == Insertion::start(session.word_positions().len()),
            !session.has_failed(),
            forall|collates_after: spec_fn(Seq<char>, Seq<char>) -> bool|
                is_strict_weak_order(collates_after) ==> #[trigger] session.agrees_with(
                    collates_after,
                ),
    {
        let option = options.zh_number_option;
        let buckets = classify(&labels, option);
        proof {
            assert(texts(labels@).len() == labels.len());
            lemma_head(buckets, texts(labels@), option);
        }
        let Buckets { ascii_word, zh_upper_number, zh_lower_number, zh_word } = buckets;
        let mut head = sort_ascii_word(ascii_word);
        let mut numbers = sort_zh_number(zh_upper_number, zh_lower_number, option);
        head.append(&mut numbers);
        assert(head@ =~= sorted_words(buckets.ascii_word@) + sorted_numbers(
            buckets.zh_upper_number@,
            buckets.zh_lower_number@,
            option,
        ));
        let sorter = StableSorter::new(zh_word.len());
        let session =
            SortSession { labels, options, head, zh_word_vec: zh_word, sorter, failed: false };
        proof {
            assert forall|collates_after: spec_fn(Seq<char>, Seq<char>) -> bool|
                is_strict_weak_order(collates_after) implies #[trigger] session.agrees_with(
                collates_after,
            ) by {
                let after = words_order(session.zh_word_vec@, collates_after);
                lemma_words_order_is_order(session.zh_word_vec@, collates_after);
                lemma_start_agrees(session.zh_word_vec@.len(), after);
            }
        }
        session
    }

    /// The tag of the locale under which the texts are to be compared.
    pub fn locale(&self) -> (tag: &'static str)
        ensures
            tag@ == locale_of(self.options().variant),
    {
        self.options.variant.locale()
    }

    /// Tells whether every label is placed.
    pub fn done(&self) -> (done: bool)
        requires
            self.wf(),
        ensures
            done == self.is_done(),
    {
        self.sorter.is_done()
    }

    /// The two texts that the collation service is to compare next: two
    /// generic words, the first of which stood before the second in the input.
    /// `None` when every label is placed, and after a failure.
    pub fn next_comparison(&self) -> (texts: Option<(&str, &str)>)
        requires
            self.wf(),
        ensures
            texts is None <==> self.is_done() || self.has_failed(),
            texts matches Some((left, right)) ==> {
                &&& self.pending().0 < self.pending().1 < self.labels().len()
                &&& left@ == self.labels()[self.pending().0 as int]
                &&& right@ == self.labels()[self.pending().1 as int]
                &&& category_of(left@, self.options().zh_number_option) == Category::GenericWord
                &&& category_of(right@, self.options().zh_number_option) == Category::GenericWord
            },
    {
        if self.failed {
            return None;
        }
        match self.sorter.next_pair() {
            None => None,
            Some((left, right)) => {
                proof {
                    let found = self.word_positions();
                    assert(found[left as int] < self.labels().len());
                    assert(found[right as int] < self.labels().len());
                }
                Some((self.zh_word_vec[left].1.as_str(), self.zh_word_vec[right].1.as_str()))
            },
        }
    }

    /// Takes the answer of the collation service to the pending comparison:
    /// how the first text stands to the second. A session with nothing to
    /// compare ignores it.
    pub fn answer(&mut self, order: CollationOrder)
        requires
            old(self).wf(),
        ensures
            final(self).wf(),
            final(self).labels() == old(self).labels(),
            final(self).options() == old(self).options(),
            final(self).word_positions() == old(self).word_positions(),
            final(self).has_failed() == old(self).has_failed(),
            final(self).progress() == if old(self).has_failed() {
                old(self).progress()
            } else {
                old(self).progress().step(order == CollationOrder::Greater)
            },
            forall|collates_after: spec_fn(Seq<char>, Seq<char>) -> bool|
                #[trigger] old(self).agrees_with(collates_after) && (old(self).is_done() || old(
                    self,
                ).has_failed() || (order == CollationOrder::Greater) == collates_after(
                    old(self).labels()[old(self).pending().0 as int],
                    old(self).labels()[old(self).pending().1 as int],
                )) ==> final(self).agrees_with(collates_after),
    {
        if self.failed {
            return;
        }
        let left_after: bool = match order {
            CollationOrder::Greater => true,
            _ => false,
        };
        proof {
            let before = self.sorter@;
            assert forall|collates_after: spec_fn(Seq<char>, Seq<char>) -> bool|
                #[trigger] self.agrees_with(collates_after) && (self.is_done() || left_after
                    == collates_after(
                    self.labels()[self.pending().0 as int],
                    self.labels()[self.pending().1 as int],
                )) implies before.step(left_after).agrees_with(
                words_order(self.zh_word_vec@, collates_after),
            ) by {
                let after = words_order(self.zh_word_vec@, collates_after);
                if !before.is_done() {
                    lemma_permutation_bound(before.placed, before.placed.len());
                    let pair = before.pending();
                    let words = self.zh_word_vec@;
                    assert(pair.0 < words.len());
                    assert(pair.1 < words.len());
                    assert(words[pair.0 as int].1@ == self.labels()[self.pending().0 as int]);
                    assert(words[pair.1 as int].1@ == self.labels()[self.pending().1 as int]);
                }
                lemma_step_agrees(before, after, left_after);
            }
        }
        self.sorter.answer(left_after);
    }

    /// Reports that the collation service has failed. The session asks for no
    /// further comparison and has no result.
    pub fn fail(&mut self)
        requires
            old(self).wf(),
        ensures
            final(self).wf(),
            final(self).has_failed(),
            final(self).labels() == old(self).labels(),
            final(self).options() == old(self).options(),
            final(self).word_positions() == old(self).word_positions(),
            final(self).progress() == old(self).progress(),
            final(self).order() == old(self).order(),
            forall|collates_after: spec_fn(Seq<char>, Seq<char>) -> bool|
                #[trigger] old(self).agrees_with(collates_after) ==> final(self).agrees_with(
                    collates_after,
                ),
    {
        self.failed = true;
    }

    /// The positions of the labels in display order: for each place of the
    /// output the position that its label had in the input.
    pub fn permutation(&self) -> (order: Result<Vec<usize>, SortError>)
        requires
            self.wf(),
        ensures
            match self.outcome() {
                Ok(expected) => order matches Ok(found) && {
                    &&& found@ == expected
                    &&& is_permutation(found@, self.labels().len())
                    &&& forall|collates_after: spec_fn(Seq<char>, Seq<char>) -> bool|
                        #[trigger] self.agrees_with(collates_after) ==> found@ == display_order(
                            self.labels(),
                            self.options().zh_number_option,
                            collates_after,
                        )
                },
                Err(error) => order == Err::<Vec<usize>, SortError>(error),
            },
    {
        if self.failed {
            return Err(SortError::CollationFailed);
        }
        if !self.sorter.is_done() {
            return Err(SortError::Unfinished);
        }
        let placed = self.sorter.placed();
        let mut order: Vec<usize> = self.head.clone();
        proof {
            lemma_permutation_bound(placed@, placed@.len());
        }
        let mut k: usize = 0;
        while k < placed.len()
            invariant
                k <= placed@.len(),
                placed@.len() == self.zh_word_vec@.len(),
                forall|i: int| 0 <= i < placed@.len() ==> (#[trigger] placed@[i]) < placed@.len(),
                order@ == self.head@ + arrange(self.word_positions(), placed@).take(k as int),
            decreases placed@.len() - k,
        {
            order.push(self.zh_word_vec[placed[k]].0);
            proof {
                let tail = arrange(self.word_positions(), placed@);
                assert(tail.take(k + 1) =~= tail.take(k as int).push(tail[k as int]));
                assert(order@ =~= self.head@ + tail.take(k + 1));
            }
            k = k + 1;
        }
        proof {
            let tail = arrange(self.word_positions(), placed@);
            assert(tail.take(k as int) =~= tail);
            self.lemma_output_is_permutation();
            assert forall|collates_after: spec_fn(Seq<char>, Seq<char>) -> bool|
                #[trigger] self.agrees_with(collates_after) implies order@ == display_order(
                self.labels(),
                self.options().zh_number_option,
                collates_after,
            ) by {
                self.lemma_finished_order(collates_after);
            }
        }
        Ok(order)
    }

    /// The labels in display order: the labels that were handed in, each as
    /// often as it was handed in. There is no result while comparisons are
    /// pending, and none at all after a failure.
    pub fn finish(&self) -> (sorted: Result<Vec<String>, SortError>)
        requires
            self.wf(),
        ensures
            match self.outcome() {
                Ok(_) => sorted matches Ok(found) && {
                    &&& texts(found@) == self.output()
                    &&& found@.len() == self.labels().len()
                    &&& texts(found@).to_multiset() == self.labels().to_multiset()
                    &&& forall|collates_after: spec_fn(Seq<char>, Seq<char>) -> bool|
                        #[trigger] self.agrees_with(collates_after) ==> texts(found@) == displayed(
                            self.labels(),
                            self.options().zh_number_option,
                            collates_after,
                        )
                },
                Err(error) => sorted == Err::<Vec<String>, SortError>(error),
            },
    {
        match self.permutation() {
            Err(error) => Err(error),
            Ok(order) => {
                proof {
                    self.lemma_output_is_permutation();
                    lemma_permutation_bound(order@, self.labels().len());
                }
                let found = pick_labels(&self.labels, &order);
                Ok(found)
            },
        }
    }

    /// Whatever the collation service answered, a finished sort has put the
    /// labels into the stable display order that goes with some order of the
    /// generic words: the one in which it shows them.
    pub proof fn lemma_finished_is_stable(&self) -> (words_after: spec_fn(usize, usize) -> bool)
        requires
            self.wf(),
            self.is_done(),
        ensures
            is_strict_weak_order(words_after),
            is_stable_order(
                self.order(),
                self.labels().len(),
                labels_after(self.labels(), self.options().zh_number_option, words_after),
            ),
    {
        let labels = self.labels();
        let option = self.options.zh_number_option;
        let found = self.word_positions();
        let tail = arrange(found, self.sorter@.placed);
        lemma_arranged_names(found, self.sorter@.placed);
        let words_after = shown_after(tail);
        lemma_shown_order(tail);
        lemma_category_holds_rank(tail, found, labels, option, Category::GenericWord);
        lemma_words_in_display_order(tail, labels, option, words_after);
        lemma_order_without_words(self.head@, labels, option, words_after, no_order(), 3);
        lemma_joined_ranks(self.head@, tail, labels, option, words_after, 0, 3, 4);
        lemma_whole_is_stable_order(self.order(), labels, option, words_after);
        words_after
    }

    /// A finished sort whose every answer was the one that an order of texts
    /// gives has found the display order of the labels under that order.
    pub proof fn lemma_finished_order(&self, collates_after: spec_fn(Seq<char>, Seq<char>) -> bool)
        requires
            self.wf(),
            self.is_done(),
            self.agrees_with(collates_after),
        ensures
            self.order() == display_order(
                self.labels(),
                self.options().zh_number_option,
                collates_after,
            ),
            is_stable_order(
                self.order(),
                self.labels().len(),
                labels_after(
                    self.labels(),
                    self.options().zh_number_option,
                    collation_of(self.labels(), collates_after),
                ),
            ),
    {
        let labels = self.labels();
        let option = self.options.zh_number_option;
        let found = self.word_positions();
        let placed = self.sorter@.placed;
        let tail = arrange(found, placed);
        let keys_after = words_order(self.zh_word_vec@, collates_after);
        let words_after = collation_of(labels, collates_after);
        lemma_collation_is_order(labels, collates_after);
        lemma_done_is_stable_order(self.sorter@, keys_after);
        lemma_arranged_bucket(found, placed, keys_after, words_after);
        lemma_category_holds_rank(tail, found, labels, option, Category::GenericWord);
        lemma_words_in_display_order(tail, labels, option, words_after);
        lemma_order_without_words(self.head@, labels, option, words_after, no_order(), 3);
        lemma_joined_ranks(self.head@, tail, labels, option, words_after, 0, 3, 4);
        lemma_whole_is_stable_order(self.order(), labels, option, words_after);
        lemma_labels_after_is_order(labels, option, words_after);
        lemma_stable_order_is(
            self.order(),
            labels.len(),
            labels_after(labels, option, words_after),
        );
    }

    /// The order of texts that a session agrees with is the strict side of a
    /// total preorder.
    pub proof fn lemma_agreement_is_order(
        &self,
        collates_after: spec_fn(Seq<char>, Seq<char>) -> bool,
    )
        requires
            self.agrees_with(collates_after),
        ensures
            is_strict_weak_order(collates_after),
    {
    }

    /// The output of a finished sort is a permutation of its input: every
    /// position occurs once in the order found, so the output has the length
    /// of the input and holds each label as often as the input does.
    pub proof fn lemma_output_is_permutation(&self)
        requires
            self.wf(),
            self.is_done(),
        ensures
            self.labels().len() <= usize::MAX,
            is_permutation(self.order(), self.labels().len()),
            self.output().len() == self.labels().len(),
            self.output().to_multiset() == self.labels().to_multiset(),
    {
        let words_after = self.lemma_finished_is_stable();
        lemma_arranged_multiset(self.labels(), self.order());
    }
}

/// Picks the labels at the given positions.
fn pick_labels(labels: &Vec<String>, order: &Vec<usize>) -> (picked: Vec<String>)
    requires
        forall|k: int| 0 <= k < order@.len() ==> (#[trigger] order@[k]) < labels@.len(),
    ensures
        texts(picked@) == arrange(texts(labels@), order@),
{
    let mut picked: Vec<String> = Vec::new();
    let mut k: usize = 0;
    while k < order.len()
        invariant
            k <= order@.len(),
            picked@.len() == k,
            forall|i: int| 0 <= i < order@.len() ==> (#[trigger] order@[i]) < labels@.len(),
            forall|i: int| 0 <= i < k ==> picked@[i]@ == labels@[order@[i] as int]@,
        decreases order@.len() - k,
    {
        picked.push(labels[order[k]].clone());
        k = k + 1;
    }
    assert(texts(picked@) =~= arrange(texts(labels@), order@));
    picked
}

} // verus!
