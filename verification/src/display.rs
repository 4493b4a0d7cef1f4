//! The display order: which of two labels stands first once the buckets are
//! sorted and put one after the other.

use vstd::prelude::*;
use crate::bytes::{lemma_bytes_after_asymmetric, lemma_bytes_not_after_transitive, text_after};
use crate::classify::{category_of, lists_category, value_of, Category};
use crate::options::ZhNumberOption;
use crate::order::{
    arrange, comes_before, in_stable_order, is_permutation, is_stable_order, is_strict_weak_order,
    lemma_in_stable_order_no_duplicates, lemma_joined_in_stable_order, lemma_permutation_bound,
    lemma_sorted_keeps_order, lemma_stable_never_after, stable_order,
};
use crate::sorter::lemma_stable_order_exists;

verus! {

/// The place of a bucket in the output: the ASCII words first, then the two
/// numeral buckets, the formal one first only where the policy says so, then
/// the generic words.
pub open spec fn bucket_rank(category: Category, option: ZhNumberOption) -> int {
    match category {
        Category::AsciiWord => 0,
        Category::UpperNumeral => if option.upper_first() {
            1
        } else {
            2
        },
        Category::LowerNumeral => if option.upper_first() {
            2
        } else {
            1
        },
        Category::GenericWord => 3,
    }
}

/// The display order of the labels at two positions: `i` sorts strictly after
/// `j` if its bucket comes later or, within one bucket, if its key is the
/// larger one. The key is the text in ordinal order for an ASCII word, the
/// value for a numeral, and for a generic word whatever `words_after` says of
/// the two positions.
pub open spec fn labels_after(
    labels: Seq<Seq<char>>,
    option: ZhNumberOption,
    words_after: spec_fn(usize, usize) -> bool,
) -> spec_fn(usize, usize) -> bool {
    |i: usize, j: usize|
        {
            let ci = category_of(labels[i as int], option);
            let cj = category_of(labels[j as int], option);
            bucket_rank(ci, option) > bucket_rank(cj, option) || (ci == cj && match ci {
                Category::AsciiWord => text_after(labels[i as int], labels[j as int]),
                Category::GenericWord => words_after(i, j),
                _ => value_of(labels[i as int]) > value_of(labels[j as int]),
            })
        }
}

/// The rank of the bucket of the label at a position.
pub open spec fn rank_at(labels: Seq<Seq<char>>, option: ZhNumberOption, i: usize) -> int {
    bucket_rank(category_of(labels[i as int], option), option)
}

/// Whether `s` names exactly the positions of the labels whose buckets have a
/// rank from `lo` up to, but not including, `hi`.
pub open spec fn holds_ranks(
    s: Seq<usize>,
    labels: Seq<Seq<char>>,
    option: ZhNumberOption,
    lo: int,
    hi: int,
) -> bool {
    &&& forall|k: int|
        0 <= k < s.len() ==> (#[trigger] s[k]) < labels.len() && lo <= rank_at(
            labels,
            option,
            s[k],
        ) < hi
    &&& forall|i: usize|
        i < labels.len() && lo <= #[trigger] rank_at(labels, option, i) < hi ==> s.contains(i)
}

/// The order that tells no two positions apart.
pub open spec fn no_order() -> spec_fn(usize, usize) -> bool {
    |i: usize, j: usize| false
}

/// The display order of two texts, the generic words ordered by
/// `collates_after`: `a` sorts strictly after `b` if its bucket comes later
/// or, within one bucket, if its key is the larger one.
pub open spec fn sorts_after(
    a: Seq<char>,
    b: Seq<char>,
    option: ZhNumberOption,
    collates_after: spec_fn(Seq<char>, Seq<char>) -> bool,
) -> bool {
    let ca = category_of(a, option);
    let cb = category_of(b, option);
    bucket_rank(ca, option) > bucket_rank(cb, option) || (ca == cb && match ca {
        Category::AsciiWord => text_after(a, b),
        Category::GenericWord => collates_after(a, b),
        _ => value_of(a) > value_of(b),
    })
}

/// The order of positions that an order of texts gives.
pub open spec fn collation_of(
    labels: Seq<Seq<char>>,
    collates_after: spec_fn(Seq<char>, Seq<char>) -> bool,
) -> spec_fn(usize, usize) -> bool {
    |i: usize, j: usize| collates_after(labels[i as int], labels[j as int])
}

/// The positions of the labels in display order, the generic words ordered
/// by `collates_after`: the stable sorted order of the positions by bucket and
/// key.
pub open spec fn display_order(
    labels: Seq<Seq<char>>,
    option: ZhNumberOption,
    collates_after: spec_fn(Seq<char>, Seq<char>) -> bool,
) -> Seq<usize> {
    stable_order(labels.len(), labels_after(labels, option, collation_of(labels, collates_after)))
}

/// The labels in display order, the generic words ordered by
/// `collates_after`.
pub open spec fn displayed(
    labels: Seq<Seq<char>>,
    option: ZhNumberOption,
    collates_after: spec_fn(Seq<char>, Seq<char>) -> bool,
) -> Seq<Seq<char>> {
    arrange(labels, display_order(labels, option, collates_after))
}

/// An order of texts orders the positions of a list of labels.
pub proof fn lemma_collation_is_order(
    labels: Seq<Seq<char>>,
    collates_after: spec_fn(Seq<char>, Seq<char>) -> bool,
)
    requires
        is_strict_weak_order(collates_after),
    ensures
        is_strict_weak_order(collation_of(labels, collates_after)),
{
    let after = collation_of(labels, collates_after);
    assert forall|a: usize, b: usize| #[trigger] after(a, b) implies !after(b, a) by {
        assert(collates_after(labels[a as int], labels[b as int]));
    }
    assert forall|a: usize, b: usize, c: usize|
        !(#[trigger] after(a, b)) && !(#[trigger] after(b, c)) implies !after(a, c) by {
        assert(!collates_after(labels[a as int], labels[b as int]));
        assert(!collates_after(labels[b as int], labels[c as int]));
    }
}

/// The display order is the strict side of a total preorder of the positions
/// whenever the order of the generic words is one.
pub proof fn lemma_labels_after_is_order(
    labels: Seq<Seq<char>>,
    option: ZhNumberOption,
    words_after: spec_fn(usize, usize) -> bool,
)
    requires
        is_strict_weak_order(words_after),
    ensures
        is_strict_weak_order(labels_after(labels, option, words_after)),
{
    let after = labels_after(labels, option, words_after);
    assert forall|a: usize, b: usize| #[trigger] after(a, b) implies !after(b, a) by {
        if text_after(labels[a as int], labels[b as int]) {
            lemma_bytes_after_asymmetric(
                vstd::utf8::encode_utf8(labels[a as int]),
                vstd::utf8::encode_utf8(labels[b as int]),
            );
        }
        if words_after(a, b) {
            assert(!words_after(b, a));
        }
    }
    assert forall|a: usize, b: usize, c: usize|
        !(#[trigger] after(a, b)) && !(#[trigger] after(b, c)) implies !after(a, c) by {
        if !text_after(labels[a as int], labels[b as int]) && !text_after(
            labels[b as int],
            labels[c as int],
        ) {
            lemma_bytes_not_after_transitive(
                vstd::utf8::encode_utf8(labels[a as int]),
                vstd::utf8::encode_utf8(labels[b as int]),
                vstd::utf8::encode_utf8(labels[c as int]),
            );
        }
        if !words_after(a, b) && !words_after(b, c) {
            assert(!words_after(a, c));
        }
    }
}

/// A bucket arranged by a permutation of its entries names the positions that
/// the bucket holds, each once.
pub proof fn lemma_arranged_names(found: Seq<usize>, p: Seq<usize>)
    requires
        found.len() <= usize::MAX,
        forall|a: int, b: int| 0 <= a < b < found.len() ==> found[a] < found[b],
        is_permutation(p, found.len()),
    ensures
        arrange(found, p).len() == found.len(),
        arrange(found, p).no_duplicates(),
        forall|v: usize| arrange(found, p).contains(v) <==> found.contains(v),
{
    let arranged = arrange(found, p);
    lemma_permutation_bound(p, found.len());
    assert forall|a: int, b: int|
        0 <= a < arranged.len() && 0 <= b < arranged.len() && a != b implies arranged[a]
        != arranged[b] by {
        assert(p[a] != p[b]);
        if p[a] < p[b] {
            assert(found[p[a] as int] < found[p[b] as int]);
        } else {
            assert(found[p[b] as int] < found[p[a] as int]);
        }
    }
    assert forall|v: usize| arranged.contains(v) <==> found.contains(v) by {
        if arranged.contains(v) {
            let k = choose|k: int| 0 <= k < arranged.len() && arranged[k] == v;
            assert(found[p[k] as int] == v);
        }
        if found.contains(v) {
            let i = choose|i: int| 0 <= i < found.len() && found[i] == v;
            assert(p.contains(i as usize));
            let k = choose|k: int| 0 <= k < p.len() && p[k] == i as usize;
            assert(arranged[k] == v);
        }
    }
}

/// A bucket whose entries are arranged in the stable order of their keys is
/// in stable display order.
pub proof fn lemma_arranged_bucket(
    found: Seq<usize>,
    p: Seq<usize>,
    keys_after: spec_fn(usize, usize) -> bool,
    after: spec_fn(usize, usize) -> bool,
)
    requires
        found.len() <= usize::MAX,
        forall|a: int, b: int| 0 <= a < b < found.len() ==> found[a] < found[b],
        is_stable_order(p, found.len(), keys_after),
        forall|i: usize, j: usize|
            i < found.len() && j < found.len() ==> #[trigger] keys_after(i, j) == after(
                found[i as int],
                found[j as int],
            ),
    ensures
        arrange(found, p).len() == found.len(),
        in_stable_order(arrange(found, p), after),
        forall|v: usize| arrange(found, p).contains(v) <==> found.contains(v),
{
    let arranged = arrange(found, p);
    lemma_permutation_bound(p, found.len());
    lemma_arranged_names(found, p);
    assert forall|a: int, b: int| 0 <= a < b < arranged.len() implies comes_before(
        after,
        #[trigger] arranged[a],
        #[trigger] arranged[b],
    ) by {
        assert(comes_before(keys_after, p[a], p[b]));
        assert(keys_after(p[b], p[a]) == after(found[p[b] as int], found[p[a] as int]));
        assert(keys_after(p[a], p[b]) == after(found[p[a] as int], found[p[b] as int]));
        if p[a] < p[b] {
            assert(found[p[a] as int] < found[p[b] as int]);
        }
    }
}

/// A sequence that names the labels of one category names the labels of that
/// category's rank.
pub proof fn lemma_category_holds_rank(
    s: Seq<usize>,
    found: Seq<usize>,
    labels: Seq<Seq<char>>,
    option: ZhNumberOption,
    category: Category,
)
    requires
        lists_category(found, labels, option, category, labels.len() as int),
        forall|v: usize| s.contains(v) <==> found.contains(v),
    ensures
        holds_ranks(
            s,
            labels,
            option,
            bucket_rank(category, option),
            bucket_rank(category, option) + 1,
        ),
{
    let rank = bucket_rank(category, option);
    assert forall|k: int| 0 <= k < s.len() implies (#[trigger] s[k]) < labels.len() && rank
        <= rank_at(labels, option, s[k]) < rank + 1 by {
        assert(s.contains(s[k]));
        assert(found.contains(s[k]));
        let i = choose|i: int| 0 <= i < found.len() && found[i] == s[k];
        assert(found[i] < labels.len());
    }
    assert forall|i: usize|
        i < labels.len() && rank <= #[trigger] rank_at(labels, option, i) < rank
            + 1 implies s.contains(i) by {
        assert(category_of(labels[i as int], option) == category);
        assert(found.contains(i));
    }
}

/// Two sequences in stable display order that hold adjoining ranks are in
/// stable display order one after the other, and hold the ranks of both.
pub proof fn lemma_joined_ranks(
    first: Seq<usize>,
    second: Seq<usize>,
    labels: Seq<Seq<char>>,
    option: ZhNumberOption,
    words_after: spec_fn(usize, usize) -> bool,
    lo: int,
    mid: int,
    hi: int,
)
    requires
        lo <= mid <= hi,
        holds_ranks(first, labels, option, lo, mid),
        holds_ranks(second, labels, option, mid, hi),
        in_stable_order(first, labels_after(labels, option, words_after)),
        in_stable_order(second, labels_after(labels, option, words_after)),
    ensures
        holds_ranks(first + second, labels, option, lo, hi),
        in_stable_order(first + second, labels_after(labels, option, words_after)),
{
    let joined = first + second;
    let after = labels_after(labels, option, words_after);
    assert forall|a: int, b: int|
        0 <= a < first.len() && 0 <= b < second.len() implies comes_before(
        after,
        #[trigger] first[a],
        #[trigger] second[b],
    ) by {
        assert(rank_at(labels, option, first[a]) < rank_at(labels, option, second[b]));
    }
    lemma_joined_in_stable_order(first, second, after);
    assert forall|k: int| 0 <= k < joined.len() implies (#[trigger] joined[k]) < labels.len() && lo
        <= rank_at(labels, option, joined[k]) < hi by {
        if k < first.len() {
            assert(joined[k] == first[k]);
        } else {
            assert(joined[k] == second[k - first.len()]);
        }
    }
    assert forall|i: usize|
        i < labels.len() && lo <= #[trigger] rank_at(labels, option, i)
            < hi implies joined.contains(i) by {
        if rank_at(labels, option, i) < mid {
            assert(first.contains(i));
            let k = choose|k: int| 0 <= k < first.len() && first[k] == i;
            assert(joined[k] == i);
        } else {
            assert(second.contains(i));
            let k = choose|k: int| 0 <= k < second.len() && second[k] == i;
            assert(joined[k + first.len()] == i);
        }
    }
}

/// Among labels that are not all generic words, the display order does not
/// depend on the order of the generic words.
pub proof fn lemma_order_without_words(
    s: Seq<usize>,
    labels: Seq<Seq<char>>,
    option: ZhNumberOption,
    words_after: spec_fn(usize, usize) -> bool,
    other_after: spec_fn(usize, usize) -> bool,
    hi: int,
)
    requires
        hi <= 3,
        holds_ranks(s, labels, option, 0, hi),
        in_stable_order(s, labels_after(labels, option, other_after)),
    ensures
        in_stable_order(s, labels_after(labels, option, words_after)),
{
    let after = labels_after(labels, option, words_after);
    let other = labels_after(labels, option, other_after);
    assert forall|a: int, b: int| 0 <= a < b < s.len() implies comes_before(
        after,
        #[trigger] s[a],
        #[trigger] s[b],
    ) by {
        assert(comes_before(other, s[a], s[b]));
        assert(rank_at(labels, option, s[a]) < 3);
        assert(rank_at(labels, option, s[b]) < 3);
    }
}

/// A sequence of generic words in the stable order of `words_after` is in
/// stable display order.
pub proof fn lemma_words_in_display_order(
    s: Seq<usize>,
    labels: Seq<Seq<char>>,
    option: ZhNumberOption,
    words_after: spec_fn(usize, usize) -> bool,
)
    requires
        holds_ranks(s, labels, option, 3, 4),
        in_stable_order(s, words_after),
    ensures
        in_stable_order(s, labels_after(labels, option, words_after)),
{
    let after = labels_after(labels, option, words_after);
    assert forall|a: int, b: int| 0 <= a < b < s.len() implies comes_before(
        after,
        #[trigger] s[a],
        #[trigger] s[b],
    ) by {
        assert(comes_before(words_after, s[a], s[b]));
        assert(rank_at(labels, option, s[a]) == 3);
        assert(rank_at(labels, option, s[b]) == 3);
    }
}

/// A sequence in stable display order that names every position once is the
/// stable sorted order of the labels.
pub proof fn lemma_whole_is_stable_order(
    s: Seq<usize>,
    labels: Seq<Seq<char>>,
    option: ZhNumberOption,
    words_after: spec_fn(usize, usize) -> bool,
)
    requires
        is_strict_weak_order(words_after),
        s.len() == labels.len(),
        holds_ranks(s, labels, option, 0, 4),
        in_stable_order(s, labels_after(labels, option, words_after)),
    ensures
        is_stable_order(s, labels.len(), labels_after(labels, option, words_after)),
{
    let after = labels_after(labels, option, words_after);
    lemma_labels_after_is_order(labels, option, words_after);
    lemma_in_stable_order_no_duplicates(s, after);
    assert forall|v: usize| v < labels.len() <==> #[trigger] s.contains(v) by {
        if v < labels.len() {
            assert(0 <= rank_at(labels, option, v) < 4);
        }
        if s.contains(v) {
            let k = choose|k: int| 0 <= k < s.len() && s[k] == v;
            assert(s[k] < labels.len());
        }
    }
}

/// Labels in display order are in an order in which no label sorts after one
/// that follows it, and putting them into display order once more changes
/// nothing.
pub proof fn lemma_displayed_is_sorted(
    labels: Seq<Seq<char>>,
    option: ZhNumberOption,
    collates_after: spec_fn(Seq<char>, Seq<char>) -> bool,
)
    requires
        labels.len() <= usize::MAX,
        is_strict_weak_order(collates_after),
    ensures
        displayed(labels, option, collates_after).len() == labels.len(),
        forall|a: int, b: int|
            0 <= a < b < labels.len() ==> !sorts_after(
                #[trigger] displayed(labels, option, collates_after)[a],
                #[trigger] displayed(labels, option, collates_after)[b],
                option,
                collates_after,
            ),
        displayed(displayed(labels, option, collates_after), option, collates_after) == displayed(
            labels,
            option,
            collates_after,
        ),
{
    let after = labels_after(labels, option, collation_of(labels, collates_after));
    let order = display_order(labels, option, collates_after);
    let out = displayed(labels, option, collates_after);
    lemma_collation_is_order(labels, collates_after);
    lemma_labels_after_is_order(labels, option, collation_of(labels, collates_after));
    lemma_stable_order_exists(labels.len(), after);
    assert forall|a: int, b: int| 0 <= a < b < labels.len() implies !sorts_after(
        #[trigger] out[a],
        #[trigger] out[b],
        option,
        collates_after,
    ) by {
        lemma_stable_never_after(order, after, a, b);
        assert(after(order[a], order[b]) == sorts_after(out[a], out[b], option, collates_after));
    }
    let again = labels_after(out, option, collation_of(out, collates_after));
    lemma_collation_is_order(out, collates_after);
    lemma_labels_after_is_order(out, option, collation_of(out, collates_after));
    assert forall|a: usize, b: usize| a < b < out.len() implies !#[trigger] again(a, b) by {
        assert(again(a, b) == sorts_after(out[a as int], out[b as int], option, collates_after));
    }
    lemma_sorted_keeps_order(out.len(), again);
    assert(displayed(out, option, collates_after) =~= out);
}

} // verus!
