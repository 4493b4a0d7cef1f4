//! Arrangements: what it means for a sequence of indices to put a list into
//! order without disturbing the items that the order does not tell apart, and
//! why there is only one such sequence.

use vstd::prelude::*;

verus! {

/// Whether `after` is the strict side of a total preorder: `after(a, b)` reads
/// "a sorts strictly after b". No two items sort after each other, and not
/// sorting after is transitive.
pub open spec fn is_strict_weak_order<T>(after: spec_fn(T, T) -> bool) -> bool {
    &&& forall|a: T, b: T| #[trigger] after(a, b) ==> !after(b, a)
    &&& forall|a: T, b: T, c: T|
        !(#[trigger] after(a, b)) && !(#[trigger] after(b, c)) ==> !after(a, c)
}

/// Whether every index below `n` occurs in `p` exactly once.
pub open spec fn is_permutation(p: Seq<usize>, n: nat) -> bool {
    &&& p.len() == n
    &&& p.no_duplicates()
    &&& forall|v: usize| v < n <==> #[trigger] p.contains(v)
}

/// The items picked in the given order.
pub open spec fn arrange<T>(items: Seq<T>, order: Seq<usize>) -> Seq<T> {
    Seq::new(order.len(), |k: int| items[order[k] as int])
}

/// Whether item `i` has to stand before item `j`: it sorts strictly before it,
/// or the order does not tell the two apart and `i` came first.
pub open spec fn comes_before(after: spec_fn(usize, usize) -> bool, i: usize, j: usize) -> bool {
    after(j, i) || (!after(i, j) && i < j)
}

/// Whether each item of `s` has to stand before the items that follow it.
pub open spec fn in_stable_order(s: Seq<usize>, after: spec_fn(usize, usize) -> bool) -> bool {
    forall|a: int, b: int|
        0 <= a < b < s.len() ==> comes_before(after, #[trigger] s[a], #[trigger] s[b])
}

/// Whether `p` lists the indices below `n` in stable sorted order.
pub open spec fn is_stable_order(
    p: Seq<usize>,
    n: nat,
    after: spec_fn(usize, usize) -> bool,
) -> bool {
    &&& is_permutation(p, n)
    &&& in_stable_order(p, after)
}

/// The stable sorted order of the indices below `n`.
pub open spec fn stable_order(n: nat, after: spec_fn(usize, usize) -> bool) -> Seq<usize> {
    choose|p: Seq<usize>| is_stable_order(p, n, after)
}

/// The identity arrangement of `n` items.
pub open spec fn identity_order(n: nat) -> Seq<usize> {
    Seq::new(n, |k: int| k as usize)
}

/// Every entry of a permutation is an index below its length.
pub proof fn lemma_permutation_bound(p: Seq<usize>, n: nat)
    requires
        is_permutation(p, n),
    ensures
        forall|k: int| 0 <= k < n ==> (#[trigger] p[k]) < n,
{
    assert forall|k: int| 0 <= k < n implies (#[trigger] p[k]) < n by {
        assert(p.contains(p[k]));
    }
}

/// Items picked in the order of a permutation are the same items, each as
/// often as before.
pub proof fn lemma_arranged_multiset<T>(items: Seq<T>, p: Seq<usize>)
    requires
        items.len() <= usize::MAX,
        is_permutation(p, items.len()),
    ensures
        arrange(items, p).len() == items.len(),
        arrange(items, p).to_multiset() == items.to_multiset(),
    decreases items.len(),
{
    broadcast use vstd::multiset::group_multiset_axioms;

    let n = items.len();
    let picked = arrange(items, p);
    if n == 0 {
        assert(picked =~= items);
    } else {
        let last = (n - 1) as usize;
        assert(p.contains(last));
        let k = choose|k: int| 0 <= k < p.len() && p[k] == last;
        let rest = p.remove(k);
        let fewer = items.drop_last();
        lemma_permutation_bound(p, n);
        assert(is_permutation(rest, fewer.len())) by {
            assert forall|v: usize| v < fewer.len() <==> #[trigger] rest.contains(v) by {
                if v < fewer.len() {
                    assert(p.contains(v));
                    let j = choose|j: int| 0 <= j < p.len() && p[j] == v;
                    let moved = if j < k { j } else { j - 1 };
                    assert(rest[moved] == v);
                }
                if rest.contains(v) {
                    let j = choose|j: int| 0 <= j < rest.len() && rest[j] == v;
                    let from = if j < k { j } else { j + 1 };
                    assert(p[from] == v);
                }
            }
        }
        lemma_permutation_bound(rest, fewer.len());
        lemma_arranged_multiset(fewer, rest);
        assert(arrange(fewer, rest) =~= picked.remove(k));
        vstd::seq_lib::to_multiset_remove(picked, k);
        assert(items =~= fewer.push(items.last()));
        vstd::seq_lib::to_multiset_build(fewer, items.last());
        vstd::seq_lib::to_multiset_contains(picked, picked[k]);
        assert(picked.contains(picked[k]));
        assert(picked.to_multiset() =~= picked.to_multiset().remove(picked[k]).insert(picked[k]));
    }
}

/// Two items cannot each have to stand before the other.
pub proof fn lemma_comes_before_asymmetric(after: spec_fn(usize, usize) -> bool, i: usize, j: usize)
    requires
        is_strict_weak_order(after),
        comes_before(after, i, j),
    ensures
        !comes_before(after, j, i),
        !after(i, j),
{
}

/// A sequence in stable order names no item twice.
pub proof fn lemma_in_stable_order_no_duplicates(
    s: Seq<usize>,
    after: spec_fn(usize, usize) -> bool,
)
    requires
        is_strict_weak_order(after),
        in_stable_order(s, after),
    ensures
        s.no_duplicates(),
{
    assert forall|a: int, b: int| 0 <= a < s.len() && 0 <= b < s.len() && a != b implies s[a]
        != s[b] by {
        if a < b {
            assert(comes_before(after, s[a], s[b]));
        } else {
            assert(comes_before(after, s[b], s[a]));
        }
    }
}

/// Two sequences in stable order, the items of the first standing before
/// those of the second, are in stable order one after the other.
pub proof fn lemma_joined_in_stable_order(
    first: Seq<usize>,
    second: Seq<usize>,
    after: spec_fn(usize, usize) -> bool,
)
    requires
        in_stable_order(first, after),
        in_stable_order(second, after),
        forall|a: int, b: int|
            0 <= a < first.len() && 0 <= b < second.len() ==> comes_before(
                after,
                #[trigger] first[a],
                #[trigger] second[b],
            ),
    ensures
        in_stable_order(first + second, after),
{
    let joined = first + second;
    assert forall|a: int, b: int| 0 <= a < b < joined.len() implies comes_before(
        after,
        #[trigger] joined[a],
        #[trigger] joined[b],
    ) by {
        if b < first.len() {
            assert(joined[a] == first[a] && joined[b] == first[b]);
        } else if a < first.len() {
            assert(joined[a] == first[a] && joined[b] == second[b - first.len()]);
        } else {
            assert(joined[a] == second[a - first.len()] && joined[b] == second[b - first.len()]);
        }
    }
}

/// In a sequence in stable order no item sorts after a later one.
pub proof fn lemma_stable_never_after(
    s: Seq<usize>,
    after: spec_fn(usize, usize) -> bool,
    a: int,
    b: int,
)
    requires
        is_strict_weak_order(after),
        in_stable_order(s, after),
        0 <= a < b < s.len(),
    ensures
        !after(s[a], s[b]),
{
    lemma_comes_before_asymmetric(after, s[a], s[b]);
}

/// In a sequence in stable order an item that sorts after another stands
/// after it.
pub proof fn lemma_stable_larger_later(
    s: Seq<usize>,
    after: spec_fn(usize, usize) -> bool,
    a: int,
    b: int,
)
    requires
        is_strict_weak_order(after),
        in_stable_order(s, after),
        0 <= a < s.len(),
        0 <= b < s.len(),
        after(s[b], s[a]),
    ensures
        a < b,
{
    if b < a {
        lemma_stable_never_after(s, after, b, a);
    }
}

/// In a sequence in stable order, of two items that the order does not tell
/// apart the one that came first stands first.
pub proof fn lemma_stable_keeps_ties(
    s: Seq<usize>,
    after: spec_fn(usize, usize) -> bool,
    a: int,
    b: int,
)
    requires
        is_strict_weak_order(after),
        in_stable_order(s, after),
        0 <= a < s.len(),
        0 <= b < s.len(),
        !after(s[a], s[b]),
        !after(s[b], s[a]),
        s[a] < s[b],
    ensures
        a < b,
{
    if b < a {
        assert(comes_before(after, s[b], s[a]));
    }
}

/// The order in which a sequence shows its items: an item sorts after another
/// if it stands after it.
pub open spec fn shown_after(s: Seq<usize>) -> spec_fn(usize, usize) -> bool {
    |i: usize, j: usize| s.index_of(i) > s.index_of(j)
}

/// A sequence without repetitions is in the stable order that it shows, and
/// that order is the strict side of a total preorder.
pub proof fn lemma_shown_order(s: Seq<usize>)
    requires
        s.no_duplicates(),
    ensures
        is_strict_weak_order(shown_after(s)),
        in_stable_order(s, shown_after(s)),
{
    let after = shown_after(s);
    assert forall|a: int, b: int| 0 <= a < b < s.len() implies comes_before(
        after,
        #[trigger] s[a],
        #[trigger] s[b],
    ) by {
        let ia = s.index_of(s[a]);
        let ib = s.index_of(s[b]);
        assert(0 <= ia < s.len() && s[ia] == s[a]);
        assert(0 <= ib < s.len() && s[ib] == s[b]);
    }
}

/// There is at most one stable sorted order.
pub proof fn lemma_stable_order_unique(
    p: Seq<usize>,
    q: Seq<usize>,
    n: nat,
    after: spec_fn(usize, usize) -> bool,
)
    requires
        is_strict_weak_order(after),
        is_stable_order(p, n, after),
        is_stable_order(q, n, after),
    ensures
        p == q,
{
    assert forall|k: int| 0 <= k < n implies p[k] == q[k] by {
        lemma_same_prefix(p, q, n, after, k);
    }
    assert(p =~= q);
}

proof fn lemma_same_prefix(
    p: Seq<usize>,
    q: Seq<usize>,
    n: nat,
    after: spec_fn(usize, usize) -> bool,
    k: int,
)
    requires
        is_strict_weak_order(after),
        is_stable_order(p, n, after),
        is_stable_order(q, n, after),
        0 <= k < n,
    ensures
        p[k] == q[k],
    decreases k,
{
    assert forall|j: int| 0 <= j < k implies p[j] == q[j] by {
        lemma_same_prefix(p, q, n, after, j);
    }
    let x = p[k];
    let y = q[k];
    if x != y {
        assert(p.contains(x));
        assert(q.contains(x));
        let j = choose|j: int| 0 <= j < q.len() && q[j] == x;
        assert(p.contains(y)) by {
            assert(q.contains(y));
        }
        let i = choose|i: int| 0 <= i < p.len() && p[i] == y;
        assert(j > k) by {
            if j < k {
                assert(p[j] == q[j]);
            }
        }
        assert(i > k) by {
            if i < k {
                assert(p[i] == q[i]);
            }
        }
        assert(comes_before(after, q[k], q[j]));
        assert(comes_before(after, p[k], p[i]));
        lemma_comes_before_asymmetric(after, x, y);
    }
}

/// The stable sorted order is the arrangement that any stable sort finds.
pub proof fn lemma_stable_order_is(p: Seq<usize>, n: nat, after: spec_fn(usize, usize) -> bool)
    requires
        is_strict_weak_order(after),
        is_stable_order(p, n, after),
    ensures
        stable_order(n, after) == p,
{
    lemma_stable_order_unique(stable_order(n, after), p, n, after);
}

/// The identity is a permutation.
pub proof fn lemma_identity_is_permutation(n: nat)
    requires
        n <= usize::MAX,
    ensures
        is_permutation(identity_order(n), n),
{
    let id = identity_order(n);
    assert forall|v: usize| v < n <==> #[trigger] id.contains(v) by {
        if v < n {
            assert(id[v as int] == v);
        }
    }
}

/// A list in which no item sorts after a later one is already in stable
/// sorted order.
pub proof fn lemma_sorted_keeps_order(n: nat, after: spec_fn(usize, usize) -> bool)
    requires
        n <= usize::MAX,
        is_strict_weak_order(after),
        forall|a: usize, b: usize| a < b < n ==> !#[trigger] after(a, b),
    ensures
        stable_order(n, after) == identity_order(n),
{
    lemma_identity_is_permutation(n);
    lemma_stable_order_is(identity_order(n), n, after);
}

} // verus!
