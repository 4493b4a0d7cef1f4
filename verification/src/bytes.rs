//! The ordinal order of texts: the lexicographic order of their bytes in
//! UTF-8.

use vstd::prelude::*;
use vstd::utf8::encode_utf8;

verus! {

/// Whether the bytes `a` sort strictly after the bytes `b`: at the first place
/// where the two differ `a` has the larger byte, or `b` is a proper prefix of
/// `a`.
pub open spec fn bytes_after(a: Seq<u8>, b: Seq<u8>) -> bool
    decreases a.len(),
{
    if a.len() == 0 {
        false
    } else if b.len() == 0 {
        true
    } else if a[0] != b[0] {
        a[0] > b[0]
    } else {
        bytes_after(a.drop_first(), b.drop_first())
    }
}

/// Whether the text `a` sorts strictly after the text `b` in ordinal order.
pub open spec fn text_after(a: Seq<char>, b: Seq<char>) -> bool {
    bytes_after(encode_utf8(a), encode_utf8(b))
}

/// No two byte strings sort after each other.
pub proof fn lemma_bytes_after_asymmetric(a: Seq<u8>, b: Seq<u8>)
    requires
        bytes_after(a, b),
    ensures
        !bytes_after(b, a),
    decreases a.len(),
{
    if a.len() > 0 && b.len() > 0 && a[0] == b[0] {
        lemma_bytes_after_asymmetric(a.drop_first(), b.drop_first());
    }
}

/// Not sorting after is transitive.
pub proof fn lemma_bytes_not_after_transitive(a: Seq<u8>, b: Seq<u8>, c: Seq<u8>)
    requires
        !bytes_after(a, b),
        !bytes_after(b, c),
    ensures
        !bytes_after(a, c),
    decreases a.len(),
{
    if a.len() > 0 && b.len() > 0 && c.len() > 0 && a[0] == b[0] && b[0] == c[0] {
        lemma_bytes_not_after_transitive(a.drop_first(), b.drop_first(), c.drop_first());
    }
}

/// No text sorts after itself.
pub proof fn lemma_text_not_after_itself(a: Seq<char>)
    ensures
        !text_after(a, a),
{
    if text_after(a, a) {
        lemma_bytes_after_asymmetric(encode_utf8(a), encode_utf8(a));
    }
}

/// Past a common prefix, the order of two byte strings is the order of what
/// is left of them.
proof fn lemma_skip_common_prefix(a: Seq<u8>, b: Seq<u8>, k: int)
    requires
        0 <= k <= a.len(),
        k <= b.len(),
        forall|i: int| 0 <= i < k ==> a[i] == b[i],
    ensures
        bytes_after(a, b) == bytes_after(a.skip(k), b.skip(k)),
    decreases k,
{
    if k > 0 {
        let ra = a.drop_first();
        let rb = b.drop_first();
        assert(a[0] == b[0]);
        assert forall|i: int| 0 <= i < k - 1 implies ra[i] == rb[i] by {
            assert(ra[i] == a[i + 1]);
            assert(rb[i] == b[i + 1]);
        }
        lemma_skip_common_prefix(ra, rb, k - 1);
        assert(ra.skip(k - 1) =~= a.skip(k));
        assert(rb.skip(k - 1) =~= b.skip(k));
    } else {
        assert(a.skip(0) =~= a);
        assert(b.skip(0) =~= b);
    }
}

/// Compares two byte strings lexicographically.
pub fn bytes_sort_after(a: &[u8], b: &[u8]) -> (r: bool)
    ensures
        r == bytes_after(a@, b@),
{
    let mut i: usize = 0;
    while i < a.len() && i < b.len()
        invariant
            i <= a@.len(),
            i <= b@.len(),
            forall|k: int| 0 <= k < i ==> a@[k] == b@[k],
        decreases a@.len() - i,
    {
        if a[i] != b[i] {
            proof {
                lemma_skip_common_prefix(a@, b@, i as int);
            }
            return a[i] > b[i];
        }
        i = i + 1;
    }
    proof {
        lemma_skip_common_prefix(a@, b@, i as int);
    }
    i < a.len()
}

/// Compares two texts in ordinal order.
pub fn text_sorts_after(a: &str, b: &str) -> (r: bool)
    ensures
        r == text_after(a@, b@),
{
    bytes_sort_after(a.as_bytes(), b.as_bytes())
}

} // verus!
