use vstd::prelude::*;

use crate::bitset::{count_true, lemma_count_true_bounds};

verus! {

/// `a` has no member that `b` lacks.
pub open spec fn subset_bits(a: Seq<bool>, b: Seq<bool>) -> bool {
    a.len() == b.len() && forall|i: int| 0 <= i < a.len() && #[trigger] a[i] ==> b[i]
}

/// A subset has no more members, and a proper subset has fewer.
pub proof fn lemma_subset_count(a: Seq<bool>, b: Seq<bool>)
    requires
        subset_bits(a, b),
    ensures
        count_true(a) <= count_true(b),
        a != b ==> count_true(a) < count_true(b),
    decreases a.len(),
{
    if a.len() > 0 {
        let a2 = a.drop_last();
        let b2 = b.drop_last();
        assert(subset_bits(a2, b2)) by {
            assert forall|i: int| 0 <= i < a2.len() && #[trigger] a2[i] implies b2[i] by {
                assert(a[i]);
            }
        }
        lemma_subset_count(a2, b2);
        if a != b {
            if a2 == b2 {
                assert(a.last() != b.last()) by {
                    if a.last() == b.last() {
                        assert(a =~= b) by {
                            assert forall|i: int| 0 <= i < a.len() implies a[i] == b[i] by {
                                if i < a.len() - 1 {
                                    assert(a2[i] == b2[i]);
                                }
                            }
                        }
                    }
                }
            }
        }
    } else {
        assert(a =~= b);
    }
}

/// The members of all cells, summed.
pub open spec fn total_members(s: Seq<Seq<bool>>) -> nat
    decreases s.len(),
{
    if s.len() == 0 {
        0
    } else {
        total_members(s.drop_last()) + count_true(s.last())
    }
}

/// Replacing one cell changes the sum by the difference of its counts.
pub proof fn lemma_total_update(s: Seq<Seq<bool>>, i: int, v: Seq<bool>)
    requires
        0 <= i < s.len(),
    ensures
        total_members(s.update(i, v)) + count_true(s[i]) == total_members(s) + count_true(v),
    decreases s.len(),
{
    let t = s.update(i, v);
    if i == s.len() - 1 {
        assert(t.drop_last() =~= s.drop_last());
    } else {
        assert(t.drop_last() =~= s.drop_last().update(i, v));
        lemma_total_update(s.drop_last(), i, v);
    }
}

/// Each cell counts towards the sum.
pub proof fn lemma_total_bound(s: Seq<Seq<bool>>, i: int)
    requires
        0 <= i < s.len(),
    ensures
        count_true(s[i]) <= total_members(s),
    decreases s.len(),
{
    if i < s.len() - 1 {
        lemma_total_bound(s.drop_last(), i);
    }
}

/// A sequence that counts no member holds none.
pub proof fn lemma_count_zero(a: Seq<bool>)
    requires
        count_true(a) == 0,
    ensures
        forall|i: int| 0 <= i < a.len() ==> !#[trigger] a[i],
{
    lemma_count_true_bounds(a);
}

/// A sequence whose first `n` entries alone are `true` counts `n`.
pub proof fn lemma_count_prefix(s: Seq<bool>, n: int)
    requires
        0 <= n <= s.len(),
        forall|i: int| 0 <= i < s.len() ==> #[trigger] s[i] == (i < n),
    ensures
        count_true(s) == n,
    decreases s.len(),
{
    if s.len() > 0 {
        let t = s.drop_last();
        if n == s.len() {
            lemma_count_prefix(t, n - 1);
        } else {
            lemma_count_prefix(t, n);
        }
    }
}

} // verus!
