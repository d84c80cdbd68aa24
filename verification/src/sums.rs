//! Sums of an integer-valued measure over a sequence, with the lemmas the
//! aggregator needs: a sum is unchanged under permutation of the sequence,
//! grows with the measure, and bounds each of its summands.

use vstd::prelude::*;
use vstd::seq_lib::group_to_multiset_ensures;

verus! {

/// The sum of `f` over the elements of `s`.
pub open spec fn seq_sum<A>(s: Seq<A>, f: spec_fn(A) -> int) -> int
    decreases s.len(),
{
    if s.len() == 0 {
        0
    } else {
        seq_sum(s.drop_last(), f) + f(s.last())
    }
}

/// Taking one more element adds its measure to the sum of the prefix.
pub proof fn lemma_seq_sum_take_succ<A>(s: Seq<A>, f: spec_fn(A) -> int, k: int)
    requires
        0 <= k < s.len(),
    ensures
        seq_sum(s.take(k + 1), f) == seq_sum(s.take(k), f) + f(s[k]),
{
    assert(s.take(k + 1).drop_last() =~= s.take(k));
    assert(s.take(k + 1).last() == s[k]);
}

/// Removing an element takes exactly its measure out of the sum.
pub proof fn lemma_seq_sum_remove<A>(s: Seq<A>, f: spec_fn(A) -> int, i: int)
    requires
        0 <= i < s.len(),
    ensures
        seq_sum(s, f) == seq_sum(s.remove(i), f) + f(s[i]),
    decreases s.len(),
{
    if i == s.len() - 1 {
        assert(s.remove(i) =~= s.drop_last());
    } else {
        assert(s.remove(i).drop_last() =~= s.drop_last().remove(i));
        assert(s.remove(i).last() == s.last());
        lemma_seq_sum_remove(s.drop_last(), f, i);
        assert(s.drop_last()[i] == s[i]);
    }
}

/// The sum depends only on which elements occur, not on their order: two
/// sequences with the same multiset of elements have the same sum.
pub proof fn lemma_seq_sum_permutation<A>(a: Seq<A>, b: Seq<A>, f: spec_fn(A) -> int)
    requires
        a.to_multiset() == b.to_multiset(),
    ensures
        seq_sum(a, f) == seq_sum(b, f),
    decreases a.len(),
{
    broadcast use group_to_multiset_ensures;

    if a.len() == 0 {
        assert(b.to_multiset().len() == 0);
        assert(b.len() == 0);
    } else {
        let x = a.last();
        let la = a.len() - 1;
        assert(a.contains(x));
        assert(a.to_multiset().count(x) > 0);
        assert(b.to_multiset().count(x) > 0);
        assert(b.contains(x));
        let j = choose|j: int| 0 <= j < b.len() && b[j] == x;
        assert(a.drop_last() =~= a.remove(la));
        assert(a.remove(la).to_multiset() =~= a.to_multiset().remove(x));
        assert(b.remove(j).to_multiset() =~= b.to_multiset().remove(x));
        lemma_seq_sum_remove(b, f, j);
        lemma_seq_sum_permutation(a.drop_last(), b.remove(j), f);
    }
}

/// Appending one element adds its measure to the sum.
pub proof fn lemma_seq_sum_push<A>(s: Seq<A>, f: spec_fn(A) -> int, x: A)
    ensures
        seq_sum(s.push(x), f) == seq_sum(s, f) + f(x),
{
    assert(s.push(x).drop_last() =~= s);
    assert(s.push(x).last() == x);
}

/// Replacing one element swaps its measure inside the sum.
pub proof fn lemma_seq_sum_update<A>(s: Seq<A>, f: spec_fn(A) -> int, i: int, x: A)
    requires
        0 <= i < s.len(),
    ensures
        seq_sum(s.update(i, x), f) == seq_sum(s, f) - f(s[i]) + f(x),
    decreases s.len(),
{
    if i == s.len() - 1 {
        assert(s.update(i, x).drop_last() =~= s.drop_last());
        assert(s.update(i, x).last() == x);
    } else {
        assert(s.update(i, x).drop_last() =~= s.drop_last().update(i, x));
        assert(s.update(i, x).last() == s.last());
        lemma_seq_sum_update(s.drop_last(), f, i, x);
        assert(s.drop_last()[i] == s[i]);
    }
}

/// A sum over a concatenation splits into the two sums.
pub proof fn lemma_seq_sum_concat<A>(a: Seq<A>, b: Seq<A>, f: spec_fn(A) -> int)
    ensures
        seq_sum(a + b, f) == seq_sum(a, f) + seq_sum(b, f),
    decreases b.len(),
{
    if b.len() == 0 {
        assert(a + b =~= a);
    } else {
        assert((a + b).drop_last() =~= a + b.drop_last());
        assert((a + b).last() == b.last());
        lemma_seq_sum_concat(a, b.drop_last(), f);
    }
}

/// A pointwise bound on the measure carries over to the sums.
pub proof fn lemma_seq_sum_le<A>(s: Seq<A>, f: spec_fn(A) -> int, g: spec_fn(A) -> int)
    requires
        forall|i: int| 0 <= i < s.len() ==> f(s[i]) <= g(s[i]),
    ensures
        seq_sum(s, f) <= seq_sum(s, g),
    decreases s.len(),
{
    if s.len() > 0 {
        lemma_seq_sum_le(s.drop_last(), f, g);
        assert(forall|i: int| 0 <= i < s.drop_last().len() ==> s.drop_last()[i] == s[i]);
    }
}

/// A sum of a nonnegative measure is nonnegative.
pub proof fn lemma_seq_sum_nonneg<A>(s: Seq<A>, f: spec_fn(A) -> int)
    requires
        forall|i: int| 0 <= i < s.len() ==> f(s[i]) >= 0,
    ensures
        seq_sum(s, f) >= 0,
    decreases s.len(),
{
    if s.len() > 0 {
        lemma_seq_sum_nonneg(s.drop_last(), f);
        assert(forall|i: int| 0 <= i < s.drop_last().len() ==> s.drop_last()[i] == s[i]);
    }
}

/// Under a nonnegative measure, a prefix sums to no more than the whole.
pub proof fn lemma_seq_sum_take_le<A>(s: Seq<A>, f: spec_fn(A) -> int, k: int)
    requires
        0 <= k <= s.len(),
        forall|i: int| 0 <= i < s.len() ==> f(s[i]) >= 0,
    ensures
        seq_sum(s.take(k), f) <= seq_sum(s, f),
    decreases s.len() - k,
{
    if k == s.len() {
        assert(s.take(k) =~= s);
    } else {
        lemma_seq_sum_take_succ(s, f, k);
        lemma_seq_sum_take_le(s, f, k + 1);
    }
}

/// Under a nonnegative measure, one summand is at most the whole sum.
pub proof fn lemma_seq_sum_element_le<A>(s: Seq<A>, f: spec_fn(A) -> int, i: int)
    requires
        0 <= i < s.len(),
        forall|j: int| 0 <= j < s.len() ==> f(s[j]) >= 0,
    ensures
        f(s[i]) <= seq_sum(s, f),
{
    lemma_seq_sum_remove(s, f, i);
    assert(forall|j: int| 0 <= j < s.remove(i).len() ==> f(#[trigger] s.remove(i)[j]) >= 0);
    lemma_seq_sum_nonneg(s.remove(i), f);
}

/// A measure that never exceeds one sums to at most the length.
pub proof fn lemma_seq_sum_le_len<A>(s: Seq<A>, f: spec_fn(A) -> int)
    requires
        forall|i: int| 0 <= i < s.len() ==> f(s[i]) <= 1,
    ensures
        seq_sum(s, f) <= s.len(),
    decreases s.len(),
{
    if s.len() > 0 {
        lemma_seq_sum_le_len(s.drop_last(), f);
        assert(forall|i: int| 0 <= i < s.drop_last().len() ==> s.drop_last()[i] == s[i]);
    }
}

} // verus!
