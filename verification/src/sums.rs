use vstd::prelude::*;

verus! {

/// The sum of the entries of `s`.
pub open spec fn sum(s: Seq<int>) -> int
    decreases s.len(),
{
    if s.len() == 0 {
        0
    } else {
        sum(s.drop_last()) + s.last()
    }
}

/// The sum of two sequences, one behind the other.
pub proof fn lemma_sum_concat(a: Seq<int>, b: Seq<int>)
    ensures
        sum(a + b) == sum(a) + sum(b),
    decreases b.len(),
{
    if b.len() == 0 {
        assert(a + b =~= a);
    } else {
        assert((a + b).drop_last() =~= a + b.drop_last());
        lemma_sum_concat(a, b.drop_last());
    }
}

/// The sum of a single entry.
pub proof fn lemma_sum_one(x: int)
    ensures
        sum(seq![x]) == x,
{
    reveal_with_fuel(sum, 2);
    assert(seq![x].drop_last() =~= Seq::<int>::empty());
}

/// Splitting a sum at position `i`.
pub proof fn lemma_sum_split(s: Seq<int>, i: int)
    requires
        0 <= i <= s.len(),
    ensures
        sum(s) == sum(s.take(i)) + sum(s.skip(i)),
{
    assert(s =~= s.take(i) + s.skip(i));
    lemma_sum_concat(s.take(i), s.skip(i));
}

/// A further entry adds to the sum.
pub proof fn lemma_sum_insert(s: Seq<int>, i: int, x: int)
    requires
        0 <= i <= s.len(),
    ensures
        sum(s.insert(i, x)) == sum(s) + x,
{
    assert(s.insert(i, x) =~= (s.take(i) + seq![x]) + s.skip(i));
    lemma_sum_concat(s.take(i) + seq![x], s.skip(i));
    lemma_sum_concat(s.take(i), seq![x]);
    lemma_sum_one(x);
    lemma_sum_split(s, i);
}

/// An entry that changes takes its old value out of the sum and puts its
/// new one in.
pub proof fn lemma_sum_update(s: Seq<int>, i: int, x: int)
    requires
        0 <= i < s.len(),
    ensures
        sum(s.update(i, x)) == sum(s) - s[i] + x,
{
    assert(s.update(i, x) =~= (s.take(i) + seq![x]) + s.skip(i + 1));
    lemma_sum_concat(s.take(i) + seq![x], s.skip(i + 1));
    lemma_sum_concat(s.take(i), seq![x]);
    lemma_sum_one(x);
    assert(s =~= (s.take(i) + seq![s[i]]) + s.skip(i + 1));
    lemma_sum_concat(s.take(i) + seq![s[i]], s.skip(i + 1));
    lemma_sum_concat(s.take(i), seq![s[i]]);
    lemma_sum_one(s[i]);
}

/// A sum of entries that are all at least zero is at least each entry.
pub proof fn lemma_sum_bounds(s: Seq<int>, i: int)
    requires
        forall|k: int| 0 <= k < s.len() ==> s[k] >= 0,
        0 <= i < s.len(),
    ensures
        sum(s) >= s[i],
        sum(s) >= 0,
    decreases s.len(),
{
    lemma_sum_nonnegative(s.drop_last());
    if i < s.len() - 1 {
        lemma_sum_bounds(s.drop_last(), i);
    }
}

/// A sum of entries that are all at least zero is at least zero.
pub proof fn lemma_sum_nonnegative(s: Seq<int>)
    requires
        forall|k: int| 0 <= k < s.len() ==> s[k] >= 0,
    ensures
        sum(s) >= 0,
    decreases s.len(),
{
    if s.len() > 0 {
        lemma_sum_nonnegative(s.drop_last());
    }
}

/// The sum of two sequences added entry by entry.
pub proof fn lemma_sum_add(a: Seq<int>, b: Seq<int>, c: Seq<int>)
    requires
        a.len() == b.len(),
        a.len() == c.len(),
        forall|k: int| 0 <= k < a.len() ==> c[k] == a[k] + b[k],
    ensures
        sum(c) == sum(a) + sum(b),
    decreases a.len(),
{
    if a.len() > 0 {
        lemma_sum_add(a.drop_last(), b.drop_last(), c.drop_last());
    }
}

/// A sum of zeros is zero.
pub proof fn lemma_sum_zero(s: Seq<int>)
    requires
        forall|k: int| 0 <= k < s.len() ==> s[k] == 0,
    ensures
        sum(s) == 0,
    decreases s.len(),
{
    if s.len() > 0 {
        lemma_sum_zero(s.drop_last());
    }
}

} // verus!
