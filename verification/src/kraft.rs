use vstd::prelude::*;
use vstd::arithmetic::power2::{lemma_pow2_adds, lemma_pow2_pos, lemma_pow2_unfold, pow2};
use crate::sums::{
    lemma_sum_insert, lemma_sum_nonnegative, lemma_sum_one, lemma_sum_split, lemma_sum_update, sum,
};

verus! {

/// For each length its share of the code space below `bound` bits: a code
/// of `l` bits takes up `2^(bound - l)` of the `2^bound` words of `bound`
/// bits.
pub open spec fn kraft_terms(lengths: Seq<int>, bound: nat) -> Seq<int> {
    lengths.map_values(|l: int| pow2((bound - l) as nat) as int)
}

/// The code space that codes of the given lengths take up.
pub open spec fn kraft(lengths: Seq<int>, bound: nat) -> int {
    sum(kraft_terms(lengths, bound))
}

/// Kraft's inequality: codes of these lengths, none above `bound`, do not
/// take up more code space than there is.
pub open spec fn fits(lengths: Seq<int>, bound: nat) -> bool {
    &&& forall|i: int| 0 <= i < lengths.len() ==> 0 <= #[trigger] lengths[i] <= bound
    &&& kraft(lengths, bound) <= pow2(bound)
}

/// Codes take up no less than nothing.
pub proof fn lemma_kraft_nonnegative(lengths: Seq<int>, bound: nat)
    ensures
        kraft(lengths, bound) >= 0,
{
    lemma_sum_nonnegative(kraft_terms(lengths, bound));
}

/// A code whose length changes gives back its old share and takes its new
/// one.
pub proof fn lemma_kraft_update(lengths: Seq<int>, bound: nat, j: int, l: int)
    requires
        0 <= j < lengths.len(),
    ensures
        kraft(lengths.update(j, l), bound) == kraft(lengths, bound) - pow2(
            (bound - lengths[j]) as nat,
        ) + pow2((bound - l) as nat),
{
    let terms = kraft_terms(lengths, bound);
    assert(kraft_terms(lengths.update(j, l), bound) =~= terms.update(
        j,
        pow2((bound - l) as nat) as int,
    ));
    lemma_sum_update(terms, j, pow2((bound - l) as nat) as int);
}

/// A further code adds its share.
pub proof fn lemma_kraft_insert(lengths: Seq<int>, bound: nat, p: int, l: int)
    requires
        0 <= p <= lengths.len(),
    ensures
        kraft(lengths.insert(p, l), bound) == kraft(lengths, bound) + pow2((bound - l) as nat),
{
    let terms = kraft_terms(lengths, bound);
    assert(kraft_terms(lengths.insert(p, l), bound) =~= terms.insert(
        p,
        pow2((bound - l) as nat) as int,
    ));
    lemma_sum_insert(terms, p, pow2((bound - l) as nat) as int);
}

/// The code space taken is that of the first two codes and that of the
/// rest.
pub proof fn lemma_kraft_head(lengths: Seq<int>, bound: nat)
    requires
        lengths.len() >= 2,
    ensures
        kraft(lengths, bound) == pow2((bound - lengths[0]) as nat) + pow2(
            (bound - lengths[1]) as nat,
        ) + kraft(lengths.skip(2), bound),
{
    let s = kraft_terms(lengths, bound);
    lemma_sum_split(s, 2);
    lemma_sum_split(s.take(2), 1);
    assert(s.take(2).take(1) =~= seq![s[0]]);
    assert(s.take(2).skip(1) =~= seq![s[1]]);
    lemma_sum_one(s[0]);
    lemma_sum_one(s[1]);
    assert(s.skip(2) =~= kraft_terms(lengths.skip(2), bound));
}

/// Measured against a larger bound, codes take up the same share of the
/// code space.
pub proof fn lemma_kraft_scale(lengths: Seq<int>, bound: nat, inner: nat)
    requires
        inner <= bound,
        forall|i: int| 0 <= i < lengths.len() ==> 0 <= #[trigger] lengths[i] <= inner,
    ensures
        kraft(lengths, bound) == pow2((bound - inner) as nat) * kraft(lengths, inner),
    decreases lengths.len(),
{
    let factor = pow2((bound - inner) as nat) as int;
    if lengths.len() == 0 {
        assert(kraft(lengths, bound) == 0);
        assert(kraft(lengths, inner) == 0);
        assert(factor * 0 == 0);
    } else {
        let front = lengths.drop_last();
        let l = lengths.last();
        lemma_kraft_scale(front, bound, inner);
        assert(kraft_terms(lengths, bound).drop_last() =~= kraft_terms(front, bound));
        assert(kraft_terms(lengths, inner).drop_last() =~= kraft_terms(front, inner));
        lemma_pow2_adds((bound - inner) as nat, (inner - l) as nat);
        let a = kraft(front, inner);
        let b = pow2((inner - l) as nat) as int;
        assert(factor * (a + b) == factor * a + factor * b) by (nonlinear_arith);
    }
}

/// Where a single code is longer than all others, it can lose its last bit
/// and the codes still fit.
pub proof fn lemma_shorten(lengths: Seq<int>, bound: nat, j: int)
    requires
        fits(lengths, bound),
        0 <= j < lengths.len(),
        lengths[j] >= 1,
        forall|i: int| 0 <= i < lengths.len() && i != j ==> #[trigger] lengths[i] < lengths[j],
    ensures
        fits(lengths.update(j, lengths[j] - 1), bound),
{
    let longest = lengths[j];
    let inner = (longest - 1) as nat;
    let shorter = lengths.update(j, longest - 1);
    lemma_kraft_update(lengths, bound, j, longest - 1);
    lemma_kraft_scale(shorter, bound, inner);
    let step = pow2((bound - inner) as nat) as int;
    let half = pow2((bound - longest) as nat) as int;
    lemma_pow2_unfold((bound - inner) as nat);
    lemma_pow2_pos((bound - longest) as nat);
    lemma_pow2_adds((bound - inner) as nat, inner);
    let a = kraft(shorter, inner);
    let b = pow2(inner) as int;
    // step * a == kraft(lengths) + half <= step * b + half < step * (b + 1)
    assert(step * a <= step * b) by (nonlinear_arith)
        requires
            step * a <= step * b + half,
            step == 2 * half,
            half > 0,
    ;
}

/// No word of the family is the beginning of another.
pub open spec fn parted(words: Seq<Seq<bool>>) -> bool {
    forall|i: int, j: int|
        0 <= i < words.len() && 0 <= j < words.len() && i != j ==> !(#[trigger] words[i]).is_prefix_of(
            #[trigger] words[j],
        )
}

/// The lengths of the words of a family.
pub open spec fn lengths_of(words: Seq<Seq<bool>>) -> Seq<int> {
    words.map_values(|w: Seq<bool>| w.len() as int)
}

/// The words of the family that begin with `bit`, each without that bit.
pub open spec fn branch(words: Seq<Seq<bool>>, bit: bool) -> Seq<Seq<bool>>
    decreases words.len(),
{
    if words.len() == 0 {
        Seq::empty()
    } else {
        let front = branch(words.drop_last(), bit);
        if words.last().len() > 0 && words.last()[0] == bit {
            front.push(words.last().skip(1))
        } else {
            front
        }
    }
}

/// The place in `words` of the word that became word `k` of its branch.
pub open spec fn origin(words: Seq<Seq<bool>>, bit: bool, k: int) -> int
    decreases words.len(),
{
    if words.len() == 0 {
        0
    } else if k < branch(words.drop_last(), bit).len() {
        origin(words.drop_last(), bit, k)
    } else {
        words.len() - 1
    }
}

/// A word of a branch comes from a word of the family that begins with
/// the branch's bit, and later words of the branch come from later words.
proof fn lemma_origin(words: Seq<Seq<bool>>, bit: bool, k: int)
    requires
        0 <= k < branch(words, bit).len(),
    ensures
        0 <= origin(words, bit, k) < words.len(),
        words[origin(words, bit, k)].len() > 0,
        words[origin(words, bit, k)][0] == bit,
        words[origin(words, bit, k)].skip(1) == branch(words, bit)[k],
        forall|h: int| 0 <= h < k ==> origin(words, bit, h) < origin(words, bit, k),
    decreases words.len(),
{
    if words.len() > 0 {
        let front = branch(words.drop_last(), bit);
        if k < front.len() {
            lemma_origin(words.drop_last(), bit, k);
            assert forall|h: int| 0 <= h < k implies origin(words, bit, h) < origin(
                words,
                bit,
                k,
            ) by {
                assert(origin(words, bit, h) == origin(words.drop_last(), bit, h));
            }
        } else {
            assert forall|h: int| 0 <= h < k implies origin(words, bit, h) < origin(
                words,
                bit,
                k,
            ) by {
                lemma_origin(words.drop_last(), bit, h);
            }
        }
    }
}

/// A branch of a family in which no word begins another is such a family
/// again, with words that are shorter by one bit.
proof fn lemma_branch_parted(words: Seq<Seq<bool>>, bit: bool, bound: nat)
    requires
        parted(words),
        bound >= 1,
        forall|i: int| 0 <= i < words.len() ==> (#[trigger] words[i]).len() <= bound,
    ensures
        parted(branch(words, bit)),
        forall|k: int|
            0 <= k < branch(words, bit).len() ==> (#[trigger] branch(words, bit)[k]).len() <= bound
                - 1,
{
    let sub = branch(words, bit);
    assert forall|k: int| 0 <= k < sub.len() implies (#[trigger] sub[k]).len() <= bound - 1 by {
        lemma_origin(words, bit, k);
        assert(words[origin(words, bit, k)].len() <= bound);
    }
    assert forall|i: int, j: int| 0 <= i < sub.len() && 0 <= j < sub.len() && i != j implies !(
    #[trigger] sub[i]).is_prefix_of(#[trigger] sub[j]) by {
        lemma_origin(words, bit, i);
        lemma_origin(words, bit, j);
        let a = origin(words, bit, i);
        let b = origin(words, bit, j);
        assert(a != b);
        if sub[i].is_prefix_of(sub[j]) {
            assert(words[a] =~= seq![bit] + sub[i]);
            assert(words[b] =~= seq![bit] + sub[j]);
            assert(words[a] =~= words[b].subrange(0, words[a].len() as int));
            assert(words[a].is_prefix_of(words[b]));
        }
    }
}

/// Words that are not empty take up the code space of their two branches.
proof fn lemma_branch_kraft(words: Seq<Seq<bool>>, bound: nat)
    requires
        bound >= 1,
        forall|i: int| 0 <= i < words.len() ==> 1 <= (#[trigger] words[i]).len() <= bound,
    ensures
        kraft(lengths_of(words), bound) == kraft(
            lengths_of(branch(words, false)),
            (bound - 1) as nat,
        ) + kraft(lengths_of(branch(words, true)), (bound - 1) as nat),
    decreases words.len(),
{
    let inner = (bound - 1) as nat;
    if words.len() == 0 {
        assert(kraft_terms(lengths_of(words), bound) =~= Seq::<int>::empty());
        assert(kraft_terms(lengths_of(branch(words, false)), inner) =~= Seq::<int>::empty());
        assert(kraft_terms(lengths_of(branch(words, true)), inner) =~= Seq::<int>::empty());
    } else {
        let front = words.drop_last();
        let last = words.last();
        lemma_branch_kraft(front, bound);
        assert(kraft_terms(lengths_of(words), bound).drop_last() =~= kraft_terms(
            lengths_of(front),
            bound,
        ));
        let bit = last[0];
        let grown = branch(words, bit);
        assert(grown == branch(front, bit).push(last.skip(1)));
        assert(branch(words, !bit) == branch(front, !bit));
        assert(kraft_terms(lengths_of(grown), inner).drop_last() =~= kraft_terms(
            lengths_of(branch(front, bit)),
            inner,
        ));
        assert(kraft_terms(lengths_of(grown), inner).last() == pow2(
            (inner - (last.len() - 1)) as nat,
        ));
    }
}

/// Kraft's inequality: words of which none begins another fit into the
/// code space.
pub proof fn lemma_parted_fits(words: Seq<Seq<bool>>, bound: nat)
    requires
        parted(words),
        forall|i: int| 0 <= i < words.len() ==> (#[trigger] words[i]).len() <= bound,
    ensures
        fits(lengths_of(words), bound),
    decreases bound,
{
    let lengths = lengths_of(words);
    assert forall|i: int| 0 <= i < lengths.len() implies 0 <= #[trigger] lengths[i] <= bound by {
        assert(words[i].len() <= bound);
    }
    if words.len() == 0 {
        assert(kraft_terms(lengths, bound) =~= Seq::<int>::empty());
    } else if exists|i: int| 0 <= i < words.len() && (#[trigger] words[i]).len() == 0 {
        let i = choose|i: int| 0 <= i < words.len() && (#[trigger] words[i]).len() == 0;
        if words.len() >= 2 {
            let j = if i == 0 { 1int } else { 0int };
            assert(words[i] =~= words[j].subrange(0, 0));
            assert(words[i].is_prefix_of(words[j]));
        }
        assert(kraft_terms(lengths, bound) =~= seq![pow2(bound) as int]);
        lemma_sum_one(pow2(bound) as int);
    } else {
        assert forall|i: int| 0 <= i < words.len() implies 1 <= (#[trigger] words[i]).len()
            <= bound by {}
        assert(words[0].len() >= 1);
        let inner = (bound - 1) as nat;
        lemma_branch_kraft(words, bound);
        lemma_branch_parted(words, false, bound);
        lemma_branch_parted(words, true, bound);
        lemma_parted_fits(branch(words, false), inner);
        lemma_parted_fits(branch(words, true), inner);
        lemma_pow2_unfold(bound);
    }
}

} // verus!
