use vstd::prelude::*;
use vstd::arithmetic::power2::{lemma_pow2_pos, lemma_pow2_unfold};
use crate::builder::{huffman_tree, join, leaf, leaf_queue, merged, total_frequency};
use crate::code::Code;
use crate::forest::{
    is_forest, lemma_huffman_tree, lemma_join_step, lemma_leaf_queue_forest, lemma_merged_forest,
};
use crate::kraft::{
    fits, lemma_kraft_head, lemma_kraft_insert, lemma_kraft_nonnegative, lemma_kraft_update,
    lemma_parted_fits, lemma_shorten, lengths_of, parted,
};
use crate::prefix::lemma_table_prefix_free;
use crate::queue::{enqueue, lemma_slot_in_range, slot, sorted};
use crate::sums::{
    lemma_sum_add, lemma_sum_bounds, lemma_sum_insert, lemma_sum_nonnegative, lemma_sum_one,
    lemma_sum_split, lemma_sum_update, lemma_sum_zero, sum,
};
use crate::table::huffman_table;
use crate::tree::Node;

verus! {

/// What each tree of a queue adds to the length of a message when its root
/// stands `lengths[i]` levels deep: its weight for each of those levels,
/// and its own weighted path length.
pub open spec fn bill_terms(queue: Seq<Node>, lengths: Seq<int>) -> Seq<int> {
    Seq::new(queue.len(), |i: int| queue[i].weight() * lengths[i] + queue[i].cost())
}

/// The weighted path length of a code that hangs the trees of a queue at
/// the given depths.
pub open spec fn bill(queue: Seq<Node>, lengths: Seq<int>) -> int {
    sum(bill_terms(queue, lengths))
}

/// A tree that moves to another depth changes the weighted path length by
/// its weight for each level.
proof fn lemma_bill_update(queue: Seq<Node>, lengths: Seq<int>, j: int, l: int)
    requires
        queue.len() == lengths.len(),
        0 <= j < queue.len(),
    ensures
        bill(queue, lengths.update(j, l)) == bill(queue, lengths) + queue[j].weight() * (l
            - lengths[j]),
{
    let terms = bill_terms(queue, lengths);
    let w = queue[j].weight() as int;
    let c = queue[j].cost() as int;
    assert(bill_terms(queue, lengths.update(j, l)) =~= terms.update(j, w * l + c));
    lemma_sum_update(terms, j, w * l + c);
    let k = lengths[j];
    assert(w * (l - k) == w * l - w * k) by (nonlinear_arith);
}

/// Giving the longer of two lengths to the lighter of two trees costs
/// nothing, and the lengths fit as before.
proof fn lemma_swap(queue: Seq<Node>, lengths: Seq<int>, bound: nat, a: int, b: int)
    requires
        queue.len() == lengths.len(),
        0 <= a < queue.len(),
        0 <= b < queue.len(),
        a != b,
        queue[a].weight() <= queue[b].weight(),
        lengths[a] <= lengths[b],
        fits(lengths, bound),
    ensures
        fits(lengths.update(a, lengths[b]).update(b, lengths[a]), bound),
        bill(queue, lengths.update(a, lengths[b]).update(b, lengths[a])) <= bill(queue, lengths),
{
    let first = lengths.update(a, lengths[b]);
    let second = first.update(b, lengths[a]);
    lemma_kraft_update(lengths, bound, a, lengths[b]);
    lemma_kraft_update(first, bound, b, lengths[a]);
    lemma_bill_update(queue, lengths, a, lengths[b]);
    lemma_bill_update(queue, first, b, lengths[a]);
    let wa = queue[a].weight() as int;
    let wb = queue[b].weight() as int;
    let la = lengths[a];
    let lb = lengths[b];
    assert(wa * (lb - la) + wb * (la - lb) <= 0) by (nonlinear_arith)
        requires
            wa <= wb,
            la <= lb,
    ;
}

/// Where the greatest length `top` stands at two places, the lengths can be
/// rearranged, at no cost, so that it stands at the two lightest trees.
proof fn lemma_deepest_pair(
    queue: Seq<Node>,
    lengths: Seq<int>,
    bound: nat,
    top: int,
    j: int,
    k: int,
) -> (out: Seq<int>)
    requires
        queue.len() == lengths.len(),
        sorted(queue),
        fits(lengths, bound),
        0 <= j < queue.len(),
        0 <= k < queue.len(),
        j != k,
        lengths[j] == top,
        lengths[k] == top,
        forall|i: int| 0 <= i < lengths.len() ==> #[trigger] lengths[i] <= top,
    ensures
        out.len() == lengths.len(),
        fits(out, bound),
        bill(queue, out) <= bill(queue, lengths),
        out[0] == top,
        out[1] == top,
{
    // first the lightest tree
    let m = if lengths[0] == top {
        0
    } else if j != 1 {
        j
    } else {
        k
    };
    let o = if lengths[0] == top {
        if j != 0 {
            j
        } else {
            k
        }
    } else if j != 1 {
        k
    } else {
        j
    };
    let first = if m == 0 {
        lengths
    } else {
        lengths.update(0, lengths[m]).update(m, lengths[0])
    };
    if m != 0 {
        lemma_swap(queue, lengths, bound, 0, m);
    }
    assert(first[0] == top && first[o] == top && o != 0);
    assert forall|i: int| 0 <= i < first.len() implies #[trigger] first[i] <= top by {
        if i != 0 && i != m {
            assert(first[i] == lengths[i]);
        }
    }
    // then the second lightest
    if first[1] == top {
        first
    } else {
        lemma_swap(queue, first, bound, 1, o);
        first.update(1, first[o]).update(o, first[1])
    }
}

/// Joining the two lightest trees, both at depth `top`, into one tree at
/// depth `top - 1` changes neither the code space taken nor the weighted
/// path length.
proof fn lemma_join_bill(queue: Seq<Node>, frequencies: Seq<usize>, lengths: Seq<int>, bound: nat)
    requires
        is_forest(queue, frequencies),
        queue.len() >= 2,
        queue.len() == lengths.len(),
        fits(lengths, bound),
        lengths[0] == lengths[1],
        lengths[0] >= 1,
    ensures
        ({
            let joined = join(queue[0], queue[1]);
            let p = slot(queue.skip(2), joined.weight());
            let next = enqueue(queue.skip(2), joined);
            let shorter = lengths.skip(2).insert(p, lengths[0] - 1);
            &&& shorter.len() == next.len()
            &&& fits(shorter, bound)
            &&& bill(next, shorter) == bill(queue, lengths)
        }),
{
    let top = lengths[0];
    let joined = join(queue[0], queue[1]);
    let rest = queue.skip(2);
    let p = slot(rest, joined.weight());
    let next = enqueue(rest, joined);
    let shorter = lengths.skip(2).insert(p, top - 1);
    lemma_join_step(queue, frequencies);
    lemma_slot_in_range(rest, joined.weight(), 0);
    // the code space
    lemma_kraft_head(lengths, bound);
    lemma_kraft_insert(lengths.skip(2), bound, p, top - 1);
    lemma_pow2_unfold((bound - (top - 1)) as nat);
    assert forall|i: int| 0 <= i < shorter.len() implies 0 <= #[trigger] shorter[i] <= bound by {
        if i < p {
            assert(shorter[i] == lengths[i + 2]);
        } else if i > p {
            assert(shorter[i] == lengths[i + 1]);
        }
    }
    // the weighted path length
    let terms = bill_terms(queue, lengths);
    lemma_sum_split(terms, 2);
    lemma_sum_split(terms.take(2), 1);
    assert(terms.take(2).take(1) =~= seq![terms[0]]);
    assert(terms.take(2).skip(1) =~= seq![terms[1]]);
    lemma_sum_one(terms[0]);
    lemma_sum_one(terms[1]);
    assert(terms.skip(2) =~= bill_terms(rest, lengths.skip(2)));
    let w = joined.weight() as int;
    let entry = w * (top - 1) + joined.cost();
    assert(bill_terms(next, shorter) =~= bill_terms(rest, lengths.skip(2)).insert(p, entry));
    lemma_sum_insert(bill_terms(rest, lengths.skip(2)), p, entry);
    let w0 = queue[0].weight() as int;
    let w1 = queue[1].weight() as int;
    assert((w0 + w1) * (top - 1) + w0 + w1 == w0 * top + w1 * top) by (nonlinear_arith);
}

/// The tree that the queue merges to is at least as good as any other way
/// to hang the trees of the queue into one code: whatever depths are given
/// to the trees, as long as codes of those lengths fit into the code space,
/// the weighted path length is no less than that of the merged tree.
pub proof fn lemma_forest_optimal(
    queue: Seq<Node>,
    frequencies: Seq<usize>,
    lengths: Seq<int>,
    bound: nat,
)
    requires
        is_forest(queue, frequencies),
        queue.len() >= 1,
        queue.len() == lengths.len(),
        fits(lengths, bound),
    ensures
        merged(queue) is Some,
        merged(queue).unwrap().cost() <= bill(queue, lengths),
    decreases queue.len(), sum(lengths),
{
    lemma_merged_forest(queue, frequencies);
    lemma_sum_nonnegative(lengths);
    if queue.len() == 1 {
        let terms = bill_terms(queue, lengths);
        assert(terms =~= seq![terms[0]]);
        lemma_sum_one(terms[0]);
        let w = queue[0].weight() as int;
        let l = lengths[0];
        assert(w * l >= 0) by (nonlinear_arith)
            requires
                w >= 0,
                l >= 0,
        ;
    } else {
        let j = longest(lengths);
        lemma_longest(lengths);
        let top = lengths[j];
        if top == 0 {
            lemma_kraft_head(lengths, bound);
            lemma_kraft_nonnegative(lengths.skip(2), bound);
            lemma_pow2_pos(bound);
            assert(lengths[0] == 0 && lengths[1] == 0);
            assert(false);
        } else if exists|k: int| 0 <= k < lengths.len() && k != j && lengths[k] == top {
            let k = choose|k: int| 0 <= k < lengths.len() && k != j && lengths[k] == top;
            let paired = lemma_deepest_pair(queue, lengths, bound, top, j, k);
            lemma_join_bill(queue, frequencies, paired, bound);
            lemma_join_step(queue, frequencies);
            let joined = join(queue[0], queue[1]);
            let p = slot(queue.skip(2), joined.weight());
            lemma_slot_in_range(queue.skip(2), joined.weight(), 0);
            lemma_forest_optimal(
                enqueue(queue.skip(2), joined),
                frequencies,
                paired.skip(2).insert(p, top - 1),
                bound,
            );
        } else {
            lemma_shorten(lengths, bound, j);
            lemma_bill_update(queue, lengths, j, top - 1);
            lemma_sum_update(lengths, j, top - 1);
            lemma_sum_nonnegative(lengths.update(j, top - 1));
            let w = queue[j].weight() as int;
            assert(w * ((top - 1) - top) <= 0) by (nonlinear_arith)
                requires
                    w >= 0,
            ;
            lemma_forest_optimal(queue, frequencies, lengths.update(j, top - 1), bound);
        }
    }
}

/// A place where the greatest entry of `lengths` stands.
pub open spec fn longest(lengths: Seq<int>) -> int
    decreases lengths.len(),
{
    if lengths.len() <= 1 {
        0
    } else {
        let j = longest(lengths.drop_last());
        if lengths.last() > lengths[j] {
            lengths.len() - 1
        } else {
            j
        }
    }
}

/// At `longest` stands an entry that none exceeds.
proof fn lemma_longest(lengths: Seq<int>)
    requires
        lengths.len() >= 1,
    ensures
        0 <= longest(lengths) < lengths.len(),
        forall|i: int| 0 <= i < lengths.len() ==> #[trigger] lengths[i] <= lengths[longest(lengths)],
    decreases lengths.len(),
{
    if lengths.len() > 1 {
        lemma_longest(lengths.drop_last());
        let j = longest(lengths.drop_last());
        assert forall|i: int| 0 <= i < lengths.len() implies #[trigger] lengths[i]
            <= lengths[longest(lengths)] by {
            if i < lengths.len() - 1 {
                assert(lengths.drop_last()[i] <= lengths.drop_last()[j]);
            }
        }
    }
}

/// What symbol `s` weighs in a tree: the frequency of its leaf, or nothing.
spec fn leaf_share(t: Node, s: int) -> int {
    if t.contains(s as u8) {
        t.leaf_weight(s as u8) as int
    } else {
        0
    }
}

/// How deep symbol `s` stands in a tree.
spec fn leaf_depth(t: Node, s: int) -> int {
    if t.contains(s as u8) {
        t.path(s as u8).len() as int
    } else {
        0
    }
}

/// For each symbol what it weighs in a tree.
spec fn share_terms(t: Node) -> Seq<int> {
    Seq::new(256, |s: int| leaf_share(t, s))
}

/// For each symbol its weight times its depth in a tree.
spec fn depth_terms(t: Node) -> Seq<int> {
    Seq::new(256, |s: int| leaf_share(t, s) * leaf_depth(t, s))
}

/// The weight of a tree is the sum of the frequencies of its symbols, and
/// its weighted path length the sum of frequency times depth.
proof fn lemma_tree_sums(t: Node)
    requires
        t.wf(),
        t.distinct(),
    ensures
        sum(share_terms(t)) == t.weight(),
        sum(depth_terms(t)) == t.cost(),
    decreases t,
{
    match t {
        Node::Leaf { symbol, frequency } => {
            let nothing = Seq::new(256, |s: int| 0int);
            lemma_sum_zero(nothing);
            lemma_sum_update(nothing, symbol as int, frequency as int);
            assert(share_terms(t) =~= nothing.update(symbol as int, frequency as int));
            assert(depth_terms(t) =~= nothing) by {
                assert forall|s: int| 0 <= s < 256 implies depth_terms(t)[s] == 0 by {
                    assert(leaf_depth(t, s) == 0);
                    assert(leaf_share(t, s) * 0 == 0);
                }
            }
        },
        Node::Internal { left, right, .. } => {
            lemma_tree_sums(*left);
            lemma_tree_sums(*right);
            let shares = Seq::new(256, |s: int| leaf_share(*left, s) + leaf_share(*right, s));
            let depths = Seq::new(
                256,
                |s: int| depth_terms(*left)[s] + depth_terms(*right)[s],
            );
            lemma_sum_add(share_terms(*left), share_terms(*right), shares);
            lemma_sum_add(depth_terms(*left), depth_terms(*right), depths);
            assert forall|s: int| 0 <= s < 256 implies share_terms(t)[s] == shares[s]
                && depth_terms(t)[s] == depths[s] + shares[s] by {
                let sym = s as u8;
                assert(!(left.contains(sym) && right.contains(sym)));
                if right.contains(sym) {
                    let x = leaf_share(*right, s);
                    let d = leaf_depth(*right, s);
                    assert(t.path(sym).len() == 1 + d);
                    assert(x * (1 + d) == x * d + x) by (nonlinear_arith);
                    assert(leaf_share(*left, s) * leaf_depth(*left, s) == 0);
                } else if left.contains(sym) {
                    let x = leaf_share(*left, s);
                    let d = leaf_depth(*left, s);
                    assert(t.path(sym).len() == 1 + d);
                    assert(x * (1 + d) == x * d + x) by (nonlinear_arith);
                    assert(leaf_share(*right, s) * leaf_depth(*right, s) == 0);
                } else {
                    assert(leaf_share(t, s) * leaf_depth(t, s) == 0);
                    assert(leaf_share(*left, s) * leaf_depth(*left, s) == 0);
                    assert(leaf_share(*right, s) * leaf_depth(*right, s) == 0);
                }
            }
            assert(share_terms(t) =~= shares);
            lemma_sum_add(depths, shares, depth_terms(t));
        },
    }
}

/// The number of bits that a message with the given symbol frequencies
/// takes when each symbol is written in as many bits as `lengths` says.
pub open spec fn coded_length(frequencies: Seq<usize>, lengths: Seq<int>) -> int {
    sum(Seq::new(256, |s: int| frequencies[s] * lengths[s]))
}

/// The lengths of the codes of a table.
pub open spec fn table_lengths(codes: Seq<Code>) -> Seq<int> {
    codes.map_values(|c: Code| c.1 as int)
}

/// For each leaf of a queue the word that `words` has for its symbol.
spec fn leaf_words(queue: Seq<Node>, words: Seq<Seq<bool>>) -> Seq<Seq<bool>> {
    queue.map_values(|t: Node| words[t.symbol() as int])
}

/// The first `n` terms of the coded length.
spec fn coded_terms(frequencies: Seq<usize>, lengths: Seq<int>, n: nat) -> Seq<int> {
    Seq::new(n, |s: int| frequencies[s] * lengths[s])
}

/// Hanging the leaves of a frequency table at the depths that the lengths
/// of `words` give costs what the message takes when written in `words`.
proof fn lemma_leaf_bill(frequencies: Seq<usize>, words: Seq<Seq<bool>>, n: nat)
    requires
        frequencies.len() == 256,
        words.len() == 256,
        n <= 256,
    ensures
        bill(
            leaf_queue(frequencies, n),
            lengths_of(leaf_words(leaf_queue(frequencies, n), words)),
        ) == sum(coded_terms(frequencies, lengths_of(words), n)),
    decreases n,
{
    let queue = leaf_queue(frequencies, n);
    let lengths = lengths_of(leaf_words(queue, words));
    if n == 0 {
        assert(bill_terms(queue, lengths) =~= Seq::<int>::empty());
        assert(coded_terms(frequencies, lengths_of(words), 0) =~= Seq::<int>::empty());
    } else {
        let m = (n - 1) as nat;
        let rest = leaf_queue(frequencies, m);
        let before = lengths_of(leaf_words(rest, words));
        lemma_leaf_bill(frequencies, words, m);
        let all = coded_terms(frequencies, lengths_of(words), n);
        assert(all.drop_last() =~= coded_terms(frequencies, lengths_of(words), m));
        if frequencies[n - 1] == 0 {
            assert(all.last() == 0) by {
                assert(0 * lengths_of(words)[n - 1] == 0);
            }
        } else {
            let t = leaf(m as u8, frequencies[n - 1]);
            let p = slot(rest, t.weight());
            lemma_slot_in_range(rest, t.weight(), 0);
            let l = words[m as int].len() as int;
            assert(lengths =~= before.insert(p, l));
            let entry = t.weight() * l + t.cost();
            assert(bill_terms(queue, lengths) =~= bill_terms(rest, before).insert(p, entry));
            lemma_sum_insert(bill_terms(rest, before), p, entry);
        }
    }
}

/// The words of the leaves of a frequency table: none begins another,
/// where that holds of the words of the symbols that occur.
proof fn lemma_leaf_words_parted(frequencies: Seq<usize>, words: Seq<Seq<bool>>)
    requires
        frequencies.len() == 256,
        words.len() == 256,
        total_frequency(frequencies) <= usize::MAX,
        forall|a: int, b: int|
            0 <= a < 256 && 0 <= b < 256 && a != b && frequencies[a] != 0 && frequencies[b] != 0
                ==> !(#[trigger] words[a]).is_prefix_of(#[trigger] words[b]),
    ensures
        parted(leaf_words(leaf_queue(frequencies, 256), words)),
{
    let queue = leaf_queue(frequencies, 256);
    let family = leaf_words(queue, words);
    lemma_leaf_queue_forest(frequencies, 256);
    assert forall|i: int, j: int|
        0 <= i < family.len() && 0 <= j < family.len() && i != j implies !(#[trigger] family[i]).is_prefix_of(
        #[trigger] family[j],
    ) by {
        let a = queue[i].symbol();
        let b = queue[j].symbol();
        assert(queue[i] is Leaf && queue[j] is Leaf);
        assert(queue[i].contains(a) && queue[j].contains(b));
        assert(!(queue[i].contains(a) && queue[j].contains(a)));
        assert(frequencies[a as int] != 0 && frequencies[b as int] != 0);
        assert(family[i] == words[a as int] && family[j] == words[b as int]);
    }
}

/// No prefix code is shorter. Let `words` give each symbol that occurs in
/// the frequency table a word of at least one bit, so that no such word is
/// the beginning of another. Then a message with these frequencies takes
/// at least as many bits in `words` as in the codes of `huffman_table`.
pub proof fn lemma_huffman_optimal(frequencies: Seq<usize>, words: Seq<Seq<bool>>)
    requires
        frequencies.len() == 256,
        words.len() == 256,
        total_frequency(frequencies) <= usize::MAX,
        forall|s: int| 0 <= s < 256 && frequencies[s] != 0 ==> (#[trigger] words[s]).len() >= 1,
        forall|a: int, b: int|
            0 <= a < 256 && 0 <= b < 256 && a != b && frequencies[a] != 0 && frequencies[b] != 0
                ==> !(#[trigger] words[a]).is_prefix_of(#[trigger] words[b]),
    ensures
        coded_length(frequencies, table_lengths(huffman_table(frequencies))) <= coded_length(
            frequencies,
            lengths_of(words),
        ),
{
    let codes = huffman_table(frequencies);
    let ours = Seq::new(256, |s: int| frequencies[s] * table_lengths(codes)[s]);
    let theirs = Seq::new(256, |s: int| frequencies[s] * lengths_of(words)[s]);
    assert(theirs =~= coded_terms(frequencies, lengths_of(words), 256));
    lemma_huffman_tree(frequencies);
    assert forall|s: int| 0 <= s < 256 implies theirs[s] >= 0 by {
        let f = frequencies[s] as int;
        let l = lengths_of(words)[s];
        assert(f * l >= 0) by (nonlinear_arith)
            requires
                f >= 0,
                l >= 0,
        ;
    }
    lemma_sum_nonnegative(theirs);
    match huffman_tree(frequencies) {
        None => {
            assert forall|s: int| 0 <= s < 256 implies ours[s] == 0 by {
                assert(frequencies[(s as u8) as int] == 0);
                assert(0 * table_lengths(codes)[s] == 0);
            }
            lemma_sum_zero(ours);
        },
        Some(t) => {
            lemma_table_prefix_free(t);
            match t {
                Node::Leaf { symbol, frequency } => {
                    let nothing = Seq::new(256, |s: int| 0int);
                    lemma_sum_zero(nothing);
                    lemma_sum_update(nothing, symbol as int, frequency as int);
                    assert(t.contains(symbol));
                    assert(frequency == frequencies[symbol as int]);
                    assert forall|s: int| 0 <= s < 256 implies ours[s] == nothing.update(
                        symbol as int,
                        frequency as int,
                    )[s] by {
                        if s == symbol {
                            assert(codes[s] == Code(0, 1));
                            assert(frequencies[s] * 1 == frequencies[s]);
                        } else {
                            assert(!t.contains(s as u8));
                            assert(frequencies[(s as u8) as int] == 0);
                            assert(0 * table_lengths(codes)[s] == 0);
                        }
                    }
                    assert(ours =~= nothing.update(symbol as int, frequency as int));
                    lemma_sum_bounds(theirs, symbol as int);
                    let f = frequency as int;
                    let l = lengths_of(words)[symbol as int];
                    assert(f * l >= f) by (nonlinear_arith)
                        requires
                            f >= 0,
                            l >= 1,
                    ;
                },
                Node::Internal { .. } => {
                    lemma_tree_sums(t);
                    assert forall|s: int| 0 <= s < 256 implies ours[s] == depth_terms(t)[s] by {
                        let sym = s as u8;
                        if t.contains(sym) {
                            assert(codes[sym as int].1 == t.path(sym).len());
                            assert(t.leaf_weight(sym) == frequencies[sym as int]);
                        } else {
                            assert(frequencies[sym as int] == 0);
                            assert(0 * table_lengths(codes)[s] == 0);
                            assert(leaf_share(t, s) * leaf_depth(t, s) == 0);
                        }
                    }
                    assert(ours =~= depth_terms(t));
                    // the other code, as depths for the leaves
                    let queue = leaf_queue(frequencies, 256);
                    let family = leaf_words(queue, words);
                    let lengths = lengths_of(family);
                    lemma_leaf_queue_forest(frequencies, 256);
                    lemma_leaf_words_parted(frequencies, words);
                    assert forall|i: int| 0 <= i < lengths.len() implies lengths[i] >= 0 by {}
                    lemma_sum_nonnegative(lengths);
                    let bound = sum(lengths) as nat;
                    assert forall|i: int| 0 <= i < family.len() implies (#[trigger] family[i]).len()
                        <= bound by {
                        lemma_sum_bounds(lengths, i);
                    }
                    lemma_parted_fits(family, bound);
                    lemma_forest_optimal(queue, frequencies, lengths, bound);
                    lemma_leaf_bill(frequencies, words, 256);
                },
            }
        },
    }
}

} // verus!
