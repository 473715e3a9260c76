use vstd::prelude::*;
use crate::builder::{
    forest_weight, join, leaf, leaf_queue, lemma_enqueue_weight, lemma_head_weight,
    lemma_leaf_queue_weight, merged, total_frequency,
};
use crate::queue::{enqueue, lemma_enqueue_sorted, lemma_slot_in_range, slot, sorted};
use crate::sums::{lemma_sum_insert, lemma_sum_one, lemma_sum_split, sum};
use crate::tree::Node;

verus! {

/// Some tree of the queue has a leaf for `symbol`.
pub open spec fn forest_contains(queue: Seq<Node>, symbol: u8) -> bool {
    exists|i: int| 0 <= i < queue.len() && (#[trigger] queue[i]).contains(symbol)
}

/// The number of leaves of all trees of a queue.
pub open spec fn forest_leaves(queue: Seq<Node>) -> int {
    sum(queue.map_values(|t: Node| t.leaves() as int))
}

/// What holds of every queue on the way from the leaves of a frequency
/// table to its tree: the queue is sorted, its weights add up without
/// overflow, no symbol has two leaves, and each leaf weighs what the table
/// says of its symbol.
pub open spec fn is_forest(queue: Seq<Node>, frequencies: Seq<usize>) -> bool {
    &&& sorted(queue)
    &&& forest_weight(queue) <= usize::MAX
    &&& forall|i: int| 0 <= i < queue.len() ==> (#[trigger] queue[i]).wf() && queue[i].distinct()
    &&& forall|i: int, j: int, s: u8|
        #![trigger queue[i].contains(s), queue[j].contains(s)]
        0 <= i < queue.len() && 0 <= j < queue.len() && i != j ==> !(queue[i].contains(s)
            && queue[j].contains(s))
    &&& forall|i: int, s: u8|
        0 <= i < queue.len() && #[trigger] queue[i].contains(s) ==> queue[i].leaf_weight(s)
            == frequencies[s as int] && frequencies[s as int] != 0
}

/// Adding a node adds its leaves.
pub proof fn lemma_enqueue_leaves(queue: Seq<Node>, node: Node)
    ensures
        forest_leaves(enqueue(queue, node)) == forest_leaves(queue) + node.leaves(),
{
    let i = slot(queue, node.weight());
    lemma_slot_in_range(queue, node.weight(), 0);
    let w = |t: Node| t.leaves() as int;
    assert(queue.insert(i, node).map_values(w) =~= queue.map_values(w).insert(i, w(node)));
    lemma_sum_insert(queue.map_values(w), i, w(node));
}

/// The two trees at the head of a queue have no more leaves than the whole
/// queue.
pub proof fn lemma_head_leaves(queue: Seq<Node>)
    requires
        queue.len() >= 2,
    ensures
        forest_leaves(queue) == queue[0].leaves() + queue[1].leaves() + forest_leaves(
            queue.skip(2),
        ),
{
    let w = |t: Node| t.leaves() as int;
    let s = queue.map_values(w);
    lemma_sum_split(s, 2);
    lemma_sum_split(s.take(2), 1);
    assert(s.take(2).take(1) =~= seq![s[0]]);
    assert(s.take(2).skip(1) =~= seq![s[1]]);
    lemma_sum_one(s[0]);
    lemma_sum_one(s[1]);
    assert(s.skip(2) =~= queue.skip(2).map_values(w));
}

/// Joining the two lightest trees of a forest leaves a forest with the
/// same symbols, the same weight and the same number of leaves.
pub proof fn lemma_join_step(queue: Seq<Node>, frequencies: Seq<usize>)
    requires
        is_forest(queue, frequencies),
        queue.len() >= 2,
    ensures
        ({
            let next = enqueue(queue.skip(2), join(queue[0], queue[1]));
            &&& is_forest(next, frequencies)
            &&& next.len() == queue.len() - 1
            &&& join(queue[0], queue[1]).weight() == queue[0].weight() + queue[1].weight()
            &&& forest_weight(next) == forest_weight(queue)
            &&& forest_leaves(next) == forest_leaves(queue)
            &&& forall|s: u8| forest_contains(next, s) <==> forest_contains(queue, s)
        }),
{
    let rest = queue.skip(2);
    let t = join(queue[0], queue[1]);
    let next = enqueue(rest, t);
    let p = slot(rest, t.weight());
    lemma_head_weight(queue);
    lemma_head_leaves(queue);
    lemma_slot_in_range(rest, t.weight(), 0);
    lemma_enqueue_weight(rest, t);
    lemma_enqueue_leaves(rest, t);
    assert(sorted(rest)) by {
        assert forall|i: int, j: int| 0 <= i < j < rest.len() implies rest[i].weight()
            <= rest[j].weight() by {
            assert(rest[i] == queue[i + 2] && rest[j] == queue[j + 2]);
        }
    }
    lemma_enqueue_sorted(rest, t);
    assert(t.wf());
    assert(t.distinct()) by {
        assert forall|s: u8| !(queue[0].contains(s) && #[trigger] queue[1].contains(s)) by {}
    }
    // where each tree of the new queue comes from
    let from = |k: int| if k < p { k + 2 } else { k + 1 };
    assert forall|k: int| 0 <= k < next.len() && k != p implies #[trigger] next[k] == queue[from(k)] by {}
    assert(next[p] == t);
    assert forall|i: int| 0 <= i < next.len() implies (#[trigger] next[i]).wf()
        && next[i].distinct() by {
        if i != p {
            assert(next[i] == queue[from(i)]);
        }
    }
    assert forall|i: int, j: int, s: u8|
        #![trigger next[i].contains(s), next[j].contains(s)]
        0 <= i < next.len() && 0 <= j < next.len() && i != j implies !(next[i].contains(s)
            && next[j].contains(s)) by {
        if next[i].contains(s) && next[j].contains(s) {
            if i == p {
                assert(next[j] == queue[from(j)]);
                assert(queue[0].contains(s) || queue[1].contains(s));
                assert(queue[from(j)].contains(s));
            } else if j == p {
                assert(next[i] == queue[from(i)]);
                assert(queue[0].contains(s) || queue[1].contains(s));
                assert(queue[from(i)].contains(s));
            } else {
                assert(next[i] == queue[from(i)]);
                assert(next[j] == queue[from(j)]);
                assert(queue[from(i)].contains(s) && queue[from(j)].contains(s));
            }
        }
    }
    assert forall|i: int, s: u8| 0 <= i < next.len() && #[trigger] next[i].contains(s) implies next[i].leaf_weight(s)
        == frequencies[s as int] && frequencies[s as int] != 0 by {
        if i == p {
            if queue[1].contains(s) {
                assert(queue[1].leaf_weight(s) == frequencies[s as int]);
            } else {
                assert(queue[0].contains(s));
                assert(queue[0].leaf_weight(s) == frequencies[s as int]);
            }
        } else {
            assert(next[i] == queue[from(i)]);
            assert(queue[from(i)].contains(s));
        }
    }
    assert forall|s: u8| forest_contains(next, s) <==> forest_contains(queue, s) by {
        if forest_contains(next, s) {
            let i = choose|i: int| 0 <= i < next.len() && (#[trigger] next[i]).contains(s);
            if i == p {
                assert(queue[0].contains(s) || queue[1].contains(s));
            } else {
                assert(next[i] == queue[from(i)]);
                assert(queue[from(i)].contains(s));
            }
        }
        if forest_contains(queue, s) {
            let i = choose|i: int| 0 <= i < queue.len() && (#[trigger] queue[i]).contains(s);
            if i < 2 {
                assert(next[p].contains(s));
            } else {
                let k = if i - 2 < p { i - 2 } else { i - 1 };
                assert(next[k] == queue[from(k)]);
                assert(next[k].contains(s));
            }
        }
    }
}

/// Joining the trees of a forest until one is left gives a tree with the
/// symbols, the weight and the leaves of the whole forest.
pub proof fn lemma_merged_forest(queue: Seq<Node>, frequencies: Seq<usize>)
    requires
        is_forest(queue, frequencies),
        queue.len() >= 1,
    ensures
        merged(queue) is Some,
        is_forest(seq![merged(queue).unwrap()], frequencies),
        merged(queue).unwrap().weight() == forest_weight(queue),
        merged(queue).unwrap().leaves() == forest_leaves(queue),
        forall|s: u8| merged(queue).unwrap().contains(s) <==> forest_contains(queue, s),
    decreases queue.len(),
{
    if queue.len() == 1 {
        assert(queue =~= seq![queue[0]]);
        lemma_sum_one(queue[0].weight() as int);
        lemma_sum_one(queue[0].leaves() as int);
        assert(queue.map_values(|t: Node| t.weight() as int) =~= seq![queue[0].weight() as int]);
        assert(queue.map_values(|t: Node| t.leaves() as int) =~= seq![queue[0].leaves() as int]);
        assert forall|s: u8| queue[0].contains(s) <==> forest_contains(queue, s) by {
            if forest_contains(queue, s) {
                let i = choose|i: int| 0 <= i < queue.len() && (#[trigger] queue[i]).contains(s);
                assert(i == 0);
            }
        }
    } else {
        let next = enqueue(queue.skip(2), join(queue[0], queue[1]));
        lemma_join_step(queue, frequencies);
        lemma_merged_forest(next, frequencies);
    }
}

/// The leaves of the first `n` symbols of a frequency table are a forest
/// of single leaves, one for each of those symbols that occurs.
pub proof fn lemma_leaf_queue_forest(frequencies: Seq<usize>, n: nat)
    requires
        frequencies.len() == 256,
        n <= 256,
        total_frequency(frequencies) <= usize::MAX,
    ensures
        is_forest(leaf_queue(frequencies, n), frequencies),
        forest_leaves(leaf_queue(frequencies, n)) == leaf_queue(frequencies, n).len() <= n,
        forall|i: int|
            0 <= i < leaf_queue(frequencies, n).len() ==> (#[trigger] leaf_queue(
                frequencies,
                n,
            )[i]) is Leaf,
        forall|s: u8|
            forest_contains(leaf_queue(frequencies, n), s) <==> s < n && frequencies[s as int] != 0,
    decreases n,
{
    let queue = leaf_queue(frequencies, n);
    lemma_leaf_queue_weight(frequencies, n);
    let f = |f: usize| f as int;
    assert(forest_weight(queue) <= total_frequency(frequencies)) by {
        let all = frequencies.map_values(f);
        lemma_sum_split(all, n as int);
        crate::sums::lemma_sum_nonnegative(all.skip(n as int));
        assert(all.take(n as int) =~= frequencies.take(n as int).map_values(f));
    }
    if n == 0 {
        assert(queue.map_values(|t: Node| t.leaves() as int) =~= Seq::<int>::empty());
    } else {
        let m = (n - 1) as nat;
        let rest = leaf_queue(frequencies, m);
        lemma_leaf_queue_forest(frequencies, m);
        if frequencies[n - 1] == 0 {
            assert forall|s: u8| forest_contains(queue, s) <==> s < n && frequencies[s as int]
                != 0 by {}
        } else {
            let t = leaf(m as u8, frequencies[n - 1]);
            let p = slot(rest, t.weight());
            lemma_slot_in_range(rest, t.weight(), 0);
            lemma_enqueue_sorted(rest, t);
            lemma_enqueue_leaves(rest, t);
            let from = |k: int| if k < p { k } else { k - 1 };
            assert forall|k: int| 0 <= k < queue.len() && k != p implies #[trigger] queue[k]
                == rest[from(k)] by {}
            assert(queue[p] == t);
            assert forall|i: int| 0 <= i < queue.len() implies (#[trigger] queue[i]).wf()
                && queue[i].distinct() && queue[i] is Leaf by {
                if i != p {
                    assert(queue[i] == rest[from(i)]);
                }
            }
            assert forall|i: int, s: u8| 0 <= i < queue.len() && #[trigger] queue[i].contains(
                s,
            ) implies queue[i].leaf_weight(s) == frequencies[s as int] && frequencies[s as int]
                != 0 && (i != p ==> s < m) && (i == p ==> s == m) by {
                if i != p {
                    assert(queue[i] == rest[from(i)]);
                    assert(rest[from(i)].contains(s));
                    assert(forest_contains(rest, s));
                }
            }
            assert forall|i: int, j: int, s: u8|
                #![trigger queue[i].contains(s), queue[j].contains(s)]
                0 <= i < queue.len() && 0 <= j < queue.len() && i != j implies !(queue[i].contains(
                s,
            ) && queue[j].contains(s)) by {
                if queue[i].contains(s) && queue[j].contains(s) {
                    if i != p && j != p {
                        assert(queue[i] == rest[from(i)]);
                        assert(queue[j] == rest[from(j)]);
                        assert(rest[from(i)].contains(s) && rest[from(j)].contains(s));
                    }
                }
            }
            assert forall|s: u8| forest_contains(queue, s) <==> s < n && frequencies[s as int]
                != 0 by {
                if forest_contains(queue, s) {
                    let i = choose|i: int| 0 <= i < queue.len() && (#[trigger] queue[i]).contains(s);
                    assert(queue[i].contains(s));
                }
                if s < n && frequencies[s as int] != 0 {
                    if s == m {
                        assert(queue[p].contains(s));
                    } else {
                        assert(forest_contains(rest, s));
                        let i = choose|i: int| 0 <= i < rest.len() && (#[trigger] rest[i]).contains(s);
                        let k = if i < p { i } else { i + 1 };
                        assert(queue[k] == rest[from(k)]);
                        assert(queue[k].contains(s));
                    }
                }
            }
        }
    }
}

/// The tree of a frequency table has a leaf for each symbol that occurs and
/// for no other, each leaf once and with its symbol's frequency. Only a
/// table in which nothing occurs has no tree.
pub proof fn lemma_huffman_tree(frequencies: Seq<usize>)
    requires
        frequencies.len() == 256,
        total_frequency(frequencies) <= usize::MAX,
    ensures
        match crate::builder::huffman_tree(frequencies) {
            Some(t) => {
                &&& t.wf()
                &&& t.distinct()
                &&& t.weight() == total_frequency(frequencies)
                &&& t.leaves() <= 256
                &&& t.height() < 256
                &&& t is Leaf <==> leaf_queue(frequencies, 256).len() == 1
                &&& forall|s: u8| t.contains(s) <==> frequencies[s as int] != 0
                &&& forall|s: u8| t.contains(s) ==> t.leaf_weight(s) == frequencies[s as int]
            },
            None => forall|s: u8| frequencies[s as int] == 0,
        },
{
    let queue = leaf_queue(frequencies, 256);
    lemma_leaf_queue_forest(frequencies, 256);
    lemma_leaf_queue_weight(frequencies, 256);
    assert(frequencies.take(256) =~= frequencies);
    if queue.len() == 0 {
        assert forall|s: u8| frequencies[s as int] == 0 by {
            if frequencies[s as int] != 0 {
                assert(forest_contains(queue, s));
            }
        }
    } else {
        lemma_merged_forest(queue, frequencies);
        let t = merged(queue).unwrap();
        crate::tree::lemma_height_below_leaves(t);
        assert(seq![t][0] == t);
        assert forall|s: u8| t.contains(s) implies t.leaf_weight(s) == frequencies[s as int] by {
            assert(seq![t][0].contains(s));
        }
        if queue.len() == 1 {
            assert(queue[0] is Leaf);
        } else {
            let rest = queue.skip(2);
            let joined = join(queue[0], queue[1]);
            lemma_slot_in_range(rest, joined.weight(), 0);
            lemma_merged_internal(enqueue(rest, joined), slot(rest, joined.weight()));
        }
    }
}

/// What a queue merges to is a leaf only where the queue is that leaf.
pub proof fn lemma_merged_internal(queue: Seq<Node>, k: int)
    requires
        0 <= k < queue.len(),
        queue[k] is Internal,
    ensures
        merged(queue) is Some,
        merged(queue).unwrap() is Internal,
    decreases queue.len(),
{
    if queue.len() >= 2 {
        let rest = queue.skip(2);
        let t = join(queue[0], queue[1]);
        let p = slot(rest, t.weight());
        lemma_slot_in_range(rest, t.weight(), 0);
        lemma_merged_internal(enqueue(rest, t), p);
    }
}

} // verus!
