use std::collections::VecDeque;
use vstd::prelude::*;
use crate::queue::{enqueue, enqueue_node, lemma_slot_in_range, slot, sorted};
use crate::sums::{lemma_sum_insert, lemma_sum_one, lemma_sum_split, sum};
use crate::tree::Node;

verus! {

/// The sum of all entries of a frequency table.
pub open spec fn total_frequency(frequencies: Seq<usize>) -> int {
    sum(frequencies.map_values(|f: usize| f as int))
}

/// The leaf for `symbol`.
pub open spec fn leaf(symbol: u8, frequency: usize) -> Node {
    Node::Leaf { symbol, frequency }
}

/// The internal node above `left` and `right`.
pub open spec fn join(left: Node, right: Node) -> Node {
    Node::Internal {
        frequency: (left.weight() + right.weight()) as usize,
        left: Box::new(left),
        right: Box::new(right),
    }
}

/// The queue of leaves for the first `n` symbols: one leaf for each symbol
/// with a frequency other than zero, entered in the order of the symbols.
pub open spec fn leaf_queue(frequencies: Seq<usize>, n: nat) -> Seq<Node>
    decreases n,
{
    if n == 0 {
        Seq::empty()
    } else {
        let rest = leaf_queue(frequencies, (n - 1) as nat);
        if frequencies[n - 1] == 0 {
            rest
        } else {
            enqueue(rest, leaf((n - 1) as u8, frequencies[n - 1]))
        }
    }
}

/// What is left when the two lightest nodes of the queue are joined until a
/// single node remains. An empty queue leaves nothing.
pub open spec fn merged(queue: Seq<Node>) -> Option<Node>
    decreases queue.len(),
    via merged_decreases
{
    if queue.len() == 0 {
        None
    } else if queue.len() == 1 {
        Some(queue[0])
    } else {
        merged(enqueue(queue.skip(2), join(queue[0], queue[1])))
    }
}

/// Joining two nodes makes the queue shorter by one.
#[via_fn]
proof fn merged_decreases(queue: Seq<Node>) {
    if queue.len() >= 2 {
        lemma_slot_in_range(queue.skip(2), join(queue[0], queue[1]).weight(), 0);
    }
}

/// The prefix tree of a frequency table, if any symbol occurs in it.
pub open spec fn huffman_tree(frequencies: Seq<usize>) -> Option<Node> {
    merged(leaf_queue(frequencies, 256))
}

/// The sum of the weights of the nodes of a queue.
pub open spec fn forest_weight(queue: Seq<Node>) -> int {
    sum(queue.map_values(|t: Node| t.weight() as int))
}

/// Adding a node adds its weight.
pub proof fn lemma_enqueue_weight(queue: Seq<Node>, node: Node)
    ensures
        enqueue(queue, node).len() == queue.len() + 1,
        forest_weight(enqueue(queue, node)) == forest_weight(queue) + node.weight(),
{
    let i = slot(queue, node.weight());
    lemma_slot_in_range(queue, node.weight(), 0);
    let w = |t: Node| t.weight() as int;
    assert(queue.insert(i, node).map_values(w) =~= queue.map_values(w).insert(i, w(node)));
    lemma_sum_insert(queue.map_values(w), i, w(node));
}

/// The leaves of the first `n` symbols weigh what those symbols' frequencies
/// add up to, and there are at most `n` of them.
pub proof fn lemma_leaf_queue_weight(frequencies: Seq<usize>, n: nat)
    requires
        n <= frequencies.len(),
    ensures
        leaf_queue(frequencies, n).len() <= n,
        forest_weight(leaf_queue(frequencies, n)) == total_frequency(frequencies.take(n as int)),
    decreases n,
{
    let f = |f: usize| f as int;
    if n == 0 {
        assert(frequencies.take(0).map_values(f) =~= Seq::<int>::empty());
        assert(leaf_queue(frequencies, 0).map_values(|t: Node| t.weight() as int) =~= Seq::<
            int,
        >::empty());
    } else {
        let m = (n - 1) as nat;
        lemma_leaf_queue_weight(frequencies, m);
        let rest = leaf_queue(frequencies, m);
        assert(frequencies.take(n as int).map_values(f).drop_last() =~= frequencies.take(
            m as int,
        ).map_values(f));
        if frequencies[n - 1] != 0 {
            lemma_enqueue_weight(rest, leaf(m as u8, frequencies[n - 1]));
        }
    }
}

/// The two nodes at the head of a queue weigh no more than the whole queue.
pub proof fn lemma_head_weight(queue: Seq<Node>)
    requires
        queue.len() >= 2,
    ensures
        forest_weight(queue) == queue[0].weight() + queue[1].weight() + forest_weight(
            queue.skip(2),
        ),
        forest_weight(queue.skip(2)) >= 0,
{
    let w = |t: Node| t.weight() as int;
    let s = queue.map_values(w);
    lemma_sum_split(s, 2);
    lemma_sum_split(s.take(2), 1);
    assert(s.take(2).take(1) =~= seq![s[0]]);
    assert(s.take(2).skip(1) =~= seq![s[1]]);
    lemma_sum_one(s[0]);
    lemma_sum_one(s[1]);
    assert(s.skip(2) =~= queue.skip(2).map_values(w));
    crate::sums::lemma_sum_nonnegative(s.skip(2));
}

/// Tells whether the frequencies of a table add up within `usize`, which
/// is what building a tree asks of them.
pub fn total_fits(frequencies: &[usize; 256]) -> (fit: bool)
    ensures
        fit == (total_frequency(frequencies@) <= usize::MAX),
{
    let ghost all = frequencies@.map_values(|f: usize| f as int);
    let mut total: usize = 0;
    let mut s: usize = 0;
    proof {
        assert(all.take(0) =~= Seq::<int>::empty());
    }
    while s < 256
        invariant
            s <= 256,
            all == frequencies@.map_values(|f: usize| f as int),
            total == sum(all.take(s as int)),
        decreases 256 - s,
    {
        proof {
            assert(all.take(s + 1).drop_last() =~= all.take(s as int));
            lemma_sum_split(all, s + 1);
            crate::sums::lemma_sum_nonnegative(all.skip(s + 1));
        }
        if frequencies[s] > usize::MAX - total {
            return false;
        }
        total = total + frequencies[s];
        s += 1;
    }
    proof {
        assert(all.take(256) =~= all);
    }
    true
}

/// Builds the prefix tree of a frequency table: a leaf for each symbol that
/// occurs, and the two lightest nodes joined until one is left. A table
/// without any occurring symbol has no tree.
pub fn build_huffman_tree(frequencies: &[usize; 256]) -> (root: Option<Node>)
    requires
        total_frequency(frequencies@) <= usize::MAX,
    ensures
        root == huffman_tree(frequencies@),
        root is None <==> forall|s: int| 0 <= s < 256 ==> frequencies@[s] == 0,
        root matches Some(t) ==> {
            &&& t.wf()
            &&& t.distinct()
            &&& t.weight() == total_frequency(frequencies@)
            &&& forall|s: u8| t.contains(s) <==> frequencies@[s as int] != 0
            &&& forall|s: u8| t.contains(s) ==> t.leaf_weight(s) == frequencies@[s as int]
        },
{
    proof {
        crate::forest::lemma_huffman_tree(frequencies@);
        if huffman_tree(frequencies@) is None {
            assert forall|s: int| 0 <= s < 256 implies frequencies@[s] == 0 by {
                assert(frequencies@[(s as u8) as int] == 0);
            }
        } else {
            let t = huffman_tree(frequencies@).unwrap();
            crate::tree::lemma_has_leaf(t);
            let s = choose|s: u8| t.contains(s);
            assert(frequencies@[s as int] != 0);
        }
    }
    let mut queue: VecDeque<Node> = VecDeque::new();
    let mut s: usize = 0;
    while s < 256
        invariant
            s <= 256,
            sorted(queue@),
            queue@ == leaf_queue(frequencies@, s as nat),
        decreases 256 - s,
    {
        if frequencies[s] != 0 {
            enqueue_node(&mut queue, Node::Leaf { symbol: s as u8, frequency: frequencies[s] });
        }
        s += 1;
    }
    proof {
        lemma_leaf_queue_weight(frequencies@, 256);
        assert(frequencies@.take(256) =~= frequencies@);
    }
    while queue.len() >= 2
        invariant
            sorted(queue@),
            merged(queue@) == huffman_tree(frequencies@),
            forest_weight(queue@) <= usize::MAX,
        decreases queue.len(),
    {
        proof {
            lemma_head_weight(queue@);
        }
        let ghost before = queue@;
        let x = queue.pop_front().unwrap();
        let y = queue.pop_front().unwrap();
        assert(queue@ =~= before.skip(2));
        let frequency = x.frequency() + y.frequency();
        let z = Node::Internal { frequency, left: Box::new(x), right: Box::new(y) };
        assert(z == join(before[0], before[1]));
        proof {
            lemma_enqueue_weight(queue@, z);
        }
        enqueue_node(&mut queue, z);
    }
    queue.pop_front()
}

} // verus!
