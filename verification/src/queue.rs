//! A queue of nodes in the order of their weights. Among nodes of one
//! weight the one that entered first stands first.

use std::collections::VecDeque;
use vstd::prelude::*;
use crate::tree::Node;

verus! {

/// The nodes of a queue stand in the order of their weights.
pub open spec fn sorted(queue: Seq<Node>) -> bool {
    forall|i: int, j: int| 0 <= i < j < queue.len() ==> queue[i].weight() <= queue[j].weight()
}

/// The first position at or after `from` whose node is heavier than
/// `weight`, or the length of the queue where there is none.
pub open spec fn slot_from(queue: Seq<Node>, weight: nat, from: int) -> int
    decreases queue.len() - from,
{
    if from < 0 || from >= queue.len() || queue[from].weight() > weight {
        from
    } else {
        slot_from(queue, weight, from + 1)
    }
}

/// Where a node of the given weight enters the queue: behind every node
/// that is not heavier, so that among equal weights the earlier one leaves
/// first.
pub open spec fn slot(queue: Seq<Node>, weight: nat) -> int {
    slot_from(queue, weight, 0)
}

/// The queue with `node` added.
pub open spec fn enqueue(queue: Seq<Node>, node: Node) -> Seq<Node> {
    queue.insert(slot(queue, node.weight()), node)
}

/// The slot lies within the queue.
pub proof fn lemma_slot_in_range(queue: Seq<Node>, weight: nat, from: int)
    requires
        0 <= from <= queue.len(),
    ensures
        from <= slot_from(queue, weight, from) <= queue.len(),
    decreases queue.len() - from,
{
    if from < queue.len() && queue[from].weight() <= weight {
        lemma_slot_in_range(queue, weight, from + 1);
    }
}

/// Before its slot a queue holds the nodes that are not heavier; at the
/// slot stands a heavier one.
pub proof fn lemma_slot_splits(queue: Seq<Node>, weight: nat, from: int)
    requires
        0 <= from <= queue.len(),
    ensures
        forall|i: int|
            from <= i < slot_from(queue, weight, from) ==> (#[trigger] queue[i]).weight() <= weight,
        slot_from(queue, weight, from) < queue.len() ==> queue[slot_from(
            queue,
            weight,
            from,
        )].weight() > weight,
    decreases queue.len() - from,
{
    lemma_slot_in_range(queue, weight, from);
    if from < queue.len() && queue[from].weight() <= weight {
        lemma_slot_splits(queue, weight, from + 1);
    }
}

/// A sorted queue stays sorted when a node enters it.
pub proof fn lemma_enqueue_sorted(queue: Seq<Node>, node: Node)
    requires
        sorted(queue),
    ensures
        sorted(enqueue(queue, node)),
{
    let p = slot(queue, node.weight());
    lemma_slot_in_range(queue, node.weight(), 0);
    lemma_slot_splits(queue, node.weight(), 0);
    let after = enqueue(queue, node);
    assert forall|i: int, j: int| 0 <= i < j < after.len() implies after[i].weight()
        <= after[j].weight() by {
        if j == p {
            assert(after[i] == queue[i]);
        } else if i == p {
            assert(after[j] == queue[j - 1]);
            assert(queue[p].weight() <= queue[j - 1].weight() || p == j - 1);
        } else {
            let a = if i < p { i } else { i - 1 };
            let b = if j < p { j } else { j - 1 };
            assert(after[i] == queue[a]);
            assert(after[j] == queue[b]);
        }
    }
}

/// In a sorted queue the slot is the one place that parts the nodes that
/// are not heavier from the heavier ones.
pub proof fn lemma_slot_found(queue: Seq<Node>, weight: nat, p: int)
    requires
        0 <= p <= queue.len(),
        forall|i: int| 0 <= i < p ==> (#[trigger] queue[i]).weight() <= weight,
        forall|i: int| p <= i < queue.len() ==> (#[trigger] queue[i]).weight() > weight,
    ensures
        slot(queue, weight) == p,
{
    lemma_slot_in_range(queue, weight, 0);
    lemma_slot_splits(queue, weight, 0);
    let s = slot(queue, weight);
    if s < p {
        assert(queue[s].weight() <= weight);
    } else if s > p {
        assert(queue[p].weight() <= weight);
    }
}

/// Adds `node` to a sorted queue, behind every node that is not heavier.
/// The place is found by halving.
pub fn enqueue_node(queue: &mut VecDeque<Node>, node: Node)
    requires
        sorted(old(queue)@),
    ensures
        final(queue)@ == enqueue(old(queue)@, node),
        sorted(final(queue)@),
{
    let weight = node.frequency();
    let mut low: usize = 0;
    let mut high: usize = queue.len();
    while low < high
        invariant
            low <= high <= queue.len(),
            queue@ == old(queue)@,
            sorted(queue@),
            forall|i: int| 0 <= i < low ==> (#[trigger] queue@[i]).weight() <= weight,
            forall|i: int| high <= i < queue@.len() ==> (#[trigger] queue@[i]).weight() > weight,
        decreases high - low,
    {
        let middle = low + (high - low) / 2;
        if queue[middle].frequency() <= weight {
            low = middle + 1;
        } else {
            high = middle;
        }
    }
    proof {
        lemma_slot_found(queue@, weight as nat, low as int);
        lemma_enqueue_sorted(queue@, node);
    }
    queue.insert(low, node);
}

} // verus!
