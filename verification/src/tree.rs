use vstd::prelude::*;

verus! {

/// A node of a prefix tree. A leaf stands for one symbol; an internal node
/// joins two subtrees. Every node carries the combined frequency of the
/// symbols below it.
#[derive(Debug)]
pub enum Node {
    Leaf { symbol: u8, frequency: usize },
    Internal { frequency: usize, left: Box<Node>, right: Box<Node> },
}

impl Node {
    /// The frequency stored at this node.
    pub open spec fn weight(self) -> nat {
        match self {
            Node::Leaf { frequency, .. } => frequency as nat,
            Node::Internal { frequency, .. } => frequency as nat,
        }
    }

    /// The symbol of a leaf.
    pub open spec fn symbol(self) -> u8 {
        match self {
            Node::Leaf { symbol, .. } => symbol,
            Node::Internal { .. } => 0,
        }
    }

    /// Every internal node stores the sum of its children's frequencies.
    pub open spec fn wf(self) -> bool
        decreases self,
    {
        match self {
            Node::Leaf { .. } => true,
            Node::Internal { frequency, left, right } => {
                &&& frequency == left.weight() + right.weight()
                &&& left.wf()
                &&& right.wf()
            },
        }
    }

    /// Whether some leaf of this tree stands for `symbol`.
    pub open spec fn contains(self, symbol: u8) -> bool
        decreases self,
    {
        match self {
            Node::Leaf { symbol: s, .. } => s == symbol,
            Node::Internal { left, right, .. } => left.contains(symbol) || right.contains(symbol),
        }
    }

    /// No symbol stands on two leaves.
    pub open spec fn distinct(self) -> bool
        decreases self,
    {
        match self {
            Node::Leaf { .. } => true,
            Node::Internal { left, right, .. } => {
                &&& left.distinct()
                &&& right.distinct()
                &&& forall|s: u8| !(left.contains(s) && #[trigger] right.contains(s))
            },
        }
    }

    /// The number of edges on the longest way from this node to a leaf.
    pub open spec fn height(self) -> nat
        decreases self,
    {
        match self {
            Node::Leaf { .. } => 0,
            Node::Internal { left, right, .. } => {
                1 + if left.height() >= right.height() {
                    left.height()
                } else {
                    right.height()
                }
            },
        }
    }

    /// The number of leaves.
    pub open spec fn leaves(self) -> nat
        decreases self,
    {
        match self {
            Node::Leaf { .. } => 1,
            Node::Internal { left, right, .. } => left.leaves() + right.leaves(),
        }
    }

    /// The way from this node to the leaf of `symbol`: `false` for a step to
    /// the left, `true` for a step to the right. Where the symbol stands on
    /// several leaves, the rightmost one is meant; where it stands on none,
    /// the path is empty.
    pub open spec fn path(self, symbol: u8) -> Seq<bool>
        decreases self,
    {
        match self {
            Node::Leaf { .. } => Seq::empty(),
            Node::Internal { left, right, .. } => {
                if right.contains(symbol) {
                    seq![true] + right.path(symbol)
                } else if left.contains(symbol) {
                    seq![false] + left.path(symbol)
                } else {
                    Seq::empty()
                }
            },
        }
    }

    /// The frequency of the leaf that `path` finds for `symbol`, or zero
    /// where the symbol is absent.
    pub open spec fn leaf_weight(self, symbol: u8) -> nat
        decreases self,
    {
        match self {
            Node::Leaf { symbol: s, frequency } => if s == symbol {
                frequency as nat
            } else {
                0
            },
            Node::Internal { left, right, .. } => {
                if right.contains(symbol) {
                    right.leaf_weight(symbol)
                } else {
                    left.leaf_weight(symbol)
                }
            },
        }
    }

    /// The weighted path length: the sum over the leaves of frequency times
    /// depth.
    pub open spec fn cost(self) -> nat
        decreases self,
    {
        match self {
            Node::Leaf { .. } => 0,
            Node::Internal { left, right, .. } => {
                left.cost() + right.cost() + left.weight() + right.weight()
            },
        }
    }

    /// The frequency stored at this node.
    pub fn frequency(&self) -> (f: usize)
        ensures
            f == self.weight(),
    {
        match self {
            Node::Leaf { frequency, .. } => *frequency,
            Node::Internal { frequency, .. } => *frequency,
        }
    }
}

/// A tree has fewer levels than leaves.
pub proof fn lemma_height_below_leaves(t: Node)
    ensures
        t.height() < t.leaves(),
    decreases t,
{
    match t {
        Node::Leaf { .. } => {},
        Node::Internal { left, right, .. } => {
            lemma_height_below_leaves(*left);
            lemma_height_below_leaves(*right);
        },
    }
}

/// Every tree has a leaf.
pub proof fn lemma_has_leaf(t: Node)
    ensures
        exists|s: u8| t.contains(s),
    decreases t,
{
    match t {
        Node::Leaf { symbol, .. } => {
            assert(t.contains(symbol));
        },
        Node::Internal { left, right, .. } => {
            lemma_has_leaf(*left);
            let s = choose|s: u8| left.contains(s);
            assert(t.contains(s));
        },
    }
}

} // verus!
