use vstd::prelude::*;
use crate::builder::{build_huffman_tree, huffman_tree, total_frequency};
use crate::code::Code;
use crate::prefix::prefix_free;
use crate::tree::Node;

verus! {

/// The code one step below `code`: the pattern moves up by one bit, and the
/// step's bit, zero to the left and one to the right, enters as its lowest.
/// The length counts every step, while the pattern keeps the last sixteen.
pub open spec fn step(code: Code, right: bool) -> Code {
    if right {
        Code((code.0 << 1) | 1, (code.1 + 1) as usize)
    } else {
        Code(code.0 << 1, (code.1 + 1) as usize)
    }
}

/// The code reached from `code` along `path`.
pub open spec fn extend(code: Code, path: Seq<bool>) -> Code
    decreases path.len(),
{
    if path.len() == 0 {
        code
    } else {
        extend(step(code, path[0]), path.skip(1))
    }
}

/// The code of `symbol` under the tree `root`. A symbol that the tree lacks
/// has the empty code. A tree that is a single leaf gives its symbol the
/// one-bit code `0`, as a leaf has no path of its own.
pub open spec fn symbol_code(root: Node, symbol: u8) -> Code {
    if !root.contains(symbol) {
        Code(0, 0)
    } else if root is Leaf {
        Code(0, 1)
    } else {
        extend(Code(0, 0), root.path(symbol))
    }
}

/// The code table of a tree: for each of the 256 symbols its code.
pub open spec fn code_table(root: Option<Node>) -> Seq<Code> {
    Seq::new(
        256,
        |s: int|
            match root {
                Some(t) => symbol_code(t, s as u8),
                None => Code(0, 0),
            },
    )
}

/// The code table of a frequency table.
pub open spec fn huffman_table(frequencies: Seq<usize>) -> Seq<Code> {
    code_table(huffman_tree(frequencies))
}

/// Walks the tree below `node` and enters, for each leaf, the code reached
/// from `prefix` into `codes`.
fn construct_huffman_code_helper(node: &Node, prefix: Code, codes: &mut [Code; 256])
    requires
        prefix.1 + node.height() <= usize::MAX,
    ensures
        forall|s: u8|
            #![trigger final(codes)@[s as int]]
            final(codes)@[s as int] == if node.contains(s) {
                extend(prefix, node.path(s))
            } else {
                old(codes)@[s as int]
            },
    decreases *node,
{
    match node {
        Node::Leaf { symbol, .. } => {
            codes[*symbol as usize] = prefix;
        },
        Node::Internal { left, right, .. } => {
            let ghost before = codes@;
            construct_huffman_code_helper(left, Code(prefix.0 << 1, prefix.1 + 1), codes);
            let ghost between = codes@;
            construct_huffman_code_helper(right, Code((prefix.0 << 1) | 1, prefix.1 + 1), codes);
            assert forall|s: u8| #![trigger codes@[s as int]] codes@[s as int] == if node.contains(s) {
                extend(prefix, node.path(s))
            } else {
                before[s as int]
            } by {
                let _ = between[s as int];
                if right.contains(s) {
                    assert((seq![true] + right.path(s)).skip(1) =~= right.path(s));
                } else if left.contains(s) {
                    assert((seq![false] + left.path(s)).skip(1) =~= left.path(s));
                }
            }
        },
    }
}

/// Builds the code table of a tree: each symbol on a leaf gets the code
/// that spells the way from the root to that leaf, every other symbol the
/// empty code. A tree that is a single leaf gives its symbol the code `0`.
/// Without a tree no symbol has a code.
pub fn construct_huffman_code(root: Option<Node>) -> (codes: [Code; 256])
    requires
        root matches Some(t) ==> t.height() <= usize::MAX,
    ensures
        codes@ == code_table(root),
{
    let mut codes = [Code(0, 0);256];
    match &root {
        Some(Node::Leaf { symbol, .. }) => {
            codes[*symbol as usize] = Code(0, 1);
        },
        Some(node) => {
            construct_huffman_code_helper(node, Code(0, 0), &mut codes);
        },
        None => {},
    }
    assert(codes@ =~= code_table(root));
    codes
}

/// Builds the code table of a frequency table: the codes of its prefix
/// tree. A symbol has a code if and only if its frequency is not zero.
///
/// Of all prefix codes this one makes a message with these frequencies the
/// shortest (`optimal::lemma_huffman_optimal`). As long as no code is
/// longer than sixteen bits, no code begins another
/// (`prefix::lemma_huffman_prefix_free`) and what is packed with the table
/// unpacks to itself (`roundtrip::lemma_huffman_round_trip`).
pub fn huffman(frequencies: &[usize; 256]) -> (codes: [Code; 256])
    requires
        total_frequency(frequencies@) <= usize::MAX,
    ensures
        codes@ == huffman_table(frequencies@),
        forall|s: int| 0 <= s < 256 ==> (frequencies@[s] != 0 <==> (#[trigger] codes@[s]).1 != 0),
        forall|s: int| 0 <= s < 256 && (#[trigger] codes@[s]).1 <= 16 ==> codes@[s].wf(),
        (forall|s: int| 0 <= s < 256 ==> (#[trigger] codes@[s]).1 <= 16) ==> prefix_free(codes@),
{
    let root = build_huffman_tree(frequencies);
    proof {
        crate::forest::lemma_huffman_tree(frequencies@);
        crate::prefix::lemma_huffman_prefix_free(frequencies@);
    }
    construct_huffman_code(root)
}

/// The table is a function of the frequencies: tables built from equal
/// frequencies are equal, code by code, in length and in pattern.
pub proof fn lemma_same_frequencies_same_table(first: Seq<usize>, second: Seq<usize>)
    requires
        first.len() == 256,
        second.len() == 256,
        forall|s: int| 0 <= s < 256 ==> first[s] == second[s],
    ensures
        forall|s: int| 0 <= s < 256 ==> huffman_table(first)[s] == huffman_table(second)[s],
{
    assert(first =~= second);
}

} // verus!
