use vstd::prelude::*;
use crate::builder::{huffman_tree, total_frequency};
use crate::code::{pattern_bit, Code};
use crate::forest::lemma_huffman_tree;
use crate::table::{code_table, extend, huffman_table, step};
use crate::tree::Node;

verus! {

/// No code of the table is the beginning of the code of another symbol.
/// Only symbols that have a code count.
pub open spec fn prefix_free(codes: Seq<Code>) -> bool {
    forall|a: int, b: int|
        0 <= a < codes.len() && 0 <= b < codes.len() && a != b && codes[a].1 != 0 && codes[b].1
            != 0 ==> !(#[trigger] codes[a]@).is_prefix_of(#[trigger] codes[b]@)
}

/// The bits of a pattern after a step: each one place higher, and the
/// step's bit below them.
proof fn lemma_step_bits(pattern: u16, k: u16)
    by (bit_vector)
    requires
        k < 16,
    ensures
        (((pattern << 1) >> k) & 1 == 1) == (k >= 1 && (pattern >> ((k - 1) as u16)) & 1 == 1),
        ((((pattern << 1) | 1) >> k) & 1 == 1) == (k == 0 || (pattern >> ((k - 1) as u16)) & 1
            == 1),
{
}

/// The pattern zero has no bit set.
proof fn lemma_zero_bits(k: u16)
    by (bit_vector)
    requires
        k < 16,
    ensures
        (0u16 >> k) & 1 != 1,
{
}

/// The empty code is well formed.
pub proof fn lemma_empty_code()
    ensures
        Code(0, 0).wf(),
        Code(0, 0)@ == Seq::<bool>::empty(),
{
    assert forall|k: int| 0 <= k < 16 implies !pattern_bit(0u16, k) by {
        lemma_zero_bits(k as u16);
    }
    assert(Code(0, 0)@ =~= Seq::<bool>::empty());
}

/// One step down appends the step's bit, as long as the pattern has room.
pub proof fn lemma_step_view(code: Code, right: bool)
    requires
        code.wf(),
        code.1 < 16,
    ensures
        step(code, right).wf(),
        step(code, right)@ == code@.push(right),
{
    let next = step(code, right);
    assert forall|k: int| 0 <= k < 16 implies pattern_bit(next.0, k) == (if k == 0 {
        right
    } else {
        pattern_bit(code.0, k - 1)
    }) by {
        lemma_step_bits(code.0, k as u16);
    }
    assert(next@ =~= code@.push(right));
}

/// A code reached along a path spells its start and then the path, as long
/// as the pattern has room.
pub proof fn lemma_extend_view(code: Code, path: Seq<bool>)
    requires
        code.wf(),
        code.1 + path.len() <= 16,
    ensures
        extend(code, path).wf(),
        extend(code, path)@ == code@ + path,
    decreases path.len(),
{
    if path.len() == 0 {
        assert(code@ + path =~= code@);
    } else {
        lemma_step_view(code, path[0]);
        lemma_extend_view(step(code, path[0]), path.skip(1));
        assert(code@.push(path[0]) + path.skip(1) =~= code@ + path);
    }
}

/// A code reached along a path has a bit more for each step.
pub proof fn lemma_extend_length(code: Code, path: Seq<bool>)
    requires
        code.1 + path.len() <= usize::MAX,
    ensures
        extend(code, path).1 == code.1 + path.len(),
    decreases path.len(),
{
    if path.len() > 0 {
        lemma_extend_length(step(code, path[0]), path.skip(1));
    }
}

/// The path to a leaf is no longer than the tree is high, and below an
/// internal node it is not empty.
pub proof fn lemma_path_length(t: Node, s: u8)
    requires
        t.contains(s),
    ensures
        t.path(s).len() <= t.height(),
        t is Internal ==> t.path(s).len() >= 1,
    decreases t,
{
    match t {
        Node::Leaf { .. } => {},
        Node::Internal { left, right, .. } => {
            if right.contains(s) {
                lemma_path_length(*right, s);
            } else {
                lemma_path_length(*left, s);
            }
        },
    }
}

/// The paths to two symbols of a tree part ways: neither is the beginning
/// of the other.
pub proof fn lemma_paths_part(t: Node, a: u8, b: u8)
    requires
        t.contains(a),
        t.contains(b),
        a != b,
    ensures
        !t.path(a).is_prefix_of(t.path(b)),
    decreases t,
{
    match t {
        Node::Leaf { .. } => {},
        Node::Internal { left, right, .. } => {
            let pa = t.path(a);
            let pb = t.path(b);
            if pa.is_prefix_of(pb) {
                lemma_path_length(t, a);
                assert(pa[0] == pb.subrange(0, pa.len() as int)[0]);
                let below = if right.contains(a) { *right } else { *left };
                assert(below.contains(b));
                lemma_paths_part(below, a, b);
                assert(pa.skip(1) =~= below.path(a));
                assert(pb.skip(1) =~= below.path(b));
                assert(below.path(a) =~= below.path(b).subrange(0, below.path(a).len() as int));
            }
        },
    }
}

/// In the table of a tree the symbols with a code are those of its leaves.
/// A code of at most sixteen bits is well formed and spells the path to
/// its leaf, and no two such codes begin alike: the table is prefix-free
/// once all its codes have at most sixteen bits.
pub proof fn lemma_table_prefix_free(root: Node)
    requires
        root.height() <= usize::MAX,
    ensures
        forall|s: int|
            0 <= s < 256 && (#[trigger] code_table(Some(root))[s]).1 <= 16 ==> code_table(
                Some(root),
            )[s].wf(),
        forall|s: u8| root.contains(s) <==> #[trigger] code_table(Some(root))[s as int].1 != 0,
        forall|s: u8|
            root is Internal && root.contains(s) ==> (#[trigger] code_table(
                Some(root),
            )[s as int]).1 == root.path(s).len(),
        forall|s: u8|
            root is Internal && root.contains(s) && root.path(s).len() <= 16 ==> (#[trigger] code_table(
                Some(root),
            )[s as int])@ == root.path(s),
        (forall|s: int| 0 <= s < 256 ==> (#[trigger] code_table(Some(root))[s]).1 <= 16)
            ==> prefix_free(code_table(Some(root))),
{
    let codes = code_table(Some(root));
    lemma_empty_code();
    assert(Code(0, 1).wf()) by {
        assert forall|k: int| 1 <= k < 16 implies !pattern_bit(0u16, k) by {
            lemma_zero_bits(k as u16);
        }
    }
    assert forall|s: u8|
        (root.contains(s) <==> #[trigger] codes[s as int].1 != 0) && (codes[s as int].1 <= 16
            ==> codes[s as int].wf()) && (root is Internal && root.contains(s)
            ==> codes[s as int].1 == root.path(s).len() && (root.path(s).len() <= 16
            ==> codes[s as int]@ == root.path(s))) by {
        if root.contains(s) && root is Internal {
            lemma_path_length(root, s);
            lemma_extend_length(Code(0, 0), root.path(s));
            if root.path(s).len() <= 16 {
                lemma_extend_view(Code(0, 0), root.path(s));
                assert(Code(0, 0)@ + root.path(s) =~= root.path(s));
            }
        }
    }
    assert forall|s: int| 0 <= s < 256 && (#[trigger] codes[s]).1 <= 16 implies codes[s].wf() by {
        assert(codes[(s as u8) as int].1 <= 16 ==> codes[(s as u8) as int].wf());
    }
    if forall|s: int| 0 <= s < 256 ==> (#[trigger] codes[s]).1 <= 16 {
        assert forall|a: int, b: int|
            0 <= a < codes.len() && 0 <= b < codes.len() && a != b && codes[a].1 != 0 && codes[b].1
                != 0 implies !(#[trigger] codes[a]@).is_prefix_of(#[trigger] codes[b]@) by {
            let sa = a as u8;
            let sb = b as u8;
            assert(codes[sa as int].1 != 0 && codes[sb as int].1 != 0);
            assert(root.contains(sa) && root.contains(sb));
            lemma_paths_part(root, sa, sb);
            assert(codes[sa as int]@ == root.path(sa));
            assert(codes[sb as int]@ == root.path(sb));
        }
    }
}

/// The table of a frequency table gives a code to each symbol that occurs
/// and to no other. Once all its codes have at most sixteen bits, none of
/// them is the beginning of another.
pub proof fn lemma_huffman_prefix_free(frequencies: Seq<usize>)
    requires
        frequencies.len() == 256,
        total_frequency(frequencies) <= usize::MAX,
    ensures
        forall|s: int|
            0 <= s < 256 ==> (frequencies[s] != 0 <==> (#[trigger] huffman_table(frequencies)[s]).1
                != 0),
        forall|s: int|
            0 <= s < 256 && (#[trigger] huffman_table(frequencies)[s]).1 <= 16 ==> huffman_table(
                frequencies,
            )[s].wf(),
        (forall|s: int| 0 <= s < 256 ==> (#[trigger] huffman_table(frequencies)[s]).1 <= 16)
            ==> prefix_free(huffman_table(frequencies)),
{
    lemma_huffman_tree(frequencies);
    lemma_empty_code();
    let codes = huffman_table(frequencies);
    match huffman_tree(frequencies) {
        Some(t) => {
            lemma_table_prefix_free(t);
            assert forall|s: int| 0 <= s < 256 implies (frequencies[s] != 0 <==> (#[trigger] codes[s]).1
                != 0) by {
                let sym = s as u8;
                assert(t.contains(sym) <==> codes[sym as int].1 != 0);
                assert(t.contains(sym) <==> frequencies[sym as int] != 0);
            }
        },
        None => {
            assert forall|s: int| 0 <= s < 256 implies (frequencies[s] != 0 <==> (#[trigger] codes[s]).1
                != 0) by {
                assert(frequencies[(s as u8) as int] == 0);
            }
        },
    }
}

} // verus!
