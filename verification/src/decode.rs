use vstd::prelude::*;
use vstd::arithmetic::power2::{lemma_pow2_strictly_increases, lemma_pow2_unfold, pow2};
use crate::bits::{bits_of, byte_bit};
use crate::code::{pattern_bit, Code};
use crate::encode::encoded_bits;
use crate::error::HuffmanError;

verus! {

/// A padding count fits a packed stream when it is at most seven and, for
/// an empty stream, zero.
pub open spec fn well_padded(packed: Seq<u8>, padding: usize) -> bool {
    padding <= 7 && (packed.len() == 0 ==> padding == 0)
}

/// The bits of a packed stream without the filler bits at its end.
pub open spec fn stream_bits(packed: Seq<u8>, padding: usize) -> Seq<bool> {
    bits_of(packed).take(8 * packed.len() - padding)
}

/// The symbol found at `path` among the first `n` symbols: the greatest
/// one whose code has between one and sixteen bits and equals `path`.
pub open spec fn symbol_below(codes: Seq<Code>, path: Seq<bool>, n: nat) -> Option<u8>
    decreases n,
{
    if n == 0 {
        None
    } else if 1 <= codes[n - 1].1 <= 16 && codes[n - 1]@ == path {
        Some((n - 1) as u8)
    } else {
        symbol_below(codes, path, (n - 1) as nat)
    }
}

/// The symbol found at `path` in the table.
pub open spec fn symbol_at(codes: Seq<Code>, path: Seq<bool>) -> Option<u8> {
    symbol_below(codes, path, 256)
}

/// The first code at the head of `bits`, among those of at least `n` bits:
/// its symbol and its length.
pub open spec fn first_code(codes: Seq<Code>, bits: Seq<bool>, n: nat) -> Option<(u8, nat)>
    decreases 17 - n,
{
    if n < 1 || n > 16 || n > bits.len() {
        None
    } else {
        match symbol_at(codes, bits.take(n as int)) {
            Some(s) => Some((s, n)),
            None => first_code(codes, bits, n + 1),
        }
    }
}

/// `prefix` in front of `rest`, where there is a rest.
pub open spec fn prepend(prefix: Seq<u8>, rest: Option<Seq<u8>>) -> Option<Seq<u8>> {
    match rest {
        Some(r) => Some(prefix + r),
        None => None,
    }
}

/// The symbols that `bits` spells: again and again the first code at the
/// head is taken off, until no bit is left. Nothing, where at some point no
/// code stands at the head.
pub open spec fn decoded(codes: Seq<Code>, bits: Seq<bool>) -> Option<Seq<u8>>
    decreases bits.len(),
{
    if bits.len() == 0 {
        Some(Seq::empty())
    } else {
        match first_code(codes, bits, 1) {
            Some((s, n)) => if 1 <= n <= bits.len() {
                prepend(seq![s], decoded(codes, bits.skip(n as int)))
            } else {
                None
            },
            None => None,
        }
    }
}

/// The place of the node at `path` in a trie laid out level by level: the
/// root at 1, the children of the node at `i` at `2 i` and `2 i + 1`.
pub open spec fn node_of(path: Seq<bool>) -> nat
    decreases path.len(),
{
    if path.len() == 0 {
        1
    } else {
        2 * node_of(path.drop_last()) + if path.last() {
            1nat
        } else {
            0nat
        }
    }
}

/// The path of the node at place `i`.
pub open spec fn path_of(i: nat) -> Seq<bool>
    decreases i,
{
    if i <= 1 {
        Seq::empty()
    } else {
        path_of(i / 2).push(i % 2 == 1)
    }
}

/// The nodes of one level fill the places from `2^level` up to the next
/// power of two.
proof fn lemma_node_of_bounds(path: Seq<bool>)
    ensures
        pow2(path.len()) <= node_of(path) < pow2(path.len() + 1),
    decreases path.len(),
{
    lemma_pow2_unfold(path.len() + 1);
    if path.len() == 0 {
        vstd::arithmetic::power2::lemma2_to64();
    } else {
        lemma_node_of_bounds(path.drop_last());
        lemma_pow2_unfold(path.len());
    }
}

/// The node at the place of a path has that path.
proof fn lemma_path_of_node(path: Seq<bool>)
    ensures
        path_of(node_of(path)) == path,
    decreases path.len(),
{
    if path.len() == 0 {
        assert(path_of(1) =~= path);
    } else {
        lemma_path_of_node(path.drop_last());
        lemma_node_of_bounds(path.drop_last());
        vstd::arithmetic::power2::lemma_pow2_pos(path.drop_last().len());
        let a = node_of(path.drop_last());
        let i = node_of(path);
        assert(i / 2 == a);
        assert((i % 2 == 1) == path.last());
        assert(path.drop_last().push(path.last()) =~= path);
    }
}

/// The path of the node at a place leads to that place.
proof fn lemma_node_of_path(i: nat)
    requires
        i >= 1,
    ensures
        node_of(path_of(i)) == i,
    decreases i,
{
    if i > 1 {
        lemma_node_of_path(i / 2);
        assert(path_of(i).drop_last() =~= path_of(i / 2));
    }
}

/// No symbol is found at a path longer than every code of the table.
proof fn lemma_no_symbol_beyond(codes: Seq<Code>, path: Seq<bool>, n: nat, depth: nat)
    requires
        forall|s: int| 0 <= s < n && 1 <= (#[trigger] codes[s]).1 <= 16 ==> codes[s].1 <= depth,
        path.len() > depth,
    ensures
        symbol_below(codes, path, n) is None,
    decreases n,
{
    if n > 0 {
        lemma_no_symbol_beyond(codes, path, (n - 1) as nat, depth);
        assert(codes[n - 1]@.len() == codes[n - 1].1);
    }
}

/// No code stands at the head of bits among those longer than every code
/// of the table.
proof fn lemma_no_code_beyond(codes: Seq<Code>, bits: Seq<bool>, n: nat, depth: nat)
    requires
        forall|s: int| 0 <= s < 256 && 1 <= (#[trigger] codes[s]).1 <= 16 ==> codes[s].1 <= depth,
        n > depth,
    ensures
        first_code(codes, bits, n) is None,
    decreases 17 - n,
{
    if 1 <= n <= 16 && n <= bits.len() {
        lemma_no_symbol_beyond(codes, bits.take(n as int), 256, depth);
        lemma_no_code_beyond(codes, bits, n + 1, depth);
    }
}

/// A decoding trie, laid out level by level in `slots`: the slot of a node
/// holds the symbol whose code ends there.
struct Trie {
    slots: Vec<Option<u8>>,
    depth: usize,
}

impl Trie {
    /// The trie holds the codes of a table: every code of one to sixteen
    /// bits, down to the depth of the longest.
    spec fn holds(self, codes: Seq<Code>, n: nat) -> bool {
        &&& self.depth <= 16
        &&& self.slots@.len() == pow2((self.depth + 1) as nat)
        &&& forall|s: int|
            0 <= s < 256 && 1 <= (#[trigger] codes[s]).1 <= 16 ==> codes[s].1 <= self.depth
        &&& forall|i: int|
            1 <= i < self.slots@.len() ==> #[trigger] self.slots@[i] == symbol_below(
                codes,
                path_of(i as nat),
                n,
            )
    }

    /// Builds the trie for a code table.
    fn new(codes: &[Code; 256]) -> (trie: Trie)
        ensures
            trie.holds(codes@, 256),
    {
        let mut depth: usize = 0;
        let mut s: usize = 0;
        while s < 256
            invariant
                s <= 256,
                depth <= 16,
                forall|t: int|
                    0 <= t < s && 1 <= (#[trigger] codes@[t]).1 <= 16 ==> codes@[t].1 <= depth,
            decreases 256 - s,
        {
            let length = codes[s].1;
            if length <= 16 && length > depth {
                depth = length;
            }
            s += 1;
        }
        let mut slots: Vec<Option<u8>> = Vec::new();
        slots.push(None);
        slots.push(None);
        let mut level: usize = 0;
        proof {
            vstd::arithmetic::power2::lemma2_to64();
        }
        while level < depth
            invariant
                level <= depth <= 16,
                slots@.len() == pow2((level + 1) as nat),
                forall|i: int| 0 <= i < slots@.len() ==> slots@[i] is None,
            decreases depth - level,
        {
            let width = slots.len();
            let mut k: usize = 0;
            while k < width
                invariant
                    k <= width,
                    slots@.len() == width + k,
                    forall|i: int| 0 <= i < slots@.len() ==> slots@[i] is None,
                decreases width - k,
            {
                slots.push(None);
                k += 1;
            }
            proof {
                lemma_pow2_unfold((level + 2) as nat);
            }
            level += 1;
        }
        let mut trie = Trie { slots, depth };
        let mut s: usize = 0;
        while s < 256
            invariant
                s <= 256,
                trie.holds(codes@, s as nat),
            decreases 256 - s,
        {
            let code = codes[s];
            if 1 <= code.1 && code.1 <= 16 {
                let mut at: usize = 1;
                let mut j: usize = 0;
                proof {
                    vstd::arithmetic::power2::lemma2_to64();
                }
                while j < code.1
                    invariant
                        j <= code.1 <= 16,
                        at == node_of(code@.take(j as int)),
                        at < pow2((j + 1) as nat),
                    decreases code.1 - j,
                {
                    let k: u16 = (code.1 - 1 - j) as u16;
                    let bit = (code.0 >> k) & 1 == 1;
                    proof {
                        assert(code@.take(j + 1).drop_last() =~= code@.take(j as int));
                        assert(code@.take(j + 1).last() == pattern_bit(code.0, code.1 - 1 - j));
                        lemma_pow2_unfold((j + 2) as nat);
                        vstd::arithmetic::power2::lemma2_to64();
                        if j + 2 < 18 {
                            lemma_pow2_strictly_increases((j + 2) as nat, 18);
                        }
                    }
                    at = 2 * at + if bit {
                        1
                    } else {
                        0
                    };
                    j += 1;
                }
                proof {
                    assert(code@.take(code.1 as int) =~= code@);
                    if code.1 < trie.depth {
                        lemma_pow2_strictly_increases((code.1 + 1) as nat, (trie.depth + 1) as nat);
                    }
                    lemma_path_of_node(code@);
                    lemma_node_of_bounds(code@);
                    vstd::arithmetic::power2::lemma_pow2_pos(code.1 as nat);
                }
                let ghost before = trie.slots@;
                trie.slots.set(at, Some(s as u8));
                proof {
                    assert forall|i: int| 1 <= i < trie.slots@.len() implies #[trigger] trie.slots@[i]
                        == symbol_below(codes@, path_of(i as nat), (s + 1) as nat) by {
                        if i != at {
                            assert(trie.slots@[i] == before[i]);
                            if codes@[s as int]@ == path_of(i as nat) {
                                lemma_node_of_path(i as nat);
                            }
                        }
                    }
                }
            }
            s += 1;
        }
        trie
    }
}

/// The state of a walk over `bits` that has read `pos` of them: `out` holds
/// the symbols found, and the last `depth` bits read lead from the root of
/// the trie to the node at `at`, past no code.
spec fn walking(
    codes: Seq<Code>,
    bits: Seq<bool>,
    out: Seq<u8>,
    at: usize,
    depth: usize,
    pos: int,
) -> bool {
    &&& 0 <= depth <= pos <= bits.len()
    &&& at == node_of(bits.subrange(pos - depth, pos))
    &&& decoded(codes, bits) == prepend(out, decoded(codes, bits.skip(pos - depth)))
    &&& first_code(codes, bits.skip(pos - depth), 1) == first_code(
        codes,
        bits.skip(pos - depth),
        (depth + 1) as nat,
    )
}

/// A walk that would have to go below the deepest code has lost its way.
proof fn lemma_walk_too_deep(
    codes: Seq<Code>,
    bits: Seq<bool>,
    out: Seq<u8>,
    at: usize,
    depth: usize,
    pos: int,
    limit: nat,
)
    requires
        walking(codes, bits, out, at, depth, pos),
        pos < bits.len(),
        depth >= limit,
        forall|s: int| 0 <= s < 256 && 1 <= (#[trigger] codes[s]).1 <= 16 ==> codes[s].1 <= limit,
    ensures
        decoded(codes, bits) is None,
{
    lemma_no_code_beyond(codes, bits.skip(pos - depth), (depth + 1) as nat, limit);
}

/// One step of the walk, onto a node that ends the code of `s`.
proof fn lemma_walk_found(
    codes: Seq<Code>,
    bits: Seq<bool>,
    out: Seq<u8>,
    at: usize,
    depth: usize,
    pos: int,
    s: u8,
)
    requires
        walking(codes, bits, out, at, depth, pos),
        pos < bits.len(),
        depth < 16,
        symbol_at(codes, bits.subrange(pos - depth, pos + 1)) == Some(s),
    ensures
        walking(codes, bits, out.push(s), 1, 0, pos + 1),
{
    let rest = bits.skip(pos - depth);
    assert(rest.take(depth + 1) =~= bits.subrange(pos - depth, pos + 1));
    assert(rest.skip(depth + 1) =~= bits.skip(pos + 1));
    assert(first_code(codes, rest, (depth + 1) as nat) == Some((s, (depth + 1) as nat)));
    let after = decoded(codes, bits.skip(pos + 1));
    assert(decoded(codes, rest) == prepend(seq![s], after));
    if after is Some {
        assert(out + (seq![s] + after.unwrap()) =~= out.push(s) + after.unwrap());
    }
    assert(bits.subrange(pos + 1, pos + 1) =~= Seq::<bool>::empty());
}

/// One step of the walk, onto a node where no code ends.
proof fn lemma_walk_on(
    codes: Seq<Code>,
    bits: Seq<bool>,
    out: Seq<u8>,
    at: usize,
    depth: usize,
    pos: int,
    next: usize,
)
    requires
        walking(codes, bits, out, at, depth, pos),
        pos < bits.len(),
        depth < 16,
        symbol_at(codes, bits.subrange(pos - depth, pos + 1)) is None,
        next == node_of(bits.subrange(pos - depth, pos + 1)),
    ensures
        walking(codes, bits, out, next, (depth + 1) as usize, pos + 1),
{
    let rest = bits.skip(pos - depth);
    assert(rest.take(depth + 1) =~= bits.subrange(pos - depth, pos + 1));
}

/// Where the bits end, the walk has either just finished a code or is lost.
proof fn lemma_walk_end(codes: Seq<Code>, bits: Seq<bool>, out: Seq<u8>, at: usize, depth: usize)
    requires
        walking(codes, bits, out, at, depth, bits.len() as int),
    ensures
        depth == 0 ==> decoded(codes, bits) == Some(out),
        depth != 0 ==> decoded(codes, bits) is None,
{
    if depth == 0 {
        assert(out + Seq::<u8>::empty() =~= out);
    }
}

/// Unpacks a bit stream: reads the bits of `packed` but the last `padding`
/// ones, and whenever the bits read since the last symbol are a code of the
/// table, gives out its symbol. A stream that ends within a code, or leaves
/// the codes of the table, is refused, and so is a padding count above seven
/// or one for an empty stream.
///
/// The bytes given out pack to the stream that was read. With a
/// prefix-free table they are the only ones that do, and a stream is
/// refused only if none does (`roundtrip::lemma_refused_is_unspeakable`).
pub fn huffman_decode(codes: &[Code; 256], packed: &[u8], padding: usize) -> (result: Result<
    Vec<u8>,
    HuffmanError,
>)
    ensures
        match result {
            Ok(bytes) => {
                &&& well_padded(packed@, padding)
                &&& decoded(codes@, stream_bits(packed@, padding)) == Some(bytes@)
                &&& encoded_bits(codes@, bytes@) == stream_bits(packed@, padding)
            },
            Err(e) => {
                &&& e == HuffmanError::MalformedStream
                &&& !well_padded(packed@, padding) || decoded(
                    codes@,
                    stream_bits(packed@, padding),
                ) is None
            },
        },
{
    if padding > 7 || (packed.len() == 0 && padding != 0) {
        return Err(HuffmanError::MalformedStream);
    }
    let trie = Trie::new(codes);
    let ghost bits = stream_bits(packed@, padding);
    let mut out: Vec<u8> = Vec::new();
    let mut at: usize = 1;
    let mut depth: usize = 0;
    let mut j: usize = 0;
    let ghost mut pos: int = 0;
    proof {
        assert(bits.subrange(0, 0) =~= Seq::<bool>::empty());
        assert(bits.skip(0) =~= bits);
        assert(Seq::<u8>::empty() + decoded(codes@, bits).unwrap() =~= decoded(
            codes@,
            bits,
        ).unwrap());
    }
    while j < packed.len()
        invariant
            j <= packed.len(),
            padding <= 7,
            bits == stream_bits(packed@, padding),
            trie.holds(codes@, 256),
            depth <= trie.depth,
            walking(codes@, bits, out@, at, depth, pos),
            j < packed.len() ==> pos == 8 * j,
            j == packed.len() ==> pos == bits.len(),
        decreases packed.len() - j,
    {
        let byte = packed[j];
        let limit: u8 = if j + 1 == packed.len() {
            (8 - padding) as u8
        } else {
            8
        };
        let mut k: u8 = 0;
        while k < limit
            invariant
                j < packed.len(),
                k <= limit <= 8,
                limit == if j + 1 == packed.len() {
                    8 - padding
                } else {
                    8
                },
                padding <= 7,
                byte == packed@[j as int],
                bits == stream_bits(packed@, padding),
                trie.holds(codes@, 256),
                depth <= trie.depth,
                pos == 8 * j + k,
                walking(codes@, bits, out@, at, depth, pos),
            decreases limit - k,
        {
            let bit = (byte >> (7 - k)) & 1 == 1;
            assert(bits[pos] == bit) by {
                assert((8 * j + k) / 8 == j);
                assert((8 * j + k) % 8 == k);
                assert(bit == byte_bit(byte, k as int));
            }
            if depth == trie.depth {
                proof {
                    lemma_walk_too_deep(codes@, bits, out@, at, depth, pos, trie.depth as nat);
                }
                return Err(HuffmanError::MalformedStream);
            }
            let ghost path = bits.subrange(pos - depth, pos + 1);
            proof {
                assert(path.drop_last() =~= bits.subrange(pos - depth, pos));
                lemma_node_of_bounds(path);
                lemma_path_of_node(path);
                if depth + 1 < trie.depth {
                    lemma_pow2_strictly_increases((depth + 2) as nat, (trie.depth + 1) as nat);
                }
                vstd::arithmetic::power2::lemma_pow2_pos(path.len());
                vstd::arithmetic::power2::lemma2_to64();
                if trie.depth < 16 {
                    lemma_pow2_strictly_increases((trie.depth + 1) as nat, 17);
                }
            }
            let next: usize = 2 * at + if bit {
                1
            } else {
                0
            };
            match trie.slots[next] {
                Some(s) => {
                    proof {
                        lemma_walk_found(codes@, bits, out@, at, depth, pos, s);
                    }
                    out.push(s);
                    at = 1;
                    depth = 0;
                },
                None => {
                    proof {
                        lemma_walk_on(codes@, bits, out@, at, depth, pos, next);
                    }
                    at = next;
                    depth = depth + 1;
                },
            }
            k += 1;
            proof {
                pos = pos + 1;
            }
        }
        j += 1;
    }
    proof {
        lemma_walk_end(codes@, bits, out@, at, depth);
        if depth == 0 {
            crate::roundtrip::lemma_decoded_spells(codes@, bits);
        }
    }
    if depth == 0 {
        Ok(out)
    } else {
        Err(HuffmanError::MalformedStream)
    }
}

} // verus!
