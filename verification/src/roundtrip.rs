use vstd::prelude::*;
use crate::bits::{bits_of, zeros};
use crate::builder::total_frequency;
use crate::code::Code;
use crate::decode::{decoded, first_code, stream_bits, symbol_at, symbol_below, well_padded};
use crate::encode::{all_coded, encoded_bits, padding_for};
use crate::prefix::{lemma_huffman_prefix_free, prefix_free};
use crate::table::huffman_table;

verus! {

/// The bits of a byte sequence begin with the code of its first byte.
pub proof fn lemma_encoded_front(codes: Seq<Code>, src: Seq<u8>)
    requires
        src.len() > 0,
    ensures
        encoded_bits(codes, src) == codes[src[0] as int]@ + encoded_bits(codes, src.skip(1)),
    decreases src.len(),
{
    let head = codes[src[0] as int]@;
    if src.len() == 1 {
        assert(src.drop_last() =~= Seq::<u8>::empty());
        assert(src.skip(1) =~= Seq::<u8>::empty());
        assert(encoded_bits(codes, src.drop_last()) + head =~= head + encoded_bits(
            codes,
            src.skip(1),
        ));
    } else {
        lemma_encoded_front(codes, src.drop_last());
        assert(src.skip(1).drop_last() =~= src.drop_last().skip(1));
        let last = codes[src.last() as int]@;
        let mid = encoded_bits(codes, src.drop_last().skip(1));
        assert((head + mid) + last =~= head + (mid + last));
    }
}

/// What `symbol_below` finds is the greatest symbol with the given code.
pub proof fn lemma_symbol_below(codes: Seq<Code>, path: Seq<bool>, n: nat)
    requires
        n <= 256,
    ensures
        match symbol_below(codes, path, n) {
            Some(t) => t < n && 1 <= codes[t as int].1 <= 16 && codes[t as int]@ == path,
            None => forall|u: int|
                0 <= u < n ==> !(1 <= codes[u].1 <= 16 && (#[trigger] codes[u])@ == path),
        },
    decreases n,
{
    if n > 0 {
        lemma_symbol_below(codes, path, (n - 1) as nat);
    }
}

/// In a prefix-free table the first code at the head of bits that begin
/// with the code of `s` is that code.
pub proof fn lemma_first_code(codes: Seq<Code>, bits: Seq<bool>, s: u8, n: nat)
    requires
        codes.len() == 256,
        prefix_free(codes),
        1 <= codes[s as int].1 <= 16,
        codes[s as int]@.is_prefix_of(bits),
        1 <= n <= codes[s as int].1,
    ensures
        first_code(codes, bits, n) == Some((s, codes[s as int].1 as nat)),
    decreases codes[s as int].1 - n,
{
    let code = codes[s as int]@;
    let path = bits.take(n as int);
    lemma_symbol_below(codes, path, 256);
    assert(path =~= code.take(n as int));
    match symbol_at(codes, path) {
        Some(t) => {
            assert(codes[t as int]@.is_prefix_of(code));
            assert(t == s);
        },
        None => {
            if n == codes[s as int].1 {
                assert(code.take(n as int) =~= code);
                assert(codes[s as int]@ == path);
            } else {
                lemma_first_code(codes, bits, s, n + 1);
            }
        },
    }
}

/// The bits of a byte sequence spell that sequence: with a prefix-free
/// table, unpacking what was packed gives the bytes back.
pub proof fn lemma_bits_spell_bytes(codes: Seq<Code>, src: Seq<u8>)
    requires
        codes.len() == 256,
        prefix_free(codes),
        forall|i: int| 0 <= i < src.len() ==> 1 <= (#[trigger] codes[src[i] as int]).1 <= 16,
    ensures
        decoded(codes, encoded_bits(codes, src)) == Some(src),
    decreases src.len(),
{
    let bits = encoded_bits(codes, src);
    if src.len() == 0 {
        assert(bits.len() == 0);
    } else {
        let s = src[0];
        let code = codes[s as int];
        let rest = src.skip(1);
        lemma_encoded_front(codes, src);
        assert(bits.take(code.1 as int) =~= code@);
        assert(bits.skip(code.1 as int) =~= encoded_bits(codes, rest));
        assert(code@.is_prefix_of(bits));
        lemma_first_code(codes, bits, s, 1);
        assert forall|i: int| 0 <= i < rest.len() implies 1 <= (#[trigger] codes[rest[i] as int]).1
            <= 16 by {
            assert(rest[i] == src[i + 1]);
        }
        lemma_bits_spell_bytes(codes, rest);
        assert(seq![s] + rest =~= src);
    }
}

/// Unpacking inverts packing. Let `packed` and `padding` be what
/// `huffman_encode` gives for `src`: bytes whose bits are the codes of `src`
/// followed by the filler bits. Then, with a prefix-free table whose codes
/// for the bytes of `src` have between one and sixteen bits, the padding
/// fits the stream and the stream spells `src`, which is what
/// `huffman_decode` gives back.
pub proof fn lemma_decode_inverts_encode(
    codes: Seq<Code>,
    src: Seq<u8>,
    packed: Seq<u8>,
    padding: usize,
)
    requires
        codes.len() == 256,
        prefix_free(codes),
        forall|i: int| 0 <= i < src.len() ==> 1 <= (#[trigger] codes[src[i] as int]).1 <= 16,
        padding == padding_for(encoded_bits(codes, src).len()),
        bits_of(packed) == encoded_bits(codes, src) + zeros(padding as nat),
    ensures
        well_padded(packed, padding),
        stream_bits(packed, padding) == encoded_bits(codes, src),
        decoded(codes, stream_bits(packed, padding)) == Some(src),
{
    let bits = encoded_bits(codes, src);
    assert(bits_of(packed).len() == bits.len() + padding);
    assert(stream_bits(packed, padding) =~= bits);
    lemma_bits_spell_bytes(codes, src);
}

/// Unpacking inverts packing for the table of a frequency table. Let no
/// code of the table have more than sixteen bits, let every byte of `src`
/// occur in the frequency table, and let `packed` and `padding` be what
/// `huffman_encode` gives for `src`. Then every byte of `src` has a code,
/// and `huffman_decode` gives `src` back.
pub proof fn lemma_huffman_round_trip(
    frequencies: Seq<usize>,
    src: Seq<u8>,
    packed: Seq<u8>,
    padding: usize,
)
    requires
        frequencies.len() == 256,
        total_frequency(frequencies) <= usize::MAX,
        forall|s: int| 0 <= s < 256 ==> (#[trigger] huffman_table(frequencies)[s]).1 <= 16,
        forall|i: int| 0 <= i < src.len() ==> frequencies[src[i] as int] != 0,
        padding == padding_for(encoded_bits(huffman_table(frequencies), src).len()),
        bits_of(packed) == encoded_bits(huffman_table(frequencies), src) + zeros(padding as nat),
    ensures
        all_coded(huffman_table(frequencies), src),
        well_padded(packed, padding),
        decoded(huffman_table(frequencies), stream_bits(packed, padding)) == Some(src),
{
    let codes = huffman_table(frequencies);
    lemma_huffman_prefix_free(frequencies);
    assert forall|i: int| 0 <= i < src.len() implies 1 <= (#[trigger] codes[src[i] as int]).1
        <= 16 by {
        assert(frequencies[src[i] as int] != 0);
    }
    lemma_decode_inverts_encode(codes, src, packed, padding);
}

/// The first code at the head of bits is the code of its symbol, and has
/// between one and sixteen bits.
pub proof fn lemma_first_code_spells(codes: Seq<Code>, bits: Seq<bool>, k: nat)
    requires
        first_code(codes, bits, k) is Some,
    ensures
        ({
            let (s, n) = first_code(codes, bits, k).unwrap();
            &&& k <= n <= 16
            &&& 1 <= n <= bits.len()
            &&& codes[s as int].1 == n
            &&& codes[s as int]@ == bits.take(n as int)
        }),
    decreases 17 - k,
{
    lemma_symbol_below(codes, bits.take(k as int), 256);
    match symbol_at(codes, bits.take(k as int)) {
        Some(s) => {
            assert(codes[s as int]@.len() == codes[s as int].1);
        },
        None => {
            lemma_first_code_spells(codes, bits, k + 1);
        },
    }
}

/// What a stream unpacks to packs to the stream: if `bits` spells a byte
/// sequence, every byte of it has a code, and the codes of its bytes, one
/// behind the other, are `bits`.
pub proof fn lemma_decoded_spells(codes: Seq<Code>, bits: Seq<bool>)
    requires
        decoded(codes, bits) is Some,
    ensures
        all_coded(codes, decoded(codes, bits).unwrap()),
        encoded_bits(codes, decoded(codes, bits).unwrap()) == bits,
    decreases bits.len(),
{
    let out = decoded(codes, bits).unwrap();
    if bits.len() == 0 {
        assert(encoded_bits(codes, out) =~= bits);
    } else {
        lemma_first_code_spells(codes, bits, 1);
        let (s, n) = first_code(codes, bits, 1).unwrap();
        let after = bits.skip(n as int);
        let rest = decoded(codes, after).unwrap();
        lemma_decoded_spells(codes, after);
        assert(out == seq![s] + rest);
        assert(out.skip(1) =~= rest);
        lemma_encoded_front(codes, out);
        assert(bits.take(n as int) + after =~= bits);
        assert forall|i: int| 0 <= i < out.len() implies (#[trigger] codes[out[i] as int]).1
            != 0 by {
            if i > 0 {
                assert(out[i] == rest[i - 1]);
            }
        }
    }
}

/// With a prefix-free table a stream is refused only if nothing packs to
/// it: no byte sequence whose bytes have codes of one to sixteen bits has
/// the bits of the stream as its codes.
pub proof fn lemma_refused_is_unspeakable(codes: Seq<Code>, bits: Seq<bool>, src: Seq<u8>)
    requires
        codes.len() == 256,
        prefix_free(codes),
        decoded(codes, bits) is None,
        forall|i: int| 0 <= i < src.len() ==> 1 <= (#[trigger] codes[src[i] as int]).1 <= 16,
    ensures
        encoded_bits(codes, src) != bits,
{
    lemma_bits_spell_bytes(codes, src);
}

} // verus!
