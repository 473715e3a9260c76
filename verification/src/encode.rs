use vstd::prelude::*;
use crate::bits::{
    bits_of, byte_bit, clear_from, lemma_clear_bit, lemma_clear_later, place, zeros,
};
use crate::code::{pattern_bit, Code};
use crate::error::HuffmanError;

verus! {

/// The codes of the bytes of `src`, one behind the other.
pub open spec fn encoded_bits(codes: Seq<Code>, src: Seq<u8>) -> Seq<bool>
    decreases src.len(),
{
    if src.len() == 0 {
        Seq::empty()
    } else {
        encoded_bits(codes, src.drop_last()) + codes[src.last() as int]@
    }
}

/// Every byte of `src` has a code in the table.
pub open spec fn all_coded(codes: Seq<Code>, src: Seq<u8>) -> bool {
    forall|i: int| 0 <= i < src.len() ==> (#[trigger] codes[src[i] as int]).1 != 0
}

/// The number of filler bits behind `bits` bits: what is missing to a whole
/// number of bytes.
pub open spec fn padding_for(bits: nat) -> nat {
    ((8 - bits % 8) % 8) as nat
}

/// The bytes `out`, and the first `filled` bits of `byte` behind them, hold
/// exactly the bits `done`.
pub open spec fn holds(out: Seq<u8>, byte: u8, filled: u8, done: Seq<bool>) -> bool {
    &&& done.len() == 8 * out.len() + filled
    &&& forall|i: int| 0 <= i < 8 * out.len() ==> byte_bit(out[i / 8], i % 8) == #[trigger] done[i]
    &&& forall|k: int| 0 <= k < filled ==> #[trigger] byte_bit(byte, k) == done[8 * out.len() + k]
}

/// Packs the codes of the bytes of `src` into bytes, most significant bit
/// first, and returns them with the number of filler bits at the end of the
/// last byte. The filler bits are zero. A byte without a code in the table
/// is refused.
pub fn huffman_encode(codes: &[Code; 256], src: &[u8]) -> (result: Result<
    (Vec<u8>, usize),
    HuffmanError,
>)
    ensures
        match result {
            Ok((packed, padding)) => {
                &&& all_coded(codes@, src@)
                &&& padding == padding_for(encoded_bits(codes@, src@).len())
                &&& padding <= 7
                &&& padding == 0 <==> encoded_bits(codes@, src@).len() % 8 == 0
                &&& bits_of(packed@) == encoded_bits(codes@, src@) + zeros(padding as nat)
            },
            Err(e) => e == HuffmanError::UnknownSymbol && !all_coded(codes@, src@),
        },
{
    let mut result: Vec<u8> = Vec::new();
    let mut byte: u8 = 0;
    let mut filled: u8 = 0;
    let mut i: usize = 0;
    assert(clear_from(0u8, 0u8)) by (bit_vector);
    while i < src.len()
        invariant
            i <= src.len(),
            filled < 8,
            clear_from(byte, filled),
            all_coded(codes@, src@.take(i as int)),
            holds(result@, byte, filled, encoded_bits(codes@, src@.take(i as int))),
        decreases src.len() - i,
    {
        let code = codes[src[i] as usize];
        let pattern = code.0;
        if code.1 == 0 {
            return Err(HuffmanError::UnknownSymbol);
        }
        let ghost before = encoded_bits(codes@, src@.take(i as int));
        let mut length: usize = code.1;
        while length > 0
            invariant
                length <= code.1,
                pattern == code.0,
                filled < 8,
                clear_from(byte, filled),
                holds(result@, byte, filled, before + code@.take(code.1 - length)),
            decreases length,
        {
            let ghost done = before + code@.take(code.1 - length);
            let room: u8 = 8 - filled;
            let n: u8 = if length < room as usize {
                length as u8
            } else {
                room
            };
            let low: usize = length - n as usize;
            let ghost old_byte = byte;
            if low < 16 {
                byte = place(byte, filled, pattern, low as u16, n);
            } else {
                proof {
                    if filled + n < 8 {
                        lemma_clear_later(byte, filled, (filled + n) as u8);
                    }
                }
            }
            let ghost next = before + code@.take(code.1 - length + n);
            proof {
                assert(next.len() == done.len() + n);
                assert forall|j: int| 0 <= j < done.len() implies next[j] == done[j] by {}
                assert forall|k: int| 0 <= k < filled + n implies #[trigger] byte_bit(byte, k)
                    == next[8 * result@.len() + k] by {
                    if k < filled {
                        assert(byte_bit(old_byte, k) == done[8 * result@.len() + k]);
                    } else {
                        let at = code.1 - length + (k - filled);
                        assert(next[8 * result@.len() + k] == code@[at]);
                        assert(code@[at] == pattern_bit(pattern, code.1 - 1 - at));
                        if low >= 16 {
                            lemma_clear_bit(old_byte, filled, k as u8);
                        }
                    }
                }
            }
            filled = filled + n;
            if filled == 8 {
                let ghost out = result@;
                result.push(byte);
                proof {
                    assert forall|j: int| 0 <= j < 8 * result@.len() implies byte_bit(
                        result@[j / 8],
                        j % 8,
                    ) == #[trigger] next[j] by {
                        if j < 8 * out.len() {
                            assert(result@[j / 8] == out[j / 8]);
                            assert(next[j] == done[j]);
                        } else {
                            assert(j / 8 == out.len());
                            assert(byte_bit(byte, j % 8) == next[8 * out.len() + j % 8]);
                        }
                    }
                    assert(clear_from(0u8, 0u8)) by (bit_vector);
                }
                byte = 0;
                filled = 0;
            } else {
                proof {
                    assert forall|j: int| 0 <= j < 8 * result@.len() implies byte_bit(
                        result@[j / 8],
                        j % 8,
                    ) == #[trigger] next[j] by {
                        assert(next[j] == done[j]);
                    }
                }
            }
            length = length - n as usize;
        }
        proof {
            assert(code@.take(code.1 as int) =~= code@);
            assert(src@.take(i + 1).drop_last() =~= src@.take(i as int));
            assert(src@.take(i + 1).last() == src@[i as int]);
            assert forall|j: int| 0 <= j < i + 1 implies (#[trigger] codes@[src@.take(i + 1)[j] as int]).1
                != 0 by {
                if j < i {
                    assert(src@.take(i as int)[j] == src@[j]);
                }
            }
        }
        i += 1;
    }
    proof {
        assert(src@.take(i as int) =~= src@);
    }
    let ghost bits = encoded_bits(codes@, src@);
    if filled == 0 {
        proof {
            assert(bits_of(result@) =~= bits + zeros(0));
        }
        Ok((result, 0))
    } else {
        let ghost out = result@;
        result.push(byte);
        let padding: usize = (8 - filled) as usize;
        proof {
            assert forall|j: int| 0 <= j < 8 * result@.len() implies bits_of(result@)[j] == (bits
                + zeros(padding as nat))[j] by {
                if j < 8 * out.len() {
                    assert(result@[j / 8] == out[j / 8]);
                    assert(byte_bit(out[j / 8], j % 8) == bits[j]);
                } else {
                    assert(j / 8 == out.len());
                    let k = j % 8;
                    if k < filled {
                        assert(byte_bit(byte, k) == bits[8 * out.len() + k]);
                    } else {
                        lemma_clear_bit(byte, filled, k as u8);
                    }
                }
            }
            assert(bits_of(result@) =~= bits + zeros(padding as nat));
        }
        Ok((result, padding))
    }
}

} // verus!
