use vstd::prelude::*;
use crate::code::pattern_bit;

verus! {

/// Bit `k` of `byte`, counted from the most significant bit.
pub open spec fn byte_bit(byte: u8, k: int) -> bool {
    0 <= k < 8 && (byte >> ((7 - k) as u8)) & 1u8 == 1u8
}

/// The bits of a byte sequence, each byte from its most significant bit down.
pub open spec fn bits_of(bytes: Seq<u8>) -> Seq<bool> {
    Seq::new(8 * bytes.len(), |i: int| byte_bit(bytes[i / 8], i % 8))
}

/// A run of `n` zero bits.
pub open spec fn zeros(n: nat) -> Seq<bool> {
    Seq::new(n, |i: int| false)
}

/// All bits of `byte` from bit `filled` on, counted from the most
/// significant bit, are zero.
pub open spec fn clear_from(byte: u8, filled: u8) -> bool {
    byte & (0xffu8 >> filled) == 0
}

/// What each bit of a byte reads after a chunk of a pattern was entered
/// behind its filled bits.
proof fn lemma_place_bit(byte: u8, filled: u8, pattern: u16, low: u16, n: u8, k: u8)
    by (bit_vector)
    requires
        filled < 8,
        1 <= n,
        filled + n <= 8,
        k < 8,
        low < 16,
        byte & (0xffu8 >> filled) == 0,
    ensures
        ({
            let chunk = (pattern >> low) & (((1u16 << (n as u16)) - 1) as u16);
            let out = byte | ((chunk << ((8 - filled - n) as u16)) as u8);
            ((out >> ((7 - k) as u8)) & 1u8 == 1u8) == (if k < filled {
                (byte >> ((7 - k) as u8)) & 1u8 == 1u8
            } else if k < filled + n {
                low + (filled + n - 1 - k) < 16 && (pattern >> ((low + (filled + n - 1 - k)) as u16))
                    & 1u16 == 1u16
            } else {
                false
            })
        }),
{
}

/// Behind an entered chunk the byte is still clear.
proof fn lemma_place_clear(byte: u8, filled: u8, pattern: u16, low: u16, n: u8)
    by (bit_vector)
    requires
        filled < 8,
        1 <= n,
        filled + n < 8,
        low < 16,
        byte & (0xffu8 >> filled) == 0,
    ensures
        ({
            let chunk = (pattern >> low) & (((1u16 << (n as u16)) - 1) as u16);
            let out = byte | ((chunk << ((8 - filled - n) as u16)) as u8);
            out & (0xffu8 >> ((filled + n) as u8)) == 0
        }),
{
}

/// A one moved up by at most eight bits stays within sixteen bits.
proof fn lemma_mask(n: u8)
    by (bit_vector)
    requires
        1 <= n <= 8,
    ensures
        (1u16 << (n as u16)) >= 1,
{
}

/// Below its filled bits a byte reads as zero.
pub proof fn lemma_clear_bit(byte: u8, filled: u8, k: u8)
    by (bit_vector)
    requires
        filled <= k < 8,
        byte & (0xffu8 >> filled) == 0,
    ensures
        (byte >> ((7 - k) as u8)) & 1u8 != 1u8,
{
}

/// A byte that holds `filled` bits may hold fewer of them set than it has
/// room for: every later position still counts as clear.
pub proof fn lemma_clear_later(byte: u8, filled: u8, later: u8)
    by (bit_vector)
    requires
        filled <= later < 8,
        byte & (0xffu8 >> filled) == 0,
    ensures
        byte & (0xffu8 >> later) == 0,
{
}

/// Enters `n` bits of `pattern`, from bit `low + n - 1` down to bit `low`,
/// into `byte` behind the `filled` bits that it holds.
pub fn place(byte: u8, filled: u8, pattern: u16, low: u16, n: u8) -> (out: u8)
    requires
        filled < 8,
        1 <= n,
        filled + n <= 8,
        low < 16,
        clear_from(byte, filled),
    ensures
        forall|k: int|
            0 <= k < 8 ==> #[trigger] byte_bit(out, k) == (if k < filled {
                byte_bit(byte, k)
            } else if k < filled + n {
                pattern_bit(pattern, low + (filled + n - 1 - k))
            } else {
                false
            }),
        filled + n < 8 ==> clear_from(out, (filled + n) as u8),
{
    proof {
        lemma_mask(n);
    }
    let mask: u16 = (1u16 << (n as u16)) - 1;
    let chunk: u16 = (pattern >> low) & mask;
    let moved: u16 = chunk << ((8 - filled - n) as u16);
    let out = byte | (#[verifier::truncate] (moved as u8));
    proof {
        assert forall|k: int| 0 <= k < 8 implies #[trigger] byte_bit(out, k) == (if k < filled {
            byte_bit(byte, k)
        } else if k < filled + n {
            pattern_bit(pattern, low + (filled + n - 1 - k))
        } else {
            false
        }) by {
            lemma_place_bit(byte, filled, pattern, low, n, k as u8);
        }
        if filled + n < 8 {
            lemma_place_clear(byte, filled, pattern, low, n);
        }
    }
    out
}

} // verus!
