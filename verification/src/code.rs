use vstd::prelude::*;
use vstd::string::StringExecFns;

verus! {

/// A code: a bit pattern and the number of its low bits that count, read
/// from the most significant of them down.
///
/// A length of zero marks a symbol without a code. A pattern has room for
/// sixteen bits; a code that claims more reads as zero above them, and only
/// a code for which `wf` holds says all that its path through a tree says.
#[derive(Clone, Copy)]
pub struct Code(pub u16, pub usize);

/// Bit `k` of `pattern`, counted from the least significant bit; bits beyond
/// the sixteenth read as zero.
pub open spec fn pattern_bit(pattern: u16, k: int) -> bool {
    0 <= k < 16 && (pattern >> (k as u16)) & 1u16 == 1u16
}

impl View for Code {
    type V = Seq<bool>;

    /// The code as a bit sequence, most significant bit first.
    open spec fn view(&self) -> Seq<bool> {
        Seq::new(self.1 as nat, |i: int| pattern_bit(self.0, self.1 - 1 - i))
    }
}

impl Code {
    /// A code is well formed when it has at most sixteen bits and its
    /// pattern has nothing set above them.
    pub open spec fn wf(self) -> bool {
        &&& self.1 <= 16
        &&& forall|k: int| self.1 <= k < 16 ==> !pattern_bit(self.0, k)
    }
}

/// The character that stands for a bit.
pub open spec fn bit_char(bit: bool) -> char {
    if bit {
        '1'
    } else {
        '0'
    }
}

impl Code {
    /// The code written out in binary digits, most significant bit first.
    /// The empty code gives the empty string.
    pub fn bit_string(&self) -> (s: String)
        ensures
            s@ == self@.map_values(|b: bool| bit_char(b)),
    {
        let mut s = String::new();
        let mut i: usize = 0;
        while i < self.1
            invariant
                i <= self.1,
                s@ == self@.take(i as int).map_values(|b: bool| bit_char(b)),
            decreases self.1 - i,
        {
            let k = self.1 - 1 - i;
            let bit = k < 16 && (self.0 >> (k as u16)) & 1 == 1;
            let ghost before = s@;
            if bit {
                s.append("1");
            } else {
                s.append("0");
            }
            proof {
                reveal_strlit("1");
                reveal_strlit("0");
                assert(bit == self@[i as int]);
                assert(s@ =~= before.push(bit_char(bit)));
                assert(self@.take(i + 1).map_values(|b: bool| bit_char(b)) =~= before.push(
                    bit_char(bit),
                ));
            }
            i += 1;
        }
        proof {
            assert(self@.take(self.1 as int) =~= self@);
        }
        s
    }
}

} // verus!
