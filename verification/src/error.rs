use vstd::prelude::*;

verus! {

/// Why a byte sequence could not be packed or a bit stream not unpacked.
#[derive(Clone, Copy, Debug, PartialEq, Eq)]
pub enum HuffmanError {
    /// A byte to pack has no code in the table.
    UnknownSymbol,
    /// The bit stream does not consist of codes of the table, or its
    /// padding count does not fit it.
    MalformedStream,
}

} // verus!
