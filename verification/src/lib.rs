//! Huffman prefix codes over the byte alphabet: building a code table from
//! symbol frequencies, packing bytes into a dense bit stream, and unpacking
//! such a stream again.
//!
//! The executable part is small: [`table::huffman`] builds the table,
//! [`encode::huffman_encode`] packs and [`decode::huffman_decode`] unpacks.
//! The rest states and proves what holds of them: that no code begins
//! another, that unpacking inverts packing, and that no prefix code is
//! shorter.

pub mod bits;
pub mod builder;
pub mod code;
pub mod decode;
pub mod encode;
pub mod error;
pub mod forest;
pub mod kraft;
pub mod optimal;
pub mod prefix;
pub mod queue;
pub mod roundtrip;
pub mod sums;
pub mod table;
pub mod tree;
