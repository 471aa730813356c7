//! A Huffman entropy coder.
//!
//! From a non-empty sequence of symbols the library counts symbol
//! frequencies, greedily merges the symbol/frequency pairs into a binary
//! tree, derives a prefix-free code table from the tree, and uses tree and
//! table together to encode symbol sequences to bit sequences and back.

pub mod node;
pub mod freq;
pub mod table;
pub mod builder;
pub mod coder;
pub mod text;

pub use builder::build_huffman_from_frequencies;
pub use builder::build_table;
pub use coder::HuffmanTree;
pub use freq::get_frequencies;
pub use freq::FreqTable;
pub use node::Node;
pub use table::CodeTable;
pub use text::char_slice_to_string;
pub use text::char_vec_to_string;
pub use text::code_to_string;

use vstd::prelude::*;

verus! {

/// The failures a caller can see.  All are recoverable error values:
/// no operation of the library panics.
#[derive(Clone, Copy, Debug, PartialEq, Eq)]
pub enum HuffmanError {
    /// Frequency analysis was attempted on an empty symbol sequence.
    EmptyInput,
    /// Encoding was requested for a symbol absent from the coder's alphabet.
    UnknownSymbol,
    /// Decoding's bit stream ended in the middle of a code.
    TruncatedCode,
    /// An internal node was found without a child during table derivation.
    /// The owned tree representation cannot express such a node, so this
    /// value is never produced; it completes the error taxonomy.
    InvariantViolation,
}

} // verus!
