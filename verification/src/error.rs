//! The ways in which reading or rewriting a comment block can fail.

use vstd::prelude::*;

verus! {

/// Why an operation on a comment block or a container gave no result.
#[derive(Debug, Clone, PartialEq, Eq)]
pub enum Error {
    /// The output sink refused a write.
    Io,
    /// The packet that should hold the comment block does not parse as one.
    MalformedPacket,
    /// The source ended before the comment packet of the stream appeared.
    NotFound,
    /// A length or a count does not fit the 32-bit fields of the layout.
    Overflow,
    /// The packet reader reported a fault. The field holds what had been
    /// written up to then; it is no complete container.
    ReadError(Vec<u8>),
}

} // verus!
