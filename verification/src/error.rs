//! The ways in which loading, decoding or evaluating a transmission fails.

use vstd::prelude::*;

verus! {

/// Why a transmission could not be loaded, decoded or evaluated.
#[derive(Debug, Clone, Copy, PartialEq, Eq, Structural)]
pub enum DecodeError {
    /// More bits were asked for than the input has left.
    ExhaustedInput,
    /// The text holds a character that is no hexadecimal digit.
    InvalidHexDigit,
    /// The sub-packets of a group delimited by a bit length run past its end.
    MalformedGroup,
    /// A comparison does not have exactly two operands, or a minimum or
    /// maximum has none.
    InvalidChildCount,
    /// An operator carries a type for which no operation is defined.
    UnknownPacketType,
    /// A literal, a sum, a product or a version sum does not fit in 64 bits.
    Overflow,
}

} // verus!
