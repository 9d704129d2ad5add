//! The error surface of the codec.
//!
//! Every failure is reported explicitly; the codec never retries and
//! never panics on any input its contracts admit.

use vstd::prelude::*;

verus! {

/// Why an encode or decode call failed.
#[derive(Clone, Copy, Debug, PartialEq, Eq, Structural)]
pub enum CodecError {
    /// The bit sequence ended before a fixed-width field completed.
    Truncated,
    /// A Golomb-Rice unary run never reached its terminating zero.
    Unterminated,
    /// An encode-time value needs more bits than the width allotted
    /// by the active configuration.
    Overflow,
    /// A requested field width exceeds the capacity of the symbol type.
    WidthExceeded,
    /// A decoded value does not fit the requested symbol width.
    Cast,
    /// An immediate run was requested with a count of zero.
    BadCount,
    /// A reference size lies outside the range the configuration encodes.
    BadSize,
    /// The decoder's recursion-depth safety cap tripped.
    DepthExceeded,
    /// The decoder's cycle-count safety cap tripped.
    RuntimeExceeded,
}

} // verus!
