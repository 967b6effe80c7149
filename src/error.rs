use vstd::prelude::*;

verus! {

/// Why a decode or a packet build failed.
#[derive(Debug, Clone, Copy, PartialEq, Eq, Structural)]
pub enum ProtocolError {
    /// The input ended before a fixed-width field or a declared length was complete.
    ShortRead,
    /// A variable-length integer carried more groups than its width allows.
    VarNumberTooLong,
    /// A string payload is not valid UTF-8.
    InvalidUtf8,
    /// A section lacks the block-state or biome data needed to serialize it.
    MissingSectionData,
}

} // verus!
