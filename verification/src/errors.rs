//! Error kinds of the chat core and its companion tools.

use vstd::prelude::*;

verus! {

/// Invalid configuration or map text, rejected before any session state or
/// network activity exists.
#[derive(Clone, Copy, Debug, PartialEq, Eq, Structural)]
pub enum ParseError {
    /// An offset that is neither a decimal nor a `0x`-prefixed hex number
    /// fitting in 64 bits.
    InvalidOffset,
    /// A hex string whose digit count is odd once spaces are removed.
    OddHexLength,
    /// A character that is not a hexadecimal digit where one is needed.
    InvalidHexDigit,
    /// A grid map with no rows.
    EmptyMap,
    /// A grid map whose rows do not all have the same width.
    RaggedMap,
}

/// Malformed or truncated wire data; fatal to the connection and never
/// silently resynchronized.
#[derive(Clone, Copy, Debug, PartialEq, Eq, Structural)]
pub enum ProtocolError {
    /// Fewer than the four length-prefix bytes are present.
    TruncatedHeader,
    /// The declared payload length exceeds the bytes available.
    TruncatedPayload,
}

} // verus!
