//! Why a parse ended before the end of its input.

use vstd::prelude::*;

use crate::element::ElementKind;

verus! {

/// What could not be decoded.
#[derive(Clone, Copy, Debug, PartialEq, Eq, Structural)]
pub enum DecodeFault {
    /// The markup is not UTF-8 text.
    Encoding,
    /// The markup is not a well-formed document.
    Markup,
    /// The binary input breaks off, or its frame around a block is malformed.
    Framing,
    /// A block of the binary input cannot be decoded.
    Block,
}

/// The first thing that went wrong. Nothing is delivered after it.
#[derive(Clone, Copy, Debug, PartialEq, Eq, Structural)]
pub enum ParseError {
    /// The input as a whole, or a block of it, could not be decoded.
    Decode(DecodeFault),
    /// A record of the given kind lacks something it must have, or holds text
    /// where a number belongs.
    Schema(ElementKind),
    /// The sink asked for the parse to stop.
    SinkAborted,
}

} // verus!
