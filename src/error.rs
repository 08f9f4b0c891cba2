use vstd::prelude::*;

verus! {

/// The ways a decode can fail; every failure is reported, none aborts.
#[derive(Clone, Copy, Debug, PartialEq, Eq, Structural)]
pub enum DecodeError {
    /// The first bytes are not the format's signature.
    BadSignature,
    /// The bytes end inside the header or inside a chunk.
    Truncated,
    /// A chunk parser was handed a byte that does not carry its tag.
    UnknownChunkTag,
    /// The chunks would write more pixels than the image holds.
    BufferOverrun,
    /// The chunks end before every pixel of the image has been written.
    IncompleteImage,
}

} // verus!
