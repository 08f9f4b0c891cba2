use vstd::prelude::*;
use vstd::slice::slice_subrange;

use crate::error::DecodeError;

verus! {

/// Number of bytes of the header.
pub const HEADER_SIZE: usize = 14;

/// The image's dimensions and the two descriptive tags that follow them.
#[derive(Clone, Copy, Debug, PartialEq, Eq, Structural)]
pub struct QOIHeader {
    pub width: u32,
    pub height: u32,
    pub channels: u8,
    pub colorspace: u8,
}

/// The four signature bytes, `qoif` in ASCII.
pub open spec fn signature() -> Seq<u8> {
    seq![0x71u8, 0x6fu8, 0x69u8, 0x66u8]
}

/// The bytes of `s` that fall on the signature agree with it.
pub open spec fn signature_agrees(s: Seq<u8>) -> bool {
    forall|i: int| 0 <= i < 4 && i < s.len() ==> s[i] == #[trigger] signature()[i]
}

/// The big-endian 32-bit number in bytes `i .. i + 4` of `s`.
pub open spec fn be_u32_at(s: Seq<u8>, i: int) -> u32 {
    (s[i] * 0x1000000 + s[i + 1] * 0x10000 + s[i + 2] * 0x100 + s[i + 3]) as u32
}

/// The header fields held by the first 14 bytes of `s`.
pub open spec fn header_of(s: Seq<u8>) -> QOIHeader {
    QOIHeader { width: be_u32_at(s, 4), height: be_u32_at(s, 8), channels: s[12], colorspace: s[13] }
}

/// The header at the front of `s` and the bytes after it.
pub open spec fn header_result(s: Seq<u8>) -> Result<(Seq<u8>, QOIHeader), DecodeError> {
    if !signature_agrees(s) {
        Err(DecodeError::BadSignature)
    } else if s.len() < HEADER_SIZE {
        Err(DecodeError::Truncated)
    } else {
        Ok((s.skip(HEADER_SIZE as int), header_of(s)))
    }
}

/// The big-endian number in four bytes.
fn read_be_u32(input: &[u8], i: usize) -> (r: u32)
    requires
        i + 4 <= input@.len(),
    ensures
        r == be_u32_at(input@, i as int),
{
    let b0 = input[i] as u32;
    let b1 = input[i + 1] as u32;
    let b2 = input[i + 2] as u32;
    let b3 = input[i + 3] as u32;
    b0 * 0x1000000 + b1 * 0x10000 + b2 * 0x100 + b3
}

/// Reads the 14-byte header: the signature, width and height (big-endian),
/// the channel count and the colorspace tag.
pub fn parse_header(input: &[u8]) -> (r: Result<(&[u8], QOIHeader), DecodeError>)
    ensures
        match r {
            Ok((rest, h)) => header_result(input@) == Ok::<(Seq<u8>, QOIHeader), DecodeError>((rest@, h)),
            Err(e) => header_result(input@) == Err::<(Seq<u8>, QOIHeader), DecodeError>(e),
        },
{
    let expected: [u8; 4] = [0x71, 0x6f, 0x69, 0x66];
    let mut i: usize = 0;
    while i < 4 && i < input.len()
        invariant
            i <= 4,
            expected@ == signature(),
            forall|j: int| 0 <= j < i ==> input@[j] == #[trigger] signature()[j],
        decreases 4 - i,
    {
        if input[i] != expected[i] {
            return Err(DecodeError::BadSignature);
        }
        i = i + 1;
    }
    if input.len() < HEADER_SIZE {
        return Err(DecodeError::Truncated);
    }
    let header = QOIHeader {
        width: read_be_u32(input, 4),
        height: read_be_u32(input, 8),
        channels: input[12],
        colorspace: input[13],
    };
    Ok((slice_subrange(input, HEADER_SIZE, input.len()), header))
}

} // verus!
